//! The targets that a finished bitmap can be handed to.

use vstd::prelude::*;
use vstd::string::*;
use crate::bitmap::Bitmap;

pub mod ansi;
pub mod framebuffer;
pub mod image;

verus! {

/// A target that offers a canvas and shows a bitmap on it.
pub trait Renderer {
    /// Shows the bitmap.
    fn render(&mut self, bitmap: &Bitmap);

    /// The width and height of the canvas, in pixels.
    fn get_size(&self) -> (usize, usize);
}

/// The kinds of renderer that there are.
#[derive(Debug, Copy, Clone, PartialEq, Eq, Structural)]
pub enum Renderers {
    /// Colored half blocks on a terminal.
    Ansi,
    /// An image file.
    Image,
    /// The pixels of a framebuffer device.
    Framebuffer,
}

/// A letter of the basic Latin alphabet in lower case; any other character as it is.
pub open spec fn lowered_char(c: char) -> char {
    if 'A' <= c <= 'Z' {
        ((c as u8) + 32) as char
    } else {
        c
    }
}

/// A text with its letters of the basic Latin alphabet in lower case.
pub open spec fn lowered(text: Seq<char>) -> Seq<char> {
    Seq::new(text.len(), |i: int| lowered_char(text[i]))
}

impl Renderers {
    /// The kind of renderer that a name stands for. Upper and lower case
    /// letters count alike.
    pub open spec fn named(name: Seq<char>) -> Result<Renderers, ()> {
        if lowered(name) == "ansi"@ {
            Ok(Renderers::Ansi)
        } else if lowered(name) == "image"@ {
            Ok(Renderers::Image)
        } else if lowered(name) == "framebuffer"@ {
            Ok(Renderers::Framebuffer)
        } else {
            Err(())
        }
    }

    /// Reads the kind of renderer from its name.
    pub fn from_str(input: &str) -> (kind: Result<Renderers, ()>)
        ensures
            kind == Renderers::named(input@),
    {
        proof {
            reveal_strlit("ansi");
            reveal_strlit("image");
            reveal_strlit("framebuffer");
        }
        if is_name(input, "ansi") {
            Ok(Renderers::Ansi)
        } else if is_name(input, "image") {
            Ok(Renderers::Image)
        } else if is_name(input, "framebuffer") {
            Ok(Renderers::Framebuffer)
        } else {
            Err(())
        }
    }
}

/// Whether a text is the given name, which is in lower case, but for the
/// case of its letters.
fn is_name(input: &str, name: &str) -> (same: bool)
    requires
        forall|i: int| 0 <= i < name@.len() ==> 'a' <= #[trigger] name@[i] <= 'z',
    ensures
        same == (lowered(input@) == name@),
{
    if !input.is_ascii() {
        proof {
            let i = choose|i: int| 0 <= i < input@.len() && !('\0' <= #[trigger] input@[i] <= '\u{7f}');
            if lowered(input@) == name@ {
                assert(lowered(input@)[i] == input@[i]);
                assert('a' <= name@[i] <= 'z');
            }
        }
        return false;
    }
    assert(is_ascii(name)) by {
        assert forall|i: int| 0 <= i < name@.len() implies '\0' <= #[trigger] name@[i] <= '\u{7f}' by {
            assert('a' <= name@[i] <= 'z');
        }
    }
    let given = input.as_bytes();
    let wanted = name.as_bytes();
    proof {
        is_ascii_spec_bytes(input);
        is_ascii_spec_bytes(name);
    }
    if given.len() != wanted.len() {
        return false;
    }
    let mut i: usize = 0;
    while i < given.len()
        invariant
            i <= given@.len(),
            given@.len() == input@.len(),
            wanted@.len() == name@.len(),
            given@.len() == wanted@.len(),
            forall|j: int| 0 <= j < given@.len() ==> given@[j] == input@[j] as u8,
            forall|j: int| 0 <= j < wanted@.len() ==> wanted@[j] == name@[j] as u8,
            forall|j: int| 0 <= j < input@.len() ==> '\0' <= #[trigger] input@[j] <= '\u{7f}',
            forall|j: int| 0 <= j < name@.len() ==> 'a' <= #[trigger] name@[j] <= 'z',
            forall|j: int| 0 <= j < i ==> lowered_char(#[trigger] input@[j]) == name@[j],
        decreases given@.len() - i,
    {
        let byte = given[i];
        let low = if byte >= 65 && byte <= 90 {
            byte + 32
        } else {
            byte
        };
        if low != wanted[i] {
            proof {
                assert('a' <= name@[i as int] <= 'z');
                assert('\0' <= input@[i as int] <= '\u{7f}');
                assert(lowered(input@)[i as int] != name@[i as int]);
            }
            return false;
        }
        proof {
            assert('a' <= name@[i as int] <= 'z');
            assert('\0' <= input@[i as int] <= '\u{7f}');
        }
        i += 1;
    }
    assert(lowered(input@) =~= name@);
    true
}

/// The name of the renderer that is used where none is asked for.
pub fn default_renderer_name() -> (name: String)
    ensures
        name@ == "ansi"@,
        Renderers::named(name@) == Ok::<Renderers, ()>(Renderers::Ansi),
{
    proof {
        reveal_strlit("ansi");
        assert(lowered("ansi"@) =~= "ansi"@);
    }
    String::from_str("ansi")
}

} // verus!
