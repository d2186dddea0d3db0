//! Colors and the bitmap that a flag is painted into.

use vstd::prelude::*;
use vstd::string::*;

verus! {

/// Why a text is not a color.
#[derive(Debug, Copy, Clone, PartialEq, Eq, Structural)]
pub enum ColorError {
    /// The text does not start with `#`.
    MissingHash,
    /// A character after the `#` is not a hexadecimal digit.
    InvalidDigit,
    /// The digits after the `#` are not six in number, so they either leave a
    /// channel out or name a value above `ffffff`.
    WrongLength,
}

/// The value of a hexadecimal digit, in either case.
pub open spec fn hex_value(c: char) -> Option<u8> {
    if '0' <= c <= '9' {
        Some((c as u8 - '0' as u8) as u8)
    } else if 'a' <= c <= 'f' {
        Some((c as u8 - 'a' as u8 + 10) as u8)
    } else if 'A' <= c <= 'F' {
        Some((c as u8 - 'A' as u8 + 10) as u8)
    } else {
        None
    }
}

/// The lower case hexadecimal digit with the given value, which is below 16.
pub open spec fn hex_char(value: u8) -> char {
    if value < 10 {
        ('0' as u8 + value) as char
    } else {
        ('a' as u8 + (value - 10)) as char
    }
}

/// The channel that two hexadecimal digits spell, the high digit first.
pub open spec fn channel_value(high: char, low: char) -> u8 {
    (hex_value(high).unwrap() * 16 + hex_value(low).unwrap()) as u8
}

/// An RGB color with 8 bits per channel.
#[derive(Debug, Copy, Clone, PartialEq, Eq, Structural)]
pub struct Color {
    pub red: u8,
    pub green: u8,
    pub blue: u8,
}

impl Color {
    /// The color with the given channels.
    pub fn new(red: u8, green: u8, blue: u8) -> (color: Self)
        ensures
            color == (Color { red, green, blue }),
    {
        Self { red, green, blue }
    }

    /// What a text means as a color: `#` and six hexadecimal digits, two for
    /// each of red, green and blue.
    pub open spec fn from_text(text: Seq<char>) -> Result<Color, ColorError> {
        if text.len() == 0 || text[0] != '#' {
            Err(ColorError::MissingHash)
        } else if exists|i: int| 1 <= i < text.len() && hex_value(text[i]) is None {
            Err(ColorError::InvalidDigit)
        } else if text.len() != 7 {
            Err(ColorError::WrongLength)
        } else {
            Ok(
                Color {
                    red: channel_value(text[1], text[2]),
                    green: channel_value(text[3], text[4]),
                    blue: channel_value(text[5], text[6]),
                },
            )
        }
    }

    /// The text of a color: `#` and six lower case hexadecimal digits.
    pub open spec fn to_text(self) -> Seq<char> {
        seq![
            '#',
            hex_char(self.red / 16),
            hex_char(self.red % 16),
            hex_char(self.green / 16),
            hex_char(self.green % 16),
            hex_char(self.blue / 16),
            hex_char(self.blue % 16),
        ]
    }

    /// Reads a color from its text.
    pub fn from_str(input: &str) -> (parsed: Result<Color, ColorError>)
        ensures
            parsed == Color::from_text(input@),
    {
        if input.is_empty() || input.get_char(0) != '#' {
            return Err(ColorError::MissingHash);
        }
        if !input.is_ascii() {
            proof {
                let i = choose|i: int| 0 <= i < input@.len() && !('\0' <= #[trigger] input@[i] <= '\u{7f}');
                assert(1 <= i < input@.len() && hex_value(input@[i]) is None);
            }
            return Err(ColorError::InvalidDigit);
        }
        let bytes = input.as_bytes();
        proof {
            is_ascii_spec_bytes(input);
        }
        let mut digits: Vec<u8> = Vec::new();
        let mut i: usize = 1;
        while i < bytes.len()
            invariant
                1 <= i <= bytes@.len(),
                bytes@.len() == input@.len(),
                forall|j: int| 0 <= j < bytes@.len() ==> bytes@[j] == input@[j] as u8,
                forall|j: int| 0 <= j < input@.len() ==> '\0' <= #[trigger] input@[j] <= '\u{7f}',
                input@[0] == '#',
                digits@.len() == i - 1,
                forall|k: int| 0 <= k < i - 1 ==> hex_value(input@[k + 1]) == Some(#[trigger] digits@[k]),
            decreases bytes@.len() - i,
        {
            match hex_digit(bytes[i]) {
                Some(value) => {
                    digits.push(value);
                },
                None => {
                    assert(hex_value(input@[i as int]) is None);
                    return Err(ColorError::InvalidDigit);
                },
            }
            i += 1;
        }
        assert forall|j: int| 1 <= j < input@.len() implies hex_value(input@[j]) is Some by {
            assert(hex_value(input@[(j - 1) + 1]) == Some(digits@[j - 1]));
        }
        if digits.len() != 6 {
            return Err(ColorError::WrongLength);
        }
        Ok(
            Color {
                red: digits[0] * 16 + digits[1],
                green: digits[2] * 16 + digits[3],
                blue: digits[4] * 16 + digits[5],
            },
        )
    }

    /// Writes the color as text.
    pub fn to_string(&self) -> (text: String)
        ensures
            text@ == self.to_text(),
    {
        let mut text = String::from_str("#");
        proof {
            reveal_strlit("#");
        }
        text.append(hex_digit_str(self.red / 16));
        text.append(hex_digit_str(self.red % 16));
        text.append(hex_digit_str(self.green / 16));
        text.append(hex_digit_str(self.green % 16));
        text.append(hex_digit_str(self.blue / 16));
        text.append(hex_digit_str(self.blue % 16));
        assert(text@ =~= self.to_text());
        text
    }

    /// Black, the color of a fresh bitmap.
    pub open spec fn black() -> Color {
        Color { red: 0, green: 0, blue: 0 }
    }
}

/// Reading back the text of a color gives that color: `from_text` undoes `to_text`.
pub proof fn lemma_color_text_round_trip(color: Color)
    ensures
        Color::from_text(color.to_text()) == Ok::<Color, ColorError>(color),
{
    let text = color.to_text();
    assert forall|value: u8| value < 16 implies hex_value(#[trigger] hex_char(value)) == Some(value) by {}
    assert forall|i: int| 1 <= i < text.len() implies hex_value(text[i]) is Some by {}
    assert(channel_value(text[1], text[2]) == color.red);
    assert(channel_value(text[3], text[4]) == color.green);
    assert(channel_value(text[5], text[6]) == color.blue);
}

/// The value of a byte read as a hexadecimal digit.
fn hex_digit(byte: u8) -> (value: Option<u8>)
    requires
        byte < 128,
    ensures
        value == hex_value(byte as char),
        value matches Some(v) ==> v < 16,
{
    if byte >= 48 && byte <= 57 {
        Some(byte - 48)
    } else if byte >= 97 && byte <= 102 {
        Some(byte - 97 + 10)
    } else if byte >= 65 && byte <= 70 {
        Some(byte - 65 + 10)
    } else {
        None
    }
}

/// The lower case hexadecimal digit of a value below 16, as a text of one character.
fn hex_digit_str(value: u8) -> (digit: &'static str)
    requires
        value < 16,
    ensures
        digit@ == seq![hex_char(value)],
{
    proof {
        reveal_strlit("0");
        reveal_strlit("1");
        reveal_strlit("2");
        reveal_strlit("3");
        reveal_strlit("4");
        reveal_strlit("5");
        reveal_strlit("6");
        reveal_strlit("7");
        reveal_strlit("8");
        reveal_strlit("9");
        reveal_strlit("a");
        reveal_strlit("b");
        reveal_strlit("c");
        reveal_strlit("d");
        reveal_strlit("e");
        reveal_strlit("f");
    }
    let digit = match value {
        0 => "0",
        1 => "1",
        2 => "2",
        3 => "3",
        4 => "4",
        5 => "5",
        6 => "6",
        7 => "7",
        8 => "8",
        9 => "9",
        10 => "a",
        11 => "b",
        12 => "c",
        13 => "d",
        14 => "e",
        _ => "f",
    };
    assert(digit@ =~= seq![hex_char(value)]);
    digit
}

impl From<[u8; 3]> for Color {
    /// Reads the channels in the order red, green, blue.
    fn from(f: [u8; 3]) -> (color: Self) {
        Self { red: f[0], green: f[1], blue: f[2] }
    }
}

impl vstd::std_specs::convert::FromSpecImpl<[u8; 3]> for Color {
    /// The conversion does what `from_spec` says.
    open spec fn obeys_from_spec() -> bool {
        true
    }

    /// The color whose red, green and blue are the three bytes in this order.
    open spec fn from_spec(f: [u8; 3]) -> Color {
        Color { red: f[0], green: f[1], blue: f[2] }
    }
}

/// Whether the pixel `(px, py)` lies in the rectangle with top left corner
/// `(x, y)` and the given width and height.
pub open spec fn in_rect(px: int, py: int, x: int, y: int, width: int, height: int) -> bool {
    x <= px < x + width && y <= py < y + height
}

/// The grid of the given size in which every pixel is black.
pub open spec fn blank(width: nat, height: nat) -> Seq<Seq<Color>> {
    Seq::new(height, |y: int| Seq::new(width, |x: int| Color::black()))
}

/// The grid with every pixel of the rectangle set to `color`. A rectangle
/// that reaches past the grid is cut off at its edges.
pub open spec fn painted(
    grid: Seq<Seq<Color>>,
    x: int,
    y: int,
    width: int,
    height: int,
    color: Color,
) -> Seq<Seq<Color>> {
    Seq::new(
        grid.len(),
        |py: int|
            Seq::new(
                grid[py].len(),
                |px: int|
                    if in_rect(px, py, x, y, width, height) {
                        color
                    } else {
                        grid[py][px]
                    },
            ),
    )
}

/// Overwrites one cell of a grid of rows and leaves every other cell as it was.
fn write_cell(rows: &mut Vec<Vec<Color>>, x: usize, y: usize, color: Color)
    requires
        y < old(rows)@.len(),
        x < old(rows)@[y as int]@.len(),
    ensures
        final(rows)@.len() == old(rows)@.len(),
        final(rows)@[y as int]@ == old(rows)@[y as int]@.update(x as int, color),
        forall|j: int| 0 <= j < old(rows)@.len() && j != y ==> final(rows)@[j] == old(rows)@[j],
    no_unwind
{
    rows[y][x] = color;
}

/// A grid of pixels of a fixed size, addressed by column `x` and row `y`.
pub struct Bitmap {
    data: Vec<Vec<Color>>,
    width: usize,
    height: usize,
}

impl View for Bitmap {
    type V = Seq<Seq<Color>>;

    /// The rows from top to bottom, each from left to right.
    closed spec fn view(&self) -> Seq<Seq<Color>> {
        Seq::new(self.data@.len(), |y: int| self.data@[y]@)
    }
}

impl Bitmap {
    #[verifier::type_invariant]
    spec fn well_formed(&self) -> bool {
        &&& self.data@.len() == self.height
        &&& forall|y: int| 0 <= y < self.data@.len() ==> (#[trigger] self.data@[y])@.len() == self.width
    }

    /// The number of columns.
    pub closed spec fn spec_width(&self) -> nat {
        self.width as nat
    }

    /// The number of rows.
    pub closed spec fn spec_height(&self) -> nat {
        self.height as nat
    }

    /// Whether the rows of the view have the bitmap's width and height.
    pub open spec fn shaped(&self) -> bool {
        &&& self@.len() == self.spec_height()
        &&& forall|y: int| 0 <= y < self@.len() ==> (#[trigger] self@[y]).len() == self.spec_width()
    }

    /// The number of columns.
    pub fn width(&self) -> (w: usize)
        ensures
            w == self.spec_width(),
            self.shaped(),
    {
        proof {
            use_type_invariant(self);
        }
        self.width
    }

    /// The number of rows.
    pub fn height(&self) -> (h: usize)
        ensures
            h == self.spec_height(),
            self.shaped(),
    {
        proof {
            use_type_invariant(self);
        }
        self.height
    }

    /// A black bitmap of the given size.
    pub fn new(width: usize, height: usize) -> (bitmap: Self)
        ensures
            bitmap.spec_width() == width,
            bitmap.spec_height() == height,
            bitmap.shaped(),
            bitmap@ == blank(width as nat, height as nat),
    {
        let mut data: Vec<Vec<Color>> = Vec::new();
        let mut y: usize = 0;
        while y < height
            invariant
                y <= height,
                data@.len() == y,
                forall|j: int| 0 <= j < y ==> (#[trigger] data@[j])@.len() == width,
                forall|i: int, j: int| 0 <= i < width && 0 <= j < y ==> data@[j]@[i] == Color::black(),
            decreases height - y,
        {
            let mut row: Vec<Color> = Vec::new();
            let mut x: usize = 0;
            while x < width
                invariant
                    x <= width,
                    row@.len() == x,
                    forall|i: int| 0 <= i < x ==> row@[i] == Color::black(),
                decreases width - x,
            {
                row.push(Color::new(0, 0, 0));
                x += 1;
            }
            data.push(row);
            y += 1;
        }
        let bitmap = Self { data, width, height };
        assert(bitmap@ =~~= blank(width as nat, height as nat));
        bitmap
    }

    /// Sets the pixel at column `x`, row `y`; outside the bitmap nothing changes.
    pub fn set(&mut self, x: usize, y: usize, color: Color)
        ensures
            final(self).spec_width() == old(self).spec_width(),
            final(self).spec_height() == old(self).spec_height(),
            final(self).shaped(),
            x < old(self).spec_width() && y < old(self).spec_height() ==> final(self)@ == old(self)@.update(
                y as int,
                old(self)@[y as int].update(x as int, color),
            ),
            !(x < old(self).spec_width() && y < old(self).spec_height()) ==> final(self)@ == old(self)@,
    {
        proof {
            use_type_invariant(&*self);
        }
        if x < self.width && y < self.height {
            write_cell(&mut self.data, x, y, color);
            assert(self@ =~= old(self)@.update(y as int, old(self)@[y as int].update(x as int, color)));
        }
    }

    /// Fills the rectangle with top left corner `(x, y)` and the given width
    /// and height, as far as it lies inside the bitmap.
    pub fn draw_rect(&mut self, x: usize, y: usize, width: usize, height: usize, color: Color)
        ensures
            final(self).spec_width() == old(self).spec_width(),
            final(self).spec_height() == old(self).spec_height(),
            final(self).shaped(),
            final(self)@ == painted(old(self)@, x as int, y as int, width as int, height as int, color),
    {
        let own_width = self.width();
        let own_height = self.height();
        if x >= own_width || y >= own_height {
            assert(self@ =~~= painted(self@, x as int, y as int, width as int, height as int, color));
            return ;
        }
        let x_end = if width > own_width - x {
            own_width
        } else {
            x + width
        };
        let y_end = if height > own_height - y {
            own_height
        } else {
            y + height
        };
        let mut y2 = y;
        while y2 < y_end
            invariant
                y <= y2 <= y_end <= own_height,
                x <= x_end <= own_width,
                x_end as int == if x + width < own_width { x + width } else { own_width as int },
                y_end as int == if y + height < own_height { y + height } else { own_height as int },
                self.spec_width() == own_width == old(self).spec_width(),
                self.spec_height() == own_height == old(self).spec_height(),
                self.shaped(),
                old(self).shaped(),
                forall|px: int, py: int|
                    0 <= px < own_width && 0 <= py < own_height ==> self@[py][px] == if in_rect(
                        px,
                        py,
                        x as int,
                        y as int,
                        width as int,
                        y2 - y,
                    ) {
                        color
                    } else {
                        old(self)@[py][px]
                    },
            decreases y_end - y2,
        {
            let mut x2 = x;
            while x2 < x_end
                invariant
                    y <= y2 < y_end <= own_height,
                    x <= x2 <= x_end <= own_width,
                    x_end as int == if x + width < own_width { x + width } else { own_width as int },
                    self.spec_width() == own_width == old(self).spec_width(),
                    self.spec_height() == own_height == old(self).spec_height(),
                    self.shaped(),
                    old(self).shaped(),
                    forall|px: int, py: int|
                        0 <= px < own_width && 0 <= py < own_height ==> self@[py][px] == if in_rect(
                            px,
                            py,
                            x as int,
                            y as int,
                            width as int,
                            y2 - y,
                        ) || (py == y2 && x <= px < x2) {
                            color
                        } else {
                            old(self)@[py][px]
                        },
                decreases x_end - x2,
            {
                self.set(x2, y2, color);
                x2 += 1;
            }
            y2 += 1;
        }
        assert(self@ =~~= painted(old(self)@, x as int, y as int, width as int, height as int, color));
    }

    /// The pixel at column `x`, row `y`, if the bitmap has one there.
    pub fn get(&self, x: usize, y: usize) -> (pixel: Option<Color>)
        ensures
            self.shaped(),
            pixel == if x < self.spec_width() && y < self.spec_height() {
                Some(self@[y as int][x as int])
            } else {
                None
            },
    {
        proof {
            use_type_invariant(self);
        }
        if x < self.width && y < self.height {
            Some(self.data[y][x])
        } else {
            None
        }
    }
}

} // verus!
