//! Writing a bitmap to the memory of a framebuffer device.

use vstd::prelude::*;
use vstd::string::*;
use vstd::arithmetic::div_mod::lemma_fundamental_div_mod_converse;
use crate::bitmap::{Bitmap, Color};
use crate::render::image::pixel_or_black;

verus! {

/// Which device a framebuffer renderer writes to.
#[derive(Debug, PartialEq, Eq)]
pub struct FramebufferRendererOptions {
    /// The path of the device.
    pub device: String,
}

/// The path of the device where none is asked for.
pub fn default_device() -> (path: String)
    ensures
        path@ == "/dev/fb0"@,
{
    String::from_str("/dev/fb0")
}

impl Default for FramebufferRendererOptions {
    /// The first framebuffer device.
    fn default() -> (options: Self)
        ensures
            options.device@ == "/dev/fb0"@,
    {
        Self { device: default_device() }
    }
}

/// A renderer that writes to a framebuffer device.
#[derive(Debug, PartialEq, Eq)]
pub struct FramebufferRenderer {
    pub options: FramebufferRendererOptions,
}

/// The byte at a place in the memory of a device whose lines are
/// `line_length` bytes long and whose pixels take `bytes_per_pixel` bytes
/// each: the first three bytes of a pixel are its blue, green and red, and
/// the others are zero. A pixel past the edges of the grid is black.
pub open spec fn frame_byte(grid: Seq<Seq<Color>>, line_length: int, bytes_per_pixel: int, place: int) -> u8 {
    let y = place / line_length;
    let x = (place % line_length) / bytes_per_pixel;
    let channel = (place % line_length) % bytes_per_pixel;
    let pixel = pixel_or_black(grid, x, y);
    if channel == 0 {
        pixel.blue
    } else if channel == 1 {
        pixel.green
    } else if channel == 2 {
        pixel.red
    } else {
        0
    }
}

impl FramebufferRenderer {
    /// A framebuffer renderer with the given options.
    pub fn new(options: FramebufferRendererOptions) -> (renderer: Self)
        ensures
            renderer.options == options,
    {
        Self { options }
    }

    /// Whether the memory of a device can be laid out: a line is not empty,
    /// the lines together are within what the device can count, and, if
    /// there is any line, a pixel takes at least three bytes and so does
    /// what is left at the end of a line, if anything is.
    pub fn fits(line_length: u32, height: u32, bytes_per_pixel: u32) -> (fits: bool)
        ensures
            fits == (line_length > 0 && line_length * height <= u32::MAX && (height > 0 ==> bytes_per_pixel
                >= 3 && (line_length % bytes_per_pixel == 0 || line_length % bytes_per_pixel >= 3))),
    {
        if line_length == 0 {
            return false;
        }
        if height == 0 {
            assert(line_length * 0 == 0) by (nonlinear_arith);
            return true;
        }
        let within = match line_length.checked_mul(height) {
            Some(_) => true,
            None => false,
        };
        within && bytes_per_pixel >= 3 && (line_length % bytes_per_pixel == 0 || line_length % bytes_per_pixel
            >= 3)
    }

    /// The memory of a device that shows the bitmap: `height` lines of
    /// `line_length` bytes. A line is not empty, a pixel takes at least
    /// three bytes, and so does what is left at the end of a line, if
    /// anything is.
    pub fn frame(bitmap: &Bitmap, line_length: u32, height: u32, bytes_per_pixel: u32) -> (frame: Vec<u8>)
        requires
            line_length > 0,
            line_length * height <= u32::MAX,
            height > 0 ==> bytes_per_pixel >= 3 && (line_length % bytes_per_pixel == 0 || line_length
                % bytes_per_pixel >= 3),
        ensures
            frame@.len() == line_length * height,
            forall|place: int|
                0 <= place < frame@.len() ==> #[trigger] frame@[place] == frame_byte(
                    bitmap@,
                    line_length as int,
                    bytes_per_pixel as int,
                    place,
                ),
    {
        let mut frame: Vec<u8> = Vec::new();
        let mut y: u32 = 0;
        proof {
            assert(line_length * 0 == 0) by (nonlinear_arith);
        }
        if height == 0 {
            return frame;
        }
        while y < height
            invariant
                y <= height,
                line_length > 0,
                bytes_per_pixel >= 3,
                height > 0,
                frame@.len() == line_length * y,
                forall|place: int|
                    0 <= place < frame@.len() ==> #[trigger] frame@[place] == frame_byte(
                        bitmap@,
                        line_length as int,
                        bytes_per_pixel as int,
                        place,
                    ),
            decreases height - y,
        {
            let mut within: u32 = 0;
            while within < line_length
                invariant
                    within <= line_length,
                    y < height,
                    line_length > 0,
                    bytes_per_pixel >= 3,
                    frame@.len() == line_length * y + within,
                    forall|place: int|
                        0 <= place < frame@.len() ==> #[trigger] frame@[place] == frame_byte(
                            bitmap@,
                            line_length as int,
                            bytes_per_pixel as int,
                            place,
                        ),
                decreases line_length - within,
            {
                let x = within / bytes_per_pixel;
                let channel = within % bytes_per_pixel;
                let byte = if channel < 3 {
                    let pixel = match bitmap.get(x as usize, y as usize) {
                        Some(pixel) => pixel,
                        None => Color::new(0, 0, 0),
                    };
                    if channel == 0 {
                        pixel.blue
                    } else if channel == 1 {
                        pixel.green
                    } else {
                        pixel.red
                    }
                } else {
                    0
                };
                proof {
                    let place = line_length * y + within;
                    assert(place == y * line_length + within) by (nonlinear_arith)
                        requires
                            place == line_length * y + within,
                    ;
                    lemma_fundamental_div_mod_converse(place, line_length as int, y as int, within as int);
                    assert(byte == frame_byte(bitmap@, line_length as int, bytes_per_pixel as int, place));
                }
                frame.push(byte);
                within += 1;
            }
            proof {
                assert(line_length * y + line_length == line_length * (y + 1)) by (nonlinear_arith);
            }
            y += 1;
        }
        frame
    }
}

} // verus!
