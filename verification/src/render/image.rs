//! Writing a bitmap to an image file.

use vstd::prelude::*;
use vstd::string::*;
use crate::bitmap::{Bitmap, Color};

verus! {

/// Where an image renderer writes, and how large an image.
#[derive(Debug, PartialEq, Eq)]
pub struct ImageRendererOptions {
    /// The path of the file to write the image to.
    pub output: String,
    /// The width of the image, in pixels.
    pub width: u32,
    /// The height of the image, in pixels.
    pub height: u32,
}

/// The width of an image where none is asked for.
pub fn default_width() -> (width: u32)
    ensures
        width == 640,
{
    640
}

/// The height of an image where none is asked for.
pub fn default_height() -> (height: u32)
    ensures
        height == 480,
{
    480
}

impl Default for ImageRendererOptions {
    /// An image of 640 by 480 pixels, with no path to write it to.
    fn default() -> (options: Self)
        ensures
            options.output@ == Seq::<char>::empty(),
            options.width == 640,
            options.height == 480,
    {
        Self { output: String::new(), width: default_width(), height: default_height() }
    }
}

/// A renderer that writes an image file.
#[derive(Debug, PartialEq, Eq)]
pub struct ImageRenderer {
    pub options: ImageRendererOptions,
}

/// The pixel of a grid at a column and a row, or black where it has none there.
pub open spec fn pixel_or_black(grid: Seq<Seq<Color>>, x: int, y: int) -> Color {
    if 0 <= y < grid.len() && 0 <= x < grid[y].len() {
        grid[y][x]
    } else {
        Color::black()
    }
}

impl ImageRenderer {
    /// An image renderer with the given options.
    pub fn new(options: ImageRendererOptions) -> (renderer: Self)
        ensures
            renderer.options == options,
    {
        Self { options }
    }

    /// The size of the canvas: that of the image.
    pub fn get_size(&self) -> (size: (usize, usize))
        ensures
            size.0 == self.options.width,
            size.1 == self.options.height,
    {
        (self.options.width as usize, self.options.height as usize)
    }

    /// The channels of the pixel of the image at a column and a row, as red,
    /// green and blue: those of the bitmap, or black past its edges.
    pub fn pixel(bitmap: &Bitmap, x: u32, y: u32) -> (channels: [u8; 3])
        ensures
            channels@ == seq![
                pixel_or_black(bitmap@, x as int, y as int).red,
                pixel_or_black(bitmap@, x as int, y as int).green,
                pixel_or_black(bitmap@, x as int, y as int).blue,
            ],
    {
        let color = match bitmap.get(x as usize, y as usize) {
            Some(color) => color,
            None => Color::new(0, 0, 0),
        };
        let channels = [color.red, color.green, color.blue];
        assert(channels@ =~= seq![color.red, color.green, color.blue]);
        channels
    }
}

} // verus!
