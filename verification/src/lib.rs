//! Renders a flag, described as nested sections with relative sizes, into a
//! bitmap of RGB pixels.
//!
//! A flag is a row of sections, each a column of subsections of one color.
//! Every size is a text: a percentage, a fraction or a plain decimal. Sizes
//! resolve to exact fractions, so the place of every pixel follows from the
//! description of the flag and the size of the canvas alone.

pub mod bitmap;
pub mod flag;
pub mod natural;
pub mod ratio;
pub mod render;
pub mod util;
