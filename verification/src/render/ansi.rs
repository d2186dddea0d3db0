//! Showing a bitmap on a terminal, two pixels to a character cell: the upper
//! pixel is the color of a half block, the lower one the color behind it.

use vstd::prelude::*;
use vstd::string::*;
use crate::bitmap::{Bitmap, Color};
use crate::ratio::at_most;

verus! {

/// How a terminal renderer chooses its colors.
#[derive(Debug, Copy, Clone, PartialEq, Eq, Structural)]
pub struct AnsiRendererOptions {
    /// Whether colors are written with all 24 bits, or as one of 216 colors.
    pub true_color: bool,
}

impl Default for AnsiRendererOptions {
    /// No true color: the palette of 216 colors is used.
    fn default() -> (options: Self)
        ensures
            options == (AnsiRendererOptions { true_color: false }),
    {
        Self { true_color: false }
    }
}

/// A renderer that draws on a terminal.
#[derive(Debug, Copy, Clone, PartialEq, Eq, Structural)]
pub struct AnsiRenderer {
    pub options: AnsiRendererOptions,
}

/// The decimal digit with the given value, which is below ten.
pub open spec fn decimal_digit(value: nat) -> char {
    ('0' as u8 + value) as char
}

/// A number written in decimal digits.
pub open spec fn decimal_text(value: nat) -> Seq<char>
    decreases value,
{
    if value < 10 {
        seq![decimal_digit(value)]
    } else {
        decimal_text(value / 10).push(decimal_digit(value % 10))
    }
}

/// The sequence that hides the cursor.
pub open spec fn hide_text() -> Seq<char> {
    "\x1B[?25l"@
}

/// The sequence that clears the screen.
pub open spec fn clear_text() -> Seq<char> {
    "\x1B[2J"@
}

/// The sequence that moves the cursor to a column and a row, both counted from one.
pub open spec fn goto_text(column: nat, row: nat) -> Seq<char> {
    "\x1B["@ + decimal_text(row) + ";"@ + decimal_text(column) + "H"@
}

/// The sequence that sets the color of what is written to the 24 bit color given.
pub open spec fn rgb_fg_text(red: u8, green: u8, blue: u8) -> Seq<char> {
    "\x1B[38;2;"@ + decimal_text(red as nat) + ";"@ + decimal_text(green as nat) + ";"@ + decimal_text(
        blue as nat,
    ) + "m"@
}

/// The sequence that sets the color behind what is written to the 24 bit color given.
pub open spec fn rgb_bg_text(red: u8, green: u8, blue: u8) -> Seq<char> {
    "\x1B[48;2;"@ + decimal_text(red as nat) + ";"@ + decimal_text(green as nat) + ";"@ + decimal_text(
        blue as nat,
    ) + "m"@
}

/// The sequence that sets the color of what is written to a color of the palette.
pub open spec fn indexed_fg_text(code: u8) -> Seq<char> {
    "\x1B[38;5;"@ + decimal_text(code as nat) + "m"@
}

/// The sequence that sets the color behind what is written to a color of the palette.
pub open spec fn indexed_bg_text(code: u8) -> Seq<char> {
    "\x1B[48;5;"@ + decimal_text(code as nat) + "m"@
}

/// One of the six levels that a channel has in the palette of 216 colors.
pub open spec fn cube_level(channel: u8) -> u8 {
    (channel * 5 / 256) as u8
}

/// The place of a color in the palette: the 216 colors follow the first 16,
/// ordered by red, then green, then blue.
pub open spec fn cube_code(red: u8, green: u8, blue: u8) -> u8 {
    (16 + 36 * red + 6 * green + blue) as u8
}

/// The sequence that makes a color the color of what is written.
pub open spec fn upper_text(color: Color, true_color: bool) -> Seq<char> {
    if true_color {
        rgb_fg_text(color.red, color.green, color.blue)
    } else {
        indexed_fg_text(cube_code(cube_level(color.red), cube_level(color.green), cube_level(color.blue)))
    }
}

/// The sequence that makes a color the color behind what is written.
pub open spec fn lower_text(color: Color, true_color: bool) -> Seq<char> {
    if true_color {
        rgb_bg_text(color.red, color.green, color.blue)
    } else {
        indexed_bg_text(cube_code(cube_level(color.red), cube_level(color.green), cube_level(color.blue)))
    }
}

/// The upper half block, which shows the one color above the other.
pub open spec fn half_block() -> Seq<char> {
    seq!['\u{2580}']
}

/// The cell that is written before the one in the given row and column of
/// a frame with `columns` cells in a row, if one is.
pub open spec fn cell_before(columns: int, row: int, column: int) -> Option<(int, int)> {
    if row == 0 && column == 0 {
        None
    } else if column > 0 {
        Some((row, column - 1))
    } else {
        Some((row - 1, columns - 1))
    }
}

/// What is written to set a color: its sequence, or nothing where the
/// sequence set before is the same.
pub open spec fn color_change(before: Option<Seq<char>>, now: Seq<char>) -> Seq<char> {
    if before == Some(now) {
        Seq::<char>::empty()
    } else {
        now
    }
}

/// What is written for the cell in the given row and column of a frame with
/// `columns` cells in a row: the sequences for the colors of its two pixels,
/// each left out where the cell written before it has set the same one, and
/// the half block.
pub open spec fn cell_text(grid: Seq<Seq<Color>>, true_color: bool, columns: int, row: int, column: int) -> Seq<
    char,
> {
    let upper = upper_text(grid[2 * row][column], true_color);
    let lower = lower_text(grid[2 * row + 1][column], true_color);
    let upper_before = match cell_before(columns, row, column) {
        Some((r, c)) => Some(upper_text(grid[2 * r][c], true_color)),
        None => None,
    };
    let lower_before = match cell_before(columns, row, column) {
        Some((r, c)) => Some(lower_text(grid[2 * r + 1][c], true_color)),
        None => None,
    };
    color_change(upper_before, upper) + color_change(lower_before, lower) + half_block()
}

/// The text of a sequence that may have been written.
pub open spec fn text_of(sequence: Option<String>) -> Option<Seq<char>> {
    match sequence {
        Some(text) => Some(text@),
        None => None,
    }
}

/// What is written for the first `count` cells of a row.
pub open spec fn cells_text(grid: Seq<Seq<Color>>, true_color: bool, columns: int, row: int, count: nat) -> Seq<
    char,
>
    decreases count,
{
    if count == 0 {
        Seq::<char>::empty()
    } else {
        cells_text(grid, true_color, columns, row, (count - 1) as nat) + cell_text(
            grid,
            true_color,
            columns,
            row,
            count - 1,
        )
    }
}

/// What is written for the first `count` rows: for each the move of the
/// cursor to its start, and its cells.
pub open spec fn rows_text(grid: Seq<Seq<Color>>, true_color: bool, columns: nat, count: nat) -> Seq<char>
    decreases count,
{
    if count == 0 {
        Seq::<char>::empty()
    } else {
        rows_text(grid, true_color, columns, (count - 1) as nat) + goto_text(1, count) + cells_text(
            grid,
            true_color,
            columns as int,
            count - 1,
            columns,
        )
    }
}

/// What shows a grid of pixels on a terminal: the cursor is hidden, the
/// screen cleared, and the rows written from the top.
pub open spec fn frame_text(grid: Seq<Seq<Color>>, true_color: bool, columns: nat, rows: nat) -> Seq<char> {
    hide_text() + clear_text() + rows_text(grid, true_color, columns, rows)
}

/// How many rows of cells show pixel rows of which `height` fit the
/// terminal: one for every two, and one for a single row that is left.
pub open spec fn shown_rows(bitmap_height: nat, height: nat) -> nat {
    (at_most(bitmap_height, height) + 1) / 2
}

/// `termion::cursor::Hide`, read as text: the fixed sequence that hides the cursor.
#[verifier::external_body]
fn cursor_hide() -> (text: &'static str)
    ensures
        text@ == hide_text(),
{
    let text: &'static str = termion::cursor::Hide.as_ref();
    text
}

/// `termion::clear::All`, read as text: the fixed sequence that clears the screen.
#[verifier::external_body]
fn clear_all() -> (text: &'static str)
    ensures
        text@ == clear_text(),
{
    let text: &'static str = termion::clear::All.as_ref();
    text
}

/// `termion::cursor::Goto`, written out: the row and then the column in
/// decimal between the fixed parts of the sequence. The position `(0, 0)`,
/// which it does not take, is left out.
#[verifier::external_body]
fn cursor_goto(column: u16, row: u16) -> (text: String)
    requires
        column > 0 || row > 0,
    ensures
        text@ == goto_text(column as nat, row as nat),
{
    termion::cursor::Goto(column, row).to_string()
}

/// `termion::color::Rgb::fg_string`: the three channels in decimal between
/// the fixed parts of the sequence.
#[verifier::external_body]
fn rgb_fg(red: u8, green: u8, blue: u8) -> (text: String)
    ensures
        text@ == rgb_fg_text(red, green, blue),
{
    termion::color::Rgb(red, green, blue).fg_string()
}

/// `termion::color::Rgb::bg_string`: the three channels in decimal between
/// the fixed parts of the sequence.
#[verifier::external_body]
fn rgb_bg(red: u8, green: u8, blue: u8) -> (text: String)
    ensures
        text@ == rgb_bg_text(red, green, blue),
{
    termion::color::Rgb(red, green, blue).bg_string()
}

/// `termion::color::AnsiValue::rgb`: the place in the palette of the color
/// with the given levels, none of which it takes above five.
#[verifier::external_body]
fn cube_value(red: u8, green: u8, blue: u8) -> (code: u8)
    requires
        red <= 5,
        green <= 5,
        blue <= 5,
    ensures
        code == cube_code(red, green, blue),
{
    termion::color::AnsiValue::rgb(red, green, blue).0
}

/// `termion::color::AnsiValue::fg_string`: the place in the palette in
/// decimal between the fixed parts of the sequence.
#[verifier::external_body]
fn indexed_fg(code: u8) -> (text: String)
    ensures
        text@ == indexed_fg_text(code),
{
    termion::color::AnsiValue(code).fg_string()
}

/// `termion::color::AnsiValue::bg_string`: the place in the palette in
/// decimal between the fixed parts of the sequence.
#[verifier::external_body]
fn indexed_bg(code: u8) -> (text: String)
    ensures
        text@ == indexed_bg_text(code),
{
    termion::color::AnsiValue(code).bg_string()
}

/// The level of a channel in the palette of 216 colors.
fn level(channel: u8) -> (level: u8)
    ensures
        level == cube_level(channel),
        level <= 5,
{
    ((channel as u16) * 5 / 256) as u8
}

impl AnsiRenderer {
    /// A terminal renderer with the given options.
    pub fn new(options: AnsiRendererOptions) -> (renderer: Self)
        ensures
            renderer.options == options,
    {
        Self { options }
    }

    /// The size of the canvas that a terminal of the given size offers: a
    /// pixel for each column, and two for each row.
    pub fn canvas_size(columns: u16, rows: u16) -> (size: (usize, usize))
        ensures
            size.0 == columns,
            size.1 == rows * 2,
    {
        (columns as usize, rows as usize * 2)
    }

    /// The sequence that sets the color of what is written.
    fn upper(&self, color: Color) -> (text: String)
        ensures
            text@ == upper_text(color, self.options.true_color),
    {
        if self.options.true_color {
            rgb_fg(color.red, color.green, color.blue)
        } else {
            indexed_fg(cube_value(level(color.red), level(color.green), level(color.blue)))
        }
    }

    /// The sequence that sets the color behind what is written.
    fn lower(&self, color: Color) -> (text: String)
        ensures
            text@ == lower_text(color, self.options.true_color),
    {
        if self.options.true_color {
            rgb_bg(color.red, color.green, color.blue)
        } else {
            indexed_bg(cube_value(level(color.red), level(color.green), level(color.blue)))
        }
    }

    /// Writes the sequence of a color, unless the sequence written before is the same.
    fn change_color(text: &mut String, before: &Option<String>, now: &String)
        ensures
            final(text)@ == old(text)@ + color_change(text_of(*before), now@),
    {
        let same = match before {
            Some(before) => *before == *now,
            None => false,
        };
        if !same {
            text.append(now.as_str());
        } else {
            assert(text@ =~= old(text)@ + Seq::<char>::empty());
        }
    }

    /// Writes the cell in the given row and column, after which the
    /// sequences given were set, and gives the sequences of the cell's own colors.
    fn write_cell(
        &self,
        text: &mut String,
        bitmap: &Bitmap,
        columns: usize,
        row: usize,
        column: usize,
        upper_before: &Option<String>,
        lower_before: &Option<String>,
    ) -> (now: (String, String))
        requires
            column < columns <= bitmap.spec_width(),
            2 * row + 1 < bitmap.spec_height(),
            text_of(*upper_before) == match cell_before(columns as int, row as int, column as int) {
                Some((r, c)) => Some(upper_text(bitmap@[2 * r][c], self.options.true_color)),
                None => None,
            },
            text_of(*lower_before) == match cell_before(columns as int, row as int, column as int) {
                Some((r, c)) => Some(lower_text(bitmap@[2 * r + 1][c], self.options.true_color)),
                None => None,
            },
        ensures
            final(text)@ == old(text)@ + cell_text(
                bitmap@,
                self.options.true_color,
                columns as int,
                row as int,
                column as int,
            ),
            now.0@ == upper_text(bitmap@[2 * row][column as int], self.options.true_color),
            now.1@ == lower_text(bitmap@[2 * row + 1][column as int], self.options.true_color),
    {
        let lines = bitmap.height();
        assert(2 * row + 1 < lines);
        let upper = self.upper(bitmap.get(column, 2 * row).unwrap());
        let lower = self.lower(bitmap.get(column, 2 * row + 1).unwrap());
        AnsiRenderer::change_color(text, upper_before, &upper);
        AnsiRenderer::change_color(text, lower_before, &lower);
        proof {
            reveal_strlit("\u{2580}");
            assert("\u{2580}"@ =~= half_block());
        }
        text.append("\u{2580}");
        (upper, lower)
    }

    /// Whether a frame can be made of the bitmap for a canvas of the given
    /// height: the bitmap has an even number of rows, and no more rows of
    /// cells are shown than a terminal counts.
    pub fn fits(bitmap: &Bitmap, height: usize) -> (fits: bool)
        ensures
            fits == (bitmap.spec_height() % 2 == 0 && shown_rows(bitmap.spec_height(), height as nat)
                <= u16::MAX),
    {
        let lines = if bitmap.height() <= height {
            bitmap.height()
        } else {
            height
        };
        bitmap.height() % 2 == 0 && lines / 2 + lines % 2 <= 65535
    }

    /// What is to be written to a terminal whose canvas has the given size
    /// to show the bitmap, as far as the bitmap fits. The bitmap has an even
    /// number of rows, and no more of them are shown than a terminal counts.
    pub fn frame(&self, bitmap: &Bitmap, width: usize, height: usize) -> (text: String)
        requires
            bitmap.spec_height() % 2 == 0,
            shown_rows(bitmap.spec_height(), height as nat) <= u16::MAX,
        ensures
            text@ == frame_text(
                bitmap@,
                self.options.true_color,
                at_most(bitmap.spec_width(), width as nat),
                shown_rows(bitmap.spec_height(), height as nat),
            ),
    {
        let columns = if bitmap.width() <= width {
            bitmap.width()
        } else {
            width
        };
        let lines = if bitmap.height() <= height {
            bitmap.height()
        } else {
            height
        };
        let rows = lines / 2 + lines % 2;
        let ghost grid = bitmap@;
        let ghost true_color = self.options.true_color;
        let mut text = String::from_str(cursor_hide());
        text.append(clear_all());
        let mut upper_before: Option<String> = None;
        let mut lower_before: Option<String> = None;
        let mut row: usize = 0;
        proof {
            assert(text@ =~= hide_text() + clear_text() + rows_text(grid, true_color, columns as nat, 0));
        }
        while row < rows
            invariant
                row <= rows <= u16::MAX,
                rows == shown_rows(bitmap.spec_height(), height as nat),
                columns == at_most(bitmap.spec_width(), width as nat),
                2 * rows <= bitmap.spec_height(),
                bitmap.shaped(),
                grid == bitmap@,
                true_color == self.options.true_color,
                text@ == hide_text() + clear_text() + rows_text(grid, true_color, columns as nat, row as nat),
                columns > 0 ==> text_of(upper_before) == match cell_before(columns as int, row as int, 0) {
                    Some((r, c)) => Some(upper_text(grid[2 * r][c], true_color)),
                    None => None,
                },
                columns > 0 ==> text_of(lower_before) == match cell_before(columns as int, row as int, 0) {
                    Some((r, c)) => Some(lower_text(grid[2 * r + 1][c], true_color)),
                    None => None,
                },
            decreases rows - row,
        {
            let ghost start = text@;
            let goto = cursor_goto(1, (row + 1) as u16);
            text.append(goto.as_str());
            let mut column: usize = 0;
            proof {
                assert(text@ =~= start + goto_text(1, (row + 1) as nat) + cells_text(
                    grid,
                    true_color,
                    columns as int,
                    row as int,
                    0,
                ));
            }
            while column < columns
                invariant
                    column <= columns,
                    row < rows <= u16::MAX,
                    columns == at_most(bitmap.spec_width(), width as nat),
                    2 * rows <= bitmap.spec_height(),
                    bitmap.shaped(),
                    grid == bitmap@,
                    true_color == self.options.true_color,
                    text@ == start + goto_text(1, (row + 1) as nat) + cells_text(
                        grid,
                        true_color,
                        columns as int,
                        row as int,
                        column as nat,
                    ),
                    column < columns ==> text_of(upper_before) == match cell_before(
                        columns as int,
                        row as int,
                        column as int,
                    ) {
                        Some((r, c)) => Some(upper_text(grid[2 * r][c], true_color)),
                        None => None,
                    },
                    column < columns ==> text_of(lower_before) == match cell_before(
                        columns as int,
                        row as int,
                        column as int,
                    ) {
                        Some((r, c)) => Some(lower_text(grid[2 * r + 1][c], true_color)),
                        None => None,
                    },
                    column == columns && columns > 0 ==> text_of(upper_before) == Some(
                        upper_text(grid[2 * row][columns - 1], true_color),
                    ) && text_of(lower_before) == Some(lower_text(grid[2 * row + 1][columns - 1], true_color)),
                decreases columns - column,
            {
                let (upper, lower) = self.write_cell(
                    &mut text,
                    bitmap,
                    columns,
                    row,
                    column,
                    &upper_before,
                    &lower_before,
                );
                proof {
                    assert(text@ =~= start + goto_text(1, (row + 1) as nat) + cells_text(
                        grid,
                        true_color,
                        columns as int,
                        row as int,
                        (column + 1) as nat,
                    ));
                }
                upper_before = Some(upper);
                lower_before = Some(lower);
                column += 1;
            }
            proof {
                assert(text@ =~= hide_text() + clear_text() + rows_text(
                    grid,
                    true_color,
                    columns as nat,
                    (row + 1) as nat,
                ));
            }
            row += 1;
        }
        text
    }
}

} // verus!
