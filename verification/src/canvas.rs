//! The braille canvas of the `drawille` crate, as the chart sees it.
//!
//! A canvas holds one cell per braille character. A cell is addressed by
//! `(x / 2, y / 4)` (each truncated to 16 bits) and holds a dot mask, the
//! letter shown when no dot is set, and the colour of its dots, if any.
use vstd::prelude::*;

verus! {

/// What one braille cell holds: its dot mask, the letter shown when the
/// mask is empty, and the colour of its dots (`None` when drawn uncoloured).
pub type CellState = (u8, char, Option<(u8, u8, u8)>);

/// The canvas type of `drawille`, opaque here: its contents are named by
/// `canvas_cells` and `canvas_size`.
#[verifier::external_type_specification]
#[verifier::external_body]
pub struct ExCanvas(drawille::Canvas);

/// The cells of a canvas, by `(column, row)` of braille characters: the
/// entries of its cell map. A cell's colour is `None` when its colour flag
/// is off (the cell then shows white), and the channels of its colour when
/// the flag is on and the colour is a true colour; the wrappers below only
/// ever give a cell one of these two.
pub uninterp spec fn canvas_cells(c: drawille::Canvas) -> Map<(u16, u16), CellState>;

/// The size, in braille characters, that a canvas was made with.
pub uninterp spec fn canvas_size(c: drawille::Canvas) -> (u16, u16);

/// The cell that holds pixel `(x, y)`.
pub open spec fn cell_of(x: u32, y: u32) -> (u16, u16) {
    ((x / 2) as u16, (y / 4) as u16)
}

/// The dot of pixel `(x, y)` inside its cell.
pub open spec fn dot_bit(x: u32, y: u32) -> u8 {
    let col = x % 2;
    let row = y % 4;
    if row == 0 {
        if col == 0 { 0x01u8 } else { 0x08u8 }
    } else if row == 1 {
        if col == 0 { 0x02u8 } else { 0x10u8 }
    } else if row == 2 {
        if col == 0 { 0x04u8 } else { 0x20u8 }
    } else {
        if col == 0 { 0x40u8 } else { 0x80u8 }
    }
}

/// The dot mask of a cell; an absent cell has no dots.
pub open spec fn mask_at(cells: Map<(u16, u16), CellState>, key: (u16, u16)) -> u8 {
    if cells.contains_key(key) { cells[key].0 } else { 0u8 }
}

/// The cells after pixel `(x, y)` is set with the given colour.
pub open spec fn set_pixel(
    cells: Map<(u16, u16), CellState>,
    x: u32,
    y: u32,
    color: Option<(u8, u8, u8)>,
) -> Map<(u16, u16), CellState> {
    let key = cell_of(x, y);
    cells.insert(key, ((mask_at(cells, key) | dot_bit(x, y)) as u8, ' ', color))
}

/// The cells after each pixel of `pts` is set in turn.
pub open spec fn paint(
    cells: Map<(u16, u16), CellState>,
    pts: Seq<(u32, u32)>,
    color: Option<(u8, u8, u8)>,
) -> Map<(u16, u16), CellState>
    decreases pts.len(),
{
    if pts.len() == 0 {
        cells
    } else {
        let last = pts.last();
        set_pixel(paint(cells, pts.drop_last(), color), last.0, last.1, color)
    }
}

/// Whether pixel `(x, y)` is lit.
pub open spec fn is_lit(cells: Map<(u16, u16), CellState>, x: u32, y: u32) -> bool {
    mask_at(cells, cell_of(x, y)) & dot_bit(x, y) != 0
}

/// A true colour, by its red, green and blue channels.
#[derive(Clone, Copy, PartialEq, Eq, Structural, Debug)]
pub struct Rgb {
    pub r: u8,
    pub g: u8,
    pub b: u8,
}

impl Rgb {
    pub open spec fn channels(self) -> (u8, u8, u8) {
        (self.r, self.g, self.b)
    }
}

/// The pixels that `drawille` sets to draw a line from `(x1, y1)` to
/// `(x2, y2)`: for each step `i` in `0..=r`, where `r` is the larger of the
/// two distances, each coordinate moves `i * distance / r` (rounded down)
/// from its start towards its end.
pub open spec fn line_points(x1: u32, y1: u32, x2: u32, y2: u32) -> Seq<(u32, u32)> {
    let xdiff: int = if x1 <= x2 { x2 - x1 } else { x1 - x2 };
    let ydiff: int = if y1 <= y2 { y2 - y1 } else { y1 - y2 };
    let r: int = if xdiff >= ydiff { xdiff } else { ydiff };
    Seq::new(
        (r + 1) as nat,
        |i: int|
            {
                let dx: int = if xdiff != 0 { i * xdiff / r } else { 0 };
                let dy: int = if ydiff != 0 { i * ydiff / r } else { 0 };
                let x: int = if x1 <= x2 { x1 + dx } else { x1 - dx };
                let y: int = if y1 <= y2 { y1 + dy } else { y1 - dy };
                (x as u32, y as u32)
            },
    )
}

/// The inputs on which `drawille`'s line drawing stays within its integer
/// types. Each coordinate is stepped as an `i32` (its bits reinterpreted)
/// from its start towards its end, which overflows exactly when start and
/// end lie on different sides of `i32::MAX`; and `i * distance` is a `u32`
/// product for each step `i` up to the larger distance, which overflows
/// exactly when the square of the larger distance exceeds `u32::MAX`.
pub open spec fn line_fits(x1: u32, y1: u32, x2: u32, y2: u32) -> bool {
    let xdiff: int = if x1 <= x2 { x2 - x1 } else { x1 - x2 };
    let ydiff: int = if y1 <= y2 { y2 - y1 } else { y1 - y2 };
    let r: int = if xdiff >= ydiff { xdiff } else { ydiff };
    &&& (x1 <= i32::MAX) == (x2 <= i32::MAX)
    &&& (y1 <= i32::MAX) == (y2 <= i32::MAX)
    &&& r * r <= u32::MAX
}

/// The positions of the newlines of `s`, in order.
pub open spec fn newline_positions(s: Seq<char>) -> Seq<int>
    decreases s.len(),
{
    if s.len() == 0 {
        Seq::empty()
    } else if s.last() == '\n' {
        newline_positions(s.drop_last()).push(s.len() - 1)
    } else {
        newline_positions(s.drop_last())
    }
}

/// The highest cell column that is at most `v` among the cells, or `-1`.
pub open spec fn top_col(cells: Map<(u16, u16), CellState>, v: int) -> int
    decreases v + 1,
{
    if v < 0 {
        -1
    } else if exists|k: (u16, u16)| cells.contains_key(k) && k.0 == v {
        v
    } else {
        top_col(cells, v - 1)
    }
}

/// The highest cell row that is at most `v` among the cells, or `-1`.
pub open spec fn top_row(cells: Map<(u16, u16), CellState>, v: int) -> int
    decreases v + 1,
{
    if v < 0 {
        -1
    } else if exists|k: (u16, u16)| cells.contains_key(k) && k.1 == v {
        v
    } else {
        top_row(cells, v - 1)
    }
}

/// The last column of the frame: the canvas width, or the highest column
/// of a cell beyond it.
pub open spec fn frame_last_col(cells: Map<(u16, u16), CellState>, size: (u16, u16)) -> int {
    let t = top_col(cells, u16::MAX as int);
    if t > size.0 { t } else { size.0 as int }
}

/// The last row of the frame: the canvas height, or the highest row of a
/// cell beyond it.
pub open spec fn frame_last_row(cells: Map<(u16, u16), CellState>, size: (u16, u16)) -> int {
    let t = top_row(cells, u16::MAX as int);
    if t > size.1 { t } else { size.1 as int }
}

/// The character a cell shows: a space when absent, its letter when it has
/// no dot, else the braille character of its dot mask.
pub open spec fn cell_char(cells: Map<(u16, u16), CellState>, key: (u16, u16)) -> char {
    if !cells.contains_key(key) {
        ' '
    } else if cells[key].0 == 0 {
        cells[key].1
    } else {
        (0x2800int + cells[key].0) as char
    }
}

/// The characters of row `y` of the frame, columns `0..=last_col`.
pub open spec fn frame_row(cells: Map<(u16, u16), CellState>, last_col: int, y: int) -> Seq<char> {
    Seq::new((last_col + 1) as nat, |x: int| cell_char(cells, (x as u16, y as u16)))
}

/// The rows of the frame, top to bottom.
pub open spec fn frame_rows(cells: Map<(u16, u16), CellState>, size: (u16, u16)) -> Seq<Seq<char>> {
    Seq::new(
        (frame_last_row(cells, size) + 1) as nat,
        |y: int| frame_row(cells, frame_last_col(cells, size), y),
    )
}

/// The lines joined by newlines.
pub open spec fn join_lines(rows: Seq<Seq<char>>) -> Seq<char>
    decreases rows.len(),
{
    if rows.len() == 0 {
        Seq::empty()
    } else if rows.len() == 1 {
        rows[0]
    } else {
        join_lines(rows.drop_last()) + seq!['\n'] + rows.last()
    }
}

/// The frame text of a canvas drawn without colour: its rows joined by
/// newlines.
pub open spec fn braille_frame(cells: Map<(u16, u16), CellState>, size: (u16, u16)) -> Seq<char> {
    join_lines(frame_rows(cells, size))
}

/// Whether no cell of the canvas is coloured.
pub open spec fn uncoloured(cells: Map<(u16, u16), CellState>) -> bool {
    forall|k: (u16, u16)| #[trigger] cells.contains_key(k) ==> cells[k].2 is None
}

/// `drawille::Canvas::new`: a canvas with no cells, sized `width / 2` by
/// `height / 4` characters (each truncated to 16 bits).
#[verifier::external_body]
pub fn canvas_new(width: u32, height: u32) -> (fresh: drawille::Canvas)
    ensures
        canvas_cells(fresh) =~= Map::empty(),
        canvas_size(fresh) == ((width / 2) as u16, (height / 4) as u16),
{
    drawille::Canvas::new(width, height)
}

/// `drawille::Canvas::set`: ors the dot of `(x, y)` into its cell, clears
/// the cell's letter to a space and its colour to uncoloured.
#[verifier::external_body]
pub fn canvas_set(c: &mut drawille::Canvas, x: u32, y: u32)
    ensures
        canvas_cells(*final(c)) == set_pixel(canvas_cells(*old(c)), x, y, None),
        canvas_size(*final(c)) == canvas_size(*old(c)),
{
    c.set(x, y)
}

/// `drawille::Canvas::set_colored` with a true colour: ors the dot of
/// `(x, y)` into its cell, clears the cell's letter to a space and gives the
/// cell the colour.
#[verifier::external_body]
pub fn canvas_set_colored(c: &mut drawille::Canvas, x: u32, y: u32, color: Rgb)
    ensures
        canvas_cells(*final(c)) == set_pixel(canvas_cells(*old(c)), x, y, Some(color.channels())),
        canvas_size(*final(c)) == canvas_size(*old(c)),
{
    c.set_colored(x, y, drawille::PixelColor::TrueColor { r: color.r, g: color.g, b: color.b })
}

/// `drawille::Canvas::line`: sets, in order, each pixel of `line_points`.
#[verifier::external_body]
pub fn canvas_line(c: &mut drawille::Canvas, x1: u32, y1: u32, x2: u32, y2: u32)
    requires
        line_fits(x1, y1, x2, y2),
    ensures
        canvas_cells(*final(c)) == paint(canvas_cells(*old(c)), line_points(x1, y1, x2, y2), None),
        canvas_size(*final(c)) == canvas_size(*old(c)),
{
    c.line(x1, y1, x2, y2)
}

/// `drawille::Canvas::line_colored` with a true colour: sets, in order,
/// each pixel of `line_points` in that colour.
#[verifier::external_body]
pub fn canvas_line_colored(c: &mut drawille::Canvas, x1: u32, y1: u32, x2: u32, y2: u32, color: Rgb)
    requires
        line_fits(x1, y1, x2, y2),
    ensures
        canvas_cells(*final(c)) == paint(
            canvas_cells(*old(c)),
            line_points(x1, y1, x2, y2),
            Some(color.channels()),
        ),
        canvas_size(*final(c)) == canvas_size(*old(c)),
{
    c.line_colored(x1, y1, x2, y2, drawille::PixelColor::TrueColor { r: color.r, g: color.g, b: color.b })
}

/// `drawille::Canvas::frame`: the rows of the canvas joined by newlines.
/// Of a canvas with uncoloured cells only, the text is `braille_frame` of
/// its cells and size. A coloured cell's braille character is wrapped in
/// the terminal colour codes of the `colored` crate, which depend on the
/// process environment and hold no newline: of every text, only its number
/// of newlines is stated then, which is that of `braille_frame`.
#[verifier::external_body]
pub fn canvas_frame(c: &drawille::Canvas) -> (text: String)
    ensures
        uncoloured(canvas_cells(*c)) ==> text@ == braille_frame(canvas_cells(*c), canvas_size(*c)),
        newline_positions(text@).len() == newline_positions(braille_frame(canvas_cells(*c), canvas_size(*c))).len(),
{
    c.frame()
}

} // verus!
