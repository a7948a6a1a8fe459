//! The chart: a braille canvas of a given size in dots, with the styles of
//! its two axes, and the drawing of lines, borders and axes on it.
use vstd::prelude::*;
use crate::canvas::{canvas_cells, canvas_new, canvas_set, canvas_size, paint, CellState};

verus! {

/// Specifies line style.
/// Default value is `LineStyle::Dotted`.
#[derive(Clone, Copy, PartialEq, Eq, Structural, Debug)]
pub enum LineStyle {
    /// Line is not displayed.
    Hidden,
    /// Line is solid  (⠤⠤⠤).
    Solid,
    /// Line is dotted (⠄⠠⠀).
    Dotted,
    /// Line is dashed (⠤⠀⠤).
    Dashed,
}

impl Default for LineStyle {
    fn default() -> (style: LineStyle)
        ensures
            style == LineStyle::Dotted,
    {
        LineStyle::Dotted
    }
}

/// The offsets along a line of length `len` (from `0` to `len` inclusive)
/// at which a line of the given style sets a dot: every offset when solid,
/// every third when dotted, and two of every four when dashed (the second
/// of a pair may lie just past `len`).
pub open spec fn style_offsets(style: LineStyle, len: u32) -> Seq<u32> {
    match style {
        LineStyle::Hidden => Seq::empty(),
        LineStyle::Solid => Seq::new(len as nat + 1, |k: int| k as u32),
        LineStyle::Dotted => Seq::new(len as nat / 3 + 1, |k: int| (3 * k) as u32),
        LineStyle::Dashed => Seq::new(2 * (len as nat / 4 + 1), |k: int| (4 * (k / 2) + k % 2) as u32),
    }
}

/// The pixels of a styled line of length `len` at `at`: the column
/// `x == at` when `vertical`, else the row `y == at`.
pub open spec fn stroke_points(at: u32, len: u32, style: LineStyle, vertical: bool) -> Seq<(u32, u32)> {
    style_offsets(style, len).map_values(|k: u32| if vertical { (at, k) } else { (k, at) })
}

/// The pixels of a vertical line at column `i` down a chart `height` dots
/// tall.
pub open spec fn vline_points(i: u32, height: u32, style: LineStyle) -> Seq<(u32, u32)> {
    stroke_points(i, height, style, true)
}

/// The pixels of a horizontal line `j` dots above the bottom of a chart
/// `width` by `height` dots.
pub open spec fn hline_points(j: u32, width: u32, height: u32, style: LineStyle) -> Seq<(u32, u32)> {
    stroke_points((height - j) as u32, width, style, false)
}

/// Sets, in order, the pixels of a styled line.
fn stroke(c: &mut drawille::Canvas, at: u32, len: u32, style: LineStyle, vertical: bool)
    ensures
        canvas_cells(*final(c)) == paint(canvas_cells(*old(c)), stroke_points(at, len, style, vertical), None),
        canvas_size(*final(c)) == canvas_size(*old(c)),
{
    let ghost pts = stroke_points(at, len, style, vertical);
    let ghost start = canvas_cells(*c);
    let step: u64 = match style {
        LineStyle::Hidden => {
            assert(pts =~= Seq::empty());
            return;
        },
        LineStyle::Solid => 1,
        LineStyle::Dotted => 3,
        LineStyle::Dashed => 4,
    };
    let mut k: u64 = 0;
    let ghost mut n: int = 0;
    while k <= len as u64
        invariant
            style !is Hidden,
            step == (if style is Solid { 1u64 } else if style is Dotted { 3u64 } else { 4u64 }),
            k <= len as u64 + 1,
            style is Solid ==> n == k,
            style is Dotted ==> n == (k + 2) / 3,
            style is Dashed ==> n == 2 * ((k + 3) / 4),
            0 <= n <= pts.len(),
            pts == stroke_points(at, len, style, vertical),
            canvas_size(*c) == canvas_size(*old(c)),
            canvas_cells(*c) == paint(start, pts.take(n), None),
        decreases len as u64 + 1 - k,
    {
        if k % step == 0 {
            let p: (u32, u32) = if vertical { (at, k as u32) } else { (k as u32, at) };
            canvas_set(c, p.0, p.1);
            assert(pts[n] == p);
            assert(pts.take(n + 1).drop_last() =~= pts.take(n));
            assert(canvas_cells(*c) == paint(start, pts.take(n + 1), None));
            proof { n = n + 1; }
            if step == 4 {
                let q: (u32, u32) = if vertical { (at, (k + 1) as u32) } else { ((k + 1) as u32, at) };
                canvas_set(c, q.0, q.1);
                assert(pts[n] == q);
                assert(pts.take(n + 1).drop_last() =~= pts.take(n));
                assert(canvas_cells(*c) == paint(start, pts.take(n + 1), None));
                proof { n = n + 1; }
            }
        }
        k = k + 1;
    }
    assert(pts.take(n) =~= pts);
}

/// What a chart is: its size in dots, the cells and size of its canvas,
/// and the styles of its axes.
pub struct ChartView {
    pub width: u32,
    pub height: u32,
    pub cells: Map<(u16, u16), CellState>,
    pub canvas_size: (u16, u16),
    pub x_style: LineStyle,
    pub y_style: LineStyle,
}

/// Controls the drawing.
pub struct Chart {
    /// Canvas width in points.
    pub(crate) width: u32,
    /// Canvas height in points.
    pub(crate) height: u32,
    /// Underlying canvas object.
    pub(crate) canvas: drawille::Canvas,
    /// X-axis style.
    pub(crate) x_style: LineStyle,
    /// Y-axis style.
    pub(crate) y_style: LineStyle,
}

impl View for Chart {
    type V = ChartView;

    closed spec fn view(&self) -> ChartView {
        ChartView {
            width: self.width,
            height: self.height,
            cells: canvas_cells(self.canvas),
            canvas_size: canvas_size(self.canvas),
            x_style: self.x_style,
            y_style: self.y_style,
        }
    }
}

impl Chart {
    /// What the view of a chart holds, for the other modules of the crate.
    pub(crate) proof fn lemma_view(&self)
        ensures
            self@ == (ChartView {
                width: self.width,
                height: self.height,
                cells: canvas_cells(self.canvas),
                canvas_size: canvas_size(self.canvas),
                x_style: self.x_style,
                y_style: self.y_style,
            }),
    {
    }
}

impl ChartView {
    /// A chart is at least 32 dots wide and 3 tall, and its canvas has one
    /// character per 2 by 4 dots.
    pub open spec fn wf(self) -> bool {
        &&& self.width >= 32
        &&& self.height >= 3
        &&& self.canvas_size == ((self.width / 2) as u16, (self.height / 4) as u16)
    }

    /// The same chart with other cells.
    pub open spec fn with_cells(self, cells: Map<(u16, u16), CellState>) -> ChartView {
        ChartView { cells, ..self }
    }
}

impl Chart {
    /// Creates a new `Chart` object, with an empty canvas and dotted axes.
    ///
    /// A chart is at least 32 dots wide and 3 tall: smaller sizes are a
    /// caller's error.
    pub fn new(width: u32, height: u32) -> (chart: Chart)
        requires
            width >= 32,
            height >= 3,
        ensures
            chart@.wf(),
            chart@.width == width,
            chart@.height == height,
            chart@.cells =~= Map::empty(),
            chart@.x_style == LineStyle::Dotted,
            chart@.y_style == LineStyle::Dotted,
    {
        Chart {
            width,
            height,
            canvas: canvas_new(width, height),
            x_style: LineStyle::Dotted,
            y_style: LineStyle::Dotted,
        }
    }

    /// Draws vertical line of the specified style at column `i`; nothing
    /// when `i` lies right of the chart.
    pub fn vline(&mut self, i: u32, mode: LineStyle)
        ensures
            final(self)@ == old(self)@.with_cells(vline_cells(old(self)@, i, mode)),
    {
        if i <= self.width {
            stroke(&mut self.canvas, i, self.height, mode, true);
        }
    }

    /// Draws horizontal line of the specified style `j` dots above the
    /// bottom; nothing when `j` lies above the chart.
    pub fn hline(&mut self, j: u32, mode: LineStyle)
        ensures
            final(self)@ == old(self)@.with_cells(hline_cells(old(self)@, j, mode)),
    {
        if j <= self.height {
            stroke(&mut self.canvas, self.height - j, self.width, mode, false);
        }
    }

    /// Displays bounding rect: dotted lines along the four edges.
    pub fn borders(&mut self)
        ensures
            final(self)@ == old(self)@.with_cells(border_cells(old(self)@)),
    {
        let w = self.width;
        let h = self.height;

        self.vline(0, LineStyle::Dotted);
        self.vline(w, LineStyle::Dotted);
        self.hline(0, LineStyle::Dotted);
        self.hline(h, LineStyle::Dotted);
    }

    /// Shows x-axis, in the x-axis style, at `zero_row` dots above the
    /// bottom: the row of the value 0 on the y scale, where that value lies
    /// in the y range.
    pub fn x_axis(&mut self, zero_row: Option<u32>)
        ensures
            final(self)@ == old(self)@.with_cells(x_axis_cells(old(self)@, zero_row)),
    {
        if let Some(j) = zero_row {
            let style = self.x_style;
            self.hline(j, style);
        }
    }

    /// Shows y-axis, in the y-axis style, at column `zero_col`: the column
    /// of the value 0 on the x scale, where that value lies in the x range.
    pub fn y_axis(&mut self, zero_col: Option<u32>)
        ensures
            final(self)@ == old(self)@.with_cells(y_axis_cells(old(self)@, zero_col)),
    {
        if let Some(i) = zero_col {
            let style = self.y_style;
            self.vline(i, style);
        }
    }

    /// Shows axis: the x-axis, then the y-axis.
    pub fn axis(&mut self, zero_row: Option<u32>, zero_col: Option<u32>)
        ensures
            final(self)@ == old(self)@.with_cells(
                y_axis_cells(old(self)@.with_cells(x_axis_cells(old(self)@, zero_row)), zero_col),
            ),
    {
        self.x_axis(zero_row);
        self.y_axis(zero_col);
    }

    /// Canvas width in points.
    pub fn width(&self) -> (w: u32)
        ensures
            w == self@.width,
    {
        self.width
    }

    /// Canvas height in points.
    pub fn height(&self) -> (h: u32)
        ensures
            h == self@.height,
    {
        self.height
    }

    /// Specifies the style of x-axis.
    pub fn x_axis_style(&mut self, style: LineStyle)
        ensures
            final(self)@ == (ChartView { x_style: style, ..old(self)@ }),
    {
        self.x_style = style;
    }

    /// Specifies the style of y-axis.
    pub fn y_axis_style(&mut self, style: LineStyle)
        ensures
            final(self)@ == (ChartView { y_style: style, ..old(self)@ }),
    {
        self.y_style = style;
    }
}

/// The cells of a chart after a vertical line is drawn at column `i`.
pub open spec fn vline_cells(c: ChartView, i: u32, style: LineStyle) -> Map<(u16, u16), CellState> {
    if i <= c.width {
        paint(c.cells, vline_points(i, c.height, style), None)
    } else {
        c.cells
    }
}

/// The cells of a chart after a horizontal line is drawn `j` dots above the
/// bottom.
pub open spec fn hline_cells(c: ChartView, j: u32, style: LineStyle) -> Map<(u16, u16), CellState> {
    if j <= c.height {
        paint(c.cells, hline_points(j, c.width, c.height, style), None)
    } else {
        c.cells
    }
}

/// The cells of a chart after its bounding rect is drawn.
pub open spec fn border_cells(c: ChartView) -> Map<(u16, u16), CellState> {
    let c1 = c.with_cells(vline_cells(c, 0, LineStyle::Dotted));
    let c2 = c1.with_cells(vline_cells(c1, c.width, LineStyle::Dotted));
    let c3 = c2.with_cells(hline_cells(c2, 0, LineStyle::Dotted));
    hline_cells(c3, c.height, LineStyle::Dotted)
}

/// The cells of a chart after its x-axis is drawn, if it shows.
pub open spec fn x_axis_cells(c: ChartView, zero_row: Option<u32>) -> Map<(u16, u16), CellState> {
    match zero_row {
        Some(j) => hline_cells(c, j, c.x_style),
        Option::None => c.cells,
    }
}

/// The cells of a chart after its y-axis is drawn, if it shows.
pub open spec fn y_axis_cells(c: ChartView, zero_col: Option<u32>) -> Map<(u16, u16), CellState> {
    match zero_col {
        Some(i) => vline_cells(c, i, c.y_style),
        Option::None => c.cells,
    }
}

} // verus!
