//! Plotted shapes: the marks that each kind of shape leaves on the chart,
//! and the placing of data points on the chart's pixel grid.
use vstd::prelude::*;
use crate::canvas::{
    canvas_cells, canvas_line, canvas_line_colored, canvas_set, canvas_set_colored, canvas_size,
    line_fits, line_points, paint, set_pixel, CellState, Rgb,
};
use crate::chart::{Chart, ChartView};

verus! {

/// Specifies different kinds of plotted data.
#[derive(Clone, Copy, PartialEq, Eq, Structural, Debug)]
pub enum ShapeKind {
    /// Real value function.
    Continuous,
    /// Points of a scatter plot.
    Points,
    /// Points connected with lines.
    Lines,
    /// Points connected in step fashion.
    Steps,
    /// Points represented with bars.
    Bars,
}

/// A shape ready to draw: its kind, its points in screen pixels (`y`
/// counted down from the top), and its colour, if any.
pub struct PlottedShape {
    pub kind: ShapeKind,
    pub points: Vec<(u32, u32)>,
    pub color: Option<Rgb>,
}

/// One mark on the canvas: a single pixel, or a line between two pixels.
pub enum Mark {
    Dot(u32, u32),
    Segment(u32, u32, u32, u32),
}

/// The colour of a shape as the canvas keeps it.
pub open spec fn color_spec(color: Option<Rgb>) -> Option<(u8, u8, u8)> {
    match color {
        Some(c) => Some(c.channels()),
        Option::None => Option::None,
    }
}

/// The cells after a mark is drawn in the given colour.
pub open spec fn apply_mark(
    cells: Map<(u16, u16), CellState>,
    m: Mark,
    color: Option<(u8, u8, u8)>,
) -> Map<(u16, u16), CellState> {
    match m {
        Mark::Dot(x, y) => set_pixel(cells, x, y, color),
        Mark::Segment(x1, y1, x2, y2) => paint(cells, line_points(x1, y1, x2, y2), color),
    }
}

/// The cells after each mark is drawn in turn.
pub open spec fn apply_marks(
    cells: Map<(u16, u16), CellState>,
    marks: Seq<Mark>,
    color: Option<(u8, u8, u8)>,
) -> Map<(u16, u16), CellState>
    decreases marks.len(),
{
    if marks.len() == 0 {
        cells
    } else {
        apply_mark(apply_marks(cells, marks.drop_last(), color), marks.last(), color)
    }
}

/// The marks between two consecutive points `(x1, y1)` and `(x2, y2)` of a
/// shape on a chart `height` dots tall: a line between them for lines and
/// curves; for steps, the level from `x1` to `x2` at `y2`, then the riser at
/// `x1`; for bars, those two, then both sides down to the bottom.
pub open spec fn pair_marks(kind: ShapeKind, p: (u32, u32), q: (u32, u32), height: u32) -> Seq<Mark> {
    let (x1, y1) = p;
    let (x2, y2) = q;
    match kind {
        ShapeKind::Continuous | ShapeKind::Lines => seq![Mark::Segment(x1, y1, x2, y2)],
        ShapeKind::Points => Seq::empty(),
        ShapeKind::Steps => seq![Mark::Segment(x1, y2, x2, y2), Mark::Segment(x1, y1, x1, y2)],
        ShapeKind::Bars => seq![
            Mark::Segment(x1, y2, x2, y2),
            Mark::Segment(x1, y1, x1, y2),
            Mark::Segment(x1, height, x1, y1),
            Mark::Segment(x2, height, x2, y2),
        ],
    }
}

/// The marks of a shape with the given points: a dot per point for a
/// scatter plot, else the marks of each pair of consecutive points, in
/// order.
pub open spec fn shape_marks(kind: ShapeKind, pts: Seq<(u32, u32)>, height: u32) -> Seq<Mark>
    decreases pts.len(),
{
    if kind is Points {
        pts.map_values(|p: (u32, u32)| Mark::Dot(p.0, p.1))
    } else if pts.len() < 2 {
        Seq::empty()
    } else {
        shape_marks(kind, pts.drop_last(), height) + pair_marks(
            kind,
            pts[pts.len() - 2],
            pts.last(),
            height,
        )
    }
}

/// Whether `drawille` can draw every line among the marks.
pub open spec fn marks_fit(marks: Seq<Mark>) -> bool {
    forall|k: int|
        0 <= k < marks.len() ==> match #[trigger] marks[k] {
            Mark::Segment(x1, y1, x2, y2) => line_fits(x1, y1, x2, y2),
            Mark::Dot(_, _) => true,
        }
}

impl PlottedShape {
    /// The marks of this shape on a chart `height` dots tall.
    pub open spec fn marks(self, height: u32) -> Seq<Mark> {
        shape_marks(self.kind, self.points@, height)
    }
}

/// The cells after each shape is drawn in turn, each in its colour.
pub open spec fn shapes_cells(
    cells: Map<(u16, u16), CellState>,
    shapes: Seq<PlottedShape>,
    height: u32,
) -> Map<(u16, u16), CellState>
    decreases shapes.len(),
{
    if shapes.len() == 0 {
        cells
    } else {
        let s = shapes.last();
        apply_marks(shapes_cells(cells, shapes.drop_last(), height), s.marks(height), color_spec(s.color))
    }
}

/// Whether every line of every shape can be drawn.
pub open spec fn shapes_fit(shapes: Seq<PlottedShape>, height: u32) -> bool {
    forall|k: int| 0 <= k < shapes.len() ==> marks_fit(#[trigger] shapes[k].marks(height))
}

/// Drawing the marks `a` and then the marks `b` is drawing `a + b`.
pub proof fn lemma_apply_marks_concat(
    cells: Map<(u16, u16), CellState>,
    a: Seq<Mark>,
    b: Seq<Mark>,
    color: Option<(u8, u8, u8)>,
)
    ensures
        apply_marks(cells, a + b, color) == apply_marks(apply_marks(cells, a, color), b, color),
    decreases b.len(),
{
    if b.len() == 0 {
        assert(a + b =~= a);
    } else {
        lemma_apply_marks_concat(cells, a, b.drop_last(), color);
        assert((a + b).drop_last() =~= a + b.drop_last());
    }
}

/// The marks of `a + b` fit exactly when those of `a` and of `b` do.
proof fn lemma_marks_fit_concat(a: Seq<Mark>, b: Seq<Mark>)
    ensures
        marks_fit(a + b) <==> marks_fit(a) && marks_fit(b),
{
    if marks_fit(a + b) {
        assert forall|k: int| 0 <= k < a.len() implies match #[trigger] a[k] {
            Mark::Segment(x1, y1, x2, y2) => line_fits(x1, y1, x2, y2),
            Mark::Dot(_, _) => true,
        } by {
            assert((a + b)[k] == a[k]);
        }
        assert forall|k: int| 0 <= k < b.len() implies match #[trigger] b[k] {
            Mark::Segment(x1, y1, x2, y2) => line_fits(x1, y1, x2, y2),
            Mark::Dot(_, _) => true,
        } by {
            assert((a + b)[a.len() + k] == b[k]);
        }
    }
    if marks_fit(a) && marks_fit(b) {
        assert forall|k: int| 0 <= k < (a + b).len() implies match #[trigger] (a + b)[k] {
            Mark::Segment(x1, y1, x2, y2) => line_fits(x1, y1, x2, y2),
            Mark::Dot(_, _) => true,
        } by {
            if k < a.len() {
                assert((a + b)[k] == a[k]);
            } else {
                assert((a + b)[k] == b[k - a.len()]);
            }
        }
    }
}

/// The marks of the first `k` points of a shape come first among its
/// marks, followed by those of each later pair.
proof fn lemma_shape_marks_step(kind: ShapeKind, pts: Seq<(u32, u32)>, k: int, height: u32)
    requires
        !(kind is Points),
        2 <= k <= pts.len(),
    ensures
        shape_marks(kind, pts.take(k), height) == shape_marks(kind, pts.take(k - 1), height) + pair_marks(
            kind,
            pts[k - 2],
            pts[k - 1],
            height,
        ),
{
    assert(pts.take(k).drop_last() =~= pts.take(k - 1));
}

/// When all marks of a shape fit, so do those of any of its prefixes.
proof fn lemma_shape_marks_fit_prefix(kind: ShapeKind, pts: Seq<(u32, u32)>, k: int, height: u32)
    requires
        !(kind is Points),
        0 <= k <= pts.len(),
        marks_fit(shape_marks(kind, pts, height)),
    ensures
        marks_fit(shape_marks(kind, pts.take(k), height)),
    decreases pts.len(),
{
    if k == pts.len() {
        assert(pts.take(k) =~= pts);
    } else if k < 2 {
        assert(shape_marks(kind, pts.take(k), height) =~= Seq::empty());
    } else {
        lemma_marks_fit_concat(
            shape_marks(kind, pts.drop_last(), height),
            pair_marks(kind, pts[pts.len() - 2], pts.last(), height),
        );
        lemma_shape_marks_fit_prefix(kind, pts.drop_last(), k, height);
        assert(pts.drop_last().take(k) =~= pts.take(k));
    }
}

/// Draws one mark in the given colour.
fn draw_mark(c: &mut drawille::Canvas, m: Mark, color: Option<Rgb>)
    requires
        marks_fit(seq![m]),
    ensures
        canvas_cells(*final(c)) == apply_mark(canvas_cells(*old(c)), m, color_spec(color)),
        canvas_size(*final(c)) == canvas_size(*old(c)),
{
    assert(seq![m][0] == m);
    match m {
        Mark::Dot(x, y) => match color {
            Some(rgb) => canvas_set_colored(c, x, y, rgb),
            Option::None => canvas_set(c, x, y),
        },
        Mark::Segment(x1, y1, x2, y2) => match color {
            Some(rgb) => canvas_line_colored(c, x1, y1, x2, y2, rgb),
            Option::None => canvas_line(c, x1, y1, x2, y2),
        },
    }
}

/// Draws the marks, in order, in the given colour.
fn draw_marks(c: &mut drawille::Canvas, marks: Vec<Mark>, color: Option<Rgb>)
    requires
        marks_fit(marks@),
    ensures
        canvas_cells(*final(c)) == apply_marks(canvas_cells(*old(c)), marks@, color_spec(color)),
        canvas_size(*final(c)) == canvas_size(*old(c)),
{
    let ghost start = canvas_cells(*c);
    let n = marks.len();
    let mut k: usize = 0;
    while k < n
        invariant
            n == marks@.len(),
            k <= n,
            marks_fit(marks@),
            canvas_size(*c) == canvas_size(*old(c)),
            canvas_cells(*c) == apply_marks(start, marks@.take(k as int), color_spec(color)),
        decreases n - k,
    {
        let m = match &marks[k] {
            Mark::Dot(x, y) => Mark::Dot(*x, *y),
            Mark::Segment(x1, y1, x2, y2) => Mark::Segment(*x1, *y1, *x2, *y2),
        };
        assert(m == marks@[k as int]);
        assert(seq![m][0] == m);
        draw_mark(c, m, color);
        assert(marks@.take(k + 1).drop_last() =~= marks@.take(k as int));
        k = k + 1;
    }
    assert(marks@.take(n as int) =~= marks@);
}

/// The marks between two consecutive points, as a vector.
fn pair_marks_exec(kind: ShapeKind, p: (u32, u32), q: (u32, u32), height: u32) -> (marks: Vec<Mark>)
    ensures
        marks@ == pair_marks(kind, p, q, height),
{
    let (x1, y1) = p;
    let (x2, y2) = q;
    let mut marks: Vec<Mark> = Vec::new();
    match kind {
        ShapeKind::Continuous | ShapeKind::Lines => {
            marks.push(Mark::Segment(x1, y1, x2, y2));
        },
        ShapeKind::Points => {},
        ShapeKind::Steps => {
            marks.push(Mark::Segment(x1, y2, x2, y2));
            marks.push(Mark::Segment(x1, y1, x1, y2));
        },
        ShapeKind::Bars => {
            marks.push(Mark::Segment(x1, y2, x2, y2));
            marks.push(Mark::Segment(x1, y1, x1, y2));
            marks.push(Mark::Segment(x1, height, x1, y1));
            marks.push(Mark::Segment(x2, height, x2, y2));
        },
    }
    assert(marks@ =~= pair_marks(kind, p, q, height));
    marks
}

/// Draws one shape, in its colour.
fn draw_shape(c: &mut drawille::Canvas, shape: &PlottedShape, height: u32)
    requires
        marks_fit(shape.marks(height)),
    ensures
        canvas_cells(*final(c)) == apply_marks(canvas_cells(*old(c)), shape.marks(height), color_spec(shape.color)),
        canvas_size(*final(c)) == canvas_size(*old(c)),
{
    let ghost start = canvas_cells(*c);
    let ghost color = color_spec(shape.color);
    let ghost pts = shape.points@;
    let kind = shape.kind;
    let n = shape.points.len();
    if kind == ShapeKind::Points {
        let ghost marks = shape.marks(height);
        let mut k: usize = 0;
        while k < n
            invariant
                n == pts.len(),
                pts == shape.points@,
                marks == pts.map_values(|p: (u32, u32)| Mark::Dot(p.0, p.1)),
                color == color_spec(shape.color),
                k <= n,
                canvas_size(*c) == canvas_size(*old(c)),
                canvas_cells(*c) == apply_marks(start, marks.take(k as int), color),
            decreases n - k,
        {
            let (x, y) = shape.points[k];
            match shape.color {
                Some(rgb) => canvas_set_colored(c, x, y, rgb),
                Option::None => canvas_set(c, x, y),
            }
            assert(marks[k as int] == Mark::Dot(x, y));
            assert(marks.take(k + 1).drop_last() =~= marks.take(k as int));
            k = k + 1;
        }
        assert(marks.take(n as int) =~= marks);
    } else if n >= 2 {
        let mut j: usize = 1;
        assert(shape_marks(kind, pts.take(1), height) =~= Seq::empty());
        while j < n
            invariant
                n == pts.len(),
                pts == shape.points@,
                kind == shape.kind,
                !(kind is Points),
                color == color_spec(shape.color),
                marks_fit(shape_marks(kind, pts, height)),
                1 <= j <= n,
                canvas_size(*c) == canvas_size(*old(c)),
                canvas_cells(*c) == apply_marks(start, shape_marks(kind, pts.take(j as int), height), color),
            decreases n - j,
        {
            let marks = pair_marks_exec(kind, shape.points[j - 1], shape.points[j], height);
            proof {
                lemma_shape_marks_step(kind, pts, j + 1, height);
                lemma_shape_marks_fit_prefix(kind, pts, j + 1, height);
                lemma_marks_fit_concat(shape_marks(kind, pts.take(j as int), height), marks@);
                lemma_apply_marks_concat(start, shape_marks(kind, pts.take(j as int), height), marks@, color);
            }
            draw_marks(c, marks, shape.color);
            j = j + 1;
        }
        assert(pts.take(n as int) =~= pts);
    } else {
        assert(shape_marks(kind, pts, height) =~= Seq::empty());
    }
}

impl Chart {
    /// Shows figures: draws each shape in turn, each in its colour.
    pub fn figures(&mut self, shapes: &Vec<PlottedShape>)
        requires
            shapes_fit(shapes@, old(self)@.height),
        ensures
            final(self)@ == old(self)@.with_cells(shapes_cells(old(self)@.cells, shapes@, old(self)@.height)),
    {
        proof { self.lemma_view(); }
        let ghost start = canvas_cells(self.canvas);
        let n = shapes.len();
        let h = self.height;
        let mut k: usize = 0;
        while k < n
            invariant
                n == shapes@.len(),
                k <= n,
                h == old(self)@.height,
                shapes_fit(shapes@, h),
                self.width == old(self).width,
                self.height == old(self).height,
                self.x_style == old(self).x_style,
                self.y_style == old(self).y_style,
                canvas_size(self.canvas) == canvas_size(old(self).canvas),
                canvas_cells(self.canvas) == shapes_cells(start, shapes@.take(k as int), h),
            decreases n - k,
        {
            assert(marks_fit(shapes@[k as int].marks(h)));
            draw_shape(&mut self.canvas, &shapes[k], h);
            assert(shapes@.take(k + 1).drop_last() =~= shapes@.take(k as int));
            k = k + 1;
        }
        assert(shapes@.take(n as int) =~= shapes@);
        proof { self.lemma_view(); }
    }
}

/// Whether `drawille` can draw a line between the two pixels.
fn segment_fits(x1: u32, y1: u32, x2: u32, y2: u32) -> (ok: bool)
    ensures
        ok == line_fits(x1, y1, x2, y2),
{
    let xdiff: u64 = if x1 <= x2 { (x2 - x1) as u64 } else { (x1 - x2) as u64 };
    let ydiff: u64 = if y1 <= y2 { (y2 - y1) as u64 } else { (y1 - y2) as u64 };
    let r: u64 = if xdiff >= ydiff { xdiff } else { ydiff };
    assert(r * r <= 0xffff_ffff_u64 * 0xffff_ffff_u64) by (nonlinear_arith)
        requires
            r <= 0xffff_ffff_u64,
    ;
    let same_side = (x1 <= 0x7fff_ffff) == (x2 <= 0x7fff_ffff) && (y1 <= 0x7fff_ffff) == (y2 <= 0x7fff_ffff);
    same_side && r * r <= 0xffff_ffff
}

/// Whether every line among the marks can be drawn.
fn marks_fit_exec(marks: &Vec<Mark>) -> (ok: bool)
    ensures
        ok == marks_fit(marks@),
{
    let n = marks.len();
    let mut k: usize = 0;
    while k < n
        invariant
            n == marks@.len(),
            k <= n,
            marks_fit(marks@.take(k as int)),
        decreases n - k,
    {
        let fits = match &marks[k] {
            Mark::Dot(_, _) => true,
            Mark::Segment(x1, y1, x2, y2) => segment_fits(*x1, *y1, *x2, *y2),
        };
        if !fits {
            assert(!marks_fit(marks@)) by {
                assert(!match marks@[k as int] {
                    Mark::Segment(x1, y1, x2, y2) => line_fits(x1, y1, x2, y2),
                    Mark::Dot(_, _) => true,
                });
            }
            return false;
        }
        proof {
            lemma_marks_fit_concat(marks@.take(k as int), seq![marks@[k as int]]);
            assert(marks@.take(k + 1) =~= marks@.take(k as int) + seq![marks@[k as int]]);
        }
        k = k + 1;
    }
    assert(marks@.take(n as int) =~= marks@);
    true
}

/// Whether every line of the shape can be drawn.
fn shape_fits(shape: &PlottedShape, height: u32) -> (ok: bool)
    ensures
        ok == marks_fit(shape.marks(height)),
{
    let ghost pts = shape.points@;
    let kind = shape.kind;
    let n = shape.points.len();
    if kind == ShapeKind::Points {
        return true;
    }
    if n < 2 {
        assert(shape_marks(kind, pts, height) =~= Seq::empty());
        return true;
    }
    let mut j: usize = 1;
    assert(shape_marks(kind, pts.take(1), height) =~= Seq::empty());
    while j < n
        invariant
            n == pts.len(),
            pts == shape.points@,
            kind == shape.kind,
            !(kind is Points),
            1 <= j <= n,
            marks_fit(shape_marks(kind, pts.take(j as int), height)),
        decreases n - j,
    {
        let marks = pair_marks_exec(kind, shape.points[j - 1], shape.points[j], height);
        let fits = marks_fit_exec(&marks);
        proof {
            lemma_shape_marks_step(kind, pts, j + 1, height);
            lemma_marks_fit_concat(shape_marks(kind, pts.take(j as int), height), marks@);
        }
        if !fits {
            proof {
                if marks_fit(shape_marks(kind, pts, height)) {
                    lemma_shape_marks_fit_prefix(kind, pts, j + 1, height);
                }
            }
            return false;
        }
        j = j + 1;
    }
    assert(pts.take(n as int) =~= pts);
    true
}

impl Chart {
    /// Whether every line of every shape can be drawn on this chart: the
    /// condition under which `figures` draws them all.
    pub fn can_draw(&self, shapes: &Vec<PlottedShape>) -> (ok: bool)
        ensures
            ok == shapes_fit(shapes@, self@.height),
    {
        proof { self.lemma_view(); }
        let n = shapes.len();
        let mut k: usize = 0;
        while k < n
            invariant
                n == shapes@.len(),
                k <= n,
                self.height == self@.height,
                forall|i: int| 0 <= i < k ==> marks_fit(#[trigger] shapes@[i].marks(self.height)),
            decreases n - k,
        {
            if !shape_fits(&shapes[k], self.height) {
                return false;
            }
            k = k + 1;
        }
        true
    }
}

/// The screen pixels of data points already placed on the chart's scales:
/// a point `(i, j)` (`j` counted up from the bottom) is kept when it lies on
/// the chart, at `(i, height - j)`; the others are dropped.
pub open spec fn screen_of(raw: Seq<(u32, u32)>, width: u32, height: u32) -> Seq<(u32, u32)>
    decreases raw.len(),
{
    if raw.len() == 0 {
        Seq::empty()
    } else {
        let rest = screen_of(raw.drop_last(), width, height);
        let (i, j) = raw.last();
        if i <= width && j <= height {
            rest.push((i, (height - j) as u32))
        } else {
            rest
        }
    }
}

/// The screen pixels of a sampled curve: the sample at column `k`, when
/// there is one, gives the pixel `(k, height - j)`.
pub open spec fn curve_of(samples: Seq<Option<u32>>, height: u32) -> Seq<(u32, u32)>
    decreases samples.len(),
{
    if samples.len() == 0 {
        Seq::empty()
    } else {
        let rest = curve_of(samples.drop_last(), height);
        match samples.last() {
            Some(j) => rest.push(((samples.len() - 1) as u32, (height - j) as u32)),
            Option::None => rest,
        }
    }
}

impl Chart {
    /// Translates data points, already placed on the chart's scales and
    /// rounded, into screen pixels, dropping those off the chart.
    pub fn screen_points(&self, raw: &Vec<(u32, u32)>) -> (pts: Vec<(u32, u32)>)
        ensures
            pts@ == screen_of(raw@, self@.width, self@.height),
    {
        proof { self.lemma_view(); }
        let n = raw.len();
        let mut pts: Vec<(u32, u32)> = Vec::new();
        let mut k: usize = 0;
        while k < n
            invariant
                n == raw@.len(),
                k <= n,
                self.width == self@.width,
                self.height == self@.height,
                pts@ == screen_of(raw@.take(k as int), self.width, self.height),
            decreases n - k,
        {
            let (i, j) = raw[k];
            assert(raw@.take(k + 1).drop_last() =~= raw@.take(k as int));
            if i <= self.width && j <= self.height {
                pts.push((i, self.height - j));
            }
            k = k + 1;
        }
        assert(raw@.take(n as int) =~= raw@);
        pts
    }

    /// Translates the samples of a curve into screen pixels: `samples[k]`
    /// is the rounded height of the curve at column `k` on the chart's y
    /// scale, or `None` where the curve has no normal value. A sample above
    /// the chart is a caller's error.
    pub fn curve_points(&self, samples: &Vec<Option<u32>>) -> (pts: Vec<(u32, u32)>)
        requires
            samples@.len() <= u32::MAX as nat + 1,
            forall|k: int| 0 <= k < samples@.len() && (#[trigger] samples@[k]) is Some ==> samples@[k]->0 <= self@.height,
        ensures
            pts@ == curve_of(samples@, self@.height),
    {
        proof { self.lemma_view(); }
        let n = samples.len();
        let mut pts: Vec<(u32, u32)> = Vec::new();
        let mut k: usize = 0;
        while k < n
            invariant
                n == samples@.len(),
                n <= u32::MAX as nat + 1,
                k <= n,
                self.height == self@.height,
                forall|k: int| 0 <= k < samples@.len() && (#[trigger] samples@[k]) is Some ==> samples@[k]->0 <= self.height,
                pts@ == curve_of(samples@.take(k as int), self.height),
            decreases n - k,
        {
            assert(samples@.take(k + 1).drop_last() =~= samples@.take(k as int));
            assert(samples@.take(k + 1).last() == samples@[k as int]);
            if let Some(j) = samples[k] {
                pts.push((k as u32, self.height - j));
            }
            k = k + 1;
        }
        assert(samples@.take(n as int) =~= samples@);
        pts
    }
}

} // verus!
