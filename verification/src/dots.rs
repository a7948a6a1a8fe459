//! Drawing as a sequence of coloured pixels, and what it leaves in each
//! cell: the dots of the pixels that fall in it, or'ed into its mask, and
//! the colour of the last of them.
use vstd::prelude::*;
use crate::canvas::{is_lit, cell_of, dot_bit, line_points, mask_at, paint, set_pixel, CellState};
use crate::shapes::{apply_mark, apply_marks, color_spec, shapes_cells, Mark, PlottedShape};

verus! {

/// A pixel to set, with the colour to give its cell.
pub type Dot = (u32, u32, Option<(u8, u8, u8)>);

/// The cells after each dot is set in turn.
pub open spec fn dot_cells(cells: Map<(u16, u16), CellState>, dots: Seq<Dot>) -> Map<(u16, u16), CellState>
    decreases dots.len(),
{
    if dots.len() == 0 {
        cells
    } else {
        let d = dots.last();
        set_pixel(dot_cells(cells, dots.drop_last()), d.0, d.1, d.2)
    }
}

/// The pixels, each with the given colour.
pub open spec fn with_color(pts: Seq<(u32, u32)>, color: Option<(u8, u8, u8)>) -> Seq<Dot> {
    pts.map_values(|p: (u32, u32)| (p.0, p.1, color))
}

/// Whether some dot falls in the cell.
pub open spec fn touches(dots: Seq<Dot>, key: (u16, u16)) -> bool
    decreases dots.len(),
{
    if dots.len() == 0 {
        false
    } else {
        cell_of(dots.last().0, dots.last().1) == key || touches(dots.drop_last(), key)
    }
}

/// The dots of the cell that the dots set.
pub open spec fn ors(dots: Seq<Dot>, key: (u16, u16)) -> u8
    decreases dots.len(),
{
    if dots.len() == 0 {
        0u8
    } else {
        let d = dots.last();
        if cell_of(d.0, d.1) == key {
            (ors(dots.drop_last(), key) | dot_bit(d.0, d.1)) as u8
        } else {
            ors(dots.drop_last(), key)
        }
    }
}

/// The colour of the last dot that falls in the cell.
pub open spec fn last_color(dots: Seq<Dot>, key: (u16, u16)) -> Option<(u8, u8, u8)>
    decreases dots.len(),
{
    if dots.len() == 0 {
        Option::None
    } else {
        let d = dots.last();
        if cell_of(d.0, d.1) == key {
            d.2
        } else {
            last_color(dots.drop_last(), key)
        }
    }
}

proof fn lemma_or_assoc(a: u8, b: u8, c: u8)
    ensures
        ((a | b) as u8 | c) as u8 == (a | (b | c) as u8) as u8,
        (a | 0u8) as u8 == a,
{
    assert(((a | b) as u8 | c) as u8 == (a | (b | c) as u8) as u8) by (bit_vector);
    assert((a | 0u8) as u8 == a) by (bit_vector);
}

/// What the dots leave in one cell: a touched cell holds the old mask or'ed
/// with the dots that fall in it, a space, and the colour of the last of
/// them; an untouched cell is as it was.
pub proof fn lemma_dot_cells_at(cells: Map<(u16, u16), CellState>, dots: Seq<Dot>, key: (u16, u16))
    ensures
        dot_cells(cells, dots).contains_key(key) == (cells.contains_key(key) || touches(dots, key)),
        touches(dots, key) ==> dot_cells(cells, dots)[key] == (
            (mask_at(cells, key) | ors(dots, key)) as u8,
            ' ',
            last_color(dots, key),
        ),
        !touches(dots, key) ==> ors(dots, key) == 0,
        !touches(dots, key) && cells.contains_key(key) ==> dot_cells(cells, dots)[key] == cells[key],
    decreases dots.len(),
{
    if dots.len() > 0 {
        let rest = dots.drop_last();
        let d = dots.last();
        lemma_dot_cells_at(cells, rest, key);
        let mid = dot_cells(cells, rest);
        if cell_of(d.0, d.1) == key {
            lemma_or_assoc(mask_at(cells, key), ors(rest, key), dot_bit(d.0, d.1));
            if !touches(rest, key) {
                lemma_or_assoc(mask_at(cells, key), 0u8, 0u8);
                assert(mask_at(mid, key) == mask_at(cells, key));
            }
        }
    }
}

/// Setting `a` then `b` is setting `a + b`.
pub proof fn lemma_dot_cells_concat(cells: Map<(u16, u16), CellState>, a: Seq<Dot>, b: Seq<Dot>)
    ensures
        dot_cells(cells, a + b) == dot_cells(dot_cells(cells, a), b),
    decreases b.len(),
{
    if b.len() == 0 {
        assert(a + b =~= a);
    } else {
        lemma_dot_cells_concat(cells, a, b.drop_last());
        assert((a + b).drop_last() =~= a + b.drop_last());
    }
}

/// Painting pixels in a colour is setting them as dots of that colour.
pub proof fn lemma_paint_dots(cells: Map<(u16, u16), CellState>, pts: Seq<(u32, u32)>, color: Option<(u8, u8, u8)>)
    ensures
        paint(cells, pts, color) == dot_cells(cells, with_color(pts, color)),
    decreases pts.len(),
{
    if pts.len() > 0 {
        lemma_paint_dots(cells, pts.drop_last(), color);
        assert(with_color(pts, color).drop_last() =~= with_color(pts.drop_last(), color));
    }
}

/// The pixels of a mark.
pub open spec fn mark_pixels(m: Mark) -> Seq<(u32, u32)> {
    match m {
        Mark::Dot(x, y) => seq![(x, y)],
        Mark::Segment(x1, y1, x2, y2) => line_points(x1, y1, x2, y2),
    }
}

/// The pixels of the marks, in order.
pub open spec fn marks_pixels(marks: Seq<Mark>) -> Seq<(u32, u32)>
    decreases marks.len(),
{
    if marks.len() == 0 {
        Seq::empty()
    } else {
        marks_pixels(marks.drop_last()) + mark_pixels(marks.last())
    }
}

/// The coloured pixels of the shapes, in order, each in its shape's colour.
pub open spec fn shapes_dots(shapes: Seq<PlottedShape>, height: u32) -> Seq<Dot>
    decreases shapes.len(),
{
    if shapes.len() == 0 {
        Seq::empty()
    } else {
        let s = shapes.last();
        shapes_dots(shapes.drop_last(), height) + with_color(marks_pixels(s.marks(height)), color_spec(s.color))
    }
}

/// Drawing marks in a colour is painting their pixels in it.
pub proof fn lemma_marks_dots(cells: Map<(u16, u16), CellState>, marks: Seq<Mark>, color: Option<(u8, u8, u8)>)
    ensures
        apply_marks(cells, marks, color) == dot_cells(cells, with_color(marks_pixels(marks), color)),
    decreases marks.len(),
{
    if marks.len() > 0 {
        let rest = marks.drop_last();
        lemma_marks_dots(cells, rest, color);
        let mid = apply_marks(cells, rest, color);
        let m = marks.last();
        lemma_paint_dots(mid, mark_pixels(m), color);
        match m {
            Mark::Dot(x, y) => {
                let one = seq![(x, y)];
                assert(one.drop_last() =~= Seq::<(u32, u32)>::empty());
                assert(one.last() == (x, y));
                assert(paint(mid, one.drop_last(), color) == mid);
                assert(paint(mid, one, color) == set_pixel(mid, x, y, color));
            },
            Mark::Segment(x1, y1, x2, y2) => {},
        }
        assert(apply_mark(mid, m, color) == paint(mid, mark_pixels(m), color));
        assert(with_color(marks_pixels(marks), color) =~= with_color(marks_pixels(rest), color) + with_color(
            mark_pixels(m),
            color,
        ));
        lemma_dot_cells_concat(cells, with_color(marks_pixels(rest), color), with_color(mark_pixels(m), color));
    }
}

/// Drawing shapes is setting their coloured pixels.
pub proof fn lemma_shapes_dots(cells: Map<(u16, u16), CellState>, shapes: Seq<PlottedShape>, height: u32)
    ensures
        shapes_cells(cells, shapes, height) == dot_cells(cells, shapes_dots(shapes, height)),
    decreases shapes.len(),
{
    if shapes.len() > 0 {
        let rest = shapes.drop_last();
        let s = shapes.last();
        lemma_shapes_dots(cells, rest, height);
        lemma_marks_dots(shapes_cells(cells, rest, height), s.marks(height), color_spec(s.color));
        lemma_dot_cells_concat(
            cells,
            shapes_dots(rest, height),
            with_color(marks_pixels(s.marks(height)), color_spec(s.color)),
        );
    }
}

/// Two colourings of the same pixels touch the same cells with the same
/// dots, and a touched cell ends in the colour of its colouring.
pub proof fn lemma_recolor(pts: Seq<(u32, u32)>, c1: Option<(u8, u8, u8)>, c2: Option<(u8, u8, u8)>, key: (u16, u16))
    ensures
        touches(with_color(pts, c1), key) == touches(with_color(pts, c2), key),
        ors(with_color(pts, c1), key) == ors(with_color(pts, c2), key),
        touches(with_color(pts, c1), key) ==> last_color(with_color(pts, c1), key) == c1,
    decreases pts.len(),
{
    if pts.len() > 0 {
        lemma_recolor(pts.drop_last(), c1, c2, key);
        assert(with_color(pts, c1).drop_last() =~= with_color(pts.drop_last(), c1));
        assert(with_color(pts, c2).drop_last() =~= with_color(pts.drop_last(), c2));
    }
}

proof fn lemma_or_bits(a: u8, b: u8, c: u8, m: u8)
    ensures
        ((a | b) as u8) & b == b,
        a & b == b ==> ((a | c) as u8) & b == b,
        a & !m == 0 && c & !m == 0 ==> ((a | c) as u8) & !m == 0,
        0u8 & !m == 0,
{
    assert(((a | b) as u8) & b == b) by (bit_vector);
    assert(a & b == b ==> ((a | c) as u8) & b == b) by (bit_vector);
    assert(a & !m == 0 && c & !m == 0 ==> ((a | c) as u8) & !m == 0) by (bit_vector);
    assert(0u8 & !m == 0) by (bit_vector);
}

/// A dot that falls in a cell touches it, and its dot is among the cell's.
pub proof fn lemma_touch_at(dots: Seq<Dot>, k: int, key: (u16, u16))
    requires
        0 <= k < dots.len(),
        cell_of(dots[k].0, dots[k].1) == key,
    ensures
        touches(dots, key),
        ors(dots, key) & dot_bit(dots[k].0, dots[k].1) == dot_bit(dots[k].0, dots[k].1),
    decreases dots.len(),
{
    let rest = dots.drop_last();
    let d = dots.last();
    let bit = dot_bit(dots[k].0, dots[k].1);
    if k == dots.len() - 1 {
        lemma_or_bits(ors(rest, key), bit, 0, 0);
    } else {
        assert(rest[k] == dots[k]);
        lemma_touch_at(rest, k, key);
        if cell_of(d.0, d.1) == key {
            lemma_or_bits(ors(rest, key), bit, dot_bit(d.0, d.1), 0);
        }
    }
}

/// When the dots of every pixel that falls in a cell lie within the mask
/// `m`, so do the cell's dots.
pub proof fn lemma_ors_within(dots: Seq<Dot>, key: (u16, u16), m: u8)
    requires
        forall|k: int|
            0 <= k < dots.len() && cell_of(dots[k].0, dots[k].1) == key ==> #[trigger] dot_bit(dots[k].0, dots[k].1) & !m == 0,
    ensures
        ors(dots, key) & !m == 0,
    decreases dots.len(),
{
    lemma_or_bits(0, 0, 0, m);
    if dots.len() > 0 {
        let rest = dots.drop_last();
        assert forall|k: int|
            0 <= k < rest.len() && cell_of(rest[k].0, rest[k].1) == key implies #[trigger] dot_bit(rest[k].0, rest[k].1) & !m == 0 by {
            assert(rest[k] == dots[k]);
            assert(dot_bit(dots[k].0, dots[k].1) & !m == 0);
        }
        lemma_ors_within(rest, key, m);
        let d = dots.last();
        if cell_of(d.0, d.1) == key {
            assert(dot_bit(dots[dots.len() - 1].0, dots[dots.len() - 1].1) & !m == 0);
            lemma_or_bits(ors(rest, key), 0, dot_bit(d.0, d.1), m);
        }
    }
}

/// Dots none of which falls in a cell do not touch it.
pub proof fn lemma_no_touch(dots: Seq<Dot>, key: (u16, u16))
    requires
        forall|k: int| 0 <= k < dots.len() ==> cell_of(#[trigger] dots[k].0, dots[k].1) != key,
    ensures
        !touches(dots, key),
    decreases dots.len(),
{
    if dots.len() > 0 {
        let rest = dots.drop_last();
        assert forall|k: int| 0 <= k < rest.len() implies cell_of(#[trigger] rest[k].0, rest[k].1) != key by {
            assert(rest[k] == dots[k]);
        }
        lemma_no_touch(rest, key);
        assert(dots[dots.len() - 1] == dots.last());
    }
}

proof fn lemma_lit_bit(m: u8, o: u8, b: u8)
    ensures
        o & b == b && b != 0 ==> ((m | o) as u8) & b != 0,
{
    assert(o & b == b && b != 0 ==> ((m | o) as u8) & b != 0) by (bit_vector);
}

/// Every pixel among the dots is lit once they are set.
pub proof fn lemma_dots_lit(cells: Map<(u16, u16), CellState>, dots: Seq<Dot>, k: int)
    requires
        0 <= k < dots.len(),
    ensures
        is_lit(dot_cells(cells, dots), dots[k].0, dots[k].1),
{
    let key = cell_of(dots[k].0, dots[k].1);
    lemma_touch_at(dots, k, key);
    lemma_dot_cells_at(cells, dots, key);
    lemma_lit_bit(mask_at(cells, key), ors(dots, key), dot_bit(dots[k].0, dots[k].1));
    assert(dot_bit(dots[k].0, dots[k].1) != 0);
}

/// Each pixel of a mark is among the pixels of the marks.
pub proof fn lemma_mark_pixel_index(marks: Seq<Mark>, m: int, j: int) -> (idx: int)
    requires
        0 <= m < marks.len(),
        0 <= j < mark_pixels(marks[m]).len(),
    ensures
        0 <= idx < marks_pixels(marks).len(),
        marks_pixels(marks)[idx] == mark_pixels(marks[m])[j],
    decreases marks.len(),
{
    let init = marks.drop_last();
    if m == marks.len() - 1 {
        let idx = marks_pixels(init).len() + j;
        assert(marks[m] == marks.last());
        idx
    } else {
        assert(init[m] == marks[m]);
        lemma_mark_pixel_index(init, m, j)
    }
}

/// Each pixel of a shape's marks is among the coloured pixels of the
/// shapes.
pub proof fn lemma_shape_pixel_index(shapes: Seq<PlottedShape>, height: u32, i: int, idx: int) -> (t: int)
    requires
        0 <= i < shapes.len(),
        0 <= idx < marks_pixels(shapes[i].marks(height)).len(),
    ensures
        0 <= t < shapes_dots(shapes, height).len(),
        shapes_dots(shapes, height)[t].0 == marks_pixels(shapes[i].marks(height))[idx].0,
        shapes_dots(shapes, height)[t].1 == marks_pixels(shapes[i].marks(height))[idx].1,
    decreases shapes.len(),
{
    let init = shapes.drop_last();
    if i == shapes.len() - 1 {
        assert(shapes[i] == shapes.last());
        shapes_dots(init, height).len() + idx
    } else {
        assert(init[i] == shapes[i]);
        lemma_shape_pixel_index(init, height, i, idx)
    }
}

/// Every pixel of every mark of every shape is lit once the shapes are
/// drawn.
pub proof fn lemma_shape_mark_lit(cells: Map<(u16, u16), CellState>, shapes: Seq<PlottedShape>, height: u32, i: int, m: int, j: int)
    requires
        0 <= i < shapes.len(),
        0 <= m < shapes[i].marks(height).len(),
        0 <= j < mark_pixels(shapes[i].marks(height)[m]).len(),
    ensures
        is_lit(
            shapes_cells(cells, shapes, height),
            mark_pixels(shapes[i].marks(height)[m])[j].0,
            mark_pixels(shapes[i].marks(height)[m])[j].1,
        ),
{
    let idx = lemma_mark_pixel_index(shapes[i].marks(height), m, j);
    let t = lemma_shape_pixel_index(shapes, height, i, idx);
    lemma_shapes_dots(cells, shapes, height);
    lemma_dots_lit(cells, shapes_dots(shapes, height), t);
}

proof fn lemma_or_split(a: u8, c: u8, b: u8)
    ensures
        ((a | c) as u8) & b != 0 ==> a & b != 0 || c & b != 0,
        0u8 & b == 0,
{
    assert(((a | c) as u8) & b != 0 ==> a & b != 0 || c & b != 0) by (bit_vector);
    assert(0u8 & b == 0) by (bit_vector);
}

/// The dots of a cell that a bit of its mask came from.
proof fn lemma_ors_source(dots: Seq<Dot>, key: (u16, u16), b: u8)
    requires
        ors(dots, key) & b != 0,
    ensures
        exists|k: int|
            0 <= k < dots.len() && cell_of(dots[k].0, dots[k].1) == key && #[trigger] dot_bit(dots[k].0, dots[k].1) & b != 0,
    decreases dots.len(),
{
    lemma_or_split(0, 0, b);
    let rest = dots.drop_last();
    let d = dots.last();
    if cell_of(d.0, d.1) == key {
        lemma_or_split(ors(rest, key), dot_bit(d.0, d.1), b);
        if dot_bit(d.0, d.1) & b != 0 {
            assert(dots[dots.len() - 1] == d);
            assert(dot_bit(dots[dots.len() - 1].0, dots[dots.len() - 1].1) & b != 0);
            return;
        }
    }
    lemma_ors_source(rest, key, b);
    let k = choose|k: int|
        0 <= k < rest.len() && cell_of(rest[k].0, rest[k].1) == key && #[trigger] dot_bit(rest[k].0, rest[k].1) & b != 0;
    assert(rest[k] == dots[k]);
    assert(dot_bit(dots[k].0, dots[k].1) & b != 0);
}

proof fn lemma_one_hot(x: u32, y: u32, a: u32, c: u32)
    ensures
        dot_bit(x, y) & dot_bit(a, c) != 0 ==> dot_bit(x, y) == dot_bit(a, c),
        dot_bit(a, c) != 0,
{
    let p = dot_bit(x, y);
    let q = dot_bit(a, c);
    assert(q != 0);
    assert((p == 1 || p == 2 || p == 4 || p == 8 || p == 16 || p == 32 || p == 64 || p == 128) && (q == 1 || q == 2 || q
        == 4 || q == 8 || q == 16 || q == 32 || q == 64 || q == 128) ==> (p & q != 0 ==> p == q)) by (bit_vector);
}

/// A pixel lit once the dots are set was lit before, or shares its cell
/// and its dot with one of the dots.
pub proof fn lemma_lit_only_dots(cells: Map<(u16, u16), CellState>, dots: Seq<Dot>, x: u32, y: u32)
    requires
        is_lit(dot_cells(cells, dots), x, y),
    ensures
        is_lit(cells, x, y) || exists|k: int|
            0 <= k < dots.len() && cell_of(dots[k].0, dots[k].1) == cell_of(x, y) && #[trigger] dot_bit(dots[k].0, dots[k].1)
                == dot_bit(x, y),
{
    let key = cell_of(x, y);
    let b = dot_bit(x, y);
    lemma_dot_cells_at(cells, dots, key);
    if touches(dots, key) {
        lemma_or_split(mask_at(cells, key), ors(dots, key), b);
        if ors(dots, key) & b != 0 {
            lemma_ors_source(dots, key, b);
            let k = choose|k: int|
                0 <= k < dots.len() && cell_of(dots[k].0, dots[k].1) == key && #[trigger] dot_bit(dots[k].0, dots[k].1) & b != 0;
            lemma_one_hot(dots[k].0, dots[k].1, x, y);
        }
    }
}

} // verus!
