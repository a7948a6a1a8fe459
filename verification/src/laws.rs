//! What holds of every drawing on a chart.
use vstd::prelude::*;
use crate::canvas::{dot_bit, cell_of, is_lit, mask_at, paint, set_pixel, uncoloured, CellState};
use crate::chart::{
    border_cells, hline_cells, hline_points, style_offsets, vline_cells, vline_points, x_axis_cells,
    y_axis_cells, ChartView, LineStyle,
};
use crate::canvas::{cell_char, braille_frame, frame_rows, frame_last_col, frame_last_row, join_lines, newline_positions, top_col, top_row};
use crate::labels::{annotated, blank_braille, insert_at, place_ticks, lemma_newlines_concat, lemma_blank_keeps_newlines, lemma_positions_in_range, lemma_insert_newlines, row_label, utf8_len, LabelsView};
use crate::dots::{lemma_lit_only_dots, lemma_shape_mark_lit, mark_pixels, dot_cells, lemma_dot_cells_at, lemma_touch_at, lemma_ors_within, lemma_no_touch, lemma_paint_dots, ors, Dot, lemma_marks_dots, lemma_recolor, lemma_shapes_dots, marks_pixels, shapes_dots, touches, with_color};
use crate::canvas::{line_fits, line_points, Rgb};
use crate::shapes::{marks_fit, pair_marks, shapes_fit, shape_marks, ShapeKind, apply_mark, apply_marks, color_spec, curve_of, screen_of, shapes_cells, Mark, PlottedShape};

verus! {

/// Every lit pixel of `before` is lit in `after`.
pub open spec fn keeps_lit(before: Map<(u16, u16), CellState>, after: Map<(u16, u16), CellState>) -> bool {
    forall|x: u32, y: u32| #[trigger] is_lit(before, x, y) ==> is_lit(after, x, y)
}

proof fn lemma_or_keeps(a: u8, b: u8, d: u8)
    ensures
        a & d != 0 ==> (a | b) & d != 0,
        d != 0 && b == d ==> (a | b) & d != 0,
{
    assert(a & d != 0 ==> (a | b) & d != 0) by (bit_vector);
    assert(d != 0 && b == d ==> (a | b) & d != 0) by (bit_vector);
}

/// Setting a pixel lights it and keeps every lit pixel lit.
pub proof fn lemma_set_pixel_lights(cells: Map<(u16, u16), CellState>, x: u32, y: u32, color: Option<(u8, u8, u8)>)
    ensures
        is_lit(set_pixel(cells, x, y, color), x, y),
        keeps_lit(cells, set_pixel(cells, x, y, color)),
{
    let after = set_pixel(cells, x, y, color);
    let key = cell_of(x, y);
    assert(mask_at(after, key) == (mask_at(cells, key) | dot_bit(x, y)) as u8);
    lemma_or_keeps(mask_at(cells, key), dot_bit(x, y), dot_bit(x, y));
    assert forall|a: u32, b: u32| #[trigger] is_lit(cells, a, b) implies is_lit(after, a, b) by {
        if cell_of(a, b) == key {
            lemma_or_keeps(mask_at(cells, key), dot_bit(x, y), dot_bit(a, b));
        }
    }
}

/// Painting pixels lights each of them and keeps every lit pixel lit.
pub proof fn lemma_paint_lights(cells: Map<(u16, u16), CellState>, pts: Seq<(u32, u32)>, color: Option<(u8, u8, u8)>)
    ensures
        keeps_lit(cells, paint(cells, pts, color)),
        forall|k: int| 0 <= k < pts.len() ==> is_lit(paint(cells, pts, color), #[trigger] pts[k].0, pts[k].1),
    decreases pts.len(),
{
    if pts.len() > 0 {
        let mid = paint(cells, pts.drop_last(), color);
        lemma_paint_lights(cells, pts.drop_last(), color);
        lemma_set_pixel_lights(mid, pts.last().0, pts.last().1, color);
        assert forall|k: int| 0 <= k < pts.len() implies is_lit(paint(cells, pts, color), #[trigger] pts[k].0, pts[k].1) by {
            if k < pts.len() - 1 {
                assert(pts.drop_last()[k] == pts[k]);
                assert(is_lit(mid, pts[k].0, pts[k].1));
            }
        }
    }
}

/// Painting without colour keeps an uncoloured canvas uncoloured.
pub proof fn lemma_paint_uncoloured(cells: Map<(u16, u16), CellState>, pts: Seq<(u32, u32)>)
    requires
        uncoloured(cells),
    ensures
        uncoloured(paint(cells, pts, Option::None)),
    decreases pts.len(),
{
    if pts.len() > 0 {
        lemma_paint_uncoloured(cells, pts.drop_last());
    }
}

/// Drawing marks keeps every lit pixel lit.
pub proof fn lemma_marks_keep_lit(cells: Map<(u16, u16), CellState>, marks: Seq<Mark>, color: Option<(u8, u8, u8)>)
    ensures
        keeps_lit(cells, apply_marks(cells, marks, color)),
    decreases marks.len(),
{
    if marks.len() > 0 {
        let mid = apply_marks(cells, marks.drop_last(), color);
        lemma_marks_keep_lit(cells, marks.drop_last(), color);
        match marks.last() {
            Mark::Dot(x, y) => lemma_set_pixel_lights(mid, x, y, color),
            Mark::Segment(x1, y1, x2, y2) => lemma_paint_lights(mid, crate::canvas::line_points(x1, y1, x2, y2), color),
        }
    }
}

/// Drawing shapes keeps every lit pixel lit.
pub proof fn lemma_shapes_keep_lit(cells: Map<(u16, u16), CellState>, shapes: Seq<PlottedShape>, height: u32)
    ensures
        keeps_lit(cells, shapes_cells(cells, shapes, height)),
    decreases shapes.len(),
{
    if shapes.len() > 0 {
        let mid = shapes_cells(cells, shapes.drop_last(), height);
        lemma_shapes_keep_lit(cells, shapes.drop_last(), height);
        lemma_marks_keep_lit(mid, shapes.last().marks(height), color_spec(shapes.last().color));
    }
}

/// Drawing on a chart never erases a dot: every pixel lit before a vertical
/// or horizontal line, the borders, the axes or the figures are drawn is
/// still lit after.
pub proof fn law_drawing_keeps_dots(c: ChartView, i: u32, j: u32, style: LineStyle, zero_row: Option<u32>, zero_col: Option<u32>, shapes: Seq<PlottedShape>)
    ensures
        keeps_lit(c.cells, vline_cells(c, i, style)),
        keeps_lit(c.cells, hline_cells(c, j, style)),
        keeps_lit(c.cells, border_cells(c)),
        keeps_lit(c.cells, x_axis_cells(c, zero_row)),
        keeps_lit(c.cells, y_axis_cells(c, zero_col)),
        keeps_lit(c.cells, shapes_cells(c.cells, shapes, c.height)),
{
    lemma_paint_lights(c.cells, vline_points(i, c.height, style), Option::None);
    lemma_paint_lights(c.cells, hline_points(j, c.width, c.height, style), Option::None);
    lemma_shapes_keep_lit(c.cells, shapes, c.height);
    match zero_row {
        Some(r) => lemma_paint_lights(c.cells, hline_points(r, c.width, c.height, c.x_style), Option::None),
        Option::None => {},
    }
    match zero_col {
        Some(q) => lemma_paint_lights(c.cells, vline_points(q, c.height, c.y_style), Option::None),
        Option::None => {},
    }
    let c1 = c.with_cells(vline_cells(c, 0, LineStyle::Dotted));
    let c2 = c1.with_cells(vline_cells(c1, c.width, LineStyle::Dotted));
    let c3 = c2.with_cells(hline_cells(c2, 0, LineStyle::Dotted));
    lemma_paint_lights(c.cells, vline_points(0, c.height, LineStyle::Dotted), Option::None);
    lemma_paint_lights(c1.cells, vline_points(c.width, c.height, LineStyle::Dotted), Option::None);
    lemma_paint_lights(c2.cells, hline_points(0, c.width, c.height, LineStyle::Dotted), Option::None);
    lemma_paint_lights(c3.cells, hline_points(c.height, c.width, c.height, LineStyle::Dotted), Option::None);
}

/// A line drawn on the chart lights every one of its pixels: after
/// `vline(i, style)` with `i` on the chart, and after `hline(j, style)` with
/// `j` on the chart, each pixel of the line is lit.
pub proof fn law_lines_are_lit(c: ChartView, i: u32, j: u32, style: LineStyle)
    ensures
        i <= c.width ==> forall|k: int| 0 <= k < vline_points(i, c.height, style).len() ==> is_lit(
            vline_cells(c, i, style),
            #[trigger] vline_points(i, c.height, style)[k].0,
            vline_points(i, c.height, style)[k].1,
        ),
        j <= c.height ==> forall|k: int| 0 <= k < hline_points(j, c.width, c.height, style).len() ==> is_lit(
            hline_cells(c, j, style),
            #[trigger] hline_points(j, c.width, c.height, style)[k].0,
            hline_points(j, c.width, c.height, style)[k].1,
        ),
{
    lemma_paint_lights(c.cells, vline_points(i, c.height, style), Option::None);
    lemma_paint_lights(c.cells, hline_points(j, c.width, c.height, style), Option::None);
}

/// A solid vertical line on the chart lights its whole column, from the
/// top row to the bottom one.
pub proof fn law_solid_column(c: ChartView, i: u32)
    requires
        i <= c.width,
    ensures
        forall|y: u32| y <= c.height ==> #[trigger] is_lit(vline_cells(c, i, LineStyle::Solid), i, y),
{
    law_lines_are_lit(c, i, 0, LineStyle::Solid);
    let pts = vline_points(i, c.height, LineStyle::Solid);
    assert forall|y: u32| y <= c.height implies #[trigger] is_lit(vline_cells(c, i, LineStyle::Solid), i, y) by {
        assert(pts[y as int] == (i, y));
    }
}

/// After the borders are drawn, the top-left, top-right and bottom-left
/// corners of the chart are lit.
pub proof fn law_border_corners(c: ChartView)
    ensures
        is_lit(border_cells(c), 0, 0),
        is_lit(border_cells(c), c.width, 0),
        is_lit(border_cells(c), 0, c.height),
{
    let c1 = c.with_cells(vline_cells(c, 0, LineStyle::Dotted));
    let c2 = c1.with_cells(vline_cells(c1, c.width, LineStyle::Dotted));
    let c3 = c2.with_cells(hline_cells(c2, 0, LineStyle::Dotted));
    let p1 = vline_points(0, c.height, LineStyle::Dotted);
    let p2 = vline_points(c.width, c.height, LineStyle::Dotted);
    let p3 = hline_points(0, c.width, c.height, LineStyle::Dotted);
    let p4 = hline_points(c.height, c.width, c.height, LineStyle::Dotted);
    lemma_paint_lights(c.cells, p1, Option::None);
    lemma_paint_lights(c1.cells, p2, Option::None);
    lemma_paint_lights(c2.cells, p3, Option::None);
    lemma_paint_lights(c3.cells, p4, Option::None);
    assert(p1[0] == (0u32, 0u32));
    assert(p2[0] == (c.width, 0u32));
    assert(p3[0] == (0u32, c.height));
    assert(is_lit(c1.cells, p1[0].0, p1[0].1));
    assert(is_lit(c2.cells, 0, 0));
    assert(is_lit(c2.cells, p2[0].0, p2[0].1));
    assert(is_lit(c3.cells, p3[0].0, p3[0].1));
    assert(is_lit(c3.cells, 0, 0));
    assert(is_lit(c3.cells, c.width, 0));
}

/// A hidden line draws nothing.
pub proof fn law_hidden_draws_nothing(c: ChartView, i: u32, j: u32)
    ensures
        vline_cells(c, i, LineStyle::Hidden) == c.cells,
        hline_cells(c, j, LineStyle::Hidden) == c.cells,
{
    assert(style_offsets(LineStyle::Hidden, c.height).len() == 0);
    assert(style_offsets(LineStyle::Hidden, c.width).len() == 0);
}

/// Lines, borders and axes never colour the chart, and neither do figures
/// whose shapes all go without colour: a chart drawn so stays uncoloured,
/// and its frame is its braille frame.
pub proof fn law_uncoloured_stays(
    c: ChartView,
    i: u32,
    j: u32,
    style: LineStyle,
    zero_row: Option<u32>,
    zero_col: Option<u32>,
    shapes: Seq<PlottedShape>,
)
    requires
        uncoloured(c.cells),
    ensures
        uncoloured(vline_cells(c, i, style)),
        uncoloured(hline_cells(c, j, style)),
        uncoloured(border_cells(c)),
        uncoloured(x_axis_cells(c, zero_row)),
        uncoloured(y_axis_cells(c, zero_col)),
        (forall|k: int| 0 <= k < shapes.len() ==> (#[trigger] shapes[k]).color is None) ==> uncoloured(
            shapes_cells(c.cells, shapes, c.height),
        ),
{
    lemma_paint_uncoloured(c.cells, vline_points(i, c.height, style));
    lemma_paint_uncoloured(c.cells, hline_points(j, c.width, c.height, style));
    match zero_row {
        Some(r) => lemma_paint_uncoloured(c.cells, hline_points(r, c.width, c.height, c.x_style)),
        Option::None => {},
    }
    match zero_col {
        Some(q) => lemma_paint_uncoloured(c.cells, vline_points(q, c.height, c.y_style)),
        Option::None => {},
    }
    let c1 = c.with_cells(vline_cells(c, 0, LineStyle::Dotted));
    let c2 = c1.with_cells(vline_cells(c1, c.width, LineStyle::Dotted));
    let c3 = c2.with_cells(hline_cells(c2, 0, LineStyle::Dotted));
    lemma_paint_uncoloured(c.cells, vline_points(0, c.height, LineStyle::Dotted));
    lemma_paint_uncoloured(c1.cells, vline_points(c.width, c.height, LineStyle::Dotted));
    lemma_paint_uncoloured(c2.cells, hline_points(0, c.width, c.height, LineStyle::Dotted));
    lemma_paint_uncoloured(c3.cells, hline_points(c.height, c.width, c.height, LineStyle::Dotted));
    if forall|k: int| 0 <= k < shapes.len() ==> (#[trigger] shapes[k]).color is None {
        lemma_shapes_uncoloured(c.cells, shapes, c.height);
    }
}

proof fn lemma_marks_uncoloured(cells: Map<(u16, u16), CellState>, marks: Seq<Mark>)
    requires
        uncoloured(cells),
    ensures
        uncoloured(apply_marks(cells, marks, Option::None)),
    decreases marks.len(),
{
    if marks.len() > 0 {
        lemma_marks_uncoloured(cells, marks.drop_last());
        let mid = apply_marks(cells, marks.drop_last(), Option::None);
        match marks.last() {
            Mark::Dot(x, y) => {},
            Mark::Segment(x1, y1, x2, y2) => lemma_paint_uncoloured(mid, crate::canvas::line_points(x1, y1, x2, y2)),
        }
    }
}

proof fn lemma_shapes_uncoloured(cells: Map<(u16, u16), CellState>, shapes: Seq<PlottedShape>, height: u32)
    requires
        uncoloured(cells),
        forall|k: int| 0 <= k < shapes.len() ==> (#[trigger] shapes[k]).color is None,
    ensures
        uncoloured(shapes_cells(cells, shapes, height)),
    decreases shapes.len(),
{
    if shapes.len() > 0 {
        assert(forall|k: int| 0 <= k < shapes.drop_last().len() ==> shapes.drop_last()[k] == shapes[k]);
        lemma_shapes_uncoloured(cells, shapes.drop_last(), height);
        assert(shapes[shapes.len() - 1].color is None);
        lemma_marks_uncoloured(shapes_cells(cells, shapes.drop_last(), height), shapes.last().marks(height));
    }
}

proof fn lemma_screen_on_chart(raw: Seq<(u32, u32)>, width: u32, height: u32)
    ensures
        forall|k: int| 0 <= k < screen_of(raw, width, height).len() ==> (#[trigger] screen_of(raw, width, height)[k]).0
            <= width && screen_of(raw, width, height)[k].1 <= height,
    decreases raw.len(),
{
    if raw.len() > 0 {
        lemma_screen_on_chart(raw.drop_last(), width, height);
        let rest = screen_of(raw.drop_last(), width, height);
        assert forall|k: int| 0 <= k < screen_of(raw, width, height).len() implies (#[trigger] screen_of(raw, width, height)[k]).0
            <= width && screen_of(raw, width, height)[k].1 <= height by {
            if k < rest.len() {
                assert(screen_of(raw, width, height)[k] == rest[k]);
            }
        }
    }
}

proof fn lemma_curve_on_chart(samples: Seq<Option<u32>>, height: u32)
    requires
        forall|k: int| 0 <= k < samples.len() && (#[trigger] samples[k]) is Some ==> samples[k]->0 <= height,
    ensures
        forall|k: int| 0 <= k < curve_of(samples, height).len() ==> (#[trigger] curve_of(samples, height)[k]).1 <= height,
    decreases samples.len(),
{
    if samples.len() > 0 {
        assert(forall|k: int| 0 <= k < samples.drop_last().len() ==> samples.drop_last()[k] == samples[k]);
        lemma_curve_on_chart(samples.drop_last(), height);
        assert(samples.last() == samples[samples.len() - 1]);
        let rest = curve_of(samples.drop_last(), height);
        assert forall|k: int| 0 <= k < curve_of(samples, height).len() implies (#[trigger] curve_of(samples, height)[k]).1
            <= height by {
            if k < rest.len() {
                assert(curve_of(samples, height)[k] == rest[k]);
            }
        }
    }
}

/// Every screen pixel of data points or of a sampled curve lies on the
/// chart: columns up to its width for data points, rows up to its height
/// for both (of a curve whose samples lie on the chart).
pub proof fn law_points_on_chart(raw: Seq<(u32, u32)>, samples: Seq<Option<u32>>, width: u32, height: u32)
    requires
        forall|k: int| 0 <= k < samples.len() && (#[trigger] samples[k]) is Some ==> samples[k]->0 <= height,
    ensures
        forall|k: int| 0 <= k < screen_of(raw, width, height).len() ==> (#[trigger] screen_of(raw, width, height)[k]).0
            <= width && screen_of(raw, width, height)[k].1 <= height,
        forall|k: int| 0 <= k < curve_of(samples, height).len() ==> (#[trigger] curve_of(samples, height)[k]).1 <= height,
{
    lemma_screen_on_chart(raw, width, height);
    lemma_curve_on_chart(samples, height);
}

/// A new chart has no dot lit.
pub proof fn law_blank_start(x: u32, y: u32)
    ensures
        !is_lit(Map::<(u16, u16), CellState>::empty(), x, y),
{
    assert(0u8 & dot_bit(x, y) == 0) by (bit_vector);
}

/// Whether a text holds no newline.
pub open spec fn one_line(s: Seq<char>) -> bool {
    forall|i: int| 0 <= i < s.len() ==> s[i] != '\n'
}


proof fn lemma_one_line_no_newlines(s: Seq<char>)
    requires
        one_line(s),
    ensures
        newline_positions(s).len() == 0,
    decreases s.len(),
{
    if s.len() > 0 {
        assert(s.last() == s[s.len() - 1]);
        lemma_one_line_no_newlines(s.drop_last());
    }
}

/// Inserting a text without newlines keeps the number of newlines.
proof fn lemma_insert_keeps_newlines(t: Seq<char>, p: int, l: Seq<char>)
    requires
        0 <= p <= t.len(),
        one_line(l),
    ensures
        newline_positions(insert_at(t, p, l)).len() == newline_positions(t).len(),
{
    lemma_one_line_no_newlines(l);
    lemma_insert_newlines(t, p, l);
}


/// Tick labels without newlines can all be placed exactly when the text has
/// more than three newlines per label; placing them keeps the number of
/// newlines.
pub proof fn law_ticks_fit(s: Seq<char>, ticks: Seq<Seq<char>>)
    requires
        forall|k: int| 0 <= k < ticks.len() ==> one_line(#[trigger] ticks[k]),
    ensures
        place_ticks(s, ticks) is Some <==> (ticks.len() == 0 || 3 * ticks.len() < newline_positions(s).len()),
        place_ticks(s, ticks) matches Some(t) ==> newline_positions(t).len() == newline_positions(s).len(),
    decreases ticks.len(),
{
    if ticks.len() > 0 {
        let rest = ticks.drop_last();
        assert forall|k: int| 0 <= k < rest.len() implies one_line(#[trigger] rest[k]) by {
            assert(rest[k] == ticks[k]);
        }
        law_ticks_fit(s, rest);
        match place_ticks(s, rest) {
            Some(t) => {
                let n: int = 3 * (ticks.len() as int);
                let ps = newline_positions(t);
                if n < ps.len() {
                    assert(ticks.last() == ticks[ticks.len() - 1]);
                    let l = row_label(ticks.last());
                    assert(one_line(l)) by {
                        assert forall|i: int| 0 <= i < l.len() implies l[i] != '\n' by {
                            if i > 0 {
                                assert(l[i] == ticks.last()[i - 1]);
                            }
                        }
                    }
                    lemma_positions_in_range(t, n);
                    lemma_insert_keeps_newlines(t, ps[n], l);
                }
            },
            Option::None => {},
        }
    }
}


/// With labels that hold no newlines, annotating a frame fails exactly when
/// the frame has more than one row and either its newlines number at most
/// three per tick label, or the highest x label is longer, in bytes, than
/// half the chart's width in dots.
pub proof fn law_annotation_succeeds(frame: Seq<char>, labels: LabelsView, width: u32)
    requires
        one_line(labels.y_max),
        forall|k: int| 0 <= k < labels.y_ticks.len() ==> one_line(#[trigger] labels.y_ticks[k]),
    ensures
        annotated(frame, labels, width) is Some <==> (newline_positions(frame).len() == 0 || ((
        labels.y_ticks.len() == 0 || 3 * labels.y_ticks.len() < newline_positions(frame).len()) && utf8_len(
            labels.x_max,
        ) <= width / 2)),
{
    let b = blank_braille(frame);
    lemma_blank_keeps_newlines(frame);
    let ps = newline_positions(b);
    if ps.len() > 0 {
        let l = row_label(labels.y_max);
        assert(one_line(l)) by {
            assert forall|i: int| 0 <= i < l.len() implies l[i] != '\n' by {
                if i > 0 {
                    assert(l[i] == labels.y_max[i - 1]);
                }
            }
        }
        lemma_positions_in_range(b, 0);
        lemma_insert_keeps_newlines(b, ps[0], l);
        law_ticks_fit(insert_at(b, ps[0], l), labels.y_ticks);
    }
}

proof fn lemma_top_empty(v: int)
    ensures
        top_col(Map::<(u16, u16), CellState>::empty(), v) == -1,
        top_row(Map::<(u16, u16), CellState>::empty(), v) == -1,
    decreases v + 1,
{
    if v >= 0 {
        lemma_top_empty(v - 1);
    }
}

/// Rows that hold only spaces join into a text of spaces and newlines, with
/// one newline fewer than rows.
proof fn lemma_join_blank_rows(rows: Seq<Seq<char>>)
    requires
        rows.len() >= 1,
        forall|r: int, i: int| 0 <= r < rows.len() && 0 <= i < rows[r].len() ==> #[trigger] rows[r][i] == ' ',
    ensures
        newline_positions(join_lines(rows)).len() == rows.len() - 1,
        forall|i: int| 0 <= i < join_lines(rows).len() ==> #[trigger] join_lines(rows)[i] == ' ' || join_lines(rows)[i] == '\n',
    decreases rows.len(),
{
    let last = rows.last();
    assert(one_line(last)) by {
        assert forall|i: int| 0 <= i < last.len() implies last[i] != '\n' by {
            assert(rows[rows.len() - 1][i] == ' ');
        }
    }
    lemma_one_line_no_newlines(last);
    if rows.len() > 1 {
        let init = rows.drop_last();
        assert forall|r: int, i: int| 0 <= r < init.len() && 0 <= i < init[r].len() implies #[trigger] init[r][i] == ' ' by {
            assert(init[r] == rows[r]);
        }
        lemma_join_blank_rows(init);
        let j = join_lines(init);
        lemma_newlines_concat(j + seq!['\n'], last);
        lemma_newlines_concat(j, seq!['\n']);
        assert(newline_positions(seq!['\n']).len() == 1) by {
            let nl = seq!['\n'];
            assert(nl.drop_last() =~= Seq::<char>::empty());
            assert(nl.last() == '\n');
            assert(newline_positions(nl.drop_last()).len() == 0);
        }
        let f = join_lines(rows);
        assert forall|i: int| 0 <= i < f.len() implies #[trigger] f[i] == ' ' || f[i] == '\n' by {
            if i < j.len() {
                assert(f[i] == j[i]);
            } else if i > j.len() {
                assert(f[i] == last[i - j.len() - 1]);
                assert(rows[rows.len() - 1][i - j.len() - 1] == ' ');
            }
        }
    } else {
        assert forall|i: int| 0 <= i < join_lines(rows).len() implies #[trigger] join_lines(rows)[i] == ' ' || join_lines(rows)[i] == '\n' by {
            assert(rows[0][i] == ' ');
        }
    }
}

/// The frame of a new chart `width` by `height` dots holds only spaces and
/// newlines: `width / 2 + 1` spaces per row (sizes truncated to 16 bits, as
/// the canvas keeps them), and `height / 4` newlines, so `height / 4 + 1`
/// rows.
pub proof fn law_blank_frame(width: u32, height: u32)
    ensures
        ({
            let size = ((width / 2) as u16, (height / 4) as u16);
            let f = braille_frame(Map::empty(), size);
            &&& frame_rows(Map::empty(), size).len() == size.1 + 1
            &&& forall|r: int| 0 <= r <= size.1 ==> #[trigger] frame_rows(Map::empty(), size)[r] == Seq::new(size.0 as nat + 1, |i: int| ' ')
            &&& forall|i: int| 0 <= i < f.len() ==> #[trigger] f[i] == ' ' || f[i] == '\n'
            &&& newline_positions(f).len() == size.1
            &&& height < 0x4_0000 ==> newline_positions(f).len() == height / 4
        }),
{
    let size = ((width / 2) as u16, (height / 4) as u16);
    let cells = Map::<(u16, u16), CellState>::empty();
    lemma_top_empty(u16::MAX as int);
    assert(frame_last_col(cells, size) == size.0);
    assert(frame_last_row(cells, size) == size.1);
    let rows = frame_rows(cells, size);
    assert forall|r: int| 0 <= r <= size.1 implies #[trigger] frame_rows(cells, size)[r] == Seq::new(size.0 as nat + 1, |i: int| ' ') by {
        assert(frame_rows(cells, size)[r] =~= Seq::new(size.0 as nat + 1, |i: int| ' '));
    }
    assert forall|r: int, i: int| 0 <= r < rows.len() && 0 <= i < rows[r].len() implies #[trigger] rows[r][i] == ' ' by {
        assert(rows[r] == Seq::new(size.0 as nat + 1, |i: int| ' '));
    }
    lemma_join_blank_rows(rows);
}

proof fn lemma_or_twice(a: u8, b: u8)
    ensures
        ((a | b) as u8 | b) as u8 == (a | b) as u8,
{
    assert(((a | b) as u8 | b) as u8 == (a | b) as u8) by (bit_vector);
}

/// Drawing the same shapes twice leaves the same cells as drawing them
/// once: the same dots, letters and colours.
pub proof fn law_figures_twice(cells: Map<(u16, u16), CellState>, shapes: Seq<PlottedShape>, height: u32)
    ensures
        shapes_cells(shapes_cells(cells, shapes, height), shapes, height) == shapes_cells(cells, shapes, height),
{
    let d = shapes_dots(shapes, height);
    let once = shapes_cells(cells, shapes, height);
    lemma_shapes_dots(cells, shapes, height);
    lemma_shapes_dots(once, shapes, height);
    let twice = dot_cells(once, d);
    assert forall|key: (u16, u16)| #[trigger] twice.contains_key(key) == once.contains_key(key) by {
        lemma_dot_cells_at(cells, d, key);
        lemma_dot_cells_at(once, d, key);
    }
    assert forall|key: (u16, u16)| #[trigger] twice.contains_key(key) implies twice[key] == once[key] by {
        lemma_dot_cells_at(cells, d, key);
        lemma_dot_cells_at(once, d, key);
        if touches(d, key) {
            lemma_or_twice(crate::canvas::mask_at(cells, key), crate::dots::ors(d, key));
        }
    }
    assert(twice =~= once);
}

/// A shape drawn in a colour leaves the same cells as drawn without: the
/// same marks (they do not depend on the colour), hence the same cells,
/// dots and letters; only each cell its pixels fall in takes the colour,
/// where the uncoloured drawing leaves it uncoloured. Stated of every cell
/// `key`.
pub proof fn law_coloured_shape(
    cells: Map<(u16, u16), CellState>,
    kind: ShapeKind,
    pts: Seq<(u32, u32)>,
    height: u32,
    rgb: Rgb,
    key: (u16, u16),
)
    ensures
        ({
            let marks = shape_marks(kind, pts, height);
            let tinted = apply_marks(cells, marks, Some(rgb.channels()));
            let plain = apply_marks(cells, marks, Option::None);
            let hit = touches(with_color(marks_pixels(marks), Option::None), key);
            &&& tinted.contains_key(key) == plain.contains_key(key)
            &&& tinted.contains_key(key) ==> tinted[key].0 == plain[key].0 && tinted[key].1 == plain[key].1
            &&& hit ==> tinted[key].2 == Some(rgb.channels()) && plain[key].2 is None
            &&& !hit && cells.contains_key(key) ==> tinted[key] == cells[key] && plain[key] == cells[key]
        }),
{
    let marks = shape_marks(kind, pts, height);
    let p = marks_pixels(marks);
    lemma_marks_dots(cells, marks, Some(rgb.channels()));
    lemma_marks_dots(cells, marks, Option::None);
    lemma_dot_cells_at(cells, with_color(p, Some(rgb.channels())), key);
    lemma_dot_cells_at(cells, with_color(p, Option::None), key);
    lemma_recolor(p, Some(rgb.channels()), Option::None, key);
    lemma_recolor(p, Option::None, Some(rgb.channels()), key);
}

/// How a horizontal line of each style shows in cell column `x` of its
/// row, when its row lies at the middle height of the braille cells: solid
/// `⠤⠤⠤`, dotted `⠄⠠ ` (the space shows as a blank braille character in
/// the labelled frame), dashed `⠤ ⠤`, hidden nothing.
pub open spec fn style_glyph(style: LineStyle, x: int) -> char {
    match style {
        LineStyle::Hidden => ' ',
        LineStyle::Solid => '\u{2824}',
        LineStyle::Dotted => if x % 3 == 0 {
            '\u{2804}'
        } else if x % 3 == 1 {
            '\u{2820}'
        } else {
            ' '
        },
        LineStyle::Dashed => if x % 2 == 0 {
            '\u{2824}'
        } else {
            ' '
        },
    }
}

proof fn lemma_mask_bits(o: u8)
    ensures
        o & !0x24u8 == 0 && o & 0x04u8 == 0x04u8 && o & 0x20u8 == 0x20u8 ==> o == 0x24u8,
        o & !0x04u8 == 0 && o & 0x04u8 == 0x04u8 ==> o == 0x04u8,
        o & !0x20u8 == 0 && o & 0x20u8 == 0x20u8 ==> o == 0x20u8,
        0x04u8 & !0x24u8 == 0 && 0x20u8 & !0x24u8 == 0,
        0x04u8 & !0x04u8 == 0 && 0x20u8 & !0x20u8 == 0,
        (0u8 | o) as u8 == o,
{
    assert(o & !0x24u8 == 0 && o & 0x04u8 == 0x04u8 && o & 0x20u8 == 0x20u8 ==> o == 0x24u8) by (bit_vector);
    assert(o & !0x04u8 == 0 && o & 0x04u8 == 0x04u8 ==> o == 0x04u8) by (bit_vector);
    assert(o & !0x20u8 == 0 && o & 0x20u8 == 0x20u8 ==> o == 0x20u8) by (bit_vector);
    assert(0x04u8 & !0x24u8 == 0 && 0x20u8 & !0x24u8 == 0) by (bit_vector);
    assert(0x04u8 & !0x04u8 == 0 && 0x20u8 & !0x20u8 == 0) by (bit_vector);
    assert((0u8 | o) as u8 == o) by (bit_vector);
}

/// The character of the cell that a set of pixels at row `y` (with
/// `y % 4 == 2`) leaves in column `x` of an empty canvas.
proof fn lemma_row_cell(d: Seq<Dot>, y: u32, x: int, expected: u8)
    requires
        y % 4 == 2,
        0 <= x < 0x1_0000,
        forall|k: int| 0 <= k < d.len() ==> (#[trigger] d[k]).1 == y && d[k].0 < 0x2_0000,
        expected == 0 ==> forall|k: int| 0 <= k < d.len() ==> (#[trigger] d[k]).0 / 2 != x,
        expected != 0 ==> forall|k: int|
            0 <= k < d.len() && (#[trigger] d[k]).0 / 2 == x ==> dot_bit(d[k].0, d[k].1) & !expected == 0,
        expected == 0x24 || expected == 0x04 || expected == 0x20 || expected == 0,
        expected == 0x24 || expected == 0x04 ==> exists|k: int| 0 <= k < d.len() && (#[trigger] d[k]).0 == 2 * x,
        expected == 0x24 || expected == 0x20 ==> exists|k: int| 0 <= k < d.len() && (#[trigger] d[k]).0 == 2 * x + 1,
    ensures
        cell_char(dot_cells(Map::empty(), d), (x as u16, (y / 4) as u16)) == (if expected == 0 {
            ' '
        } else {
            (0x2800int + expected) as char
        }),
{
    let key = (x as u16, (y / 4) as u16);
    let empty = Map::<(u16, u16), CellState>::empty();
    lemma_dot_cells_at(empty, d, key);
    assert forall|k: int| 0 <= k < d.len() implies (cell_of(#[trigger] d[k].0, d[k].1) == key <==> d[k].0 / 2 == x) by {
        assert(d[k].1 == y);
    }
    lemma_mask_bits(ors(d, key));
    if expected == 0 {
        lemma_no_touch(d, key);
    } else {
        assert forall|k: int|
            0 <= k < d.len() && cell_of(d[k].0, d[k].1) == key implies #[trigger] dot_bit(d[k].0, d[k].1) & !expected == 0 by {
            assert(d[k].0 / 2 == x);
        }
        lemma_ors_within(d, key, expected);
        if expected == 0x24 || expected == 0x04 {
            let k = choose|k: int| 0 <= k < d.len() && (#[trigger] d[k]).0 == 2 * x;
            assert(d[k].1 == y);
            lemma_touch_at(d, k, key);
            assert(dot_bit(d[k].0, d[k].1) == 0x04u8);
        }
        if expected == 0x24 || expected == 0x20 {
            let k = choose|k: int| 0 <= k < d.len() && (#[trigger] d[k]).0 == 2 * x + 1;
            assert(d[k].1 == y);
            lemma_touch_at(d, k, key);
            assert(dot_bit(d[k].0, d[k].1) == 0x20u8);
        }
        assert(ors(d, key) == expected);
    }
}

/// Each line style looks as its documentation shows: on a new chart less
/// than `2^17` dots wide and `2^18` tall, a horizontal line drawn at the
/// middle height of a row of braille cells shows `style_glyph` in each
/// cell column that lies wholly on the chart, both in the cell and in that
/// row of the frame.
pub proof fn law_line_style_looks(c: ChartView, j: u32, style: LineStyle, x: int)
    requires
        c.wf(),
        c.cells == Map::<(u16, u16), CellState>::empty(),
        c.width < 0x2_0000,
        c.height < 0x4_0000,
        j <= c.height,
        (c.height - j) % 4 == 2,
        0 <= x < c.width / 2,
    ensures
        cell_char(hline_cells(c, j, style), (x as u16, ((c.height - j) / 4) as u16)) == style_glyph(style, x),
        frame_rows(hline_cells(c, j, style), c.canvas_size)[(c.height - j) / 4][x] == style_glyph(style, x),
{
    let w = c.width;
    let y = (c.height - j) as u32;
    let pts = hline_points(j, w, c.height, style);
    let d = with_color(pts, Option::None);
    lemma_paint_dots(c.cells, pts, Option::None);
    assert(hline_cells(c, j, style) == dot_cells(Map::empty(), d));
    assert forall|k: int| 0 <= k < d.len() implies (#[trigger] d[k]).1 == y && d[k].0 < 0x2_0000 by {
        assert(d[k] == (pts[k].0, pts[k].1, Option::<(u8, u8, u8)>::None));
    }
    match style {
        LineStyle::Hidden => {
            lemma_row_cell(d, y, x, 0);
        },
        LineStyle::Solid => {
            assert(d[2 * x].0 == 2 * x);
            assert(d[2 * x + 1].0 == 2 * x + 1);
            assert forall|k: int| 0 <= k < d.len() && (#[trigger] d[k]).0 / 2 == x implies dot_bit(d[k].0, d[k].1) & !0x24u8 == 0 by {
                lemma_mask_bits(0);
            }
            lemma_row_cell(d, y, x, 0x24);
            assert((0x2800int + 0x24u8) as char == '\u{2824}');
        },
        LineStyle::Dotted => {
            assert forall|k: int| 0 <= k < d.len() implies (#[trigger] d[k]).0 == 3 * k by {}
            if x % 3 == 0 {
                let k0 = 2 * x / 3;
                assert(d[k0].0 == 2 * x);
                assert forall|k: int| 0 <= k < d.len() && (#[trigger] d[k]).0 / 2 == x implies dot_bit(d[k].0, d[k].1) & !0x04u8 == 0 by {
                    assert(d[k].0 == 2 * x);
                    lemma_mask_bits(0);
                }
                lemma_row_cell(d, y, x, 0x04);
                assert((0x2800int + 0x04u8) as char == '\u{2804}');
            } else if x % 3 == 1 {
                let k0 = (2 * x + 1) / 3;
                assert(d[k0].0 == 2 * x + 1);
                assert forall|k: int| 0 <= k < d.len() && (#[trigger] d[k]).0 / 2 == x implies dot_bit(d[k].0, d[k].1) & !0x20u8 == 0 by {
                    assert(d[k].0 == 2 * x + 1);
                    lemma_mask_bits(0);
                }
                lemma_row_cell(d, y, x, 0x20);
                assert((0x2800int + 0x20u8) as char == '\u{2820}');
            } else {
                lemma_row_cell(d, y, x, 0);
            }
        },
        LineStyle::Dashed => {
            assert forall|k: int| 0 <= k < d.len() implies (#[trigger] d[k]).0 == 4 * (k / 2) + k % 2 by {}
            if x % 2 == 0 {
                assert(d[x].0 == 2 * x);
                assert(d[x + 1].0 == 2 * x + 1);
                assert forall|k: int| 0 <= k < d.len() && (#[trigger] d[k]).0 / 2 == x implies dot_bit(d[k].0, d[k].1) & !0x24u8 == 0 by {
                    lemma_mask_bits(0);
                }
                lemma_row_cell(d, y, x, 0x24);
                assert((0x2800int + 0x24u8) as char == '\u{2824}');
            } else {
                lemma_row_cell(d, y, x, 0);
            }
        },
    }
    let cells = hline_cells(c, j, style);
    let r = (c.height - j) / 4;
    assert(frame_last_row(cells, c.canvas_size) >= r);
    assert(frame_last_col(cells, c.canvas_size) > x);
    assert(frame_rows(cells, c.canvas_size)[r][x] == cell_char(cells, (x as u16, r as u16)));
}

/// Whether every pixel lies on a chart `width` by `height` dots.
pub open spec fn pixels_on_chart(pts: Seq<(u32, u32)>, width: u32, height: u32) -> bool {
    forall|k: int| 0 <= k < pts.len() ==> (#[trigger] pts[k]).0 <= width && pts[k].1 <= height
}

/// Whether both ends of a mark lie on the chart.
pub open spec fn mark_on_chart(m: Mark, width: u32, height: u32) -> bool {
    match m {
        Mark::Dot(x, y) => x <= width && y <= height,
        Mark::Segment(x1, y1, x2, y2) => x1 <= width && x2 <= width && y1 <= height && y2 <= height,
    }
}

proof fn lemma_shape_marks_on_chart(kind: ShapeKind, pts: Seq<(u32, u32)>, width: u32, height: u32)
    requires
        pixels_on_chart(pts, width, height),
    ensures
        forall|k: int| 0 <= k < shape_marks(kind, pts, height).len() ==> mark_on_chart(
            #[trigger] shape_marks(kind, pts, height)[k],
            width,
            height,
        ),
    decreases pts.len(),
{
    let marks = shape_marks(kind, pts, height);
    if kind is Points {
        assert forall|k: int| 0 <= k < marks.len() implies mark_on_chart(#[trigger] marks[k], width, height) by {
            assert(pts[k].0 <= width && pts[k].1 <= height);
        }
    } else if pts.len() >= 2 {
        let init = pts.drop_last();
        assert forall|k: int| 0 <= k < init.len() implies (#[trigger] init[k]).0 <= width && init[k].1 <= height by {
            assert(init[k] == pts[k]);
        }
        lemma_shape_marks_on_chart(kind, init, width, height);
        let a = shape_marks(kind, init, height);
        let p = pts[pts.len() - 2];
        let q = pts[pts.len() - 1];
        assert(p.0 <= width && p.1 <= height && q.0 <= width && q.1 <= height);
        assert(pts.last() == q);
        let b = pair_marks(kind, p, q, height);
        assert forall|k: int| 0 <= k < marks.len() implies mark_on_chart(#[trigger] marks[k], width, height) by {
            if k < a.len() {
                assert(marks[k] == a[k]);
            } else {
                assert(marks[k] == b[k - a.len()]);
            }
        }
    }
}

proof fn lemma_small_line_fits(x1: u32, y1: u32, x2: u32, y2: u32)
    requires
        x1 <= 0xffff && x2 <= 0xffff && y1 <= 0xffff && y2 <= 0xffff,
    ensures
        line_fits(x1, y1, x2, y2),
        pixels_on_chart(
            line_points(x1, y1, x2, y2),
            if x1 <= x2 { x2 } else { x1 },
            if y1 <= y2 { y2 } else { y1 },
        ),
{
    let xdiff: int = if x1 <= x2 { x2 - x1 } else { x1 - x2 };
    let ydiff: int = if y1 <= y2 { y2 - y1 } else { y1 - y2 };
    let r: int = if xdiff >= ydiff { xdiff } else { ydiff };
    assert(r * r <= 0xffff * 0xffff) by (nonlinear_arith)
        requires
            0 <= r <= 0xffff,
    ;
    let pts = line_points(x1, y1, x2, y2);
    assert forall|i: int| 0 <= i <= r implies (xdiff != 0 ==> 0 <= #[trigger] (i * xdiff / r) <= xdiff) && (ydiff != 0
        ==> 0 <= i * ydiff / r <= ydiff) by {
        if xdiff != 0 {
            assert(0 <= i * xdiff <= r * xdiff) by (nonlinear_arith)
                requires
                    0 <= i <= r,
                    0 < xdiff,
            ;
            assert(i * xdiff / r <= xdiff) by (nonlinear_arith)
                requires
                    0 <= i * xdiff <= r * xdiff,
                    0 < r,
            ;
            assert(0 <= i * xdiff / r) by (nonlinear_arith)
                requires
                    0 <= i * xdiff,
                    0 < r,
            ;
        }
        if ydiff != 0 {
            assert(0 <= i * ydiff <= r * ydiff) by (nonlinear_arith)
                requires
                    0 <= i <= r,
                    0 < ydiff,
            ;
            assert(i * ydiff / r <= ydiff) by (nonlinear_arith)
                requires
                    0 <= i * ydiff <= r * ydiff,
                    0 < r,
            ;
            assert(0 <= i * ydiff / r) by (nonlinear_arith)
                requires
                    0 <= i * ydiff,
                    0 < r,
            ;
        }
    }
    assert forall|k: int| 0 <= k < pts.len() implies (#[trigger] pts[k]).0 <= (if x1 <= x2 { x2 } else { x1 })
        && pts[k].1 <= (if y1 <= y2 { y2 } else { y1 }) by {
        assert(0 <= k <= r);
        if xdiff != 0 {
            assert(0 <= k * xdiff / r <= xdiff);
        }
        if ydiff != 0 {
            assert(0 <= k * ydiff / r <= ydiff);
        }
    }
}

proof fn lemma_marks_pixels_on_chart(marks: Seq<Mark>, width: u32, height: u32)
    requires
        width <= 0xffff,
        height <= 0xffff,
        forall|k: int| 0 <= k < marks.len() ==> mark_on_chart(#[trigger] marks[k], width, height),
    ensures
        marks_fit(marks),
        pixels_on_chart(marks_pixels(marks), width, height),
    decreases marks.len(),
{
    assert forall|k: int| 0 <= k < marks.len() implies match #[trigger] marks[k] {
        Mark::Segment(x1, y1, x2, y2) => line_fits(x1, y1, x2, y2),
        Mark::Dot(_, _) => true,
    } by {
        assert(mark_on_chart(marks[k], width, height));
        match marks[k] {
            Mark::Segment(x1, y1, x2, y2) => lemma_small_line_fits(x1, y1, x2, y2),
            Mark::Dot(_, _) => {},
        }
    }
    if marks.len() > 0 {
        let init = marks.drop_last();
        assert forall|k: int| 0 <= k < init.len() implies mark_on_chart(#[trigger] init[k], width, height) by {
            assert(init[k] == marks[k]);
        }
        lemma_marks_pixels_on_chart(init, width, height);
        let m = marks.last();
        assert(mark_on_chart(marks[marks.len() - 1], width, height));
        let a = marks_pixels(init);
        let b = mark_pixels(m);
        match m {
            Mark::Segment(x1, y1, x2, y2) => lemma_small_line_fits(x1, y1, x2, y2),
            Mark::Dot(_, _) => {},
        }
        assert(pixels_on_chart(b, width, height));
        let all = marks_pixels(marks);
        assert forall|k: int| 0 <= k < all.len() implies (#[trigger] all[k]).0 <= width && all[k].1 <= height by {
            if k < a.len() {
                assert(all[k] == a[k]);
            } else {
                assert(all[k] == b[k - a.len()]);
            }
        }
    }
}

/// On a chart at most 65,535 dots each way, shapes whose points lie on the
/// chart can always be drawn (the precondition of `figures` holds), and
/// every pixel that drawing them sets lies on the chart.
pub proof fn law_small_charts_draw(shapes: Seq<PlottedShape>, width: u32, height: u32)
    requires
        width <= 0xffff,
        height <= 0xffff,
        forall|k: int| 0 <= k < shapes.len() ==> pixels_on_chart((#[trigger] shapes[k]).points@, width, height),
    ensures
        shapes_fit(shapes, height),
        forall|k: int| 0 <= k < shapes_dots(shapes, height).len() ==> (#[trigger] shapes_dots(shapes, height)[k]).0
            <= width && shapes_dots(shapes, height)[k].1 <= height,
    decreases shapes.len(),
{
    assert forall|k: int| 0 <= k < shapes.len() implies marks_fit(#[trigger] shapes[k].marks(height)) by {
        assert(pixels_on_chart(shapes[k].points@, width, height));
        lemma_shape_marks_on_chart(shapes[k].kind, shapes[k].points@, width, height);
        lemma_marks_pixels_on_chart(shapes[k].marks(height), width, height);
    }
    if shapes.len() > 0 {
        let init = shapes.drop_last();
        assert forall|k: int| 0 <= k < init.len() implies pixels_on_chart((#[trigger] init[k]).points@, width, height) by {
            assert(init[k] == shapes[k]);
        }
        law_small_charts_draw(init, width, height);
        let s = shapes.last();
        assert(pixels_on_chart(shapes[shapes.len() - 1].points@, width, height));
        lemma_shape_marks_on_chart(s.kind, s.points@, width, height);
        lemma_marks_pixels_on_chart(s.marks(height), width, height);
        let a = shapes_dots(init, height);
        let p = marks_pixels(s.marks(height));
        let b = with_color(p, color_spec(s.color));
        let all = shapes_dots(shapes, height);
        assert forall|k: int| 0 <= k < all.len() implies (#[trigger] all[k]).0 <= width && all[k].1 <= height by {
            if k < a.len() {
                assert(all[k] == a[k]);
            } else {
                assert(all[k] == b[k - a.len()]);
                assert(p[k - a.len()].0 <= width);
            }
        }
    }
}

/// The screen pixels of data points are exactly the points that lie on
/// the chart, in their order, each `(i, j)` shown at `(i, height - j)`:
/// none is dropped, repeated or moved.
pub proof fn law_screen_points_exact(raw: Seq<(u32, u32)>, width: u32, height: u32)
    ensures
        screen_of(raw, width, height) == raw.filter(|p: (u32, u32)| p.0 <= width && p.1 <= height).map_values(
            |p: (u32, u32)| (p.0, (height - p.1) as u32),
        ),
        screen_of(raw, width, height).len() == raw.filter(|p: (u32, u32)| p.0 <= width && p.1 <= height).len(),
    decreases raw.len(),
{
    reveal(Seq::filter);
    let pred = |p: (u32, u32)| p.0 <= width && p.1 <= height;
    let flip = |p: (u32, u32)| (p.0, (height - p.1) as u32);
    if raw.len() > 0 {
        law_screen_points_exact(raw.drop_last(), width, height);
        let f0 = raw.drop_last().filter(pred);
        if pred(raw.last()) {
            assert(raw.filter(pred) == f0.push(raw.last()));
            assert(f0.push(raw.last()).map_values(flip) =~= f0.map_values(flip).push(flip(raw.last())));
        } else {
            assert(raw.filter(pred) == f0);
        }
    } else {
        assert(raw.filter(pred).map_values(flip) =~= Seq::empty());
    }
}

proof fn lemma_curve_prefix(samples: Seq<Option<u32>>, height: u32, n: int)
    requires
        0 <= n <= samples.len(),
    ensures
        curve_of(samples.take(n), height) == Seq::new(n as nat, |k: int| k).filter(|k: int| samples[k] is Some).map_values(
            |k: int| (k as u32, (height - samples[k]->0) as u32),
        ),
    decreases n,
{
    reveal(Seq::filter);
    let pred = |k: int| samples[k] is Some;
    let place = |k: int| (k as u32, (height - samples[k]->0) as u32);
    let idx = Seq::new(n as nat, |k: int| k);
    if n > 0 {
        lemma_curve_prefix(samples, height, n - 1);
        let prev = Seq::new((n - 1) as nat, |k: int| k);
        assert(idx.drop_last() =~= prev);
        assert(samples.take(n).drop_last() =~= samples.take(n - 1));
        assert(samples.take(n).last() == samples[n - 1]);
        assert(idx.last() == n - 1);
        let f0 = prev.filter(pred);
        if pred(n - 1) {
            assert(idx.filter(pred) == f0.push(n - 1));
            assert(f0.push(n - 1).map_values(place) =~= f0.map_values(place).push(place(n - 1)));
        } else {
            assert(idx.filter(pred) == f0);
        }
    } else {
        assert(samples.take(0) =~= Seq::<Option<u32>>::empty());
        assert(idx.filter(pred).map_values(place) =~= Seq::empty());
    }
}

/// The screen pixels of a sampled curve are exactly one per sample that
/// has a value, in column order: the sample `Some(j)` at column `k` gives
/// `(k, height - j)`, and a missing sample gives nothing.
pub proof fn law_curve_points_exact(samples: Seq<Option<u32>>, height: u32)
    ensures
        curve_of(samples, height) == Seq::new(samples.len(), |k: int| k).filter(|k: int| samples[k] is Some).map_values(
            |k: int| (k as u32, (height - samples[k]->0) as u32),
        ),
        curve_of(samples, height).len() == Seq::new(samples.len(), |k: int| k).filter(|k: int| samples[k] is Some).len(),
{
    lemma_curve_prefix(samples, height, samples.len() as int);
    assert(samples.take(samples.len() as int) =~= samples);
}

/// Whether a line of the style sets a dot at offset `i` along it: every
/// offset when solid, every third when dotted, the first two of every four
/// when dashed, none when hidden.
pub open spec fn style_dot_at(style: LineStyle, i: int) -> bool {
    match style {
        LineStyle::Hidden => false,
        LineStyle::Solid => true,
        LineStyle::Dotted => i % 3 == 0,
        LineStyle::Dashed => i % 4 < 2,
    }
}

proof fn lemma_offset_index(style: LineStyle, len: u32, i: u32) -> (k: int)
    requires
        i <= len,
        style_dot_at(style, i as int),
    ensures
        0 <= k < crate::chart::style_offsets(style, len).len(),
        crate::chart::style_offsets(style, len)[k] == i,
{
    match style {
        LineStyle::Solid => i as int,
        LineStyle::Dotted => i as int / 3,
        LineStyle::Dashed => {
            let k = 2 * (i as int / 4) + i as int % 4;
            assert(k / 2 == i as int / 4 && k % 2 == i as int % 4);
            k
        },
        LineStyle::Hidden => 0,
    }
}

/// A horizontal line drawn `j` dots above the bottom lights, in row
/// `height - j`, every column up to the width where its style sets a dot;
/// a vertical line at column `x` lights, in that column, every row up to
/// the height where its style sets a dot.
pub proof fn law_lines_drawn(c: ChartView, j: u32, x: u32, style: LineStyle, i: u32)
    ensures
        j <= c.height && i <= c.width && style_dot_at(style, i as int) ==> is_lit(
            hline_cells(c, j, style),
            i,
            (c.height - j) as u32,
        ),
        x <= c.width && i <= c.height && style_dot_at(style, i as int) ==> is_lit(vline_cells(c, x, style), x, i),
{
    if j <= c.height && i <= c.width && style_dot_at(style, i as int) {
        let pts = hline_points(j, c.width, c.height, style);
        let k = lemma_offset_index(style, c.width, i);
        lemma_paint_lights(c.cells, pts, Option::None);
        assert(pts[k] == (i, (c.height - j) as u32));
        assert(is_lit(paint(c.cells, pts, Option::None), pts[k].0, pts[k].1));
    }
    if x <= c.width && i <= c.height && style_dot_at(style, i as int) {
        let pts = vline_points(x, c.height, style);
        let k = lemma_offset_index(style, c.height, i);
        lemma_paint_lights(c.cells, pts, Option::None);
        assert(pts[k] == (x, i));
        assert(is_lit(paint(c.cells, pts, Option::None), pts[k].0, pts[k].1));
    }
}

/// The axes are drawn where asked: with the value 0 at `j` dots above the
/// bottom, the x-axis lights, in row `height - j`, every column up to the
/// width where the x style sets a dot (the bottom row too, when `j` is 0);
/// with the value 0 at column `x`, the y-axis lights, in that column, every
/// row up to the height where the y style sets a dot.
pub proof fn law_axes_drawn(c: ChartView, j: u32, x: u32, i: u32)
    ensures
        j <= c.height && i <= c.width && style_dot_at(c.x_style, i as int) ==> is_lit(
            x_axis_cells(c, Some(j)),
            i,
            (c.height - j) as u32,
        ),
        x <= c.width && i <= c.height && style_dot_at(c.y_style, i as int) ==> is_lit(
            y_axis_cells(c, Some(x)),
            x,
            i,
        ),
{
    law_lines_drawn(c, j, 0, c.x_style, i);
    law_lines_drawn(c, 0, x, c.y_style, i);
}

/// The last line of a labelled frame (of more than one row) is the lowest
/// x label, then spaces up to half the chart's width in dots less the
/// highest x label's length in bytes (none when the lowest label is already
/// that long), then the highest x label; a newline comes before it and
/// after it. So with ASCII x labels that fit, the line is exactly half the
/// chart's width long, and the highest x label ends at the middle of the
/// chart.
pub proof fn law_x_labels_line(frame: Seq<char>, labels: LabelsView, width: u32)
    requires
        annotated(frame, labels, width) is Some,
        newline_positions(frame).len() > 0,
    ensures
        ({
            let t = annotated(frame, labels, width)->0;
            let pad_to: int = width / 2 - utf8_len(labels.x_max);
            let body: int = if labels.x_min.len() < pad_to { pad_to } else { labels.x_min.len() as int };
            let line: int = body + labels.x_max.len();
            let start: int = t.len() - 1 - line;
            &&& start >= 1
            &&& t[t.len() - 1] == '\n'
            &&& t[start - 1] == '\n'
            &&& t.subrange(start, start + labels.x_min.len()) == labels.x_min
            &&& forall|k: int| start + labels.x_min.len() <= k < start + body ==> #[trigger] t[k] == ' '
            &&& t.subrange(start + body, t.len() - 1) == labels.x_max
            &&& (utf8_len(labels.x_max) == labels.x_max.len() && labels.x_min.len() + labels.x_max.len() <= width / 2
                ==> line == width / 2)
        }),
{
    lemma_blank_keeps_newlines(frame);
    let t = annotated(frame, labels, width)->0;
    let b = blank_braille(frame);
    let ps = newline_positions(b);
    let s0 = insert_at(b, ps[0], row_label(labels.y_max));
    let s1 = place_ticks(s0, labels.y_ticks)->0;
    let pad_to: int = width / 2 - utf8_len(labels.x_max);
    let p = crate::labels::pad_right(labels.x_min, pad_to);
    let a = s1 + (row_label(labels.y_min) + seq!['\n']);
    assert(t =~= a + p + labels.x_max + seq!['\n']);
    let body: int = if labels.x_min.len() < pad_to { pad_to } else { labels.x_min.len() as int };
    assert(p.len() == body);
    let start: int = a.len() as int;
    assert(a[a.len() - 1] == '\n');
    assert(t[start - 1] == a[a.len() - 1]);
    assert(t.subrange(start, start + labels.x_min.len()) =~= labels.x_min) by {
        assert forall|k: int| 0 <= k < labels.x_min.len() implies t[start + k] == labels.x_min[k] by {
            assert(t[start + k] == p[k]);
        }
    }
    assert forall|k: int| start + labels.x_min.len() <= k < start + body implies #[trigger] t[k] == ' ' by {
        assert(t[k] == p[k - start]);
    }
    assert(t.subrange(start + body, t.len() - 1) =~= labels.x_max) by {
        assert forall|k: int| 0 <= k < labels.x_max.len() implies t[start + body + k] == labels.x_max[k] by {
            assert(t[start + body + k] == (a + p + labels.x_max)[start + body + k]);
        }
    }
}

/// Each mark between two consecutive points of a shape is among the
/// shape's marks.
proof fn lemma_pair_mark_index(kind: ShapeKind, pts: Seq<(u32, u32)>, height: u32, k: int, q: int) -> (m: int)
    requires
        !(kind is Points),
        0 <= k,
        k + 1 < pts.len(),
        0 <= q < pair_marks(kind, pts[k], pts[k + 1], height).len(),
    ensures
        0 <= m < shape_marks(kind, pts, height).len(),
        shape_marks(kind, pts, height)[m] == pair_marks(kind, pts[k], pts[k + 1], height)[q],
    decreases pts.len(),
{
    let init = pts.drop_last();
    if k == pts.len() - 2 {
        assert(pts.last() == pts[k + 1]);
        shape_marks(kind, init, height).len() + q
    } else {
        assert(init[k] == pts[k] && init[k + 1] == pts[k + 1]);
        lemma_pair_mark_index(kind, init, height, k, q)
    }
}

/// Whether every pixel of the line from `(x1, y1)` to `(x2, y2)` is lit.
pub open spec fn line_lit(cells: Map<(u16, u16), CellState>, x1: u32, y1: u32, x2: u32, y2: u32) -> bool {
    forall|j: int| 0 <= j < line_points(x1, y1, x2, y2).len() ==> is_lit(
        cells,
        #[trigger] line_points(x1, y1, x2, y2)[j].0,
        line_points(x1, y1, x2, y2)[j].1,
    )
}

proof fn lemma_pair_line_lit(
    cells: Map<(u16, u16), CellState>,
    shapes: Seq<PlottedShape>,
    height: u32,
    i: int,
    k: int,
    q: int,
    x1: u32,
    y1: u32,
    x2: u32,
    y2: u32,
)
    requires
        0 <= i < shapes.len(),
        !(shapes[i].kind is Points),
        0 <= k,
        k + 1 < shapes[i].points@.len(),
        0 <= q < pair_marks(shapes[i].kind, shapes[i].points@[k], shapes[i].points@[k + 1], height).len(),
        pair_marks(shapes[i].kind, shapes[i].points@[k], shapes[i].points@[k + 1], height)[q] == Mark::Segment(
            x1,
            y1,
            x2,
            y2,
        ),
    ensures
        line_lit(shapes_cells(cells, shapes, height), x1, y1, x2, y2),
{
    let s = shapes[i];
    let m = lemma_pair_mark_index(s.kind, s.points@, height, k, q);
    assert(s.marks(height)[m] == Mark::Segment(x1, y1, x2, y2));
    assert forall|j: int| 0 <= j < line_points(x1, y1, x2, y2).len() implies is_lit(
        shapes_cells(cells, shapes, height),
        #[trigger] line_points(x1, y1, x2, y2)[j].0,
        line_points(x1, y1, x2, y2)[j].1,
    ) by {
        lemma_shape_mark_lit(cells, shapes, height, i, m, j);
    }
}

/// Drawing shapes lights every stroke of each: each point of a scatter
/// plot; for lines and curves, the line between consecutive points; for
/// steps, from consecutive points `(x1, y1)` and `(x2, y2)`, the level from
/// `(x1, y2)` to `(x2, y2)` and the riser from `(x1, y1)` to `(x1, y2)`;
/// for bars, those two and both sides down to the bottom row `height`.
pub proof fn law_shape_strokes_lit(cells: Map<(u16, u16), CellState>, shapes: Seq<PlottedShape>, height: u32, i: int, k: int)
    requires
        0 <= i < shapes.len(),
    ensures
        ({
            let s = shapes[i];
            let pts = s.points@;
            let after = shapes_cells(cells, shapes, height);
            &&& s.kind is Points && 0 <= k < pts.len() ==> is_lit(after, pts[k].0, pts[k].1)
            &&& 0 <= k && k + 1 < pts.len() ==> {
                let (x1, y1) = pts[k];
                let (x2, y2) = pts[k + 1];
                &&& (s.kind is Lines || s.kind is Continuous) ==> line_lit(after, x1, y1, x2, y2)
                &&& (s.kind is Steps || s.kind is Bars) ==> line_lit(after, x1, y2, x2, y2) && line_lit(
                    after,
                    x1,
                    y1,
                    x1,
                    y2,
                )
                &&& s.kind is Bars ==> line_lit(after, x1, height, x1, y1) && line_lit(after, x2, height, x2, y2)
            }
        }),
{
    let s = shapes[i];
    let pts = s.points@;
    if s.kind is Points && 0 <= k < pts.len() {
        assert(s.marks(height)[k] == Mark::Dot(pts[k].0, pts[k].1));
        lemma_shape_mark_lit(cells, shapes, height, i, k, 0);
    }
    if 0 <= k && k + 1 < pts.len() && !(s.kind is Points) {
        let (x1, y1) = pts[k];
        let (x2, y2) = pts[k + 1];
        if s.kind is Lines || s.kind is Continuous {
            lemma_pair_line_lit(cells, shapes, height, i, k, 0, x1, y1, x2, y2);
        }
        if s.kind is Steps || s.kind is Bars {
            lemma_pair_line_lit(cells, shapes, height, i, k, 0, x1, y2, x2, y2);
            lemma_pair_line_lit(cells, shapes, height, i, k, 1, x1, y1, x1, y2);
        }
        if s.kind is Bars {
            lemma_pair_line_lit(cells, shapes, height, i, k, 2, x1, height, x1, y1);
            lemma_pair_line_lit(cells, shapes, height, i, k, 3, x2, height, x2, y2);
        }
    }
}

/// The newlines of `a + b`: those of `a`, then those of `b` moved past `a`.
proof fn lemma_np_concat(a: Seq<char>, b: Seq<char>)
    ensures
        newline_positions(a + b) =~= newline_positions(a) + newline_positions(b).map_values(|i: int| i + a.len()),
    decreases b.len(),
{
    if b.len() == 0 {
        assert(a + b =~= a);
    } else {
        let bd = b.drop_last();
        lemma_np_concat(a, bd);
        assert((a + b).drop_last() =~= a + bd);
        assert((a + b).last() == b.last());
        let f = |i: int| i + a.len();
        if b.last() == '\n' {
            assert(newline_positions(bd).push(b.len() - 1).map_values(f) =~= newline_positions(bd).map_values(f).push(
                f(b.len() - 1),
            ));
        }
    }
}

/// Newline positions increase and point at newlines of the text.
proof fn lemma_np_props(s: Seq<char>)
    ensures
        forall|i: int| 0 <= i < newline_positions(s).len() ==> 0 <= #[trigger] newline_positions(s)[i] < s.len()
            && s[newline_positions(s)[i]] == '\n',
        forall|i: int, j: int|
            0 <= i < j < newline_positions(s).len() ==> #[trigger] newline_positions(s)[i]
                < #[trigger] newline_positions(s)[j],
    decreases s.len(),
{
    if s.len() > 0 {
        let sd = s.drop_last();
        lemma_np_props(sd);
        assert forall|i: int| 0 <= i < newline_positions(sd).len() implies s[newline_positions(sd)[i]] == '\n' by {
            assert(s[newline_positions(sd)[i]] == sd[newline_positions(sd)[i]]);
        }
    }
}

/// Inserting a label without newlines before the newline number `n` of a
/// text keeps the text before it and the earlier newlines where they are,
/// puts the label just before that newline, and moves the later newlines by
/// the label's length.
proof fn lemma_insert_before_newline(s: Seq<char>, n: int, l: Seq<char>)
    requires
        0 <= n < newline_positions(s).len(),
        one_line(l),
    ensures
        ({
            let p = newline_positions(s)[n];
            let t = insert_at(s, p, l);
            &&& newline_positions(t).len() == newline_positions(s).len()
            &&& forall|i: int| 0 <= i < n ==> #[trigger] newline_positions(t)[i] == newline_positions(s)[i]
            &&& forall|i: int| n <= i < newline_positions(s).len() ==> #[trigger] newline_positions(t)[i]
                == newline_positions(s)[i] + l.len()
            &&& t.take(p) == s.take(p)
            &&& t.subrange(p, p + l.len()) == l
        }),
{
    let np = newline_positions(s);
    let p = np[n];
    lemma_np_props(s);
    let a = s.take(p);
    let c = s.skip(p);
    assert(s =~= a + c);
    lemma_np_concat(a, c);
    lemma_np_props(a);
    lemma_np_props(c);
    let na = newline_positions(a);
    let nc = newline_positions(c);
    assert(np =~= na + nc.map_values(|i: int| i + a.len()));
    if n < na.len() {
        assert(np[n] == na[n]);
    }
    if n > na.len() {
        assert(nc.len() > 0);
        assert(np[na.len() as int] == nc[0] + p);
        assert(np[na.len() as int] < np[n]);
    }
    assert(n == na.len());
    lemma_one_line_no_newlines(l);
    let t = insert_at(s, p, l);
    lemma_np_concat(a, l);
    lemma_np_concat(a + l, c);
    assert(t =~= (a + l) + c);
    assert(newline_positions(l) =~= Seq::<int>::empty());
    assert(newline_positions(a + l) =~= na);
    assert(newline_positions(t) =~= na + nc.map_values(|i: int| i + (a + l).len()));
    assert(t.take(p) =~= s.take(p));
    assert(t.subrange(p, p + l.len()) =~= l);
}

/// Whether the line of `t` that ends at its newline number `n` ends with `l`.
pub open spec fn row_ends_with(t: Seq<char>, n: int, l: Seq<char>) -> bool {
    &&& 0 <= n < newline_positions(t).len()
    &&& newline_positions(t)[n] >= l.len()
    &&& t.subrange(newline_positions(t)[n] - l.len(), newline_positions(t)[n]) == l
}

/// A row that ends with a label keeps it when a label goes before a later
/// newline.
proof fn lemma_row_kept(s: Seq<char>, m: int, l: Seq<char>, n: int, k: Seq<char>)
    requires
        0 <= n < m < newline_positions(s).len(),
        one_line(l),
        row_ends_with(s, n, k),
    ensures
        row_ends_with(insert_at(s, newline_positions(s)[m], l), n, k),
{
    lemma_insert_before_newline(s, m, l);
    lemma_np_props(s);
    let p = newline_positions(s)[m];
    let t = insert_at(s, p, l);
    let q = newline_positions(s)[n];
    assert(q < p);
    assert(t.subrange(q - k.len(), q) =~= s.subrange(q - k.len(), q)) by {
        assert forall|i: int| q - k.len() <= i < q implies t[i] == s[i] by {
            assert(t.take(p)[i] == s.take(p)[i]);
        }
    }
}

/// Placed tick labels end their rows: the `k`-th ends the row before the
/// newline number `3 * (k + 1)`, and a row that ended with a label before
/// newline number `n < 3` still does.
proof fn lemma_ticks_end_rows(s: Seq<char>, ticks: Seq<Seq<char>>, n: int, lab: Seq<char>)
    requires
        place_ticks(s, ticks) is Some,
        forall|k: int| 0 <= k < ticks.len() ==> one_line(#[trigger] ticks[k]),
        0 <= n < 3,
        row_ends_with(s, n, lab),
    ensures
        newline_positions(place_ticks(s, ticks)->0).len() == newline_positions(s).len(),
        row_ends_with(place_ticks(s, ticks)->0, n, lab),
        forall|k: int| 0 <= k < ticks.len() ==> row_ends_with(place_ticks(s, ticks)->0, 3 * (k + 1), row_label(#[trigger] ticks[k])),
    decreases ticks.len(),
{
    if ticks.len() > 0 {
        let init = ticks.drop_last();
        assert forall|k: int| 0 <= k < init.len() implies one_line(#[trigger] init[k]) by {
            assert(init[k] == ticks[k]);
        }
        lemma_ticks_end_rows(s, init, n, lab);
        let t0 = place_ticks(s, init)->0;
        let m: int = 3 * (ticks.len() as int);
        let l = row_label(ticks.last());
        assert(ticks.last() == ticks[ticks.len() - 1]);
        assert(one_line(l)) by {
            assert forall|i: int| 0 <= i < l.len() implies l[i] != '\n' by {
                if i > 0 {
                    assert(l[i] == ticks.last()[i - 1]);
                }
            }
        }
        assert(m < newline_positions(t0).len());
        lemma_insert_before_newline(t0, m, l);
        let t = place_ticks(s, ticks)->0;
        assert(t == insert_at(t0, newline_positions(t0)[m], l));
        lemma_row_kept(t0, m, l, n, lab);
        assert forall|k: int| 0 <= k < ticks.len() implies row_ends_with(t, 3 * (k + 1), row_label(#[trigger] ticks[k])) by {
            if k < init.len() {
                assert(init[k] == ticks[k]);
                lemma_row_kept(t0, m, l, 3 * (k + 1), row_label(ticks[k]));
            } else {
                let p = newline_positions(t0)[m];
                lemma_np_props(t0);
                assert(k == ticks.len() - 1);
                assert(t == insert_at(t0, p, l));
                assert(newline_positions(t)[m] == p + l.len());
                assert(t.subrange(p, p + l.len()) == l);
            }
        }
    }
}

/// A row ending with a label keeps it when text is appended.
proof fn lemma_row_kept_append(a: Seq<char>, b: Seq<char>, n: int, k: Seq<char>)
    requires
        row_ends_with(a, n, k),
    ensures
        row_ends_with(a + b, n, k),
{
    lemma_np_concat(a, b);
    lemma_np_props(a);
    let q = newline_positions(a)[n];
    assert(newline_positions(a + b)[n] == q);
    assert((a + b).subrange(q - k.len(), q) =~= a.subrange(q - k.len(), q));
}

/// With labels that hold no newline, the labelled frame (of more than one
/// row) ends its first row with a space and the highest y label, the row
/// before its newline number `3 * (k + 1)` with a space and the `k`-th tick
/// label, and its last frame row (before its newline number `r - 1`, for a
/// frame of `r` rows) with a space and the lowest y label.
pub proof fn law_labels_end_rows(frame: Seq<char>, labels: LabelsView, width: u32)
    requires
        annotated(frame, labels, width) is Some,
        newline_positions(frame).len() > 0,
        one_line(labels.y_max),
        one_line(labels.y_min),
        forall|k: int| 0 <= k < labels.y_ticks.len() ==> one_line(#[trigger] labels.y_ticks[k]),
    ensures
        ({
            let t = annotated(frame, labels, width)->0;
            &&& row_ends_with(t, 0, row_label(labels.y_max))
            &&& forall|k: int|
                0 <= k < labels.y_ticks.len() ==> row_ends_with(t, 3 * (k + 1), row_label(#[trigger] labels.y_ticks[k]))
            &&& row_ends_with(t, newline_positions(frame).len() as int, row_label(labels.y_min))
        }),
{
    lemma_blank_keeps_newlines(frame);
    let b = blank_braille(frame);
    let ly = row_label(labels.y_max);
    assert(one_line(ly)) by {
        assert forall|i: int| 0 <= i < ly.len() implies ly[i] != '\n' by {
            if i > 0 {
                assert(ly[i] == labels.y_max[i - 1]);
            }
        }
    }
    let lm = row_label(labels.y_min);
    assert(one_line(lm)) by {
        assert forall|i: int| 0 <= i < lm.len() implies lm[i] != '\n' by {
            if i > 0 {
                assert(lm[i] == labels.y_min[i - 1]);
            }
        }
    }
    lemma_insert_before_newline(b, 0, ly);
    let p = newline_positions(b)[0];
    let s0 = insert_at(b, p, ly);
    lemma_np_props(b);
    assert(newline_positions(s0)[0] == p + ly.len());
    assert(s0.subrange(p, p + ly.len()) == ly);
    assert(row_ends_with(s0, 0, ly));
    lemma_ticks_end_rows(s0, labels.y_ticks, 0, ly);
    let s1 = place_ticks(s0, labels.y_ticks)->0;
    let rest = seq!['\n'] + crate::labels::pad_right(labels.x_min, width / 2 - utf8_len(labels.x_max)) + labels.x_max
        + seq!['\n'];
    let t = annotated(frame, labels, width)->0;
    assert(t =~= (s1 + lm) + rest);
    lemma_row_kept_append(s1, lm + rest, 0, ly);
    assert(s1 + (lm + rest) =~= t);
    assert forall|k: int| 0 <= k < labels.y_ticks.len() implies row_ends_with(t, 3 * (k + 1), row_label(#[trigger] labels.y_ticks[k])) by {
        lemma_row_kept_append(s1, lm + rest, 3 * (k + 1), row_label(labels.y_ticks[k]));
    }
    // the newline after the lowest y label
    let c = newline_positions(s1).len() as int;
    lemma_one_line_no_newlines(lm);
    lemma_np_concat(s1 + lm, rest);
    lemma_np_concat(s1, lm);
    assert(newline_positions(lm) =~= Seq::<int>::empty());
    assert(rest[0] == '\n');
    assert(newline_positions(rest).len() > 0 && newline_positions(rest)[0] == 0) by {
        lemma_np_props(rest);
        lemma_np_concat(seq!['\n'], rest.skip(1));
        assert(rest =~= seq!['\n'] + rest.skip(1));
        let nl = seq!['\n'];
        assert(nl.drop_last() =~= Seq::<char>::empty());
        assert(nl.last() == '\n');
        assert(newline_positions(nl.drop_last()) =~= Seq::<int>::empty());
        assert(newline_positions(nl) =~= seq![0int]);
    }
    let q = (s1 + lm).len() as int;
    assert(newline_positions(t)[c] == q);
    assert(t.subrange(q - lm.len(), q) =~= lm);
}

/// The offsets at which a line of the style and of length `len` sets a
/// dot: those where the style sets one, up to `len`, and for a dashed line
/// the second of a pair whose first lies at `len`.
pub open spec fn style_covers(style: LineStyle, len: u32, i: u32) -> bool {
    style_dot_at(style, i as int) && (i <= len || (style is Dashed && i - i % 4 <= len))
}

proof fn lemma_offsets_covered(style: LineStyle, len: u32, k: int)
    requires
        0 <= k < crate::chart::style_offsets(style, len).len(),
    ensures
        style_covers(style, len, crate::chart::style_offsets(style, len)[k]),
{
}

/// A line lights nothing but its own dots: a pixel lit after a horizontal
/// line is drawn `j` dots above the bottom was lit before, or shares its
/// cell and dot with a pixel of row `height - j` at an offset the style
/// covers; likewise for a vertical line at column `x`.
pub proof fn law_lines_only(c: ChartView, j: u32, x: u32, style: LineStyle, a: u32, b: u32)
    ensures
        is_lit(hline_cells(c, j, style), a, b) ==> is_lit(c.cells, a, b) || (j <= c.height && exists|i: u32|
            style_covers(style, c.width, i) && cell_of(i, (c.height - j) as u32) == cell_of(a, b) && #[trigger] dot_bit(
                i,
                (c.height - j) as u32,
            ) == dot_bit(a, b)),
        is_lit(vline_cells(c, x, style), a, b) ==> is_lit(c.cells, a, b) || (x <= c.width && exists|i: u32|
            style_covers(style, c.height, i) && cell_of(x, i) == cell_of(a, b) && #[trigger] dot_bit(x, i) == dot_bit(a, b)),
{
    if is_lit(hline_cells(c, j, style), a, b) && j <= c.height {
        let pts = hline_points(j, c.width, c.height, style);
        let d = with_color(pts, Option::None);
        lemma_paint_dots(c.cells, pts, Option::None);
        lemma_lit_only_dots(c.cells, d, a, b);
        if !is_lit(c.cells, a, b) {
            let k = choose|k: int|
                0 <= k < d.len() && cell_of(d[k].0, d[k].1) == cell_of(a, b) && #[trigger] dot_bit(d[k].0, d[k].1) == dot_bit(a, b);
            lemma_offsets_covered(style, c.width, k);
            let i = crate::chart::style_offsets(style, c.width)[k];
            assert(d[k].0 == i && d[k].1 == (c.height - j) as u32);
            assert(dot_bit(i, (c.height - j) as u32) == dot_bit(a, b));
        }
    }
    if is_lit(vline_cells(c, x, style), a, b) && x <= c.width {
        let pts = vline_points(x, c.height, style);
        let d = with_color(pts, Option::None);
        lemma_paint_dots(c.cells, pts, Option::None);
        lemma_lit_only_dots(c.cells, d, a, b);
        if !is_lit(c.cells, a, b) {
            let k = choose|k: int|
                0 <= k < d.len() && cell_of(d[k].0, d[k].1) == cell_of(a, b) && #[trigger] dot_bit(d[k].0, d[k].1) == dot_bit(a, b);
            lemma_offsets_covered(style, c.height, k);
            let i = crate::chart::style_offsets(style, c.height)[k];
            assert(d[k].0 == x && d[k].1 == i);
            assert(dot_bit(x, i) == dot_bit(a, b));
        }
    }
}

/// Whether `px` is a pixel of the line from `(x1, y1)` to `(x2, y2)`.
pub open spec fn in_line(px: (u32, u32), x1: u32, y1: u32, x2: u32, y2: u32) -> bool {
    exists|j: int| 0 <= j < line_points(x1, y1, x2, y2).len() && #[trigger] line_points(x1, y1, x2, y2)[j] == px
}

/// Whether `px` is a pixel of a stroke between consecutive points
/// `(x1, y1)` and `(x2, y2)` of a shape: the line between them for lines
/// and curves; the level from `(x1, y2)` to `(x2, y2)` or the riser from
/// `(x1, y1)` to `(x1, y2)` for steps; for bars those or a side from the
/// bottom row `height` up to `(x1, y1)` or `(x2, y2)`.
pub open spec fn pair_stroke(kind: ShapeKind, p: (u32, u32), q: (u32, u32), height: u32, px: (u32, u32)) -> bool {
    let (x1, y1) = p;
    let (x2, y2) = q;
    match kind {
        ShapeKind::Points => false,
        ShapeKind::Lines | ShapeKind::Continuous => in_line(px, x1, y1, x2, y2),
        ShapeKind::Steps => in_line(px, x1, y2, x2, y2) || in_line(px, x1, y1, x1, y2),
        ShapeKind::Bars => in_line(px, x1, y2, x2, y2) || in_line(px, x1, y1, x1, y2) || in_line(px, x1, height, x1, y1)
            || in_line(px, x2, height, x2, y2),
    }
}

/// Whether `px` is a pixel of a stroke of the shape: one of its points for
/// a scatter plot, else a pixel of a stroke between consecutive points.
pub open spec fn on_stroke(s: PlottedShape, height: u32, px: (u32, u32)) -> bool {
    let pts = s.points@;
    if s.kind is Points {
        exists|k: int| 0 <= k < pts.len() && #[trigger] pts[k] == px
    } else {
        exists|k: int| 0 <= k && k + 1 < pts.len() && #[trigger] pair_stroke(s.kind, pts[k], pts[k + 1], height, px)
    }
}

proof fn lemma_marks_pixel_source(marks: Seq<Mark>, idx: int) -> (mj: (int, int))
    requires
        0 <= idx < marks_pixels(marks).len(),
    ensures
        0 <= mj.0 < marks.len(),
        0 <= mj.1 < mark_pixels(marks[mj.0]).len(),
        marks_pixels(marks)[idx] == mark_pixels(marks[mj.0])[mj.1],
    decreases marks.len(),
{
    let init = marks.drop_last();
    let a = marks_pixels(init);
    if idx < a.len() {
        let r = lemma_marks_pixel_source(init, idx);
        assert(init[r.0] == marks[r.0]);
        r
    } else {
        assert(marks.last() == marks[marks.len() - 1]);
        (marks.len() - 1, idx - a.len())
    }
}

proof fn lemma_shape_mark_source(kind: ShapeKind, pts: Seq<(u32, u32)>, height: u32, m: int) -> (kq: (int, int))
    requires
        !(kind is Points),
        0 <= m < shape_marks(kind, pts, height).len(),
    ensures
        0 <= kq.0 && kq.0 + 1 < pts.len(),
        0 <= kq.1 < pair_marks(kind, pts[kq.0], pts[kq.0 + 1], height).len(),
        shape_marks(kind, pts, height)[m] == pair_marks(kind, pts[kq.0], pts[kq.0 + 1], height)[kq.1],
    decreases pts.len(),
{
    let init = pts.drop_last();
    let a = shape_marks(kind, init, height);
    if m < a.len() {
        let r = lemma_shape_mark_source(kind, init, height, m);
        assert(init[r.0] == pts[r.0] && init[r.0 + 1] == pts[r.0 + 1]);
        r
    } else {
        assert(pts.last() == pts[pts.len() - 1]);
        (pts.len() - 2, m - a.len())
    }
}

proof fn lemma_shapes_dot_source(shapes: Seq<PlottedShape>, height: u32, t: int) -> (ii: (int, int))
    requires
        0 <= t < shapes_dots(shapes, height).len(),
    ensures
        0 <= ii.0 < shapes.len(),
        0 <= ii.1 < marks_pixels(shapes[ii.0].marks(height)).len(),
        shapes_dots(shapes, height)[t].0 == marks_pixels(shapes[ii.0].marks(height))[ii.1].0,
        shapes_dots(shapes, height)[t].1 == marks_pixels(shapes[ii.0].marks(height))[ii.1].1,
    decreases shapes.len(),
{
    let init = shapes.drop_last();
    let a = shapes_dots(init, height);
    if t < a.len() {
        let r = lemma_shapes_dot_source(init, height, t);
        assert(init[r.0] == shapes[r.0]);
        r
    } else {
        assert(shapes.last() == shapes[shapes.len() - 1]);
        (shapes.len() - 1, t - a.len())
    }
}

/// Every pixel of a shape's marks lies on one of its strokes.
proof fn lemma_mark_pixel_on_stroke(s: PlottedShape, height: u32, idx: int)
    requires
        0 <= idx < marks_pixels(s.marks(height)).len(),
    ensures
        on_stroke(s, height, marks_pixels(s.marks(height))[idx]),
{
    let marks = s.marks(height);
    let pts = s.points@;
    let (m, j) = lemma_marks_pixel_source(marks, idx);
    let px = marks_pixels(marks)[idx];
    if s.kind is Points {
        assert(marks[m] == Mark::Dot(pts[m].0, pts[m].1));
        assert(pts[m] == px);
    } else {
        let (k, q) = lemma_shape_mark_source(s.kind, pts, height, m);
        let (x1, y1) = pts[k];
        let (x2, y2) = pts[k + 1];
        match marks[m] {
            Mark::Segment(a1, b1, a2, b2) => {
                assert(line_points(a1, b1, a2, b2)[j] == px);
                assert(in_line(px, a1, b1, a2, b2));
            },
            Mark::Dot(_, _) => {},
        }
        assert(pair_stroke(s.kind, pts[k], pts[k + 1], height, px));
    }
}

/// Drawing shapes lights nothing but their strokes: a pixel lit afterwards
/// was lit before, or shares its cell and dot with a pixel on a stroke of
/// one of the shapes.
pub proof fn law_shapes_only_strokes(cells: Map<(u16, u16), CellState>, shapes: Seq<PlottedShape>, height: u32, a: u32, b: u32)
    requires
        is_lit(shapes_cells(cells, shapes, height), a, b),
    ensures
        is_lit(cells, a, b) || exists|i: int, px: (u32, u32)|
            0 <= i < shapes.len() && #[trigger] on_stroke(shapes[i], height, px) && cell_of(px.0, px.1) == cell_of(a, b)
                && dot_bit(px.0, px.1) == dot_bit(a, b),
{
    let d = shapes_dots(shapes, height);
    lemma_shapes_dots(cells, shapes, height);
    lemma_lit_only_dots(cells, d, a, b);
    if !is_lit(cells, a, b) {
        let t = choose|t: int|
            0 <= t < d.len() && cell_of(d[t].0, d[t].1) == cell_of(a, b) && #[trigger] dot_bit(d[t].0, d[t].1) == dot_bit(a, b);
        let (i, idx) = lemma_shapes_dot_source(shapes, height, t);
        lemma_mark_pixel_on_stroke(shapes[i], height, idx);
        let px = marks_pixels(shapes[i].marks(height))[idx];
        assert(on_stroke(shapes[i], height, px));
    }
}

/// Whether pixels `(x, y)` and `(a, b)` are the same dot of the canvas.
pub open spec fn same_dot(x: u32, y: u32, a: u32, b: u32) -> bool {
    cell_of(x, y) == cell_of(a, b) && dot_bit(x, y) == dot_bit(a, b)
}

/// Whether `(a, b)` is the same dot as the border pixel at offset `k`, a
/// multiple of 3, along an edge: down the left or right column, or across
/// the top or bottom row.
pub open spec fn border_dot(c: ChartView, k: u32, a: u32, b: u32) -> bool {
    &&& k % 3 == 0
    &&& (k <= c.height && (same_dot(0, k, a, b) || same_dot(c.width, k, a, b))) || (k <= c.width && (same_dot(k, 0, a, b)
        || same_dot(k, c.height, a, b)))
}

/// The borders are dotted lines along the four edges: every third pixel of
/// the top and bottom rows and of the left and right columns is lit, and
/// nothing else is: a pixel lit afterwards was lit before or is the same
/// dot as one of those.
pub proof fn law_borders_dotted(c: ChartView, i: u32, a: u32, b: u32)
    ensures
        i <= c.width && i % 3 == 0 ==> is_lit(border_cells(c), i, 0) && is_lit(border_cells(c), i, c.height),
        i <= c.height && i % 3 == 0 ==> is_lit(border_cells(c), 0, i) && is_lit(border_cells(c), c.width, i),
        is_lit(border_cells(c), a, b) ==> is_lit(c.cells, a, b) || exists|k: u32| #[trigger] border_dot(c, k, a, b),
{
    let d = LineStyle::Dotted;
    let c1 = c.with_cells(vline_cells(c, 0, d));
    let c2 = c1.with_cells(vline_cells(c1, c.width, d));
    let c3 = c2.with_cells(hline_cells(c2, 0, d));
    let c4 = hline_cells(c3, c.height, d);
    assert(c4 == border_cells(c));
    lemma_paint_lights(c.cells, vline_points(0, c.height, d), Option::None);
    lemma_paint_lights(c1.cells, vline_points(c.width, c.height, d), Option::None);
    lemma_paint_lights(c2.cells, hline_points(0, c.width, c.height, d), Option::None);
    lemma_paint_lights(c3.cells, hline_points(c.height, c.width, c.height, d), Option::None);
    law_lines_drawn(c, 0, 0, d, i);
    law_lines_drawn(c1, 0, c.width, d, i);
    law_lines_drawn(c2, 0, 0, d, i);
    law_lines_drawn(c3, c.height, 0, d, i);
    if i <= c.height && i % 3 == 0 {
        assert(is_lit(c1.cells, 0, i));
        assert(is_lit(c2.cells, 0, i));
        assert(is_lit(c2.cells, c.width, i));
        assert(is_lit(c3.cells, 0, i));
        assert(is_lit(c3.cells, c.width, i));
    }
    if i <= c.width && i % 3 == 0 {
        assert(is_lit(c3.cells, i, c.height));
    }
    if is_lit(c4, a, b) {
        law_lines_only(c3, c.height, 0, d, a, b);
        law_lines_only(c2, 0, 0, d, a, b);
        law_lines_only(c1, 0, c.width, d, a, b);
        law_lines_only(c, 0, 0, d, a, b);
        if !is_lit(c.cells, a, b) {
            if !is_lit(c3.cells, a, b) {
                let k = choose|k: u32| style_covers(d, c.width, k) && cell_of(k, 0) == cell_of(a, b) && #[trigger] dot_bit(k, 0) == dot_bit(a, b);
                assert(border_dot(c, k, a, b));
            } else if !is_lit(c2.cells, a, b) {
                let k = choose|k: u32| style_covers(d, c.width, k) && cell_of(k, c.height) == cell_of(a, b) && #[trigger] dot_bit(k, c.height) == dot_bit(a, b);
                assert(border_dot(c, k, a, b));
            } else if !is_lit(c1.cells, a, b) {
                let k = choose|k: u32| style_covers(d, c.height, k) && cell_of(c.width, k) == cell_of(a, b) && #[trigger] dot_bit(c.width, k) == dot_bit(a, b);
                assert(border_dot(c, k, a, b));
            } else {
                let k = choose|k: u32| style_covers(d, c.height, k) && cell_of(0, k) == cell_of(a, b) && #[trigger] dot_bit(0, k) == dot_bit(a, b);
                assert(border_dot(c, k, a, b));
            }
        }
    }
}

/// A frame of a single row is labelled by nothing: it is shown as it is,
/// with each space as a blank braille character.
pub proof fn law_single_row_unlabelled(frame: Seq<char>, labels: LabelsView, width: u32)
    requires
        newline_positions(frame).len() == 0,
    ensures
        annotated(frame, labels, width) is Some,
        annotated(frame, labels, width)->0.len() == frame.len(),
        forall|i: int| 0 <= i < frame.len() ==> #[trigger] annotated(frame, labels, width)->0[i] == (if frame[i] == ' ' {
            '\u{2800}'
        } else {
            frame[i]
        }),
{
    lemma_blank_keeps_newlines(frame);
}

} // verus!
