//! The axis labels around a chart's frame: the y-axis values at the end of
//! some rows, and a last line with the lowest y value and the x range.
use vstd::prelude::*;
use vstd::utf8::encode_utf8;
use crate::canvas::{braille_frame, canvas_frame, newline_positions, uncoloured};
use crate::chart::Chart;

verus! {

/// The texts of a chart's axis labels, each already formatted.
pub struct AxisLabels {
    /// The label of the highest y value, at the end of the first row.
    pub y_max: String,
    /// The labels of the y values between, top to bottom; the `k`-th goes
    /// at the end of the row that ends at newline number `3 * (k + 1)`.
    pub y_ticks: Vec<String>,
    /// The label of the lowest y value, at the end of the last row.
    pub y_min: String,
    /// The label of the lowest x value, at the left under the chart.
    pub x_min: String,
    /// The label of the highest x value, under the chart.
    pub x_max: String,
}

/// The label texts as character sequences.
pub struct LabelsView {
    pub y_max: Seq<char>,
    pub y_ticks: Seq<Seq<char>>,
    pub y_min: Seq<char>,
    pub x_min: Seq<char>,
    pub x_max: Seq<char>,
}

impl View for AxisLabels {
    type V = LabelsView;

    open spec fn view(&self) -> LabelsView {
        LabelsView {
            y_max: self.y_max@,
            y_ticks: self.y_ticks@.map_values(|s: String| s@),
            y_min: self.y_min@,
            x_min: self.x_min@,
            x_max: self.x_max@,
        }
    }
}

/// The frame with each space shown as a blank braille character
/// (U+2800), so that the rows keep their width in any font.
pub open spec fn blank_braille(s: Seq<char>) -> Seq<char> {
    s.map_values(|c: char| if c == ' ' { '\u{2800}' } else { c })
}

/// `s` with `t` inserted before position `p`.
pub open spec fn insert_at(s: Seq<char>, p: int, t: Seq<char>) -> Seq<char> {
    s.take(p) + t + s.skip(p)
}

/// A label as it ends a row: after one space.
pub open spec fn row_label(label: Seq<char>) -> Seq<char> {
    seq![' '] + label
}

/// `s` with each tick label inserted in turn, the `k`-th before the newline
/// number `3 * (k + 1)` of the text so far; `None` when the text has too
/// few newlines for one of them.
pub open spec fn place_ticks(s: Seq<char>, ticks: Seq<Seq<char>>) -> Option<Seq<char>>
    decreases ticks.len(),
{
    if ticks.len() == 0 {
        Some(s)
    } else {
        match place_ticks(s, ticks.drop_last()) {
            Some(t) => {
                let n: int = 3 * (ticks.len() as int);
                let ps = newline_positions(t);
                if n < ps.len() {
                    Some(insert_at(t, ps[n], row_label(ticks.last())))
                } else {
                    Option::None
                }
            },
            Option::None => Option::None,
        }
    }
}

/// `n` spaces.
pub open spec fn spaces(n: int) -> Seq<char> {
    Seq::new(if n > 0 { n as nat } else { 0 }, |i: int| ' ')
}

/// `s` padded with spaces on the right to at least `w` characters.
pub open spec fn pad_right(s: Seq<char>, w: int) -> Seq<char> {
    s + spaces(w - s.len())
}

/// The number of bytes of the UTF-8 encoding of `s`.
pub open spec fn utf8_len(s: Seq<char>) -> int {
    encode_utf8(s).len() as int
}

/// The end of the annotated frame: the lowest y label after the last row,
/// then a line with the lowest x label, padded so that the highest x label
/// that follows it ends near the middle of the chart.
pub open spec fn footer(labels: LabelsView, width: u32) -> Seq<char> {
    row_label(labels.y_min) + seq!['\n'] + pad_right(labels.x_min, width / 2 - utf8_len(labels.x_max))
        + labels.x_max + seq!['\n']
}

/// The frame with its labels: spaces shown as blank braille characters,
/// then, when the frame has more than one row, the highest y label at the
/// end of the first row, the tick labels, and the footer. `None` where the
/// labels cannot be placed: too few rows for the tick labels, or a highest
/// x label longer, in bytes, than half the chart's width in dots.
pub open spec fn annotated(frame: Seq<char>, labels: LabelsView, width: u32) -> Option<Seq<char>> {
    let b = blank_braille(frame);
    let ps = newline_positions(b);
    if ps.len() == 0 {
        Some(b)
    } else {
        let s0 = insert_at(b, ps[0], row_label(labels.y_max));
        match place_ticks(s0, labels.y_ticks) {
            Some(s1) => if utf8_len(labels.x_max) <= width / 2 {
                Some(s1 + footer(labels, width))
            } else {
                Option::None
            },
            Option::None => Option::None,
        }
    }
}

/// `String::push`: appends one character.
#[verifier::external_body]
fn push_char(s: &mut String, c: char)
    ensures
        final(s)@ == old(s)@.push(c),
{
    s.push(c)
}

/// The characters of a text.
fn chars_of(s: &str) -> (v: Vec<char>)
    ensures
        v@ == s@,
{
    let mut v: Vec<char> = Vec::new();
    for c in it: s.chars()
        invariant
            it.seq() == s@,
            v@ == s@.take(it.index()),
    {
        assert(s@.take(it.index() + 1) =~= s@.take(it.index()).push(c));
        v.push(c);
    }
    assert(v@ =~= s@);
    v
}

/// The text of a character sequence.
fn string_of(v: &Vec<char>) -> (s: String)
    ensures
        s@ == v@,
{
    let mut s = String::new();
    let n = v.len();
    let mut k: usize = 0;
    while k < n
        invariant
            n == v@.len(),
            k <= n,
            s@ == v@.take(k as int),
        decreases n - k,
    {
        push_char(&mut s, v[k]);
        assert(v@.take(k + 1) =~= v@.take(k as int).push(v@[k as int]));
        k = k + 1;
    }
    assert(v@.take(n as int) =~= v@);
    s
}

/// The newlines of `a + b` are those of `a` and those of `b`.
pub proof fn lemma_newlines_concat(a: Seq<char>, b: Seq<char>)
    ensures
        newline_positions(a + b).len() == newline_positions(a).len() + newline_positions(b).len(),
    decreases b.len(),
{
    if b.len() == 0 {
        assert(a + b =~= a);
    } else {
        lemma_newlines_concat(a, b.drop_last());
        assert((a + b).drop_last() =~= a + b.drop_last());
        assert((a + b).last() == b.last());
    }
}

/// Each newline position lies within the text.
pub proof fn lemma_positions_in_range(t: Seq<char>, n: int)
    requires
        0 <= n < newline_positions(t).len(),
    ensures
        0 <= newline_positions(t)[n] < t.len(),
    decreases t.len(),
{
    let rest = newline_positions(t.drop_last());
    if n < rest.len() {
        lemma_positions_in_range(t.drop_last(), n);
    }
}

/// Inserting `l` adds its newlines to those of the text.
pub proof fn lemma_insert_newlines(t: Seq<char>, p: int, l: Seq<char>)
    requires
        0 <= p <= t.len(),
    ensures
        newline_positions(insert_at(t, p, l)).len() == newline_positions(t).len() + newline_positions(l).len(),
{
    lemma_newlines_concat(t.take(p) + l, t.skip(p));
    lemma_newlines_concat(t.take(p), l);
    lemma_newlines_concat(t.take(p), t.skip(p));
    assert(t.take(p) + t.skip(p) =~= t);
}

/// Blank braille characters keep the newlines where they are.
pub proof fn lemma_blank_keeps_newlines(s: Seq<char>)
    ensures
        newline_positions(blank_braille(s)) == newline_positions(s),
    decreases s.len(),
{
    if s.len() > 0 {
        lemma_blank_keeps_newlines(s.drop_last());
        assert(blank_braille(s).drop_last() =~= blank_braille(s.drop_last()));
    }
}

/// Whether tick labels can be placed depends only on the number of
/// newlines of the text, and texts with as many newlines give results with
/// as many newlines.
pub proof fn lemma_place_ticks_by_count(s1: Seq<char>, s2: Seq<char>, ticks: Seq<Seq<char>>)
    requires
        newline_positions(s1).len() == newline_positions(s2).len(),
    ensures
        place_ticks(s1, ticks) is Some <==> place_ticks(s2, ticks) is Some,
        place_ticks(s1, ticks) is Some ==> newline_positions(place_ticks(s1, ticks)->0).len() == newline_positions(
            place_ticks(s2, ticks)->0,
        ).len(),
    decreases ticks.len(),
{
    if ticks.len() > 0 {
        lemma_place_ticks_by_count(s1, s2, ticks.drop_last());
        if place_ticks(s1, ticks.drop_last()) is Some {
            let t1 = place_ticks(s1, ticks.drop_last())->0;
            let t2 = place_ticks(s2, ticks.drop_last())->0;
            let n: int = 3 * (ticks.len() as int);
            let l = row_label(ticks.last());
            if n < newline_positions(t1).len() {
                lemma_positions_in_range(t1, n);
                lemma_positions_in_range(t2, n);
                lemma_insert_newlines(t1, newline_positions(t1)[n], l);
                lemma_insert_newlines(t2, newline_positions(t2)[n], l);
            }
        }
    }
}

/// Whether a frame can be annotated depends only on its number of
/// newlines.
pub proof fn lemma_annotated_by_count(f1: Seq<char>, f2: Seq<char>, labels: LabelsView, width: u32)
    requires
        newline_positions(f1).len() == newline_positions(f2).len(),
    ensures
        annotated(f1, labels, width) is Some <==> annotated(f2, labels, width) is Some,
{
    let b1 = blank_braille(f1);
    let b2 = blank_braille(f2);
    lemma_blank_keeps_newlines(f1);
    lemma_blank_keeps_newlines(f2);
    let p1 = newline_positions(b1);
    let p2 = newline_positions(b2);
    if p1.len() > 0 {
        let l = row_label(labels.y_max);
        lemma_positions_in_range(b1, 0);
        lemma_positions_in_range(b2, 0);
        lemma_insert_newlines(b1, p1[0], l);
        lemma_insert_newlines(b2, p2[0], l);
        lemma_place_ticks_by_count(insert_at(b1, p1[0], l), insert_at(b2, p2[0], l), labels.y_ticks);
    }
}

/// The characters with each space shown as a blank braille character.
fn blank_braille_exec(v: &Vec<char>) -> (b: Vec<char>)
    ensures
        b@ == blank_braille(v@),
{
    let mut b: Vec<char> = Vec::new();
    let n = v.len();
    let mut k: usize = 0;
    while k < n
        invariant
            n == v@.len(),
            k <= n,
            b@ == blank_braille(v@.take(k as int)),
        decreases n - k,
    {
        let c = v[k];
        b.push(if c == ' ' { '\u{2800}' } else { c });
        assert(blank_braille(v@.take(k + 1)) =~= blank_braille(v@.take(k as int)).push(
            if c == ' ' { '\u{2800}' } else { c },
        ));
        k = k + 1;
    }
    assert(v@.take(n as int) =~= v@);
    b
}

/// The positions of the newlines of the characters.
fn newline_positions_exec(v: &Vec<char>) -> (ps: Vec<usize>)
    ensures
        ps@.len() == newline_positions(v@).len(),
        forall|i: int| 0 <= i < ps@.len() ==> ps@[i] as int == #[trigger] newline_positions(v@)[i],
        forall|i: int| 0 <= i < ps@.len() ==> #[trigger] ps@[i] < v@.len(),
{
    let mut ps: Vec<usize> = Vec::new();
    let n = v.len();
    let mut k: usize = 0;
    while k < n
        invariant
            n == v@.len(),
            k <= n,
            ps@.len() == newline_positions(v@.take(k as int)).len(),
            forall|i: int|
                0 <= i < ps@.len() ==> ps@[i] as int == #[trigger] newline_positions(v@.take(k as int))[i],
            forall|i: int| 0 <= i < ps@.len() ==> #[trigger] ps@[i] < k,
        decreases n - k,
    {
        assert(v@.take(k + 1).drop_last() =~= v@.take(k as int));
        if v[k] == '\n' {
            ps.push(k);
        }
        k = k + 1;
    }
    assert(v@.take(n as int) =~= v@);
    ps
}

/// `s` with `t` inserted before position `p`.
fn insert_exec(s: &Vec<char>, p: usize, t: &Vec<char>) -> (r: Vec<char>)
    requires
        p <= s@.len(),
    ensures
        r@ == insert_at(s@, p as int, t@),
{
    let mut r: Vec<char> = Vec::new();
    let mut k: usize = 0;
    while k < p
        invariant
            p <= s@.len(),
            k <= p,
            r@ == s@.take(k as int),
        decreases p - k,
    {
        r.push(s[k]);
        assert(s@.take(k + 1) =~= s@.take(k as int).push(s@[k as int]));
        k = k + 1;
    }
    append_chars(&mut r, t);
    let n = s.len();
    let mut k: usize = p;
    while k < n
        invariant
            p <= k <= n,
            n == s@.len(),
            r@ == s@.take(p as int) + t@ + s@.subrange(p as int, k as int),
        decreases n - k,
    {
        r.push(s[k]);
        assert(s@.subrange(p as int, k + 1) =~= s@.subrange(p as int, k as int).push(s@[k as int]));
        k = k + 1;
    }
    assert(s@.subrange(p as int, n as int) =~= s@.skip(p as int));
    r
}

/// Appends the characters of `t`.
fn append_chars(r: &mut Vec<char>, t: &Vec<char>)
    ensures
        final(r)@ == old(r)@ + t@,
{
    let n = t.len();
    let mut k: usize = 0;
    while k < n
        invariant
            n == t@.len(),
            k <= n,
            r@ == old(r)@ + t@.take(k as int),
        decreases n - k,
    {
        r.push(t[k]);
        assert(t@.take(k + 1) =~= t@.take(k as int).push(t@[k as int]));
        k = k + 1;
    }
    assert(t@.take(n as int) =~= t@);
}

/// A label as it ends a row: after one space.
fn row_label_exec(label: &String) -> (r: Vec<char>)
    ensures
        r@ == row_label(label@),
{
    let mut r: Vec<char> = Vec::new();
    r.push(' ');
    let l = chars_of(label.as_str());
    append_chars(&mut r, &l);
    assert(r@ =~= row_label(label@));
    r
}

/// Once a tick label cannot be placed, the later ones cannot be either.
proof fn lemma_place_ticks_none(s: Seq<char>, ticks: Seq<Seq<char>>, k: int)
    requires
        0 <= k <= ticks.len(),
        place_ticks(s, ticks.take(k)) is None,
    ensures
        place_ticks(s, ticks) is None,
    decreases ticks.len(),
{
    if k == ticks.len() {
        assert(ticks.take(k) =~= ticks);
    } else {
        assert(ticks.drop_last().take(k) =~= ticks.take(k));
        lemma_place_ticks_none(s, ticks.drop_last(), k);
    }
}

/// The footer after the tick labels.
fn footer_exec(labels: &AxisLabels, width: u32) -> (r: Vec<char>)
    requires
        utf8_len(labels@.x_max) <= width / 2,
    ensures
        r@ == footer(labels@, width),
{
    let mut r = row_label_exec(&labels.y_min);
    r.push('\n');
    let x_min = chars_of(labels.x_min.as_str());
    let w: usize = (width / 2) as usize - labels.x_max.as_str().as_bytes().len();
    append_chars(&mut r, &x_min);
    let pad: usize = if w > x_min.len() { w - x_min.len() } else { 0 };
    let mut k: usize = 0;
    let ghost before = r@;
    while k < pad
        invariant
            k <= pad,
            r@ == before + spaces(k as int),
        decreases pad - k,
    {
        r.push(' ');
        assert(spaces(k + 1) =~= spaces(k as int).push(' '));
        k = k + 1;
    }
    assert(spaces(pad as int) =~= spaces(w - x_min@.len()));
    let x_max = chars_of(labels.x_max.as_str());
    append_chars(&mut r, &x_max);
    r.push('\n');
    assert(r@ =~= footer(labels@, width));
    r
}

/// The annotated frame, or `None` where the labels cannot be placed.
fn try_annotate(frame: &String, labels: &AxisLabels, width: u32) -> (res: Option<String>)
    ensures
        match annotated(frame@, labels@, width) {
            Some(t) => res is Some && res->0@ == t,
            Option::None => res is None,
        },
{
    let chars = chars_of(frame.as_str());
    let b = blank_braille_exec(&chars);
    let ps = newline_positions_exec(&b);
    if ps.len() == 0 {
        return Some(string_of(&b));
    }
    let first = row_label_exec(&labels.y_max);
    let s0 = insert_exec(&b, ps[0], &first);
    let ghost ticks = labels@.y_ticks;
    let ghost bf = blank_braille(frame@);
    assert(ps@[0] as int == newline_positions(b@)[0]);
    let mut cur = s0;
    let n = labels.y_ticks.len();
    let mut k: usize = 0;
    assert(ticks.take(0) =~= Seq::<Seq<char>>::empty());
    while k < n
        invariant
            n == ticks.len(),
            ticks == labels@.y_ticks,
            k <= n,
            place_ticks(s0@, ticks.take(k as int)) == Some(cur@),
            bf == blank_braille(frame@),
            newline_positions(bf).len() > 0,
            s0@ == insert_at(bf, newline_positions(bf)[0], row_label(labels@.y_max)),
        decreases n - k,
    {
        let ps = newline_positions_exec(&cur);
        assert(ticks.take(k + 1).drop_last() =~= ticks.take(k as int));
        assert(ticks.take(k + 1).last() == labels.y_ticks@[k as int]@);
        if ps.len() == 0 || (ps.len() - 1) / 3 < k + 1 {
            assert(!(3 * (k + 1) < newline_positions(cur@).len()));
            assert(place_ticks(s0@, ticks.take(k + 1)) is None);
            proof { lemma_place_ticks_none(s0@, ticks, k + 1); }
            return Option::None;
        }
        let label = row_label_exec(&labels.y_ticks[k]);
        cur = insert_exec(&cur, ps[3 * (k + 1)], &label);
        k = k + 1;
    }
    assert(ticks.take(n as int) =~= ticks);
    if labels.x_max.as_str().as_bytes().len() > (width / 2) as usize {
        return Option::None;
    }
    let foot = footer_exec(labels, width);
    append_chars(&mut cur, &foot);
    Some(string_of(&cur))
}

/// Adds the axis labels to a chart's frame: each space becomes a blank
/// braille character and, when the frame has more than one row, the labels
/// go at the ends of rows and on a last line (see `annotated`). Labels
/// that cannot be placed are a caller's error.
pub fn annotate_frame(frame: &String, labels: &AxisLabels, width: u32) -> (text: String)
    requires
        annotated(frame@, labels@, width) is Some,
    ensures
        text@ == annotated(frame@, labels@, width)->0,
{
    match try_annotate(frame, labels, width) {
        Some(t) => t,
        Option::None => String::new(),
    }
}

impl Chart {
    /// Returns the frame: the canvas rows joined by newlines. Of a chart
    /// drawn without colour, it is the braille frame of its cells; of any
    /// chart, it has as many newlines as that braille frame.
    pub fn frame(&self) -> (text: String)
        ensures
            uncoloured(self@.cells) ==> text@ == braille_frame(self@.cells, self@.canvas_size),
            newline_positions(text@).len() == newline_positions(braille_frame(self@.cells, self@.canvas_size)).len(),
    {
        proof { self.lemma_view(); }
        canvas_frame(&self.canvas)
    }

    /// The number of y labels between the highest and the lowest: one per
    /// 14 dots of height, so that labels stay some rows apart.
    pub fn y_tick_count(&self) -> (n: u32)
        ensures
            n == self@.height / 14,
    {
        proof { self.lemma_view(); }
        self.height / 14
    }

    /// The frame with its axis labels (see `annotate_frame`); `None` where
    /// the labels cannot be placed. Whether they can depends only on the
    /// frame's rows, so it is decided, for every chart, by its braille
    /// frame. Of a chart drawn without colour, the result is `annotated` of
    /// its braille frame; of any chart, a text that is returned is
    /// `annotated` of some frame with as many rows as the braille frame.
    pub fn render(&self, labels: &AxisLabels) -> (res: Option<String>)
        ensures
            uncoloured(self@.cells) ==> match annotated(braille_frame(self@.cells, self@.canvas_size), labels@, self@.width) {
                Some(t) => res is Some && res->0@ == t,
                Option::None => res is None,
            },
            res is Some <==> annotated(braille_frame(self@.cells, self@.canvas_size), labels@, self@.width) is Some,
            res matches Some(t) ==> exists|f: Seq<char>|
                newline_positions(f).len() == newline_positions(braille_frame(self@.cells, self@.canvas_size)).len()
                    && #[trigger] annotated(f, labels@, self@.width) == Some(t@),
    {
        let frame = self.frame();
        proof { self.lemma_view(); }
        let res = try_annotate(&frame, labels, self.width);
        proof {
            if res is Some {
                assert(annotated(frame@, labels@, self@.width) == Some(res->0@));
            }
            lemma_annotated_by_count(frame@, braille_frame(self@.cells, self@.canvas_size), labels@, self@.width);
        }
        res
    }
}

} // verus!
