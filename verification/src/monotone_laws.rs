//! Line count against width: a narrower layout does not have fewer lines.
use vstd::prelude::*;
use crate::layout::{
    LineModel, elem_model, fresh_state, layout_inv, layout_lines_spec, layout_run, layout_step, lemma_step_inv,
    ElemModel, LayoutState,
};
use crate::measure::sat_add;
use crate::overlong::{
    break_units, lemma_overlong_parts_nonempty, lemma_overlong_progress, overlong_parts,
    overlong_state, units_from, DEFAULT_SPACE_WIDTH, PARITY_WIDTH_SHRINK,
};
use crate::text_laws::{
    lemma_overlong_parts_text, lemma_overlong_state, lemma_sat_add_ge, lemma_unit_width_positive,
    lemma_units_concat,
};
use crate::patches::{adjustment, greedy_count, patched, rounded_px, Adjustment, PX_121, PX_191, PX_231};
use crate::laws::lemma_run_keeps_lines;
use crate::prepare::Prepared;

verus! {

/// Every segment laid out as text that is wider than `narrow` is no wider
/// than its break units together.
pub open spec fn chunks_ok(p: Prepared, narrow: u64) -> bool {
    forall|k: int|
        0 <= k < p.segments@.len() ==> (#[trigger] elem_model(p.segments@[k]) matches ElemModel::Chunk {
            text,
            width,
        } ==> (width > narrow ==> width <= units_total(text, p.space_width)))
}

/// What the line count proof keeps of a state: the last break point is the
/// next element (or there is none), and a line with width has a break point.
spec fn mono_inv(p: Prepared, st: LayoutState) -> bool {
    &&& layout_inv(p, st)
    &&& (st.brk matches Some(b) ==> b == st.i)
    &&& st.width > 0 ==> st.brk is Some
}

// ---------------------------------------------------------------- packing

/// Number of pieces a packing state will give.
spec fn pk_count(st: (Seq<(Seq<char>, u64)>, Seq<char>, u64)) -> int {
    st.0.len() + if st.2 > 0 {
        1int
    } else {
        0int
    }
}

/// Width of the last piece a packing state will give.
spec fn pk_last(st: (Seq<(Seq<char>, u64)>, Seq<char>, u64)) -> u64 {
    if st.2 > 0 {
        st.2
    } else if st.0.len() > 0 {
        st.0.last().1
    } else {
        0
    }
}

/// Packing state `a` is at least as far along as `b`: more pieces, or as many
/// with a last piece at least as wide, and closed whenever `b`'s is.
spec fn pk_ahead(
    a: (Seq<(Seq<char>, u64)>, Seq<char>, u64),
    b: (Seq<(Seq<char>, u64)>, Seq<char>, u64),
) -> bool {
    ||| pk_count(a) > pk_count(b)
    ||| (pk_count(a) == pk_count(b) && pk_last(a) >= pk_last(b) && (b.2 == 0 ==> a.2 == 0))
}

pub(crate) open spec fn units_ok(units: Seq<(Seq<char>, u64)>) -> bool {
    forall|k: int| 0 <= k < units.len() ==> #[trigger] units[k].0.len() > 0 && units[k].1 > 0
}

proof fn lemma_pack_ahead(units: Seq<(Seq<char>, u64)>, m1: u64, m2: u64, n: int)
    requires
        m1 <= m2,
        0 <= n <= units.len(),
        units_ok(units),
    ensures
        pk_ahead(overlong_state(units, m1, n), overlong_state(units, m2, n)),
    decreases n,
{
    if n > 0 {
        lemma_pack_ahead(units, m1, m2, n - 1);
        lemma_overlong_state(units, m1, n - 1);
        lemma_overlong_state(units, m2, n - 1);
        if n - 1 >= 1 {
            lemma_overlong_progress(units, m1, n - 1);
            lemma_overlong_progress(units, m2, n - 1);
        }
        assert(units[n - 1].0.len() > 0 && units[n - 1].1 > 0);
        let (u, uw) = units[n - 1];
        let (o1, b1, w1) = overlong_state(units, m1, n - 1);
        let (o2, b2, w2) = overlong_state(units, m2, n - 1);
        lemma_sat_add_ge(w1, uw);
        lemma_sat_add_ge(w2, uw);
        if o1.len() > 0 {
            lemma_sat_add_ge(o1.last().1, uw);
        }
        if o2.len() > 0 {
            lemma_sat_add_ge(o2.last().1, uw);
        }
        let s1 = overlong_state(units, m1, n);
        let s2 = overlong_state(units, m2, n);
        if pk_count(overlong_state(units, m1, n - 1)) == pk_count(overlong_state(units, m2, n - 1)) {
            let l1 = pk_last(overlong_state(units, m1, n - 1));
            let l2 = pk_last(overlong_state(units, m2, n - 1));
            lemma_sat_add_mono(l1, l2, uw);
        }
        assert(pk_ahead(s1, s2));
    }
}

/// The widths of pieces added up, stopping at `u64::MAX`.
pub open spec fn widths_total(ps: Seq<(Seq<char>, u64)>) -> u64
    decreases ps.len(),
{
    if ps.len() == 0 {
        0
    } else {
        sat_add(widths_total(ps.drop_last()), ps.last().1)
    }
}

/// The width of a run as the sum of the widths of its break units.
pub open spec fn units_total(text: Seq<char>, space_width: u64) -> u64 {
    widths_total(break_units(text, space_width))
}

proof fn lemma_sat_add_assoc(a: u64, b: u64, c: u64)
    ensures
        sat_add(sat_add(a, b), c) == sat_add(a, sat_add(b, c)),
        sat_add(a, 0) == a,
{
}

proof fn lemma_pack_total(units: Seq<(Seq<char>, u64)>, m: u64, n: int)
    requires
        0 <= n <= units.len(),
        units_ok(units),
    ensures
        sat_add(widths_total(overlong_state(units, m, n).0), overlong_state(units, m, n).2)
            == widths_total(units.take(n)),
    decreases n,
{
    if n == 0 {
        assert(units.take(0) =~= Seq::<(Seq<char>, u64)>::empty());
    } else {
        lemma_pack_total(units, m, n - 1);
        lemma_overlong_state(units, m, n - 1);
        let (out, buf, bw) = overlong_state(units, m, n - 1);
        let (u, uw) = units[n - 1];
        assert(units.take(n).drop_last() =~= units.take(n - 1));
        let t = widths_total(out);
        lemma_sat_add_assoc(t, bw, uw);
        lemma_sat_add_assoc(t, bw, 0);
        lemma_sat_add_assoc(t, 0, uw);
        let overflows = bw > 0 && bw + uw + PARITY_WIDTH_SHRINK > m;
        if overflows {
            assert(out.push((buf, bw)).drop_last() =~= out);
            lemma_sat_add_assoc(sat_add(t, bw), 0, uw);
            lemma_sat_add_assoc(sat_add(t, bw), uw, 0);
        }
        let out1 = if overflows {
            out.push((buf, bw))
        } else {
            out
        };
        let bw1: u64 = if overflows {
            0
        } else {
            bw
        };
        let t1 = widths_total(out1);
        lemma_sat_add_assoc(t1, bw1, uw);
        lemma_sat_add_assoc(t1, uw, 0);
        assert(out1.push((u, uw)).drop_last() =~= out1);
        if out1.len() > 0 {
            let last = out1.last();
            let x = (last.0 + u, sat_add(last.1, uw));
            assert(out1.update(out1.len() - 1, x).drop_last() =~= out1.drop_last());
            lemma_sat_add_assoc(widths_total(out1.drop_last()), last.1, uw);
            lemma_sat_add_assoc(sat_add(widths_total(out1.drop_last()), sat_add(last.1, uw)), 0, 0);
        }
    }
}

/// Where a chunk of width `w` lands when it starts a line: whole when it fits,
/// else cut into pieces, all but the last on lines of their own. The number of
/// lines it fills and the width of what stays on the current line.
spec fn fresh_place(text: Seq<char>, w: u64, m: u64, space_width: u64) -> (int, u64) {
    if w <= m {
        (0, w)
    } else {
        let parts = overlong_parts(text, w, m, space_width);
        (parts.len() - 1, parts.last().1)
    }
}

spec fn place_ahead(a: (int, u64), b: (int, u64)) -> bool {
    a.0 > b.0 || (a.0 == b.0 && a.1 >= b.1)
}

proof fn lemma_parts_of_state(text: Seq<char>, w: u64, m: u64, space_width: u64)
    requires
        0 < m < w,
        break_units(text, space_width).len() > 1,
    ensures
        ({
            let units = break_units(text, space_width);
            let st = overlong_state(units, m, units.len() as int);
            let parts = overlong_parts(text, w, m, space_width);
            parts.len() == pk_count(st) && parts.len() > 0 && parts.last().1 == pk_last(st)
        }),
{
    let units = break_units(text, space_width);
    lemma_break_units_ok(text, space_width);
    lemma_overlong_state(units, m, units.len() as int);
    lemma_overlong_parts_nonempty(text, w, m, space_width);
}

proof fn lemma_break_units_ok(text: Seq<char>, space_width: u64)
    ensures
        units_ok(break_units(text, space_width)),
{
    let scale = if space_width > 0 {
        space_width
    } else {
        DEFAULT_SPACE_WIDTH
    };
    let units = break_units(text, space_width);
    lemma_units_concat(text, 0, scale);
    assert forall|k: int| 0 <= k < units.len() implies #[trigger] units[k].0.len() > 0
        && units[k].1 > 0 by {
        assert(units[k].0 == units_from(text, 0)[k]);
        lemma_unit_width_positive(scale, units[k].0);
    }
}

proof fn lemma_fresh_place_mono(text: Seq<char>, w: u64, m1: u64, m2: u64, space_width: u64)
    requires
        0 < m1 <= m2,
        w > m1 ==> w <= units_total(text, space_width),
    ensures
        place_ahead(fresh_place(text, w, m1, space_width), fresh_place(text, w, m2, space_width)),
{
    let units = break_units(text, space_width);
    let f1 = fresh_place(text, w, m1, space_width);
    let f2 = fresh_place(text, w, m2, space_width);
    if w <= m1 {
    } else if units.len() <= 1 {
        assert(overlong_parts(text, w, m1, space_width) == seq![(text, w)]);
        if w > m2 {
            assert(overlong_parts(text, w, m2, space_width) == seq![(text, w)]);
        }
    } else {
        lemma_break_units_ok(text, space_width);
        lemma_parts_of_state(text, w, m1, space_width);
        let st1 = overlong_state(units, m1, units.len() as int);
        if w > m2 {
            lemma_parts_of_state(text, w, m2, space_width);
            lemma_pack_ahead(units, m1, m2, units.len() as int);
            let st2 = overlong_state(units, m2, units.len() as int);
            assert(f1 == (pk_count(st1) - 1, pk_last(st1)));
            assert(f2 == (pk_count(st2) - 1, pk_last(st2)));
        } else {
            assert(f2 == (0int, w));
            lemma_pack_total(units, m1, units.len() as int);
            lemma_overlong_state(units, m1, units.len() as int);
            assert(units.take(units.len() as int) =~= units);
            assert(f1 == (pk_count(st1) - 1, pk_last(st1)));
            if pk_count(st1) == 1 {
                if st1.2 > 0 {
                    assert(st1.0.len() == 0);
                    assert(pk_last(st1) == sat_add(widths_total(st1.0), st1.2));
                } else {
                    assert(st1.0.len() == 1);
                    assert(st1.0.drop_last() =~= Seq::<(Seq<char>, u64)>::empty());
                    assert(widths_total(st1.0.drop_last()) == 0);
                    assert(widths_total(st1.0) == sat_add(0, st1.0.last().1));
                    assert(widths_total(st1.0) == st1.0.last().1);
                }
                assert(pk_last(st1) == units_total(text, space_width));
            }
        }
    }
}

/// One element, from a state on: a chunk either fits on the line (or the line
/// is empty) or starts a new line; a break changes nothing; a hard break ends
/// the line.
spec fn macro_step(p: Prepared, max_width: u64, st: LayoutState) -> LayoutState {
    let s1 = layout_step(p, max_width, st);
    if s1.i == st.i {
        layout_step(p, max_width, s1)
    } else {
        s1
    }
}

pub(crate) proof fn lemma_pack_texts(units: Seq<(Seq<char>, u64)>, m: u64, n: int)
    requires
        0 <= n <= units.len(),
        units_ok(units),
    ensures
        forall|k: int|
            0 <= k < overlong_state(units, m, n).0.len() ==> #[trigger] overlong_state(
                units,
                m,
                n,
            ).0[k].0.len() > 0,
    decreases n,
{
    if n > 0 {
        lemma_pack_texts(units, m, n - 1);
        lemma_overlong_state(units, m, n - 1);
        let (out, buf, bw) = overlong_state(units, m, n - 1);
        let (u, uw) = units[n - 1];
        assert(u.len() > 0);
        let out2 = overlong_state(units, m, n).0;
        assert forall|k: int| 0 <= k < out2.len() implies #[trigger] out2[k].0.len() > 0 by {
            if k < out.len() {
                assert(out2[k].0.len() >= out[k].0.len());
            }
        }
    }
}

/// The last piece of a cut run has text and a positive width.
pub(crate) proof fn lemma_last_part(text: Seq<char>, w: u64, m: u64, space_width: u64)
    requires
        text.len() > 0,
        w > 0,
    ensures
        overlong_parts(text, w, m, space_width).len() > 0,
        overlong_parts(text, w, m, space_width).last().0.len() > 0,
        overlong_parts(text, w, m, space_width).last().1 > 0,
{
    lemma_overlong_parts_nonempty(text, w, m, space_width);
    lemma_overlong_parts_text(text, w, m, space_width);
    let parts = overlong_parts(text, w, m, space_width);
    assert(parts.last().1 > 0);
    let units = break_units(text, space_width);
    if !(m == 0 || w <= m || units.len() <= 1) {
        lemma_break_units_ok(text, space_width);
        lemma_pack_texts(units, m, units.len() as int);
        lemma_overlong_state(units, m, units.len() as int);
    }
}

proof fn lemma_macro_step(p: Prepared, max_width: u64, st: LayoutState)
    requires
        mono_inv(p, st),
        st.i < p.segments@.len(),
        chunks_ok(p, max_width),
    ensures
        ({
            let t = macro_step(p, max_width, st);
            &&& mono_inv(p, t)
            &&& t.i == st.i + 1
            &&& layout_run(p, max_width, st) == layout_run(p, max_width, t)
            &&& match elem_model(p.segments@[st.i]) {
                ElemModel::Chunk { text, width } => {
                    let f = fresh_place(text, width, max_width, p.space_width);
                    if st.width == 0 {
                        t.lines.len() == st.lines.len() + f.0 && t.width == f.1
                    } else if st.width + width + PARITY_WIDTH_SHRINK <= max_width {
                        t.lines.len() == st.lines.len() && t.width == sat_add(st.width, width)
                    } else {
                        t.lines.len() == st.lines.len() + 1 + f.0 && t.width == f.1
                    }
                },
                ElemModel::Break { .. } => t.lines.len() == st.lines.len() && t.width == st.width,
                ElemModel::HardBreak => t.lines.len() == st.lines.len() + 1 && t.width == 0,
            }
            &&& match elem_model(p.segments@[st.i]) {
                ElemModel::Chunk { text, width } => if st.width == 0 || st.width + width
                    + PARITY_WIDTH_SHRINK <= max_width {
                    (t.text.len() > 0) == (st.text.len() > 0 || text.len() > 0)
                } else {
                    (t.text.len() > 0) == (text.len() > 0)
                },
                ElemModel::Break { .. } => t.text == st.text,
                ElemModel::HardBreak => t.text.len() == 0,
            }
        }),
{
    lemma_step_inv(p, max_width, st);
    let s1 = layout_step(p, max_width, st);
    let i = st.i;
    assert(layout_run(p, max_width, st) == layout_run(p, max_width, s1));
    match elem_model(p.segments@[i]) {
        ElemModel::Chunk { text, width } => {
            lemma_sat_add_ge(st.width, width);
            if width > max_width {
                lemma_last_part_text(text, width, max_width, p.space_width);
            }
            let parts = overlong_parts(text, width, max_width, p.space_width);
            if st.width == 0 {
                assert(s1.i == i + 1);
                if width > max_width {
                    assert(s1.text =~= st.text + parts.last().0);
                } else {
                    assert(s1.text =~= st.text + text);
                }
            } else if st.width + width + PARITY_WIDTH_SHRINK <= max_width {
                assert(s1.i == i + 1);
                assert(s1.text == st.text + text);
            } else {
                assert(st.brk is Some);
                assert(s1.i == i);
                lemma_step_inv(p, max_width, s1);
                let s2 = layout_step(p, max_width, s1);
                assert(layout_run(p, max_width, s1) == layout_run(p, max_width, s2));
                if width > max_width {
                    assert(s2.text =~= parts.last().0);
                } else {
                    assert(s2.text =~= text);
                }
            }
        },
        _ => {},
    }
}

/// `a` is at least as far along as `b`: more lines, or as many and a line at
/// least as wide, with text whenever `b`'s has text.
spec fn ahead(a: LayoutState, b: LayoutState) -> bool {
    ||| a.lines.len() > b.lines.len()
    ||| (a.lines.len() == b.lines.len() && a.width >= b.width && (b.text.len() > 0 ==> a.text.len()
        > 0))
}

/// The last piece of a cut run has text exactly when the run has.
proof fn lemma_last_part_text(text: Seq<char>, w: u64, m: u64, space_width: u64)
    requires
        w > m,
    ensures
        overlong_parts(text, w, m, space_width).len() > 0,
        (overlong_parts(text, w, m, space_width).last().0.len() > 0) == (text.len() > 0),
{
    lemma_overlong_parts_nonempty(text, w, m, space_width);
    if text.len() > 0 {
        lemma_last_part(text, w, m, space_width);
    } else {
        assert(units_from(text, 0) =~= Seq::<Seq<char>>::empty());
        assert(break_units(text, space_width).len() == 0);
    }
}

proof fn lemma_sat_add_mono(a: u64, b: u64, w: u64)
    requires
        a >= b,
    ensures
        sat_add(a, w) >= sat_add(b, w),
        sat_add(a, w) >= w,
{
}

proof fn lemma_two_widths(
    p: Prepared,
    narrow: u64,
    wide: u64,
    s1: LayoutState,
    s2: LayoutState,
)
    requires
        0 < narrow <= wide,
        chunks_ok(p, narrow),
        mono_inv(p, s1),
        mono_inv(p, s2),
        s1.i == s2.i,
        ahead(s1, s2),
    ensures
        layout_run(p, narrow, s1).len() >= layout_run(p, wide, s2).len(),
    decreases p.segments@.len() - s1.i,
{
    let n = p.segments@.len();
    assert(chunks_ok(p, wide)) by {
        assert forall|k: int| 0 <= k < n implies (#[trigger] elem_model(
            p.segments@[k],
        ) matches ElemModel::Chunk { text, width } ==> (width > wide ==> width <= units_total(
            text,
            p.space_width,
        ))) by {
            assert(elem_model(p.segments@[k]) matches ElemModel::Chunk { text, width } ==> (width
                > narrow ==> width <= units_total(text, p.space_width)));
        }
    }
    if s1.i < n {
        lemma_macro_step(p, narrow, s1);
        lemma_macro_step(p, wide, s2);
        let t1 = macro_step(p, narrow, s1);
        let t2 = macro_step(p, wide, s2);
        match elem_model(p.segments@[s1.i]) {
            ElemModel::Chunk { text, width } => {
                assert(width > narrow ==> width <= units_total(text, p.space_width));
                lemma_fresh_place_mono(text, width, narrow, wide, p.space_width);
                if s1.width >= s2.width {
                    lemma_sat_add_mono(s1.width, s2.width, width);
                }
                lemma_sat_add_mono(s1.width, s1.width, width);
            },
            _ => {},
        }
        assert(ahead(t1, t2));
        lemma_two_widths(p, narrow, wide, t1, t2);
    }
}

/// How many lines the adjustment chosen for `n` lines is meant to leave: one
/// more for a split or an added line, one fewer for a join.
pub open spec fn adjusted_count(p: Prepared, max_width: u64, n: int) -> int {
    match adjustment(p, max_width, n) {
        Adjustment::Keep => n,
        Adjustment::Split => n + 1,
        Adjustment::Join => n - 1,
        Adjustment::AddEmpty => n + 1,
    }
}

/// The split chosen at this width, if any, meets a last line of at least two
/// characters, so that it does add a line.
pub open spec fn split_adds_a_line(p: Prepared, max_width: u64) -> bool {
    let g = layout_run(p, max_width, fresh_state(0, Seq::empty()));
    adjustment(p, max_width, g.len() as int) is Split ==> g.last().text.len() > 1
}

/// The adjustments give at most the lines they are meant to, and exactly that
/// many unless a split meets a last line of one character.
proof fn lemma_patched_count(p: Prepared, max_width: u64, lines: Seq<LineModel>)
    requires
        p.segments@.len() > 0,
        lines.len() > 0,
    ensures
        patched(p, max_width, lines).len() <= adjusted_count(p, max_width, lines.len() as int),
        (adjustment(p, max_width, lines.len() as int) is Split ==> lines.last().text.len() > 1)
            ==> patched(p, max_width, lines).len() == adjusted_count(p, max_width, lines.len() as int),
{
    let st0 = fresh_state(0, Seq::empty());
    lemma_run_keeps_lines(p, PX_231, st0);
    lemma_run_keeps_lines(p, 17001, st0);
}

/// Whether the line breaker's count `g` at `w` sits on the right side of its
/// count at a reference width `r`, as the line count falling with width demands.
spec fn ref_ok(p: Prepared, narrow: u64, w: u64, g: int, r: u64) -> bool {
    &&& w <= r ==> g >= greedy_count(p, r)
    &&& (narrow <= r && r <= w) ==> g <= greedy_count(p, r)
}

spec fn refs_ok(p: Prepared, narrow: u64, w: u64, g: int) -> bool {
    &&& ref_ok(p, narrow, w, g, PX_121)
    &&& ref_ok(p, narrow, w, g, 15001)
    &&& ref_ok(p, narrow, w, g, 17001)
    &&& ref_ok(p, narrow, w, g, PX_191)
    &&& ref_ok(p, narrow, w, g, PX_231)
    &&& ref_ok(p, narrow, w, g, 24001)
}

proof fn lemma_rounded_px(w: u64)
    ensures
        rounded_px(w) <= 80 <==> w < 8050,
        rounded_px(w) <= 90 <==> w < 9050,
        rounded_px(w) <= 120 <==> w < PX_121,
        rounded_px(w) < 140 <==> w < 13950,
        rounded_px(w) <= 190 <==> w < PX_191,
        rounded_px(w) < 210 <==> w < 20950,
        rounded_px(w) <= 230 <==> w < PX_231,
{
}

/// The count the adjustments are meant to give does not grow with the width.
proof fn lemma_adjusted_count_mono(p: Prepared, narrow: u64, wide: u64, g1: int, g2: int)
    requires
        narrow <= wide,
        g1 >= g2 >= 1,
        refs_ok(p, narrow, narrow, g1),
        refs_ok(p, narrow, wide, g2),
    ensures
        adjusted_count(p, narrow, g1) >= adjusted_count(p, wide, g2),
{
    lemma_rounded_px(narrow);
    lemma_rounded_px(wide);
}

/// Narrowing never reduces the line count. This holds when the narrower width
/// is not zero, every segment laid out as text that is wider than the narrower
/// width is no wider than its break units together, and a split made at the
/// narrower width meets a last line of at least two characters.
pub proof fn law_narrower_never_fewer_lines(p: Prepared, narrow: u64, wide: u64)
    requires
        0 < narrow <= wide,
        chunks_ok(p, narrow),
        split_adds_a_line(p, narrow),
    ensures
        layout_lines_spec(p, narrow).len() >= layout_lines_spec(p, wide).len(),
{
    if p.segments@.len() > 0 {
        let st0 = fresh_state(0, Seq::empty());
        lemma_two_widths(p, narrow, wide, st0, st0);
        let g1 = layout_run(p, narrow, st0);
        let g2 = layout_run(p, wide, st0);
        lemma_run_keeps_lines(p, wide, st0);
        lemma_ref(p, narrow, narrow, PX_121);
        lemma_ref(p, narrow, narrow, 15001);
        lemma_ref(p, narrow, narrow, 17001);
        lemma_ref(p, narrow, narrow, PX_191);
        lemma_ref(p, narrow, narrow, PX_231);
        lemma_ref(p, narrow, narrow, 24001);
        lemma_ref(p, narrow, wide, PX_121);
        lemma_ref(p, narrow, wide, 15001);
        lemma_ref(p, narrow, wide, 17001);
        lemma_ref(p, narrow, wide, PX_191);
        lemma_ref(p, narrow, wide, PX_231);
        lemma_ref(p, narrow, wide, 24001);
        lemma_patched_count(p, narrow, g1);
        lemma_patched_count(p, wide, g2);
        lemma_adjusted_count_mono(p, narrow, wide, g1.len() as int, g2.len() as int);
    }
}

proof fn lemma_ref(p: Prepared, narrow: u64, w: u64, r: u64)
    requires
        0 < narrow <= w,
        r > 0,
        chunks_ok(p, narrow),
        p.segments@.len() > 0,
    ensures
        ref_ok(p, narrow, w, greedy_count(p, w), r),
{
    let st0 = fresh_state(0, Seq::empty());
    lemma_chunks_ok_wider(p, narrow, w);
    if w <= r {
        lemma_two_widths(p, w, r, st0, st0);
    }
    if narrow <= r && r <= w {
        lemma_chunks_ok_wider(p, narrow, r);
        lemma_two_widths(p, r, w, st0, st0);
    }
}

proof fn lemma_chunks_ok_wider(p: Prepared, narrow: u64, w: u64)
    requires
        chunks_ok(p, narrow),
        narrow <= w,
    ensures
        chunks_ok(p, w),
{
    assert forall|k: int| 0 <= k < p.segments@.len() implies (#[trigger] elem_model(
        p.segments@[k],
    ) matches ElemModel::Chunk { text, width } ==> (width > w ==> width <= units_total(
        text,
        p.space_width,
    ))) by {
        assert(elem_model(p.segments@[k]) matches ElemModel::Chunk { text, width } ==> (width
            > narrow ==> width <= units_total(text, p.space_width)));
    }
}

} // verus!
