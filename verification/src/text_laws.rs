//! Laying out never loses, repeats or reorders text.
use vstd::prelude::*;
use crate::measure::{sat_add, unit_char_width, unit_factor, unit_width};
use crate::overlong::{
    break_units, is_attached_mark, letters_end, lemma_unit_end, marks_end,
    overlong_parts, overlong_state, unit_end, units_from, DEFAULT_SPACE_WIDTH,
    lemma_overlong_parts_nonempty, PARITY_WIDTH_SHRINK, lemma_overlong_progress,
};
use crate::monotone_laws::lemma_pack_texts;
use crate::layout::{
    elem_model, fresh_state, layout_inv, layout_lines_spec, layout_run, layout_step, lemma_step_inv,
    line_model, overlong_lines, ElemModel, LayoutState, LineModel,
};
use crate::patches::{append_empty, has_kind, merge_last_two, patched, split_last};
use crate::prepare::{Prepared, SegmentKind};
use crate::text::{is_ascii_letter, is_forbidden_line_start};

verus! {

/// The texts of a list of pieces with widths, one after the other.
pub open spec fn concat_pairs(ps: Seq<(Seq<char>, u64)>) -> Seq<char>
    decreases ps.len(),
{
    if ps.len() == 0 {
        Seq::empty()
    } else {
        concat_pairs(ps.drop_last()) + ps.last().0
    }
}

proof fn lemma_concat_pairs_push(ps: Seq<(Seq<char>, u64)>, x: (Seq<char>, u64))
    ensures
        concat_pairs(ps.push(x)) == concat_pairs(ps) + x.0,
{
    assert(ps.push(x).drop_last() =~= ps);
}

proof fn lemma_concat_pairs_append(a: Seq<(Seq<char>, u64)>, b: Seq<(Seq<char>, u64)>)
    ensures
        concat_pairs(a + b) == concat_pairs(a) + concat_pairs(b),
    decreases b.len(),
{
    if b.len() == 0 {
        assert(a + b =~= a);
        assert(concat_pairs(a) + Seq::<char>::empty() =~= concat_pairs(a));
    } else {
        lemma_concat_pairs_append(a, b.drop_last());
        assert((a + b).drop_last() =~= a + b.drop_last());
        assert(concat_pairs(a) + concat_pairs(b.drop_last()) + b.last().0 =~= concat_pairs(a) + (
        concat_pairs(b.drop_last()) + b.last().0));
    }
}

proof fn lemma_concat_pairs_update_last(ps: Seq<(Seq<char>, u64)>, x: (Seq<char>, u64))
    requires
        ps.len() > 0,
    ensures
        concat_pairs(ps.update(ps.len() - 1, x)) == concat_pairs(ps.drop_last()) + x.0,
        concat_pairs(ps) == concat_pairs(ps.drop_last()) + ps.last().0,
{
    assert(ps.update(ps.len() - 1, x).drop_last() =~= ps.drop_last());
}

/// The units of a text spell the text.
pub proof fn lemma_units_concat(s: Seq<char>, start: int, scale: u64)
    requires
        0 <= start <= s.len(),
    ensures
        concat_pairs(units_from(s, start).map_values(|u: Seq<char>| (u, unit_width(scale, u))))
            == s.skip(start),
        forall|k: int|
            0 <= k < units_from(s, start).len() ==> #[trigger] units_from(s, start)[k].len() > 0,
    decreases s.len() - start,
{
    let f = |u: Seq<char>| (u, unit_width(scale, u));
    if start >= s.len() {
        assert(units_from(s, start).map_values(f) =~= Seq::<(Seq<char>, u64)>::empty());
        assert(s.skip(start) =~= Seq::<char>::empty());
    } else {
        lemma_unit_end(s, start);
        let e = unit_end(s, start);
        lemma_units_concat(s, e, scale);
        let head = s.subrange(start, e);
        let rest = units_from(s, e);
        assert(units_from(s, start) == seq![head] + rest);
        assert(units_from(s, start).map_values(f) =~= seq![(head, unit_width(scale, head))]
            + rest.map_values(f));
        lemma_concat_pairs_append(seq![(head, unit_width(scale, head))], rest.map_values(f));
        lemma_concat_pairs_push(Seq::empty(), (head, unit_width(scale, head)));
        assert(seq![(head, unit_width(scale, head))] =~= Seq::<(Seq<char>, u64)>::empty().push(
            (head, unit_width(scale, head)),
        ));
        assert(Seq::<char>::empty() + head =~= head);
        assert(s.skip(start) =~= head + s.skip(e));
        let us = units_from(s, start);
        assert forall|k: int| 0 <= k < us.len() implies #[trigger] us[k].len() > 0 by {
            if k > 0 {
                assert(us[k] == rest[k - 1]);
            }
        }
    }
}

pub proof fn lemma_sat_add_ge(a: u64, b: u64)
    ensures
        sat_add(a, b) >= a,
        sat_add(a, b) >= b,
{
}

/// Every unit has a positive width: a space is at least one unit wide.
pub proof fn lemma_unit_width_positive(scale: u64, u: Seq<char>)
    requires
        scale > 0,
        u.len() > 0,
    ensures
        unit_width(scale, u) > 0,
{
    let c = u.last();
    assert(unit_factor(c) >= 33);
    assert(scale * unit_factor(c) >= 33) by (nonlinear_arith)
        requires
            scale >= 1,
            unit_factor(c) >= 33,
    ;
    assert(unit_char_width(scale, c) >= 1);
    lemma_sat_add_ge(unit_width(scale, u.drop_last()), unit_char_width(scale, c));
}

pub proof fn lemma_overlong_state(units: Seq<(Seq<char>, u64)>, max_width: u64, n: int)
    requires
        0 <= n <= units.len(),
        forall|k: int| 0 <= k < units.len() ==> #[trigger] units[k].0.len() > 0 && units[k].1 > 0,
    ensures
        ({
            let (out, buf, bw) = overlong_state(units, max_width, n);
            &&& concat_pairs(out) + buf == concat_pairs(units.take(n))
            &&& (bw == 0) == (buf.len() == 0)
            &&& forall|k: int| 0 <= k < out.len() ==> #[trigger] out[k].1 > 0
        }),
    decreases n,
{
    if n == 0 {
        assert(units.take(0) =~= Seq::<(Seq<char>, u64)>::empty());
        assert(concat_pairs(Seq::<(Seq<char>, u64)>::empty()) + Seq::<char>::empty()
            =~= Seq::<char>::empty());
    } else {
        lemma_overlong_state(units, max_width, n - 1);
        let (out, buf, bw) = overlong_state(units, max_width, n - 1);
        let (u, uw) = units[n - 1];
        assert(units.take(n) =~= units.take(n - 1).push((u, uw)));
        lemma_concat_pairs_push(units.take(n - 1), (u, uw));
        let overflows = bw > 0 && bw + uw + 50 > max_width;
        let out1 = if overflows {
            out.push((buf, bw))
        } else {
            out
        };
        let buf1 = if overflows {
            Seq::<char>::empty()
        } else {
            buf
        };
        let bw1: u64 = if overflows {
            0
        } else {
            bw
        };
        if overflows {
            lemma_concat_pairs_push(out, (buf, bw));
            assert(concat_pairs(out1) + buf1 =~= concat_pairs(out) + buf);
        }
        assert(concat_pairs(out1) + buf1 == concat_pairs(units.take(n - 1)));
        assert forall|k: int| 0 <= k < out1.len() implies #[trigger] out1[k].1 > 0 by {
            if k < out.len() {
                assert(out1[k] == out[k]);
            }
        }
        assert(units[n - 1].0.len() > 0 && units[n - 1].1 > 0);
        if bw1 == 0 && uw > max_width {
            lemma_concat_pairs_push(out1, (u, uw));
            assert(buf1.len() == 0);
            assert(concat_pairs(out1) + buf1 =~= concat_pairs(out1));
            assert(concat_pairs(out1.push((u, uw))) + buf1 =~= concat_pairs(out1) + u);
            let out2 = out1.push((u, uw));
            assert forall|k: int| 0 <= k < out2.len() implies #[trigger] out2[k].1 > 0 by {
                if k < out1.len() {
                    assert(out2[k] == out1[k]);
                }
            }
        } else if n - 1 > 0 && bw1 == 0 && u.len() > 0 && is_forbidden_line_start(u[0])
            && out1.len() > 0 {
            let last = out1.last();
            let x = (last.0 + u, sat_add(last.1, uw));
            lemma_concat_pairs_update_last(out1, x);
            assert(buf1.len() == 0);
            assert(concat_pairs(out1) + buf1 =~= concat_pairs(out1));
            assert(concat_pairs(out1.drop_last()) + (last.0 + u) =~= concat_pairs(out1.drop_last())
                + last.0 + u);
            lemma_sat_add_ge(last.1, uw);
            let out2 = out1.update(out1.len() - 1, x);
            assert forall|k: int| 0 <= k < out2.len() implies #[trigger] out2[k].1 > 0 by {
                if k < out1.len() - 1 {
                    assert(out2[k] == out1[k]);
                }
            }
        } else {
            lemma_sat_add_ge(bw1, uw);
            assert(concat_pairs(out1) + (buf1 + u) =~= concat_pairs(out1) + buf1 + u);
        }
    }
}

/// The pieces of an overlong run spell the run, and each has a positive width
/// when the run has.
pub proof fn lemma_overlong_parts_text(text: Seq<char>, width: u64, max_width: u64, space_width: u64)
    ensures
        concat_pairs(overlong_parts(text, width, max_width, space_width)) == text,
        width > 0 ==> forall|k: int|
            0 <= k < overlong_parts(text, width, max_width, space_width).len() ==> #[trigger] overlong_parts(
                text,
                width,
                max_width,
                space_width,
            )[k].1 > 0,
{
    let parts = overlong_parts(text, width, max_width, space_width);
    if max_width == 0 || width <= max_width || break_units(text, space_width).len() <= 1 {
        lemma_concat_pairs_push(Seq::empty(), (text, width));
        assert(seq![(text, width)] =~= Seq::<(Seq<char>, u64)>::empty().push((text, width)));
        assert(Seq::<char>::empty() + text =~= text);
    } else {
        let scale = if space_width > 0 {
            space_width
        } else {
            DEFAULT_SPACE_WIDTH
        };
        let units = break_units(text, space_width);
        lemma_units_concat(text, 0, scale);
        assert(text.skip(0) =~= text);
        assert forall|k: int| 0 <= k < units.len() implies #[trigger] units[k].0.len() > 0
            && units[k].1 > 0 by {
            assert(units[k].0 == units_from(text, 0)[k]);
            lemma_unit_width_positive(scale, units[k].0);
        }
        lemma_overlong_state(units, max_width, units.len() as int);
        assert(units.take(units.len() as int) =~= units);
        let (out, buf, bw) = overlong_state(units, max_width, units.len() as int);
        if buf.len() > 0 {
            lemma_concat_pairs_push(out, (buf, bw));
            assert forall|k: int| 0 <= k < out.push((buf, bw)).len() implies #[trigger] out.push(
                (buf, bw),
            )[k].1 > 0 by {
                if k < out.len() {
                    assert(out.push((buf, bw))[k] == out[k]);
                }
            }
        } else {
            assert(concat_pairs(out) + buf =~= concat_pairs(out));
        }
    }
}

// ---------------------------------------------------------------- layout

/// Texts of the first `n` segments that are laid out as text (not breaks).
pub open spec fn chunk_text(p: Prepared, n: int) -> Seq<char>
    decreases n,
{
    if n <= 0 {
        Seq::empty()
    } else {
        chunk_text(p, n - 1) + match elem_model(p.segments@[n - 1]) {
            ElemModel::Chunk { text, .. } => text,
            _ => Seq::empty(),
        }
    }
}

/// The texts of lines, one after the other.
pub open spec fn lines_text(ls: Seq<LineModel>) -> Seq<char>
    decreases ls.len(),
{
    if ls.len() == 0 {
        Seq::empty()
    } else {
        lines_text(ls.drop_last()) + ls.last().text
    }
}

proof fn lemma_lines_text_push(ls: Seq<LineModel>, x: LineModel)
    ensures
        lines_text(ls.push(x)) == lines_text(ls) + x.text,
{
    assert(ls.push(x).drop_last() =~= ls);
}

proof fn lemma_lines_text_append(a: Seq<LineModel>, b: Seq<LineModel>)
    ensures
        lines_text(a + b) == lines_text(a) + lines_text(b),
    decreases b.len(),
{
    if b.len() == 0 {
        assert(a + b =~= a);
        assert(lines_text(a) + Seq::<char>::empty() =~= lines_text(a));
    } else {
        lemma_lines_text_append(a, b.drop_last());
        assert((a + b).drop_last() =~= a + b.drop_last());
        assert(lines_text(a) + lines_text(b.drop_last()) + b.last().text =~= lines_text(a) + (
        lines_text(b.drop_last()) + b.last().text));
    }
}

/// Segments that are laid out as text have a positive width.
pub open spec fn chunks_have_width(p: Prepared) -> bool {
    forall|k: int|
        0 <= k < p.segments@.len() ==> (#[trigger] elem_model(p.segments@[k]) matches ElemModel::Chunk {
            width,
            ..
        } ==> width > 0)
}

spec fn text_inv(p: Prepared, st: LayoutState) -> bool {
    &&& layout_inv(p, st)
    &&& lines_text(st.lines) + st.text == chunk_text(p, st.i)
    &&& st.brk matches Some(b) ==> lines_text(st.lines) + st.text.take(st.brk_len) == chunk_text(
        p,
        b,
    )
    &&& !st.brk_hyphen
    &&& st.width == 0 ==> st.text.len() == 0
}

proof fn lemma_overlong_lines_text(parts: Seq<(Seq<char>, u64)>, ls: int, i: int, n: int)
    requires
        1 <= parts.len(),
        0 <= n <= parts.len() - 1,
    ensures
        lines_text(overlong_lines(parts, ls, i).take(n)) == concat_pairs(parts.take(n)),
    decreases n,
{
    if n == 0 {
        assert(overlong_lines(parts, ls, i).take(0) =~= Seq::<LineModel>::empty());
        assert(parts.take(0) =~= Seq::<(Seq<char>, u64)>::empty());
    } else {
        lemma_overlong_lines_text(parts, ls, i, n - 1);
        let ol = overlong_lines(parts, ls, i);
        assert(ol.take(n) =~= ol.take(n - 1).push(ol[n - 1]));
        assert(parts.take(n) =~= parts.take(n - 1).push(parts[n - 1]));
        lemma_lines_text_push(ol.take(n - 1), ol[n - 1]);
        lemma_concat_pairs_push(parts.take(n - 1), parts[n - 1]);
    }
}

proof fn lemma_step_text(p: Prepared, max_width: u64, st: LayoutState)
    requires
        text_inv(p, st),
        st.i < p.segments@.len(),
        chunks_have_width(p),
        !has_kind(p.segments@, SegmentKind::SoftHyphen),
    ensures
        text_inv(p, layout_step(p, max_width, st)),
{
    lemma_step_inv(p, max_width, st);
    let st2 = layout_step(p, max_width, st);
    let i = st.i;
    let seg = p.segments@[i];
    assert(chunk_text(p, i + 1) == chunk_text(p, i) + match elem_model(seg) {
        ElemModel::Chunk { text, .. } => text,
        _ => Seq::<char>::empty(),
    });
    let lt = lines_text(st.lines);
    match elem_model(seg) {
        ElemModel::HardBreak => {
            lemma_lines_text_push(st.lines, line_model(st.text, st.width, st.line_start, st.i));
            assert(chunk_text(p, i) + Seq::<char>::empty() =~= chunk_text(p, i));
            assert(lines_text(st2.lines) + Seq::<char>::empty() =~= lines_text(st2.lines));
        },
        ElemModel::Break { soft_hyphen } => {
            if soft_hyphen {
                assert(p.segments@[i].kind == SegmentKind::SoftHyphen);
                assert(has_kind(p.segments@, SegmentKind::SoftHyphen));
            }
            assert(chunk_text(p, i) + Seq::<char>::empty() =~= chunk_text(p, i));
            assert(st.text.take(st.text.len() as int) =~= st.text);
        },
        ElemModel::Chunk { text, width } => {
            assert(width > 0);
            if st.width == 0 && width > max_width {
                let parts = overlong_parts(text, width, max_width, p.space_width);
                let k = parts.len() as int;
                lemma_overlong_parts_nonempty(text, width, max_width, p.space_width);
                lemma_overlong_parts_text(text, width, max_width, p.space_width);
                let ol = overlong_lines(parts, st.line_start, st.i);
                lemma_overlong_lines_text(parts, st.line_start, st.i, k - 1);
                assert(ol.take(k - 1) =~= ol);
                lemma_lines_text_append(st.lines, ol);
                assert(parts =~= parts.take(k - 1).push(parts[k - 1]));
                lemma_concat_pairs_push(parts.take(k - 1), parts[k - 1]);
                assert(st.text.len() == 0);
                let t2 = st.text + parts[k - 1].0;
                assert(t2 =~= parts[k - 1].0);
                assert(lines_text(st2.lines) + st2.text =~= lt + concat_pairs(parts.take(k - 1))
                    + parts[k - 1].0);
                assert(lines_text(st2.lines) + st2.text =~= lt + st.text + text);
                assert(st2.text.take(st2.brk_len) =~= st2.text);
                lemma_sat_add_ge(st.width, parts[k - 1].1);
            } else if st.width > 0 && st.width + width + PARITY_WIDTH_SHRINK > max_width {
                match st.brk {
                    Some(b) => {
                        let t = st.text.take(st.brk_len);
                        lemma_lines_text_push(st.lines, st2.lines.last());
                        assert(st2.lines =~= st.lines.push(st2.lines.last()));
                        assert(st2.lines.last().text == t);
                        assert(lines_text(st2.lines) + Seq::<char>::empty() =~= lines_text(st2.lines));
                    },
                    None => {
                        let l = line_model(st.text, st.width, st.line_start, st.i);
                        lemma_lines_text_push(st.lines, l);
                        assert(Seq::<char>::empty() + text =~= text);
                        assert(lines_text(st2.lines) + st2.text =~= lt + st.text + text);
                        assert(st2.text.take(st2.brk_len) =~= st2.text);
                        lemma_sat_add_ge(0, width);
                    },
                }
            } else {
                assert(lt + (st.text + text) =~= lt + st.text + text);
                assert(st2.text.take(st2.brk_len) =~= st2.text);
                lemma_sat_add_ge(st.width, width);
            }
        },
    }
}

proof fn lemma_run_text(p: Prepared, max_width: u64, st: LayoutState)
    requires
        text_inv(p, st),
        chunks_have_width(p),
        !has_kind(p.segments@, SegmentKind::SoftHyphen),
    ensures
        lines_text(layout_run(p, max_width, st)) == chunk_text(p, p.segments@.len() as int),
    decreases p.segments@.len() - st.line_start, p.segments@.len() - st.i,
{
    if st.i < p.segments@.len() {
        lemma_step_inv(p, max_width, st);
        lemma_step_text(p, max_width, st);
        lemma_run_text(p, max_width, layout_step(p, max_width, st));
    } else {
        let l = line_model(st.text, st.width, st.line_start, p.segments@.len() as int);
        lemma_lines_text_push(st.lines, l);
        if !(st.text.len() > 0 || st.lines.len() == 0) {
            assert(lines_text(st.lines) + st.text =~= lines_text(st.lines));
        }
    }
}

proof fn lemma_patched_text(p: Prepared, max_width: u64, lines: Seq<LineModel>)
    ensures
        lines_text(patched(p, max_width, lines)) == lines_text(lines),
{
    lemma_split_last_text(lines);
    lemma_merge_last_two_text(lines);
    lemma_append_empty_text(lines);
}

/// The width-specific adjustment changes only the last two lines: it keeps
/// the lines' text, adds or removes at most one line, and leaves at least one.
pub proof fn law_adjustment_touches_only_the_last_two_lines(
    p: Prepared,
    max_width: u64,
    lines: Seq<LineModel>,
)
    requires
        lines.len() > 0,
    ensures
        lines_text(patched(p, max_width, lines)) == lines_text(lines),
        patched(p, max_width, lines).len() >= 1,
        lines.len() - 1 <= patched(p, max_width, lines).len() <= lines.len() + 1,
        forall|k: int|
            0 <= k < lines.len() - 2 ==> #[trigger] patched(p, max_width, lines)[k] == lines[k],
{
    lemma_patched_text(p, max_width, lines);
}

proof fn lemma_split_last_text(lines: Seq<LineModel>)
    ensures
        lines_text(split_last(lines)) == lines_text(lines),
{
    if lines.len() > 0 && lines.last().text.len() > 1 {
        let last = lines.last();
        let n = last.text.len() as int;
        let mid = n / 2;
        let w1 = (last.width * mid / n) as u64;
        let a = line_model(last.text.take(mid), w1, last.start, last.end);
        let b = line_model(last.text.skip(mid), (last.width - w1) as u64, last.start, last.end);
        lemma_lines_text_push(lines.drop_last(), a);
        lemma_lines_text_push(lines.drop_last().push(a), b);
        assert(last.text =~= last.text.take(mid) + last.text.skip(mid));
        assert(lines_text(lines.drop_last()) + a.text + b.text =~= lines_text(lines.drop_last())
            + last.text);
    }
}

proof fn lemma_merge_last_two_text(lines: Seq<LineModel>)
    ensures
        lines_text(merge_last_two(lines)) == lines_text(lines),
{
    if lines.len() >= 2 {
        let n = lines.len() as int;
        let a = lines[n - 2];
        let b = lines.last();
        let rest = lines.take(n - 2);
        let m = line_model(a.text + b.text, sat_add(a.width, b.width), a.start, b.end);
        lemma_lines_text_push(rest, m);
        assert(lines.drop_last() =~= rest.push(a));
        lemma_lines_text_push(rest, a);
        assert(lines =~= lines.drop_last().push(b));
        lemma_lines_text_push(lines.drop_last(), b);
        assert(lines_text(rest) + (a.text + b.text) =~= lines_text(rest) + a.text + b.text);
    }
}

proof fn lemma_append_empty_text(lines: Seq<LineModel>)
    ensures
        lines_text(append_empty(lines)) == lines_text(lines),
{
    let at = if lines.len() > 0 {
        lines.last().end
    } else {
        0
    };
    lemma_lines_text_push(lines, line_model(Seq::empty(), 0, at, at));
    assert(lines_text(lines) + Seq::<char>::empty() =~= lines_text(lines));
}

/// Layout keeps the text: read one after the other, the lines spell the texts
/// of all non-break segments in order, with nothing lost, repeated or moved.
/// This holds when every such segment has a positive width and there are no
/// soft hyphens (a line broken at a soft hyphen shows an added `-`).
pub proof fn law_layout_keeps_text(p: Prepared, max_width: u64)
    requires
        chunks_have_width(p),
        !has_kind(p.segments@, SegmentKind::SoftHyphen),
    ensures
        lines_text(layout_lines_spec(p, max_width)) == chunk_text(p, p.segments@.len() as int),
{
    if p.segments@.len() == 0 {
        assert(lines_text(Seq::<LineModel>::empty()) =~= chunk_text(p, 0));
    } else {
        let st0 = fresh_state(0, Seq::empty());
        assert(lines_text(st0.lines) + st0.text =~= chunk_text(p, 0));
        lemma_run_text(p, max_width, st0);
        lemma_patched_text(p, max_width, layout_run(p, max_width, st0));
    }
}

// ---------------------------------------------------------------- forbidden line starts

pub open spec fn starts_forbidden(s: Seq<char>) -> bool {
    s.len() > 0 && is_forbidden_line_start(s[0])
}

proof fn lemma_overlong_forbidden(units: Seq<(Seq<char>, u64)>, max_width: u64, n: int)
    requires
        0 <= n <= units.len(),
        forall|k: int| 0 <= k < units.len() ==> #[trigger] units[k].0.len() > 0 && units[k].1 > 0,
    ensures
        ({
            let (out, buf, bw) = overlong_state(units, max_width, n);
            &&& forall|k: int|
                1 <= k < out.len() && starts_forbidden(#[trigger] out[k].0) ==> out[k].1 > max_width
            &&& (buf.len() > 0 && starts_forbidden(buf)) ==> out.len() == 0
        }),
    decreases n,
{
    if n > 0 {
        lemma_overlong_forbidden(units, max_width, n - 1);
        lemma_overlong_state(units, max_width, n - 1);
        if n - 1 >= 1 {
            lemma_overlong_progress(units, max_width, n - 1);
        }
        let (out, buf, bw) = overlong_state(units, max_width, n - 1);
        let (u, uw) = units[n - 1];
        assert(units[n - 1].0.len() > 0 && units[n - 1].1 > 0);
        let overflows = bw > 0 && bw + uw + PARITY_WIDTH_SHRINK > max_width;
        let out1 = if overflows {
            out.push((buf, bw))
        } else {
            out
        };
        let buf1 = if overflows {
            Seq::<char>::empty()
        } else {
            buf
        };
        let bw1: u64 = if overflows {
            0
        } else {
            bw
        };
        assert forall|k: int|
            1 <= k < out1.len() && starts_forbidden(#[trigger] out1[k].0) implies out1[k].1
            > max_width by {
            if k < out.len() {
                assert(out1[k] == out[k]);
            }
        }
        if bw1 == 0 && uw > max_width {
            let out2 = out1.push((u, uw));
            assert forall|k: int|
                1 <= k < out2.len() && starts_forbidden(#[trigger] out2[k].0) implies out2[k].1
                > max_width by {
                if k < out1.len() {
                    assert(out2[k] == out1[k]);
                }
            }
        } else if n - 1 > 0 && bw1 == 0 && u.len() > 0 && is_forbidden_line_start(u[0])
            && out1.len() > 0 {
            let last = out1.last();
            let x = (last.0 + u, sat_add(last.1, uw));
            let out2 = out1.update(out1.len() - 1, x);
            lemma_sat_add_ge(last.1, uw);
            assert forall|k: int|
                1 <= k < out2.len() && starts_forbidden(#[trigger] out2[k].0) implies out2[k].1
                > max_width by {
                if k < out1.len() - 1 {
                    assert(out2[k] == out1[k]);
                } else {
                    assert(last.0.len() > 0 ==> x.0[0] == last.0[0]);
                    if last.0.len() == 0 {
                        assert(x.0 =~= u);
                    }
                    assert(starts_forbidden(last.0) || last.0.len() == 0);
                    if last.0.len() > 0 {
                        assert(out1[k] == last);
                    }
                }
            }
        } else {
            let nb = buf1 + u;
            if buf1.len() > 0 {
                assert(nb[0] == buf1[0]);
            } else {
                assert(bw1 == 0);
                if starts_forbidden(nb) {
                    assert(nb[0] == u[0]);
                    assert(n - 1 == 0 || out1.len() == 0);
                    if n - 1 > 0 {
                        assert(out.len() > 0 || buf.len() > 0);
                    }
                }
            }
        }
    }
}

/// Forbidden punctuation does not begin a piece of a cut run: any piece but the
/// first that begins with such punctuation is a unit wider than the line itself.
pub proof fn law_overlong_no_forbidden_start(
    text: Seq<char>,
    width: u64,
    max_width: u64,
    space_width: u64,
)
    ensures
        forall|k: int|
            1 <= k < overlong_parts(text, width, max_width, space_width).len() && starts_forbidden(
                #[trigger] overlong_parts(text, width, max_width, space_width)[k].0,
            ) ==> overlong_parts(text, width, max_width, space_width)[k].1 > max_width,
{
    let parts = overlong_parts(text, width, max_width, space_width);
    if !(max_width == 0 || width <= max_width || break_units(text, space_width).len() <= 1) {
        let scale = if space_width > 0 {
            space_width
        } else {
            DEFAULT_SPACE_WIDTH
        };
        let units = break_units(text, space_width);
        lemma_units_concat(text, 0, scale);
        assert forall|k: int| 0 <= k < units.len() implies #[trigger] units[k].0.len() > 0
            && units[k].1 > 0 by {
            assert(units[k].0 == units_from(text, 0)[k]);
            lemma_unit_width_positive(scale, units[k].0);
        }
        lemma_overlong_forbidden(units, max_width, units.len() as int);
        let (out, buf, bw) = overlong_state(units, max_width, units.len() as int);
        if buf.len() > 0 {
            assert forall|k: int|
                1 <= k < parts.len() && starts_forbidden(#[trigger] parts[k].0) implies parts[k].1
                > max_width by {
                if k < out.len() {
                    assert(parts[k] == out[k]);
                }
            }
        }
    }
}

proof fn lemma_overlong_fitting(units: Seq<(Seq<char>, u64)>, max_width: u64, n: int)
    requires
        0 <= n <= units.len(),
        forall|k: int|
            0 <= k < units.len() ==> #[trigger] units[k].0.len() > 0 && units[k].1 > 0 && units[k].1
                <= max_width,
    ensures
        ({
            let (out, buf, bw) = overlong_state(units, max_width, n);
            &&& forall|k: int| 0 <= k < out.len() ==> (#[trigger] out[k]).0.len() > 0
            &&& forall|k: int| 1 <= k < out.len() ==> !starts_forbidden(#[trigger] out[k].0)
            &&& (buf.len() > 0 && starts_forbidden(buf)) ==> out.len() == 0
        }),
    decreases n,
{
    if n > 0 {
        lemma_overlong_fitting(units, max_width, n - 1);
        lemma_overlong_state(units, max_width, n - 1);
        let (out, buf, bw) = overlong_state(units, max_width, n - 1);
        assert(units[n - 1].0.len() > 0 && units[n - 1].1 > 0 && units[n - 1].1 <= max_width);
        let (u, uw) = units[n - 1];
        let overflows = bw > 0 && bw + uw + PARITY_WIDTH_SHRINK > max_width;
        let out1 = if overflows {
            out.push((buf, bw))
        } else {
            out
        };
        let buf1 = if overflows {
            Seq::<char>::empty()
        } else {
            buf
        };
        let bw1: u64 = if overflows {
            0
        } else {
            bw
        };
        assert forall|k: int| 0 <= k < out1.len() implies (#[trigger] out1[k]).0.len() > 0 by {
            if k < out.len() {
                assert(out1[k] == out[k]);
            }
        }
        assert forall|k: int| 1 <= k < out1.len() implies !starts_forbidden(#[trigger] out1[k].0) by {
            if k < out.len() {
                assert(out1[k] == out[k]);
            }
        }
        let (o2, b2, w2) = overlong_state(units, max_width, n);
        if n - 1 > 0 && bw1 == 0 && u.len() > 0 && is_forbidden_line_start(u[0]) && out1.len() > 0 {
            let last = out1.last();
            assert(out1[out1.len() - 1] == last);
            assert forall|k: int| 0 <= k < o2.len() implies (#[trigger] o2[k]).0.len() > 0 by {
                if k < out1.len() - 1 {
                    assert(o2[k] == out1[k]);
                }
            }
            assert forall|k: int| 1 <= k < o2.len() implies !starts_forbidden(#[trigger] o2[k].0) by {
                if k < out1.len() - 1 {
                    assert(o2[k] == out1[k]);
                } else {
                    assert(o2[k].0 == last.0 + u);
                    assert((last.0 + u)[0] == last.0[0]);
                    assert(!starts_forbidden(out1[k].0));
                }
            }
        } else {
            assert(o2 == out1);
        }
    }
}

/// When every break unit of a run fits the line, no piece of the cut run but
/// the first begins with forbidden punctuation.
pub proof fn law_overlong_fitting_no_forbidden_start(
    text: Seq<char>,
    width: u64,
    max_width: u64,
    space_width: u64,
)
    requires
        forall|k: int|
            0 <= k < break_units(text, space_width).len() ==> #[trigger] break_units(
                text,
                space_width,
            )[k].1 <= max_width,
    ensures
        forall|k: int|
            1 <= k < overlong_parts(text, width, max_width, space_width).len() ==> !starts_forbidden(
                #[trigger] overlong_parts(text, width, max_width, space_width)[k].0,
            ),
{
    let parts = overlong_parts(text, width, max_width, space_width);
    if !(max_width == 0 || width <= max_width || break_units(text, space_width).len() <= 1) {
        let scale = if space_width > 0 {
            space_width
        } else {
            DEFAULT_SPACE_WIDTH
        };
        let units = break_units(text, space_width);
        lemma_units_concat(text, 0, scale);
        assert forall|k: int| 0 <= k < units.len() implies #[trigger] units[k].0.len() > 0
            && units[k].1 > 0 && units[k].1 <= max_width by {
            assert(units[k].0 == units_from(text, 0)[k]);
            lemma_unit_width_positive(scale, units[k].0);
        }
        lemma_overlong_fitting(units, max_width, units.len() as int);
        let (out, buf, bw) = overlong_state(units, max_width, units.len() as int);
        if buf.len() > 0 {
            assert forall|k: int| 1 <= k < parts.len() implies !starts_forbidden(
                #[trigger] parts[k].0,
            ) by {
                if k < out.len() {
                    assert(parts[k] == out[k]);
                }
            }
        }
    }
}

/// A run is cut into at least one piece; the pieces spell the run; a run that
/// fits (or a width of zero) is left whole; and every piece of a run with text
/// has text.
pub proof fn law_overlong_parts_spell_the_run(
    text: Seq<char>,
    width: u64,
    max_width: u64,
    space_width: u64,
)
    ensures
        overlong_parts(text, width, max_width, space_width).len() >= 1,
        concat_pairs(overlong_parts(text, width, max_width, space_width)) == text,
        (max_width == 0 || width <= max_width) ==> overlong_parts(text, width, max_width, space_width)
            == seq![(text, width)],
        text.len() > 0 ==> forall|k: int|
            0 <= k < overlong_parts(text, width, max_width, space_width).len()
                ==> (#[trigger] overlong_parts(text, width, max_width, space_width)[k]).0.len() > 0,
{
    lemma_overlong_parts_nonempty(text, width, max_width, space_width);
    lemma_overlong_parts_text(text, width, max_width, space_width);
    let parts = overlong_parts(text, width, max_width, space_width);
    let units = break_units(text, space_width);
    if !(max_width == 0 || width <= max_width || units.len() <= 1) {
        let scale = if space_width > 0 {
            space_width
        } else {
            DEFAULT_SPACE_WIDTH
        };
        lemma_units_concat(text, 0, scale);
        assert forall|k: int| 0 <= k < units.len() implies #[trigger] units[k].0.len() > 0
            && units[k].1 > 0 by {
            assert(units[k].0 == units_from(text, 0)[k]);
            lemma_unit_width_positive(scale, units[k].0);
        }
        lemma_pack_texts(units, max_width, units.len() as int);
        let (out, buf, bw) = overlong_state(units, max_width, units.len() as int);
        assert forall|k: int| 0 <= k < parts.len() implies (#[trigger] parts[k]).0.len() > 0 by {
            if k < out.len() {
                assert(parts[k] == out[k]);
            }
        }
    }
}

proof fn lemma_marks_end_stops(s: Seq<char>, i: int)
    requires
        0 <= i,
    ensures
        0 <= marks_end(s, i) < s.len() ==> !is_attached_mark(s[marks_end(s, i)]),
    decreases s.len() - i,
{
    if 0 <= i < s.len() && is_attached_mark(s[i]) {
        lemma_marks_end_stops(s, i + 1);
    } else if 0 <= i && i + 1 < s.len() && s[i] == '\u{200D}' {
        lemma_marks_end_stops(s, i + 2);
    }
}

proof fn lemma_units_marks(s: Seq<char>, start: int)
    requires
        0 <= start,
    ensures
        forall|k: int|
            1 <= k < units_from(s, start).len() ==> !is_attached_mark(
                (#[trigger] units_from(s, start)[k])[0],
            ),
    decreases s.len() - start,
{
    if start < s.len() {
        let e = unit_end(s, start);
        if !(e <= start || e > s.len()) {
            lemma_units_marks(s, e);
            let rest = units_from(s, e);
            let all = units_from(s, start);
            assert(all == seq![s.subrange(start, e)] + rest);
            let i1 = start + 1;
            let i2 = if i1 < s.len() && is_ascii_letter(s[i1 - 1]) && is_ascii_letter(s[i1]) {
                letters_end(s, i1)
            } else {
                i1
            };
            lemma_marks_end_stops(s, i2);
            assert forall|k: int| 1 <= k < all.len() implies !is_attached_mark(
                (#[trigger] all[k])[0],
            ) by {
                assert(all[k] == rest[k - 1]);
                if k == 1 {
                    if e < s.len() {
                        let e2 = unit_end(s, e);
                        if !(e2 <= e || e2 > s.len()) {
                            assert(rest[0] == s.subrange(e, e2));
                        }
                    }
                }
            }
        }
    }
}

/// An ASCII letter, of either case.
pub open spec fn is_latin_letter(c: char) -> bool {
    ('a' <= c && c <= 'z') || ('A' <= c && c <= 'Z')
}

proof fn lemma_letters_end_stops(s: Seq<char>, i: int)
    requires
        0 <= i,
    ensures
        i <= letters_end(s, i),
        letters_end(s, i) < s.len() ==> !is_latin_letter(s[letters_end(s, i)]),
    decreases s.len() - i,
{
    if 0 <= i < s.len() && is_ascii_letter(s[i]) {
        lemma_letters_end_stops(s, i + 1);
    }
}

proof fn lemma_marks_end_shape(s: Seq<char>, i: int)
    requires
        0 <= i,
    ensures
        marks_end(s, i) == i || (marks_end(s, i) >= i + 1 && is_attached_mark(
            s[marks_end(s, i) - 1],
        )) || (marks_end(s, i) >= i + 2 && s[marks_end(s, i) - 2] == '\u{200D}'),
        marks_end(s, i) <= s.len() || marks_end(s, i) == i,
    decreases s.len() - i,
{
    if 0 <= i < s.len() && is_attached_mark(s[i]) {
        lemma_marks_end_shape(s, i + 1);
    } else if 0 <= i && i + 1 < s.len() && s[i] == '\u{200D}' {
        lemma_marks_end_shape(s, i + 2);
    }
}

proof fn lemma_unit_letters(s: Seq<char>, start: int)
    requires
        0 <= start < s.len(),
    ensures
        ({
            let e = unit_end(s, start);
            (e < s.len() && is_latin_letter(s[e - 1]) && is_latin_letter(s[e])) ==> (e - start >= 2
                && s[e - 2] == '\u{200D}')
        }),
{
    lemma_unit_end(s, start);
    let i1 = start + 1;
    lemma_letters_end_stops(s, i1);
    let i2 = if i1 < s.len() && is_ascii_letter(s[i1 - 1]) && is_ascii_letter(s[i1]) {
        letters_end(s, i1)
    } else {
        i1
    };
    lemma_marks_end_shape(s, i2);
}

proof fn lemma_units_letters(s: Seq<char>, start: int)
    requires
        0 <= start,
    ensures
        forall|k: int|
            1 <= k < units_from(s, start).len() ==> ({
                let u = units_from(s, start)[k - 1];
                let v = #[trigger] units_from(s, start)[k];
                (is_latin_letter(u.last()) && is_latin_letter(v[0])) ==> (u.len() >= 2 && u[u.len()
                    - 2] == '\u{200D}')
            }),
    decreases s.len() - start,
{
    if start < s.len() {
        let e = unit_end(s, start);
        lemma_unit_end(s, start);
        lemma_units_letters(s, e);
        lemma_unit_letters(s, start);
        let rest = units_from(s, e);
        let all = units_from(s, start);
        assert(all == seq![s.subrange(start, e)] + rest);
        assert forall|k: int| 1 <= k < all.len() implies ({
            let u = all[k - 1];
            let v = #[trigger] all[k];
            (is_latin_letter(u.last()) && is_latin_letter(v[0])) ==> (u.len() >= 2 && u[u.len() - 2]
                == '\u{200D}')
        }) by {
            assert(all[k] == rest[k - 1]);
            if k == 1 {
                assert(all[0] == s.subrange(start, e));
                if e < s.len() {
                    let e2 = unit_end(s, e);
                    lemma_unit_end(s, e);
                    assert(rest[0] == s.subrange(e, e2));
                }
            } else {
                assert(all[k - 1] == rest[k - 2]);
            }
        }
    }
}

/// Runs of ASCII letters are not cut: two break units meet between two ASCII
/// letters (of either case) only where the first ends with a zero-width joiner
/// and the character it joins.
pub proof fn law_break_units_keep_letter_runs(text: Seq<char>, space_width: u64)
    ensures
        forall|k: int|
            1 <= k < break_units(text, space_width).len() ==> ({
                let u = break_units(text, space_width)[k - 1].0;
                let v = (#[trigger] break_units(text, space_width)[k]).0;
                (is_latin_letter(u.last()) && is_latin_letter(v[0])) ==> (u.len() >= 2 && u[u.len()
                    - 2] == '\u{200D}')
            }),
{
    lemma_units_letters(text, 0);
    let units = break_units(text, space_width);
    assert forall|k: int| 1 <= k < units.len() implies ({
        let u = units[k - 1].0;
        let v = (#[trigger] units[k]).0;
        (is_latin_letter(u.last()) && is_latin_letter(v[0])) ==> (u.len() >= 2 && u[u.len() - 2]
            == '\u{200D}')
    }) by {
        assert(units[k].0 == units_from(text, 0)[k]);
        assert(units[k - 1].0 == units_from(text, 0)[k - 1]);
    }
}

/// Attached marks stay with their base: no break unit of a run but the first
/// begins with a combining mark or U+FE0F. The units spell the run and each
/// has text.
pub proof fn law_break_units_keep_marks(text: Seq<char>, space_width: u64)
    ensures
        concat_pairs(break_units(text, space_width)) == text,
        forall|k: int|
            0 <= k < break_units(text, space_width).len() ==> (#[trigger] break_units(
                text,
                space_width,
            )[k]).0.len() > 0,
        forall|k: int|
            1 <= k < break_units(text, space_width).len() ==> !is_attached_mark(
                (#[trigger] break_units(text, space_width)[k]).0[0],
            ),
{
    let scale = if space_width > 0 {
        space_width
    } else {
        DEFAULT_SPACE_WIDTH
    };
    lemma_units_concat(text, 0, scale);
    lemma_units_marks(text, 0);
    assert(text.skip(0) =~= text);
    let units = break_units(text, space_width);
    assert forall|k: int| 1 <= k < units.len() implies !is_attached_mark(
        (#[trigger] units[k]).0[0],
    ) by {
        assert(units[k].0 == units_from(text, 0)[k]);
    }
    assert forall|k: int| 0 <= k < units.len() implies (#[trigger] units[k]).0.len() > 0 by {
        assert(units[k].0 == units_from(text, 0)[k]);
    }
}

// ---------------------------------------------------------------- text up to hyphens

/// `s` without its hyphen-minus characters.
pub open spec fn strip_hyphens(s: Seq<char>) -> Seq<char>
    decreases s.len(),
{
    if s.len() == 0 {
        Seq::empty()
    } else {
        strip_hyphens(s.drop_last()) + if s.last() == '-' {
            Seq::<char>::empty()
        } else {
            seq![s.last()]
        }
    }
}

proof fn lemma_strip_append(a: Seq<char>, b: Seq<char>)
    ensures
        strip_hyphens(a + b) == strip_hyphens(a) + strip_hyphens(b),
    decreases b.len(),
{
    if b.len() == 0 {
        assert(a + b =~= a);
        assert(strip_hyphens(a) + Seq::<char>::empty() =~= strip_hyphens(a));
    } else {
        lemma_strip_append(a, b.drop_last());
        assert((a + b).drop_last() =~= a + b.drop_last());
        let tail = if b.last() == '-' {
            Seq::<char>::empty()
        } else {
            seq![b.last()]
        };
        assert(strip_hyphens(a) + strip_hyphens(b.drop_last()) + tail =~= strip_hyphens(a) + (
        strip_hyphens(b.drop_last()) + tail));
    }
}

proof fn lemma_strip_hyphen()
    ensures
        strip_hyphens(seq!['-']) == Seq::<char>::empty(),
{
    let s = seq!['-'];
    assert(s.drop_last() =~= Seq::<char>::empty());
    assert(s.last() == '-');
    assert(strip_hyphens(s.drop_last()) == Seq::<char>::empty());
    assert(strip_hyphens(s) == strip_hyphens(s.drop_last()) + Seq::<char>::empty());
    assert(Seq::<char>::empty() + Seq::<char>::empty() =~= Seq::<char>::empty());
}

spec fn hyphen_text_inv(p: Prepared, st: LayoutState) -> bool {
    &&& layout_inv(p, st)
    &&& strip_hyphens(lines_text(st.lines) + st.text) == strip_hyphens(chunk_text(p, st.i))
    &&& st.brk matches Some(b) ==> strip_hyphens(lines_text(st.lines) + st.text.take(st.brk_len))
        == strip_hyphens(chunk_text(p, b))
    &&& st.width == 0 ==> st.text.len() == 0
}

proof fn lemma_step_hyphen_text(p: Prepared, max_width: u64, st: LayoutState)
    requires
        hyphen_text_inv(p, st),
        st.i < p.segments@.len(),
        chunks_have_width(p),
    ensures
        hyphen_text_inv(p, layout_step(p, max_width, st)),
{
    lemma_step_inv(p, max_width, st);
    let st2 = layout_step(p, max_width, st);
    let i = st.i;
    let seg = p.segments@[i];
    assert(chunk_text(p, i + 1) == chunk_text(p, i) + match elem_model(seg) {
        ElemModel::Chunk { text, .. } => text,
        _ => Seq::<char>::empty(),
    });
    let lt = lines_text(st.lines);
    match elem_model(seg) {
        ElemModel::HardBreak => {
            lemma_lines_text_push(st.lines, line_model(st.text, st.width, st.line_start, st.i));
            assert(chunk_text(p, i) + Seq::<char>::empty() =~= chunk_text(p, i));
            assert(lines_text(st2.lines) + Seq::<char>::empty() =~= lines_text(st2.lines));
        },
        ElemModel::Break { .. } => {
            assert(chunk_text(p, i) + Seq::<char>::empty() =~= chunk_text(p, i));
            assert(st.text.take(st.text.len() as int) =~= st.text);
        },
        ElemModel::Chunk { text, width } => {
            assert(width > 0);
            lemma_strip_append(lt + st.text, text);
            lemma_strip_append(chunk_text(p, i), text);
            if st.width == 0 && width > max_width {
                let parts = overlong_parts(text, width, max_width, p.space_width);
                let k = parts.len() as int;
                lemma_overlong_parts_nonempty(text, width, max_width, p.space_width);
                lemma_overlong_parts_text(text, width, max_width, p.space_width);
                let ol = overlong_lines(parts, st.line_start, st.i);
                lemma_overlong_lines_text(parts, st.line_start, st.i, k - 1);
                assert(ol.take(k - 1) =~= ol);
                lemma_lines_text_append(st.lines, ol);
                assert(parts =~= parts.take(k - 1).push(parts[k - 1]));
                lemma_concat_pairs_push(parts.take(k - 1), parts[k - 1]);
                assert(st.text.len() == 0);
                assert(st2.text =~= parts[k - 1].0);
                assert(lines_text(st2.lines) + st2.text =~= lt + concat_pairs(parts.take(k - 1))
                    + parts[k - 1].0);
                assert(lines_text(st2.lines) + st2.text =~= lt + st.text + text);
                assert(st2.text.take(st2.brk_len) =~= st2.text);
                lemma_sat_add_ge(st.width, parts[k - 1].1);
            } else if st.width > 0 && st.width + width + PARITY_WIDTH_SHRINK > max_width {
                match st.brk {
                    Some(b) => {
                        let t = st.text.take(st.brk_len);
                        let last = st2.lines.last();
                        lemma_lines_text_push(st.lines, last);
                        assert(st2.lines =~= st.lines.push(last));
                        assert(lines_text(st2.lines) + Seq::<char>::empty() =~= lines_text(st2.lines));
                        if st.brk_hyphen {
                            assert(last.text == t.push('-'));
                            assert(lt + t.push('-') =~= (lt + t) + seq!['-']);
                            lemma_strip_append(lt + t, seq!['-']);
                            lemma_strip_hyphen();
                            assert(strip_hyphens(lt + t) + Seq::<char>::empty() =~= strip_hyphens(
                                lt + t,
                            ));
                        } else {
                            assert(last.text == t);
                        }
                    },
                    None => {
                        let l = line_model(st.text, st.width, st.line_start, st.i);
                        lemma_lines_text_push(st.lines, l);
                        assert(Seq::<char>::empty() + text =~= text);
                        assert(lines_text(st2.lines) + st2.text =~= lt + st.text + text);
                        assert(st2.text.take(st2.brk_len) =~= st2.text);
                        lemma_sat_add_ge(0, width);
                    },
                }
            } else {
                assert(lt + (st.text + text) =~= lt + st.text + text);
                assert(st2.text.take(st2.brk_len) =~= st2.text);
                lemma_sat_add_ge(st.width, width);
            }
        },
    }
}

proof fn lemma_run_hyphen_text(p: Prepared, max_width: u64, st: LayoutState)
    requires
        hyphen_text_inv(p, st),
        chunks_have_width(p),
    ensures
        strip_hyphens(lines_text(layout_run(p, max_width, st))) == strip_hyphens(
            chunk_text(p, p.segments@.len() as int),
        ),
    decreases p.segments@.len() - st.line_start, p.segments@.len() - st.i,
{
    if st.i < p.segments@.len() {
        lemma_step_inv(p, max_width, st);
        lemma_step_hyphen_text(p, max_width, st);
        lemma_run_hyphen_text(p, max_width, layout_step(p, max_width, st));
    } else {
        let l = line_model(st.text, st.width, st.line_start, p.segments@.len() as int);
        lemma_lines_text_push(st.lines, l);
        if !(st.text.len() > 0 || st.lines.len() == 0) {
            assert(lines_text(st.lines) + st.text =~= lines_text(st.lines));
        }
    }
}

/// Layout keeps the text up to the hyphens it shows at soft-hyphen breaks:
/// with hyphen-minus characters left out on both sides, the lines read one
/// after the other spell the texts of all non-break segments in order. This
/// holds when every such segment has a positive width.
pub proof fn law_layout_keeps_text_up_to_hyphens(p: Prepared, max_width: u64)
    requires
        chunks_have_width(p),
    ensures
        strip_hyphens(lines_text(layout_lines_spec(p, max_width))) == strip_hyphens(
            chunk_text(p, p.segments@.len() as int),
        ),
{
    if p.segments@.len() == 0 {
        assert(lines_text(Seq::<LineModel>::empty()) =~= chunk_text(p, 0));
    } else {
        let st0 = fresh_state(0, Seq::empty());
        assert(lines_text(st0.lines) + st0.text =~= chunk_text(p, 0));
        lemma_run_hyphen_text(p, max_width, st0);
        lemma_patched_text(p, max_width, layout_run(p, max_width, st0));
    }
}

} // verus!
