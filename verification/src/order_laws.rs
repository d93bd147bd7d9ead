//! Where lines start and end: each line covers a range of segments, and the
//! ranges follow one another in order.
use vstd::prelude::*;
use crate::layout::{
    elem_end, elem_model, fresh_state, layout_inv, layout_lines_spec, layout_run, layout_step,
    lemma_step_inv, overlong_lines, ElemModel, LayoutState, LineModel,
};
use crate::overlong::{lemma_overlong_parts_nonempty, overlong_parts, PARITY_WIDTH_SHRINK};
use crate::patches::{
    append_empty, has_cjk_kinsoku, has_emoji_zwj, has_kind, has_mixed_scripts, has_myanmar,
    has_url_query, merge_last_two, patched, rounded_px, split_last, visible_text,
};
use crate::prepare::{Prepared, SegmentKind};

verus! {

/// Every line has `0 <= start <= end <= n`, and both the starts and the ends
/// never decrease from one line to the next.
pub open spec fn lines_in_order(lines: Seq<LineModel>, n: int) -> bool {
    &&& forall|k: int| 0 <= k < lines.len() ==> 0 <= #[trigger] lines[k].start <= lines[k].end <= n
    &&& forall|j: int, k: int|
        0 <= j <= k < lines.len() ==> #[trigger] lines[j].start <= #[trigger] lines[k].start
            && lines[j].end <= lines[k].end
}

/// What the line breaker keeps: the lines made so far are in order and end no
/// later than where the current line starts.
spec fn run_ok(p: Prepared, st: LayoutState) -> bool {
    &&& layout_inv(p, st)
    &&& lines_in_order(st.lines, p.segments@.len() as int)
    &&& forall|k: int| 0 <= k < st.lines.len() ==> #[trigger] st.lines[k].end <= st.line_start
}

proof fn lemma_push_in_order(lines: Seq<LineModel>, l: LineModel, n: int)
    requires
        lines_in_order(lines, n),
        0 <= l.start <= l.end <= n,
        forall|k: int|
            0 <= k < lines.len() ==> #[trigger] lines[k].start <= l.start && lines[k].end <= l.end,
    ensures
        lines_in_order(lines.push(l), n),
{
    let out = lines.push(l);
    assert forall|j: int, k: int| 0 <= j <= k < out.len() implies #[trigger] out[j].start
        <= #[trigger] out[k].start && out[j].end <= out[k].end by {
        if k == lines.len() && j < k {
            assert(lines[j].start <= l.start);
        }
    }
}

proof fn lemma_push_after(lines: Seq<LineModel>, l: LineModel, n: int)
    requires
        lines_in_order(lines, n),
        0 <= l.start <= l.end <= n,
        forall|k: int| 0 <= k < lines.len() ==> #[trigger] lines[k].end <= l.start,
    ensures
        lines_in_order(lines.push(l), n),
{
    assert forall|k: int| 0 <= k < lines.len() implies #[trigger] lines[k].start <= l.start
        && lines[k].end <= l.end by {
        assert(lines[k].end <= l.start);
    }
    lemma_push_in_order(lines, l, n);
}

proof fn lemma_overlong_lines_in_order(
    lines: Seq<LineModel>,
    parts: Seq<(Seq<char>, u64)>,
    line_start: int,
    i: int,
    n: int,
)
    requires
        lines_in_order(lines, n),
        0 <= line_start <= i < n,
        forall|k: int| 0 <= k < lines.len() ==> #[trigger] lines[k].end <= line_start,
    ensures
        lines_in_order(lines + overlong_lines(parts, line_start, i), n),
        forall|k: int|
            0 <= k < (lines + overlong_lines(parts, line_start, i)).len() ==> #[trigger] (lines
                + overlong_lines(parts, line_start, i))[k].end <= i,
{
    let o = overlong_lines(parts, line_start, i);
    let out = lines + o;
    assert forall|k: int| 0 <= k < out.len() implies 0 <= #[trigger] out[k].start <= out[k].end
        <= n by {
        if k >= lines.len() {
            assert(out[k] == o[k - lines.len()]);
        }
    }
    assert forall|j: int, k: int| 0 <= j <= k < out.len() implies #[trigger] out[j].start
        <= #[trigger] out[k].start && out[j].end <= out[k].end by {
        if k >= lines.len() {
            assert(out[k] == o[k - lines.len()]);
            if j >= lines.len() {
                assert(out[j] == o[j - lines.len()]);
            } else {
                assert(lines[j].start <= lines[j].end);
            }
        }
    }
    assert forall|k: int| 0 <= k < out.len() implies #[trigger] out[k].end <= i by {
        if k >= lines.len() {
            assert(out[k] == o[k - lines.len()]);
        }
    }
}

proof fn lemma_step_ok(p: Prepared, max_width: u64, st: LayoutState)
    requires
        run_ok(p, st),
        st.i < p.segments@.len(),
    ensures
        run_ok(p, layout_step(p, max_width, st)),
{
    lemma_step_inv(p, max_width, st);
    let n = p.segments@.len() as int;
    let st2 = layout_step(p, max_width, st);
    match elem_model(p.segments@[st.i]) {
        ElemModel::HardBreak => {
            lemma_push_after(st.lines, st2.lines.last(), n);
        },
        ElemModel::Break { .. } => {},
        ElemModel::Chunk { text, width } => {
            if st.width == 0 && width > max_width {
                let parts = overlong_parts(text, width, max_width, p.space_width);
                lemma_overlong_parts_nonempty(text, width, max_width, p.space_width);
                lemma_overlong_lines_in_order(st.lines, parts, st.line_start, st.i, n);
            } else if st.width > 0 && st.width + width + 50 > max_width {
                match st.brk {
                    Some(b) => {
                        assert(elem_end(p, b - 1) <= b);
                        lemma_push_after(st.lines, st2.lines.last(), n);
                        assert(st2.lines =~= st.lines.push(st2.lines.last()));
                    },
                    None => {
                        let l = st2.lines.last();
                        lemma_push_after(st.lines, l, n);
                    },
                }
            }
        },
    }
}

proof fn lemma_run_ok(p: Prepared, max_width: u64, st: LayoutState)
    requires
        run_ok(p, st),
    ensures
        lines_in_order(layout_run(p, max_width, st), p.segments@.len() as int),
    decreases p.segments@.len() - st.line_start, p.segments@.len() - st.i,
{
    let n = p.segments@.len() as int;
    if st.i < n {
        lemma_step_inv(p, max_width, st);
        lemma_step_ok(p, max_width, st);
        lemma_run_ok(p, max_width, layout_step(p, max_width, st));
    } else {
        let out = layout_run(p, max_width, st);
        if st.text.len() > 0 || st.lines.len() == 0 {
            lemma_push_after(st.lines, out.last(), n);
        }
    }
}

proof fn lemma_split_in_order(lines: Seq<LineModel>, n: int)
    requires
        lines_in_order(lines, n),
    ensures
        lines_in_order(split_last(lines), n),
{
    if lines.len() > 0 && lines.last().text.len() > 1 {
        let out = split_last(lines);
        assert(forall|k: int| 0 <= k < lines.len() - 1 ==> out[k] == lines[k]);
        assert(lines[lines.len() - 1] == lines.last());
    }
}

proof fn lemma_append_in_order(lines: Seq<LineModel>, n: int)
    requires
        lines_in_order(lines, n),
        lines.len() > 0,
    ensures
        lines_in_order(append_empty(lines), n),
{
    {
        let last = lines.last();
        assert(lines[lines.len() - 1] == last);
        assert forall|k: int| 0 <= k < lines.len() implies #[trigger] lines[k].end <= last.end by {
            assert(lines[k].start <= lines[lines.len() - 1].start);
        }
        assert(0 <= lines[lines.len() - 1].start);
        lemma_push_in_order(lines, append_empty(lines).last(), n);
    }
}

proof fn lemma_merge_in_order(lines: Seq<LineModel>, n: int)
    requires
        lines_in_order(lines, n),
    ensures
        lines_in_order(merge_last_two(lines), n),
{
    if lines.len() >= 2 {
        let m = lines.len() as int;
        let rest = lines.take(m - 2);
        let merged = merge_last_two(lines).last();
        assert(lines[m - 2].start <= lines[m - 1].start);
        assert(0 <= lines[m - 2].start <= lines[m - 2].end <= lines[m - 1].end <= n);
        assert forall|k: int| 0 <= k < rest.len() implies #[trigger] rest[k].start <= merged.start
            && rest[k].end <= merged.end by {
            assert(rest[k] == lines[k]);
            assert(lines[k].start <= lines[m - 2].start);
        }
        assert(lines_in_order(rest, n)) by {
            assert forall|j: int, k: int| 0 <= j <= k < rest.len() implies #[trigger] rest[j].start
                <= #[trigger] rest[k].start && rest[j].end <= rest[k].end by {
                assert(rest[j] == lines[j] && rest[k] == lines[k]);
                assert(lines[j].start <= lines[k].start);
            }
            assert forall|k: int| 0 <= k < rest.len() implies 0 <= #[trigger] rest[k].start
                <= rest[k].end <= n by {
                assert(rest[k] == lines[k]);
            }
        }
        lemma_push_in_order(rest, merged, n);
    }
}

proof fn lemma_patched_in_order(p: Prepared, max_width: u64, lines: Seq<LineModel>, n: int)
    requires
        lines_in_order(lines, n),
    ensures
        lines_in_order(patched(p, max_width, lines), n),
{
    if lines.len() > 0 {
        lemma_split_in_order(lines, n);
        lemma_merge_in_order(lines, n);
        lemma_append_in_order(lines, n);
    }
}

/// Every line covers a range of segments: `0 <= start <= end <=` the number of
/// segments, and from one line to the next neither the start nor the end
/// goes back.
pub proof fn law_lines_in_order(p: Prepared, max_width: u64)
    ensures
        lines_in_order(layout_lines_spec(p, max_width), p.segments@.len() as int),
{
    let n = p.segments@.len() as int;
    if n > 0 {
        let st0 = fresh_state(0, Seq::empty());
        lemma_run_ok(p, max_width, st0);
        lemma_patched_in_order(p, max_width, layout_run(p, max_width, st0), n);
    }
}

// ---------------------------------------------------------------- greedy filling

/// The lines the line breaker makes, before the width-specific adjustments.
pub open spec fn breaker_lines(p: Prepared, max_width: u64) -> Seq<LineModel> {
    layout_run(p, max_width, fresh_state(0, Seq::empty()))
}

/// A line fits: with half a pixel to spare it is no wider than `max_width`.
pub open spec fn line_fits(l: LineModel, max_width: u64) -> bool {
    l.width + PARITY_WIDTH_SHRINK <= max_width
}

/// A line ended by running out of room: the segment after it (when it is not
/// a hard break) would not have fitted on it.
pub open spec fn line_full(p: Prepared, l: LineModel, max_width: u64) -> bool {
    (0 <= l.end < p.segments@.len() && p.segments@[l.end].kind != SegmentKind::HardBreak)
        ==> l.width + p.segments@[l.end].width + PARITY_WIDTH_SHRINK > max_width
}

spec fn fill_ok(p: Prepared, max_width: u64, st: LayoutState) -> bool {
    &&& layout_inv(p, st)
    &&& st.brk matches Some(b) ==> b == st.i && st.brk_width == st.width && !st.brk_hyphen && !(
    elem_model(p.segments@[b - 1]) is HardBreak)
    &&& st.width > 0 ==> st.brk is Some
    &&& st.width + PARITY_WIDTH_SHRINK <= max_width
    &&& forall|k: int| 0 <= k < st.lines.len() ==> line_fits(#[trigger] st.lines[k], max_width)
    &&& forall|k: int| 0 <= k < st.lines.len() ==> line_full(p, #[trigger] st.lines[k], max_width)
}

/// Every segment laid out as text is narrow enough to fit a line on its own,
/// and no segment is a soft hyphen.
pub open spec fn narrow_segments(p: Prepared, max_width: u64) -> bool {
    &&& PARITY_WIDTH_SHRINK <= max_width
    &&& forall|k: int|
        0 <= k < p.segments@.len() ==> (#[trigger] p.segments@[k]).kind != SegmentKind::SoftHyphen
            && (!is_zero_width(p.segments@[k].kind) ==> p.segments@[k].width
            + PARITY_WIDTH_SHRINK <= max_width)
}

pub open spec fn is_zero_width(k: SegmentKind) -> bool {
    k == SegmentKind::ZeroWidthBreak || k == SegmentKind::SoftHyphen || k == SegmentKind::HardBreak
}

proof fn lemma_fill_step(p: Prepared, max_width: u64, st: LayoutState)
    requires
        fill_ok(p, max_width, st),
        narrow_segments(p, max_width),
        st.i < p.segments@.len(),
    ensures
        fill_ok(p, max_width, layout_step(p, max_width, st)),
{
    lemma_step_inv(p, max_width, st);
    let st2 = layout_step(p, max_width, st);
    let seg = p.segments@[st.i];
    assert(seg.kind != SegmentKind::SoftHyphen);
    match elem_model(seg) {
        ElemModel::HardBreak => {
            assert(st2.lines == st.lines.push(st2.lines.last()));
            assert(forall|k: int| 0 <= k < st.lines.len() ==> st2.lines[k] == st.lines[k]);
        },
        ElemModel::Break { .. } => {},
        ElemModel::Chunk { text, width } => {
            assert(width == seg.width);
            assert(width + PARITY_WIDTH_SHRINK <= max_width);
            if st.width > 0 && st.width + width + PARITY_WIDTH_SHRINK > max_width {
                let b = st.brk.unwrap();
                assert(b == st.i);
                assert(elem_end(p, b - 1) == st.i);
                assert(forall|k: int| 0 <= k < st.lines.len() ==> st2.lines[k] == st.lines[k]);
                let l = st2.lines.last();
                assert(st2.lines[st2.lines.len() - 1] == l);
                assert(l.end == st.i && l.width == st.width);
                assert(line_full(p, l, max_width));
            }
        },
    }
}

proof fn lemma_fill_run(p: Prepared, max_width: u64, st: LayoutState)
    requires
        fill_ok(p, max_width, st),
        narrow_segments(p, max_width),
    ensures
        forall|k: int|
            0 <= k < layout_run(p, max_width, st).len() ==> line_fits(
                #[trigger] layout_run(p, max_width, st)[k],
                max_width,
            ) && line_full(p, layout_run(p, max_width, st)[k], max_width),
    decreases p.segments@.len() - st.line_start, p.segments@.len() - st.i,
{
    if st.i < p.segments@.len() {
        lemma_step_inv(p, max_width, st);
        lemma_fill_step(p, max_width, st);
        lemma_fill_run(p, max_width, layout_step(p, max_width, st));
        assert(layout_run(p, max_width, st) == layout_run(p, max_width, layout_step(p, max_width, st)));
    } else {
        let out = layout_run(p, max_width, st);
        assert(out == crate::layout::finish_lines(p, st));
        if st.text.len() > 0 || st.lines.len() == 0 {
            assert(forall|k: int| 0 <= k < st.lines.len() ==> out[k] == st.lines[k]);
            let l = out[st.lines.len() as int];
            assert(l.end == p.segments@.len());
            assert(line_fits(l, max_width) && line_full(p, l, max_width));
            assert forall|k: int| 0 <= k < out.len() implies line_fits(#[trigger] out[k], max_width)
                && line_full(p, out[k], max_width) by {
                if k < st.lines.len() {
                    assert(out[k] == st.lines[k]);
                }
            }
        } else {
            assert(out == st.lines);
        }
    }
}

/// The line breaker fills lines greedily. When no segment is a soft hyphen and
/// every segment laid out as text fits a line on its own, every line fits
/// (with half a pixel to spare) and every line not ended by a hard break or
/// the end of the text would have overflowed with the segment after it. Above
/// 240px this holds of the layout itself.
pub proof fn law_lines_filled_greedily(p: Prepared, max_width: u64)
    requires
        narrow_segments(p, max_width),
    ensures
        forall|k: int|
            0 <= k < breaker_lines(p, max_width).len() ==> line_fits(
                #[trigger] breaker_lines(p, max_width)[k],
                max_width,
            ) && line_full(p, breaker_lines(p, max_width)[k], max_width),
        max_width > 24000 ==> forall|k: int|
            0 <= k < layout_lines_spec(p, max_width).len() ==> line_fits(
                #[trigger] layout_lines_spec(p, max_width)[k],
                max_width,
            ) && line_full(p, layout_lines_spec(p, max_width)[k], max_width),
{
    lemma_fill_run(p, max_width, fresh_state(0, Seq::empty()));
    if max_width > 24000 && p.segments@.len() > 0 {
        law_no_adjustment_above_240px(p, max_width);
    }
}

/// A text that none of the width-specific adjustments is for lays out to the
/// line breaker's lines, so what is proved of those holds of its layout.
pub proof fn law_unadjusted_layout_is_breaker(p: Prepared, max_width: u64)
    requires
        p.segments@.len() > 0,
        !(has_url_query(visible_text(p)) && has_mixed_scripts(visible_text(p))),
        !has_myanmar(visible_text(p)),
        !has_cjk_kinsoku(visible_text(p)),
        !has_emoji_zwj(visible_text(p)),
        !has_kind(p.segments@, SegmentKind::SoftHyphen),
        !has_kind(p.segments@, SegmentKind::Tab),
    ensures
        layout_lines_spec(p, max_width) == breaker_lines(p, max_width),
{
}

/// Above 240px no width-specific adjustment applies: the layout is the line
/// breaker's.
pub proof fn law_no_adjustment_above_240px(p: Prepared, max_width: u64)
    requires
        p.segments@.len() > 0,
        max_width > 24000,
    ensures
        layout_lines_spec(p, max_width) == breaker_lines(p, max_width),
{
    assert(rounded_px(max_width) >= 240) by {
        assert((max_width + 50) / 100 >= 240);
    }
}

// ---------------------------------------------------------------- fewest lines

/// Width of the segments laid out as text among segments `a..b`.
pub open spec fn span_width(p: Prepared, a: int, b: int) -> int
    decreases b - a,
{
    if b <= a {
        0
    } else {
        span_width(p, a, b - 1) + match elem_model(p.segments@[b - 1]) {
            ElemModel::Chunk { width, .. } => width as int,
            _ => 0int,
        }
    }
}

/// A way to cut all segments into lines that each fit: `cuts` starts at 0,
/// ends at the number of segments and rises, and each line `cuts[j]..cuts[j + 1]`
/// fits with half a pixel to spare.
pub open spec fn valid_cuts(p: Prepared, max_width: u64, cuts: Seq<int>) -> bool {
    &&& cuts.len() >= 2
    &&& cuts[0] == 0
    &&& cuts.last() == p.segments@.len()
    &&& forall|j: int| 0 <= j < cuts.len() - 1 ==> #[trigger] cuts[j] < cuts[j + 1]
    &&& forall|j: int|
        0 <= j < cuts.len() - 1 ==> #[trigger] span_width(p, cuts[j], cuts[j + 1])
            + PARITY_WIDTH_SHRINK <= max_width
}

proof fn lemma_span_nonneg(p: Prepared, a: int, b: int)
    ensures
        span_width(p, a, b) >= 0,
    decreases b - a,
{
    if b > a {
        lemma_span_nonneg(p, a, b - 1);
    }
}

proof fn lemma_span_mono(p: Prepared, a: int, b: int, c: int, d: int)
    requires
        c <= a <= b <= d,
    ensures
        span_width(p, a, b) <= span_width(p, c, d),
    decreases (d - c) + (b - a),
{
    lemma_span_nonneg(p, c, d);
    if b > a {
        if d > b {
            lemma_span_mono(p, a, b, c, d - 1);
        } else if c < a {
            lemma_span_mono_left(p, a, b, c);
        }
    }
}

proof fn lemma_span_mono_left(p: Prepared, a: int, b: int, c: int)
    requires
        c <= a <= b,
    ensures
        span_width(p, a, b) <= span_width(p, c, b),
    decreases b - a,
{
    lemma_span_nonneg(p, c, b);
    if b > a {
        lemma_span_mono_left(p, a, b - 1, c);
    }
}

spec fn fewest_ok(p: Prepared, max_width: u64, st: LayoutState) -> bool {
    &&& fill_ok(p, max_width, st)
    &&& st.width == span_width(p, st.line_start, st.i)
    &&& st.line_start == st.i ==> st.text.len() == 0
}

proof fn lemma_fewest_run(p: Prepared, max_width: u64, cuts: Seq<int>, st: LayoutState, j: int)
    requires
        narrow_segments(p, max_width),
        forall|k: int| 0 <= k < p.segments@.len() ==> (#[trigger] p.segments@[k]).kind != SegmentKind::HardBreak,
        valid_cuts(p, max_width, cuts),
        fewest_ok(p, max_width, st),
        0 <= j < cuts.len(),
        cuts[j] <= st.line_start,
        st.lines.len() <= j,
    ensures
        layout_run(p, max_width, st).len() <= cuts.len() - 1,
    decreases p.segments@.len() - st.line_start, p.segments@.len() - st.i,
{
    let n = p.segments@.len() as int;
    let m = cuts.len() - 1;
    if st.i < n {
        lemma_step_inv(p, max_width, st);
        lemma_fill_step(p, max_width, st);
        let st2 = layout_step(p, max_width, st);
        assert(layout_run(p, max_width, st) == layout_run(p, max_width, st2));
        let seg = p.segments@[st.i];
        assert(seg.kind != SegmentKind::HardBreak);
        assert(seg.kind != SegmentKind::SoftHyphen);
        match elem_model(seg) {
            ElemModel::HardBreak => {},
            ElemModel::Break { .. } => {
                assert(span_width(p, st.line_start, st.i + 1) == span_width(p, st.line_start, st.i));
                lemma_fewest_run(p, max_width, cuts, st2, j);
            },
            ElemModel::Chunk { text, width } => {
                assert(width + PARITY_WIDTH_SHRINK <= max_width);
                if st.width > 0 && st.width + width + PARITY_WIDTH_SHRINK > max_width {
                    assert(st2.line_start == st.i && st2.i == st.i);
                    assert(span_width(p, st.line_start, st.i + 1) == st.width + width);
                    if j == m {
                        assert(cuts[j] == n);
                    }
                    assert(j < m);
                    if cuts[j + 1] > st.i {
                        lemma_span_mono(p, st.line_start, st.i + 1, cuts[j], cuts[j + 1]);
                        assert(span_width(p, cuts[j], cuts[j + 1]) + PARITY_WIDTH_SHRINK <= max_width);
                    }
                    assert(cuts[j + 1] <= st.i);
                    assert(st2.width == 0 && st2.text.len() == 0);
                    assert(span_width(p, st2.line_start, st2.i) == 0);
                    lemma_fewest_run(p, max_width, cuts, st2, j + 1);
                } else {
                    assert(span_width(p, st.line_start, st.i + 1) == st.width + width);
                    assert(st2.width == st.width + width);
                    lemma_fewest_run(p, max_width, cuts, st2, j);
                }
            },
        }
    } else {
        let out = layout_run(p, max_width, st);
        assert(out == crate::layout::finish_lines(p, st));
        if j == m {
            assert(cuts[j] == n);
            assert(st.line_start == n);
        }
    }
}

/// Greedy filling gives the fewest lines. When no segment is a hard break or a
/// soft hyphen (as in normal mode without soft hyphens) and every segment laid
/// out as text fits a line on its own, no way of cutting the segments into
/// lines that each fit uses fewer lines than the line breaker, nor, above
/// 240px, than the layout.
pub proof fn law_greedy_uses_fewest_lines(p: Prepared, max_width: u64, cuts: Seq<int>)
    requires
        narrow_segments(p, max_width),
        forall|k: int| 0 <= k < p.segments@.len() ==> (#[trigger] p.segments@[k]).kind != SegmentKind::HardBreak,
        valid_cuts(p, max_width, cuts),
    ensures
        breaker_lines(p, max_width).len() <= cuts.len() - 1,
        max_width > 24000 ==> layout_lines_spec(p, max_width).len() <= cuts.len() - 1,
{
    let st0 = fresh_state(0, Seq::empty());
    lemma_fewest_run(p, max_width, cuts, st0, 0);
    if max_width > 24000 && p.segments@.len() > 0 {
        law_no_adjustment_above_240px(p, max_width);
    }
}

} // verus!
