//! Properties of segmentation and layout that hold for every input.
use vstd::prelude::*;
use crate::layout::{
    fresh_state, layout_inv, layout_lines_spec, layout_run, layout_step, lemma_step_inv,
    ElemModel, elem_model, LayoutState, LineModel,
};
use crate::patches::{adjustment, has_kind, patched};
use crate::overlong::{lemma_overlong_parts_nonempty, overlong_parts, PARITY_WIDTH_SHRINK};
use crate::monotone_laws::lemma_last_part;
use crate::prepare::{
    is_collapsible_ws, mode_pieces, normalize_newlines, pieces_of, Prepared, SegmentKind,
    WhiteSpaceMode,
};
use crate::segment_laws::{law_pre_wrap_keeps_text, law_whitespace_only_has_no_segments};

verus! {

/// Lines already made are kept: every step only adds lines.
proof fn lemma_step_keeps_lines(p: Prepared, max_width: u64, st: LayoutState)
    requires
        layout_inv(p, st),
        st.i < p.segments@.len(),
    ensures
        layout_step(p, max_width, st).lines.len() >= st.lines.len(),
        forall|k: int|
            0 <= k < st.lines.len() ==> #[trigger] layout_step(p, max_width, st).lines[k]
                == st.lines[k],
{
    lemma_step_inv(p, max_width, st);
}

pub(crate) proof fn lemma_run_keeps_lines(p: Prepared, max_width: u64, st: LayoutState)
    requires
        layout_inv(p, st),
    ensures
        layout_run(p, max_width, st).len() >= st.lines.len(),
        layout_run(p, max_width, st).len() >= 1,
        forall|k: int|
            0 <= k < st.lines.len() ==> #[trigger] layout_run(p, max_width, st)[k] == st.lines[k],
    decreases p.segments@.len() - st.line_start, p.segments@.len() - st.i,
{
    if st.i < p.segments@.len() {
        lemma_step_inv(p, max_width, st);
        lemma_step_keeps_lines(p, max_width, st);
        let st2 = layout_step(p, max_width, st);
        lemma_run_keeps_lines(p, max_width, st2);
        assert forall|k: int| 0 <= k < st.lines.len() implies #[trigger] layout_run(
            p,
            max_width,
            st,
        )[k] == st.lines[k] by {
            assert(st2.lines[k] == st.lines[k]);
        }
    }
}

proof fn lemma_patched_keeps_some(p: Prepared, max_width: u64, lines: Seq<LineModel>)
    requires
        lines.len() >= 1,
    ensures
        patched(p, max_width, lines).len() >= 1,
{
}

/// A layout has no line exactly when the prepared text has no segment: empty
/// input lays out to nothing, and anything else to at least one line.
pub proof fn law_no_lines_iff_no_segments(p: Prepared, max_width: u64)
    ensures
        (layout_lines_spec(p, max_width).len() == 0) == (p.segments@.len() == 0),
{
    if p.segments@.len() > 0 {
        let st0 = fresh_state(0, Seq::empty());
        lemma_run_keeps_lines(p, max_width, st0);
        lemma_patched_keeps_some(p, max_width, layout_run(p, max_width, st0));
    }
}

proof fn lemma_run_hard_break(p: Prepared, max_width: u64, st: LayoutState, h: int)
    requires
        layout_inv(p, st),
        st.i <= h < p.segments@.len(),
        elem_model(p.segments@[h]) == ElemModel::HardBreak,
    ensures
        exists|k: int|
            0 <= k < layout_run(p, max_width, st).len() && #[trigger] layout_run(
                p,
                max_width,
                st,
            )[k].end == h,
    decreases p.segments@.len() - st.line_start, p.segments@.len() - st.i,
{
    lemma_step_inv(p, max_width, st);
    let st2 = layout_step(p, max_width, st);
    assert(layout_run(p, max_width, st) == layout_run(p, max_width, st2));
    if st.i == h {
        lemma_run_keeps_lines(p, max_width, st2);
        let k = st.lines.len() as int;
        assert(st2.lines[k].end == h);
        assert(layout_run(p, max_width, st2)[k] == st2.lines[k]);
        assert(layout_run(p, max_width, st)[k].end == h);
    } else {
        lemma_run_hard_break(p, max_width, st2, h);
    }
}

/// In a text with a hard break the adjustment never joins lines, so the line
/// at each position keeps its end.
proof fn lemma_patched_keeps_end(p: Prepared, max_width: u64, lines: Seq<LineModel>, k: int)
    requires
        0 <= k < lines.len(),
        has_kind(p.segments@, SegmentKind::HardBreak),
    ensures
        k < patched(p, max_width, lines).len(),
        patched(p, max_width, lines)[k].end == lines[k].end,
{
    let a = adjustment(p, max_width, lines.len() as int);
    assert(!(a is Join));
    if a is Split && lines.last().text.len() > 1 {
        assert(lines[lines.len() - 1] == lines.last());
    }
}

/// A hard break always ends a line: for each hard-break segment there is a
/// line whose end is that segment, so no line runs across a hard break.
pub proof fn law_hard_break_ends_a_line(p: Prepared, max_width: u64, h: int)
    requires
        0 <= h < p.segments@.len(),
        p.segments@[h].kind == SegmentKind::HardBreak,
    ensures
        exists|k: int|
            0 <= k < layout_lines_spec(p, max_width).len() && #[trigger] layout_lines_spec(
                p,
                max_width,
            )[k].end == h,
{
    let st0 = fresh_state(0, Seq::empty());
    lemma_run_hard_break(p, max_width, st0, h);
    let run = layout_run(p, max_width, st0);
    let k = choose|k: int| 0 <= k < run.len() && #[trigger] run[k].end == h;
    assert(p.segments@[h].kind == SegmentKind::HardBreak);
    assert(has_kind(p.segments@, SegmentKind::HardBreak));
    lemma_patched_keeps_end(p, max_width, run, k);
    assert(layout_lines_spec(p, max_width) == patched(p, max_width, run));
    assert(layout_lines_spec(p, max_width)[k].end == h);
}

/// How many of the first `n` segments are hard breaks.
pub open spec fn hard_break_count(p: Prepared, n: int) -> int
    decreases n,
{
    if n <= 0 {
        0
    } else if p.segments@[n - 1].kind == SegmentKind::HardBreak {
        hard_break_count(p, n - 1) + 1
    } else {
        hard_break_count(p, n - 1)
    }
}

/// Whether, among the first `n` segments, some segment laid out as text with
/// some text comes after the last hard break (or there is no hard break).
pub open spec fn text_since_hard_break(p: Prepared, n: int) -> bool
    decreases n,
{
    if n <= 0 {
        false
    } else {
        match elem_model(p.segments@[n - 1]) {
            ElemModel::HardBreak => false,
            ElemModel::Chunk { text, .. } => text.len() > 0 || text_since_hard_break(p, n - 1),
            ElemModel::Break { .. } => text_since_hard_break(p, n - 1),
        }
    }
}

/// The lines that hard breaks force among the first `n` segments.
pub open spec fn forced_lines(p: Prepared, n: int) -> int {
    hard_break_count(p, n) + if text_since_hard_break(p, n) {
        1int
    } else {
        0int
    }
}

spec fn count_ok(p: Prepared, st: LayoutState) -> bool {
    &&& layout_inv(p, st)
    &&& st.lines.len() >= hard_break_count(p, st.i)
    &&& st.lines.len() + (if st.text.len() > 0 {
        1int
    } else {
        0int
    }) >= forced_lines(p, st.i)
}

proof fn lemma_count_step(p: Prepared, max_width: u64, st: LayoutState)
    requires
        count_ok(p, st),
        st.i < p.segments@.len(),
    ensures
        count_ok(p, layout_step(p, max_width, st)),
{
    lemma_step_inv(p, max_width, st);
    let st2 = layout_step(p, max_width, st);
    let i = st.i;
    assert(p.segments@[i].kind == SegmentKind::HardBreak <==> elem_model(p.segments@[i])
        is HardBreak);
    assert(hard_break_count(p, i + 1) == hard_break_count(p, i) + if p.segments@[i].kind
        == SegmentKind::HardBreak {
        1int
    } else {
        0int
    });
    if st2.i <= i {
        lemma_hard_break_count_mono(p, st2.i, i);
    }
    match elem_model(p.segments@[i]) {
        ElemModel::Chunk { text, width } => {
            if st.width == 0 && width > max_width {
                let parts = overlong_parts(text, width, max_width, p.space_width);
                lemma_overlong_parts_nonempty(text, width, max_width, p.space_width);
                if text.len() > 0 {
                    lemma_last_part(text, width, max_width, p.space_width);
                }
                assert(st2.text == st.text + parts[parts.len() - 1].0);
            } else if st.width > 0 && st.width + width + PARITY_WIDTH_SHRINK > max_width {
            } else {
                assert(st2.text == st.text + text);
            }
        },
        _ => {},
    }
}

proof fn lemma_hard_break_count_mono(p: Prepared, a: int, b: int)
    requires
        0 <= a <= b,
    ensures
        hard_break_count(p, a) <= hard_break_count(p, b),
    decreases b - a,
{
    if a < b {
        lemma_hard_break_count_mono(p, a, b - 1);
    }
}

proof fn lemma_count_run(p: Prepared, max_width: u64, st: LayoutState)
    requires
        count_ok(p, st),
    ensures
        layout_run(p, max_width, st).len() >= forced_lines(p, p.segments@.len() as int),
        layout_run(p, max_width, st).len() >= st.lines.len(),
    decreases p.segments@.len() - st.line_start, p.segments@.len() - st.i,
{
    if st.i < p.segments@.len() {
        lemma_step_inv(p, max_width, st);
        lemma_count_step(p, max_width, st);
        lemma_run_keeps_lines(p, max_width, st);
        lemma_count_run(p, max_width, layout_step(p, max_width, st));
    }
}

/// Hard breaks force line boundaries: a layout has at least one line per hard
/// break, and one more when some segment with text comes after the last hard
/// break (or there is no hard break at all).
pub proof fn law_hard_breaks_count_lines(p: Prepared, max_width: u64)
    ensures
        layout_lines_spec(p, max_width).len() >= forced_lines(p, p.segments@.len() as int),
{
    let n = p.segments@.len() as int;
    if n > 0 {
        let st0 = fresh_state(0, Seq::empty());
        lemma_count_run(p, max_width, st0);
        lemma_run_keeps_lines(p, max_width, st0);
        let run = layout_run(p, max_width, st0);
        if has_kind(p.segments@, SegmentKind::HardBreak) {
            assert(!(adjustment(p, max_width, run.len() as int) is Join));
        } else {
            lemma_no_hard_break(p, n);
        }
    }
}

proof fn lemma_no_hard_break(p: Prepared, n: int)
    requires
        0 <= n <= p.segments@.len(),
        !has_kind(p.segments@, SegmentKind::HardBreak),
    ensures
        hard_break_count(p, n) == 0,
    decreases n,
{
    if n > 0 {
        assert(p.segments@[n - 1].kind != SegmentKind::HardBreak);
        lemma_no_hard_break(p, n - 1);
    }
}

/// In normal mode, a text of only spaces, tabs, newlines and carriage returns
/// lays out to no lines at all.
pub proof fn law_whitespace_only_lays_out_empty(text: Seq<char>, p: Prepared, max_width: u64)
    requires
        pieces_of(p.segments@) == mode_pieces(WhiteSpaceMode::Normal, normalize_newlines(text)),
        forall|i: int| 0 <= i < text.len() ==> is_collapsible_ws(#[trigger] text[i]) || text[i] == '\r',
    ensures
        layout_lines_spec(p, max_width).len() == 0,
{
    law_whitespace_only_has_no_segments(text);
    assert(pieces_of(p.segments@).len() == p.segments@.len());
}

/// In pre-wrap mode any non-empty text, even one of spaces only, lays out to
/// at least one line.
pub proof fn law_pre_wrap_text_has_a_line(text: Seq<char>, p: Prepared, max_width: u64)
    requires
        pieces_of(p.segments@) == mode_pieces(WhiteSpaceMode::PreWrap, normalize_newlines(text)),
        text.len() > 0,
    ensures
        layout_lines_spec(p, max_width).len() >= 1,
{
    law_pre_wrap_keeps_text(text);
    assert(pieces_of(p.segments@).len() == p.segments@.len());
    law_no_lines_iff_no_segments(p, max_width);
}

} // verus!
