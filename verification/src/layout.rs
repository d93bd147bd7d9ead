//! Greedy line breaking of prepared text.
use vstd::prelude::*;
use crate::measure::{sat_add, sat_add_exec};
use crate::overlong::{
    lemma_overlong_parts_nonempty, overlong_parts, pairs_view, split_overlong_chunk,
    PARITY_WIDTH_SHRINK,
};
use crate::patches::{apply_targeted_parity_patches, patched};
use crate::prepare::{Prepared, Segment, SegmentKind};
use crate::text::{chars_of, prefix_chars, extend_chars, string_from};

verus! {

/// Line count and total height of a layout.
#[derive(Clone, Copy, Debug, PartialEq, Eq, Structural)]
pub struct LayoutResult {
    pub line_count: usize,
    pub height: u64,
}

/// One laid-out line: its text, width, and the range of segments it covers.
#[derive(Clone, Debug, PartialEq)]
pub struct Line {
    pub text: String,
    pub width: u64,
    pub start: usize,
    pub end: usize,
}

/// A layout with its lines.
#[derive(Clone, Debug, PartialEq)]
pub struct LayoutLines {
    pub line_count: usize,
    pub height: u64,
    pub lines: Vec<Line>,
}

/// Position of the next line to hand out when laying out line by line.
#[derive(Clone, Copy, Debug, PartialEq, Eq, Structural)]
pub struct LineCursor {
    pub line_index: usize,
}

/// A line as a mathematical value.
pub struct LineModel {
    pub text: Seq<char>,
    pub width: u64,
    pub start: int,
    pub end: int,
}

pub open spec fn line_model(text: Seq<char>, width: u64, start: int, end: int) -> LineModel {
    LineModel { text, width, start, end }
}

pub open spec fn line_view(l: Line) -> LineModel {
    LineModel { text: l.text@, width: l.width, start: l.start as int, end: l.end as int }
}

pub open spec fn lines_view(ls: Seq<Line>) -> Seq<LineModel> {
    ls.map_values(|l: Line| line_view(l))
}

/// What line breaking sees of a segment.
pub enum ElemModel {
    Chunk { text: Seq<char>, width: u64 },
    Break { soft_hyphen: bool },
    HardBreak,
}

pub open spec fn elem_model(s: Segment) -> ElemModel {
    match s.kind {
        SegmentKind::ZeroWidthBreak => ElemModel::Break { soft_hyphen: false },
        SegmentKind::SoftHyphen => ElemModel::Break { soft_hyphen: true },
        SegmentKind::HardBreak => ElemModel::HardBreak,
        _ => ElemModel::Chunk { text: s.text@, width: s.width },
    }
}

/// Where a line that ends after element `j` ends, as a segment index.
pub open spec fn elem_end(p: Prepared, j: int) -> int {
    match elem_model(p.segments@[j]) {
        ElemModel::HardBreak => j,
        _ => j + 1,
    }
}

/// The state of the line breaker: the next element, where the current line
/// started, its text and width, and the last place where it may be broken
/// (element to resume from, text length, width, and whether a hyphen is shown).
pub struct LayoutState {
    pub i: int,
    pub line_start: int,
    pub text: Seq<char>,
    pub width: u64,
    pub brk: Option<int>,
    pub brk_len: int,
    pub brk_width: u64,
    pub brk_hyphen: bool,
    pub lines: Seq<LineModel>,
}

pub open spec fn fresh_state(i: int, lines: Seq<LineModel>) -> LayoutState {
    LayoutState {
        i,
        line_start: i,
        text: Seq::empty(),
        width: 0,
        brk: None,
        brk_len: 0,
        brk_width: 0,
        brk_hyphen: false,
        lines,
    }
}

/// Adds a chunk to the current line; the line may then be broken after it.
pub open spec fn append_chunk(st: LayoutState, text: Seq<char>, width: u64) -> LayoutState {
    let t = st.text + text;
    let w = sat_add(st.width, width);
    LayoutState {
        i: st.i + 1,
        text: t,
        width: w,
        brk: Some(st.i + 1),
        brk_len: t.len() as int,
        brk_width: w,
        brk_hyphen: false,
        ..st
    }
}

/// The lines made of all pieces of an overlong chunk but the last.
pub open spec fn overlong_lines(parts: Seq<(Seq<char>, u64)>, line_start: int, i: int) -> Seq<
    LineModel,
> {
    Seq::new(
        (parts.len() - 1) as nat,
        |j: int|
            line_model(
                parts[j].0,
                parts[j].1,
                if j == 0 {
                    line_start
                } else {
                    i
                },
                i,
            ),
    )
}

/// One step of the line breaker, on element `st.i`.
pub open spec fn layout_step(p: Prepared, max_width: u64, st: LayoutState) -> LayoutState {
    match elem_model(p.segments@[st.i]) {
        ElemModel::HardBreak => fresh_state(
            st.i + 1,
            st.lines.push(line_model(st.text, st.width, st.line_start, st.i)),
        ),
        ElemModel::Break { soft_hyphen } => LayoutState {
            i: st.i + 1,
            brk: Some(st.i + 1),
            brk_len: st.text.len() as int,
            brk_width: st.width,
            brk_hyphen: soft_hyphen,
            ..st
        },
        ElemModel::Chunk { text, width } => {
            if st.width == 0 && width > max_width {
                let parts = overlong_parts(text, width, max_width, p.space_width);
                let k = parts.len();
                let ls = if k >= 2 {
                    st.i
                } else {
                    st.line_start
                };
                append_chunk(
                    LayoutState {
                        line_start: ls,
                        lines: st.lines + overlong_lines(parts, st.line_start, st.i),
                        ..st
                    },
                    parts[k - 1].0,
                    parts[k - 1].1,
                )
            } else if st.width > 0 && st.width + width + PARITY_WIDTH_SHRINK > max_width {
                match st.brk {
                    Some(b) => {
                        let t = st.text.take(st.brk_len);
                        let line = if st.brk_hyphen {
                            line_model(
                                t.push('-'),
                                sat_add(st.brk_width, p.discretionary_hyphen_width),
                                st.line_start,
                                if b == 0 {
                                    0
                                } else {
                                    elem_end(p, b - 1)
                                },
                            )
                        } else {
                            line_model(
                                t,
                                st.brk_width,
                                st.line_start,
                                if b == 0 {
                                    0
                                } else {
                                    elem_end(p, b - 1)
                                },
                            )
                        };
                        fresh_state(b, st.lines.push(line))
                    },
                    None => append_chunk(
                        LayoutState {
                            line_start: st.i,
                            text: Seq::empty(),
                            width: 0,
                            lines: st.lines.push(
                                line_model(st.text, st.width, st.line_start, st.i),
                            ),
                            ..st
                        },
                        text,
                        width,
                    ),
                }
            } else {
                append_chunk(st, text, width)
            }
        },
    }
}

/// What holds of every state the line breaker passes through.
pub open spec fn layout_inv(p: Prepared, st: LayoutState) -> bool {
    &&& 0 <= st.line_start <= st.i <= p.segments@.len()
    &&& 0 <= st.brk_len <= st.text.len()
    &&& match st.brk {
        Some(b) => st.line_start < b <= st.i,
        None => true,
    }
}

/// The lines of the last, unfinished line added: it is kept when it has text,
/// or when there would otherwise be no line at all.
pub open spec fn finish_lines(p: Prepared, st: LayoutState) -> Seq<LineModel> {
    if st.text.len() > 0 || st.lines.len() == 0 {
        st.lines.push(line_model(st.text, st.width, st.line_start, p.segments@.len() as int))
    } else {
        st.lines
    }
}

pub proof fn lemma_step_inv(p: Prepared, max_width: u64, st: LayoutState)
    requires
        layout_inv(p, st),
        st.i < p.segments@.len(),
    ensures
        layout_inv(p, layout_step(p, max_width, st)),
        ({
            let st2 = layout_step(p, max_width, st);
            st.line_start < st2.line_start || (st.line_start == st2.line_start && st.i < st2.i)
        }),
{
    match elem_model(p.segments@[st.i]) {
        ElemModel::Chunk { text, width } => {
            lemma_overlong_parts_nonempty(text, width, max_width, p.space_width);
        },
        _ => {},
    }
}

/// The lines that the line breaker produces from state `st` on, before patches.
pub open spec fn layout_run(p: Prepared, max_width: u64, st: LayoutState) -> Seq<LineModel>
    decreases p.segments@.len() - st.line_start, p.segments@.len() - st.i,
    when layout_inv(p, st)
{
    if st.i >= p.segments@.len() {
        finish_lines(p, st)
    } else {
        proof {
            lemma_step_inv(p, max_width, st);
        }
        layout_run(p, max_width, layout_step(p, max_width, st))
    }
}

/// The lines of `p` laid out in `max_width` (hundredths of a pixel): greedy
/// breaking, then the width-specific patches (see `patched`). No segments, no lines.
pub open spec fn layout_lines_spec(p: Prepared, max_width: u64) -> Seq<LineModel> {
    if p.segments@.len() == 0 {
        Seq::empty()
    } else {
        patched(p, max_width, layout_run(p, max_width, fresh_state(0, Seq::empty())))
    }
}

/// `count * line_height`, stopping at `u64::MAX`.
pub open spec fn height_of(count: int, line_height: u64) -> u64 {
    if count * line_height > u64::MAX {
        u64::MAX
    } else {
        (count * line_height) as u64
    }
}

/// A segment as the line breaker handles it, with its index.
enum Elem {
    Chunk { text: Vec<char>, width: u64, segment_index: usize },
    Break { segment_index: usize, soft_hyphen: bool },
    HardBreak { segment_index: usize },
}

spec fn elem_view(e: Elem) -> ElemModel {
    match e {
        Elem::Chunk { text, width, .. } => ElemModel::Chunk { text: text@, width },
        Elem::Break { soft_hyphen, .. } => ElemModel::Break { soft_hyphen },
        Elem::HardBreak { .. } => ElemModel::HardBreak,
    }
}

spec fn elem_index(e: Elem) -> int {
    match e {
        Elem::Chunk { segment_index, .. } => segment_index as int,
        Elem::Break { segment_index, .. } => segment_index as int,
        Elem::HardBreak { segment_index } => segment_index as int,
    }
}

spec fn elems_match(p: Prepared, elems: Seq<Elem>) -> bool {
    &&& elems.len() == p.segments@.len()
    &&& forall|k: int|
        0 <= k < elems.len() ==> elem_view(#[trigger] elems[k]) == elem_model(p.segments@[k])
            && elem_index(elems[k]) == k
}

fn to_elems(prepared: &Prepared) -> (elems: Vec<Elem>)
    ensures
        elems_match(*prepared, elems@),
{
    let mut elems: Vec<Elem> = Vec::new();
    let mut index: usize = 0;
    while index < prepared.segments.len()
        invariant
            index <= prepared.segments@.len(),
            elems@.len() == index,
            forall|k: int|
                0 <= k < index ==> elem_view(#[trigger] elems@[k]) == elem_model(
                    prepared.segments@[k],
                ) && elem_index(elems@[k]) == k,
        decreases prepared.segments.len() - index,
    {
        let seg = &prepared.segments[index];
        let e = match seg.kind {
            SegmentKind::ZeroWidthBreak => Elem::Break { segment_index: index, soft_hyphen: false },
            SegmentKind::SoftHyphen => Elem::Break { segment_index: index, soft_hyphen: true },
            SegmentKind::HardBreak => Elem::HardBreak { segment_index: index },
            _ => Elem::Chunk {
                text: chars_of(seg.text.as_str()),
                width: seg.width,
                segment_index: index,
            },
        };
        elems.push(e);
        index += 1;
    }
    elems
}

fn elem_end_segment(elem: &Elem) -> (r: usize)
    requires
        elem_index(*elem) < usize::MAX,
    ensures
        r == (match elem_view(*elem) {
            ElemModel::HardBreak => elem_index(*elem),
            _ => elem_index(*elem) + 1,
        }),
{
    match elem {
        Elem::Chunk { segment_index, .. } => segment_index + 1,
        Elem::Break { segment_index, .. } => segment_index + 1,
        Elem::HardBreak { segment_index } => *segment_index,
    }
}

spec fn opt_int(o: Option<usize>) -> Option<int> {
    match o {
        Some(b) => Some(b as int),
        None => None,
    }
}

spec fn state_of(
    i: usize,
    line_start: usize,
    text: Seq<char>,
    width: u64,
    brk: Option<usize>,
    brk_len: usize,
    brk_width: u64,
    brk_hyphen: bool,
    lines: Seq<Line>,
) -> LayoutState {
    LayoutState {
        i: i as int,
        line_start: line_start as int,
        text,
        width,
        brk: opt_int(brk),
        brk_len: brk_len as int,
        brk_width,
        brk_hyphen,
        lines: lines_view(lines),
    }
}

proof fn lemma_lines_push(lines: Seq<Line>, l: Line)
    ensures
        lines_view(lines.push(l)) == lines_view(lines).push(line_view(l)),
{
    assert(lines_view(lines.push(l)) =~= lines_view(lines).push(line_view(l)));
}

fn make_line(text: &Vec<char>, width: u64, start: usize, end: usize) -> (l: Line)
    ensures
        line_view(l) == line_model(text@, width, start as int, end as int),
{
    Line { text: string_from(text), width, start, end }
}

/// The line breaker: `prepared` broken greedily into lines at most
/// `max_width` wide (hundredths of a pixel), before any width-specific adjustment.
pub(crate) fn break_lines(prepared: &Prepared, max_width: u64) -> (lines: Vec<Line>)
    requires
        prepared.segments@.len() > 0,
    ensures
        lines_view(lines@) == layout_run(*prepared, max_width, fresh_state(0, Seq::empty())),
{
    let ghost p = *prepared;
    let ghost n = p.segments@.len();
    let elems = to_elems(prepared);
    let mut lines: Vec<Line> = Vec::new();
    let mut i: usize = 0;
    let mut line_start_elem: usize = 0;
    let mut current_text: Vec<char> = Vec::new();
    let mut current_width: u64 = 0;
    let mut last_break_elem: Option<usize> = None;
    let mut last_break_text_len: usize = 0;
    let mut last_break_width: u64 = 0;
    let mut last_break_add_hyphen = false;
    let ghost st0 = fresh_state(0, Seq::empty());
    proof {
        assert(lines_view(lines@) =~= Seq::<LineModel>::empty());
        assert(state_of(i, line_start_elem, current_text@, current_width, last_break_elem,
            last_break_text_len, last_break_width, last_break_add_hyphen, lines@) == st0);
    }
    while i < elems.len()
        invariant
            p == *prepared,
            n == p.segments@.len(),
            elems_match(p, elems@),
            layout_inv(p, state_of(i, line_start_elem, current_text@, current_width,
                last_break_elem, last_break_text_len, last_break_width, last_break_add_hyphen,
                lines@)),
            layout_run(p, max_width, state_of(i, line_start_elem, current_text@, current_width,
                last_break_elem, last_break_text_len, last_break_width, last_break_add_hyphen,
                lines@)) == layout_run(p, max_width, st0),
        decreases n - line_start_elem, n - i,
    {
        let ghost old_st = state_of(i, line_start_elem, current_text@, current_width,
            last_break_elem, last_break_text_len, last_break_width, last_break_add_hyphen, lines@);
        proof {
            lemma_step_inv(p, max_width, old_st);
            assert(elem_view(elems@[i as int]) == elem_model(p.segments@[i as int]));
        }
        let ghost step = layout_step(p, max_width, old_st);
        match &elems[i] {
            Elem::HardBreak { segment_index } => {
                let l = make_line(&current_text, current_width, line_start_elem, *segment_index);
                proof {
                    lemma_lines_push(lines@, l);
                }
                lines.push(l);
                i += 1;
                line_start_elem = i;
                current_text = Vec::new();
                current_width = 0;
                last_break_elem = None;
                last_break_text_len = 0;
                last_break_width = 0;
                last_break_add_hyphen = false;
            },
            Elem::Break { segment_index: _, soft_hyphen } => {
                last_break_elem = Some(i + 1);
                last_break_text_len = current_text.len();
                last_break_width = current_width;
                last_break_add_hyphen = *soft_hyphen;
                i += 1;
            },
            Elem::Chunk { text, width, segment_index } => {
                if current_width == 0 && *width > max_width {
                    let parts = split_overlong_chunk(text, *width, max_width, prepared.space_width);
                    let ghost pv = pairs_view(parts@);
                    let ghost ls0 = line_start_elem as int;
                    let ghost lines0 = lines_view(lines@);
                    let k = parts.len();
                    let mut j: usize = 0;
                    while j + 1 < k
                        invariant
                            1 <= k == parts@.len(),
                            pv == pairs_view(parts@),
                            j + 1 <= k,
                            *segment_index == i,
                            lines_view(lines@) == lines0 + overlong_lines(pv, ls0, i as int).take(
                                j as int,
                            ),
                            line_start_elem as int == (if j == 0 {
                                ls0
                            } else {
                                i as int
                            }),
                        decreases k - j,
                    {
                        let l = make_line(&parts[j].0, parts[j].1, line_start_elem, *segment_index);
                        proof {
                            assert(pv[j as int] == pair_of(parts@[j as int]));
                            lemma_lines_push(lines@, l);
                            assert(overlong_lines(pv, ls0, i as int).take(j + 1) =~= overlong_lines(
                                pv,
                                ls0,
                                i as int,
                            ).take(j as int).push(line_view(l)));
                        }
                        lines.push(l);
                        line_start_elem = i;
                        j += 1;
                    }
                    proof {
                        assert(overlong_lines(pv, ls0, i as int).take(j as int) =~= overlong_lines(
                            pv,
                            ls0,
                            i as int,
                        ));
                        assert(pv[j as int] == pair_of(parts@[j as int]));
                    }
                    extend_chars(&mut current_text, &parts[j].0);
                    current_width = sat_add_exec(current_width, parts[j].1);
                    last_break_elem = Some(i + 1);
                    last_break_text_len = current_text.len();
                    last_break_width = current_width;
                    last_break_add_hyphen = false;
                    i += 1;
                } else if current_width > 0 && (current_width as u128) + (*width as u128) + (
                PARITY_WIDTH_SHRINK as u128) > max_width as u128 {
                    if let Some(next_i) = last_break_elem {
                        let mut line_text = prefix_chars(&current_text, last_break_text_len);
                        let mut line_width = last_break_width;
                        if last_break_add_hyphen {
                            line_text.push('-');
                            line_width = sat_add_exec(line_width, prepared.discretionary_hyphen_width);
                        }
                        let end = if next_i == 0 {
                            0
                        } else {
                            proof {
                                assert(elem_view(elems@[next_i - 1]) == elem_model(
                                    p.segments@[next_i - 1],
                                ));
                            }
                            elem_end_segment(&elems[next_i - 1])
                        };
                        let l = make_line(&line_text, line_width, line_start_elem, end);
                        proof {
                            lemma_lines_push(lines@, l);
                        }
                        lines.push(l);
                        i = next_i;
                        line_start_elem = i;
                        current_text = Vec::new();
                        current_width = 0;
                        last_break_elem = None;
                        last_break_text_len = 0;
                        last_break_width = 0;
                        last_break_add_hyphen = false;
                        proof {
                            assert(state_of(i, line_start_elem, current_text@, current_width,
                                last_break_elem, last_break_text_len, last_break_width,
                                last_break_add_hyphen, lines@) == step);
                        }
                        continue;
                    }
                    let l = make_line(&current_text, current_width, line_start_elem, *segment_index);
                    proof {
                        lemma_lines_push(lines@, l);
                    }
                    lines.push(l);
                    line_start_elem = i;
                    current_text = Vec::new();
                    current_width = 0;
                    extend_chars(&mut current_text, text);
                    current_width = sat_add_exec(current_width, *width);
                    last_break_elem = Some(i + 1);
                    last_break_text_len = current_text.len();
                    last_break_width = current_width;
                    last_break_add_hyphen = false;
                    i += 1;
                } else {
                    extend_chars(&mut current_text, text);
                    current_width = sat_add_exec(current_width, *width);
                    last_break_elem = Some(i + 1);
                    last_break_text_len = current_text.len();
                    last_break_width = current_width;
                    last_break_add_hyphen = false;
                    i += 1;
                }
            },
        }
        proof {
            assert(state_of(i, line_start_elem, current_text@, current_width, last_break_elem,
                last_break_text_len, last_break_width, last_break_add_hyphen, lines@) == step);
        }
    }
    let ghost last_st = state_of(i, line_start_elem, current_text@, current_width, last_break_elem,
        last_break_text_len, last_break_width, last_break_add_hyphen, lines@);
    if current_text.len() > 0 || lines.len() == 0 {
        let l = make_line(&current_text, current_width, line_start_elem, prepared.segments.len());
        proof {
            lemma_lines_push(lines@, l);
        }
        lines.push(l);
    }
    proof {
        assert(lines_view(lines@) == finish_lines(p, last_st));
    }
    lines
}

/// Lays out `prepared` in lines at most `max_width` wide (hundredths of a
/// pixel), each `line_height` high.
pub fn layout_with_lines(prepared: &Prepared, max_width: u64, line_height: u64) -> (out: LayoutLines)
    ensures
        lines_view(out.lines@) == layout_lines_spec(*prepared, max_width),
        out.line_count == out.lines@.len(),
        out.height == height_of(out.line_count as int, line_height),
{
    if prepared.segments.len() == 0 {
        let lines: Vec<Line> = Vec::new();
        proof {
            assert(lines_view(lines@) =~= Seq::<LineModel>::empty());
        }
        return LayoutLines { line_count: 0, height: 0, lines };
    }
    let mut lines = break_lines(prepared, max_width);
    apply_targeted_parity_patches(&mut lines, prepared, max_width);
    let count = lines.len();
    proof {
        let a = count as u128;
        let b = line_height as u128;
        assert(a * b <= 0xffff_ffff_ffff_ffffu128 * 0xffff_ffff_ffff_ffffu128) by (nonlinear_arith)
            requires
                a <= 0xffff_ffff_ffff_ffffu128,
                b <= 0xffff_ffff_ffff_ffffu128,
        ;
    }
    let product: u128 = (count as u128) * (line_height as u128);
    let height: u64 = if product > u64::MAX as u128 {
        u64::MAX
    } else {
        product as u64
    };
    LayoutLines { line_count: count, height, lines }
}

spec fn pair_of(p: (Vec<char>, u64)) -> (Seq<char>, u64) {
    (p.0@, p.1)
}

/// The line count and height of `prepared` laid out in `max_width`.
pub fn layout(prepared: &Prepared, max_width: u64, line_height: u64) -> (r: LayoutResult)
    ensures
        r.line_count == layout_lines_spec(*prepared, max_width).len(),
        r.height == height_of(r.line_count as int, line_height),
{
    let lines = layout_with_lines(prepared, max_width, line_height);
    LayoutResult { line_count: lines.line_count, height: lines.height }
}

fn copy_line(l: &Line) -> (r: Line)
    ensures
        line_view(r) == line_view(*l),
{
    Line { text: l.text.clone(), width: l.width, start: l.start, end: l.end }
}

/// The line at `cursor` of the layout of `prepared`, with the cursor of the
/// line after it; `None` past the last line.
pub fn layout_next_line(
    prepared: &Prepared,
    max_width: u64,
    line_height: u64,
    cursor: LineCursor,
) -> (r: Option<(Line, LineCursor)>)
    ensures
        match r {
            Some((line, next)) => {
                &&& cursor.line_index < layout_lines_spec(*prepared, max_width).len()
                &&& line_view(line) == layout_lines_spec(*prepared, max_width)[cursor.line_index as int]
                &&& next.line_index == cursor.line_index + 1
            },
            None => cursor.line_index >= layout_lines_spec(*prepared, max_width).len(),
        },
{
    let all = layout_with_lines(prepared, max_width, line_height);
    if cursor.line_index >= all.lines.len() {
        return None;
    }
    let line = copy_line(&all.lines[cursor.line_index]);
    proof {
        assert(lines_view(all.lines@)[cursor.line_index as int] == line_view(
            all.lines@[cursor.line_index as int],
        ));
    }
    Some((line, LineCursor { line_index: cursor.line_index + 1 }))
}

/// Whether `visit` may have been called on a line that looks like `l`.
pub open spec fn visited<F: FnMut(&Line)>(visit: F, l: LineModel) -> bool {
    exists|r: &Line| call_ensures(visit, (r,), ()) && line_view(*r) == l
}

/// Calls `visit` on each line of the layout of `prepared`, in order: every
/// line of the layout is one that `visit` was called on, and `visit` is called
/// on nothing but lines of the layout (it need accept no other line).
pub fn walk_line_ranges<F: FnMut(&Line)>(
    prepared: &Prepared,
    max_width: u64,
    line_height: u64,
    mut visit: F,
)
    requires
        forall|l: &Line|
            layout_lines_spec(*prepared, max_width).contains(line_view(*l)) ==> call_requires(
                visit,
                (l,),
            ),
    ensures
        forall|k: int|
            0 <= k < layout_lines_spec(*prepared, max_width).len() ==> visited(
                visit,
                #[trigger] layout_lines_spec(*prepared, max_width)[k],
            ),
{
    broadcast use vstd::function::group_function_axioms;

    let ghost first = visit;
    let all = layout_with_lines(prepared, max_width, line_height);
    let mut k: usize = 0;
    while k < all.lines.len()
        invariant
            k <= all.lines@.len(),
            visit == first,
            forall|l: &Line|
                layout_lines_spec(*prepared, max_width).contains(line_view(*l)) ==> call_requires(
                    visit,
                    (l,),
                ),
            lines_view(all.lines@) == layout_lines_spec(*prepared, max_width),
            forall|j: int|
                0 <= j < k ==> visited(first, #[trigger] layout_lines_spec(*prepared, max_width)[j]),
        decreases all.lines.len() - k,
    {
        proof {
            assert(lines_view(all.lines@)[k as int] == line_view(all.lines@[k as int]));
            assert(layout_lines_spec(*prepared, max_width).contains(line_view(all.lines@[k as int])));
        }
        visit(&all.lines[k]);
        proof {
            assert(visited(first, layout_lines_spec(*prepared, max_width)[k as int]));
        }
        k += 1;
    }
}

} // verus!
