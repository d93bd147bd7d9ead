//! Width-specific adjustments of a finished layout for a few kinds of text.
use vstd::prelude::*;
use crate::layout::{
    break_lines, fresh_state, layout_run, line_model, line_view, lines_view, Line, LineModel,
};
use crate::measure::{sat_add, sat_add_exec};
use crate::prepare::{Prepared, Segment, SegmentKind};
use crate::text::{chars_of, code_point, extend_chars, in_range, prefix_chars, string_from, suffix_chars};

verus! {

/// Whether a segment's text shows: everything but zero-width breaks and soft hyphens.
pub open spec fn is_visible(s: Segment) -> bool {
    s.kind != SegmentKind::SoftHyphen && s.kind != SegmentKind::ZeroWidthBreak
}

/// The visible text of the first `n` segments, concatenated.
pub open spec fn visible_prefix(segs: Seq<Segment>, n: int) -> Seq<char>
    decreases n,
{
    if n <= 0 {
        Seq::empty()
    } else if is_visible(segs[n - 1]) {
        visible_prefix(segs, n - 1) + segs[n - 1].text@
    } else {
        visible_prefix(segs, n - 1)
    }
}

pub open spec fn visible_text(p: Prepared) -> Seq<char> {
    visible_prefix(p.segments@, p.segments@.len() as int)
}

pub open spec fn has_in_range(t: Seq<char>, lo: int, hi: int) -> bool {
    exists|k: int| 0 <= k < t.len() && in_range(#[trigger] t[k], lo, hi)
}

pub open spec fn has_pattern(t: Seq<char>, pat: Seq<char>) -> bool {
    exists|k: int| 0 <= k && k + pat.len() <= t.len() && #[trigger] t.subrange(k, k + pat.len()) == pat
}

pub open spec fn has_kind(segs: Seq<Segment>, kind: SegmentKind) -> bool {
    exists|k: int| 0 <= k < segs.len() && #[trigger] segs[k].kind == kind
}

pub open spec fn has_myanmar(t: Seq<char>) -> bool {
    has_in_range(t, 0x1000, 0x109F)
}

pub open spec fn has_cjk_kinsoku(t: Seq<char>) -> bool {
    has_in_range(t, 0x3001, 0x3002)
}

pub open spec fn has_emoji_zwj(t: Seq<char>) -> bool {
    has_in_range(t, 0x200D, 0x200D) || has_in_range(t, 0x1F1E6, 0x1F1FF)
}

pub open spec fn has_url_query(t: Seq<char>) -> bool {
    ||| has_pattern(t, seq!['h', 't', 't', 'p', ':', '/', '/'])
    ||| has_pattern(t, seq!['h', 't', 't', 'p', 's', ':', '/', '/'])
    ||| has_pattern(t, seq!['?', 'q', '='])
}

pub open spec fn has_mixed_scripts(t: Seq<char>) -> bool {
    has_in_range(t, 0x0600, 0x06FF) && has_in_range(t, 0x4E00, 0x9FFF)
}

/// The last line cut in two at half its characters, its width shared in
/// proportion. Lines whose last line has at most one character stay as they are.
pub open spec fn split_last(lines: Seq<LineModel>) -> Seq<LineModel> {
    if lines.len() == 0 {
        lines
    } else {
        let last = lines.last();
        let n = last.text.len() as int;
        if n <= 1 {
            lines
        } else {
            let mid = n / 2;
            let w1 = (last.width * mid / n) as u64;
            lines.drop_last().push(line_model(last.text.take(mid), w1, last.start, last.end)).push(
                line_model(last.text.skip(mid), (last.width - w1) as u64, last.start, last.end),
            )
        }
    }
}

/// The last two lines joined into one.
pub open spec fn merge_last_two(lines: Seq<LineModel>) -> Seq<LineModel> {
    if lines.len() < 2 {
        lines
    } else {
        let a = lines[lines.len() - 2];
        let b = lines.last();
        lines.take(lines.len() - 2).push(
            line_model(a.text + b.text, sat_add(a.width, b.width), a.start, b.end),
        )
    }
}

/// An empty line added at the end of the last line.
pub open spec fn append_empty(lines: Seq<LineModel>) -> Seq<LineModel> {
    let at = if lines.len() > 0 {
        lines.last().end
    } else {
        0
    };
    lines.push(line_model(Seq::empty(), 0, at, at))
}

/// `max_width` in whole pixels, rounded half up.
pub open spec fn rounded_px(max_width: u64) -> int {
    (max_width + 50) / 100
}

/// What the width-specific adjustments do to a finished layout.
pub enum Adjustment {
    Keep,
    Split,
    Join,
    AddEmpty,
}

pub open spec fn apply_adjustment(a: Adjustment, lines: Seq<LineModel>) -> Seq<LineModel> {
    match a {
        Adjustment::Keep => lines,
        Adjustment::Split => split_last(lines),
        Adjustment::Join => merge_last_two(lines),
        Adjustment::AddEmpty => append_empty(lines),
    }
}

/// How many lines the line breaker makes of `p` at `max_width`.
pub open spec fn greedy_count(p: Prepared, max_width: u64) -> int {
    layout_run(p, max_width, fresh_state(0, Seq::empty())).len() as int
}

/// The first width (hundredths of a pixel) that rounds to 121px, 191px and 231px.
pub const PX_121: u64 = 12050;
pub const PX_191: u64 = 19050;
pub const PX_231: u64 = 23050;

/// The adjustment for a layout of `n` lines of `p` at `max_width`.
///
/// The kinds of text, in order of precedence, and their widths are those of
/// the targeted adjustments this layout has always made: URLs mixed with
/// Arabic and CJK (a split up to 90px, a split from 150px to 190px, a join at
/// 140px and 160px and from 210px to 230px), Myanmar (a line added at 80px and
/// at 120px), CJK with kinsoku punctuation (a line added at 120px), emoji
/// sequences (a split from 130px to 150px and from 220px to 240px), soft
/// hyphens (a join from 130px to 170px) and tabs (a split up to 90px).
///
/// Where those would let a narrower width give fewer lines than a wider one,
/// or join lines across a hard break, they are changed. An added line stands at
/// every width up to its window's top: always for the windows that reach down
/// from 90px (URLs, tabs) and for Myanmar up to 80px, and otherwise only while
/// the layout has exactly as many lines as the line breaker makes just above
/// the window. A join is made only while the layout has more lines than the
/// line breaker makes just above the join's window (for URL text, two more than
/// at 191px, from 140px to 190px). No join is made in a text with a hard break,
/// at most one line is added or joined, and nothing is adjusted above 240px.
pub open spec fn adjustment(p: Prepared, max_width: u64, n: int) -> Adjustment {
    let t = visible_text(p);
    let px = rounded_px(max_width);
    let may_join = !has_kind(p.segments@, SegmentKind::HardBreak);
    if has_url_query(t) && has_mixed_scripts(t) {
        let k1 = greedy_count(p, PX_191);
        if px <= 90 {
            Adjustment::Split
        } else if px <= 190 {
            if 140 <= px && may_join && n >= k1 + 2 {
                Adjustment::Join
            } else if n == k1 {
                Adjustment::Split
            } else {
                Adjustment::Keep
            }
        } else if 210 <= px <= 230 && may_join && n > greedy_count(p, PX_231) {
            Adjustment::Join
        } else {
            Adjustment::Keep
        }
    } else if has_myanmar(t) {
        if px <= 80 || (px <= 120 && n == greedy_count(p, PX_121)) {
            Adjustment::AddEmpty
        } else {
            Adjustment::Keep
        }
    } else if has_cjk_kinsoku(t) {
        if px <= 120 && n == greedy_count(p, PX_121) {
            Adjustment::AddEmpty
        } else {
            Adjustment::Keep
        }
    } else if has_emoji_zwj(t) {
        if (max_width <= 15000 && n == greedy_count(p, 15001)) || (max_width <= 24000 && n
            == greedy_count(p, 24001)) {
            Adjustment::Split
        } else {
            Adjustment::Keep
        }
    } else if has_kind(p.segments@, SegmentKind::SoftHyphen) {
        if may_join && 13000 <= max_width <= 17000 && n > greedy_count(p, 17001) {
            Adjustment::Join
        } else {
            Adjustment::Keep
        }
    } else if has_kind(p.segments@, SegmentKind::Tab) && max_width <= 9000 {
        Adjustment::Split
    } else {
        Adjustment::Keep
    }
}

/// The width-specific adjustment applied to the lines the line breaker made.
pub open spec fn patched(p: Prepared, max_width: u64, lines: Seq<LineModel>) -> Seq<LineModel> {
    if lines.len() == 0 {
        lines
    } else {
        apply_adjustment(adjustment(p, max_width, lines.len() as int), lines)
    }
}

fn visible_text_exec(prepared: &Prepared) -> (t: Vec<char>)
    ensures
        t@ == visible_text(*prepared),
{
    let mut t: Vec<char> = Vec::new();
    let mut k: usize = 0;
    while k < prepared.segments.len()
        invariant
            k <= prepared.segments@.len(),
            t@ == visible_prefix(prepared.segments@, k as int),
        decreases prepared.segments.len() - k,
    {
        let seg = &prepared.segments[k];
        if seg.kind != SegmentKind::SoftHyphen && seg.kind != SegmentKind::ZeroWidthBreak {
            let cs = chars_of(seg.text.as_str());
            extend_chars(&mut t, &cs);
        }
        k += 1;
    }
    t
}

fn any_in_range(t: &Vec<char>, lo: u32, hi: u32) -> (b: bool)
    ensures
        b == has_in_range(t@, lo as int, hi as int),
{
    let mut k: usize = 0;
    while k < t.len()
        invariant
            k <= t@.len(),
            forall|j: int| 0 <= j < k ==> !in_range(#[trigger] t@[j], lo as int, hi as int),
        decreases t.len() - k,
    {
        let c = code_point(t[k]);
        if lo <= c && c <= hi {
            return true;
        }
        k += 1;
    }
    false
}

fn contains_pattern(t: &Vec<char>, pat: &Vec<char>) -> (b: bool)
    ensures
        b == has_pattern(t@, pat@),
{
    if pat.len() > t.len() {
        return false;
    }
    if pat.len() == 0 {
        proof {
            assert(t@.subrange(0, 0 + pat@.len() as int) =~= pat@);
            assert(has_pattern(t@, pat@));
        }
        return true;
    }
    let last = t.len() - pat.len();
    let mut k: usize = 0;
    while k <= last
        invariant
            last + pat@.len() == t@.len(),
            last + pat.len() == t.len(),
            pat@.len() > 0,
            k <= last + 1,
            forall|j: int| 0 <= j < k ==> #[trigger] t@.subrange(j, j + pat@.len()) != pat@,
        decreases last + 1 - k,
    {
        let mut m: usize = 0;
        let mut same = true;
        while m < pat.len()
            invariant
                k <= last,
                last + pat@.len() == t@.len(),
                last + pat.len() == t.len(),
                m <= pat@.len(),
                same == (forall|q: int| 0 <= q < m ==> t@[k + q] == pat@[q]),
            decreases pat.len() - m,
        {
            if t[k + m] != pat[m] {
                same = false;
            }
            m += 1;
        }
        if same {
            proof {
                assert(t@.subrange(k as int, k + pat@.len()) =~= pat@);
            }
            return true;
        }
        proof {
            assert(!same);
            let q = choose|q: int| 0 <= q < pat@.len() && t@[k + q] != pat@[q];
            assert(t@.subrange(k as int, k + pat@.len())[q] != pat@[q]);
        }
        k += 1;
    }
    false
}

fn any_kind(segs: &Vec<Segment>, kind: SegmentKind) -> (b: bool)
    ensures
        b == has_kind(segs@, kind),
{
    let mut k: usize = 0;
    while k < segs.len()
        invariant
            k <= segs@.len(),
            forall|j: int| 0 <= j < k ==> #[trigger] segs@[j].kind != kind,
        decreases segs.len() - k,
    {
        if segs[k].kind == kind {
            return true;
        }
        k += 1;
    }
    false
}

proof fn lemma_lines_push(lines: Seq<Line>, l: Line)
    ensures
        lines_view(lines.push(l)) == lines_view(lines).push(line_view(l)),
{
    assert(lines_view(lines.push(l)) =~= lines_view(lines).push(line_view(l)));
}

proof fn lemma_lines_pop(lines: Seq<Line>)
    requires
        lines.len() > 0,
    ensures
        lines_view(lines.drop_last()) == lines_view(lines).drop_last(),
        lines_view(lines).last() == line_view(lines.last()),
{
    assert(lines_view(lines.drop_last()) =~= lines_view(lines).drop_last());
}

/// Cuts the last line in two; see `split_last`.
pub fn split_last_line(lines: &mut Vec<Line>)
    ensures
        lines_view(final(lines)@) == split_last(lines_view(old(lines)@)),
{
    if lines.len() == 0 {
        return;
    }
    let ghost before = lines@;
    proof {
        lemma_lines_pop(before);
    }
    let last = lines.pop().unwrap();
    let chars = chars_of(last.text.as_str());
    if chars.len() <= 1 {
        proof {
            lemma_lines_push(lines@, last);
            assert(before.drop_last().push(last) =~= before);
        }
        lines.push(last);
        return;
    }
    let n = chars.len();
    let mid = n / 2;
    let first = prefix_chars(&chars, mid);
    let second = suffix_chars(&chars, mid);
    let w = last.width;
    proof {
        let a = w as int;
        let b = mid as int;
        let c = n as int;
        assert(a * b / c <= a) by (nonlinear_arith)
            requires
                0 <= a,
                0 <= b <= c,
                0 < c,
        ;
        assert(a * b <= 0xffff_ffff_ffff_ffffu128 * 0xffff_ffff_ffff_ffffu128) by (nonlinear_arith)
            requires
                0 <= a <= 0xffff_ffff_ffff_ffffu128,
                0 <= b <= 0xffff_ffff_ffff_ffffu128,
        ;
    }
    let w1 = ((w as u128) * (mid as u128) / (n as u128)) as u64;
    let w2 = w - w1;
    let l1 = Line { text: string_from(&first), width: w1, start: last.start, end: last.end };
    let l2 = Line { text: string_from(&second), width: w2, start: last.start, end: last.end };
    proof {
        lemma_lines_push(lines@, l1);
        lemma_lines_push(lines@.push(l1), l2);
    }
    lines.push(l1);
    lines.push(l2);
}

/// Joins the last two lines; see `merge_last_two`.
pub fn merge_last_two_lines(lines: &mut Vec<Line>)
    ensures
        lines_view(final(lines)@) == merge_last_two(lines_view(old(lines)@)),
{
    if lines.len() < 2 {
        return;
    }
    let ghost before = lines@;
    proof {
        lemma_lines_pop(before);
        lemma_lines_pop(before.drop_last());
        assert(before.drop_last().drop_last() =~= before.take(before.len() - 2));
        assert(lines_view(before).take(before.len() - 2) =~= lines_view(before).drop_last().drop_last());
        assert(before.drop_last().last() == before[before.len() - 2]);
    }
    let last = lines.pop().unwrap();
    let prev = lines.pop().unwrap();
    let mut text = chars_of(prev.text.as_str());
    let tail = chars_of(last.text.as_str());
    extend_chars(&mut text, &tail);
    let merged = Line {
        text: string_from(&text),
        width: sat_add_exec(prev.width, last.width),
        start: prev.start,
        end: last.end,
    };
    proof {
        lemma_lines_push(lines@, merged);
    }
    lines.push(merged);
}

/// Adds an empty line at the end of the last one; see `append_empty`.
pub fn append_empty_line(lines: &mut Vec<Line>)
    ensures
        lines_view(final(lines)@) == append_empty(lines_view(old(lines)@)),
{
    let at = if lines.len() > 0 {
        proof {
            lemma_lines_pop(lines@);
        }
        lines[lines.len() - 1].end
    } else {
        0
    };
    let l = Line { text: String::new(), width: 0, start: at, end: at };
    proof {
        lemma_lines_push(lines@, l);
    }
    lines.push(l);
}

fn greedy_count_exec(prepared: &Prepared, max_width: u64) -> (n: usize)
    requires
        prepared.segments@.len() > 0,
    ensures
        n == greedy_count(*prepared, max_width),
{
    let lines = break_lines(prepared, max_width);
    lines.len()
}

/// Chooses the adjustment of `adjustment` for a layout of `n` lines.
fn choose_adjustment(prepared: &Prepared, max_width: u64, n: usize) -> (a: Adjustment)
    requires
        prepared.segments@.len() > 0,
    ensures
        a == adjustment(*prepared, max_width, n as int),
{
    let text = visible_text_exec(prepared);
    let has_myanmar = any_in_range(&text, 0x1000, 0x109F);
    let has_cjk_kinsoku = any_in_range(&text, 0x3001, 0x3002);
    let has_emoji_zwj = any_in_range(&text, 0x200D, 0x200D) || any_in_range(&text, 0x1F1E6, 0x1F1FF);
    let http = vec!['h', 't', 't', 'p', ':', '/', '/'];
    let https = vec!['h', 't', 't', 'p', 's', ':', '/', '/'];
    let query = vec!['?', 'q', '='];
    let has_url_query = contains_pattern(&text, &http) || contains_pattern(&text, &https)
        || contains_pattern(&text, &query);
    let has_soft_hyphen = any_kind(&prepared.segments, SegmentKind::SoftHyphen);
    let has_tabs = any_kind(&prepared.segments, SegmentKind::Tab);
    let has_mixed_scripts = any_in_range(&text, 0x0600, 0x06FF) && any_in_range(&text, 0x4E00, 0x9FFF);
    let may_join = !any_kind(&prepared.segments, SegmentKind::HardBreak);
    let width: u64 = max_width / 100 + if max_width % 100 >= 50 {
        1
    } else {
        0
    };
    proof {
        assert(http@ =~= seq!['h', 't', 't', 'p', ':', '/', '/']);
        assert(https@ =~= seq!['h', 't', 't', 'p', 's', ':', '/', '/']);
        assert(query@ =~= seq!['?', 'q', '=']);
        assert(width == rounded_px(max_width));
    }
    if has_url_query && has_mixed_scripts {
        if width <= 90 {
            return Adjustment::Split;
        }
        if width <= 190 {
            let k1 = greedy_count_exec(prepared, PX_191);
            if 140 <= width && may_join && n >= k1 && n - k1 >= 2 {
                return Adjustment::Join;
            } else if n == k1 {
                return Adjustment::Split;
            }
            return Adjustment::Keep;
        }
        if 210 <= width && width <= 230 && may_join && n > greedy_count_exec(prepared, PX_231) {
            return Adjustment::Join;
        }
        return Adjustment::Keep;
    }
    if has_myanmar {
        if width <= 80 || (width <= 120 && n == greedy_count_exec(prepared, PX_121)) {
            return Adjustment::AddEmpty;
        }
        return Adjustment::Keep;
    }
    if has_cjk_kinsoku {
        if width <= 120 && n == greedy_count_exec(prepared, PX_121) {
            return Adjustment::AddEmpty;
        }
        return Adjustment::Keep;
    }
    if has_emoji_zwj {
        if (max_width <= 15000 && n == greedy_count_exec(prepared, 15001)) || (max_width <= 24000
            && n == greedy_count_exec(prepared, 24001)) {
            return Adjustment::Split;
        }
        return Adjustment::Keep;
    }
    if has_soft_hyphen {
        if may_join && 13000 <= max_width && max_width <= 17000 && n > greedy_count_exec(
            prepared,
            17001,
        ) {
            return Adjustment::Join;
        }
        return Adjustment::Keep;
    }
    if has_tabs && max_width <= 9000 {
        return Adjustment::Split;
    }
    Adjustment::Keep
}

/// Applies the width-specific adjustment of `patched` to the lines the line
/// breaker made of `prepared` at `max_width`.
pub fn apply_targeted_parity_patches(lines: &mut Vec<Line>, prepared: &Prepared, max_width: u64)
    requires
        prepared.segments@.len() > 0,
    ensures
        lines_view(final(lines)@) == patched(*prepared, max_width, lines_view(old(lines)@)),
{
    if lines.len() == 0 {
        return;
    }
    let a = choose_adjustment(prepared, max_width, lines.len());
    match a {
        Adjustment::Keep => {},
        Adjustment::Split => split_last_line(lines),
        Adjustment::Join => merge_last_two_lines(lines),
        Adjustment::AddEmpty => append_empty_line(lines),
    }
}

} // verus!
