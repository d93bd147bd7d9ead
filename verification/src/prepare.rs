//! Preparation: cutting a text into measured segments.
use vstd::prelude::*;
use crate::measure::Measurer;
use crate::text::{
    chars_of, is_arabic_base, is_arabic_base_spec, is_arabic_combining_mark,
    is_arabic_combining_mark_spec, push_char, string_from,
};

verus! {

/// How whitespace in the input is treated.
#[derive(Clone, Copy, Debug, PartialEq, Eq, Structural)]
pub enum WhiteSpaceMode {
    /// Runs of spaces, tabs and newlines collapse into one breakable space.
    Normal,
    /// Spaces, tabs and newlines are kept.
    PreWrap,
}

/// The role of a segment in line breaking.
#[derive(Clone, Copy, Debug, PartialEq, Eq, Structural)]
pub enum SegmentKind {
    Text,
    CollapsibleSpace,
    PreservedSpace,
    Tab,
    ZeroWidthBreak,
    SoftHyphen,
    HardBreak,
}

/// A piece of the input with its kind and width (hundredths of a pixel).
#[derive(Clone, Debug)]
pub struct Segment {
    pub text: String,
    pub kind: SegmentKind,
    pub width: u64,
}

/// A text cut into segments, ready for layout at any width.
#[derive(Clone, Debug)]
pub struct Prepared {
    pub segments: Vec<Segment>,
    pub discretionary_hyphen_width: u64,
    pub space_width: u64,
}

/// A segment without its width: what segmentation alone decides.
pub struct Piece {
    pub text: Seq<char>,
    pub kind: SegmentKind,
}

pub open spec fn piece_of(s: Segment) -> Piece {
    Piece { text: s.text@, kind: s.kind }
}

pub open spec fn pieces_of(segs: Seq<Segment>) -> Seq<Piece> {
    segs.map_values(|s: Segment| piece_of(s))
}

pub open spec fn piece(text: Seq<char>, kind: SegmentKind) -> Piece {
    Piece { text, kind }
}

/// Kinds that take no room on a line.
pub open spec fn is_zero_width_kind(k: SegmentKind) -> bool {
    k == SegmentKind::ZeroWidthBreak || k == SegmentKind::SoftHyphen || k == SegmentKind::HardBreak
}

/// A segment's width is what the measurer gives for its text, and zero for breaks.
pub open spec fn width_ok<M: Measurer>(s: Segment, m: M) -> bool {
    if is_zero_width_kind(s.kind) {
        s.width == 0
    } else {
        s.width == m.measured(s.text@)
    }
}

pub open spec fn widths_ok<M: Measurer>(segs: Seq<Segment>, m: M) -> bool {
    forall|i: int| 0 <= i < segs.len() ==> #[trigger] width_ok(segs[i], m)
}

// ---------------------------------------------------------------- newlines

/// What one input character becomes when line endings are normalised:
/// a CR before an LF disappears, any other CR becomes an LF.
pub open spec fn newline_piece(t: Seq<char>, i: int) -> Seq<char> {
    if t[i] == '\r' {
        if i + 1 < t.len() && t[i + 1] == '\n' {
            Seq::empty()
        } else {
            seq!['\n']
        }
    } else {
        seq![t[i]]
    }
}

pub open spec fn normalize_prefix(t: Seq<char>, n: int) -> Seq<char>
    decreases n,
{
    if n <= 0 {
        Seq::empty()
    } else {
        normalize_prefix(t, n - 1) + newline_piece(t, n - 1)
    }
}

/// `t` with CRLF and lone CR both turned into LF.
pub open spec fn normalize_newlines(t: Seq<char>) -> Seq<char> {
    normalize_prefix(t, t.len() as int)
}

pub fn normalize_newlines_exec(t: &Vec<char>) -> (out: Vec<char>)
    ensures
        out@ == normalize_newlines(t@),
{
    let mut out: Vec<char> = Vec::new();
    let mut i: usize = 0;
    while i < t.len()
        invariant
            i <= t@.len(),
            out@ == normalize_prefix(t@, i as int),
        decreases t.len() - i,
    {
        let c = t[i];
        if c == '\r' {
            if i + 1 < t.len() && t[i + 1] == '\n' {
                proof {
                    assert(out@ + Seq::<char>::empty() == out@);
                }
            } else {
                out.push('\n');
            }
        } else {
            out.push(c);
        }
        i += 1;
    }
    out
}

// ---------------------------------------------------------------- break characters

pub open spec fn is_zwsp(c: char) -> bool {
    c == '\u{200B}'
}

pub open spec fn is_shy(c: char) -> bool {
    c == '\u{00AD}'
}

/// State after reading `n` characters of `s` when splitting at zero-width
/// spaces and soft hyphens: the pieces emitted so far and the pending run.
pub open spec fn split_state(s: Seq<char>, base: SegmentKind, n: int) -> (Seq<Piece>, Seq<char>)
    decreases n,
{
    if n <= 0 {
        (Seq::empty(), Seq::empty())
    } else {
        let (out, buf) = split_state(s, base, n - 1);
        let c = s[n - 1];
        if is_zwsp(c) || is_shy(c) {
            let out1 = if buf.len() > 0 {
                out.push(piece(buf, base))
            } else {
                out
            };
            let k = if is_zwsp(c) {
                SegmentKind::ZeroWidthBreak
            } else {
                SegmentKind::SoftHyphen
            };
            (out1.push(piece(seq![c], k)), Seq::empty())
        } else {
            (out, buf.push(c))
        }
    }
}

/// The pieces of a run of text: maximal runs without zero-width spaces or
/// soft hyphens (of kind `base`), and each such break character on its own.
pub open spec fn split_pieces(s: Seq<char>, base: SegmentKind) -> Seq<Piece> {
    let (out, buf) = split_state(s, base, s.len() as int);
    if buf.len() > 0 {
        out.push(piece(buf, base))
    } else {
        out
    }
}

pub fn string_of_char(c: char) -> (s: String)
    ensures
        s@ == seq![c],
{
    let mut s = String::new();
    push_char(&mut s, c);
    s
}

/// A measured segment of `text`.
fn make_segment<M: Measurer>(text: &Vec<char>, kind: SegmentKind, measurer: &M) -> (s: Segment)
    requires
        !is_zero_width_kind(kind),
    ensures
        piece_of(s) == piece(text@, kind),
        width_ok(s, *measurer),
{
    let t = string_from(text);
    let w = measurer.measure(t.as_str());
    Segment { text: t, kind, width: w }
}

fn break_segment(c: char, kind: SegmentKind) -> (s: Segment)
    requires
        is_zero_width_kind(kind),
    ensures
        piece_of(s) == piece(seq![c], kind),
        s.width == 0,
{
    Segment { text: string_of_char(c), kind, width: 0 }
}

proof fn lemma_push_segment<M: Measurer>(out: Seq<Segment>, s: Segment, m: M)
    requires
        widths_ok(out, m),
        width_ok(s, m),
    ensures
        widths_ok(out.push(s), m),
        pieces_of(out.push(s)) == pieces_of(out).push(piece_of(s)),
{
    assert(pieces_of(out.push(s)) =~= pieces_of(out).push(piece_of(s)));
    assert forall|i: int| 0 <= i < out.push(s).len() implies #[trigger] width_ok(
        out.push(s)[i],
        m,
    ) by {
        if i < out.len() {
            assert(out.push(s)[i] == out[i]);
        }
    }
}

/// Pushing a measured segment keeps what came before `len` and the
/// measurements after it.
proof fn lemma_push_after<M: Measurer>(out: Seq<Segment>, len: int, s: Segment, m: M)
    requires
        0 <= len <= out.len(),
        widths_ok(out.skip(len), m),
        width_ok(s, m),
    ensures
        out.push(s).take(len) == out.take(len),
        out.push(s).skip(len) == out.skip(len).push(s),
        widths_ok(out.push(s).skip(len), m),
        pieces_of(out.push(s)) == pieces_of(out).push(piece_of(s)),
{
    assert(out.push(s).take(len) =~= out.take(len));
    assert(out.push(s).skip(len) =~= out.skip(len).push(s));
    lemma_push_segment(out.skip(len), s, m);
    assert(pieces_of(out.push(s)) =~= pieces_of(out).push(piece_of(s)));
}

/// Measured segments before and after a point are measured segments.
proof fn lemma_widths_join<M: Measurer>(segs: Seq<Segment>, len: int, m: M)
    requires
        0 <= len <= segs.len(),
        widths_ok(segs.take(len), m),
        widths_ok(segs.skip(len), m),
    ensures
        widths_ok(segs, m),
{
    assert forall|i: int| 0 <= i < segs.len() implies #[trigger] width_ok(segs[i], m) by {
        if i < len {
            assert(segs.take(len)[i] == segs[i]);
        } else {
            assert(segs.skip(len)[i - len] == segs[i]);
        }
    }
}

/// Appends the pieces of `text` (see `split_pieces`) to `out`: each maximal
/// run without zero-width spaces and soft hyphens as a segment of kind `base`
/// with the width `measurer` gives it, and each break character as a
/// zero-width segment of its own. What `out` held before is kept unchanged.
pub fn split_text_to_segments<M: Measurer>(
    text: &Vec<char>,
    base: SegmentKind,
    out: &mut Vec<Segment>,
    measurer: &M,
)
    requires
        !is_zero_width_kind(base),
    ensures
        final(out)@.len() >= old(out)@.len(),
        final(out)@.take(old(out)@.len() as int) == old(out)@,
        pieces_of(final(out)@.skip(old(out)@.len() as int)) == split_pieces(text@, base),
        widths_ok(final(out)@.skip(old(out)@.len() as int), *measurer),
        pieces_of(final(out)@) == pieces_of(old(out)@) + split_pieces(text@, base),
{
    let ghost start = pieces_of(out@);
    let ghost before = out@;
    let ghost len = out@.len() as int;
    proof {
        assert(out@.take(len) =~= before);
        assert(widths_ok(out@.skip(len), *measurer)) by {
            assert(out@.skip(len).len() == 0);
        }
    }
    let mut buf: Vec<char> = Vec::new();
    let mut i: usize = 0;
    while i < text.len()
        invariant
            i <= text@.len(),
            !is_zero_width_kind(base),
            len <= out@.len(),
            out@.take(len) == before,
            before.len() == len,
            pieces_of(before) == start,
            widths_ok(out@.skip(len), *measurer),
            pieces_of(out@) == start + split_state(text@, base, i as int).0,
            buf@ == split_state(text@, base, i as int).1,
        decreases text.len() - i,
    {
        let ch = text[i];
        if ch == '\u{200B}' || ch == '\u{00AD}' {
            if buf.len() > 0 {
                let s = make_segment(&buf, base, measurer);
                proof {
                    lemma_push_after(out@, len, s, *measurer);
                }
                out.push(s);
                buf = Vec::new();
            }
            let k = if ch == '\u{200B}' {
                SegmentKind::ZeroWidthBreak
            } else {
                SegmentKind::SoftHyphen
            };
            let s = break_segment(ch, k);
            proof {
                lemma_push_after(out@, len, s, *measurer);
            }
            out.push(s);
        } else {
            buf.push(ch);
        }
        proof {
            let (o, b) = split_state(text@, base, i as int);
            assert(split_state(text@, base, i + 1) == {
                let c = text@[i as int];
                if is_zwsp(c) || is_shy(c) {
                    let out1 = if b.len() > 0 {
                        o.push(piece(b, base))
                    } else {
                        o
                    };
                    let k = if is_zwsp(c) {
                        SegmentKind::ZeroWidthBreak
                    } else {
                        SegmentKind::SoftHyphen
                    };
                    (out1.push(piece(seq![c], k)), Seq::<char>::empty())
                } else {
                    (o, b.push(c))
                }
            });
        }
        i += 1;
    }
    if buf.len() > 0 {
        let s = make_segment(&buf, base, measurer);
        proof {
            lemma_push_after(out@, len, s, *measurer);
        }
        out.push(s);
    }
    proof {
        let all = out@;
        assert(all =~= all.take(len) + all.skip(len));
        lemma_pieces_concat(all.take(len), all.skip(len));
        let sp = split_pieces(text@, base);
        assert(pieces_of(all) == start + sp);
        assert(pieces_of(all.take(len)) == start);
        let tail = pieces_of(all.skip(len));
        assert(tail.len() == sp.len());
        assert forall|k: int| 0 <= k < sp.len() implies tail[k] == sp[k] by {
            assert((start + sp)[start.len() + k] == sp[k]);
            assert((pieces_of(all.take(len)) + tail)[start.len() + k] == tail[k]);
        }
        assert(tail =~= sp);
    }
}

/// The pieces of two runs of segments side by side.
proof fn lemma_pieces_concat(a: Seq<Segment>, b: Seq<Segment>)
    ensures
        pieces_of(a + b) == pieces_of(a) + pieces_of(b),
{
    assert(pieces_of(a + b) =~= pieces_of(a) + pieces_of(b));
}

/// Appends the pieces of a pending run to `out` and empties the run.
fn flush_text_buf<M: Measurer>(buf: &mut Vec<char>, out: &mut Vec<Segment>, measurer: &M)
    requires
        widths_ok(old(out)@, *measurer),
    ensures
        pieces_of(final(out)@) == pieces_of(old(out)@) + split_pieces(old(buf)@, SegmentKind::Text),
        widths_ok(final(out)@, *measurer),
        final(buf)@ == Seq::<char>::empty(),
{
    if buf.len() > 0 {
        let ghost before = out@;
        split_text_to_segments(buf, SegmentKind::Text, out, measurer);
        proof {
            lemma_widths_join(out@, before.len() as int, *measurer);
        }
        *buf = Vec::new();
    } else {
        proof {
            assert(split_pieces(buf@, SegmentKind::Text) =~= Seq::<Piece>::empty());
            assert(pieces_of(out@) + Seq::<Piece>::empty() =~= pieces_of(out@));
        }
    }
}

// ---------------------------------------------------------------- normal mode

/// Space, newline and tab: the whitespace that normal mode collapses.
pub open spec fn is_collapsible_ws(c: char) -> bool {
    c == ' ' || c == '\n' || c == '\t'
}

/// Reading from index `j` on, skipping whitespace: do Arabic combining marks
/// (at least one, if `saw_mark` is false) lead to an Arabic letter?
pub open spec fn arabic_scan(t: Seq<char>, j: int, saw_mark: bool) -> bool
    decreases t.len() - j,
{
    if j < 0 || j >= t.len() {
        false
    } else if is_collapsible_ws(t[j]) {
        arabic_scan(t, j + 1, saw_mark)
    } else if is_arabic_combining_mark_spec(t[j]) {
        arabic_scan(t, j + 1, true)
    } else {
        saw_mark && is_arabic_base_spec(t[j])
    }
}

/// Whether the space at `i` is followed (past whitespace) by Arabic combining
/// marks and then an Arabic letter; such a space is dropped.
pub open spec fn arabic_mark_cluster_after(t: Seq<char>, i: int) -> bool {
    0 <= i < t.len() && t[i] == ' ' && arabic_scan(t, i + 1, false)
}

pub fn space_before_arabic_mark_cluster(chars: &[char], space_index: usize) -> (b: bool)
    ensures
        b == arabic_mark_cluster_after(chars@, space_index as int),
{
    if space_index >= chars.len() || chars[space_index] != ' ' {
        return false;
    }
    let mut i = space_index + 1;
    let mut saw_mark = false;
    while i < chars.len()
        invariant
            space_index < i <= chars@.len(),
            chars@[space_index as int] == ' ',
            arabic_scan(chars@, space_index + 1, false) == arabic_scan(chars@, i as int, saw_mark),
        decreases chars.len() - i,
    {
        let ch = chars[i];
        if ch == ' ' || ch == '\n' || ch == '\t' {
            i += 1;
            continue;
        }
        if is_arabic_combining_mark(ch) {
            saw_mark = true;
            i += 1;
            continue;
        }
        return saw_mark && is_arabic_base(ch);
    }
    false
}

pub open spec fn collapsed_space() -> Piece {
    piece(seq![' '], SegmentKind::CollapsibleSpace)
}

/// State of normal-mode segmentation after `n` characters of `t`: pieces
/// emitted, the pending word, and whether a collapsed space is owed before
/// the next word.
pub open spec fn normal_state(t: Seq<char>, n: int) -> (Seq<Piece>, Seq<char>, bool)
    decreases n,
{
    if n <= 0 {
        (Seq::empty(), Seq::empty(), false)
    } else {
        let (out, tok, pending) = normal_state(t, n - 1);
        let c = t[n - 1];
        if is_collapsible_ws(c) {
            let out1 = out + split_pieces(tok, SegmentKind::Text);
            let pending1 = if out1.len() > 0 && !arabic_mark_cluster_after(t, n - 1) {
                true
            } else {
                pending
            };
            (out1, Seq::empty(), pending1)
        } else {
            let out1 = if pending {
                out.push(collapsed_space())
            } else {
                out
            };
            (out1, tok.push(c), false)
        }
    }
}

/// Normal-mode segmentation of an already normalised text: words split at
/// zero-width spaces and soft hyphens, separated by single collapsible spaces,
/// with no space at either end.
pub open spec fn normal_pieces(t: Seq<char>) -> Seq<Piece> {
    let (out, tok, pending) = normal_state(t, t.len() as int);
    let out1 = out + split_pieces(tok, SegmentKind::Text);
    if out1.len() > 0 && out1.last().kind == SegmentKind::CollapsibleSpace {
        out1.drop_last()
    } else {
        out1
    }
}

fn prepare_normal<M: Measurer>(text: &Vec<char>, out: &mut Vec<Segment>, measurer: &M)
    requires
        old(out)@.len() == 0,
    ensures
        pieces_of(final(out)@) == normal_pieces(text@),
        widths_ok(final(out)@, *measurer),
{
    let mut token: Vec<char> = Vec::new();
    let mut pending_space = false;
    let mut i: usize = 0;
    proof {
        assert(pieces_of(out@) =~= Seq::<Piece>::empty());
    }
    while i < text.len()
        invariant
            i <= text@.len(),
            widths_ok(out@, *measurer),
            (pieces_of(out@), token@, pending_space) == normal_state(text@, i as int),
        decreases text.len() - i,
    {
        let ch = text[i];
        if ch == ' ' || ch == '\n' || ch == '\t' {
            flush_text_buf(&mut token, out, measurer);
            if out.len() > 0 && !space_before_arabic_mark_cluster(text.as_slice(), i) {
                pending_space = true;
            }
            proof {
                assert(out@.len() == pieces_of(out@).len());
            }
            i += 1;
            continue;
        }
        if pending_space {
            let sp = string_of_char(' ');
            let w = measurer.measure(sp.as_str());
            let s = Segment { text: sp, kind: SegmentKind::CollapsibleSpace, width: w };
            proof {
                lemma_push_segment(out@, s, *measurer);
            }
            out.push(s);
            pending_space = false;
        }
        token.push(ch);
        i += 1;
    }
    flush_text_buf(&mut token, out, measurer);
    if out.len() > 0 && out[out.len() - 1].kind == SegmentKind::CollapsibleSpace {
        let ghost before = out@;
        out.pop();
        proof {
            assert(pieces_of(out@) =~= pieces_of(before).drop_last());
            assert forall|k: int| 0 <= k < out@.len() implies #[trigger] width_ok(
                out@[k],
                *measurer,
            ) by {
                assert(out@[k] == before[k]);
            }
        }
    }
}

// ---------------------------------------------------------------- pre-wrap mode

pub open spec fn preserved_space() -> Piece {
    piece(seq![' '], SegmentKind::PreservedSpace)
}

/// State of pre-wrap segmentation after `n` characters: pieces emitted and the
/// pending run of ordinary characters.
pub open spec fn pre_wrap_state(t: Seq<char>, n: int) -> (Seq<Piece>, Seq<char>)
    decreases n,
{
    if n <= 0 {
        (Seq::empty(), Seq::empty())
    } else {
        let (out, buf) = pre_wrap_state(t, n - 1);
        let c = t[n - 1];
        let flushed = out + split_pieces(buf, SegmentKind::Text);
        if c == '\n' {
            (flushed.push(piece(seq!['\n'], SegmentKind::HardBreak)), Seq::empty())
        } else if c == '\t' {
            (flushed.push(piece(seq!['\t'], SegmentKind::Tab)), Seq::empty())
        } else if c == ' ' {
            if flushed.len() > 0 && flushed.last().kind == SegmentKind::PreservedSpace {
                (
                    flushed.update(
                        flushed.len() - 1,
                        piece(flushed.last().text.push(' '), SegmentKind::PreservedSpace),
                    ),
                    Seq::empty(),
                )
            } else {
                (flushed.push(preserved_space()), Seq::empty())
            }
        } else {
            (out, buf.push(c))
        }
    }
}

/// Pre-wrap segmentation of an already normalised text: each newline is a hard
/// break, each tab its own segment, each run of spaces one preserved-space
/// segment, and the text between them split at zero-width spaces and soft hyphens.
pub open spec fn pre_wrap_pieces(t: Seq<char>) -> Seq<Piece> {
    let (out, buf) = pre_wrap_state(t, t.len() as int);
    out + split_pieces(buf, SegmentKind::Text)
}

fn prepare_pre_wrap<M: Measurer>(text: &Vec<char>, out: &mut Vec<Segment>, measurer: &M)
    requires
        old(out)@.len() == 0,
    ensures
        pieces_of(final(out)@) == pre_wrap_pieces(text@),
        widths_ok(final(out)@, *measurer),
{
    let mut buf: Vec<char> = Vec::new();
    let mut i: usize = 0;
    proof {
        assert(pieces_of(out@) =~= Seq::<Piece>::empty());
    }
    while i < text.len()
        invariant
            i <= text@.len(),
            widths_ok(out@, *measurer),
            (pieces_of(out@), buf@) == pre_wrap_state(text@, i as int),
        decreases text.len() - i,
    {
        let ch = text[i];
        if ch == '\n' {
            flush_text_buf(&mut buf, out, measurer);
            let s = break_segment('\n', SegmentKind::HardBreak);
            proof {
                lemma_push_segment(out@, s, *measurer);
            }
            out.push(s);
        } else if ch == '\t' {
            flush_text_buf(&mut buf, out, measurer);
            let tab = string_of_char('\t');
            let w = measurer.measure(tab.as_str());
            let s = Segment { text: tab, kind: SegmentKind::Tab, width: w };
            proof {
                lemma_push_segment(out@, s, *measurer);
            }
            out.push(s);
        } else if ch == ' ' {
            flush_text_buf(&mut buf, out, measurer);
            if out.len() > 0 && out[out.len() - 1].kind == SegmentKind::PreservedSpace {
                let ghost before = out@;
                let mut last = out.pop().unwrap();
                push_char(&mut last.text, ' ');
                last.width = measurer.measure(last.text.as_str());
                proof {
                    assert(width_ok(last, *measurer));
                    assert(pieces_of(out@.push(last)) =~= pieces_of(before).update(
                        before.len() - 1,
                        piece(pieces_of(before).last().text.push(' '), SegmentKind::PreservedSpace),
                    ));
                    assert forall|k: int| 0 <= k < out@.push(last).len() implies #[trigger] width_ok(
                        out@.push(last)[k],
                        *measurer,
                    ) by {
                        if k < out@.len() {
                            assert(out@.push(last)[k] == before[k]);
                        }
                    }
                }
                out.push(last);
            } else {
                let sp = string_of_char(' ');
                let w = measurer.measure(sp.as_str());
                let s = Segment { text: sp, kind: SegmentKind::PreservedSpace, width: w };
                proof {
                    lemma_push_segment(out@, s, *measurer);
                }
                out.push(s);
            }
        } else {
            buf.push(ch);
        }
        i += 1;
    }
    flush_text_buf(&mut buf, out, measurer);
}

// ---------------------------------------------------------------- prepare

pub open spec fn mode_pieces(mode: WhiteSpaceMode, t: Seq<char>) -> Seq<Piece> {
    match mode {
        WhiteSpaceMode::Normal => normal_pieces(t),
        WhiteSpaceMode::PreWrap => pre_wrap_pieces(t),
    }
}

/// Cuts `text` into segments for `mode`, measured with `measurer`. Line
/// endings are normalised first (CRLF and CR become LF).
pub fn prepare<M: Measurer>(text: &str, mode: WhiteSpaceMode, measurer: &M) -> (p: Prepared)
    ensures
        pieces_of(p.segments@) == mode_pieces(mode, normalize_newlines(text@)),
        widths_ok(p.segments@, *measurer),
        p.discretionary_hyphen_width == measurer.measured(seq!['-']),
        p.space_width == measurer.measured(seq![' ']),
{
    let chars = chars_of(text);
    let normalized = normalize_newlines_exec(&chars);
    let mut segments: Vec<Segment> = Vec::new();
    match mode {
        WhiteSpaceMode::Normal => prepare_normal(&normalized, &mut segments, measurer),
        WhiteSpaceMode::PreWrap => prepare_pre_wrap(&normalized, &mut segments, measurer),
    }
    let hyphen = string_of_char('-');
    let space = string_of_char(' ');
    Prepared {
        segments,
        discretionary_hyphen_width: measurer.measure(hyphen.as_str()),
        space_width: measurer.measure(space.as_str()),
    }
}

} // verus!
