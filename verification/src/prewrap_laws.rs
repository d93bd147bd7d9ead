//! Pre-wrap text whose paragraphs fit the width: one line per paragraph.
use vstd::prelude::*;
use crate::layout::{
    elem_model, finish_lines, fresh_state, layout_inv, layout_lines_spec, layout_run, layout_step,
    lemma_step_inv, ElemModel, LayoutState, LineModel,
};
use crate::overlong::PARITY_WIDTH_SHRINK;
use crate::patches::{has_kind, patched, rounded_px};
use crate::prepare::{
    is_shy, is_zwsp, mode_pieces, normalize_newlines, piece_of, pieces_of, Piece, Prepared,
    SegmentKind, WhiteSpaceMode,
};
use crate::segment_laws::{
    concat_texts, is_word_char, law_pre_wrap_keeps_text, pre_wrap_piece_ok,
    word_piece_ok,
};

verus! {

/// The paragraphs of a text: it is split at each newline, and zero-width
/// spaces and soft hyphens are left out. There is always at least one.
pub open spec fn paragraphs(t: Seq<char>) -> Seq<Seq<char>>
    decreases t.len(),
{
    if t.len() == 0 {
        seq![Seq::empty()]
    } else {
        let ps = paragraphs(t.drop_last());
        let c = t.last();
        if c == '\n' {
            ps.push(Seq::empty())
        } else if is_zwsp(c) || is_shy(c) {
            ps
        } else {
            ps.update(ps.len() - 1, ps.last().push(c))
        }
    }
}

/// The lines a text lays out to when nothing wraps: its paragraphs, but an
/// empty last paragraph after a newline gives no line.
pub open spec fn unwrapped_lines(ps: Seq<Seq<char>>) -> Seq<Seq<char>> {
    if ps.len() >= 2 && ps.last().len() == 0 {
        ps.drop_last()
    } else {
        ps
    }
}

/// The paragraphs of a run of pieces: a hard break starts a new one, a
/// zero-width break or soft hyphen adds nothing, and any other piece adds its text.
pub open spec fn piece_paragraphs(ps: Seq<Piece>) -> Seq<Seq<char>>
    decreases ps.len(),
{
    if ps.len() == 0 {
        seq![Seq::empty()]
    } else {
        let qs = piece_paragraphs(ps.drop_last());
        let x = ps.last();
        if x.kind == SegmentKind::HardBreak {
            qs.push(Seq::empty())
        } else if x.kind == SegmentKind::ZeroWidthBreak || x.kind == SegmentKind::SoftHyphen {
            qs
        } else {
            qs.update(qs.len() - 1, qs.last() + x.text)
        }
    }
}

/// The texts of some lines.
pub open spec fn texts_of(lines: Seq<LineModel>) -> Seq<Seq<char>> {
    lines.map_values(|l: LineModel| l.text)
}

/// Width of the text laid out since the last hard break, after the first `n` segments.
pub open spec fn para_width(p: Prepared, n: int) -> int
    decreases n,
{
    if n <= 0 {
        0
    } else {
        match elem_model(p.segments@[n - 1]) {
            ElemModel::HardBreak => 0,
            ElemModel::Break { .. } => para_width(p, n - 1),
            ElemModel::Chunk { width, .. } => para_width(p, n - 1) + width,
        }
    }
}

/// Every paragraph fits a line, with half a pixel to spare.
pub open spec fn paragraphs_fit(p: Prepared, max_width: u64) -> bool {
    forall|n: int| 0 <= n <= p.segments@.len() ==> #[trigger] para_width(p, n) + PARITY_WIDTH_SHRINK <= max_width
}

// ---------------------------------------------------------------- text side

proof fn lemma_paragraphs_len(t: Seq<char>)
    ensures
        paragraphs(t).len() >= 1,
    decreases t.len(),
{
    if t.len() > 0 {
        lemma_paragraphs_len(t.drop_last());
    }
}

/// Appending text with no newline, zero-width space or soft hyphen extends the
/// last paragraph.
proof fn lemma_paragraphs_plain(a: Seq<char>, s: Seq<char>)
    requires
        forall|i: int| 0 <= i < s.len() ==> (#[trigger] s[i] != '\n' && !is_zwsp(s[i]) && !is_shy(s[i])),
    ensures
        paragraphs(a + s) == paragraphs(a).update(
            paragraphs(a).len() - 1,
            paragraphs(a).last() + s,
        ),
    decreases s.len(),
{
    lemma_paragraphs_len(a);
    let pa = paragraphs(a);
    if s.len() == 0 {
        assert(a + s =~= a);
        assert(pa.last() + s =~= pa.last());
        assert(pa.update(pa.len() - 1, pa.last()) =~= pa);
    } else {
        let s0 = s.drop_last();
        lemma_paragraphs_plain(a, s0);
        assert((a + s).drop_last() =~= a + s0);
        assert((a + s).last() == s.last());
        assert(s[s.len() - 1] == s.last());
        let q = pa.update(pa.len() - 1, pa.last() + s0);
        assert(q.last() == pa.last() + s0);
        assert(q.update(q.len() - 1, q.last().push(s.last())) =~= pa.update(
            pa.len() - 1,
            pa.last() + s,
        )) by {
            assert((pa.last() + s0).push(s.last()) =~= pa.last() + s);
        }
    }
}

proof fn lemma_paragraphs_one(a: Seq<char>, c: char)
    ensures
        paragraphs(a + seq![c]) == paragraphs(a.push(c)),
{
    assert(a + seq![c] =~= a.push(c));
}

/// The paragraphs of pre-wrap pieces are those of their text.
proof fn lemma_piece_paragraphs(ps: Seq<Piece>)
    requires
        forall|i: int| 0 <= i < ps.len() ==> #[trigger] pre_wrap_piece_ok(ps[i]),
    ensures
        piece_paragraphs(ps) == paragraphs(concat_texts(ps)),
    decreases ps.len(),
{
    if ps.len() == 0 {
        assert(concat_texts(ps) =~= Seq::<char>::empty());
    } else {
        let p0 = ps.drop_last();
        let x = ps.last();
        assert(pre_wrap_piece_ok(ps[ps.len() - 1]));
        assert forall|i: int| 0 <= i < p0.len() implies #[trigger] pre_wrap_piece_ok(p0[i]) by {
            assert(p0[i] == ps[i]);
        }
        lemma_piece_paragraphs(p0);
        let a = concat_texts(p0);
        assert(ps.drop_last() == p0);
        assert(concat_texts(ps) == a + x.text);
        lemma_paragraphs_len(a);
        if x.kind == SegmentKind::HardBreak {
            assert(x.text == seq!['\n']);
            lemma_paragraphs_one(a, '\n');
            assert(a.push('\n').drop_last() =~= a);
        } else if x.kind == SegmentKind::ZeroWidthBreak {
            assert(x.text == seq!['\u{200B}']);
            lemma_paragraphs_one(a, '\u{200B}');
            assert(a.push('\u{200B}').drop_last() =~= a);
        } else if x.kind == SegmentKind::SoftHyphen {
            assert(x.text == seq!['\u{00AD}']);
            lemma_paragraphs_one(a, '\u{00AD}');
            assert(a.push('\u{00AD}').drop_last() =~= a);
        } else {
            assert forall|i: int| 0 <= i < x.text.len() implies (#[trigger] x.text[i] != '\n'
                && !is_zwsp(x.text[i]) && !is_shy(x.text[i])) by {
                if x.kind == SegmentKind::Text {
                    assert(word_piece_ok(x));
                    assert(is_word_char(x.text[i]));
                }
            }
            lemma_paragraphs_plain(a, x.text);
        }
    }
}

// ---------------------------------------------------------------- line breaker side

proof fn lemma_piece_paragraphs_len(ps: Seq<Piece>)
    ensures
        piece_paragraphs(ps).len() >= 1,
    decreases ps.len(),
{
    if ps.len() > 0 {
        lemma_piece_paragraphs_len(ps.drop_last());
    }
}

spec fn para_ok(p: Prepared, max_width: u64, st: LayoutState) -> bool {
    &&& layout_inv(p, st)
    &&& texts_of(st.lines).push(st.text) == piece_paragraphs(pieces_of(p.segments@).take(st.i))
    &&& st.width == para_width(p, st.i)
}

proof fn lemma_para_step(p: Prepared, max_width: u64, st: LayoutState)
    requires
        para_ok(p, max_width, st),
        paragraphs_fit(p, max_width),
        st.i < p.segments@.len(),
    ensures
        para_ok(p, max_width, layout_step(p, max_width, st)),
{
    lemma_step_inv(p, max_width, st);
    let st2 = layout_step(p, max_width, st);
    let ps = pieces_of(p.segments@);
    let i = st.i;
    let seg = p.segments@[i];
    assert(ps.take(i + 1).drop_last() =~= ps.take(i));
    assert(ps.take(i + 1).last() == piece_of(seg));
    lemma_piece_paragraphs_len(ps.take(i));
    let qs = piece_paragraphs(ps.take(i));
    assert(qs == texts_of(st.lines).push(st.text));
    assert(qs.last() == st.text);
    assert(para_width(p, i + 1) + PARITY_WIDTH_SHRINK <= max_width);
    match elem_model(seg) {
        ElemModel::HardBreak => {
            assert(texts_of(st2.lines) =~= texts_of(st.lines).push(st.text));
            assert(texts_of(st2.lines).push(Seq::empty()) =~= qs.push(Seq::empty()));
        },
        ElemModel::Break { .. } => {},
        ElemModel::Chunk { text, width } => {
            assert(para_width(p, i + 1) == st.width + width);
            assert(!(st.width == 0 && width > max_width));
            assert(!(st.width > 0 && st.width + width + PARITY_WIDTH_SHRINK > max_width));
            assert(st2.text == st.text + text);
            assert(st2.width == st.width + width);
            assert(texts_of(st2.lines).push(st2.text) =~= qs.update(qs.len() - 1, qs.last() + text));
        },
    }
}

proof fn lemma_para_run(p: Prepared, max_width: u64, st: LayoutState)
    requires
        para_ok(p, max_width, st),
        paragraphs_fit(p, max_width),
    ensures
        texts_of(layout_run(p, max_width, st)) == unwrapped_lines(
            piece_paragraphs(pieces_of(p.segments@)),
        ),
    decreases p.segments@.len() - st.line_start, p.segments@.len() - st.i,
{
    let n = p.segments@.len() as int;
    if st.i < n {
        lemma_step_inv(p, max_width, st);
        lemma_para_step(p, max_width, st);
        lemma_para_run(p, max_width, layout_step(p, max_width, st));
        assert(layout_run(p, max_width, st) == layout_run(p, max_width, layout_step(p, max_width, st)));
    } else {
        let ps = pieces_of(p.segments@);
        assert(ps.take(n) =~= ps);
        let qs = piece_paragraphs(ps);
        let out = layout_run(p, max_width, st);
        assert(out == finish_lines(p, st));
        if st.text.len() > 0 || st.lines.len() == 0 {
            assert(texts_of(out) =~= texts_of(st.lines).push(st.text));
        } else {
            assert(out == st.lines);
            assert(qs.drop_last() =~= texts_of(st.lines));
        }
    }
}

/// With every paragraph fitting, the line breaker makes one line per paragraph.
proof fn lemma_breaker_paragraphs(p: Prepared, max_width: u64)
    requires
        paragraphs_fit(p, max_width),
    ensures
        texts_of(layout_run(p, max_width, fresh_state(0, Seq::empty()))) == unwrapped_lines(
            piece_paragraphs(pieces_of(p.segments@)),
        ),
{
    let st0 = fresh_state(0, Seq::empty());
    assert(pieces_of(p.segments@).take(0) =~= Seq::<Piece>::empty());
    assert(texts_of(st0.lines).push(st0.text) =~= seq![Seq::<char>::empty()]);
    lemma_para_run(p, max_width, st0);
}

/// Above 240px nothing is added, and nothing is joined in a text with a hard
/// break or with at most two lines.
proof fn lemma_patched_wide(p: Prepared, max_width: u64, lines: Seq<LineModel>)
    requires
        max_width > 24000,
        lines.len() <= 2 || has_kind(p.segments@, SegmentKind::HardBreak),
    ensures
        patched(p, max_width, lines) == lines,
{
    assert(rounded_px(max_width) >= 240);
}

proof fn lemma_unwrapped_one(ps: Seq<Piece>, k: int)
    requires
        0 <= k < ps.len(),
        ps[k].kind == SegmentKind::HardBreak,
    ensures
        piece_paragraphs(ps).len() >= 2,
    decreases ps.len(),
{
    lemma_piece_paragraphs_len(ps.drop_last());
    if k < ps.len() - 1 {
        assert(ps.drop_last()[k] == ps[k]);
        lemma_unwrapped_one(ps.drop_last(), k);
    }
}

proof fn lemma_no_break_one_paragraph(ps: Seq<Piece>)
    requires
        forall|k: int| 0 <= k < ps.len() ==> (#[trigger] ps[k]).kind != SegmentKind::HardBreak,
    ensures
        piece_paragraphs(ps).len() == 1,
    decreases ps.len(),
{
    if ps.len() > 0 {
        assert forall|k: int| 0 <= k < ps.drop_last().len() implies (#[trigger] ps.drop_last()[k]).kind
            != SegmentKind::HardBreak by {
            assert(ps.drop_last()[k] == ps[k]);
        }
        assert(ps[ps.len() - 1].kind != SegmentKind::HardBreak);
        lemma_no_break_one_paragraph(ps.drop_last());
    }
}

/// A pre-wrap text whose paragraphs all fit lays out to one line per
/// paragraph: the line texts are the pieces of the text between newlines, with
/// zero-width spaces and soft hyphens left out, and a newline at the very end
/// starts no further line. This is stated for widths above 240px, where no
/// width-specific adjustment adds a line.
pub proof fn law_pre_wrap_lines_are_paragraphs(text: Seq<char>, p: Prepared, max_width: u64)
    requires
        text.len() > 0,
        pieces_of(p.segments@) == mode_pieces(WhiteSpaceMode::PreWrap, normalize_newlines(text)),
        paragraphs_fit(p, max_width),
        max_width > 24000,
    ensures
        texts_of(layout_lines_spec(p, max_width)) == unwrapped_lines(
            paragraphs(normalize_newlines(text)),
        ),
{
    let t = normalize_newlines(text);
    let ps = pieces_of(p.segments@);
    law_pre_wrap_keeps_text(text);
    assert(p.segments@.len() == ps.len());
    lemma_piece_paragraphs(ps);
    lemma_breaker_paragraphs(p, max_width);
    let run = layout_run(p, max_width, fresh_state(0, Seq::empty()));
    if has_kind(p.segments@, SegmentKind::HardBreak) {
    } else {
        assert forall|k: int| 0 <= k < ps.len() implies (#[trigger] ps[k]).kind != SegmentKind::HardBreak by {
            assert(ps[k] == piece_of(p.segments@[k]));
        }
        lemma_no_break_one_paragraph(ps);
        assert(texts_of(run).len() == run.len());
    }
    lemma_patched_wide(p, max_width, run);
}

} // verus!
