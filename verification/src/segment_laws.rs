//! Properties of segmentation that hold for every input.
use vstd::prelude::*;
use crate::text::is_arabic_combining_mark_spec;
use crate::prepare::{
    arabic_mark_cluster_after, arabic_scan,
    collapsed_space, is_collapsible_ws, is_shy, is_zwsp, mode_pieces, newline_piece,
    normal_state, normalize_newlines, normalize_prefix, piece, pre_wrap_pieces, pre_wrap_state,
    preserved_space, split_pieces, split_state, Piece, SegmentKind, WhiteSpaceMode,
};

verus! {

/// The texts of `ps` one after the other.
pub open spec fn concat_texts(ps: Seq<Piece>) -> Seq<char>
    decreases ps.len(),
{
    if ps.len() == 0 {
        Seq::empty()
    } else {
        concat_texts(ps.drop_last()) + ps.last().text
    }
}

proof fn lemma_concat_push(ps: Seq<Piece>, x: Piece)
    ensures
        concat_texts(ps.push(x)) == concat_texts(ps) + x.text,
{
    assert(ps.push(x).drop_last() =~= ps);
}

proof fn lemma_concat_append(a: Seq<Piece>, b: Seq<Piece>)
    ensures
        concat_texts(a + b) == concat_texts(a) + concat_texts(b),
    decreases b.len(),
{
    if b.len() == 0 {
        assert(a + b =~= a);
        assert(concat_texts(a) + Seq::<char>::empty() =~= concat_texts(a));
    } else {
        lemma_concat_append(a, b.drop_last());
        assert((a + b).drop_last() =~= a + b.drop_last());
        assert(concat_texts(a + b) == concat_texts(a + b.drop_last()) + b.last().text);
        assert(concat_texts(a) + concat_texts(b.drop_last()) + b.last().text =~= concat_texts(a) + (
        concat_texts(b.drop_last()) + b.last().text));
    }
}

/// Characters that a word can hold: no collapsible whitespace, no zero-width
/// space, no soft hyphen.
pub open spec fn is_word_char(c: char) -> bool {
    !is_collapsible_ws(c) && !is_zwsp(c) && !is_shy(c)
}

/// A piece of a word run: a non-empty text of word characters, or a lone
/// zero-width space or soft hyphen of the matching kind.
pub open spec fn word_piece_ok(x: Piece) -> bool {
    ||| (x.kind == SegmentKind::Text && x.text.len() > 0 && forall|i: int|
        0 <= i < x.text.len() ==> is_word_char(#[trigger] x.text[i]))
    ||| (x.kind == SegmentKind::ZeroWidthBreak && x.text == seq!['\u{200B}'])
    ||| (x.kind == SegmentKind::SoftHyphen && x.text == seq!['\u{00AD}'])
}

pub open spec fn all_word_pieces(ps: Seq<Piece>) -> bool {
    forall|i: int| 0 <= i < ps.len() ==> #[trigger] word_piece_ok(ps[i])
}

pub open spec fn no_collapsible_ws(s: Seq<char>) -> bool {
    forall|i: int| 0 <= i < s.len() ==> !is_collapsible_ws(#[trigger] s[i])
}

proof fn lemma_split_state(s: Seq<char>, n: int)
    requires
        0 <= n <= s.len(),
    ensures
        concat_texts(split_state(s, SegmentKind::Text, n).0) + split_state(s, SegmentKind::Text, n).1
            == s.take(n),
        no_collapsible_ws(s.take(n)) ==> all_word_pieces(split_state(s, SegmentKind::Text, n).0),
        forall|i: int|
            0 <= i < split_state(s, SegmentKind::Text, n).1.len() ==> !is_zwsp(
                #[trigger] split_state(s, SegmentKind::Text, n).1[i],
            ) && !is_shy(split_state(s, SegmentKind::Text, n).1[i]),
        no_collapsible_ws(s.take(n)) ==> no_collapsible_ws(split_state(s, SegmentKind::Text, n).1),
    decreases n,
{
    let base = SegmentKind::Text;
    if n == 0 {
        assert(s.take(0) =~= Seq::<char>::empty());
        assert(concat_texts(Seq::<Piece>::empty()) + Seq::<char>::empty() =~= Seq::<char>::empty());
    } else {
        lemma_split_state(s, n - 1);
        assert(s.take(n - 1) =~= s.take(n).drop_last());
        if no_collapsible_ws(s.take(n)) {
            assert forall|i: int| 0 <= i < s.take(n - 1).len() implies !is_collapsible_ws(
                #[trigger] s.take(n - 1)[i],
            ) by {
                assert(s.take(n - 1)[i] == s.take(n)[i]);
            }
        }
        let (out, buf) = split_state(s, base, n - 1);
        let c = s[n - 1];
        assert(s.take(n) =~= s.take(n - 1).push(c));
        if is_zwsp(c) || is_shy(c) {
            let out1 = if buf.len() > 0 {
                out.push(piece(buf, base))
            } else {
                out
            };
            let k = if is_zwsp(c) {
                SegmentKind::ZeroWidthBreak
            } else {
                SegmentKind::SoftHyphen
            };
            if buf.len() > 0 {
                lemma_concat_push(out, piece(buf, base));
            } else {
                assert(concat_texts(out) + buf =~= concat_texts(out));
            }
            lemma_concat_push(out1, piece(seq![c], k));
            assert(concat_texts(out1.push(piece(seq![c], k))) + Seq::<char>::empty() =~= s.take(n));
            if no_collapsible_ws(s.take(n)) {
                assert forall|i: int| 0 <= i < out1.push(piece(seq![c], k)).len() implies #[trigger] word_piece_ok(
                    out1.push(piece(seq![c], k))[i],
                ) by {
                    if i < out.len() {
                        assert(out1.push(piece(seq![c], k))[i] == out[i]);
                    } else if i < out1.len() {
                        assert(out1.push(piece(seq![c], k))[i] == piece(buf, base));
                        assert forall|j: int| 0 <= j < buf.len() implies is_word_char(
                            #[trigger] buf[j],
                        ) by {
                            assert(!is_collapsible_ws(buf[j]));
                        }
                    }
                }
            }
        } else {
            assert(concat_texts(out) + buf.push(c) =~= concat_texts(out) + buf + seq![c]);
            if no_collapsible_ws(s.take(n)) {
                assert(s.take(n)[n - 1] == c);
                assert forall|i: int| 0 <= i < buf.push(c).len() implies !is_collapsible_ws(
                    #[trigger] buf.push(c)[i],
                ) by {
                    if i < buf.len() {
                        assert(buf.push(c)[i] == buf[i]);
                    }
                }
            }
            assert forall|i: int| 0 <= i < buf.push(c).len() implies !is_zwsp(
                #[trigger] buf.push(c)[i],
            ) && !is_shy(buf.push(c)[i]) by {
                if i < buf.len() {
                    assert(buf.push(c)[i] == buf[i]);
                }
            }
        }
    }
}

/// Splitting at zero-width spaces and soft hyphens keeps the text, and a run
/// without collapsible whitespace splits into word pieces only.
pub proof fn lemma_split_pieces(s: Seq<char>)
    ensures
        concat_texts(split_pieces(s, SegmentKind::Text)) == s,
        no_collapsible_ws(s) ==> all_word_pieces(split_pieces(s, SegmentKind::Text)),
        s.len() > 0 ==> split_pieces(s, SegmentKind::Text).len() > 0,
{
    let base = SegmentKind::Text;
    lemma_split_state(s, s.len() as int);
    assert(s.take(s.len() as int) =~= s);
    let (out, buf) = split_state(s, base, s.len() as int);
    if buf.len() > 0 {
        lemma_concat_push(out, piece(buf, base));
        if no_collapsible_ws(s) {
            assert forall|i: int| 0 <= i < out.push(piece(buf, base)).len() implies #[trigger] word_piece_ok(
                out.push(piece(buf, base))[i],
            ) by {
                if i < out.len() {
                    assert(out.push(piece(buf, base))[i] == out[i]);
                } else {
                    assert forall|j: int| 0 <= j < buf.len() implies is_word_char(#[trigger] buf[j]) by {
                        assert(!is_collapsible_ws(buf[j]));
                    }
                }
            }
        }
    } else {
        assert(concat_texts(out) + buf =~= concat_texts(out));
        if s.len() > 0 && out.len() == 0 {
            assert(concat_texts(out) =~= Seq::<char>::empty());
        }
    }
}

// ---------------------------------------------------------------- newlines

proof fn lemma_normalize_prefix(t: Seq<char>, n: int)
    requires
        0 <= n <= t.len(),
    ensures
        forall|i: int|
            0 <= i < normalize_prefix(t, n).len() ==> #[trigger] normalize_prefix(t, n)[i] != '\r',
        n > 0 ==> normalize_prefix(t, n).len() > 0 || (t[n - 1] == '\r' && n < t.len()),
    decreases n,
{
    if n > 0 {
        lemma_normalize_prefix(t, n - 1);
        let a = normalize_prefix(t, n - 1);
        let b = newline_piece(t, n - 1);
        assert forall|i: int| 0 <= i < (a + b).len() implies #[trigger] (a + b)[i] != '\r' by {
            if i < a.len() {
                assert((a + b)[i] == a[i]);
            } else {
                assert((a + b)[i] == b[i - a.len()]);
            }
        }
    }
}

/// Normalised text holds no carriage return, and is empty only when the input is.
pub proof fn law_normalized_has_no_cr(t: Seq<char>)
    ensures
        forall|i: int|
            0 <= i < normalize_newlines(t).len() ==> #[trigger] normalize_newlines(t)[i] != '\r',
        (normalize_newlines(t).len() == 0) == (t.len() == 0),
{
    lemma_normalize_prefix(t, t.len() as int);
}

// ---------------------------------------------------------------- pre-wrap

/// A pre-wrap piece: a word piece, a hard break holding one newline, a tab,
/// or a run of one or more spaces.
pub open spec fn pre_wrap_piece_ok(x: Piece) -> bool {
    ||| word_piece_ok(x)
    ||| (x.kind == SegmentKind::HardBreak && x.text == seq!['\n'])
    ||| (x.kind == SegmentKind::Tab && x.text == seq!['\t'])
    ||| (x.kind == SegmentKind::PreservedSpace && x.text.len() > 0 && forall|i: int|
        0 <= i < x.text.len() ==> #[trigger] x.text[i] == ' ')
}

pub open spec fn no_adjacent_kind(ps: Seq<Piece>, k: SegmentKind) -> bool {
    forall|i: int, j: int|
        0 <= i && j == i + 1 && j < ps.len() ==> !(#[trigger] ps[i].kind == k && #[trigger] ps[j].kind
            == k)
}

pub open spec fn pre_wrap_ok(ps: Seq<Piece>) -> bool {
    &&& forall|i: int| 0 <= i < ps.len() ==> #[trigger] pre_wrap_piece_ok(ps[i])
    &&& no_adjacent_kind(ps, SegmentKind::PreservedSpace)
}

proof fn lemma_append_words(out: Seq<Piece>, buf: Seq<char>)
    requires
        pre_wrap_ok(out),
        no_collapsible_ws(buf),
    ensures
        pre_wrap_ok(out + split_pieces(buf, SegmentKind::Text)),
        concat_texts(out + split_pieces(buf, SegmentKind::Text)) == concat_texts(out) + buf,
        buf.len() > 0 ==> (out + split_pieces(buf, SegmentKind::Text)).last().kind
            != SegmentKind::PreservedSpace,
        buf.len() == 0 ==> out + split_pieces(buf, SegmentKind::Text) == out,
{
    let sp = split_pieces(buf, SegmentKind::Text);
    lemma_split_pieces(buf);
    lemma_concat_append(out, sp);
    let all = out + sp;
    assert forall|i: int| 0 <= i < all.len() implies #[trigger] pre_wrap_piece_ok(all[i]) by {
        if i < out.len() {
            assert(all[i] == out[i]);
        } else {
            assert(all[i] == sp[i - out.len()]);
            assert(word_piece_ok(sp[i - out.len()]));
        }
    }
    assert forall|i: int, j: int|
        0 <= i && j == i + 1 && j < all.len() implies !(#[trigger] all[i].kind
        == SegmentKind::PreservedSpace && #[trigger] all[j].kind == SegmentKind::PreservedSpace) by {
        if j < out.len() {
            assert(all[i] == out[i] && all[j] == out[j]);
        } else {
            assert(all[j] == sp[j - out.len()]);
            assert(word_piece_ok(sp[j - out.len()]));
        }
    }
    if buf.len() > 0 {
        assert(all.last() == sp[sp.len() - 1]);
        assert(word_piece_ok(sp[sp.len() - 1]));
    } else {
        assert(sp =~= Seq::<Piece>::empty());
        assert(all =~= out);
    }
}

/// No piece of kind `Text` stands right after another, and the last piece
/// (if any) is not `Text`.
spec fn text_closed(ps: Seq<Piece>) -> bool {
    &&& no_adjacent_kind(ps, SegmentKind::Text)
    &&& ps.len() > 0 ==> ps.last().kind != SegmentKind::Text
}

proof fn lemma_push_non_text(ps: Seq<Piece>, x: Piece)
    requires
        no_adjacent_kind(ps, SegmentKind::Text),
        x.kind != SegmentKind::Text,
    ensures
        text_closed(ps.push(x)),
{
    let r = ps.push(x);
    assert forall|i: int, j: int| 0 <= i && j == i + 1 && j < r.len() implies !(
    #[trigger] r[i].kind == SegmentKind::Text && #[trigger] r[j].kind == SegmentKind::Text) by {
        if j < ps.len() {
            assert(r[i] == ps[i] && r[j] == ps[j]);
        }
    }
}

proof fn lemma_push_text(ps: Seq<Piece>, x: Piece)
    requires
        text_closed(ps),
    ensures
        no_adjacent_kind(ps.push(x), SegmentKind::Text),
{
    let r = ps.push(x);
    assert forall|i: int, j: int| 0 <= i && j == i + 1 && j < r.len() implies !(
    #[trigger] r[i].kind == SegmentKind::Text && #[trigger] r[j].kind == SegmentKind::Text) by {
        if j < ps.len() {
            assert(r[i] == ps[i] && r[j] == ps[j]);
        } else {
            assert(r[i] == ps.last());
        }
    }
}

proof fn lemma_split_state_apart(s: Seq<char>, n: int)
    requires
        0 <= n <= s.len(),
    ensures
        text_closed(split_state(s, SegmentKind::Text, n).0),
    decreases n,
{
    if n > 0 {
        lemma_split_state_apart(s, n - 1);
        let (out, buf) = split_state(s, SegmentKind::Text, n - 1);
        let c = s[n - 1];
        if is_zwsp(c) || is_shy(c) {
            let out1 = if buf.len() > 0 {
                out.push(piece(buf, SegmentKind::Text))
            } else {
                out
            };
            if buf.len() > 0 {
                lemma_push_text(out, piece(buf, SegmentKind::Text));
            }
            let k = if is_zwsp(c) {
                SegmentKind::ZeroWidthBreak
            } else {
                SegmentKind::SoftHyphen
            };
            lemma_push_non_text(out1, piece(seq![c], k));
        }
    }
}

proof fn lemma_split_pieces_apart(s: Seq<char>)
    ensures
        no_adjacent_kind(split_pieces(s, SegmentKind::Text), SegmentKind::Text),
{
    lemma_split_state_apart(s, s.len() as int);
    let (out, buf) = split_state(s, SegmentKind::Text, s.len() as int);
    if buf.len() > 0 {
        lemma_push_text(out, piece(buf, SegmentKind::Text));
    }
}

proof fn lemma_join_apart(a: Seq<Piece>, b: Seq<Piece>)
    requires
        text_closed(a),
        no_adjacent_kind(b, SegmentKind::Text),
    ensures
        no_adjacent_kind(a + b, SegmentKind::Text),
        b.len() == 0 ==> a + b == a,
        b.len() > 0 ==> (a + b).last() == b.last(),
{
    let r = a + b;
    assert forall|i: int, j: int| 0 <= i && j == i + 1 && j < r.len() implies !(
    #[trigger] r[i].kind == SegmentKind::Text && #[trigger] r[j].kind == SegmentKind::Text) by {
        if j < a.len() {
            assert(r[i] == a[i] && r[j] == a[j]);
        } else if i >= a.len() {
            assert(r[i] == b[i - a.len()] && r[j] == b[j - a.len()]);
        } else {
            assert(r[i] == a.last());
        }
    }
    if b.len() == 0 {
        assert(a + b =~= a);
    }
}

proof fn lemma_pre_wrap_apart(t: Seq<char>, n: int)
    requires
        0 <= n <= t.len(),
    ensures
        text_closed(pre_wrap_state(t, n).0),
    decreases n,
{
    if n > 0 {
        lemma_pre_wrap_apart(t, n - 1);
        let (out, buf) = pre_wrap_state(t, n - 1);
        let c = t[n - 1];
        let flushed = out + split_pieces(buf, SegmentKind::Text);
        lemma_split_pieces_apart(buf);
        lemma_join_apart(out, split_pieces(buf, SegmentKind::Text));
        if c == '\n' || c == '\t' {
            let k = if c == '\n' {
                SegmentKind::HardBreak
            } else {
                SegmentKind::Tab
            };
            lemma_push_non_text(flushed, piece(seq![c], k));
        } else if c == ' ' {
            if flushed.len() > 0 && flushed.last().kind == SegmentKind::PreservedSpace {
                let last = flushed.last();
                let x = piece(last.text.push(' '), SegmentKind::PreservedSpace);
                let res = flushed.update(flushed.len() - 1, x);
                assert(res =~= flushed.drop_last().push(x));
                assert(no_adjacent_kind(flushed.drop_last(), SegmentKind::Text)) by {
                    let d = flushed.drop_last();
                    assert forall|i: int, j: int| 0 <= i && j == i + 1 && j < d.len() implies !(
                    #[trigger] d[i].kind == SegmentKind::Text && #[trigger] d[j].kind
                        == SegmentKind::Text) by {
                        assert(d[i] == flushed[i] && d[j] == flushed[j]);
                    }
                }
                lemma_push_non_text(flushed.drop_last(), x);
            } else {
                lemma_push_non_text(flushed, preserved_space());
            }
        }
    }
}

/// In pre-wrap mode each `Text` segment is a whole run of characters other
/// than newline, tab, space, zero-width space and soft hyphen: no `Text`
/// segment follows another directly.
pub proof fn law_pre_wrap_text_runs_are_whole(text: Seq<char>)
    ensures
        forall|i: int|
            0 <= i && i + 1 < mode_pieces(WhiteSpaceMode::PreWrap, normalize_newlines(text)).len()
                ==> !(#[trigger] mode_pieces(WhiteSpaceMode::PreWrap, normalize_newlines(text))[i].kind
                == SegmentKind::Text && mode_pieces(
                WhiteSpaceMode::PreWrap,
                normalize_newlines(text),
            )[i + 1].kind == SegmentKind::Text),
{
    let t = normalize_newlines(text);
    lemma_pre_wrap_apart(t, t.len() as int);
    let (out, buf) = pre_wrap_state(t, t.len() as int);
    lemma_split_pieces_apart(buf);
    lemma_join_apart(out, split_pieces(buf, SegmentKind::Text));
    let ps = mode_pieces(WhiteSpaceMode::PreWrap, t);
    assert forall|i: int| 0 <= i && i + 1 < ps.len() implies !(#[trigger] ps[i].kind
        == SegmentKind::Text && ps[i + 1].kind == SegmentKind::Text) by {
        let j = i + 1;
        assert(!(ps[i].kind == SegmentKind::Text && ps[j].kind == SegmentKind::Text));
    }
}

proof fn lemma_pre_wrap_state(t: Seq<char>, n: int)
    requires
        0 <= n <= t.len(),
    ensures
        concat_texts(pre_wrap_state(t, n).0) + pre_wrap_state(t, n).1 == t.take(n),
        pre_wrap_ok(pre_wrap_state(t, n).0),
        no_collapsible_ws(pre_wrap_state(t, n).1),
    decreases n,
{
    if n == 0 {
        assert(t.take(0) =~= Seq::<char>::empty());
        assert(concat_texts(Seq::<Piece>::empty()) + Seq::<char>::empty() =~= Seq::<char>::empty());
    } else {
        lemma_pre_wrap_state(t, n - 1);
        let (out, buf) = pre_wrap_state(t, n - 1);
        let c = t[n - 1];
        assert(t.take(n) =~= t.take(n - 1).push(c));
        let flushed = out + split_pieces(buf, SegmentKind::Text);
        lemma_append_words(out, buf);
        if c == '\n' || c == '\t' {
            let k = if c == '\n' {
                SegmentKind::HardBreak
            } else {
                SegmentKind::Tab
            };
            let x = piece(seq![c], k);
            let res = flushed.push(x);
            lemma_concat_push(flushed, x);
            assert(concat_texts(res) + Seq::<char>::empty() =~= t.take(n));
            assert forall|i: int| 0 <= i < res.len() implies #[trigger] pre_wrap_piece_ok(res[i]) by {
                if i < flushed.len() {
                    assert(res[i] == flushed[i]);
                }
            }
            assert forall|i: int, j: int|
                0 <= i && j == i + 1 && j < res.len() implies !(#[trigger] res[i].kind
                == SegmentKind::PreservedSpace && #[trigger] res[j].kind
                == SegmentKind::PreservedSpace) by {
                if j < flushed.len() {
                    assert(res[i] == flushed[i] && res[j] == flushed[j]);
                }
            }
        } else if c == ' ' {
            if flushed.len() > 0 && flushed.last().kind == SegmentKind::PreservedSpace {
                let last = flushed.last();
                let x = piece(last.text.push(' '), SegmentKind::PreservedSpace);
                let res = flushed.update(flushed.len() - 1, x);
                assert(res =~= flushed.drop_last().push(x));
                assert(flushed =~= flushed.drop_last().push(last));
                lemma_concat_push(flushed.drop_last(), x);
                lemma_concat_push(flushed.drop_last(), last);
                assert(concat_texts(res) + Seq::<char>::empty() =~= t.take(n));
                assert(pre_wrap_piece_ok(last));
                assert forall|i: int| 0 <= i < res.len() implies #[trigger] pre_wrap_piece_ok(res[i]) by {
                    if i < flushed.len() - 1 {
                        assert(res[i] == flushed[i]);
                    } else {
                        assert(res[i] == x);
                        assert forall|q: int| 0 <= q < x.text.len() implies #[trigger] x.text[q]
                            == ' ' by {
                            if q < last.text.len() {
                                assert(x.text[q] == last.text[q]);
                            }
                        }
                    }
                }
                assert forall|i: int, j: int|
                    0 <= i && j == i + 1 && j < res.len() implies !(#[trigger] res[i].kind
                    == SegmentKind::PreservedSpace && #[trigger] res[j].kind
                    == SegmentKind::PreservedSpace) by {
                    assert(res[i] == flushed[i]);
                    if j < flushed.len() - 1 {
                        assert(res[j] == flushed[j]);
                    } else {
                        assert(flushed[j].kind == SegmentKind::PreservedSpace);
                    }
                }
            } else {
                let x = preserved_space();
                let res = flushed.push(x);
                lemma_concat_push(flushed, x);
                assert(concat_texts(res) + Seq::<char>::empty() =~= t.take(n));
                assert forall|i: int| 0 <= i < res.len() implies #[trigger] pre_wrap_piece_ok(res[i]) by {
                    if i < flushed.len() {
                        assert(res[i] == flushed[i]);
                    }
                }
                assert forall|i: int, j: int|
                    0 <= i && j == i + 1 && j < res.len() implies !(#[trigger] res[i].kind
                    == SegmentKind::PreservedSpace && #[trigger] res[j].kind
                    == SegmentKind::PreservedSpace) by {
                    assert(res[i] == flushed[i]);
                    if j < flushed.len() {
                        assert(res[j] == flushed[j]);
                    }
                }
            }
        } else {
            assert(concat_texts(out) + buf.push(c) =~= concat_texts(out) + buf + seq![c]);
            assert forall|i: int| 0 <= i < buf.push(c).len() implies !is_collapsible_ws(
                #[trigger] buf.push(c)[i],
            ) by {
                if i < buf.len() {
                    assert(buf.push(c)[i] == buf[i]);
                }
            }
        }
    }
}

/// Pre-wrap segmentation keeps the text: its segments, read in order, spell
/// the (normalised) input exactly. Each segment is a run of word characters,
/// a lone zero-width space or soft hyphen, a hard break holding one newline, a
/// tab, or a run of spaces; no two runs of spaces are adjacent.
pub proof fn law_pre_wrap_keeps_text(text: Seq<char>)
    ensures
        concat_texts(mode_pieces(WhiteSpaceMode::PreWrap, normalize_newlines(text)))
            == normalize_newlines(text),
        pre_wrap_ok(mode_pieces(WhiteSpaceMode::PreWrap, normalize_newlines(text))),
        text.len() > 0 ==> mode_pieces(WhiteSpaceMode::PreWrap, normalize_newlines(text)).len() > 0,
{
    let t = normalize_newlines(text);
    lemma_pre_wrap_state(t, t.len() as int);
    assert(t.take(t.len() as int) =~= t);
    let (out, buf) = pre_wrap_state(t, t.len() as int);
    lemma_append_words(out, buf);
    law_normalized_has_no_cr(text);
    if text.len() > 0 && pre_wrap_pieces(t).len() == 0 {
        assert(concat_texts(pre_wrap_pieces(t)) =~= Seq::<char>::empty());
    }
}

// ---------------------------------------------------------------- normal mode

/// A normal-mode piece: a word piece or a single collapsible space.
pub open spec fn normal_piece_ok(x: Piece) -> bool {
    word_piece_ok(x) || x == collapsed_space()
}

pub open spec fn is_space_piece(x: Piece) -> bool {
    x.kind == SegmentKind::CollapsibleSpace
}

/// What normal-mode segmentation guarantees: word pieces and single spaces,
/// never two spaces in a row, and no space at either end.
pub open spec fn normal_ok(ps: Seq<Piece>) -> bool {
    &&& forall|i: int| 0 <= i < ps.len() ==> #[trigger] normal_piece_ok(ps[i])
    &&& no_adjacent_kind(ps, SegmentKind::CollapsibleSpace)
    &&& ps.len() > 0 ==> !is_space_piece(ps[0]) && !is_space_piece(ps.last())
}

pub open spec fn normal_state_ok(out: Seq<Piece>, tok: Seq<char>, pending: bool) -> bool {
    &&& forall|i: int| 0 <= i < out.len() ==> #[trigger] normal_piece_ok(out[i])
    &&& no_adjacent_kind(out, SegmentKind::CollapsibleSpace)
    &&& out.len() > 0 ==> !is_space_piece(out[0])
    &&& no_collapsible_ws(tok)
    &&& (out.len() > 0 && is_space_piece(out.last())) ==> tok.len() > 0
    &&& pending ==> out.len() > 0 && !is_space_piece(out.last())
}

proof fn lemma_append_normal_words(out: Seq<Piece>, tok: Seq<char>)
    requires
        forall|i: int| 0 <= i < out.len() ==> #[trigger] normal_piece_ok(out[i]),
        no_adjacent_kind(out, SegmentKind::CollapsibleSpace),
        out.len() > 0 ==> !is_space_piece(out[0]),
        no_collapsible_ws(tok),
        (out.len() > 0 && is_space_piece(out.last())) ==> tok.len() > 0,
    ensures
        normal_ok(out + split_pieces(tok, SegmentKind::Text)),
        tok.len() == 0 ==> out + split_pieces(tok, SegmentKind::Text) == out,
{
    let sp = split_pieces(tok, SegmentKind::Text);
    lemma_split_pieces(tok);
    let all = out + sp;
    assert forall|i: int| 0 <= i < all.len() implies #[trigger] normal_piece_ok(all[i]) by {
        if i < out.len() {
            assert(all[i] == out[i]);
        } else {
            assert(all[i] == sp[i - out.len()]);
            assert(word_piece_ok(sp[i - out.len()]));
        }
    }
    assert forall|i: int, j: int|
        0 <= i && j == i + 1 && j < all.len() implies !(#[trigger] all[i].kind
        == SegmentKind::CollapsibleSpace && #[trigger] all[j].kind == SegmentKind::CollapsibleSpace) by {
        if j < out.len() {
            assert(all[i] == out[i] && all[j] == out[j]);
        } else {
            assert(all[j] == sp[j - out.len()]);
            assert(word_piece_ok(sp[j - out.len()]));
        }
    }
    if tok.len() > 0 {
        assert(all.last() == sp[sp.len() - 1]);
        assert(word_piece_ok(sp[sp.len() - 1]));
        if out.len() == 0 {
            assert(all[0] == sp[0]);
            assert(word_piece_ok(sp[0]));
        } else {
            assert(all[0] == out[0]);
        }
    } else {
        assert(sp =~= Seq::<Piece>::empty());
        assert(all =~= out);
    }
}

/// Only spaces, tabs and newlines.
pub open spec fn all_collapsible_ws(s: Seq<char>) -> bool {
    forall|i: int| 0 <= i < s.len() ==> is_collapsible_ws(#[trigger] s[i])
}

proof fn lemma_normal_state(t: Seq<char>, n: int)
    requires
        0 <= n <= t.len(),
    ensures
        normal_state_ok(normal_state(t, n).0, normal_state(t, n).1, normal_state(t, n).2),
        all_collapsible_ws(t.take(n)) ==> normal_state(t, n).0.len() == 0 && normal_state(t, n).1.len()
            == 0 && !normal_state(t, n).2,
    decreases n,
{
    if n > 0 {
        lemma_normal_state(t, n - 1);
        let (out, tok, pending) = normal_state(t, n - 1);
        let c = t[n - 1];
        if all_collapsible_ws(t.take(n)) {
            assert forall|i: int| 0 <= i < t.take(n - 1).len() implies is_collapsible_ws(
                #[trigger] t.take(n - 1)[i],
            ) by {
                assert(t.take(n - 1)[i] == t.take(n)[i]);
            }
            assert(t.take(n)[n - 1] == c);
        }
        if is_collapsible_ws(c) {
            lemma_append_normal_words(out, tok);
            if tok.len() == 0 {
                assert(split_pieces(tok, SegmentKind::Text) =~= Seq::<Piece>::empty());
            }
        } else {
            let out1 = if pending {
                out.push(collapsed_space())
            } else {
                out
            };
            assert forall|i: int| 0 <= i < out1.len() implies #[trigger] normal_piece_ok(out1[i]) by {
                if i < out.len() {
                    assert(out1[i] == out[i]);
                }
            }
            assert forall|i: int, j: int|
                0 <= i && j == i + 1 && j < out1.len() implies !(#[trigger] out1[i].kind
                == SegmentKind::CollapsibleSpace && #[trigger] out1[j].kind
                == SegmentKind::CollapsibleSpace) by {
                assert(out1[i] == out[i]);
                if j < out.len() {
                    assert(out1[j] == out[j]);
                }
            }
            if out1.len() > 0 {
                assert(out1[0] == out[0]);
            }
            assert forall|i: int| 0 <= i < tok.push(c).len() implies !is_collapsible_ws(
                #[trigger] tok.push(c)[i],
            ) by {
                if i < tok.len() {
                    assert(tok.push(c)[i] == tok[i]);
                }
            }
        }
    }
}

/// Normal mode collapses whitespace: every segment is a word piece or a single
/// collapsible space, no two spaces are adjacent, and none begins or ends the text.
pub proof fn law_normal_collapses_whitespace(text: Seq<char>)
    ensures
        normal_ok(mode_pieces(WhiteSpaceMode::Normal, normalize_newlines(text))),
{
    let t = normalize_newlines(text);
    lemma_normal_state(t, t.len() as int);
    let (out, tok, pending) = normal_state(t, t.len() as int);
    lemma_append_normal_words(out, tok);
}

/// The texts of the pieces that are not collapsed spaces, concatenated.
pub open spec fn words_text(ps: Seq<Piece>) -> Seq<char>
    decreases ps.len(),
{
    if ps.len() == 0 {
        Seq::empty()
    } else if ps.last().kind == SegmentKind::CollapsibleSpace {
        words_text(ps.drop_last())
    } else {
        words_text(ps.drop_last()) + ps.last().text
    }
}

/// `t` without spaces, tabs, newlines and carriage returns.
pub open spec fn strip_whitespace(t: Seq<char>) -> Seq<char>
    decreases t.len(),
{
    if t.len() == 0 {
        Seq::empty()
    } else if is_collapsible_ws(t.last()) || t.last() == '\r' {
        strip_whitespace(t.drop_last())
    } else {
        strip_whitespace(t.drop_last()).push(t.last())
    }
}

proof fn lemma_words_text_append(a: Seq<Piece>, b: Seq<Piece>)
    ensures
        words_text(a + b) == words_text(a) + words_text(b),
    decreases b.len(),
{
    if b.len() == 0 {
        assert(a + b =~= a);
        assert(words_text(a) + Seq::<char>::empty() =~= words_text(a));
    } else {
        lemma_words_text_append(a, b.drop_last());
        assert((a + b).drop_last() =~= a + b.drop_last());
        assert(words_text(a) + words_text(b.drop_last()) + b.last().text =~= words_text(a) + (
        words_text(b.drop_last()) + b.last().text));
    }
}

proof fn lemma_words_text_of_words(ps: Seq<Piece>)
    requires
        all_word_pieces(ps),
    ensures
        words_text(ps) == concat_texts(ps),
    decreases ps.len(),
{
    if ps.len() > 0 {
        assert(word_piece_ok(ps[ps.len() - 1]));
        assert(all_word_pieces(ps.drop_last())) by {
            assert forall|i: int| 0 <= i < ps.drop_last().len() implies #[trigger] word_piece_ok(
                ps.drop_last()[i],
            ) by {
                assert(ps.drop_last()[i] == ps[i]);
            }
        }
        lemma_words_text_of_words(ps.drop_last());
    }
}

proof fn lemma_strip_push(t: Seq<char>, c: char)
    ensures
        strip_whitespace(t.push(c)) == if is_collapsible_ws(c) || c == '\r' {
            strip_whitespace(t)
        } else {
            strip_whitespace(t).push(c)
        },
{
    assert(t.push(c).drop_last() =~= t);
}

proof fn lemma_strip_append(a: Seq<char>, b: Seq<char>)
    ensures
        strip_whitespace(a + b) == strip_whitespace(a) + strip_whitespace(b),
    decreases b.len(),
{
    if b.len() == 0 {
        assert(a + b =~= a);
        assert(strip_whitespace(a) + Seq::<char>::empty() =~= strip_whitespace(a));
    } else {
        lemma_strip_append(a, b.drop_last());
        assert(a + b =~= (a + b.drop_last()).push(b.last()));
        lemma_strip_push(a + b.drop_last(), b.last());
        assert(b =~= b.drop_last().push(b.last()));
        lemma_strip_push(b.drop_last(), b.last());
        if !(is_collapsible_ws(b.last()) || b.last() == '\r') {
            assert(strip_whitespace(a) + strip_whitespace(b.drop_last()).push(b.last()) =~= (
            strip_whitespace(a) + strip_whitespace(b.drop_last())).push(b.last()));
        }
    }
}

/// Normalising line endings only rewrites whitespace.
proof fn lemma_strip_normalized(t: Seq<char>, n: int)
    requires
        0 <= n <= t.len(),
    ensures
        strip_whitespace(normalize_prefix(t, n)) == strip_whitespace(t.take(n)),
    decreases n,
{
    if n > 0 {
        lemma_strip_normalized(t, n - 1);
        let a = normalize_prefix(t, n - 1);
        let b = newline_piece(t, n - 1);
        lemma_strip_append(a, b);
        assert(t.take(n) =~= t.take(n - 1).push(t[n - 1]));
        lemma_strip_push(t.take(n - 1), t[n - 1]);
        if t[n - 1] == '\r' {
            if n < t.len() && t[n] == '\n' {
                assert(b =~= Seq::<char>::empty());
            } else {
                assert(b =~= seq!['\n']);
                lemma_strip_push(Seq::<char>::empty(), '\n');
                assert(Seq::<char>::empty().push('\n') =~= seq!['\n']);
            }
        } else {
            assert(b =~= seq![t[n - 1]]);
            lemma_strip_push(Seq::<char>::empty(), t[n - 1]);
            assert(Seq::<char>::empty().push(t[n - 1]) =~= seq![t[n - 1]]);
        }
        assert(strip_whitespace(Seq::<char>::empty()) =~= Seq::<char>::empty());
    }
}

proof fn lemma_normal_words(t: Seq<char>, n: int)
    requires
        0 <= n <= t.len(),
        forall|i: int| 0 <= i < t.len() ==> #[trigger] t[i] != '\r',
    ensures
        words_text(normal_state(t, n).0) + normal_state(t, n).1 == strip_whitespace(t.take(n)),
    decreases n,
{
    if n == 0 {
        assert(t.take(0) =~= Seq::<char>::empty());
        assert(words_text(Seq::<Piece>::empty()) =~= Seq::<char>::empty());
        assert(strip_whitespace(Seq::<char>::empty()) =~= Seq::<char>::empty());
        assert(Seq::<char>::empty() + Seq::<char>::empty() =~= Seq::<char>::empty());
    } else {
        lemma_normal_words(t, n - 1);
        lemma_normal_state(t, n - 1);
        let (out, tok, pending) = normal_state(t, n - 1);
        let c = t[n - 1];
        assert(t.take(n) =~= t.take(n - 1).push(c));
        lemma_strip_push(t.take(n - 1), c);
        if is_collapsible_ws(c) {
            lemma_split_pieces(tok);
            lemma_words_text_of_words(split_pieces(tok, SegmentKind::Text));
            lemma_words_text_append(out, split_pieces(tok, SegmentKind::Text));
            assert(normal_state(t, n).0 == out + split_pieces(tok, SegmentKind::Text));
            assert(normal_state(t, n).1 == Seq::<char>::empty());
            assert(words_text(normal_state(t, n).0) == words_text(out) + tok);
            assert(words_text(normal_state(t, n).0) + Seq::<char>::empty() =~= words_text(out) + tok);
        } else {
            if pending {
                assert(out.push(collapsed_space()).drop_last() =~= out);
            }
            assert(words_text(normal_state(t, n).0) == words_text(out));
            assert(words_text(out) + tok.push(c) =~= (words_text(out) + tok).push(c));
        }
    }
}

proof fn lemma_words_text_has(ps: Seq<Piece>, k: int, i: int)
    requires
        0 <= k < ps.len(),
        ps[k].kind != SegmentKind::CollapsibleSpace,
        0 <= i < ps[k].text.len(),
    ensures
        words_text(ps).contains(ps[k].text[i]),
    decreases ps.len(),
{
    let w0 = words_text(ps.drop_last());
    if k == ps.len() - 1 {
        assert(words_text(ps)[w0.len() + i] == ps[k].text[i]);
    } else {
        assert(ps.drop_last()[k] == ps[k]);
        lemma_words_text_has(ps.drop_last(), k, i);
        let j = choose|j: int| 0 <= j < w0.len() && w0[j] == ps[k].text[i];
        assert(words_text(ps)[j] == w0[j]);
    }
}

proof fn lemma_strip_no_cr(t: Seq<char>)
    ensures
        forall|j: int| 0 <= j < strip_whitespace(t).len() ==> #[trigger] strip_whitespace(t)[j] != '\r',
    decreases t.len(),
{
    if t.len() > 0 {
        lemma_strip_no_cr(t.drop_last());
        let a = strip_whitespace(t.drop_last());
        if !(is_collapsible_ws(t.last()) || t.last() == '\r') {
            assert forall|j: int| 0 <= j < a.push(t.last()).len() implies #[trigger] a.push(
                t.last(),
            )[j] != '\r' by {
                if j < a.len() {
                    assert(a.push(t.last())[j] == a[j]);
                }
            }
        }
    }
}

/// In normal mode the texts of the segments other than collapsed spaces,
/// concatenated, are the input without its spaces, tabs, newlines and
/// carriage returns.
pub proof fn law_normal_words_spell_the_text(text: Seq<char>)
    ensures
        words_text(mode_pieces(WhiteSpaceMode::Normal, normalize_newlines(text)))
            == strip_whitespace(text),
        forall|k: int, i: int|
            0 <= k < mode_pieces(WhiteSpaceMode::Normal, normalize_newlines(text)).len() && 0 <= i
                < mode_pieces(WhiteSpaceMode::Normal, normalize_newlines(text))[k].text.len()
                ==> #[trigger] mode_pieces(WhiteSpaceMode::Normal, normalize_newlines(text))[k].text[i]
                != '\r',
{
    lemma_normal_words_spell(text);
    let ps = mode_pieces(WhiteSpaceMode::Normal, normalize_newlines(text));
    law_normal_collapses_whitespace(text);
    lemma_strip_no_cr(text);
    assert forall|k: int, i: int| 0 <= k < ps.len() && 0 <= i < ps[k].text.len() implies #[trigger] ps[k].text[i]
        != '\r' by {
        assert(normal_piece_ok(ps[k]));
        if ps[k].kind != SegmentKind::CollapsibleSpace {
            lemma_words_text_has(ps, k, i);
            let w = words_text(ps);
            let j = choose|j: int| 0 <= j < w.len() && w[j] == ps[k].text[i];
            assert(strip_whitespace(text)[j] != '\r');
        } else {
            assert(ps[k] == collapsed_space());
        }
    }
}

proof fn lemma_normal_words_spell(text: Seq<char>)
    ensures
        words_text(mode_pieces(WhiteSpaceMode::Normal, normalize_newlines(text)))
            == strip_whitespace(text),
{
    let t = normalize_newlines(text);
    law_normalized_has_no_cr(text);
    lemma_normal_words(t, t.len() as int);
    lemma_normal_state(t, t.len() as int);
    let (out, tok, pending) = normal_state(t, t.len() as int);
    assert(t.take(t.len() as int) =~= t);
    lemma_split_pieces(tok);
    lemma_words_text_of_words(split_pieces(tok, SegmentKind::Text));
    let out1 = out + split_pieces(tok, SegmentKind::Text);
    lemma_words_text_append(out, split_pieces(tok, SegmentKind::Text));
    if out1.len() > 0 && out1.last().kind == SegmentKind::CollapsibleSpace {
        assert(out1 =~= out1.drop_last().push(out1.last()));
    }
    lemma_strip_normalized(text, text.len() as int);
    assert(text.take(text.len() as int) =~= text);
}

proof fn lemma_normalize_ws(t: Seq<char>, n: int)
    requires
        0 <= n <= t.len(),
        forall|i: int| 0 <= i < t.len() ==> is_collapsible_ws(#[trigger] t[i]) || t[i] == '\r',
    ensures
        all_collapsible_ws(normalize_prefix(t, n)),
    decreases n,
{
    if n > 0 {
        lemma_normalize_ws(t, n - 1);
        let a = normalize_prefix(t, n - 1);
        let b = newline_piece(t, n - 1);
        assert(is_collapsible_ws(t[n - 1]) || t[n - 1] == '\r');
        assert forall|i: int| 0 <= i < (a + b).len() implies is_collapsible_ws(#[trigger] (a + b)[i]) by {
            if i < a.len() {
                assert((a + b)[i] == a[i]);
            } else {
                assert((a + b)[i] == b[i - a.len()]);
            }
        }
    }
}

/// In normal mode a text of only spaces, tabs, newlines and carriage returns
/// has no segments.
pub proof fn law_whitespace_only_has_no_segments(text: Seq<char>)
    requires
        forall|i: int| 0 <= i < text.len() ==> is_collapsible_ws(#[trigger] text[i]) || text[i] == '\r',
    ensures
        mode_pieces(WhiteSpaceMode::Normal, normalize_newlines(text)).len() == 0,
{
    let t = normalize_newlines(text);
    lemma_normalize_ws(text, text.len() as int);
    lemma_normal_state(t, t.len() as int);
    assert(t.take(t.len() as int) =~= t);
    let (out, tok, pending) = normal_state(t, t.len() as int);
    assert(split_pieces(tok, SegmentKind::Text) =~= Seq::<Piece>::empty());
    assert(out + split_pieces(tok, SegmentKind::Text) =~= Seq::<Piece>::empty());
}


// ---------------------------------------------------------------- words and spaces

proof fn lemma_scan_suffix(x: Seq<char>, b: Seq<char>, j: int, saw: bool)
    requires
        0 <= j,
    ensures
        arabic_scan(x + b, x.len() + j, saw) == arabic_scan(b, j, saw),
    decreases b.len() - j,
{
    if j < b.len() {
        assert((x + b)[x.len() + j] == b[j]);
        lemma_scan_suffix(x, b, j + 1, true);
        lemma_scan_suffix(x, b, j + 1, saw);
    }
}

proof fn lemma_scan_prefix(a: Seq<char>, y: Seq<char>, j: int, saw: bool)
    requires
        0 <= j < a.len(),
        !is_collapsible_ws(a.last()),
        !is_arabic_combining_mark_spec(a.last()),
    ensures
        arabic_scan(a + y, j, saw) == arabic_scan(a, j, saw),
    decreases a.len() - j,
{
    assert((a + y)[j] == a[j]);
    if j + 1 < a.len() {
        lemma_scan_prefix(a, y, j + 1, true);
        lemma_scan_prefix(a, y, j + 1, saw);
    } else {
        assert(a[j] == a.last());
    }
}

/// Reading the first `n <= a.len()` characters of `a + y` is reading `a`.
proof fn lemma_normal_prefix(a: Seq<char>, y: Seq<char>, n: int)
    requires
        0 <= n <= a.len(),
        a.len() > 0,
        !is_collapsible_ws(a.last()),
        !is_arabic_combining_mark_spec(a.last()),
    ensures
        normal_state(a + y, n) == normal_state(a, n),
    decreases n,
{
    if n > 0 {
        lemma_normal_prefix(a, y, n - 1);
        assert((a + y)[n - 1] == a[n - 1]);
        if a[n - 1] == ' ' {
            lemma_scan_prefix(a, y, n, false);
        }
        assert(arabic_mark_cluster_after(a + y, n - 1) == arabic_mark_cluster_after(a, n - 1));
    }
}

/// A run of collapsible whitespace that is not wholly made of spaces before an
/// Arabic mark cluster.
spec fn counted_gap(w: Seq<char>, b: Seq<char>) -> bool {
    !is_arabic_combining_mark_spec(b[0]) || exists|i: int| 0 <= i < w.len() && w[i] != ' '
}

proof fn lemma_scan_over_ws(t: Seq<char>, j: int, e: int)
    requires
        0 <= j <= e < t.len(),
        forall|i: int| j <= i < e ==> is_collapsible_ws(#[trigger] t[i]),
        !is_collapsible_ws(t[e]),
        !is_arabic_combining_mark_spec(t[e]),
    ensures
        !arabic_scan(t, j, false),
    decreases e - j,
{
    if j < e {
        lemma_scan_over_ws(t, j + 1, e);
    }
}

proof fn lemma_split_empty()
    ensures
        split_pieces(Seq::<char>::empty(), SegmentKind::Text) == Seq::<Piece>::empty(),
{
}

/// After a word that ends `a`, reading a whitespace run `w`: the word is
/// flushed, no piece is added, and (once past a counted character) a space is owed.
proof fn lemma_normal_gap(a: Seq<char>, w: Seq<char>, b: Seq<char>, q: int, m: int)
    requires
        a.len() > 0,
        !is_collapsible_ws(a.last()),
        !is_arabic_combining_mark_spec(a.last()),
        w.len() > 0,
        forall|i: int| 0 <= i < w.len() ==> is_collapsible_ws(#[trigger] w[i]),
        b.len() > 0,
        0 <= q < w.len(),
        !arabic_mark_cluster_after(a + w + b, a.len() + q),
        1 <= m <= w.len(),
    ensures
        ({
            let (out, tok, pending) = normal_state(a + w + b, a.len() + m);
            let (oa, ta, pa) = normal_state(a, a.len() as int);
            &&& out == oa + split_pieces(ta, SegmentKind::Text)
            &&& tok.len() == 0
            &&& m > q ==> pending
        }),
    decreases m,
{
    let t = a + w + b;
    let n = a.len() + m;
    assert(t[n - 1] == w[m - 1]);
    lemma_normal_state(a, a.len() as int);
    let (oa, ta, pa) = normal_state(a, a.len() as int);
    assert(ta.len() > 0 && ta.last() == a.last()) by {
        assert(a[a.len() - 1] == a.last());
    }
    lemma_split_pieces(ta);
    if m == 1 {
        assert(t =~= a + (w + b));
        lemma_normal_prefix(a, w + b, a.len() as int);
    } else {
        lemma_normal_gap(a, w, b, q, m - 1);
        lemma_split_empty();
        assert(oa + split_pieces(ta, SegmentKind::Text) + Seq::<Piece>::empty() =~= oa + split_pieces(
            ta,
            SegmentKind::Text,
        ));
    }
}

/// Reading `b` after the gap is reading `b` alone, after the pieces so far
/// and one space.
proof fn lemma_normal_after_gap(a: Seq<char>, w: Seq<char>, b: Seq<char>, g: Seq<Piece>, m: int)
    requires
        b.len() > 0,
        !is_collapsible_ws(b[0]),
        g.len() > 0,
        1 <= m <= b.len(),
        ({
            let (out, tok, pending) = normal_state(a + w + b, (a.len() + w.len()) as int);
            &&& out + seq![collapsed_space()] == g
            &&& tok.len() == 0
            &&& pending
        }),
    ensures
        ({
            let (out, tok, pending) = normal_state(a + w + b, a.len() + w.len() + m);
            let (ob, tb, pb) = normal_state(b, m);
            &&& out == g + ob
            &&& tok == tb
            &&& pending == pb
            &&& ob.len() > 0 || tb.len() > 0
        }),
    decreases m,
{
    let t = a + w + b;
    let x = a + w;
    assert(t =~= x + b);
    let l = x.len() as int;
    assert(t[l + m - 1] == b[m - 1]);
    if m == 1 {
        let (o0, t0, p0) = normal_state(t, l);
        assert(o0.push(collapsed_space()) =~= o0 + seq![collapsed_space()]);
        assert(normal_state(b, 0) == (Seq::<Piece>::empty(), Seq::<char>::empty(), false));
        assert(g + Seq::<Piece>::empty() =~= g);
        assert(t0.push(b[0]) =~= Seq::<char>::empty().push(b[0]));
    } else {
        lemma_normal_after_gap(a, w, b, g, m - 1);
        let (o, tk, pd) = normal_state(t, l + m - 1);
        let (ob, tb, pb) = normal_state(b, m - 1);
        let c = b[m - 1];
        if is_collapsible_ws(c) {
            lemma_normal_state(b, m - 1);
            lemma_split_pieces(tb);
            assert(g + ob + split_pieces(tb, SegmentKind::Text) =~= g + (ob + split_pieces(
                tb,
                SegmentKind::Text,
            )));
            if c == ' ' {
                lemma_scan_suffix(x, b, m, false);
            }
            assert(arabic_mark_cluster_after(t, l + m - 1) == arabic_mark_cluster_after(b, m - 1));
        } else {
            if pd {
                assert((g + ob).push(collapsed_space()) =~= g + ob.push(collapsed_space()));
            }
        }
    }
}

/// In normal mode words are separated by single spaces: a text made of `a`
/// (ending with a word character that is not an Arabic mark), a run `w` of
/// spaces, tabs and newlines, and `b` (starting with a word character) is cut
/// into the pieces of `a`, one collapsed space, and the pieces of `b`. The one
/// exception, where the space is dropped, is a run of spaces only before
/// Arabic combining marks (see `space_before_arabic_mark_cluster`).
pub proof fn law_normal_space_between_words(a: Seq<char>, w: Seq<char>, b: Seq<char>)
    requires
        a.len() > 0,
        !is_collapsible_ws(a.last()),
        !is_arabic_combining_mark_spec(a.last()),
        w.len() > 0,
        forall|i: int| 0 <= i < w.len() ==> is_collapsible_ws(#[trigger] w[i]),
        b.len() > 0,
        !is_collapsible_ws(b[0]),
        !is_arabic_combining_mark_spec(b[0]) || exists|i: int| 0 <= i < w.len() && w[i] != ' ',
    ensures
        mode_pieces(WhiteSpaceMode::Normal, a + w + b) == mode_pieces(WhiteSpaceMode::Normal, a)
            + seq![piece(seq![' '], SegmentKind::CollapsibleSpace)] + mode_pieces(
            WhiteSpaceMode::Normal,
            b,
        ),
{
    let t = a + w + b;
    let la = a.len() as int;
    let l = la + w.len();
    // a counted character of the run
    let q: int = if exists|i: int| 0 <= i < w.len() && w[i] != ' ' {
        choose|i: int| 0 <= i < w.len() && w[i] != ' '
    } else {
        0
    };
    assert(t[la + q] == w[q]);
    if w[q] == ' ' {
        assert(forall|i: int| la + q + 1 <= i < l ==> t[i] == w[i - la]);
        assert(t[l] == b[0]);
        lemma_scan_over_ws(t, la + q + 1, l);
    }
    assert(!arabic_mark_cluster_after(t, la + q));
    lemma_normal_gap(a, w, b, q, w.len() as int);
    lemma_normal_state(a, la);
    let (oa, ta, pa) = normal_state(a, la);
    assert(ta.len() > 0 && ta.last() == a.last()) by {
        assert(a[a.len() - 1] == a.last());
    }
    lemma_split_pieces(ta);
    let f = oa + split_pieces(ta, SegmentKind::Text);
    let g = f + seq![collapsed_space()];
    lemma_normal_after_gap(a, w, b, g, b.len() as int);
    // the pieces of `a`: nothing is dropped at its end
    assert(word_piece_ok(split_pieces(ta, SegmentKind::Text).last())) by {
        let sp = split_pieces(ta, SegmentKind::Text);
        assert(sp.last() == sp[sp.len() - 1]);
    }
    assert(f.last() == split_pieces(ta, SegmentKind::Text).last());
    assert(mode_pieces(WhiteSpaceMode::Normal, a) == f);
    // the pieces of the whole text
    let (ob, tb, pb) = normal_state(b, b.len() as int);
    lemma_normal_state(b, b.len() as int);
    lemma_split_pieces(tb);
    let xb = ob + split_pieces(tb, SegmentKind::Text);
    assert(xb.len() > 0);
    assert(t.len() == l + b.len());
    assert(g + ob + split_pieces(tb, SegmentKind::Text) =~= g + xb);
    assert((g + xb).last() == xb.last());
    if xb.last().kind == SegmentKind::CollapsibleSpace {
        assert((g + xb).drop_last() =~= g + xb.drop_last());
    }
    assert(collapsed_space() == piece(seq![' '], SegmentKind::CollapsibleSpace));
}

} // verus!
