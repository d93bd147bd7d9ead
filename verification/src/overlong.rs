//! Cutting a run that is wider than the line into pieces that fit.
use vstd::prelude::*;
use crate::measure::{measure_unit_width, sat_add, sat_add_exec, unit_width};
use crate::text::{
    extend_chars, is_ascii_letter, is_ascii_letter_exec, is_combining_mark, is_combining_mark_spec,
    is_forbidden_line_start, is_forbidden_line_start_exec,
};

verus! {

/// The width by which a line is kept narrower than the requested width when
/// deciding whether the next piece still fits (half a pixel).
pub const PARITY_WIDTH_SHRINK: u64 = 50;

/// The space width assumed when the prepared text reports none: that of a 16px font.
pub const DEFAULT_SPACE_WIDTH: u64 = 528;

/// Characters that stay attached to the unit before them.
pub open spec fn is_attached_mark(c: char) -> bool {
    is_combining_mark_spec(c) || c == '\u{FE0F}'
}

/// End of the run of ASCII letters of `s` that starts at `i`.
pub open spec fn letters_end(s: Seq<char>, i: int) -> int
    decreases s.len() - i,
{
    if 0 <= i < s.len() && is_ascii_letter(s[i]) {
        letters_end(s, i + 1)
    } else {
        i
    }
}

/// End of the run of attached marks and zero-width-joiner pairs that starts at `i`.
pub open spec fn marks_end(s: Seq<char>, i: int) -> int
    decreases s.len() - i,
{
    if 0 <= i < s.len() && is_attached_mark(s[i]) {
        marks_end(s, i + 1)
    } else if 0 <= i && i + 1 < s.len() && s[i] == '\u{200D}' {
        marks_end(s, i + 2)
    } else {
        i
    }
}

/// End of the break unit that starts at `start`: one character, extended over
/// a run of ASCII letters when it and the next are letters, then over attached
/// marks and joiner sequences.
pub open spec fn unit_end(s: Seq<char>, start: int) -> int {
    let i1 = start + 1;
    let i2 = if i1 < s.len() && is_ascii_letter(s[i1 - 1]) && is_ascii_letter(s[i1]) {
        letters_end(s, i1)
    } else {
        i1
    };
    marks_end(s, i2)
}

proof fn lemma_letters_end(s: Seq<char>, i: int)
    requires
        0 <= i,
    ensures
        i <= letters_end(s, i),
        letters_end(s, i) <= s.len() || letters_end(s, i) == i,
    decreases s.len() - i,
{
    if 0 <= i < s.len() && is_ascii_letter(s[i]) {
        lemma_letters_end(s, i + 1);
    }
}

proof fn lemma_marks_end(s: Seq<char>, i: int)
    requires
        0 <= i,
    ensures
        i <= marks_end(s, i),
        marks_end(s, i) <= s.len() || marks_end(s, i) == i,
    decreases s.len() - i,
{
    if 0 <= i < s.len() && is_attached_mark(s[i]) {
        lemma_marks_end(s, i + 1);
    } else if 0 <= i && i + 1 < s.len() && s[i] == '\u{200D}' {
        lemma_marks_end(s, i + 2);
    }
}

pub proof fn lemma_unit_end(s: Seq<char>, start: int)
    requires
        0 <= start < s.len(),
    ensures
        start < unit_end(s, start) <= s.len(),
{
    let i1 = start + 1;
    lemma_letters_end(s, i1);
    let i2 = if i1 < s.len() && is_ascii_letter(s[i1 - 1]) && is_ascii_letter(s[i1]) {
        letters_end(s, i1)
    } else {
        i1
    };
    lemma_marks_end(s, i2);
}

/// The break units of `s` from index `start` on.
pub open spec fn units_from(s: Seq<char>, start: int) -> Seq<Seq<char>>
    decreases s.len() - start,
    when 0 <= start
{
    if start >= s.len() {
        Seq::empty()
    } else {
        let e = unit_end(s, start);
        if e <= start || e > s.len() {
            Seq::empty()
        } else {
            seq![s.subrange(start, e)] + units_from(s, e)
        }
    }
}

/// The units into which an overlong run may be cut, each with its width when a
/// space is `space_width` wide (a 16px font's space when that is zero).
pub open spec fn break_units(s: Seq<char>, space_width: u64) -> Seq<(Seq<char>, u64)> {
    let scale = if space_width > 0 {
        space_width
    } else {
        DEFAULT_SPACE_WIDTH
    };
    units_from(s, 0).map_values(|u: Seq<char>| (u, unit_width(scale, u)))
}

pub open spec fn pair_view(p: (Vec<char>, u64)) -> (Seq<char>, u64) {
    (p.0@, p.1)
}

pub open spec fn pairs_view(v: Seq<(Vec<char>, u64)>) -> Seq<(Seq<char>, u64)> {
    v.map_values(|p: (Vec<char>, u64)| pair_view(p))
}

fn letters_end_exec(s: &Vec<char>, start: usize) -> (e: usize)
    requires
        start <= s@.len(),
    ensures
        e == letters_end(s@, start as int),
{
    let mut i = start;
    while i < s.len() && is_ascii_letter_exec(s[i])
        invariant
            start <= i <= s@.len(),
            letters_end(s@, start as int) == letters_end(s@, i as int),
        decreases s.len() - i,
    {
        i += 1;
    }
    i
}

fn marks_end_exec(s: &Vec<char>, start: usize) -> (e: usize)
    requires
        start <= s@.len(),
    ensures
        e == marks_end(s@, start as int),
{
    let mut i = start;
    loop
        invariant
            start <= i <= s@.len(),
            marks_end(s@, start as int) == marks_end(s@, i as int),
        ensures
            i == marks_end(s@, start as int),
        decreases s.len() - i,
    {
        if i < s.len() && (is_combining_mark(s[i]) || s[i] == '\u{FE0F}') {
            i += 1;
        } else if i < s.len() && s[i] == '\u{200D}' && i + 1 < s.len() {
            i += 2;
        } else {
            break;
        }
    }
    i
}

/// Cuts `text` into break units (see `unit_end`), each measured with the font
/// model whose space is `space_width` wide (a 16px font's space when that is zero).
pub fn segment_break_units(text: &Vec<char>, space_width: u64) -> (out: Vec<(Vec<char>, u64)>)
    ensures
        pairs_view(out@) == break_units(text@, space_width),
{
    let scale = if space_width > 0 {
        space_width
    } else {
        DEFAULT_SPACE_WIDTH
    };
    let ghost s = text@;
    let mut out: Vec<(Vec<char>, u64)> = Vec::new();
    let mut i: usize = 0;
    proof {
        assert(pairs_view(out@) =~= Seq::<(Seq<char>, u64)>::empty());
    }
    while i < text.len()
        invariant
            i <= s.len(),
            s == text@,
            scale == (if space_width > 0 { space_width } else { DEFAULT_SPACE_WIDTH }),
            units_from(s, 0).map_values(|u: Seq<char>| (u, unit_width(scale, u))) == pairs_view(
                out@,
            ) + units_from(s, i as int).map_values(|u: Seq<char>| (u, unit_width(scale, u))),
        decreases text.len() - i,
    {
        let start = i;
        let mut unit: Vec<char> = Vec::new();
        unit.push(text[i]);
        i += 1;
        if i < text.len() && is_ascii_letter_exec(text[i - 1]) && is_ascii_letter_exec(text[i]) {
            let e = letters_end_exec(text, i);
            proof {
                lemma_letters_end(s, i as int);
            }
            while i < e
                invariant
                    start < i <= e <= s.len(),
                    s == text@,
                    unit@ == s.subrange(start as int, i as int),
                decreases e - i,
            {
                proof {
                    assert(s.subrange(start as int, i + 1) == s.subrange(start as int, i as int).push(
                        s[i as int],
                    ));
                }
                unit.push(text[i]);
                i += 1;
            }
        }
        let e2 = marks_end_exec(text, i);
        proof {
            lemma_marks_end(s, i as int);
            lemma_unit_end(s, start as int);
            assert(e2 == unit_end(s, start as int));
        }
        while i < e2
            invariant
                start < i <= e2 <= s.len(),
                s == text@,
                unit@ == s.subrange(start as int, i as int),
            decreases e2 - i,
        {
            proof {
                assert(s.subrange(start as int, i + 1) == s.subrange(start as int, i as int).push(
                    s[i as int],
                ));
            }
            unit.push(text[i]);
            i += 1;
        }
        let w = measure_unit_width(&unit, scale);
        proof {
            let f = |u: Seq<char>| (u, unit_width(scale, u));
            let rest = units_from(s, i as int);
            assert(units_from(s, start as int) == seq![s.subrange(start as int, i as int)] + rest);
            assert(units_from(s, start as int).map_values(f) =~= seq![(unit@, w)] + rest.map_values(
                f,
            ));
            assert(pairs_view(out@.push((unit, w))) =~= pairs_view(out@).push((unit@, w)));
        }
        out.push((unit, w));
    }
    proof {
        assert(units_from(s, s.len() as int) =~= Seq::<Seq<char>>::empty());
    }
    out
}

/// Folding the break units: the pieces emitted so far and the pending piece with its width.
pub open spec fn overlong_state(units: Seq<(Seq<char>, u64)>, max_width: u64, n: int) -> (
    Seq<(Seq<char>, u64)>,
    Seq<char>,
    u64,
)
    decreases n,
{
    if n <= 0 {
        (Seq::empty(), Seq::empty(), 0)
    } else {
        let (out, buf, bw) = overlong_state(units, max_width, n - 1);
        let (u, uw) = units[n - 1];
        let overflows = bw > 0 && bw + uw + PARITY_WIDTH_SHRINK > max_width;
        let out1 = if overflows {
            out.push((buf, bw))
        } else {
            out
        };
        let buf1 = if overflows {
            Seq::empty()
        } else {
            buf
        };
        let bw1: u64 = if overflows {
            0
        } else {
            bw
        };
        if bw1 == 0 && uw > max_width {
            (out1.push((u, uw)), buf1, bw1)
        } else if n - 1 > 0 && bw1 == 0 && u.len() > 0 && is_forbidden_line_start(u[0])
            && out1.len() > 0 {
            let last = out1.last();
            (out1.update(out1.len() - 1, (last.0 + u, sat_add(last.1, uw))), buf1, bw1)
        } else {
            (out1, buf1 + u, sat_add(bw1, uw))
        }
    }
}

/// The pieces of a run `text` of width `width` that does not fit in `max_width`:
/// units are packed greedily (keeping half a pixel of slack), a unit wider than
/// the line stands alone, and a unit that would begin a piece with forbidden
/// punctuation joins the piece before. A run that fits, or that has a single
/// unit, is left whole.
pub open spec fn overlong_parts(text: Seq<char>, width: u64, max_width: u64, space_width: u64) -> Seq<
    (Seq<char>, u64),
> {
    if max_width == 0 || width <= max_width {
        seq![(text, width)]
    } else {
        let units = break_units(text, space_width);
        if units.len() <= 1 {
            seq![(text, width)]
        } else {
            let (out, buf, bw) = overlong_state(units, max_width, units.len() as int);
            if buf.len() > 0 {
                out.push((buf, bw))
            } else {
                out
            }
        }
    }
}

pub proof fn lemma_units_nonempty(s: Seq<char>, start: int)
    requires
        0 <= start,
    ensures
        forall|k: int| 0 <= k < units_from(s, start).len() ==> #[trigger] units_from(s, start)[k].len() > 0,
    decreases s.len() - start,
{
    if start < s.len() {
        lemma_unit_end(s, start);
        let e = unit_end(s, start);
        lemma_units_nonempty(s, e);
        let us = units_from(s, start);
        assert forall|k: int| 0 <= k < us.len() implies #[trigger] us[k].len() > 0 by {
            if k > 0 {
                assert(us[k] == units_from(s, e)[k - 1]);
            }
        }
    }
}

pub proof fn lemma_overlong_progress(units: Seq<(Seq<char>, u64)>, max_width: u64, n: int)
    requires
        1 <= n <= units.len(),
        forall|k: int| 0 <= k < units.len() ==> #[trigger] units[k].0.len() > 0,
    ensures
        ({
            let (out, buf, bw) = overlong_state(units, max_width, n);
            out.len() > 0 || buf.len() > 0
        }),
    decreases n,
{
    if n > 1 {
        lemma_overlong_progress(units, max_width, n - 1);
    }
    assert(units[n - 1].0.len() > 0);
}

pub proof fn lemma_overlong_parts_nonempty(
    text: Seq<char>,
    width: u64,
    max_width: u64,
    space_width: u64,
)
    ensures
        overlong_parts(text, width, max_width, space_width).len() > 0,
{
    if !(max_width == 0 || width <= max_width) {
        let units = break_units(text, space_width);
        if units.len() > 1 {
            lemma_units_nonempty(text, 0);
            assert forall|k: int| 0 <= k < units.len() implies #[trigger] units[k].0.len() > 0 by {
                assert(units[k].0 == units_from(text, 0)[k]);
            }
            lemma_overlong_progress(units, max_width, units.len() as int);
        }
    }
}

/// Cuts a run that does not fit on a line into pieces; see `overlong_parts`.
pub fn split_overlong_chunk(text: &Vec<char>, width: u64, max_width: u64, space_width: u64) -> (out:
    Vec<(Vec<char>, u64)>)
    ensures
        pairs_view(out@) == overlong_parts(text@, width, max_width, space_width),
        out@.len() > 0,
{
    proof {
        lemma_overlong_parts_nonempty(text@, width, max_width, space_width);
    }
    if max_width == 0 || width <= max_width {
        let copy = text.clone();
        proof {
            assert(copy@ =~= text@);
        }
        let out = vec![(copy, width)];
        proof {
            assert(pairs_view(out@) =~= seq![(text@, width)]);
        }
        return out;
    }
    let units = segment_break_units(text, space_width);
    if units.len() <= 1 {
        let copy = text.clone();
        proof {
            assert(copy@ =~= text@);
        }
        let out = vec![(copy, width)];
        proof {
            assert(pairs_view(out@) =~= seq![(text@, width)]);
        }
        return out;
    }
    let ghost us = pairs_view(units@);
    let mut out: Vec<(Vec<char>, u64)> = Vec::new();
    let mut buf: Vec<char> = Vec::new();
    let mut buf_width: u64 = 0;
    let mut idx: usize = 0;
    proof {
        assert(pairs_view(out@) =~= Seq::<(Seq<char>, u64)>::empty());
    }
    while idx < units.len()
        invariant
            idx <= units@.len(),
            us == pairs_view(units@),
            us == break_units(text@, space_width),
            (pairs_view(out@), buf@, buf_width) == overlong_state(us, max_width, idx as int),
        decreases units.len() - idx,
    {
        let ghost prev = (pairs_view(out@), buf@, buf_width);
        let unit = &units[idx].0;
        let unit_width = units[idx].1;
        proof {
            assert(pair_view(units@[idx as int]) == us[idx as int]);
        }
        let overflows = buf_width > 0 && (buf_width as u128) + (unit_width as u128)
            + (PARITY_WIDTH_SHRINK as u128) > max_width as u128;
        if overflows {
            let taken = buf;
            buf = Vec::new();
            proof {
                assert(pairs_view(out@.push((taken, buf_width))) =~= pairs_view(out@).push(
                    (taken@, buf_width),
                ));
            }
            out.push((taken, buf_width));
            buf_width = 0;
        }
        if buf_width == 0 && unit_width > max_width {
            let copy = unit.clone();
            proof {
                assert(copy@ =~= unit@);
                assert(pairs_view(out@.push((copy, unit_width))) =~= pairs_view(out@).push(
                    (unit@, unit_width),
                ));
            }
            out.push((copy, unit_width));
        } else if idx > 0 && buf_width == 0 && unit.len() > 0 && is_forbidden_line_start_exec(
            unit[0],
        ) && out.len() > 0 {
            let ghost before = out@;
            let (mut prev_text, prev_width) = out.pop().unwrap();
            extend_chars(&mut prev_text, unit);
            let w = sat_add_exec(prev_width, unit_width);
            out.push((prev_text, w));
            proof {
                assert(pairs_view(out@) =~= pairs_view(before).update(
                    before.len() - 1,
                    (pairs_view(before).last().0 + unit@, sat_add(pairs_view(before).last().1, unit_width)),
                ));
            }
        } else {
            extend_chars(&mut buf, unit);
            buf_width = sat_add_exec(buf_width, unit_width);
        }
        idx += 1;
    }
    if buf.len() > 0 {
        proof {
            assert(pairs_view(out@.push((buf, buf_width))) =~= pairs_view(out@).push(
                (buf@, buf_width),
            ));
        }
        out.push((buf, buf_width));
    }
    out
}

} // verus!
