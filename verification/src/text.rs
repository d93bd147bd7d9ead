//! Character classes and small string helpers shared by segmentation and layout.
use vstd::prelude::*;

verus! {

/// Code point of a character, as an integer.
pub open spec fn cp(c: char) -> int {
    c as u32 as int
}

/// Whether `lo <= cp(c) <= hi`.
pub open spec fn in_range(c: char, lo: int, hi: int) -> bool {
    lo <= cp(c) && cp(c) <= hi
}

pub fn code_point(c: char) -> (r: u32)
    ensures
        r == cp(c),
{
    c as u32
}

/// CJK, kana and Hangul blocks that the simple measurer draws one em wide.
pub open spec fn is_wide_char(c: char) -> bool {
    ||| in_range(c, 0x4E00, 0x9FFF)
    ||| in_range(c, 0x3400, 0x4DBF)
    ||| in_range(c, 0xF900, 0xFAFF)
    ||| in_range(c, 0x3000, 0x303F)
    ||| in_range(c, 0x3040, 0x30FF)
    ||| in_range(c, 0xAC00, 0xD7AF)
}

pub fn is_wide_char_exec(c: char) -> (b: bool)
    ensures
        b == is_wide_char(c),
{
    let n = code_point(c);
    (0x4E00 <= n && n <= 0x9FFF) || (0x3400 <= n && n <= 0x4DBF) || (0xF900 <= n && n <= 0xFAFF)
        || (0x3000 <= n && n <= 0x303F) || (0x3040 <= n && n <= 0x30FF) || (0xAC00 <= n && n
        <= 0xD7AF)
}

/// Whether the first character of `g` lies in a wide (CJK, kana, Hangul) block.
/// An empty string is not wide.
pub fn is_wide(g: &str) -> (b: bool)
    ensures
        b == (g@.len() > 0 && is_wide_char(g@[0])),
{
    if g.unicode_len() == 0 {
        false
    } else {
        is_wide_char_exec(g.get_char(0))
    }
}

/// Arabic combining marks (harakat and related) that may follow a space.
pub open spec fn is_arabic_combining_mark_spec(c: char) -> bool {
    ||| in_range(c, 0x0610, 0x061A)
    ||| in_range(c, 0x064B, 0x065F)
    ||| in_range(c, 0x0670, 0x0670)
}

pub fn is_arabic_combining_mark(ch: char) -> (b: bool)
    ensures
        b == is_arabic_combining_mark_spec(ch),
{
    let n = code_point(ch);
    (0x0610 <= n && n <= 0x061A) || (0x064B <= n && n <= 0x065F) || (0x0670 <= n && n <= 0x0670)
}

/// Arabic letters (Arabic, Arabic Supplement, Arabic Extended-A blocks).
pub open spec fn is_arabic_base_spec(c: char) -> bool {
    ||| in_range(c, 0x0600, 0x06FF)
    ||| in_range(c, 0x0750, 0x077F)
    ||| in_range(c, 0x08A0, 0x08FF)
}

pub fn is_arabic_base(ch: char) -> (b: bool)
    ensures
        b == is_arabic_base_spec(ch),
{
    let n = code_point(ch);
    (0x0600 <= n && n <= 0x06FF) || (0x0750 <= n && n <= 0x077F) || (0x08A0 <= n && n <= 0x08FF)
}

/// Combining marks that stay attached to the character before them when an
/// overlong run is cut into break units.
pub open spec fn is_combining_mark_spec(c: char) -> bool {
    ||| in_range(c, 0x0300, 0x036F)
    ||| in_range(c, 0x1AB0, 0x1AFF)
    ||| in_range(c, 0x1DC0, 0x1DFF)
    ||| in_range(c, 0x20D0, 0x20FF)
    ||| in_range(c, 0xFE20, 0xFE2F)
    ||| in_range(c, 0x064B, 0x065F)
}

pub fn is_combining_mark(ch: char) -> (b: bool)
    ensures
        b == is_combining_mark_spec(ch),
{
    let n = code_point(ch);
    (0x0300 <= n && n <= 0x036F) || (0x1AB0 <= n && n <= 0x1AFF) || (0x1DC0 <= n && n <= 0x1DFF)
        || (0x20D0 <= n && n <= 0x20FF) || (0xFE20 <= n && n <= 0xFE2F) || (0x064B <= n && n
        <= 0x065F)
}

/// CJK punctuation that must not begin a line (ideographic comma and full stop,
/// fullwidth comma, full stop, exclamation and question marks, closing brackets).
pub open spec fn is_forbidden_line_start(c: char) -> bool {
    ||| cp(c) == 0x3001
    ||| cp(c) == 0x3002
    ||| cp(c) == 0xFF0C
    ||| cp(c) == 0xFF0E
    ||| cp(c) == 0xFF01
    ||| cp(c) == 0xFF1F
    ||| cp(c) == 0xFF09
    ||| cp(c) == 0xFF3D
    ||| cp(c) == 0xFF5D
}

pub fn is_forbidden_line_start_exec(c: char) -> (b: bool)
    ensures
        b == is_forbidden_line_start(c),
{
    let n = code_point(c);
    n == 0x3001 || n == 0x3002 || n == 0xFF0C || n == 0xFF0E || n == 0xFF01 || n == 0xFF1F || n
        == 0xFF09 || n == 0xFF3D || n == 0xFF5D
}

/// Whether `text` begins with a character that must not start a line.
pub fn starts_with_forbidden_line_start(text: &str) -> (b: bool)
    ensures
        b == (text@.len() > 0 && is_forbidden_line_start(text@[0])),
{
    if text.unicode_len() == 0 {
        false
    } else {
        is_forbidden_line_start_exec(text.get_char(0))
    }
}

/// ASCII letters `A`-`Z` and `a`-`z`.
pub open spec fn is_ascii_letter(c: char) -> bool {
    ('a' <= c && c <= 'z') || ('A' <= c && c <= 'Z')
}

pub fn is_ascii_letter_exec(c: char) -> (b: bool)
    ensures
        b == is_ascii_letter(c),
{
    ('a' <= c && c <= 'z') || ('A' <= c && c <= 'Z')
}

/// Appends one character to a string by calling std's `String::push`. The
/// contract, taken on trust, states that the string's characters afterwards are
/// the old ones followed by `c`.
#[verifier::external_body]
pub(crate) fn push_char(s: &mut String, c: char)
    ensures
        final(s)@ == old(s)@.push(c),
{
    s.push(c);
}

/// The characters of a string slice, in order.
pub fn chars_of(text: &str) -> (out: Vec<char>)
    ensures
        out@ == text@,
{
    let mut out: Vec<char> = Vec::new();
    for c in it: text.chars()
        invariant
            it.seq() == text@,
            out@ == it.seq().take(it.index() as int),
    {
        proof {
            assert(it.seq().take(it.index() + 1) == it.seq().take(it.index() as int).push(c));
        }
        out.push(c);
    }
    proof {
        assert(text@.take(text@.len() as int) == text@);
    }
    out
}

/// A string made of the given characters.
pub fn string_from(chars: &Vec<char>) -> (s: String)
    ensures
        s@ == chars@,
{
    let mut s = String::new();
    let mut i: usize = 0;
    while i < chars.len()
        invariant
            i <= chars.len(),
            s@ == chars@.take(i as int),
        decreases chars.len() - i,
    {
        proof {
            assert(chars@.take(i + 1) == chars@.take(i as int).push(chars@[i as int]));
        }
        push_char(&mut s, chars[i]);
        i += 1;
    }
    proof {
        assert(chars@.take(chars@.len() as int) == chars@);
    }
    s
}

/// Appends all characters of `src` to `dst`.
pub fn extend_chars(dst: &mut Vec<char>, src: &Vec<char>)
    ensures
        final(dst)@ == old(dst)@ + src@,
{
    let mut i: usize = 0;
    while i < src.len()
        invariant
            i <= src.len(),
            dst@ == old(dst)@ + src@.take(i as int),
        decreases src.len() - i,
    {
        proof {
            assert(src@.take(i + 1) == src@.take(i as int).push(src@[i as int]));
        }
        dst.push(src[i]);
        i += 1;
    }
    proof {
        assert(src@.take(src@.len() as int) == src@);
    }
}

/// The first `n` characters of `src`.
pub fn prefix_chars(src: &Vec<char>, n: usize) -> (out: Vec<char>)
    requires
        n <= src@.len(),
    ensures
        out@ == src@.take(n as int),
{
    let mut out: Vec<char> = Vec::new();
    let mut i: usize = 0;
    while i < n
        invariant
            i <= n,
            n <= src@.len(),
            out@ == src@.take(i as int),
        decreases n - i,
    {
        proof {
            assert(src@.take(i + 1) == src@.take(i as int).push(src@[i as int]));
        }
        out.push(src[i]);
        i += 1;
    }
    out
}

/// Characters of `src` from index `n` on.
pub fn suffix_chars(src: &Vec<char>, n: usize) -> (out: Vec<char>)
    requires
        n <= src@.len(),
    ensures
        out@ == src@.skip(n as int),
{
    let mut out: Vec<char> = Vec::new();
    let mut i: usize = n;
    while i < src.len()
        invariant
            n <= i <= src@.len(),
            out@ == src@.subrange(n as int, i as int),
        decreases src.len() - i,
    {
        proof {
            assert(src@.subrange(n as int, i + 1) == src@.subrange(n as int, i as int).push(
                src@[i as int],
            ));
        }
        out.push(src[i]);
        i += 1;
    }
    out
}

} // verus!
