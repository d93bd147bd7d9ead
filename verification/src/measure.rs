//! Text measurement. Widths are integers in hundredths of a pixel.
use vstd::prelude::*;
use crate::text::{chars_of, code_point, in_range, is_wide_char, is_wide_char_exec};

verus! {

/// Addition that stops at `u64::MAX` instead of overflowing.
pub open spec fn sat_add(a: u64, b: u64) -> u64 {
    if a + b > u64::MAX {
        u64::MAX
    } else {
        (a + b) as u64
    }
}

pub fn sat_add_exec(a: u64, b: u64) -> (r: u64)
    ensures
        r == sat_add(a, b),
{
    a.saturating_add(b)
}

/// Measures the width of a piece of text, in hundredths of a pixel.
pub trait Measurer {
    /// The width that `measure` gives for the characters `text`.
    spec fn measured(&self, text: Seq<char>) -> u64;

    fn measure(&self, text: &str) -> (w: u64)
        ensures
            w == self.measured(text@),
    ;
}

/// A measurer for a monospace-like font model of a given size in pixels:
/// a space is 0.33 em, a tab 1.32 em, CJK/kana/Hangul 1 em, narrow
/// punctuation 0.4 em and every other character 0.6 em.
#[derive(Clone, Copy, Debug)]
pub struct SimpleMeasurer {
    pub font_size_px: u32,
}

/// Punctuation that the font model draws at 0.4 em.
pub open spec fn is_narrow_punct(c: char) -> bool {
    ||| c == '.'
    ||| c == ','
    ||| c == '!'
    ||| c == '?'
    ||| c == ';'
    ||| c == ':'
    ||| c == '%'
    ||| c == ')'
    ||| c == ']'
    ||| c == '}'
    ||| c == '\''
    ||| c == '"'
    ||| c == '-'
    ||| c == '\u{2014}'
}

pub fn is_narrow_punct_exec(c: char) -> (b: bool)
    ensures
        b == is_narrow_punct(c),
{
    c == '.' || c == ',' || c == '!' || c == '?' || c == ';' || c == ':' || c == '%' || c == ')'
        || c == ']' || c == '}' || c == '\'' || c == '"' || c == '-' || c == '\u{2014}'
}

/// Width of one character in hundredths of an em.
pub open spec fn simple_factor(c: char) -> u64 {
    if c == ' ' {
        33
    } else if c == '\t' {
        132
    } else if is_wide_char(c) {
        100
    } else if is_narrow_punct(c) {
        40
    } else {
        60
    }
}

/// Width of `s` for a font of `font` pixels: the sum over its characters of
/// `font * simple_factor(c)` hundredths of a pixel.
pub open spec fn simple_width(font: u32, s: Seq<char>) -> u64
    decreases s.len(),
{
    if s.len() == 0 {
        0
    } else {
        sat_add(simple_width(font, s.drop_last()), (font * simple_factor(s.last())) as u64)
    }
}

/// The simple font model, character by character: with a font of `font`
/// pixels a space is `font * 33` hundredths of a pixel, a tab `font * 132`,
/// a character of the CJK ideograph, CJK symbol, kana or Hangul blocks
/// `font * 100`, one of `. , ! ? ; : % ) ] } ' " -` and the em dash
/// `font * 40`, and any other character `font * 60`.
pub proof fn law_simple_char_width(m: SimpleMeasurer, c: char)
    ensures
        m.measured(seq![c]) == m.font_size_px * (if c == ' ' {
            33int
        } else if c == '\t' {
            132int
        } else if (0x4E00 <= (c as u32) <= 0x9FFF) || (0x3400 <= (c as u32) <= 0x4DBF) || (0xF900
            <= (c as u32) <= 0xFAFF) || (0x3000 <= (c as u32) <= 0x303F) || (0x3040 <= (c as u32)
            <= 0x30FF) || (0xAC00 <= (c as u32) <= 0xD7AF) {
            100int
        } else if c == '.' || c == ',' || c == '!' || c == '?' || c == ';' || c == ':' || c == '%'
            || c == ')' || c == ']' || c == '}' || c == '\'' || c == '"' || c == '-' || c
            == '\u{2014}' {
            40int
        } else {
            60int
        }),
{
    assert(seq![c].drop_last() =~= Seq::<char>::empty());
    assert(seq![c].last() == c);
    let f = simple_factor(c);
    let font = m.font_size_px;
    assert(font * f <= 0xffff_ffff * 132) by (nonlinear_arith)
        requires
            font <= 0xffff_ffff,
            f <= 132,
    ;
    assert(0 <= font * f) by (nonlinear_arith)
        requires
            0 <= font,
            0 <= f,
    ;
    assert(simple_width(font, seq![c].drop_last()) == 0);
    assert(simple_width(font, seq![c]) == sat_add(0, (font * f) as u64));
    assert(m.measured(seq![c]) == font * f);
}

/// The simple font model measures a text as the sum of its characters'
/// widths: the width of `a` followed by `b` is that of `a` plus that of `b`
/// (stopping at `u64::MAX`).
pub proof fn law_simple_width_adds(m: SimpleMeasurer, a: Seq<char>, b: Seq<char>)
    ensures
        m.measured(a + b) == sat_add(m.measured(a), m.measured(b)),
    decreases b.len(),
{
    if b.len() == 0 {
        assert(a + b =~= a);
    } else {
        law_simple_width_adds(m, a, b.drop_last());
        assert((a + b).drop_last() =~= a + b.drop_last());
        assert((a + b).last() == b.last());
    }
}

fn simple_factor_exec(c: char) -> (r: u64)
    ensures
        r == simple_factor(c),
{
    if c == ' ' {
        33
    } else if c == '\t' {
        132
    } else if is_wide_char_exec(c) {
        100
    } else if is_narrow_punct_exec(c) {
        40
    } else {
        60
    }
}

impl Measurer for SimpleMeasurer {
    open spec fn measured(&self, text: Seq<char>) -> u64 {
        simple_width(self.font_size_px, text)
    }

    fn measure(&self, text: &str) -> (w: u64) {
        let chars = chars_of(text);
        let font = self.font_size_px as u64;
        let mut total: u64 = 0;
        let mut i: usize = 0;
        while i < chars.len()
            invariant
                i <= chars@.len(),
                chars@ == text@,
                font == self.font_size_px,
                total == simple_width(self.font_size_px, chars@.take(i as int)),
            decreases chars.len() - i,
        {
            proof {
                assert(chars@.take(i + 1).drop_last() == chars@.take(i as int));
            }
            let f = simple_factor_exec(chars[i]);
            total = sat_add_exec(total, font * f);
            i += 1;
        }
        proof {
            assert(chars@.take(chars@.len() as int) == chars@);
        }
        total
    }
}

/// Width of one character, in hundredths of an em, in the model used to cut
/// overlong runs: like `simple_factor`, but emoji (U+1F300..U+1FAFF) count as wide.
pub open spec fn unit_factor(c: char) -> u64 {
    if c == ' ' {
        33
    } else if c == '\t' {
        132
    } else if is_narrow_punct(c) {
        40
    } else if is_wide_char(c) || in_range(c, 0x1F300, 0x1FAFF) {
        100
    } else {
        60
    }
}

fn unit_factor_exec(c: char) -> (r: u64)
    ensures
        r == unit_factor(c),
{
    if c == ' ' {
        33
    } else if c == '\t' {
        132
    } else if is_narrow_punct_exec(c) {
        40
    } else if is_wide_char_exec(c) || {
        let n = code_point(c);
        0x1F300 <= n && n <= 0x1FAFF
    } {
        100
    } else {
        60
    }
}

/// Width of one character when a space is `scale` wide: `scale * factor / 33`,
/// stopping at `u64::MAX`.
pub open spec fn unit_char_width(scale: u64, c: char) -> u64 {
    let w = scale * unit_factor(c) / 33;
    if w > u64::MAX {
        u64::MAX
    } else {
        w as u64
    }
}

/// Width of a break unit when a space is `scale` wide.
pub open spec fn unit_width(scale: u64, s: Seq<char>) -> u64
    decreases s.len(),
{
    if s.len() == 0 {
        0
    } else {
        sat_add(unit_width(scale, s.drop_last()), unit_char_width(scale, s.last()))
    }
}

/// Measures a break unit with the font model, where a space is `scale` wide.
pub fn measure_unit_width(text: &Vec<char>, scale: u64) -> (w: u64)
    ensures
        w == unit_width(scale, text@),
{
    let mut total: u64 = 0;
    let mut i: usize = 0;
    while i < text.len()
        invariant
            i <= text@.len(),
            total == unit_width(scale, text@.take(i as int)),
        decreases text.len() - i,
    {
        proof {
            assert(text@.take(i + 1).drop_last() == text@.take(i as int));
        }
        let f = unit_factor_exec(text[i]);
        let wide: u128 = (scale as u128) * (f as u128) / 33;
        let cw: u64 = if wide > u64::MAX as u128 {
            u64::MAX
        } else {
            wide as u64
        };
        total = sat_add_exec(total, cw);
        i += 1;
    }
    proof {
        assert(text@.take(text@.len() as int) == text@);
    }
    total
}

} // verus!
