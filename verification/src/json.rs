//! Escaping line text for a JSON string literal.
use vstd::prelude::*;
use crate::text::{chars_of, push_char};

verus! {

/// What one character becomes inside a JSON string: backslash, double quote,
/// newline, tab and carriage return are written with a backslash.
pub open spec fn json_escape_char(c: char) -> Seq<char> {
    if c == '\\' {
        seq!['\\', '\\']
    } else if c == '"' {
        seq!['\\', '"']
    } else if c == '\n' {
        seq!['\\', 'n']
    } else if c == '\t' {
        seq!['\\', 't']
    } else if c == '\r' {
        seq!['\\', 'r']
    } else {
        seq![c]
    }
}

pub open spec fn json_escape_prefix(s: Seq<char>, n: int) -> Seq<char>
    decreases n,
{
    if n <= 0 {
        Seq::empty()
    } else {
        json_escape_prefix(s, n - 1) + json_escape_char(s[n - 1])
    }
}

pub open spec fn json_escaped(s: Seq<char>) -> Seq<char> {
    json_escape_prefix(s, s.len() as int)
}

/// Reads back an escaped string: a backslash followed by `n`, `t` or `r` is a
/// newline, tab or carriage return, and followed by any other character is that
/// character.
pub open spec fn json_unescape(e: Seq<char>) -> Seq<char>
    decreases e.len(),
{
    if e.len() == 0 {
        Seq::empty()
    } else if e[0] == '\\' && e.len() >= 2 {
        let c = e[1];
        let d = if c == 'n' {
            '\n'
        } else if c == 't' {
            '\t'
        } else if c == 'r' {
            '\r'
        } else {
            c
        };
        seq![d] + json_unescape(e.skip(2))
    } else {
        seq![e[0]] + json_unescape(e.skip(1))
    }
}

/// Whether a character is one that escaping rewrites.
pub open spec fn json_special(c: char) -> bool {
    c == '\\' || c == '"' || c == '\n' || c == '\t' || c == '\r'
}

proof fn lemma_escape_concat(a: Seq<char>, b: Seq<char>)
    ensures
        json_escaped(a + b) == json_escaped(a) + json_escaped(b),
    decreases b.len(),
{
    if b.len() == 0 {
        assert(a + b =~= a);
        assert(json_escaped(b) =~= Seq::<char>::empty());
        assert(json_escaped(a) + json_escaped(b) =~= json_escaped(a));
    } else {
        let b0 = b.drop_last();
        lemma_escape_concat(a, b0);
        assert((a + b).drop_last() =~= a + b0);
        assert(json_escape_prefix(a + b, (a + b).len() as int) == json_escape_prefix(
            a + b,
            (a + b).len() - 1,
        ) + json_escape_char(b.last()));
        lemma_escape_prefix_take(a + b, (a + b).len() - 1);
        lemma_escape_prefix_take(b, b.len() - 1);
        assert(json_escaped(a + b) == json_escaped(a + b0) + json_escape_char(b.last()));
        assert(json_escaped(b) == json_escaped(b0) + json_escape_char(b.last()));
        assert(json_escaped(a) + json_escaped(b) =~= json_escaped(a) + json_escaped(b0)
            + json_escape_char(b.last()));
    }
}

proof fn lemma_escape_prefix_take(s: Seq<char>, n: int)
    requires
        0 <= n <= s.len(),
    ensures
        json_escape_prefix(s, n) == json_escaped(s.take(n)),
    decreases n,
{
    if n > 0 {
        lemma_escape_prefix_take(s, n - 1);
        lemma_escape_prefix_take(s.take(n), n - 1);
        assert(s.take(n).take(n - 1) =~= s.take(n - 1));
    }
}

/// Escaping leaves no raw newline, tab or carriage return in the output.
pub proof fn law_escape_has_no_raw_controls(s: Seq<char>)
    ensures
        forall|k: int|
            0 <= k < json_escaped(s).len() ==> #[trigger] json_escaped(s)[k] != '\n'
                && json_escaped(s)[k] != '\t' && json_escaped(s)[k] != '\r',
    decreases s.len(),
{
    if s.len() > 0 {
        let s0 = s.drop_last();
        law_escape_has_no_raw_controls(s0);
        lemma_escape_prefix_take(s, s.len() - 1);
        assert(s.take(s.len() - 1) =~= s0);
        let e = json_escaped(s);
        assert(e == json_escaped(s0) + json_escape_char(s.last()));
        assert forall|k: int| 0 <= k < e.len() implies #[trigger] e[k] != '\n' && e[k] != '\t'
            && e[k] != '\r' by {
            if k >= json_escaped(s0).len() {
                let c = s.last();
                assert(e[k] == json_escape_char(c)[k - json_escaped(s0).len()]);
            } else {
                assert(e[k] == json_escaped(s0)[k]);
            }
        }
    }
}

/// A text with no backslash, double quote, newline, tab or carriage return is
/// its own escape.
pub proof fn law_escape_plain_is_identity(s: Seq<char>)
    requires
        forall|k: int| 0 <= k < s.len() ==> !json_special(#[trigger] s[k]),
    ensures
        json_escaped(s) == s,
    decreases s.len(),
{
    if s.len() > 0 {
        let s0 = s.drop_last();
        assert forall|k: int| 0 <= k < s0.len() implies !json_special(#[trigger] s0[k]) by {
            assert(s0[k] == s[k]);
        }
        law_escape_plain_is_identity(s0);
        lemma_escape_prefix_take(s, s.len() - 1);
        assert(s.take(s.len() - 1) =~= s0);
        assert(!json_special(s[s.len() - 1]));
        assert(json_escaped(s) =~= s0 + seq![s.last()]);
        assert(s0 + seq![s.last()] =~= s);
    }
}

/// Unescaping an escaped text gives the text back.
pub proof fn law_unescape_undoes_escape(s: Seq<char>)
    ensures
        json_unescape(json_escaped(s)) == s,
    decreases s.len(),
{
    if s.len() > 0 {
        let c = s[0];
        let rest = s.skip(1);
        law_unescape_undoes_escape(rest);
        assert(s =~= seq![c] + rest);
        lemma_escape_concat(seq![c], rest);
        assert(json_escaped(seq![c]) =~= json_escape_char(c)) by {
            assert(json_escape_prefix(seq![c], 0) =~= Seq::<char>::empty());
        }
        let e = json_escape_char(c) + json_escaped(rest);
        assert(json_escaped(s) == e);
        if json_special(c) {
            assert(e.skip(2) =~= json_escaped(rest));
        } else {
            assert(e.skip(1) =~= json_escaped(rest));
        }
        assert(json_unescape(e) =~= seq![c] + rest);
    } else {
        assert(json_escaped(s) =~= Seq::<char>::empty());
    }
}

/// `input` escaped for use inside a JSON string literal.
pub fn escape_json(input: &str) -> (out: String)
    ensures
        out@ == json_escaped(input@),
{
    let chars = chars_of(input);
    let mut out = String::new();
    let mut i: usize = 0;
    while i < chars.len()
        invariant
            i <= chars@.len(),
            chars@ == input@,
            out@ == json_escape_prefix(chars@, i as int),
        decreases chars.len() - i,
    {
        let c = chars[i];
        let ghost before = out@;
        if c == '\\' {
            push_char(&mut out, '\\');
            push_char(&mut out, '\\');
        } else if c == '"' {
            push_char(&mut out, '\\');
            push_char(&mut out, '"');
        } else if c == '\n' {
            push_char(&mut out, '\\');
            push_char(&mut out, 'n');
        } else if c == '\t' {
            push_char(&mut out, '\\');
            push_char(&mut out, 't');
        } else if c == '\r' {
            push_char(&mut out, '\\');
            push_char(&mut out, 'r');
        } else {
            push_char(&mut out, c);
        }
        proof {
            assert(out@ =~= before + json_escape_char(c));
        }
        i += 1;
    }
    out
}

} // verus!
