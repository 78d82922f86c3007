use vstd::prelude::*;

verus! {

/// The character that the escape `\c` stands for.
pub open spec fn escaped(c: char) -> char {
    if c == 'n' {
        '\n'
    } else if c == 't' {
        '\t'
    } else if c == '0' {
        '\0'
    } else {
        c
    }
}

/// The content of a string literal with its escapes resolved: `\n`, `\t`, `\0` stand for
/// newline, tab and NUL, and a backslash before any other character stands for that character.
pub open spec fn unescape(s: Seq<char>) -> Seq<char>
    decreases s.len(),
{
    if s.len() == 0 {
        Seq::empty()
    } else if s[0] == '\\' && s.len() >= 2 {
        seq![escaped(s[1])] + unescape(s.skip(2))
    } else {
        seq![s[0]] + unescape(s.skip(1))
    }
}

/// The number of bytes that UTF-8 takes for `c`.
pub open spec fn utf8_width(c: char) -> nat {
    if (c as u32) < 0x80 {
        1
    } else if (c as u32) < 0x800 {
        2
    } else if (c as u32) < 0x10000 {
        3
    } else {
        4
    }
}

/// The number of bytes that UTF-8 takes for `s`.
pub open spec fn utf8_len(s: Seq<char>) -> nat
    decreases s.len(),
{
    if s.len() == 0 {
        0
    } else {
        utf8_width(s[0]) + utf8_len(s.skip(1))
    }
}

pub proof fn lemma_unescape_len(s: Seq<char>)
    ensures
        unescape(s).len() <= s.len(),
    decreases s.len(),
{
    if s.len() > 0 {
        if s[0] == '\\' && s.len() >= 2 {
            lemma_unescape_len(s.skip(2));
        } else {
            lemma_unescape_len(s.skip(1));
        }
    }
}

proof fn lemma_utf8_len_bound(s: Seq<char>)
    ensures
        utf8_len(s) <= 4 * s.len(),
    decreases s.len(),
{
    if s.len() > 0 {
        lemma_utf8_len_bound(s.skip(1));
    }
}

/// Resolves the escapes in the content of a string literal.
pub fn unescape_chars(s: &[char]) -> (r: Vec<char>)
    ensures
        r@ == unescape(s@),
{
    let mut out: Vec<char> = Vec::new();
    let mut i: usize = 0;
    assert(s@.skip(0) == s@);
    while i < s.len()
        invariant
            i <= s@.len(),
            out@ + unescape(s@.skip(i as int)) == unescape(s@),
        decreases s.len() - i,
    {
        let ghost rest = s@.skip(i as int);
        if s[i] == '\\' && i + 1 < s.len() {
            let c = s[i + 1];
            let e = if c == 'n' {
                '\n'
            } else if c == 't' {
                '\t'
            } else if c == '0' {
                '\0'
            } else {
                c
            };
            assert(rest.skip(2) == s@.skip(i + 2));
            assert(unescape(rest) == seq![e] + unescape(s@.skip(i + 2)));
            out.push(e);
            assert(out@ + unescape(s@.skip(i + 2)) == (out@.drop_last() + seq![e]) + unescape(
                s@.skip(i + 2),
            ));
            i = i + 2;
        } else {
            let c = s[i];
            assert(rest.skip(1) == s@.skip(i + 1));
            assert(unescape(rest) == seq![c] + unescape(s@.skip(i + 1)));
            out.push(c);
            assert(out@ + unescape(s@.skip(i + 1)) == (out@.drop_last() + seq![c]) + unescape(
                s@.skip(i + 1),
            ));
            i = i + 1;
        }
    }
    assert(s@.skip(i as int).len() == 0);
    assert(out@ + unescape(s@.skip(i as int)) == out@);
    out
}

/// The number of bytes that UTF-8 takes for `s`.
pub fn utf8_length(s: &[char]) -> (r: u64)
    requires
        4 * s@.len() <= u64::MAX,
    ensures
        r == utf8_len(s@),
{
    proof { lemma_utf8_len_bound(s@); }
    let mut n: u64 = 0;
    let mut i: usize = 0;
    assert(s@.skip(0) == s@);
    while i < s.len()
        invariant
            i <= s@.len(),
            4 * s@.len() <= u64::MAX,
            utf8_len(s@) <= 4 * s@.len(),
            n + utf8_len(s@.skip(i as int)) == utf8_len(s@),
        decreases s.len() - i,
    {
        let c = s[i];
        let w: u64 = if (c as u32) < 0x80 {
            1
        } else if (c as u32) < 0x800 {
            2
        } else if (c as u32) < 0x10000 {
            3
        } else {
            4
        };
        proof {
            assert(s@.skip(i as int).skip(1) == s@.skip(i + 1));
            lemma_utf8_len_bound(s@.skip(i + 1));
            assert(utf8_len(s@.skip(i as int)) == w + utf8_len(s@.skip(i + 1)));
        }
        n = n + w;
        i = i + 1;
    }
    assert(s@.skip(i as int).len() == 0);
    n
}

} // verus!
