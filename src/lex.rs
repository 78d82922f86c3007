use vstd::prelude::*;

use crate::text::{chars_of, string_of};

verus! {

/// The reserved words of the language.
#[derive(Debug, PartialEq, Eq, Clone, Copy, Structural)]
pub enum Keyword {
    Fn,
    In,
    End,
    True,
    False,
    Plus,
    Minus,
    Print,
    Drop,
    Dup,
    Swap,
    Over,
    Equals,
    Neq,
    Not,
    GreaterThan,
    LessThan,
    Or,
    And,
    ReadByte,
    Puts,
    DivMod,
    Div,
    Mod,
    If,
    While,
    Do,
    Let,
    Peek,
    Ret,
}

/// The spelling of each keyword in source text.
pub open spec fn keyword_text(k: Keyword) -> Seq<char> {
    match k {
        Keyword::Fn => seq!['f', 'n'],
        Keyword::In => seq!['i', 'n'],
        Keyword::End => seq!['e', 'n', 'd'],
        Keyword::True => seq!['t', 'r', 'u', 'e'],
        Keyword::False => seq!['f', 'a', 'l', 's', 'e'],
        Keyword::Plus => seq!['+'],
        Keyword::Minus => seq!['-'],
        Keyword::Print => seq!['p', 'r', 'i', 'n', 't'],
        Keyword::Drop => seq!['d', 'r', 'o', 'p'],
        Keyword::Dup => seq!['d', 'u', 'p'],
        Keyword::Swap => seq!['s', 'w', 'a', 'p'],
        Keyword::Over => seq!['o', 'v', 'e', 'r'],
        Keyword::Equals => seq!['='],
        Keyword::Neq => seq!['!', '='],
        Keyword::Not => seq!['n', 'o', 't'],
        Keyword::GreaterThan => seq!['>'],
        Keyword::LessThan => seq!['<'],
        Keyword::Or => seq!['o', 'r'],
        Keyword::And => seq!['a', 'n', 'd'],
        Keyword::ReadByte => seq!['@'],
        Keyword::Puts => seq!['p', 'u', 't', 's'],
        Keyword::DivMod => seq!['d', 'i', 'v', 'm', 'o', 'd'],
        Keyword::Div => seq!['/'],
        Keyword::Mod => seq!['%'],
        Keyword::If => seq!['i', 'f'],
        Keyword::While => seq!['w', 'h', 'i', 'l', 'e'],
        Keyword::Do => seq!['d', 'o'],
        Keyword::Let => seq!['l', 'e', 't'],
        Keyword::Peek => seq!['p', 'e', 'e', 'k'],
        Keyword::Ret => seq!['r', 'e', 't'],
    }
}

/// The keyword spelled `s`, if any.
pub open spec fn keyword_of(s: Seq<char>) -> Option<Keyword> {
    if exists|k: Keyword| keyword_text(k) == s {
        Some(choose|k: Keyword| keyword_text(k) == s)
    } else {
        None
    }
}

/// Returned by `Keyword::from_chars` for a word that is no keyword.
#[derive(Debug, PartialEq, Eq, Clone, Copy, Structural)]
pub struct UnknownKeywordError;

impl Keyword {
    /// The keyword's spelling.
    pub fn text(&self) -> (r: Vec<char>)
        ensures
            r@ == keyword_text(*self),
    {
        match self {
            Keyword::Fn => vec!['f', 'n'],
            Keyword::In => vec!['i', 'n'],
            Keyword::End => vec!['e', 'n', 'd'],
            Keyword::True => vec!['t', 'r', 'u', 'e'],
            Keyword::False => vec!['f', 'a', 'l', 's', 'e'],
            Keyword::Plus => vec!['+'],
            Keyword::Minus => vec!['-'],
            Keyword::Print => vec!['p', 'r', 'i', 'n', 't'],
            Keyword::Drop => vec!['d', 'r', 'o', 'p'],
            Keyword::Dup => vec!['d', 'u', 'p'],
            Keyword::Swap => vec!['s', 'w', 'a', 'p'],
            Keyword::Over => vec!['o', 'v', 'e', 'r'],
            Keyword::Equals => vec!['='],
            Keyword::Neq => vec!['!', '='],
            Keyword::Not => vec!['n', 'o', 't'],
            Keyword::GreaterThan => vec!['>'],
            Keyword::LessThan => vec!['<'],
            Keyword::Or => vec!['o', 'r'],
            Keyword::And => vec!['a', 'n', 'd'],
            Keyword::ReadByte => vec!['@'],
            Keyword::Puts => vec!['p', 'u', 't', 's'],
            Keyword::DivMod => vec!['d', 'i', 'v', 'm', 'o', 'd'],
            Keyword::Div => vec!['/'],
            Keyword::Mod => vec!['%'],
            Keyword::If => vec!['i', 'f'],
            Keyword::While => vec!['w', 'h', 'i', 'l', 'e'],
            Keyword::Do => vec!['d', 'o'],
            Keyword::Let => vec!['l', 'e', 't'],
            Keyword::Peek => vec!['p', 'e', 'e', 'k'],
            Keyword::Ret => vec!['r', 'e', 't'],
        }
    }

    /// The keyword's spelling as a string.
    pub fn to_string(&self) -> (r: String)
        ensures
            r@ == keyword_text(*self),
    {
        let t = self.text();
        string_of(t.as_slice())
    }

    /// Reads a keyword from its spelling.
    pub fn from_chars(s: &[char]) -> (r: Result<Keyword, UnknownKeywordError>)
        ensures
            match r {
                Ok(k) => keyword_of(s@) == Some(k),
                Err(_) => keyword_of(s@) is None,
            },
    {
        let all: Vec<Keyword> = vec![
            Keyword::Fn, Keyword::In, Keyword::End, Keyword::True, Keyword::False,
            Keyword::Plus, Keyword::Minus, Keyword::Print, Keyword::Drop, Keyword::Dup,
            Keyword::Swap, Keyword::Over, Keyword::Equals, Keyword::Neq, Keyword::Not,
            Keyword::GreaterThan, Keyword::LessThan, Keyword::Or, Keyword::And,
            Keyword::ReadByte, Keyword::Puts, Keyword::DivMod, Keyword::Div, Keyword::Mod,
            Keyword::If, Keyword::While, Keyword::Do, Keyword::Let, Keyword::Peek,
            Keyword::Ret,
        ];
        proof {
            assert forall|k: Keyword| all@.contains(k) by {
                match k {
                    Keyword::Fn => assert(all@[0] == k),
                    Keyword::In => assert(all@[1] == k),
                    Keyword::End => assert(all@[2] == k),
                    Keyword::True => assert(all@[3] == k),
                    Keyword::False => assert(all@[4] == k),
                    Keyword::Plus => assert(all@[5] == k),
                    Keyword::Minus => assert(all@[6] == k),
                    Keyword::Print => assert(all@[7] == k),
                    Keyword::Drop => assert(all@[8] == k),
                    Keyword::Dup => assert(all@[9] == k),
                    Keyword::Swap => assert(all@[10] == k),
                    Keyword::Over => assert(all@[11] == k),
                    Keyword::Equals => assert(all@[12] == k),
                    Keyword::Neq => assert(all@[13] == k),
                    Keyword::Not => assert(all@[14] == k),
                    Keyword::GreaterThan => assert(all@[15] == k),
                    Keyword::LessThan => assert(all@[16] == k),
                    Keyword::Or => assert(all@[17] == k),
                    Keyword::And => assert(all@[18] == k),
                    Keyword::ReadByte => assert(all@[19] == k),
                    Keyword::Puts => assert(all@[20] == k),
                    Keyword::DivMod => assert(all@[21] == k),
                    Keyword::Div => assert(all@[22] == k),
                    Keyword::Mod => assert(all@[23] == k),
                    Keyword::If => assert(all@[24] == k),
                    Keyword::While => assert(all@[25] == k),
                    Keyword::Do => assert(all@[26] == k),
                    Keyword::Let => assert(all@[27] == k),
                    Keyword::Peek => assert(all@[28] == k),
                    Keyword::Ret => assert(all@[29] == k),
                }
            }
        }
        let mut i: usize = 0;
        while i < all.len()
            invariant
                i <= all@.len(),
                forall|k: Keyword| all@.contains(k),
                forall|j: int| 0 <= j < i ==> keyword_text(#[trigger] all@[j]) != s@,
            decreases all.len() - i,
        {
            let k = all[i];
            let t = k.text();
            if same_chars(t.as_slice(), s) {
                proof { lemma_keyword_text_injective(k); }
                return Ok(k);
            }
            i = i + 1;
        }
        proof {
            assert forall|k: Keyword| keyword_text(k) != s@ by {
                let j = choose|j: int| 0 <= j < all@.len() && all@[j] == k;
            }
        }
        Err(UnknownKeywordError)
    }
}

/// No two keywords are spelled alike.
pub proof fn lemma_keyword_text_injective(k: Keyword)
    ensures
        keyword_of(keyword_text(k)) == Some(k),
{
    assert forall|j: Keyword| keyword_text(j) == keyword_text(k) implies j == k by {
        let a = keyword_text(j);
        let b = keyword_text(k);
        assert(a.len() == b.len());
        assert(a[0] == b[0]);
        if a.len() > 1 {
            assert(a[1] == b[1]);
        }
        if a.len() > 2 {
            assert(a[2] == b[2]);
        }
        if a.len() > 3 {
            assert(a[3] == b[3]);
        }
    }
}

/// Whether two character sequences are equal.
pub fn same_chars(a: &[char], b: &[char]) -> (r: bool)
    ensures
        r == (a@ == b@),
{
    if a.len() != b.len() {
        return false;
    }
    let mut i: usize = 0;
    while i < a.len()
        invariant
            a@.len() == b@.len(),
            i <= a@.len(),
            forall|j: int| 0 <= j < i ==> a@[j] == b@[j],
        decreases a.len() - i,
    {
        if a[i] != b[i] {
            return false;
        }
        i = i + 1;
    }
    assert(a@ =~= b@);
    true
}


/// Unicode's `White_Space` characters.
pub open spec fn is_ws(c: char) -> bool {
    ('\t' <= c && c <= '\r') || c == ' ' || c == '\u{85}' || c == '\u{a0}' || c == '\u{1680}'
        || ('\u{2000}' <= c && c <= '\u{200a}') || c == '\u{2028}' || c == '\u{2029}'
        || c == '\u{202f}' || c == '\u{205f}' || c == '\u{3000}'
}

/// Whether `c` is white space, as `char::is_whitespace` decides it.
pub fn is_whitespace(c: char) -> (r: bool)
    ensures
        r == is_ws(c),
{
    ('\t' <= c && c <= '\r') || c == ' ' || c == '\u{85}' || c == '\u{a0}' || c == '\u{1680}'
        || ('\u{2000}' <= c && c <= '\u{200a}') || c == '\u{2028}' || c == '\u{2029}'
        || c == '\u{202f}' || c == '\u{205f}' || c == '\u{3000}'
}

/// The characters that form a token of their own wherever they stand.
pub open spec fn is_sep(c: char) -> bool {
    c == '+' || c == '-' || c == '*' || c == '/' || c == '%'
}

/// A separator is a char token that separates tokens.
pub fn is_separator(c: char) -> (r: bool)
    ensures
        r == is_sep(c),
{
    c == '+' || c == '-' || c == '*' || c == '/' || c == '%'
}

/// The value of a digit in the given radix, if it is one.
pub open spec fn digit_value(c: char, radix: nat) -> Option<nat> {
    let v: int = if '0' <= c && c <= '9' {
        c as int - '0' as int
    } else if 'a' <= c && c <= 'z' {
        c as int - 'a' as int + 10
    } else if 'A' <= c && c <= 'Z' {
        c as int - 'A' as int + 10
    } else {
        radix as int
    };
    if v < radix {
        Some(v as nat)
    } else {
        None
    }
}

/// Whether every character of `s` is a digit in the radix.
pub open spec fn all_digits(s: Seq<char>, radix: nat) -> bool {
    forall|i: int| 0 <= i < s.len() ==> (#[trigger] digit_value(s[i], radix)) is Some
}

/// The number that the digits `s` denote in the radix, most significant first.
pub open spec fn digits_value(s: Seq<char>, radix: nat) -> nat
    decreases s.len(),
{
    if s.len() == 0 {
        0
    } else {
        digits_value(s.drop_last(), radix) * radix + digit_value(s.last(), radix).unwrap_or(0)
    }
}

/// The number that `s` denotes in the radix: at least one digit and nothing else, with a
/// value that fits in 64 bits.
pub open spec fn radix_value(s: Seq<char>, radix: nat) -> Option<u64> {
    if s.len() > 0 && all_digits(s, radix) && digits_value(s, radix) <= u64::MAX {
        Some(digits_value(s, radix) as u64)
    } else {
        None
    }
}

/// The integer literal `s`: decimal, or hexadecimal, octal or binary after `0x`, `0o`, `0b`.
pub open spec fn int_literal_value(s: Seq<char>) -> Option<u64> {
    if s.len() >= 2 && s[0] == '0' && s[1] == 'x' {
        radix_value(s.skip(2), 16)
    } else if s.len() >= 2 && s[0] == '0' && s[1] == 'o' {
        radix_value(s.skip(2), 8)
    } else if s.len() >= 2 && s[0] == '0' && s[1] == 'b' {
        radix_value(s.skip(2), 2)
    } else {
        radix_value(s, 10)
    }
}

proof fn lemma_digits_value_prefix(s: Seq<char>, radix: nat, i: int)
    requires
        0 <= i <= s.len(),
        radix >= 2,
    ensures
        digits_value(s.subrange(0, i), radix) <= digits_value(s, radix),
    decreases s.len(),
{
    if i < s.len() {
        assert(s.drop_last() == s.subrange(0, s.len() - 1));
        lemma_digits_value_prefix(s.drop_last(), radix, i);
        assert(s.drop_last().subrange(0, i) == s.subrange(0, i));
        let a = digits_value(s.drop_last(), radix);
        assert(a * radix >= a) by (nonlinear_arith)
            requires radix >= 2;
    } else {
        assert(s.subrange(0, i) == s);
    }
}

fn digit(c: char, radix: u32) -> (r: Option<u64>)
    requires
        2 <= radix <= 36,
    ensures
        r == (match digit_value(c, radix as nat) {
            Some(v) => Some(v as u64),
            None => None,
        }),
{
    let v: u32 = if '0' <= c && c <= '9' {
        (c as u32) - ('0' as u32)
    } else if 'a' <= c && c <= 'z' {
        (c as u32) - ('a' as u32) + 10
    } else if 'A' <= c && c <= 'Z' {
        (c as u32) - ('A' as u32) + 10
    } else {
        radix
    };
    if v < radix {
        Some(v as u64)
    } else {
        None
    }
}

/// Reads the digits `s` as a number in the radix.
fn from_radix(s: &[char], radix: u32) -> (r: Option<u64>)
    requires
        2 <= radix <= 36,
    ensures
        r == radix_value(s@, radix as nat),
{
    if s.len() == 0 {
        return None;
    }
    let mut acc: u64 = 0;
    let mut i: usize = 0;
    while i < s.len()
        invariant
            i <= s@.len(),
            all_digits(s@.subrange(0, i as int), radix as nat),
            acc as nat == digits_value(s@.subrange(0, i as int), radix as nat),
            2 <= radix <= 36,
        decreases s.len() - i,
    {
        let ghost p = s@.subrange(0, i as int);
        let ghost q = s@.subrange(0, i + 1);
        assert(q.drop_last() == p);
        assert(q.last() == s@[i as int]);
        match digit(s[i], radix) {
            None => {
                assert(digit_value(s@[i as int], radix as nat) is None);
                assert(!all_digits(s@, radix as nat));
                return None;
            },
            Some(v) => {
                match acc.checked_mul(radix as u64) {
                    None => {
                        proof {
                            lemma_digits_value_prefix(s@, radix as nat, i + 1);
                            assert(digit_value(q.last(), radix as nat) == Some(v as nat));
                            assert(digits_value(q, radix as nat) == acc * radix + v);
                        }
                        return None;
                    },
                    Some(m) => {
                        match m.checked_add(v) {
                            None => {
                                proof {
                                    lemma_digits_value_prefix(s@, radix as nat, i + 1);
                                    assert(digit_value(q.last(), radix as nat) == Some(v as nat));
                                    assert(digits_value(q, radix as nat) == m + v);
                                }
                                return None;
                            },
                            Some(n) => {
                                assert forall|j: int| 0 <= j < q.len() implies (
                                #[trigger] digit_value(q[j], radix as nat)) is Some by {
                                    if j < p.len() {
                                        assert(q[j] == p[j]);
                                    }
                                }
                                acc = n;
                            },
                        }
                    },
                }
            },
        }
        i = i + 1;
    }
    assert(s@.subrange(0, i as int) == s@);
    Some(acc)
}

/// Reads an integer literal: decimal, or with a `0x`, `0o` or `0b` prefix.
pub fn parse_int(s: &[char]) -> (r: Option<u64>)
    ensures
        r == int_literal_value(s@),
{
    if s.len() >= 2 && s[0] == '0' && s[1] == 'x' {
        from_radix(slice_from(s, 2).as_slice(), 16)
    } else if s.len() >= 2 && s[0] == '0' && s[1] == 'o' {
        from_radix(slice_from(s, 2).as_slice(), 8)
    } else if s.len() >= 2 && s[0] == '0' && s[1] == 'b' {
        from_radix(slice_from(s, 2).as_slice(), 2)
    } else {
        from_radix(s, 10)
    }
}

/// The characters of `s` from index `i` on.
fn slice_from(s: &[char], i: usize) -> (r: Vec<char>)
    requires
        i <= s@.len(),
    ensures
        r@ == s@.skip(i as int),
{
    let mut v: Vec<char> = Vec::new();
    let mut j: usize = i;
    while j < s.len()
        invariant
            i <= j <= s@.len(),
            v@ == s@.subrange(i as int, j as int),
        decreases s.len() - j,
    {
        v.push(s[j]);
        j = j + 1;
    }
    v
}


/// What a token is.
#[derive(Debug, PartialEq, Eq, Clone, Copy, Structural)]
pub enum TokenKind {
    Keyword(Keyword),
    Int(u64),
    Identifier,
    String,
    Char,
}

/// Where a token stands: the file, if named, and its line and column, both from 1.
#[derive(Debug, PartialEq, Eq)]
pub struct Location {
    pub file: Option<String>,
    pub pos: (usize, usize),
}

/// A token: its kind, its text, and where it starts.
#[derive(Debug, PartialEq, Eq)]
pub struct Token {
    pub kind: TokenKind,
    pub value: String,
    pub location: Location,
}

/// A token as the contracts see it.
pub struct TokenView {
    pub kind: TokenKind,
    pub value: Seq<char>,
    pub line: int,
    pub col: int,
}

impl Token {
    pub open spec fn view(&self) -> TokenView {
        TokenView {
            kind: self.kind,
            value: self.value@,
            line: self.location.pos.0 as int,
            col: self.location.pos.1 as int,
        }
    }
}

/// Where scanning stands: the cursor, the line number, and the index at which the line starts.
pub type LexPos = (int, int, int);

/// The position after the white space and `//` comments that start at `p`; `comment` says
/// that `p` is inside a comment. Each newline passed starts a line.
pub open spec fn skip_blank(s: Seq<char>, p: LexPos, comment: bool) -> LexPos
    decreases s.len() - p.0,
{
    let c = p.0;
    if 0 <= c < s.len() && comment && s[c] != '\n' {
        skip_blank(s, (c + 1, p.1, p.2), true)
    } else if 0 <= c < s.len() && is_ws(s[c]) {
        if s[c] == '\n' {
            skip_blank(s, (c + 1, p.1 + 1, c + 1), false)
        } else {
            skip_blank(s, (c + 1, p.1, p.2), false)
        }
    } else if 0 <= c && c + 1 < s.len() && s[c] == '/' && s[c + 1] == '/' {
        skip_blank(s, (c + 2, p.1, p.2), true)
    } else {
        p
    }
}

/// The first index from `i` on that holds a separator or white space, or the end.
pub open spec fn word_end(s: Seq<char>, i: int) -> int
    decreases s.len() - i,
{
    if 0 <= i < s.len() && !is_sep(s[i]) && !is_ws(s[i]) {
        word_end(s, i + 1)
    } else {
        i
    }
}

/// The first index from `i` on that holds `c`, or the end.
pub open spec fn find_char(s: Seq<char>, i: int, c: char) -> int
    decreases s.len() - i,
{
    if 0 <= i < s.len() && s[i] != c {
        find_char(s, i + 1, c)
    } else {
        i
    }
}

/// The kind of a word that is not a string or character literal.
pub open spec fn word_kind(v: Seq<char>) -> TokenKind {
    match keyword_of(v) {
        Some(k) => TokenKind::Keyword(k),
        None => match int_literal_value(v) {
            Some(n) => TokenKind::Int(n),
            None => TokenKind::Identifier,
        },
    }
}

/// One step of the lexer on text `s` from position `p`: the next token, if there is one,
/// and the position after it. At the end of the text, or at a string or character literal
/// that is never closed, there is no token and the position is the one after the blanks.
pub open spec fn lex_step(s: Seq<char>, p: LexPos) -> (Option<TokenView>, LexPos) {
    let t = skip_blank(s, p, false);
    let b = t.0;
    if b < 0 || b >= s.len() {
        (None, t)
    } else if s[b] == '"' || s[b] == '\'' {
        let q = find_char(s, b + 1, s[b]);
        if q >= s.len() {
            (None, t)
        } else {
            let e = word_end(s, q + 1);
            let tok = TokenView {
                kind: if s[b] == '"' {
                    TokenKind::String
                } else {
                    TokenKind::Char
                },
                value: s.subrange(b, e),
                line: t.1,
                col: b - t.2 + 1,
            };
            (Some(tok), (e, t.1, t.2))
        }
    } else {
        let e = if is_sep(s[b]) {
            b + 1
        } else {
            word_end(s, b)
        };
        let tok = TokenView {
            kind: word_kind(s.subrange(b, e)),
            value: s.subrange(b, e),
            line: t.1,
            col: b - t.2 + 1,
        };
        (Some(tok), (e, t.1, t.2))
    }
}

/// The longest text a lexer takes, in characters: its bytes must be countable in 64 bits.
pub const TEXT_LIMIT: u64 = 0x4000_0000_0000_0000;

/// Turns source text into tokens, one at a time.
#[derive(Debug, PartialEq, Eq)]
pub struct Lexer {
    cursor: usize,
    content: Vec<char>,
    line_begin: usize,
    line: usize,
    file: Option<String>,
}

/// The text of an optional name.
pub open spec fn name_view(f: Option<String>) -> Option<Seq<char>> {
    match f {
        Some(n) => Some(n@),
        None => None,
    }
}

fn clone_name(f: &Option<String>) -> (r: Option<String>)
    ensures
        name_view(r) == name_view(*f),
{
    match f {
        Some(n) => {
            Some(n.clone())
        },
        None => None,
    }
}

impl Lexer {
    /// The text being read.
    pub closed spec fn text(&self) -> Seq<char> {
        self.content@
    }

    /// The file name given to `new`.
    pub closed spec fn file(&self) -> Option<Seq<char>> {
        name_view(self.file)
    }

    /// Where the lexer stands.
    pub closed spec fn pos(&self) -> LexPos {
        (self.cursor as int, self.line as int, self.line_begin as int)
    }

    pub closed spec fn wf(&self) -> bool {
        &&& self.content@.len() < TEXT_LIMIT
        &&& self.content@.len() < usize::MAX
        &&& self.line_begin <= self.cursor <= self.content@.len()
        &&& 1 <= self.line <= self.cursor + 1
    }

    /// What a well-formed lexer's position satisfies.
    pub proof fn lemma_wf(&self)
        requires
            self.wf(),
        ensures
            0 <= self.pos().2 <= self.pos().0 <= self.text().len(),
            1 <= self.pos().1,
            self.text().len() < TEXT_LIMIT,
            self.text().len() < usize::MAX,
    {
    }

    /// A lexer at the start of `source`, on line 1.
    pub fn new(source: &str, file: Option<&str>) -> (r: Lexer)
        requires
            source@.len() < TEXT_LIMIT,
            source@.len() < usize::MAX,
        ensures
            r.wf(),
            r.text() == source@,
            r.pos() == (0int, 1int, 0int),
            r.file() == (match file {
                Some(f) => Some(f@),
                None => None,
            }),
    {
        let content = chars_of(source);
        let file = match file {
            Some(f) => Some(string_of(chars_of(f).as_slice())),
            None => None,
        };
        Lexer { cursor: 0, content, line_begin: 0, line: 1, file }
    }

    /// The text being read.
    pub fn content(&self) -> (r: &[char])
        ensures
            r@ == self.text(),
    {
        self.content.as_slice()
    }

    /// The cursor, in characters from the start of the text.
    pub fn cursor(&self) -> (r: usize)
        ensures
            r == self.pos().0,
    {
        self.cursor
    }

    /// The current line number, from 1.
    pub fn line(&self) -> (r: usize)
        ensures
            r == self.pos().1,
    {
        self.line
    }

    /// The index at which the current line starts.
    pub fn line_begin(&self) -> (r: usize)
        ensures
            r == self.pos().2,
    {
        self.line_begin
    }

    /// Skips white space and `//` comments, counting lines.
    pub fn trim_left(&mut self)
        requires
            old(self).wf(),
        ensures
            final(self).wf(),
            final(self).text() == old(self).text(),
            final(self).file() == old(self).file(),
            final(self).pos() == skip_blank(old(self).text(), old(self).pos(), false),
            final(self).pos().0 >= old(self).pos().0,
            final(self).pos().0 < final(self).text().len() ==> !is_ws(
                final(self).text()[final(self).pos().0],
            ),
    {
        let ghost s = self.content@;
        let ghost p0 = self.pos();
        let mut comment = false;
        while self.cursor < self.content.len()
            invariant
                self.wf(),
                self.content@ == s,
                self.file() == old(self).file(),
                skip_blank(s, self.pos(), comment) == skip_blank(s, p0, false),
                self.pos().0 >= p0.0,
            ensures
                self.pos().0 >= p0.0,
                self.cursor < self.content@.len() ==> !is_ws(self.content@[self.cursor as int]),
                self.wf(),
                self.content@ == s,
                self.file() == old(self).file(),
                skip_blank(s, self.pos(), comment) == skip_blank(s, p0, false),
                skip_blank(s, self.pos(), comment) == self.pos(),
            decreases self.content@.len() - self.cursor,
        {
            let c = self.content[self.cursor];
            if comment && c != '\n' {
                self.cursor = self.cursor + 1;
            } else if is_whitespace(c) {
                self.cursor = self.cursor + 1;
                if c == '\n' {
                    self.line = self.line + 1;
                    self.line_begin = self.cursor;
                }
                comment = false;
            } else if c == '/' && self.cursor + 1 < self.content.len()
                && self.content[self.cursor + 1] == '/' {
                self.cursor = self.cursor + 2;
                comment = true;
            } else {
                break;
            }
        }
    }

    /// Where the lexer stands: its file, line and column.
    pub fn location(&self) -> (r: Location)
        requires
            self.wf(),
        ensures
            name_view(r.file) == self.file(),
            r.pos.0 == self.pos().1,
            r.pos.1 == self.pos().0 - self.pos().2 + 1,
    {
        Location { file: clone_name(&self.file), pos: (self.line, self.cursor - self.line_begin + 1) }
    }

    /// The next token, as `lex_step` gives it.
    pub fn next(&mut self) -> (r: Option<Token>)
        requires
            old(self).wf(),
        ensures
            final(self).wf(),
            final(self).text() == old(self).text(),
            final(self).file() == old(self).file(),
            lex_step(old(self).text(), old(self).pos()).1 == final(self).pos(),
            lex_step(old(self).text(), old(self).pos()).0 == (match r {
                Some(t) => Some(t.view()),
                None => None,
            }),
            r matches Some(t) ==> name_view(t.location.file) == old(self).file(),
            final(self).pos().0 >= old(self).pos().0,
            r is Some ==> final(self).pos().0 > old(self).pos().0,
            r matches Some(t) ==> t.value@.len() <= old(self).text().len(),
    {
        self.trim_left();
        let b = self.cursor;
        if b >= self.content.len() {
            return None;
        }
        let c = self.content[b];
        let e: usize;
        let kind: TokenKind;
        if c == '"' || c == '\'' {
            let q = find_char_from(&self.content, b + 1, c);
            if q >= self.content.len() {
                return None;
            }
            e = word_end_from(&self.content, q + 1);
            kind = if c == '"' {
                TokenKind::String
            } else {
                TokenKind::Char
            };
        } else {
            e = if is_separator(c) {
                b + 1
            } else {
                word_end_from(&self.content, b)
            };
            let v = slice_range(&self.content, b, e);
            kind = classify(v.as_slice());
        }
        self.cursor = e;
        let v = slice_range(&self.content, b, e);
        let value = string_of(v.as_slice());
        let location = Location {
            file: clone_name(&self.file),
            pos: (self.line, b - self.line_begin + 1),
        };
        Some(Token { kind, value, location })
    }
}

/// The kind of a word that is not a string or character literal.
fn classify(v: &[char]) -> (r: TokenKind)
    ensures
        r == word_kind(v@),
{
    match Keyword::from_chars(v) {
        Ok(k) => TokenKind::Keyword(k),
        Err(_) => match parse_int(v) {
            Some(n) => TokenKind::Int(n),
            None => TokenKind::Identifier,
        },
    }
}

fn find_char_from(s: &Vec<char>, i: usize, c: char) -> (r: usize)
    requires
        i <= s@.len(),
    ensures
        r == find_char(s@, i as int, c),
        i <= r <= s@.len(),
{
    let mut j = i;
    while j < s.len() && s[j] != c
        invariant
            i <= j <= s@.len(),
            find_char(s@, j as int, c) == find_char(s@, i as int, c),
        decreases s.len() - j,
    {
        j = j + 1;
    }
    j
}

fn word_end_from(s: &Vec<char>, i: usize) -> (r: usize)
    requires
        i <= s@.len(),
    ensures
        r == word_end(s@, i as int),
        i <= r <= s@.len(),
        i < s@.len() && !is_sep(s@[i as int]) && !is_ws(s@[i as int]) ==> r > i,
{
    let mut j = i;
    while j < s.len() && !is_separator(s[j]) && !is_whitespace(s[j])
        invariant
            i <= j <= s@.len(),
            word_end(s@, j as int) == word_end(s@, i as int),
        decreases s.len() - j,
    {
        j = j + 1;
    }
    j
}

/// The characters of `s` from index `i` up to `j`.
pub(crate) fn slice_range(s: &Vec<char>, i: usize, j: usize) -> (r: Vec<char>)
    requires
        i <= j <= s@.len(),
    ensures
        r@ == s@.subrange(i as int, j as int),
{
    let mut v: Vec<char> = Vec::new();
    let mut k: usize = i;
    while k < j
        invariant
            i <= k <= j,
            j <= s@.len(),
            v@ == s@.subrange(i as int, k as int),
        decreases j - k,
    {
        v.push(s[k]);
        k = k + 1;
    }
    v
}


proof fn lemma_skip_blank_mono(s: Seq<char>, p: LexPos, comment: bool)
    requires
        0 <= p.0 <= s.len(),
    ensures
        p.0 <= skip_blank(s, p, comment).0 <= s.len(),
    decreases s.len() - p.0,
{
    let c = p.0;
    if 0 <= c < s.len() && comment && s[c] != '\n' {
        lemma_skip_blank_mono(s, (c + 1, p.1, p.2), true);
    } else if 0 <= c < s.len() && is_ws(s[c]) {
        if s[c] == '\n' {
            lemma_skip_blank_mono(s, (c + 1, p.1 + 1, c + 1), false);
        } else {
            lemma_skip_blank_mono(s, (c + 1, p.1, p.2), false);
        }
    } else if 0 <= c && c + 1 < s.len() && s[c] == '/' && s[c + 1] == '/' {
        lemma_skip_blank_mono(s, (c + 2, p.1, p.2), true);
    }
}

proof fn lemma_word_end_mono(s: Seq<char>, i: int)
    requires
        0 <= i <= s.len(),
    ensures
        i <= word_end(s, i) <= s.len(),
    decreases s.len() - i,
{
    if 0 <= i < s.len() && !is_sep(s[i]) && !is_ws(s[i]) {
        lemma_word_end_mono(s, i + 1);
    }
}

proof fn lemma_find_char_mono(s: Seq<char>, i: int, c: char)
    requires
        0 <= i <= s.len(),
    ensures
        i <= find_char(s, i, c) <= s.len(),
    decreases s.len() - i,
{
    if 0 <= i < s.len() && s[i] != c {
        lemma_find_char_mono(s, i + 1, c);
    }
}

/// A step of the lexer never moves back, and stays within the text.
pub proof fn lemma_lex_step_mono(s: Seq<char>, p: LexPos)
    requires
        0 <= p.0 <= s.len(),
    ensures
        p.0 <= lex_step(s, p).1.0 <= s.len(),
{
    lemma_skip_blank_mono(s, p, false);
    let t = skip_blank(s, p, false);
    let b = t.0;
    if 0 <= b < s.len() {
        if s[b] == '"' || s[b] == '\'' {
            lemma_find_char_mono(s, b + 1, s[b]);
            let q = find_char(s, b + 1, s[b]);
            if q < s.len() {
                lemma_word_end_mono(s, q + 1);
            }
        } else if !is_sep(s[b]) {
            lemma_word_end_mono(s, b);
        }
    }
}

} // verus!
