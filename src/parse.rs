use vstd::prelude::*;

use crate::lex::{
    lex_step, name_view, Keyword, LexPos, Lexer, Location, Token, TokenKind,
    TokenView,
};
use crate::lex::slice_range;
use crate::literal::{lemma_unescape_len, unescape, unescape_chars, utf8_len, utf8_length};
use crate::text::{chars_of, string_of};
use crate::codegen::program_ok;
use crate::wellformed::lemma_parsed_program_ok;

verus! {

/// One operation of a program. Blocks nest: the tree gives the control flow.
#[derive(Debug, PartialEq, Eq)]
pub enum Op {
    PushInt(u64),
    PushStrPtr(usize),
    Plus,
    Minus,
    DivMod,
    Dup,
    Drop,
    Swap,
    Over,
    Equals,
    Neq,
    Not,
    GreaterThan,
    LessThan,
    Or,
    And,
    ReadByte,
    If(Vec<Op>),
    While { condn: Vec<Op>, body: Vec<Op> },
    Print,
    CallFn(usize),
    /// Moves (or, peeking, copies) `count` values to the return stack for `body`.
    Bind { count: usize, peek: bool, body: Vec<Op> },
    /// Pushes the binding that stands this many places from the innermost one.
    PushBind(usize),
    /// Returns, dropping this many binding frames first.
    Ret(usize),
    Puts,
}

/// The operation tree as the contracts see it.
pub enum OpView {
    PushInt(u64),
    PushStrPtr(usize),
    Plus,
    Minus,
    DivMod,
    Dup,
    Drop,
    Swap,
    Over,
    Equals,
    Neq,
    Not,
    GreaterThan,
    LessThan,
    Or,
    And,
    ReadByte,
    If(Seq<OpView>),
    While(Seq<OpView>, Seq<OpView>),
    Print,
    CallFn(usize),
    Bind(usize, bool, Seq<OpView>),
    PushBind(usize),
    Ret(usize),
    Puts,
}

impl Op {
    pub open spec fn view(&self) -> OpView
        decreases self,
    {
        match self {
            Op::PushInt(n) => OpView::PushInt(*n),
            Op::PushStrPtr(i) => OpView::PushStrPtr(*i),
            Op::Plus => OpView::Plus,
            Op::Minus => OpView::Minus,
            Op::DivMod => OpView::DivMod,
            Op::Dup => OpView::Dup,
            Op::Drop => OpView::Drop,
            Op::Swap => OpView::Swap,
            Op::Over => OpView::Over,
            Op::Equals => OpView::Equals,
            Op::Neq => OpView::Neq,
            Op::Not => OpView::Not,
            Op::GreaterThan => OpView::GreaterThan,
            Op::LessThan => OpView::LessThan,
            Op::Or => OpView::Or,
            Op::And => OpView::And,
            Op::ReadByte => OpView::ReadByte,
            Op::If(b) => OpView::If(ops_view(b@)),
            Op::While { condn, body } => OpView::While(ops_view(condn@), ops_view(body@)),
            Op::Print => OpView::Print,
            Op::CallFn(i) => OpView::CallFn(*i),
            Op::Bind { count, peek, body } => OpView::Bind(*count, *peek, ops_view(body@)),
            Op::PushBind(i) => OpView::PushBind(*i),
            Op::Ret(n) => OpView::Ret(*n),
            Op::Puts => OpView::Puts,
        }
    }
}

/// The views of a sequence of operations.
pub open spec fn ops_view(s: Seq<Op>) -> Seq<OpView>
    decreases s,
{
    if s.len() == 0 {
        Seq::empty()
    } else {
        ops_view(s.drop_last()).push(s.last().view())
    }
}

pub proof fn lemma_ops_view_push(s: Seq<Op>, o: Op)
    ensures
        ops_view(s.push(o)) == ops_view(s).push(o.view()),
{
    assert(s.push(o).drop_last() == s);
}

/// The location of an error: the file, the line and the column.
pub type LocView = (Option<Seq<char>>, int, int);

/// Why parsing stopped.
#[derive(Debug, PartialEq, Eq)]
pub enum SyntaxError {
    Eof(Location),
    UnexpectedTopLevel { found: TokenKind, location: Location },
    UnexpectedToken { expected: TokenKind, found: TokenKind, location: Location },
    UnknownIdentifier { identifier: String, location: Location },
    UnexpectedKeyword { kw: Keyword, location: Location },
    Generic { location: Location, message: &'static str },
}

/// A syntax error as the contracts see it.
pub enum ErrView {
    Eof(LocView),
    UnexpectedTopLevel(TokenKind, LocView),
    UnexpectedToken(TokenKind, TokenKind, LocView),
    UnknownIdentifier(Seq<char>, LocView),
    UnexpectedKeyword(Keyword, LocView),
    Generic(Seq<char>, LocView),
}

pub open spec fn loc_view(l: Location) -> LocView {
    (name_view(l.file), l.pos.0 as int, l.pos.1 as int)
}

impl SyntaxError {
    pub open spec fn view(&self) -> ErrView {
        match self {
            SyntaxError::Eof(l) => ErrView::Eof(loc_view(*l)),
            SyntaxError::UnexpectedTopLevel { found, location } => ErrView::UnexpectedTopLevel(
                *found,
                loc_view(*location),
            ),
            SyntaxError::UnexpectedToken { expected, found, location } => ErrView::UnexpectedToken(
                *expected,
                *found,
                loc_view(*location),
            ),
            SyntaxError::UnknownIdentifier { identifier, location } => ErrView::UnknownIdentifier(
                identifier@,
                loc_view(*location),
            ),
            SyntaxError::UnexpectedKeyword { kw, location } => ErrView::UnexpectedKeyword(
                *kw,
                loc_view(*location),
            ),
            SyntaxError::Generic { location, message } => ErrView::Generic(
                message@,
                loc_view(*location),
            ),
        }
    }
}

/// A function: its name and its body, which ends in `Ret(0)`.
#[derive(Debug, PartialEq, Eq)]
pub struct Func {
    pub ident: String,
    pub body: Vec<Op>,
}

/// A function as the contracts see it: its name and its body.
pub type FuncView = (Seq<char>, Seq<OpView>);

impl Func {
    pub open spec fn view(&self) -> FuncView {
        (self.ident@, ops_view(self.body@))
    }
}

pub open spec fn funcs_view(s: Seq<Func>) -> Seq<FuncView>
    decreases s.len(),
{
    if s.len() == 0 {
        Seq::empty()
    } else {
        funcs_view(s.drop_last()).push(s.last().view())
    }
}

pub proof fn lemma_ops_view_index(s: Seq<Op>)
    ensures
        ops_view(s).len() == s.len(),
        forall|i: int| 0 <= i < s.len() ==> #[trigger] ops_view(s)[i] == s[i].view(),
    decreases s.len(),
{
    if s.len() > 0 {
        lemma_ops_view_index(s.drop_last());
        assert forall|i: int| 0 <= i < s.len() implies #[trigger] ops_view(s)[i] == s[i].view() by {
            if i < s.len() - 1 {
                assert(s.drop_last()[i] == s[i]);
            }
        }
    }
}

pub proof fn lemma_funcs_view_index(s: Seq<Func>)
    ensures
        funcs_view(s).len() == s.len(),
        forall|i: int| 0 <= i < s.len() ==> #[trigger] funcs_view(s)[i] == s[i].view(),
    decreases s.len(),
{
    if s.len() > 0 {
        lemma_funcs_view_index(s.drop_last());
        assert forall|i: int| 0 <= i < s.len() implies #[trigger] funcs_view(s)[i] == s[i].view() by {
            if i < s.len() - 1 {
                assert(s.drop_last()[i] == s[i]);
            }
        }
    }
}

/// The texts of a sequence of strings.
pub open spec fn names(s: Seq<String>) -> Seq<Seq<char>> {
    s.map_values(|x: String| x@)
}

/// What the parser knows while it reads a program, shared with the emitter.
#[derive(Debug, Default)]
pub struct Context {
    /// The function names by symbol: a name's symbol is its index here.
    pub lookup: Vec<String>,
    /// The names of the functions defined so far, in order of definition.
    pub func_idents: Vec<String>,
    /// The string literals, their escapes resolved, each once, in order of first use.
    pub strings: Vec<String>,
    /// The names bound by the enclosing `let` and `peek` blocks, innermost last.
    pub bindings: Vec<String>,
}

/// The context as the contracts see it.
pub struct CtxView {
    pub lookup: Seq<Seq<char>>,
    pub func_idents: Seq<Seq<char>>,
    pub strings: Seq<Seq<char>>,
    pub bindings: Seq<Seq<char>>,
}

impl Context {
    pub open spec fn view(&self) -> CtxView {
        CtxView {
            lookup: names(self.lookup@),
            func_idents: names(self.func_idents@),
            strings: names(self.strings@),
            bindings: names(self.bindings@),
        }
    }
}

/// The first index at which `x` stands in `s`, or the length of `s`.
pub open spec fn first_index(s: Seq<Seq<char>>, x: Seq<char>) -> int
    decreases s.len(),
{
    if s.len() == 0 {
        0
    } else if s[0] == x {
        0
    } else {
        first_index(s.drop_first(), x) + 1
    }
}

/// How many places from the end the last `x` in `s` stands, or the length of `s`.
pub open spec fn last_offset(s: Seq<Seq<char>>, x: Seq<char>) -> int
    decreases s.len(),
{
    if s.len() == 0 {
        0
    } else if s.last() == x {
        0
    } else {
        last_offset(s.drop_last(), x) + 1
    }
}

/// The context after a function named `name` is defined: a new name gets the next symbol.
pub open spec fn ctx_insert(c: CtxView, name: Seq<char>) -> CtxView {
    CtxView {
        lookup: if c.lookup.contains(name) {
            c.lookup
        } else {
            c.lookup.push(name)
        },
        func_idents: c.func_idents.push(name),
        ..c
    }
}

/// The context after a string literal with content `v` is used: a new content is added.
pub open spec fn ctx_intern(c: CtxView, v: Seq<char>) -> CtxView {
    CtxView {
        strings: if c.strings.contains(v) {
            c.strings
        } else {
            c.strings.push(v)
        },
        ..c
    }
}

/// A context is well formed when the defined names are those that have symbols, once each.
pub open spec fn ctx_wf(c: CtxView) -> bool {
    &&& c.lookup.no_duplicates()
    &&& forall|n: Seq<char>| c.lookup.contains(n) <==> c.func_idents.contains(n)
}

pub proof fn lemma_first_index_facts(s: Seq<Seq<char>>, x: Seq<char>)
    ensures
        0 <= first_index(s, x) <= s.len(),
        first_index(s, x) < s.len() ==> s[first_index(s, x)] == x,
        forall|j: int| 0 <= j < first_index(s, x) ==> s[j] != x,
        s.contains(x) <==> first_index(s, x) < s.len(),
    decreases s.len(),
{
    if s.len() > 0 && s[0] != x {
        lemma_first_index_facts(s.drop_first(), x);
        assert forall|j: int| 0 <= j < first_index(s, x) implies s[j] != x by {
            if j > 0 {
                assert(s[j] == s.drop_first()[j - 1]);
            }
        }
        if s.contains(x) {
            let j = choose|j: int| 0 <= j < s.len() && s[j] == x;
            assert(s.drop_first()[j - 1] == x);
        }
    }
}

proof fn lemma_last_offset(s: Seq<Seq<char>>, x: Seq<char>)
    ensures
        0 <= last_offset(s, x) <= s.len(),
        last_offset(s, x) < s.len() ==> s[s.len() - 1 - last_offset(s, x)] == x,
        forall|k: int| s.len() - last_offset(s, x) <= k < s.len() ==> s[k] != x,
    decreases s.len(),
{
    if s.len() > 0 {
        lemma_last_offset(s.drop_last(), x);
        if s.last() != x {
            assert forall|k: int| s.len() - last_offset(s, x) <= k < s.len() implies s[k] != x by {
                if k < s.len() - 1 {
                    assert(s[k] == s.drop_last()[k]);
                }
            }
        }
    }
}

fn same_string(a: &String, b: &String) -> (r: bool)
    ensures
        r == (a@ == b@),
{
    a.eq(b)
}

/// Where `x` first stands in `v`, or the length of `v`.
fn position_of(v: &Vec<String>, x: &String) -> (r: usize)
    ensures
        r == first_index(names(v@), x@),
{
    proof { lemma_first_index_facts(names(v@), x@); }
    let mut i: usize = 0;
    while i < v.len()
        invariant
            i <= v@.len(),
            forall|j: int| 0 <= j < i ==> names(v@)[j] != x@,
            0 <= first_index(names(v@), x@) <= v@.len(),
            first_index(names(v@), x@) < v@.len() ==> names(v@)[first_index(names(v@), x@)] == x@,
            forall|j: int| 0 <= j < first_index(names(v@), x@) ==> names(v@)[j] != x@,
        decreases v.len() - i,
    {
        assert(names(v@)[i as int] == v@[i as int]@);
        if same_string(&v[i], x) {
            return i;
        }
        i = i + 1;
    }
    i
}

/// How many places from the end the last `x` in `v` stands, or the length of `v`.
fn offset_from_end(v: &Vec<String>, x: &String) -> (r: usize)
    ensures
        r == last_offset(names(v@), x@),
{
    proof { lemma_last_offset(names(v@), x@); }
    let mut i: usize = 0;
    while i < v.len()
        invariant
            i <= v@.len(),
            forall|k: int| v@.len() - i <= k < v@.len() ==> names(v@)[k] != x@,
            0 <= last_offset(names(v@), x@) <= v@.len(),
            last_offset(names(v@), x@) < v@.len() ==> names(v@)[v@.len() - 1 - last_offset(names(v@), x@)] == x@,
            forall|k: int| v@.len() - last_offset(names(v@), x@) <= k < v@.len() ==> names(v@)[k] != x@,
        decreases v.len() - i,
    {
        assert(names(v@)[v@.len() - 1 - i] == v@[v@.len() - 1 - i]@);
        if same_string(&v[v.len() - 1 - i], x) {
            return i;
        }
        i = i + 1;
    }
    i
}

proof fn lemma_names_push(s: Seq<String>, x: String)
    ensures
        names(s.push(x)) == names(s).push(x@),
{
    assert(names(s.push(x)) =~= names(s).push(x@));
}

impl Context {
    /// An empty context.
    pub fn new() -> (r: Context)
        ensures
            r.view().lookup.len() == 0,
            r.view().func_idents.len() == 0,
            r.view().strings.len() == 0,
            r.view().bindings.len() == 0,
    {
        Context { lookup: Vec::new(), func_idents: Vec::new(), strings: Vec::new(), bindings: Vec::new() }
    }

    /// Records the definition of a function named `ident`.
    pub fn insert_func_ident(&mut self, ident: String)
        requires
            ctx_wf(old(self).view()),
        ensures
            final(self).view() == ctx_insert(old(self).view(), ident@),
            ctx_wf(final(self).view()),
    {
        let i = position_of(&self.lookup, &ident);
        proof {
            lemma_first_index_facts(names(self.lookup@), ident@);
            lemma_names_push(self.func_idents@, ident);
            lemma_names_push(self.lookup@, ident);
        }
        if i == self.lookup.len() {
            self.lookup.push(ident.clone());
        }
        self.func_idents.push(ident);
        proof {
            let c = final(self).view();
            assert forall|n: Seq<char>| c.lookup.contains(n) <==> c.func_idents.contains(n) by {
                let o = old(self).view();
                if c.func_idents.contains(n) && n != ident@ {
                    let j = choose|j: int| 0 <= j < c.func_idents.len() && c.func_idents[j] == n;
                    assert(o.func_idents[j] == n);
                }
                if c.lookup.contains(n) && n != ident@ {
                    let j = choose|j: int| 0 <= j < c.lookup.len() && c.lookup[j] == n;
                    assert(o.lookup[j] == n);
                }
                if o.func_idents.contains(n) {
                    let j = choose|j: int| 0 <= j < o.func_idents.len() && o.func_idents[j] == n;
                    assert(c.func_idents[j] == n);
                }
                if o.lookup.contains(n) {
                    let j = choose|j: int| 0 <= j < o.lookup.len() && o.lookup[j] == n;
                    assert(c.lookup[j] == n);
                }
                assert(c.func_idents[c.func_idents.len() - 1] == ident@);
                if c.lookup.len() > o.lookup.len() {
                    assert(c.lookup[c.lookup.len() - 1] == ident@);
                }
            }
        }
    }
}


/// Whether the step from `p` to `q` moved forward within the text.
pub open spec fn advances(s: Seq<char>, p: LexPos, q: LexPos) -> bool {
    p.0 < q.0 <= s.len()
}

/// The location of a token.
pub open spec fn tok_loc(f: Option<Seq<char>>, t: TokenView) -> LocView {
    (f, t.line, t.col)
}

/// The location of a lexer at `p`.
pub open spec fn pos_loc(f: Option<Seq<char>>, p: LexPos) -> LocView {
    (f, p.1, p.0 - p.2 + 1)
}

/// The operations that a keyword stands for by itself, where it is one of those.
pub open spec fn keyword_ops(k: Keyword) -> Option<Seq<OpView>> {
    match k {
        Keyword::Plus => Some(seq![OpView::Plus]),
        Keyword::Minus => Some(seq![OpView::Minus]),
        Keyword::Print => Some(seq![OpView::Print]),
        Keyword::Dup => Some(seq![OpView::Dup]),
        Keyword::Drop => Some(seq![OpView::Drop]),
        Keyword::Swap => Some(seq![OpView::Swap]),
        Keyword::Over => Some(seq![OpView::Over]),
        Keyword::Equals => Some(seq![OpView::Equals]),
        Keyword::Neq => Some(seq![OpView::Neq]),
        Keyword::Not => Some(seq![OpView::Not]),
        Keyword::GreaterThan => Some(seq![OpView::GreaterThan]),
        Keyword::LessThan => Some(seq![OpView::LessThan]),
        Keyword::Or => Some(seq![OpView::Or]),
        Keyword::And => Some(seq![OpView::And]),
        Keyword::ReadByte => Some(seq![OpView::ReadByte]),
        Keyword::Puts => Some(seq![OpView::Puts]),
        Keyword::DivMod => Some(seq![OpView::DivMod]),
        Keyword::Div => Some(seq![OpView::DivMod, OpView::Drop]),
        Keyword::Mod => Some(seq![OpView::DivMod, OpView::Swap, OpView::Drop]),
        Keyword::True => Some(seq![OpView::PushInt(1)]),
        Keyword::False => Some(seq![OpView::PushInt(0)]),
        _ => None,
    }
}

/// Whether a literal's text starts and ends with its quote `q`.
pub open spec fn is_closed_literal(v: Seq<char>, q: char) -> bool {
    v.len() >= 2 && v[0] == q && v.last() == q
}

/// The text of a literal between its quotes.
pub open spec fn literal_inner(v: Seq<char>) -> Seq<char> {
    v.subrange(1, v.len() - 1)
}

/// The operation that the identifier `name` stands for in context `c`: a call where it names
/// a function, else the innermost binding of that name.
pub open spec fn ident_op(c: CtxView, name: Seq<char>) -> Option<OpView> {
    if c.func_idents.contains(name) {
        Some(OpView::CallFn(first_index(c.lookup, name) as usize))
    } else if last_offset(c.bindings, name) < c.bindings.len() {
        Some(OpView::PushBind(last_offset(c.bindings, name) as usize))
    } else {
        None
    }
}

/// The content of the string literal `v`: the text between the quotes, escapes resolved.
pub open spec fn string_content(v: Seq<char>) -> Seq<char> {
    unescape(literal_inner(v))
}

/// The operations for the string literal `v` in context `c`: its length in bytes, then the
/// index of its content among the interned strings.
pub open spec fn string_ops(c: CtxView, v: Seq<char>) -> Seq<OpView> {
    seq![
        OpView::PushInt(utf8_len(string_content(v)) as u64),
        OpView::PushStrPtr(first_index(c.strings, string_content(v)) as usize),
    ]
}

/// The operation for the character literal `v`, or the message of the error it gives.
pub open spec fn char_op(v: Seq<char>) -> Result<OpView, Seq<char>> {
    if !is_closed_literal(v, '\'') {
        Err("a literal must end at its closing quote"@)
    } else if literal_inner(v).len() != 1 {
        Err("all character literals should have a length of 1. Did you mean to use `\"`?"@)
    } else {
        Ok(OpView::PushInt((literal_inner(v)[0] as u32) as u64))
    }
}

/// The result of reading a block: its operations, the position after its terminator and
/// the context then.
pub type BlockResult = Result<(Seq<OpView>, LexPos, CtxView), ErrView>;

/// The names after `let` or `peek`, read from `p` up to `in`, after the names `acc`.
pub open spec fn binding_names(
    s: Seq<char>,
    f: Option<Seq<char>>,
    p: LexPos,
    acc: Seq<Seq<char>>,
) -> Result<(Seq<Seq<char>>, LexPos), ErrView>
    decreases s.len() - p.0,
{
    let (ot, p1) = lex_step(s, p);
    match ot {
        None => Err(ErrView::Eof(pos_loc(f, p1))),
        Some(t) => if !advances(s, p, p1) {
            Err(ErrView::Eof(pos_loc(f, p1)))
        } else {
            match t.kind {
                TokenKind::Identifier => binding_names(s, f, p1, acc.push(t.value)),
                TokenKind::Keyword(Keyword::In) => Ok((acc, p1)),
                _ => Err(ErrView::UnexpectedToken(TokenKind::Identifier, t.kind, tok_loc(f, t))),
            }
        },
    }
}

/// Whether `q` is at or after `p`, within the text.
pub open spec fn keeps_on(s: Seq<char>, p: LexPos, q: LexPos) -> bool {
    p.0 <= q.0 <= s.len()
}

/// Reads the construct that `kw` (`if`, `while`, `let` or `peek`) opens, from `p`, just
/// after the keyword, up to its `end`: the operation, the position after it and the context.
pub open spec fn parse_nested_from(
    s: Seq<char>,
    f: Option<Seq<char>>,
    p: LexPos,
    c: CtxView,
    kw: Keyword,
) -> Result<(OpView, LexPos, CtxView), ErrView>
    decreases s.len() - p.0, 1int,
{
    match kw {
        Keyword::If => match parse_block_from(s, f, p, c, Keyword::End, seq![]) {
            Err(e) => Err(e),
            Ok((b, p1, c1)) => Ok((OpView::If(b), p1, c1)),
        },
        Keyword::While => match parse_block_from(s, f, p, c, Keyword::Do, seq![]) {
            Err(e) => Err(e),
            Ok((cd, p1, c1)) => if !keeps_on(s, p, p1) {
                Err(ErrView::Eof(pos_loc(f, p1)))
            } else {
                match parse_block_from(s, f, p1, c1, Keyword::End, seq![]) {
                    Err(e) => Err(e),
                    Ok((b, p2, c2)) => Ok((OpView::While(cd, b), p2, c2)),
                }
            },
        },
        Keyword::Let | Keyword::Peek => match binding_names(s, f, p, seq![]) {
            Err(e) => Err(e),
            Ok((ns, p1)) => if !keeps_on(s, p, p1) {
                Err(ErrView::Eof(pos_loc(f, p1)))
            } else {
                let c1 = CtxView { bindings: c.bindings + ns, ..c };
                match parse_block_from(s, f, p1, c1, Keyword::End, seq![]) {
                    Err(e) => Err(e),
                    Ok((b, p2, c2)) => Ok(
                        (
                            OpView::Bind(ns.len() as usize, kw == Keyword::Peek, b),
                            p2,
                            CtxView { bindings: c.bindings, ..c2 },
                        ),
                    ),
                }
            },
        },
        _ => Err(ErrView::UnexpectedKeyword(kw, pos_loc(f, p))),
    }
}

/// Whether `kw` opens a nested construct.
pub open spec fn opens_block(kw: Keyword) -> bool {
    kw == Keyword::If || kw == Keyword::While || kw == Keyword::Let || kw == Keyword::Peek
}

/// Reads a block from `p` up to the keyword `term`, after the operations `acc`, in context `c`.
pub open spec fn parse_block_from(
    s: Seq<char>,
    f: Option<Seq<char>>,
    p: LexPos,
    c: CtxView,
    term: Keyword,
    acc: Seq<OpView>,
) -> BlockResult
    decreases s.len() - p.0, 0int,
{
    let (ot, p1) = lex_step(s, p);
    match ot {
        None => Err(ErrView::Eof(pos_loc(f, p1))),
        Some(t) => if !advances(s, p, p1) {
            Err(ErrView::Eof(pos_loc(f, p1)))
        } else {
            match t.kind {
                TokenKind::Int(n) => parse_block_from(s, f, p1, c, term, acc.push(OpView::PushInt(n))),
                TokenKind::Keyword(kw) => if kw == term {
                    Ok((acc, p1, c))
                } else if keyword_ops(kw) is Some {
                    parse_block_from(s, f, p1, c, term, acc + keyword_ops(kw).unwrap())
                } else if kw == Keyword::Fn {
                    Err(ErrView::Generic("no function definitions outside of top-level"@, tok_loc(f, t)))
                } else if kw == Keyword::Ret {
                    parse_block_from(s, f, p1, c, term, acc.push(OpView::Ret(c.bindings.len() as usize)))
                } else if opens_block(kw) {
                    match parse_nested_from(s, f, p1, c, kw) {
                        Err(e) => Err(e),
                        Ok((o, p2, c2)) => if advances(s, p, p2) {
                            parse_block_from(s, f, p2, c2, term, acc.push(o))
                        } else {
                            Err(ErrView::Eof(pos_loc(f, p2)))
                        },
                    }
                } else {
                    Err(ErrView::UnexpectedKeyword(kw, tok_loc(f, t)))
                },
                TokenKind::Identifier => match ident_op(c, t.value) {
                    Some(o) => parse_block_from(s, f, p1, c, term, acc.push(o)),
                    None => Err(ErrView::UnknownIdentifier(t.value, tok_loc(f, t))),
                },
                TokenKind::String => if !is_closed_literal(t.value, '"') {
                    Err(ErrView::Generic("a literal must end at its closing quote"@, tok_loc(f, t)))
                } else {
                    parse_block_from(
                        s,
                        f,
                        p1,
                        ctx_intern(c, string_content(t.value)),
                        term,
                        acc + string_ops(c, t.value),
                    )
                },
                TokenKind::Char => match char_op(t.value) {
                    Ok(o) => parse_block_from(s, f, p1, c, term, acc.push(o)),
                    Err(m) => Err(ErrView::Generic(m, tok_loc(f, t))),
                },
            }
        },
    }
}

fn push_op(body: &mut Vec<Op>, o: Op)
    ensures
        ops_view(final(body)@) == ops_view(old(body)@).push(o.view()),
{
    let ghost g = o;
    body.push(o);
    proof { lemma_ops_view_push(old(body)@, g); }
}

/// Appends the operations that `kw` stands for by itself, where it is one of those.
fn push_keyword_ops(kw: Keyword, body: &mut Vec<Op>) -> (r: bool)
    ensures
        r == keyword_ops(kw) is Some,
        r ==> ops_view(final(body)@) == ops_view(old(body)@) + keyword_ops(kw).unwrap(),
        !r ==> final(body)@ == old(body)@,
{
    let ghost a = ops_view(body@);
    let op = match kw {
        Keyword::Plus => Op::Plus,
        Keyword::Minus => Op::Minus,
        Keyword::Print => Op::Print,
        Keyword::Dup => Op::Dup,
        Keyword::Drop => Op::Drop,
        Keyword::Swap => Op::Swap,
        Keyword::Over => Op::Over,
        Keyword::Equals => Op::Equals,
        Keyword::Neq => Op::Neq,
        Keyword::Not => Op::Not,
        Keyword::GreaterThan => Op::GreaterThan,
        Keyword::LessThan => Op::LessThan,
        Keyword::Or => Op::Or,
        Keyword::And => Op::And,
        Keyword::ReadByte => Op::ReadByte,
        Keyword::Puts => Op::Puts,
        Keyword::DivMod => Op::DivMod,
        Keyword::True => Op::PushInt(1),
        Keyword::False => Op::PushInt(0),
        Keyword::Div => {
            push_op(body, Op::DivMod);
            push_op(body, Op::Drop);
            assert(a.push(OpView::DivMod).push(OpView::Drop) =~= a + seq![OpView::DivMod, OpView::Drop]);
            return true;
        },
        Keyword::Mod => {
            push_op(body, Op::DivMod);
            push_op(body, Op::Swap);
            push_op(body, Op::Drop);
            assert(a.push(OpView::DivMod).push(OpView::Swap).push(OpView::Drop) =~= a + seq![
                OpView::DivMod,
                OpView::Swap,
                OpView::Drop,
            ]);
            return true;
        },
        _ => {
            return false;
        },
    };
    let ghost v = op.view();
    push_op(body, op);
    assert(a.push(v) =~= a + seq![v]);
    true
}

impl Token {
    /// The token itself where it is of kind `expected`, else an `UnexpectedToken` error.
    pub fn expect_kind(self, expected: TokenKind) -> (r: Result<Token, SyntaxError>)
        ensures
            self.kind == expected ==> r == Ok::<Token, SyntaxError>(self),
            self.kind != expected ==> (r matches Err(e) && e.view() == ErrView::UnexpectedToken(
                expected,
                self.kind,
                loc_view(self.location),
            )),
    {
        if self.kind != expected {
            Err(SyntaxError::UnexpectedToken { expected, found: self.kind, location: self.location })
        } else {
            Ok(self)
        }
    }
}

impl Lexer {
    /// The next token, which must be of kind `expected`.
    pub fn expect_next(&mut self, expected: TokenKind) -> (r: Result<Token, SyntaxError>)
        requires
            old(self).wf(),
        ensures
            final(self).wf(),
            final(self).text() == old(self).text(),
            final(self).file() == old(self).file(),
            final(self).pos() == lex_step(old(self).text(), old(self).pos()).1,
            final(self).pos().0 >= old(self).pos().0,
            lex_step(old(self).text(), old(self).pos()).0 is None ==> (r matches Err(e)
                && e.view() == ErrView::Eof(pos_loc(old(self).file(), final(self).pos()))),
            lex_step(old(self).text(), old(self).pos()).0 is Some && lex_step(
                old(self).text(),
                old(self).pos(),
            ).0->0.kind == expected ==> (r matches Ok(tok) && tok.view() == lex_step(
                old(self).text(),
                old(self).pos(),
            ).0->0 && advances(
                old(self).text(),
                old(self).pos(),
                final(self).pos(),
            ) && tok.value@.len() <= old(self).text().len()),
            lex_step(old(self).text(), old(self).pos()).0 is Some && lex_step(
                old(self).text(),
                old(self).pos(),
            ).0->0.kind != expected ==> (r matches Err(e) && e.view() == ErrView::UnexpectedToken(
                expected,
                lex_step(old(self).text(), old(self).pos()).0->0.kind,
                tok_loc(old(self).file(), lex_step(old(self).text(), old(self).pos()).0->0),
            )),
    {
        match self.next() {
            None => Err(SyntaxError::Eof(self.location())),
            Some(t) => {
                proof { self.lemma_wf(); }
                t.expect_kind(expected)
            },
        }
    }
}

/// Reads the names after `let` or `peek` up to `in`, pushing each onto the bindings.
fn parse_binding_names(lexer: &mut Lexer, ctx: &mut Context) -> (r: Result<usize, SyntaxError>)
    requires
        old(lexer).wf(),
    ensures
        final(lexer).wf(),
        final(lexer).text() == old(lexer).text(),
        final(lexer).file() == old(lexer).file(),
        final(lexer).pos().0 >= old(lexer).pos().0,
        final(ctx).view().lookup == old(ctx).view().lookup,
        final(ctx).view().func_idents == old(ctx).view().func_idents,
        final(ctx).view().strings == old(ctx).view().strings,
        match r {
            Ok(n) => {
                &&& final(ctx).view().bindings.len() == old(ctx).view().bindings.len() + n
                &&& final(ctx).view().bindings.subrange(0, old(ctx).view().bindings.len() as int)
                    == old(ctx).view().bindings
                &&& binding_names(old(lexer).text(), old(lexer).file(), old(lexer).pos(), seq![])
                    == Ok::<(Seq<Seq<char>>, LexPos), ErrView>((
                    final(ctx).view().bindings.subrange(
                        old(ctx).view().bindings.len() as int,
                        final(ctx).view().bindings.len() as int,
                    ),
                    final(lexer).pos(),
                ))
            },
            Err(e) => binding_names(old(lexer).text(), old(lexer).file(), old(lexer).pos(), seq![])
                == Err::<(Seq<Seq<char>>, LexPos), ErrView>(e.view()),
        },
{
    let ghost s = lexer.text();
    let ghost f = lexer.file();
    let ghost p0 = lexer.pos();
    let ghost c0 = ctx.view();
    let ghost mut ns: Seq<Seq<char>> = seq![];
    let mut count: usize = 0;
    proof { lexer.lemma_wf(); }
    loop
        invariant
            s == old(lexer).text(),
            f == old(lexer).file(),
            p0 == old(lexer).pos(),
            c0 == old(ctx).view(),
            lexer.wf(),
            lexer.text() == s,
            lexer.file() == f,
            lexer.pos().0 >= p0.0,
            ctx.view().lookup == c0.lookup,
            ctx.view().func_idents == c0.func_idents,
            ctx.view().strings == c0.strings,
            ctx.view().bindings == c0.bindings + ns,
            count == ns.len(),
            count <= lexer.pos().0,
            binding_names(s, f, lexer.pos(), ns) == binding_names(s, f, p0, seq![]),
        decreases s.len() - lexer.pos().0,
    {
        match lexer.next() {
            None => {
                return Err(SyntaxError::Eof(lexer.location()));
            },
            Some(t) => {
                proof { lexer.lemma_wf(); }
                match t.kind {
                    TokenKind::Identifier => {
                        proof {
                            lemma_names_push(ctx.bindings@, t.value);
                            assert(c0.bindings + ns.push(t.value@) == (c0.bindings + ns).push(t.value@));
                            ns = ns.push(t.value@);
                        }
                        ctx.bindings.push(t.value);
                        count = count + 1;
                    },
                    TokenKind::Keyword(Keyword::In) => {
                        assert(ctx.view().bindings.subrange(0, c0.bindings.len() as int) == c0.bindings);
                        assert(ctx.view().bindings.subrange(
                            c0.bindings.len() as int,
                            ctx.view().bindings.len() as int,
                        ) == ns);
                        return Ok(count);
                    },
                    found => {
                        return Err(
                            SyntaxError::UnexpectedToken {
                                expected: TokenKind::Identifier,
                                found,
                                location: t.location,
                            },
                        );
                    },
                }
            },
        }
    }
}

proof fn lemma_names_truncate(v: Seq<String>, n: int)
    requires
        0 <= n <= v.len(),
    ensures
        names(v.subrange(0, n)) == names(v).subrange(0, n),
{
    assert(names(v.subrange(0, n)) =~= names(v).subrange(0, n));
}

/// The operation that the identifier `name` stands for in the context, if any.
fn identifier_op(ctx: &Context, name: &String) -> (r: Option<Op>)
    ensures
        match r {
            Some(o) => ident_op(ctx.view(), name@) == Some(o.view()),
            None => ident_op(ctx.view(), name@) is None,
        },
{
    proof {
        lemma_first_index_facts(ctx.view().func_idents, name@);
    }
    let fi = position_of(&ctx.func_idents, name);
    if fi < ctx.func_idents.len() {
        Some(Op::CallFn(position_of(&ctx.lookup, name)))
    } else {
        let off = offset_from_end(&ctx.bindings, name);
        if off < ctx.bindings.len() {
            Some(Op::PushBind(off))
        } else {
            None
        }
    }
}

/// Interns the content of the string literal `v` and appends the operations that push it.
fn push_string(ctx: &mut Context, v: &Vec<char>, body: &mut Vec<Op>)
    requires
        is_closed_literal(v@, '"'),
        4 * v@.len() <= u64::MAX,
    ensures
        final(ctx).view() == ctx_intern(old(ctx).view(), string_content(v@)),
        ops_view(final(body)@) == ops_view(old(body)@) + string_ops(old(ctx).view(), v@),
{
    let ghost c = ctx.view();
    let inner = slice_range(v, 1, v.len() - 1);
    let content = unescape_chars(inner.as_slice());
    proof {
        lemma_unescape_len(inner@);
    }
    let len = utf8_length(content.as_slice());
    let sv = string_of(content.as_slice());
    let index = position_of(&ctx.strings, &sv);
    proof {
        lemma_first_index_facts(c.strings, sv@);
        lemma_names_push(ctx.strings@, sv);
    }
    if index == ctx.strings.len() {
        ctx.strings.push(sv);
    }
    let ghost a = ops_view(body@);
    push_op(body, Op::PushInt(len));
    push_op(body, Op::PushStrPtr(index));
    assert(a.push(OpView::PushInt(len)).push(OpView::PushStrPtr(index)) =~= a + string_ops(c, v@));
}

/// The operation for the character literal `v`, or the message of the error it gives.
fn char_literal_op(v: &Vec<char>) -> (r: Result<Op, &'static str>)
    ensures
        match r {
            Ok(o) => char_op(v@) == Ok::<OpView, Seq<char>>(o.view()),
            Err(m) => char_op(v@) == Err::<OpView, Seq<char>>(m@),
        },
{
    if !(v.len() >= 2 && v[0] == '\'' && v[v.len() - 1] == '\'') {
        return Err("a literal must end at its closing quote");
    }
    if v.len() != 3 {
        return Err("all character literals should have a length of 1. Did you mean to use `\"`?");
    }
    assert(literal_inner(v@)[0] == v@[1]);
    Ok(Op::PushInt((v[1] as u32) as u64))
}

/// Reads the construct that `kw` opens, just read, up to its `end`.
fn parse_nested(lexer: &mut Lexer, ctx: &mut Context, kw: Keyword) -> (r: Result<Op, SyntaxError>)
    requires
        old(lexer).wf(),
        opens_block(kw),
    ensures
        final(lexer).wf(),
        final(lexer).text() == old(lexer).text(),
        final(lexer).file() == old(lexer).file(),
        final(lexer).pos().0 >= old(lexer).pos().0,
        final(ctx).view().lookup == old(ctx).view().lookup,
        final(ctx).view().func_idents == old(ctx).view().func_idents,
        match r {
            Ok(o) => {
                &&& final(ctx).view().bindings == old(ctx).view().bindings
                &&& parse_nested_from(
                    old(lexer).text(),
                    old(lexer).file(),
                    old(lexer).pos(),
                    old(ctx).view(),
                    kw,
                ) == Ok::<(OpView, LexPos, CtxView), ErrView>(
                    (o.view(), final(lexer).pos(), final(ctx).view()),
                )
            },
            Err(e) => parse_nested_from(
                old(lexer).text(),
                old(lexer).file(),
                old(lexer).pos(),
                old(ctx).view(),
                kw,
            ) == Err::<(OpView, LexPos, CtxView), ErrView>(e.view()),
        },
    decreases old(lexer).text().len() - old(lexer).pos().0, 1int,
{
    match kw {
        Keyword::If => {
            let b = match parse_block(lexer, ctx, Keyword::End) {
                Ok(b) => b,
                Err(e) => {
                    return Err(e);
                },
            };
            Ok(Op::If(b))
        },
        Keyword::While => {
            let condn = match parse_block(lexer, ctx, Keyword::Do) {
                Ok(b) => b,
                Err(e) => {
                    return Err(e);
                },
            };
            proof { lexer.lemma_wf(); }
            let body = match parse_block(lexer, ctx, Keyword::End) {
                Ok(b) => b,
                Err(e) => {
                    return Err(e);
                },
            };
            Ok(Op::While { condn, body })
        },
        _ => {
            let ghost c0 = ctx.view();
            let start = ctx.bindings.len();
            let count = match parse_binding_names(lexer, ctx) {
                Ok(n) => n,
                Err(e) => {
                    return Err(e);
                },
            };
            proof {
                lexer.lemma_wf();
                let b = ctx.view().bindings;
                let ns = b.subrange(start as int, b.len() as int);
                assert(b =~= c0.bindings + ns);
                assert(ctx.view() == CtxView { bindings: c0.bindings + ns, ..c0 });
            }
            let body = match parse_block(lexer, ctx, Keyword::End) {
                Ok(b) => b,
                Err(e) => {
                    return Err(e);
                },
            };
            let ghost before = ctx.bindings@;
            ctx.bindings.truncate(start);
            proof {
                lemma_names_truncate(before, start as int);
            }
            Ok(Op::Bind { count, peek: kw == Keyword::Peek, body })
        },
    }
}

/// Reads a block up to the keyword `terminator`, which it consumes.
fn parse_block(lexer: &mut Lexer, ctx: &mut Context, terminator: Keyword) -> (r: Result<
    Vec<Op>,
    SyntaxError,
>)
    requires
        old(lexer).wf(),
    ensures
        final(lexer).wf(),
        final(lexer).text() == old(lexer).text(),
        final(lexer).file() == old(lexer).file(),
        final(lexer).pos().0 >= old(lexer).pos().0,
        final(ctx).view().lookup == old(ctx).view().lookup,
        final(ctx).view().func_idents == old(ctx).view().func_idents,
        match r {
            Ok(ops) => {
                &&& final(ctx).view().bindings == old(ctx).view().bindings
                &&& parse_block_from(
                    old(lexer).text(),
                    old(lexer).file(),
                    old(lexer).pos(),
                    old(ctx).view(),
                    terminator,
                    seq![],
                ) == Ok::<(Seq<OpView>, LexPos, CtxView), ErrView>(
                    (ops_view(ops@), final(lexer).pos(), final(ctx).view()),
                )
            },
            Err(e) => parse_block_from(
                old(lexer).text(),
                old(lexer).file(),
                old(lexer).pos(),
                old(ctx).view(),
                terminator,
                seq![],
            ) == Err::<(Seq<OpView>, LexPos, CtxView), ErrView>(e.view()),
        },
    decreases old(lexer).text().len() - old(lexer).pos().0, 0int,
{
    let ghost s = lexer.text();
    let ghost f = lexer.file();
    let ghost p0 = lexer.pos();
    let ghost c0 = ctx.view();
    let mut body: Vec<Op> = Vec::new();
    proof { lexer.lemma_wf(); }
    loop
        invariant
            s == old(lexer).text(),
            f == old(lexer).file(),
            p0 == old(lexer).pos(),
            c0 == old(ctx).view(),
            lexer.wf(),
            lexer.text() == s,
            lexer.file() == f,
            lexer.pos().0 >= p0.0,
            ctx.view().lookup == c0.lookup,
            ctx.view().func_idents == c0.func_idents,
            ctx.view().bindings == c0.bindings,
            parse_block_from(s, f, lexer.pos(), ctx.view(), terminator, ops_view(body@))
                == parse_block_from(s, f, p0, c0, terminator, seq![]),
        decreases s.len() - lexer.pos().0,
    {
        let t = match lexer.next() {
            None => {
                return Err(SyntaxError::Eof(lexer.location()));
            },
            Some(t) => t,
        };
        proof { lexer.lemma_wf(); }
        match t.kind {
            TokenKind::Int(num) => {
                push_op(&mut body, Op::PushInt(num));
            },
            TokenKind::Keyword(kw) => {
                if kw == terminator {
                    return Ok(body);
                }
                if !push_keyword_ops(kw, &mut body) {
                    if kw == Keyword::Fn {
                        return Err(
                            SyntaxError::Generic {
                                location: t.location,
                                message: "no function definitions outside of top-level",
                            },
                        );
                    } else if kw == Keyword::Ret {
                        push_op(&mut body, Op::Ret(ctx.bindings.len()));
                    } else if kw == Keyword::If || kw == Keyword::While || kw == Keyword::Let
                        || kw == Keyword::Peek {
                        let o = match parse_nested(lexer, ctx, kw) {
                            Ok(o) => o,
                            Err(e) => {
                                return Err(e);
                            },
                        };
                        proof { lexer.lemma_wf(); }
                        push_op(&mut body, o);
                    } else {
                        return Err(SyntaxError::UnexpectedKeyword { kw, location: t.location });
                    }
                }
            },
            TokenKind::Identifier => {
                match identifier_op(ctx, &t.value) {
                    Some(o) => {
                        push_op(&mut body, o);
                    },
                    None => {
                        return Err(
                            SyntaxError::UnknownIdentifier {
                                identifier: t.value,
                                location: t.location,
                            },
                        );
                    },
                }
            },
            TokenKind::String => {
                let v = chars_of(t.value.as_str());
                if !(v.len() >= 2 && v[0] == '"' && v[v.len() - 1] == '"') {
                    return Err(
                        SyntaxError::Generic {
                            location: t.location,
                            message: "a literal must end at its closing quote",
                        },
                    );
                }
                push_string(ctx, &v, &mut body);
            },
            TokenKind::Char => {
                let v = chars_of(t.value.as_str());
                match char_literal_op(&v) {
                    Ok(o) => {
                        push_op(&mut body, o);
                    },
                    Err(message) => {
                        return Err(SyntaxError::Generic { location: t.location, message });
                    },
                }
            },
        }
    }
}

/// Reads a function after its `fn`: its name, `in`, and its body up to `end`, to which
/// `Ret(0)` is added. The name is defined before the body is read, so the body may call it.
pub open spec fn parse_fn_from(s: Seq<char>, f: Option<Seq<char>>, p: LexPos, c: CtxView) -> Result<
    (FuncView, LexPos, CtxView),
    ErrView,
> {
    let (o1, p1) = lex_step(s, p);
    match o1 {
        None => Err(ErrView::Eof(pos_loc(f, p1))),
        Some(t1) => if t1.kind != TokenKind::Identifier {
            Err(ErrView::UnexpectedToken(TokenKind::Identifier, t1.kind, tok_loc(f, t1)))
        } else {
            let c1 = ctx_insert(c, t1.value);
            let (o2, p2) = lex_step(s, p1);
            match o2 {
                None => Err(ErrView::Eof(pos_loc(f, p2))),
                Some(t2) => if t2.kind != TokenKind::Keyword(Keyword::In) {
                    Err(
                        ErrView::UnexpectedToken(
                            TokenKind::Keyword(Keyword::In),
                            t2.kind,
                            tok_loc(f, t2),
                        ),
                    )
                } else {
                    match parse_block_from(s, f, p2, c1, Keyword::End, seq![]) {
                        Err(e) => Err(e),
                        Ok((b, p3, c3)) => Ok(((t1.value, b.push(OpView::Ret(0))), p3, c3)),
                    }
                },
            }
        },
    }
}

/// Reads the functions of a program from `p`, after the functions `acc`, in context `c`:
/// each starts with `fn`, and nothing else may stand at the top level.
pub open spec fn parse_program_from(
    s: Seq<char>,
    f: Option<Seq<char>>,
    p: LexPos,
    c: CtxView,
    acc: Seq<FuncView>,
) -> Result<(Seq<FuncView>, CtxView), ErrView>
    decreases s.len() - p.0,
{
    let (ot, p1) = lex_step(s, p);
    match ot {
        None => Ok((acc, c)),
        Some(t) => if t.kind != TokenKind::Keyword(Keyword::Fn) {
            Err(ErrView::UnexpectedTopLevel(t.kind, tok_loc(f, t)))
        } else {
            match parse_fn_from(s, f, p1, c) {
                Err(e) => Err(e),
                Ok((fv, p2, c2)) => if advances(s, p, p2) {
                    parse_program_from(s, f, p2, c2, acc.push(fv))
                } else {
                    Err(ErrView::Eof(pos_loc(f, p2)))
                },
            }
        },
    }
}

/// The context before any function is read.
pub open spec fn empty_ctx() -> CtxView {
    CtxView { lookup: seq![], func_idents: seq![], strings: seq![], bindings: seq![] }
}

/// A parsed program: its functions and the context that the emitter needs.
#[derive(Debug)]
pub struct Program {
    pub funcs: Vec<Func>,
    pub ctx: Context,
}

impl Program {
    pub open spec fn funcs_view(&self) -> Seq<FuncView> {
        funcs_view(self.funcs@)
    }
}

proof fn lemma_funcs_view_push(s: Seq<Func>, x: Func)
    ensures
        funcs_view(s.push(x)) == funcs_view(s).push(x.view()),
{
    assert(s.push(x).drop_last() == s);
}

/// Reads a function after its `fn`.
fn parse_fn(lexer: &mut Lexer, ctx: &mut Context) -> (r: Result<Func, SyntaxError>)
    requires
        old(lexer).wf(),
        ctx_wf(old(ctx).view()),
    ensures
        final(lexer).wf(),
        final(lexer).text() == old(lexer).text(),
        final(lexer).file() == old(lexer).file(),
        final(lexer).pos().0 >= old(lexer).pos().0,
        ctx_wf(final(ctx).view()),
        match r {
            Ok(func) => parse_fn_from(old(lexer).text(), old(lexer).file(), old(lexer).pos(), old(ctx).view())
                == Ok::<(FuncView, LexPos, CtxView), ErrView>(
                (func.view(), final(lexer).pos(), final(ctx).view()),
            ),
            Err(e) => parse_fn_from(old(lexer).text(), old(lexer).file(), old(lexer).pos(), old(ctx).view())
                == Err::<(FuncView, LexPos, CtxView), ErrView>(e.view()),
        },
{
    let t = match lexer.expect_next(TokenKind::Identifier) {
        Ok(t) => t,
        Err(e) => {
            return Err(e);
        },
    };
    let ident = t.value;
    ctx.insert_func_ident(ident.clone());
    proof { lexer.lemma_wf(); }
    match lexer.expect_next(TokenKind::Keyword(Keyword::In)) {
        Ok(_) => {},
        Err(e) => {
            return Err(e);
        },
    }
    proof { lexer.lemma_wf(); }
    let mut body = match parse_block(lexer, ctx, Keyword::End) {
        Ok(b) => b,
        Err(e) => {
            return Err(e);
        },
    };
    push_op(&mut body, Op::Ret(0));
    Ok(Func { ident, body })
}

/// Reads a whole program: functions, each introduced by `fn`.
pub fn parse_tokens(lexer: &mut Lexer) -> (r: Result<Program, SyntaxError>)
    requires
        old(lexer).wf(),
    ensures
        final(lexer).wf(),
        final(lexer).text() == old(lexer).text(),
        match r {
            Ok(prog) => {
                &&& ctx_wf(prog.ctx.view())
                &&& program_ok(prog.funcs_view(), prog.ctx.view())
                &&& prog.ctx.view().strings.no_duplicates()
                &&& parse_program_from(
                    old(lexer).text(),
                    old(lexer).file(),
                    old(lexer).pos(),
                    empty_ctx(),
                    seq![],
                ) == Ok::<(Seq<FuncView>, CtxView), ErrView>((prog.funcs_view(), prog.ctx.view()))
            },
            Err(e) => parse_program_from(
                old(lexer).text(),
                old(lexer).file(),
                old(lexer).pos(),
                empty_ctx(),
                seq![],
            ) == Err::<(Seq<FuncView>, CtxView), ErrView>(e.view()),
        },
{
    let ghost s = lexer.text();
    let ghost f = lexer.file();
    let ghost p0 = lexer.pos();
    let mut funcs: Vec<Func> = Vec::new();
    let mut ctx = Context::new();
    assert(ctx.view().lookup =~= seq![]);
    assert(ctx.view().func_idents =~= seq![]);
    assert(ctx.view().strings =~= seq![]);
    assert(ctx.view().bindings =~= seq![]);
    assert(ctx.view() == empty_ctx());
    proof {
        lexer.lemma_wf();
        lemma_parsed_program_ok(s, f, p0);
    }
    loop
        invariant
            s == old(lexer).text(),
            f == old(lexer).file(),
            p0 == old(lexer).pos(),
            lexer.wf(),
            lexer.text() == s,
            lexer.file() == f,
            ctx_wf(ctx.view()),
            parse_program_from(s, f, lexer.pos(), ctx.view(), funcs_view(funcs@))
                == parse_program_from(s, f, p0, empty_ctx(), seq![]),
            parse_program_from(s, f, p0, empty_ctx(), seq![]) matches Ok((fs, d))
                ==> program_ok(fs, d) && d.strings.no_duplicates(),
        decreases s.len() - lexer.pos().0,
    {
        let t = match lexer.next() {
            None => {
                return Ok(Program { funcs, ctx });
            },
            Some(t) => t,
        };
        proof { lexer.lemma_wf(); }
        if t.kind != TokenKind::Keyword(Keyword::Fn) {
            return Err(SyntaxError::UnexpectedTopLevel { found: t.kind, location: t.location });
        }
        let func = match parse_fn(lexer, &mut ctx) {
            Ok(func) => func,
            Err(e) => {
                return Err(e);
            },
        };
        proof {
            lexer.lemma_wf();
            lemma_funcs_view_push(funcs@, func);
        }
        funcs.push(func);
    }
}

} // verus!
