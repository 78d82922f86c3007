//! A compiler for Rack, a small stack language: source text is read into tokens, the tokens
//! into a tree of operations, and the tree into FASM assembly for x86-64 Linux.
use vstd::prelude::*;

pub mod codegen;
pub mod lex;
pub mod literal;
pub mod parse;
mod text;
pub mod wellformed;

pub use crate::codegen::{generate, GenerateError};
pub use crate::lex::{Keyword, Lexer, Location, Token, TokenKind, UnknownKeywordError};
pub use crate::parse::{parse_tokens, Context, Func, Op, Program, SyntaxError};

use crate::codegen::program_text;
use crate::lex::{same_chars, TEXT_LIMIT};
use crate::parse::{empty_ctx, parse_program_from, ErrView, FuncView};
use crate::text::chars_of;

verus! {

/// The name of the function that a program starts in.
pub open spec fn entry_name() -> Seq<char> {
    seq!['m', 'a', 'i', 'n']
}

/// How many of the functions `fs` are named `main`.
pub open spec fn main_count(fs: Seq<FuncView>) -> nat
    decreases fs.len(),
{
    if fs.len() == 0 {
        0
    } else {
        (if fs[0].0 == entry_name() {
            1nat
        } else {
            0nat
        }) + main_count(fs.drop_first())
    }
}

/// Why a source could not be compiled.
#[derive(Debug, PartialEq, Eq)]
pub enum CompileError {
    /// The source does not parse.
    Syntax(SyntaxError),
    /// No function is named `main`.
    MissingMain,
    /// More than one function is named `main`.
    DuplicateMain,
}

/// The outcome of compiling `s` (from the file named `f`, if any), as the contracts see it:
/// the assembly text, or why there is none.
pub enum CompileOutcome {
    Text(Seq<char>),
    Syntax(ErrView),
    MissingMain,
    DuplicateMain,
}

/// What compiling `s` gives: the program that `s` parses to, checked for a single `main`, and
/// the assembly for it. Every program that parses can be emitted (see `parse_tokens`).
pub open spec fn compile_outcome(s: Seq<char>, f: Option<Seq<char>>) -> CompileOutcome {
    match parse_program_from(s, f, (0, 1, 0), empty_ctx(), seq![]) {
        Err(e) => CompileOutcome::Syntax(e),
        Ok((fs, c)) => if main_count(fs) == 0 {
            CompileOutcome::MissingMain
        } else if main_count(fs) > 1 {
            CompileOutcome::DuplicateMain
        } else {
            CompileOutcome::Text(program_text(fs, c))
        },
    }
}

/// Compiling the same source twice gives the same outcome: the same assembly, byte for byte,
/// or the same error.
pub proof fn lemma_compile_deterministic(a: Seq<char>, b: Seq<char>, f: Option<Seq<char>>)
    requires
        a == b,
    ensures
        compile_outcome(a, f) == compile_outcome(b, f),
{
}

/// How many of the functions are named `main`, up to 2.
fn count_main(funcs: &Vec<Func>) -> (r: usize)
    ensures
        r == if main_count(crate::parse::funcs_view(funcs@)) > 1 {
            2
        } else {
            main_count(crate::parse::funcs_view(funcs@))
        },
{
    let ghost fs = crate::parse::funcs_view(funcs@);
    proof {
        crate::parse::lemma_funcs_view_index(funcs@);
        assert(fs.skip(0) == fs);
    }
    let main: Vec<char> = vec!['m', 'a', 'i', 'n'];
    let mut n: usize = 0;
    let mut i: usize = 0;
    while i < funcs.len()
        invariant
            i <= funcs@.len(),
            fs == crate::parse::funcs_view(funcs@),
            fs.len() == funcs@.len(),
            forall|j: int| 0 <= j < funcs@.len() ==> #[trigger] fs[j] == funcs@[j].view(),
            main@ == entry_name(),
            n <= 1,
            n + main_count(fs.skip(i as int)) == main_count(fs),
        decreases funcs.len() - i,
    {
        assert(fs.skip(i as int).drop_first() == fs.skip(i + 1));
        assert(fs.skip(i as int)[0] == fs[i as int]);
        let name = chars_of(funcs[i].ident.as_str());
        if same_chars(name.as_slice(), main.as_slice()) {
            if n == 1 {
                return 2;
            }
            n = n + 1;
        }
        i = i + 1;
    }
    assert(fs.skip(i as int).len() == 0);
    n
}

/// Compiles a source text to FASM assembly for x86-64 Linux. `file` names the source in the
/// locations of errors.
pub fn compile(source: &str, file: Option<&str>) -> (r: Result<String, CompileError>)
    requires
        source@.len() < TEXT_LIMIT,
        source@.len() < usize::MAX,
    ensures
        ({
            let f = match file {
                Some(n) => Some(n@),
                None => None,
            };
            match compile_outcome(source@, f) {
                CompileOutcome::Text(t) => r matches Ok(out) && out@ == t,
                CompileOutcome::Syntax(e) => r matches Err(CompileError::Syntax(se)) && se.view() == e,
                CompileOutcome::MissingMain => r == Err::<String, CompileError>(CompileError::MissingMain),
                CompileOutcome::DuplicateMain => r == Err::<String, CompileError>(CompileError::DuplicateMain),
            }
        }),
{
    let mut lexer = Lexer::new(source, file);
    let program = match parse_tokens(&mut lexer) {
        Ok(p) => p,
        Err(e) => {
            return Err(CompileError::Syntax(e));
        },
    };
    let n = count_main(&program.funcs);
    if n == 0 {
        return Err(CompileError::MissingMain);
    }
    if n > 1 {
        return Err(CompileError::DuplicateMain);
    }
    // `parse_tokens` ensures `program_ok`, so `generate` succeeds.
    Ok(generate(program).unwrap())
}

} // verus!
