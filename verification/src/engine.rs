//! The engine: parser, code generator and evaluator.
pub mod backtracking;
pub mod codegen;
pub mod evaluator;
pub mod grammar;
pub mod language;
pub mod listing;
pub mod lowering;
pub mod parser;
pub mod paths;
pub mod size;
pub mod table;
pub mod theorems;

use codegen::{code_len, get_code, program, CodeGenError};
use evaluator::{eval, eval_with_cache, EvalError};
use language::matches_prefix;
use lowering::{lemma_program_closed, theorem_program_accepts};
use parser::{chars_of, parse, parse_spec, ParseError};
use paths::{theorem_eval_decides, theorem_eval_with_cache_decides};
use size::theorem_program_size;
use vstd::prelude::*;

verus! {

/// One instruction of the virtual machine.
#[derive(Debug, Clone, Copy, PartialEq, Eq, Structural)]
pub enum Instruction {
    /// Consume one character, which must be this one.
    Char(char),
    /// Accept.
    Match,
    /// Go on at the address.
    Jump(usize),
    /// Try from the first address and, where that finds no match, from the
    /// second.
    Split(usize, usize),
}

/// Why a match could not be attempted or finished.
#[derive(Debug, Clone, Copy, PartialEq, Eq, Structural)]
pub enum MatchError {
    Parse(ParseError),
    CodeGen(CodeGenError),
    Eval(EvalError),
}

/// Whether `pattern` matches at the start of `input`: the pattern has to
/// parse, its program has to fit the address space, and then the answer is
/// whether some slice of `input` from its first character on belongs to the
/// pattern's language.
pub open spec fn matching(pattern: Seq<char>, input: Seq<char>) -> Result<bool, MatchError> {
    match parse_spec(pattern) {
        Err(e) => Err(MatchError::Parse(e)),
        Ok(p) => if code_len(p) >= usize::MAX {
            Err(MatchError::CodeGen(CodeGenError::PCOverflow))
        } else {
            Ok(matches_prefix(p, input))
        },
    }
}

/// Matches the pattern `expr` against the start of `line` with the plain
/// evaluator. `is_depth` is reserved and has no effect.
///
/// The evaluator never fails on the program of a pattern, and a pattern of
/// less than half the address space always has a program: such a pattern is
/// refused only where it does not parse.
pub fn do_matching(expr: &str, line: &str, is_depth: bool) -> (r: Result<bool, MatchError>)
    ensures
        r == matching(expr@, line@),
        r is Err ==> !(r->Err_0 is Eval),
        2 * expr@.len() < usize::MAX ==> (r is Ok <==> parse_spec(expr@) is Ok),
{
    proof {
        if parse_spec(expr@) is Ok {
            theorem_program_size(expr@);
        }
    }
    let ast = match parse(expr) {
        Ok(ast) => ast,
        Err(e) => {
            return Err(MatchError::Parse(e));
        },
    };
    let code = match get_code(&ast) {
        Ok(code) => code,
        Err(e) => {
            return Err(MatchError::CodeGen(e));
        },
    };
    let line = chars_of(line);
    proof {
        lemma_program_closed(ast@);
        theorem_program_accepts(ast@, line@);
        theorem_eval_decides(code@, line@);
    }
    match eval(code.as_slice(), line.as_slice(), is_depth) {
        Ok(found) => Ok(found),
        Err(e) => Err(MatchError::Eval(e)),
    }
}

/// Matches the pattern `expr` against the start of `line` with the
/// memoized evaluator. `is_depth` is reserved and has no effect.
///
/// The evaluator never fails on the program of a pattern, and a pattern of
/// less than half the address space always has a program: such a pattern is
/// refused only where it does not parse.
pub fn do_matching_with_cache(expr: &str, line: &str, is_depth: bool) -> (r: Result<
    bool,
    MatchError,
>)
    ensures
        r == matching(expr@, line@),
        r is Err ==> !(r->Err_0 is Eval),
        2 * expr@.len() < usize::MAX ==> (r is Ok <==> parse_spec(expr@) is Ok),
{
    proof {
        if parse_spec(expr@) is Ok {
            theorem_program_size(expr@);
        }
    }
    let ast = match parse(expr) {
        Ok(ast) => ast,
        Err(e) => {
            return Err(MatchError::Parse(e));
        },
    };
    let code = match get_code(&ast) {
        Ok(code) => code,
        Err(e) => {
            return Err(MatchError::CodeGen(e));
        },
    };
    let line = chars_of(line);
    proof {
        lemma_program_closed(ast@);
        theorem_program_accepts(ast@, line@);
        theorem_eval_with_cache_decides(code@, line@);
    }
    match eval_with_cache(code.as_slice(), line.as_slice(), is_depth) {
        Ok(found) => Ok(found),
        Err(e) => Err(MatchError::Eval(e)),
    }
}

/// Whether `pattern` matches somewhere in `line`: at one of its characters,
/// as `matching` has it from there on. A line without characters has no
/// place to match at.
pub open spec fn searching(pattern: Seq<char>, line: Seq<char>) -> Result<bool, MatchError> {
    if line.len() == 0 {
        Ok(false)
    } else {
        match parse_spec(pattern) {
            Err(e) => Err(MatchError::Parse(e)),
            Ok(p) => if code_len(p) >= usize::MAX {
                Err(MatchError::CodeGen(CodeGenError::PCOverflow))
            } else {
                Ok(exists|i: int| 0 <= i < line.len() && #[trigger] matches_prefix(p, line.skip(i)))
            },
        }
    }
}

/// Searches `line` for the pattern `expr`: the pattern is tried at each
/// character of the line in turn, with the plain evaluator, until it matches
/// at one.
pub fn match_line(expr: &str, line: &str) -> (r: Result<bool, MatchError>)
    ensures
        r == searching(expr@, line@),
        r is Err ==> !(r->Err_0 is Eval),
        2 * expr@.len() < usize::MAX && line@.len() > 0 ==> (r is Ok <==> parse_spec(expr@)
            is Ok),
{
    proof {
        if parse_spec(expr@) is Ok {
            theorem_program_size(expr@);
        }
    }
    let text = chars_of(line);
    if text.len() == 0 {
        return Ok(false);
    }
    let ast = match parse(expr) {
        Ok(ast) => ast,
        Err(e) => {
            return Err(MatchError::Parse(e));
        },
    };
    let code = match get_code(&ast) {
        Ok(code) => code,
        Err(e) => {
            return Err(MatchError::CodeGen(e));
        },
    };
    let mut i: usize = 0;
    while i < text.len()
        invariant
            i <= text@.len(),
            text@ == line@,
            code@ == program(ast@),
            code_len(ast@) < usize::MAX,
            parse_spec(expr@) == Ok::<parser::Pattern, ParseError>(ast@),
            forall|k: int| 0 <= k < i ==> !#[trigger] matches_prefix(ast@, line@.skip(k)),
        decreases text@.len() - i,
    {
        let rest = vstd::slice::slice_subrange(text.as_slice(), i, text.len());
        proof {
            assert(rest@ =~= line@.skip(i as int));
            lemma_program_closed(ast@);
            theorem_program_accepts(ast@, rest@);
            theorem_eval_decides(code@, rest@);
        }
        match eval(code.as_slice(), rest, true) {
            Ok(found) => {
                if found {
                    proof {
                        assert(matches_prefix(ast@, line@.skip(i as int)));
                    }
                    return Ok(true);
                }
            },
            Err(e) => {
                return Err(MatchError::Eval(e));
            },
        }
        i += 1;
    }
    Ok(false)
}

} // verus!
