//! Parsing, compiling and matching of patterns.
pub mod ast;
pub mod parser;
pub mod instruction;
pub mod compiler;
pub mod evaluator;
pub mod analysis;
pub mod search_plan;
pub mod laws;
pub mod prefilter;
pub mod slots;
pub mod messages;
pub mod literal_sets;
pub mod semantics;

use vstd::prelude::*;
use crate::engine::analysis::{AstAnalysis, analysis, analyze_ast, prune, strings};
use crate::engine::compiler::{CompileError, compile, compile_outcome};
use crate::engine::evaluator::{
    EvalError, eval, eval_from_starts, eval_outcome, listed_answer, max_slot_index, search_listed, starts_answer,
};
use crate::engine::instruction::{Instruction, program};
use crate::engine::parser::{ParseError, Step, model_parse, parse};

verus! {

/// Checked addition.
pub trait SafeAdd: Sized {
    /// The sum of `a` and `b`, or `None` where it does not fit.
    spec fn checked_sum(a: Self, b: Self) -> Option<Self>;

    /// Adds `n` to `self`, giving `None` on overflow.
    fn safe_add(&self, n: &Self) -> (r: Option<Self>)
        ensures
            r == Self::checked_sum(*self, *n),
    ;
}

impl SafeAdd for usize {
    open spec fn checked_sum(a: usize, b: usize) -> Option<usize> {
        if a + b <= usize::MAX {
            Some((a + b) as usize)
        } else {
            None
        }
    }

    fn safe_add(&self, n: &usize) -> (r: Option<usize>) {
        self.checked_add(*n)
    }
}

/// Adds `src` into `dst`; on overflow leaves `dst` as it was and returns the
/// error that `f` builds.
pub fn safe_add<T, F, E>(dst: &mut T, src: &T, f: F) -> (r: Result<(), E>)
    where
        T: SafeAdd,
        F: Fn() -> E,
    requires
        f.requires(()),
    ensures
        match T::checked_sum(*old(dst), *src) {
            Some(n) => r is Ok && *final(dst) == n,
            None => *final(dst) == *old(dst) && (r matches Err(e) && f.ensures((), e)),
        },
{
    if let Some(n) = dst.safe_add(src) {
        *dst = n;
        Ok(())
    } else {
        Err(f())
    }
}

/// Unified error of the parse, compile and evaluation stages.
#[derive(Debug, Clone, Copy, PartialEq, Eq, Structural)]
pub enum RegexError {
    /// Parsing failed.
    Parse(ParseError),
    /// Compilation failed.
    Compile(CompileError),
    /// Matching failed.
    Eval(EvalError),
}

/// Whether `an` is the analysis of the tree `a`, each set cut to its limit.
pub open spec fn analysis_of(an: AstAnalysis, a: crate::engine::ast::AstModel) -> bool {
    &&& strings(an.must_literals@) == prune(analysis(a).must)
    &&& strings(an.needles@) == prune(analysis(a).needles)
    &&& an.nullable == analysis(a).nullable
}

/// Parses, analyzes and compiles a pattern.
pub fn compile_pattern_with_analysis(pattern: &str) -> (r: Result<
    (Vec<Instruction>, AstAnalysis),
    RegexError,
>)
    requires
        pattern@.len() < usize::MAX,
    ensures
        match model_parse(pattern@) {
            Step::Done(a, _p, _c) => match compile_outcome(a) {
                Ok(code) => r matches Ok((v, an)) && program(v@) == code && analysis_of(an, a),
                Err(e) => r == Err::<(Vec<Instruction>, AstAnalysis), RegexError>(
                    RegexError::Compile(e),
                ),
            },
            Step::Fail(e) => r == Err::<(Vec<Instruction>, AstAnalysis), RegexError>(
                RegexError::Parse(e),
            ),
            Step::Overflow => false,
        },
{
    let ast = match parse(pattern) {
        Ok(a) => a,
        Err(e) => return Err(RegexError::Parse(e)),
    };
    let analysis = analyze_ast(&ast);
    let instructions = match compile(&ast) {
        Ok(code) => code,
        Err(e) => return Err(RegexError::Compile(e)),
    };
    Ok((instructions, analysis))
}

/// Parses and compiles a pattern, and gives the substrings every match contains.
pub fn compile_pattern_with_must_literals(pattern: &str) -> (r: Result<
    (Vec<Instruction>, Vec<String>),
    RegexError,
>)
    requires
        pattern@.len() < usize::MAX,
    ensures
        match model_parse(pattern@) {
            Step::Done(a, _p, _c) => match compile_outcome(a) {
                Ok(code) => r matches Ok((v, m)) && program(v@) == code && strings(m@) == prune(
                    analysis(a).must,
                ),
                Err(e) => r == Err::<(Vec<Instruction>, Vec<String>), RegexError>(
                    RegexError::Compile(e),
                ),
            },
            Step::Fail(e) => r == Err::<(Vec<Instruction>, Vec<String>), RegexError>(
                RegexError::Parse(e),
            ),
            Step::Overflow => false,
        },
{
    match compile_pattern_with_analysis(pattern) {
        Ok((instructions, analysis)) => Ok((instructions, analysis.must_literals)),
        Err(e) => Err(e),
    }
}

/// What matching a line promises, over the result of the evaluator.
pub open spec fn line_outcome(code: Seq<Instruction>, line: Seq<char>, r: Result<bool, RegexError>) -> bool {
    match r {
        Ok(b) => eval_outcome(program(code), line, Ok(b)),
        Err(RegexError::Eval(e)) => eval_outcome(program(code), line, Err(e)),
        Err(_) => false,
    }
}

/// An evaluation result as a result of any stage.
pub open spec fn stage_eval(r: Result<bool, EvalError>) -> Result<bool, RegexError> {
    match r {
        Ok(b) => Ok(b),
        Err(e) => Err(RegexError::Eval(e)),
    }
}

/// Matches a program against a line, from every position.
pub fn match_line(code: &[Instruction], line: &str) -> (r: Result<bool, RegexError>)
    ensures
        line_outcome(code@, line@, r),
        max_slot_index(program(code@)) < usize::MAX ==> r == stage_eval(
            starts_answer(program(code@), line@, max_slot_index(program(code@)) + 1, 0),
        ),
{
    match eval(code, line) {
        Ok(b) => Ok(b),
        Err(e) => Err(RegexError::Eval(e)),
    }
}

/// Matches a program against a line from the given starting positions.
pub fn match_line_from_starts(code: &[Instruction], line: &str, starts: &[usize]) -> (r: Result<
    bool,
    RegexError,
>)
    ensures
        ({
            let prog = program(code@);
            let r0 = match r {
                Ok(b) => Ok::<bool, EvalError>(b),
                Err(RegexError::Eval(e)) => Err::<bool, EvalError>(e),
                Err(_) => Err::<bool, EvalError>(EvalError::CharIndexOverFlow),
            };
            &&& !(r matches Err(RegexError::Parse(_))) && !(r matches Err(RegexError::Compile(_)))
            &&& max_slot_index(prog) == usize::MAX ==> r0 == Err::<bool, EvalError>(EvalError::PCOverFlow)
            &&& max_slot_index(prog) < usize::MAX ==> search_listed(
                prog,
                line@,
                max_slot_index(prog) + 1,
                starts@,
                r0,
            )
            &&& max_slot_index(prog) < usize::MAX ==> r == stage_eval(
                listed_answer(prog, line@, max_slot_index(prog) + 1, starts@, 0),
            )
        }),
{
    match eval_from_starts(code, line, starts) {
        Ok(b) => Ok(b),
        Err(e) => Err(RegexError::Eval(e)),
    }
}

} // verus!
