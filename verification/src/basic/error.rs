//! Errors of the basic engine.
use vstd::prelude::*;
use crate::text::{decimal, push_decimal, push_str, string_from_chars};

verus! {

/// An error found while parsing a pattern.
#[derive(Debug, Clone, Copy, PartialEq, Eq, Structural)]
pub enum ParseError {
    /// A `\` followed by a character that cannot be escaped: position and character.
    InvalidEscape(usize, char),
    /// A `)` without a matching `(`: its position.
    InvalidRightParen(usize),
    /// A quantifier with nothing before it: its position.
    NoPrev(usize),
    /// A `(` without a matching `)`.
    NoRightParen,
    /// A pattern with no expression.
    Empty,
}

/// An error found while compiling a tree.
#[derive(Debug, Clone, Copy, PartialEq, Eq, Structural)]
pub enum CompileError {
    /// The program counter would overflow.
    PCOverFlow,
    /// The placeholder of a `*` could not be patched.
    FailStar,
    /// The placeholder of a `?` could not be patched.
    FailQuestion,
    /// A placeholder of a `|` could not be patched.
    FailOr,
}

/// An error found while evaluating a program.
#[derive(Debug, Clone, Copy, PartialEq, Eq, Structural)]
pub enum EvalError {
    /// The program counter would overflow.
    PCOverFlow,
    /// The character index would overflow.
    CharIndexOverFlow,
    /// The program counter names no instruction.
    InvalidPC,
}

/// The errors of parsing, compiling and evaluating together.
#[derive(Debug, Clone, Copy, PartialEq, Eq, Structural)]
pub enum RegexError {
    /// Compiling failed.
    Compile(CompileError),
    /// Evaluating failed.
    Eval(EvalError),
    /// Parsing failed.
    Parse(ParseError),
}

/// The message of a parse error.
pub open spec fn parse_error_text(e: ParseError) -> Seq<char> {
    match e {
        ParseError::InvalidEscape(p, c) => "ParseError: invalid escape : position = "@ + decimal(p as nat)
            + ", character = '"@ + seq![c] + "'"@,
        ParseError::InvalidRightParen(p) => "ParseError: invalid right parenthesis : position = "@
            + decimal(p as nat),
        ParseError::NoPrev(p) => "ParseError: no previous expression : position = "@ + decimal(p as nat),
        ParseError::NoRightParen => "ParseError: No right parenthesis"@,
        ParseError::Empty => "ParseError: empty expression"@,
    }
}

/// The message of a compile error.
pub open spec fn compile_error_text(e: CompileError) -> Seq<char> {
    match e {
        CompileError::PCOverFlow => "CompileError: PCOverFlow"@,
        CompileError::FailStar => "CompileError: FailStar"@,
        CompileError::FailQuestion => "CompileError: FailQuestion"@,
        CompileError::FailOr => "CompileError: FailOr"@,
    }
}

/// The message of an evaluation error.
pub open spec fn eval_error_text(e: EvalError) -> Seq<char> {
    match e {
        EvalError::PCOverFlow => "EvalError: PCOverFlow"@,
        EvalError::CharIndexOverFlow => "EvalError: CharIndexOverFlow"@,
        EvalError::InvalidPC => "EvalError: InvalidPC"@,
    }
}

/// The message of an error of any stage: that of the stage's error.
pub open spec fn regex_error_text(e: RegexError) -> Seq<char> {
    match e {
        RegexError::Compile(x) => compile_error_text(x),
        RegexError::Eval(x) => eval_error_text(x),
        RegexError::Parse(x) => parse_error_text(x),
    }
}

impl ParseError {
    /// The message of the error.
    pub fn to_string(&self) -> (r: String)
        ensures
            r@ == parse_error_text(*self),
    {
        let mut out: Vec<char> = Vec::new();
        match self {
            ParseError::InvalidEscape(pos, c) => {
                push_str(&mut out, "ParseError: invalid escape : position = ");
                push_decimal(&mut out, *pos);
                push_str(&mut out, ", character = '");
                out.push(*c);
                push_str(&mut out, "'");
            },
            ParseError::InvalidRightParen(pos) => {
                push_str(&mut out, "ParseError: invalid right parenthesis : position = ");
                push_decimal(&mut out, *pos);
            },
            ParseError::NoPrev(pos) => {
                push_str(&mut out, "ParseError: no previous expression : position = ");
                push_decimal(&mut out, *pos);
            },
            ParseError::NoRightParen => push_str(&mut out, "ParseError: No right parenthesis"),
            ParseError::Empty => push_str(&mut out, "ParseError: empty expression"),
        }
        assert(out@ =~= parse_error_text(*self));
        string_from_chars(&out)
    }
}

impl CompileError {
    /// The message of the error.
    pub fn to_string(&self) -> (r: String)
        ensures
            r@ == compile_error_text(*self),
    {
        let mut out: Vec<char> = Vec::new();
        match self {
            CompileError::PCOverFlow => push_str(&mut out, "CompileError: PCOverFlow"),
            CompileError::FailStar => push_str(&mut out, "CompileError: FailStar"),
            CompileError::FailQuestion => push_str(&mut out, "CompileError: FailQuestion"),
            CompileError::FailOr => push_str(&mut out, "CompileError: FailOr"),
        }
        assert(out@ =~= compile_error_text(*self));
        string_from_chars(&out)
    }
}

impl EvalError {
    /// The message of the error.
    pub fn to_string(&self) -> (r: String)
        ensures
            r@ == eval_error_text(*self),
    {
        let mut out: Vec<char> = Vec::new();
        match self {
            EvalError::PCOverFlow => push_str(&mut out, "EvalError: PCOverFlow"),
            EvalError::CharIndexOverFlow => push_str(&mut out, "EvalError: CharIndexOverFlow"),
            EvalError::InvalidPC => push_str(&mut out, "EvalError: InvalidPC"),
        }
        assert(out@ =~= eval_error_text(*self));
        string_from_chars(&out)
    }
}

impl RegexError {
    /// The message of the error: that of the stage's error.
    pub fn to_string(&self) -> (r: String)
        ensures
            r@ == regex_error_text(*self),
    {
        match self {
            RegexError::Compile(e) => e.to_string(),
            RegexError::Eval(e) => e.to_string(),
            RegexError::Parse(e) => e.to_string(),
        }
    }
}

} // verus!
