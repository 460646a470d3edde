//! The messages of the errors of the main engine.
use vstd::prelude::*;
use crate::engine::RegexError;
use crate::engine::compiler::{CompileError, CompileV2Error};
use crate::engine::evaluator::{EvalError, EvalV2Error};
use crate::engine::parser::ParseError;
use crate::text::{decimal, push_decimal, push_str, string_from_chars};

verus! {

/// Whether a character is a repetition operator, which needs an expression before it.
pub open spec fn is_repeat_char(c: char) -> bool {
    c == '*' || c == '+' || c == '?' || c == '{'
}

/// The message of a parse error. A repetition operator met where an expression should
/// start is reported as having no previous expression; an unclosed group as having no
/// right parenthesis.
pub open spec fn parse_error_text(e: ParseError) -> Seq<char> {
    match e {
        ParseError::UnexpectedEnd => "unexpected end of input"@,
        ParseError::UnexpectedChar(c) => if is_repeat_char(c) {
            "no previous expression: unexpected character: "@ + seq![c]
        } else {
            "unexpected character: "@ + seq![c]
        },
        ParseError::InvalidRepeatOp => "invalid repeat operator"@,
        ParseError::InvalidRepeatSize => "invalid repeat size"@,
        ParseError::MissingBracket => "missing closing bracket ']'"@,
        ParseError::MissingParenthesis => "no right parenthesis: missing closing parenthesis ')'"@,
        ParseError::TrailingBackslash => "trailing backslash"@,
        ParseError::InvalidCharClass => "invalid character class"@,
        ParseError::MissingRepeatArgument => "missing repeat argument"@,
    }
}

/// The message of a compile error.
pub open spec fn compile_error_text(e: CompileError) -> Seq<char> {
    match e {
        CompileError::PCOverFlow => "CompileError: PCOverFlow"@,
        CompileError::InvalidBackreference(i) => "CompileError: InvalidBackreference("@ + decimal(i as nat)
            + ")"@,
    }
}

/// The message of an error of `compile_v2`.
pub open spec fn compile_v2_error_text(e: CompileV2Error) -> Seq<char> {
    match e {
        CompileV2Error::PCOverFlow => "CompileV2Error: PCOverFlow"@,
        CompileV2Error::InvalidBackreference(i) => "CompileV2Error: InvalidBackreference("@ + decimal(
            i as nat,
        ) + ")"@,
    }
}

/// The message of an evaluation error.
pub open spec fn eval_error_text(e: EvalError) -> Seq<char> {
    match e {
        EvalError::PCOverFlow => "EvalError: PCOverFlow"@,
        EvalError::CharIndexOverFlow => "EvalError: CharIndexOverFlow"@,
        EvalError::InvalidPC => "EvalError: InvalidPC"@,
    }
}

/// The message of an error of `eval_v2`.
pub open spec fn eval_v2_error_text(e: EvalV2Error) -> Seq<char> {
    match e {
        EvalV2Error::PCOverFlow => "EvalV2Error: PCOverFlow"@,
        EvalV2Error::CharIndexOverFlow => "EvalV2Error: CharIndexOverFlow"@,
        EvalV2Error::InvalidPC => "EvalV2Error: InvalidPC"@,
    }
}

/// The message of an error of any stage: that of the stage's error.
pub open spec fn regex_error_text(e: RegexError) -> Seq<char> {
    match e {
        RegexError::Parse(x) => parse_error_text(x),
        RegexError::Compile(x) => compile_error_text(x),
        RegexError::Eval(x) => eval_error_text(x),
    }
}

impl ParseError {
    /// The message of the error.
    pub fn to_string(&self) -> (r: String)
        ensures
            r@ == parse_error_text(*self),
    {
        let mut out: Vec<char> = Vec::new();
        match self {
            ParseError::UnexpectedEnd => push_str(&mut out, "unexpected end of input"),
            ParseError::UnexpectedChar(c) => {
                let c: char = *c;
                if c == '*' || c == '+' || c == '?' || c == '{' {
                    push_str(&mut out, "no previous expression: unexpected character: ");
                } else {
                    push_str(&mut out, "unexpected character: ");
                }
                out.push(c);
            },
            ParseError::InvalidRepeatOp => push_str(&mut out, "invalid repeat operator"),
            ParseError::InvalidRepeatSize => push_str(&mut out, "invalid repeat size"),
            ParseError::MissingBracket => push_str(&mut out, "missing closing bracket ']'"),
            ParseError::MissingParenthesis => push_str(
                &mut out,
                "no right parenthesis: missing closing parenthesis ')'",
            ),
            ParseError::TrailingBackslash => push_str(&mut out, "trailing backslash"),
            ParseError::InvalidCharClass => push_str(&mut out, "invalid character class"),
            ParseError::MissingRepeatArgument => push_str(&mut out, "missing repeat argument"),
        }
        assert(out@ =~= parse_error_text(*self));
        string_from_chars(&out)
    }
}

impl CompileError {
    /// The message of the error.
    pub fn to_string(&self) -> (r: String)
        ensures
            r@ == compile_error_text(*self),
    {
        let mut out: Vec<char> = Vec::new();
        match self {
            CompileError::PCOverFlow => push_str(&mut out, "CompileError: PCOverFlow"),
            CompileError::InvalidBackreference(i) => {
                push_str(&mut out, "CompileError: InvalidBackreference(");
                push_decimal(&mut out, *i);
                push_str(&mut out, ")");
            },
        }
        assert(out@ =~= compile_error_text(*self));
        string_from_chars(&out)
    }
}

impl CompileV2Error {
    /// The message of the error.
    pub fn to_string(&self) -> (r: String)
        ensures
            r@ == compile_v2_error_text(*self),
    {
        let mut out: Vec<char> = Vec::new();
        match self {
            CompileV2Error::PCOverFlow => push_str(&mut out, "CompileV2Error: PCOverFlow"),
            CompileV2Error::InvalidBackreference(i) => {
                push_str(&mut out, "CompileV2Error: InvalidBackreference(");
                push_decimal(&mut out, *i);
                push_str(&mut out, ")");
            },
        }
        assert(out@ =~= compile_v2_error_text(*self));
        string_from_chars(&out)
    }
}

impl EvalError {
    /// The message of the error.
    pub fn to_string(&self) -> (r: String)
        ensures
            r@ == eval_error_text(*self),
    {
        let mut out: Vec<char> = Vec::new();
        match self {
            EvalError::PCOverFlow => push_str(&mut out, "EvalError: PCOverFlow"),
            EvalError::CharIndexOverFlow => push_str(&mut out, "EvalError: CharIndexOverFlow"),
            EvalError::InvalidPC => push_str(&mut out, "EvalError: InvalidPC"),
        }
        assert(out@ =~= eval_error_text(*self));
        string_from_chars(&out)
    }
}

impl EvalV2Error {
    /// The message of the error.
    pub fn to_string(&self) -> (r: String)
        ensures
            r@ == eval_v2_error_text(*self),
    {
        let mut out: Vec<char> = Vec::new();
        match self {
            EvalV2Error::PCOverFlow => push_str(&mut out, "EvalV2Error: PCOverFlow"),
            EvalV2Error::CharIndexOverFlow => push_str(&mut out, "EvalV2Error: CharIndexOverFlow"),
            EvalV2Error::InvalidPC => push_str(&mut out, "EvalV2Error: InvalidPC"),
        }
        assert(out@ =~= eval_v2_error_text(*self));
        string_from_chars(&out)
    }
}

impl RegexError {
    /// The message of the error: that of the stage's error.
    pub fn to_string(&self) -> (r: String)
        ensures
            r@ == regex_error_text(*self),
    {
        match self {
            RegexError::Parse(e) => e.to_string(),
            RegexError::Compile(e) => e.to_string(),
            RegexError::Eval(e) => e.to_string(),
        }
    }
}


/// An unclosed group is reported as having no right parenthesis, and a repetition
/// operator with nothing before it as having no previous expression: the messages begin
/// with these words.
pub proof fn law_parse_messages_name_the_cause(c: char)
    ensures
        "no right parenthesis"@.is_prefix_of(parse_error_text(ParseError::MissingParenthesis)),
        is_repeat_char(c) ==> "no previous expression"@.is_prefix_of(
            parse_error_text(ParseError::UnexpectedChar(c)),
        ),
{
    reveal_strlit("no right parenthesis");
    reveal_strlit("no right parenthesis: missing closing parenthesis ')'");
    reveal_strlit("no previous expression");
    reveal_strlit("no previous expression: unexpected character: ");
    let long = "no previous expression: unexpected character: "@ + seq![c];
    assert("no previous expression"@ =~= long.subrange(0, 22));
    assert("no right parenthesis"@ =~= "no right parenthesis: missing closing parenthesis ')'"@.subrange(
        0,
        20,
    ));
}

} // verus!
