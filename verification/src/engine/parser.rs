//! Recursive-descent parser from pattern text to syntax tree.
//!
//! The grammar is given by the `model_*` spec functions below, which read a
//! character sequence from a position and give back the parsed value, the next
//! position and the next capture index.
use vstd::prelude::*;
use crate::engine::ast::{Ast, AstModel, CharClass, CharRange, ClassModel, Predicate, literal_class, views, lemma_concat_view};

verus! {

/// Errors that can occur while parsing a pattern.
#[derive(Debug, Clone, Copy, PartialEq, Eq, Structural)]
pub enum ParseError {
    /// Input ended while more was expected.
    UnexpectedEnd,
    /// An unexpected character in the current context.
    UnexpectedChar(char),
    /// Invalid repetition operator.
    InvalidRepeatOp,
    /// Invalid numeric range in a repetition.
    InvalidRepeatSize,
    /// Missing closing `]`.
    MissingBracket,
    /// Missing closing `)`.
    MissingParenthesis,
    /// Trailing `\` at the end of the pattern.
    TrailingBackslash,
    /// Invalid character class (a reversed range).
    InvalidCharClass,
    /// Missing number in a repetition.
    MissingRepeatArgument,
}

/// Outcome of one grammar rule: a value with the next position and capture
/// index, a parse error, or an arithmetic overflow of a decimal number (on
/// which the parser does not return).
pub enum Step<T> {
    Done(T, int, int),
    Fail(ParseError),
    Overflow,
}

pub open spec fn peek_at(s: Seq<char>, p: int) -> Option<char> {
    if 0 <= p < s.len() {
        Some(s[p])
    } else {
        None
    }
}

pub open spec fn is_special(c: char) -> bool {
    c == '*' || c == '+' || c == '?' || c == '|' || c == '(' || c == ')' || c == '[' || c == ']'
        || c == '{' || c == '}' || c == '\\' || c == '.' || c == '^' || c == '$'
}

pub open spec fn is_digit(c: char) -> bool {
    '0' <= c && c <= '9'
}

pub open spec fn digit_value(c: char) -> int {
    c as int - '0' as int
}

/// The class matched by `.`: every character.
pub open spec fn any_class() -> ClassModel {
    ClassModel { ranges: seq![CharRange { start: '\u{0}', end: '\u{10FFFF}' }], negated: false }
}

/// Digits from `p` on, appended to the value `v`; `has` tells whether a digit
/// was already read.
pub open spec fn model_number_from(s: Seq<char>, p: int, c: int, v: int, has: bool) -> Step<u32>
    decreases s.len() - p,
{
    match peek_at(s, p) {
        Some(ch) => if is_digit(ch) {
            let v2 = v * 10 + digit_value(ch);
            if v2 > u32::MAX {
                Step::Fail(ParseError::InvalidRepeatSize)
            } else {
                model_number_from(s, p + 1, c, v2, true)
            }
        } else if has {
            Step::Done(v as u32, p, c)
        } else {
            Step::Fail(ParseError::MissingRepeatArgument)
        },
        None => if has {
            Step::Done(v as u32, p, c)
        } else {
            Step::Fail(ParseError::MissingRepeatArgument)
        },
    }
}

/// A decimal repetition count.
pub open spec fn model_number(s: Seq<char>, p: int, c: int) -> Step<u32> {
    model_number_from(s, p, c, 0, false)
}

/// Repetition bounds after `{`: `m}`, `m,}` or `m,n}`.
pub open spec fn model_repeat(s: Seq<char>, p: int, c: int) -> Step<(u32, Option<u32>)> {
    match model_number(s, p, c) {
        Step::Done(min, p1, c1) => if peek_at(s, p1) == Some('}') {
            Step::Done((min, Some(min)), p1 + 1, c1)
        } else if peek_at(s, p1) == Some(',') {
            if peek_at(s, p1 + 1) == Some('}') {
                Step::Done((min, None), p1 + 2, c1)
            } else {
                match model_number(s, p1 + 1, c1) {
                    Step::Done(max, p2, c2) => if peek_at(s, p2) != Some('}') {
                        Step::Fail(ParseError::InvalidRepeatOp)
                    } else if max < min {
                        Step::Fail(ParseError::InvalidRepeatSize)
                    } else {
                        Step::Done((min, Some(max)), p2 + 1, c2)
                    },
                    Step::Fail(e) => Step::Fail(e),
                    Step::Overflow => Step::Overflow,
                }
            }
        } else {
            Step::Fail(ParseError::InvalidRepeatOp)
        },
        Step::Fail(e) => Step::Fail(e),
        Step::Overflow => Step::Overflow,
    }
}

/// One atom inside a class: a character, or an escaped character.
pub open spec fn model_class_atom(s: Seq<char>, p: int, c: int) -> Step<char> {
    match peek_at(s, p) {
        None => Step::Fail(ParseError::MissingBracket),
        Some(ch) => if ch != '\\' {
            Step::Done(ch, p + 1, c)
        } else {
            match peek_at(s, p + 1) {
                None => Step::Fail(ParseError::TrailingBackslash),
                Some(esc) => Step::Done(esc, p + 2, c),
            }
        },
    }
}

/// Ranges of a class body, appended to `ranges`, up to (not past) `]` or the end.
pub open spec fn model_class_items(s: Seq<char>, p: int, c: int, ranges: Seq<CharRange>) -> Step<
    Seq<CharRange>,
>
    decreases s.len() - p,
{
    match peek_at(s, p) {
        None => Step::Done(ranges, p, c),
        Some(ch) => if ch == ']' {
            Step::Done(ranges, p, c)
        } else {
            match model_class_atom(s, p, c) {
                Step::Done(start, p1, _c1) => if peek_at(s, p1) == Some('-') {
                    match peek_at(s, p1 + 1) {
                        None => Step::Fail(ParseError::MissingBracket),
                        Some(end) => if end == ']' {
                            model_class_items(
                                s,
                                p1 + 1,
                                c,
                                ranges.push(CharRange { start, end: start }).push(
                                    CharRange { start: '-', end: '-' },
                                ),
                            )
                        } else {
                            match model_class_atom(s, p1 + 1, c) {
                                Step::Done(e, p2, _c2) => if e < start {
                                    Step::Fail(ParseError::InvalidCharClass)
                                } else {
                                    model_class_items(
                                        s,
                                        p2,
                                        c,
                                        ranges.push(CharRange { start, end: e }),
                                    )
                                },
                                Step::Fail(x) => Step::Fail(x),
                                Step::Overflow => Step::Overflow,
                            }
                        },
                    }
                } else {
                    model_class_items(s, p1, c, ranges.push(CharRange { start, end: start }))
                },
                Step::Fail(x) => Step::Fail(x),
                Step::Overflow => Step::Overflow,
            }
        },
    }
}

/// A class body after `[`, through the closing `]`.
pub open spec fn model_char_class(s: Seq<char>, p: int, c: int) -> Step<AstModel> {
    let negated = peek_at(s, p) == Some('^');
    let p0 = if negated {
        p + 1
    } else {
        p
    };
    let leading_bracket = peek_at(s, p0) == Some(']');
    let init = if leading_bracket {
        seq![CharRange { start: ']', end: ']' }]
    } else {
        Seq::empty()
    };
    let p1 = if leading_bracket {
        p0 + 1
    } else {
        p0
    };
    match model_class_items(s, p1, c, init) {
        Step::Done(ranges, p2, c2) => if peek_at(s, p2) == Some(']') {
            Step::Done(AstModel::Class(ClassModel { ranges, negated }), p2 + 1, c2)
        } else {
            Step::Fail(ParseError::MissingBracket)
        },
        Step::Fail(x) => Step::Fail(x),
        Step::Overflow => Step::Overflow,
    }
}

/// Further digits of a backreference number.
pub open spec fn model_backref_digits(s: Seq<char>, p: int, c: int, v: int) -> Step<u32>
    decreases s.len() - p,
{
    match peek_at(s, p) {
        Some(d) => if is_digit(d) {
            let v2 = v * 10 + digit_value(d);
            if v2 > u32::MAX {
                Step::Fail(ParseError::InvalidRepeatSize)
            } else {
                model_backref_digits(s, p + 1, c, v2)
            }
        } else {
            Step::Done(v as u32, p, c)
        },
        None => Step::Done(v as u32, p, c),
    }
}

/// An escape sequence after `\`: a backreference `\1`.. or an escaped literal.
pub open spec fn model_escape(s: Seq<char>, p: int, c: int) -> Step<AstModel> {
    match peek_at(s, p) {
        None => Step::Fail(ParseError::TrailingBackslash),
        Some(ch) => if '1' <= ch && ch <= '9' {
            match model_backref_digits(s, p + 1, c, digit_value(ch)) {
                Step::Done(num, p2, c2) => Step::Done(AstModel::Backreference(num as usize), p2, c2),
                Step::Fail(x) => Step::Fail(x),
                Step::Overflow => Step::Overflow,
            }
        } else {
            Step::Done(AstModel::Class(literal_class(ch)), p + 1, c)
        },
    }
}

/// An optional quantifier after a factor.
pub open spec fn model_quantify(s: Seq<char>, base: AstModel, p: int, c: int) -> Step<AstModel> {
    match peek_at(s, p) {
        Some(q) => if q == '*' || q == '+' || q == '?' {
            if peek_at(s, p + 1) == Some('?') {
                Step::Fail(ParseError::InvalidRepeatOp)
            } else if q == '*' {
                Step::Done(AstModel::ZeroOrMore(Box::new(base), true), p + 1, c)
            } else if q == '+' {
                Step::Done(AstModel::OneOrMore(Box::new(base), true), p + 1, c)
            } else {
                Step::Done(AstModel::ZeroOrOne(Box::new(base), true), p + 1, c)
            }
        } else if q == '{' {
            match model_repeat(s, p + 1, c) {
                Step::Done(bounds, p2, c2) => if peek_at(s, p2) == Some('?') {
                    Step::Fail(ParseError::InvalidRepeatOp)
                } else {
                    Step::Done(AstModel::Repeat(Box::new(base), true, bounds.0, bounds.1), p2, c2)
                },
                Step::Fail(x) => Step::Fail(x),
                Step::Overflow => Step::Overflow,
            }
        } else {
            Step::Done(base, p, c)
        },
        None => Step::Done(base, p, c),
    }
}

/// A group, class, dot, anchor, escape or literal.
pub open spec fn model_factor(s: Seq<char>, p: int, c: int) -> Step<AstModel>
    decreases s.len() - p, 0int,
{
    match peek_at(s, p) {
        None => Step::Fail(ParseError::UnexpectedEnd),
        Some(ch) => if ch == '(' {
            if peek_at(s, p + 1) == Some('?') {
                Step::Fail(ParseError::UnexpectedChar('?'))
            } else {
                match model_expr(s, p + 1, c + 1) {
                    Step::Done(e, p2, c2) => if peek_at(s, p2) == Some(')') {
                        Step::Done(AstModel::Capture(Box::new(e), c as usize), p2 + 1, c2)
                    } else {
                        Step::Fail(ParseError::MissingParenthesis)
                    },
                    Step::Fail(x) => Step::Fail(x),
                    Step::Overflow => Step::Overflow,
                }
            }
        } else if ch == '[' {
            model_char_class(s, p + 1, c)
        } else if ch == '.' {
            Step::Done(AstModel::Class(any_class()), p + 1, c)
        } else if ch == '^' {
            Step::Done(AstModel::Assertion(Predicate::StartOfLine), p + 1, c)
        } else if ch == '$' {
            Step::Done(AstModel::Assertion(Predicate::EndOfLine), p + 1, c)
        } else if ch == '\\' {
            model_escape(s, p + 1, c)
        } else if is_special(ch) {
            Step::Fail(ParseError::UnexpectedChar(ch))
        } else {
            Step::Done(AstModel::Class(literal_class(ch)), p + 1, c)
        },
    }
}

/// A factor with its optional quantifier.
pub open spec fn model_term(s: Seq<char>, p: int, c: int) -> Step<AstModel>
    decreases s.len() - p, 1int,
{
    match model_factor(s, p, c) {
        Step::Done(base, p1, c1) => model_quantify(s, base, p1, c1),
        Step::Fail(x) => Step::Fail(x),
        Step::Overflow => Step::Overflow,
    }
}

/// Terms appended to `items` until `|`, `)` or the end.
pub open spec fn model_seq_loop(s: Seq<char>, p: int, c: int, items: Seq<AstModel>) -> Step<
    Seq<AstModel>,
>
    decreases s.len() - p, 2int,
{
    match peek_at(s, p) {
        None => Step::Done(items, p, c),
        Some(ch) => if ch == '|' || ch == ')' {
            Step::Done(items, p, c)
        } else {
            match model_term(s, p, c) {
                Step::Done(t, p1, c1) => if p1 <= p || p1 > s.len() {
                    Step::Overflow
                } else {
                    model_seq_loop(s, p1, c1, items.push(t))
                },
                Step::Fail(x) => Step::Fail(x),
                Step::Overflow => Step::Overflow,
            }
        },
    }
}

/// The tree of a sequence of terms.
pub open spec fn seq_tree(items: Seq<AstModel>) -> AstModel {
    if items.len() == 0 {
        AstModel::Empty
    } else if items.len() == 1 {
        items[0]
    } else {
        AstModel::Concat(items)
    }
}

/// A sequence of terms.
pub open spec fn model_seq(s: Seq<char>, p: int, c: int) -> Step<AstModel>
    decreases s.len() - p, 3int,
{
    match model_seq_loop(s, p, c, Seq::empty()) {
        Step::Done(items, p1, c1) => Step::Done(seq_tree(items), p1, c1),
        Step::Fail(x) => Step::Fail(x),
        Step::Overflow => Step::Overflow,
    }
}

/// Further alternatives `| seq` after `left`.
pub open spec fn model_expr_rest(s: Seq<char>, left: AstModel, p: int, c: int) -> Step<AstModel>
    decreases s.len() - p, 4int,
{
    if peek_at(s, p) == Some('|') {
        match model_seq(s, p + 1, c) {
            Step::Done(right, p2, c2) => if p2 <= p || p2 > s.len() {
                Step::Overflow
            } else {
                model_expr_rest(s, AstModel::Alternate(Box::new(left), Box::new(right)), p2, c2)
            },
            Step::Fail(x) => Step::Fail(x),
            Step::Overflow => Step::Overflow,
        }
    } else {
        Step::Done(left, p, c)
    }
}

/// An alternation `seq ('|' seq)*`.
pub open spec fn model_expr(s: Seq<char>, p: int, c: int) -> Step<AstModel>
    decreases s.len() - p, 5int,
{
    match model_seq(s, p, c) {
        Step::Done(left, p1, c1) => if p1 < p || p1 > s.len() {
            Step::Overflow
        } else {
            model_expr_rest(s, left, p1, c1)
        },
        Step::Fail(x) => Step::Fail(x),
        Step::Overflow => Step::Overflow,
    }
}

/// A whole pattern: an expression that must reach the end of the text.
pub open spec fn model_parse(s: Seq<char>) -> Step<AstModel> {
    match model_expr(s, 0, 1) {
        Step::Done(a, p, c) => if p < s.len() {
            Step::Fail(ParseError::UnexpectedChar(s[p]))
        } else {
            Step::Done(a, p, c)
        },
        Step::Fail(x) => Step::Fail(x),
        Step::Overflow => Step::Overflow,
    }
}


/// Parser state: the pattern's characters, the cursor, and the next capture index.
pub struct Parser {
    input: Vec<char>,
    pos: usize,
    captures: usize,
    /// Set when a decimal number does not fit its type.
    overflowed: bool,
}

/// Whether a parser result agrees with a model outcome (value and final state).
pub open spec fn agrees_ast(
    r: Result<Ast, ParseError>,
    pos: usize,
    captures: usize,
    m: Step<AstModel>,
) -> bool {
    match m {
        Step::Done(a, p, c) => r matches Ok(x) && x@ == a && pos == p && captures == c,
        Step::Fail(e) => r == Err::<Ast, ParseError>(e),
        Step::Overflow => r is Err,
    }
}

impl Parser {
    /// The cursor lies in the text, the capture index is at most one past it,
    /// and the text's length leaves room to count past its end.
    pub closed spec fn wf(&self) -> bool {
        &&& self.pos <= self.input@.len()
        &&& self.captures <= self.pos + 1
        &&& self.input@.len() < usize::MAX
    }

    /// The pattern's characters.
    pub closed spec fn text(&self) -> Seq<char> {
        self.input@
    }

    /// The cursor.
    pub closed spec fn cursor(&self) -> int {
        self.pos as int
    }

    /// The index the next capture group gets.
    pub closed spec fn next_capture(&self) -> int {
        self.captures as int
    }

    /// Whether a decimal number did not fit its type.
    pub closed spec fn number_overflowed(&self) -> bool {
        self.overflowed
    }

    /// Creates a parser for a pattern string.
    pub fn new(regex: &str) -> (r: Self)
        requires
            regex@.len() < usize::MAX,
        ensures
            r.text() == regex@,
            r.cursor() == 0,
            r.next_capture() == 1,
            r.wf(),
            !r.number_overflowed(),
    {
        Parser { input: crate::text::chars_of(regex), pos: 0, captures: 1, overflowed: false }
    }

    /// The current character, without consuming it.
    fn peek(&self) -> (r: Option<char>)
        ensures
            r == peek_at(self.input@, self.pos as int),
    {
        if self.pos < self.input.len() {
            Some(self.input[self.pos])
        } else {
            None
        }
    }

    /// Consumes and returns the current character.
    fn next(&mut self) -> (r: Option<char>)
        requires
            old(self).wf(),
        ensures
            r == peek_at(old(self).input@, old(self).pos as int),
            final(self).input@ == old(self).input@,
            final(self).captures == old(self).captures,
            final(self).pos == (if r is Some {
                old(self).pos + 1
            } else {
                old(self).pos as int
            }),
            final(self).wf(),
            final(self).overflowed == old(self).overflowed,
    {
        let ch = self.peek();
        if ch.is_some() {
            self.pos = self.pos + 1;
        }
        ch
    }

    /// Consumes `expected` if it is the current character.
    fn consume_if(&mut self, expected: char) -> (r: bool)
        requires
            old(self).wf(),
        ensures
            r == (peek_at(old(self).input@, old(self).pos as int) == Some(expected)),
            final(self).input@ == old(self).input@,
            final(self).captures == old(self).captures,
            final(self).pos == (if r {
                old(self).pos + 1
            } else {
                old(self).pos as int
            }),
            final(self).wf(),
            final(self).overflowed == old(self).overflowed,
    {
        if self.peek() == Some(expected) {
            self.pos = self.pos + 1;
            true
        } else {
            false
        }
    }

    /// Whether `c` has a special meaning in the grammar.
    fn is_special_char(c: char) -> (r: bool)
        ensures
            r == is_special(c),
    {
        c == '*' || c == '+' || c == '?' || c == '|' || c == '(' || c == ')' || c == '['
            || c == ']' || c == '{' || c == '}' || c == '\\' || c == '.' || c == '^' || c == '$'
    }

    /// Parses a decimal repetition count.
    #[verifier::loop_isolation(false)]
    fn parse_number(&mut self) -> (r: Result<u32, ParseError>)
        requires
            old(self).wf(),
            !old(self).overflowed,
        ensures
            final(self).input@ == old(self).input@,
            final(self).captures == old(self).captures,
            final(self).wf(),
            !(model_number(old(self).input@, old(self).pos as int, old(self).captures as int) is Overflow),
            final(self).overflowed == old(self).overflowed,
            final(self).pos >= old(self).pos,
            match model_number(old(self).input@, old(self).pos as int, old(self).captures as int) {
                Step::Done(v, p, c) => r == Ok::<u32, ParseError>(v) && final(self).pos == p
                    && c == old(self).captures,
                Step::Fail(e) => r == Err::<u32, ParseError>(e),
                Step::Overflow => r is Err,
            },
    {
        let ghost s = self.input@;
        let ghost c = self.captures as int;
        let ghost start = self.pos;
        let mut value: u32 = 0;
        let mut has_digits = false;
        loop
            invariant
                self.wf(),
                self.input@ == s,
                self.captures == c,
                self.pos >= start,
                model_number_from(s, self.pos as int, c, value as int, has_digits)
                    == model_number(s, start as int, c),
                !self.overflowed,
            decreases self.input@.len() - self.pos,
        {
            match self.peek() {
                Some(ch) => {
                    if '0' <= ch && ch <= '9' {
                        has_digits = true;
                        self.next();
                        let digit = ch as u32 - '0' as u32;
                        match value.checked_mul(10) {
                            Some(tens) => match tens.checked_add(digit) {
                                Some(v) => value = v,
                                None => {
                                    return Err(ParseError::InvalidRepeatSize);
                                },
                            },
                            None => {
                                return Err(ParseError::InvalidRepeatSize);
                            },
                        }
                    } else {
                        break ;
                    }
                },
                None => break ,
            }
        }
        if has_digits {
            Ok(value)
        } else {
            Err(ParseError::MissingRepeatArgument)
        }
    }

    /// Parses repetition bounds after `{`.
    fn parse_repeat(&mut self) -> (r: Result<(u32, Option<u32>), ParseError>)
        requires
            old(self).wf(),
            !old(self).overflowed,
        ensures
            final(self).input@ == old(self).input@,
            final(self).captures == old(self).captures,
            final(self).wf(),
            !(model_repeat(old(self).input@, old(self).pos as int, old(self).captures as int) is Overflow),
            final(self).overflowed == old(self).overflowed,
            final(self).pos >= old(self).pos,
            match model_repeat(old(self).input@, old(self).pos as int, old(self).captures as int) {
                Step::Done(v, p, c) => r == Ok::<(u32, Option<u32>), ParseError>(v)
                    && final(self).pos == p && c == old(self).captures,
                Step::Fail(e) => r == Err::<(u32, Option<u32>), ParseError>(e),
                Step::Overflow => r is Err,
            },
    {
        let min = match self.parse_number() {
            Ok(v) => v,
            Err(e) => return Err(e),
        };
        match self.peek() {
            Some('}') => {
                self.next();
                Ok((min, Some(min)))
            },
            Some(',') => {
                self.next();
                match self.peek() {
                    Some('}') => {
                        self.next();
                        Ok((min, None))
                    },
                    _ => {
                        let max = match self.parse_number() {
                            Ok(v) => v,
                            Err(e) => return Err(e),
                        };
                        if !self.consume_if('}') {
                            return Err(ParseError::InvalidRepeatOp);
                        }
                        if max < min {
                            return Err(ParseError::InvalidRepeatSize);
                        }
                        Ok((min, Some(max)))
                    },
                }
            },
            _ => Err(ParseError::InvalidRepeatOp),
        }
    }

    /// Parses one atom inside a class, including an escaped character.
    fn parse_class_atom(&mut self) -> (r: Result<char, ParseError>)
        requires
            old(self).wf(),
        ensures
            final(self).input@ == old(self).input@,
            final(self).captures == old(self).captures,
            final(self).wf(),
            final(self).overflowed == old(self).overflowed,
            final(self).pos >= old(self).pos,
            match model_class_atom(old(self).input@, old(self).pos as int, old(self).captures as int) {
                Step::Done(v, p, c) => r == Ok::<char, ParseError>(v) && final(self).pos == p
                    && c == old(self).captures,
                Step::Fail(e) => r == Err::<char, ParseError>(e),
                Step::Overflow => false,
            },
    {
        let ch = match self.next() {
            Some(ch) => ch,
            None => return Err(ParseError::MissingBracket),
        };
        if ch != '\\' {
            return Ok(ch);
        }
        match self.next() {
            Some(esc) => Ok(esc),
            None => Err(ParseError::TrailingBackslash),
        }
    }

    /// Parses a class body after `[`.
    #[verifier::loop_isolation(false)]
    fn parse_char_class(&mut self) -> (r: Result<Ast, ParseError>)
        requires
            old(self).wf(),
        ensures
            final(self).input@ == old(self).input@,
            final(self).wf(),
            !(model_char_class(old(self).input@, old(self).pos as int, old(self).captures as int) is Overflow),
            final(self).overflowed == old(self).overflowed,
            r is Ok ==> final(self).pos >= old(self).pos,
            agrees_ast(
                r,
                final(self).pos,
                final(self).captures,
                model_char_class(old(self).input@, old(self).pos as int, old(self).captures as int),
            ),
    {
        let ghost s = self.input@;
        let ghost c = self.captures as int;
        let ghost start = self.pos as int;
        let negated = self.consume_if('^');
        let mut ranges: Vec<CharRange> = Vec::new();
        if self.peek() == Some(']') {
            self.next();
            ranges.push(CharRange { start: ']', end: ']' });
        }
        assert(ranges@ == (if peek_at(s, if negated { start + 1 } else { start }) == Some(']') {
            seq![CharRange { start: ']', end: ']' }]
        } else {
            Seq::<CharRange>::empty()
        }));
        let ghost p1 = self.pos as int;
        let ghost init = ranges@;
        loop
            invariant
                self.wf(),
                self.input@ == s,
                self.captures == c,
                self.pos >= p1,
                self.overflowed == old(self).overflowed,
                model_class_items(s, self.pos as int, c, ranges@) == model_class_items(s, p1, c, init),
            decreases self.input@.len() - self.pos,
        {
            match self.peek() {
                None => break ,
                Some(ch) => {
                    if ch == ']' {
                        break ;
                    }
                },
            }
            let start_ch = match self.parse_class_atom() {
                Ok(v) => v,
                Err(e) => return Err(e),
            };
            if self.consume_if('-') {
                match self.peek() {
                    Some(end) => {
                        if end == ']' {
                            ranges.push(CharRange { start: start_ch, end: start_ch });
                            ranges.push(CharRange { start: '-', end: '-' });
                        } else {
                            let end = match self.parse_class_atom() {
                                Ok(v) => v,
                                Err(e) => return Err(e),
                            };
                            if end < start_ch {
                                return Err(ParseError::InvalidCharClass);
                            }
                            ranges.push(CharRange { start: start_ch, end });
                        }
                    },
                    None => return Err(ParseError::MissingBracket),
                }
            } else {
                ranges.push(CharRange { start: start_ch, end: start_ch });
            }
        }
        if !self.consume_if(']') {
            return Err(ParseError::MissingBracket);
        }
        let class = CharClass::new(ranges, negated);
        Ok(Ast::CharClass(class))
    }

    /// Parses an escape sequence after `\`.
    #[verifier::loop_isolation(false)]
    fn parse_escape(&mut self) -> (r: Result<Ast, ParseError>)
        requires
            old(self).wf(),
            !old(self).overflowed,
        ensures
            final(self).input@ == old(self).input@,
            final(self).wf(),
            !(model_escape(old(self).input@, old(self).pos as int, old(self).captures as int) is Overflow),
            final(self).overflowed == old(self).overflowed,
            r is Ok ==> final(self).pos >= old(self).pos,
            agrees_ast(
                r,
                final(self).pos,
                final(self).captures,
                model_escape(old(self).input@, old(self).pos as int, old(self).captures as int),
            ),
    {
        let ghost s = self.input@;
        let ghost c = self.captures as int;
        let ch = match self.next() {
            Some(ch) => ch,
            None => return Err(ParseError::TrailingBackslash),
        };
        if '1' <= ch && ch <= '9' {
            let ghost p1 = self.pos as int;
            let mut num: u32 = ch as u32 - '0' as u32;
            loop
                invariant
                    self.wf(),
                    self.input@ == s,
                    self.captures == c,
                    self.pos >= p1,
                    model_backref_digits(s, self.pos as int, c, num as int)
                        == model_backref_digits(s, p1, c, digit_value(ch)),
                    !self.overflowed,
                decreases self.input@.len() - self.pos,
            {
                match self.peek() {
                    Some(d) => {
                        if '0' <= d && d <= '9' {
                            self.next();
                            let digit = d as u32 - '0' as u32;
                            match num.checked_mul(10) {
                                Some(tens) => match tens.checked_add(digit) {
                                    Some(v) => num = v,
                                    None => {
                                            return Err(ParseError::InvalidRepeatSize);
                                    },
                                },
                                None => {
                                    return Err(ParseError::InvalidRepeatSize);
                                },
                            }
                        } else {
                            break ;
                        }
                    },
                    None => break ,
                }
            }
            Ok(Ast::Backreference(num as usize))
        } else {
            Ok(single_char_class(ch))
        }
    }

    /// Parses a group, class, dot, anchor, escape or literal.
    pub fn parse_factor(&mut self) -> (r: Result<Ast, ParseError>)
        requires
            old(self).wf(),
            !old(self).number_overflowed(),
        ensures
            final(self).text() == old(self).text(),
            final(self).wf(),
            !(model_factor(old(self).text(), old(self).cursor(), old(self).next_capture()) is Overflow),
            final(self).number_overflowed() == old(self).number_overflowed(),
            r is Ok ==> final(self).cursor() > old(self).cursor(),
            agrees_ast(
                r,
                final(self).cursor() as usize,
                final(self).next_capture() as usize,
                model_factor(old(self).text(), old(self).cursor(), old(self).next_capture()),
            ),
        decreases old(self).text().len() - old(self).cursor(), 0int,
    {
        match self.peek() {
            Some('(') => {
                self.next();
                if self.consume_if('?') {
                    return Err(ParseError::UnexpectedChar('?'));
                }
                let capture_index = self.captures;
                self.captures = self.captures + 1;
                let expr = match self.parse_expression() {
                    Ok(e) => e,
                    Err(e) => return Err(e),
                };
                if !self.consume_if(')') {
                    return Err(ParseError::MissingParenthesis);
                }
                Ok(Ast::Capture { expr: Box::new(expr), index: capture_index })
            },
            Some('[') => {
                self.next();
                self.parse_char_class()
            },
            Some('.') => {
                self.next();
                let mut ranges: Vec<CharRange> = Vec::new();
                ranges.push(CharRange { start: '\u{0000}', end: '\u{10FFFF}' });
                Ok(Ast::CharClass(CharClass::new(ranges, false)))
            },
            Some('^') => {
                self.next();
                Ok(Ast::Assertion(Predicate::StartOfLine))
            },
            Some('$') => {
                self.next();
                Ok(Ast::Assertion(Predicate::EndOfLine))
            },
            Some('\\') => {
                self.next();
                self.parse_escape()
            },
            Some(ch) => {
                if Self::is_special_char(ch) {
                    return Err(ParseError::UnexpectedChar(ch));
                }
                let ch = match self.next() {
                    Some(ch) => ch,
                    None => return Err(ParseError::UnexpectedEnd),
                };
                Ok(single_char_class(ch))
            },
            None => Err(ParseError::UnexpectedEnd),
        }
    }

    /// Parses one factor and its optional quantifier.
    fn parse_term(&mut self) -> (r: Result<Ast, ParseError>)
        requires
            old(self).wf(),
            !old(self).overflowed,
        ensures
            final(self).input@ == old(self).input@,
            final(self).wf(),
            !(model_term(old(self).input@, old(self).pos as int, old(self).captures as int) is Overflow),
            final(self).overflowed == old(self).overflowed,
            r is Ok ==> final(self).pos > old(self).pos,
            agrees_ast(
                r,
                final(self).pos,
                final(self).captures,
                model_term(old(self).input@, old(self).pos as int, old(self).captures as int),
            ),
        decreases old(self).input@.len() - old(self).pos, 1int,
    {
        let ghost s = self.input@;
        let mut base = match self.parse_factor() {
            Ok(b) => b,
            Err(e) => return Err(e),
        };
        match self.peek() {
            Some('*') => {
                self.next();
                if self.peek() == Some('?') {
                    return Err(ParseError::InvalidRepeatOp);
                }
                let greedy = true;
                base = Ast::ZeroOrMore { expr: Box::new(base), greedy };
            },
            Some('+') => {
                self.next();
                if self.peek() == Some('?') {
                    return Err(ParseError::InvalidRepeatOp);
                }
                let greedy = true;
                base = Ast::OneOrMore { expr: Box::new(base), greedy };
            },
            Some('?') => {
                self.next();
                if self.peek() == Some('?') {
                    return Err(ParseError::InvalidRepeatOp);
                }
                let greedy = true;
                base = Ast::ZeroOrOne { expr: Box::new(base), greedy };
            },
            Some('{') => {
                self.next();
                let (min, max) = match self.parse_repeat() {
                    Ok(b) => b,
                    Err(e) => return Err(e),
                };
                if self.peek() == Some('?') {
                    return Err(ParseError::InvalidRepeatOp);
                }
                let greedy = true;
                base = Ast::Repeat { expr: Box::new(base), greedy, min, max };
            },
            _ => {},
        }
        Ok(base)
    }

    /// Parses terms until `|`, `)` or the end.
    #[verifier::loop_isolation(false)]
    fn parse_sequence(&mut self) -> (r: Result<Ast, ParseError>)
        requires
            old(self).wf(),
            !old(self).overflowed,
        ensures
            final(self).input@ == old(self).input@,
            final(self).wf(),
            !(model_seq(old(self).input@, old(self).pos as int, old(self).captures as int) is Overflow),
            final(self).overflowed == old(self).overflowed,
            r is Ok ==> final(self).pos >= old(self).pos,
            agrees_ast(
                r,
                final(self).pos,
                final(self).captures,
                model_seq(old(self).input@, old(self).pos as int, old(self).captures as int),
            ),
        decreases old(self).input@.len() - old(self).pos, 3int,
    {
        let ghost s = self.input@;
        let ghost start = self.pos as int;
        let ghost c0 = self.captures as int;
        let mut sequence: Vec<Ast> = Vec::new();
        assert(views(sequence@) =~= Seq::<AstModel>::empty());
        loop
            invariant
                self.wf(),
                self.input@ == s,
                self.pos >= start,
                model_seq_loop(s, self.pos as int, self.captures as int, views(sequence@))
                    == model_seq_loop(s, start, c0, Seq::empty()),
                !self.overflowed,
            decreases self.input@.len() - self.pos,
        {
            match self.peek() {
                None => break ,
                Some(ch) => {
                    if ch == '|' || ch == ')' {
                        break ;
                    }
                },
            }
            let term = match self.parse_term() {
                Ok(t) => t,
                Err(e) => return Err(e),
            };
            let ghost before = views(sequence@);
            sequence.push(term);
            assert(views(sequence@) =~= before.push(sequence@.last()@));
        }
        let ghost items = views(sequence@);
        assert(model_seq_loop(s, self.pos as int, self.captures as int, items) == Step::Done(items, self.pos as int, self.captures as int));
        assert(model_seq(s, start, c0) == Step::Done(seq_tree(items), self.pos as int, self.captures as int));
        if sequence.len() == 0 {
            Ok(Ast::Empty)
        } else if sequence.len() == 1 {
            let last = sequence.pop().unwrap();
            assert(last@ == items[0]);
            Ok(last)
        } else {
            proof {
                lemma_concat_view(sequence);
            }
            let r = Ast::Concat(sequence);
            Ok(r)
        }
    }

    /// Parses an alternation `seq ('|' seq)*`.
    #[verifier::loop_isolation(false)]
    fn parse_expression(&mut self) -> (r: Result<Ast, ParseError>)
        requires
            old(self).wf(),
            !old(self).overflowed,
        ensures
            final(self).input@ == old(self).input@,
            final(self).wf(),
            !(model_expr(old(self).input@, old(self).pos as int, old(self).captures as int) is Overflow),
            final(self).overflowed == old(self).overflowed,
            r is Ok ==> final(self).pos >= old(self).pos,
            agrees_ast(
                r,
                final(self).pos,
                final(self).captures,
                model_expr(old(self).input@, old(self).pos as int, old(self).captures as int),
            ),
        decreases old(self).input@.len() - old(self).pos, 5int,
    {
        let ghost s = self.input@;
        let ghost start = self.pos as int;
        let ghost c0 = self.captures as int;
        let mut left = match self.parse_sequence() {
            Ok(l) => l,
            Err(e) => return Err(e),
        };
        loop
            invariant
                self.wf(),
                self.input@ == s,
                self.pos >= start,
                model_expr_rest(s, left@, self.pos as int, self.captures as int) == model_expr(
                    s,
                    start,
                    c0,
                ),
                !self.overflowed,
            decreases self.input@.len() - self.pos,
        {
            if !self.consume_if('|') {
                break ;
            }
            let right = match self.parse_sequence() {
                Ok(r) => r,
                Err(e) => return Err(e),
            };
            left = Ast::Alternate(Box::new(left), Box::new(right));
        }
        Ok(left)
    }
}


/// Parses `regex` into its syntax tree.
pub fn parse(regex: &str) -> (r: Result<Ast, ParseError>)
    requires
        regex@.len() < usize::MAX,
    ensures
        match model_parse(regex@) {
            Step::Done(a, _p, _c) => r matches Ok(x) && x@ == a,
            Step::Fail(e) => r == Err::<Ast, ParseError>(e),
            Step::Overflow => false,
        },
{
    let mut parser = Parser::new(regex);
    let ast = match parser.parse_expression() {
        Ok(a) => a,
        Err(e) => return Err(e),
    };
    if parser.peek().is_some() {
        return Err(ParseError::UnexpectedChar(parser.peek().unwrap()));
    }
    Ok(ast)
}

/// The tree that matches exactly the character `ch`.
pub fn single_char_class(ch: char) -> (r: Ast)
    ensures
        r@ == AstModel::Class(literal_class(ch)),
{
    let mut ranges: Vec<CharRange> = Vec::new();
    ranges.push(CharRange { start: ch, end: ch });
    Ast::CharClass(CharClass::new(ranges, false))
}

} // verus!
