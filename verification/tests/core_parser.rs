use regular_expression::engine::ast::{Ast, CharClass, CharRange, Predicate};
use regular_expression::engine::parser::{parse, single_char_class, ParseError, Parser};

#[test]
fn test_parse_abc() {
    let actual = parse("abc").unwrap();
    let expect = Ast::Concat(vec![
        single_char_class('a'),
        single_char_class('b'),
        single_char_class('c'),
    ]);
    assert_eq!(actual, expect);
}

#[test]
fn test_parse_alternate_chain() {
    let actual = parse("a|b|c").unwrap();
    let expect = Ast::Alternate(
        Box::new(Ast::Alternate(
            Box::new(single_char_class('a')),
            Box::new(single_char_class('b')),
        )),
        Box::new(single_char_class('c')),
    );
    assert_eq!(actual, expect);
}

#[test]
fn test_parse_alternation_precedence() {
    let actual = parse("ab|cd").unwrap();
    let expect = Ast::Alternate(
        Box::new(Ast::Concat(vec![
            single_char_class('a'),
            single_char_class('b'),
        ])),
        Box::new(Ast::Concat(vec![
            single_char_class('c'),
            single_char_class('d'),
        ])),
    );
    assert_eq!(actual, expect);
}

#[test]
fn test_parse_alternation_empty_side() {
    let actual = parse("a|").unwrap();
    let expect = Ast::Alternate(Box::new(single_char_class('a')), Box::new(Ast::Empty));
    assert_eq!(actual, expect);

    let actual = parse("|a").unwrap();
    let expect = Ast::Alternate(Box::new(Ast::Empty), Box::new(single_char_class('a')));
    assert_eq!(actual, expect);
}

#[test]
fn test_parse_qualifier() {
    let actual_star = parse("a*b").unwrap();
    let expect_star = Ast::Concat(vec![
        Ast::ZeroOrMore {
            expr: Box::new(single_char_class('a')),
            greedy: true,
        },
        single_char_class('b'),
    ]);
    assert_eq!(actual_star, expect_star);

    let actual_plus = parse("a+b").unwrap();
    let expect_plus = Ast::Concat(vec![
        Ast::OneOrMore {
            expr: Box::new(single_char_class('a')),
            greedy: true,
        },
        single_char_class('b'),
    ]);
    assert_eq!(actual_plus, expect_plus);

    let actual_question = parse("a?b").unwrap();
    let expect_question = Ast::Concat(vec![
        Ast::ZeroOrOne {
            expr: Box::new(single_char_class('a')),
            greedy: true,
        },
        single_char_class('b'),
    ]);
    assert_eq!(actual_question, expect_question);
}

#[test]
fn test_parse_group_quantifier() {
    let actual = parse("(ab)*").unwrap();
    let expect = Ast::ZeroOrMore {
        expr: Box::new(Ast::Capture {
            expr: Box::new(Ast::Concat(vec![
                single_char_class('a'),
                single_char_class('b'),
            ])),
            index: 1,
        }),
        greedy: true,
    };
    assert_eq!(actual, expect);

    let actual = parse("(ab){2,3}").unwrap();
    let expect = Ast::Repeat {
        expr: Box::new(Ast::Capture {
            expr: Box::new(Ast::Concat(vec![
                single_char_class('a'),
                single_char_class('b'),
            ])),
            index: 1,
        }),
        greedy: true,
        min: 2,
        max: Some(3),
    };
    assert_eq!(actual, expect);
}

#[test]
fn test_parse_repeat_forms() {
    let actual = parse("a{3}").unwrap();
    let expect = Ast::Repeat {
        expr: Box::new(single_char_class('a')),
        greedy: true,
        min: 3,
        max: Some(3),
    };
    assert_eq!(actual, expect);

    let actual = parse("a{2,}").unwrap();
    let expect = Ast::Repeat {
        expr: Box::new(single_char_class('a')),
        greedy: true,
        min: 2,
        max: None,
    };
    assert_eq!(actual, expect);

    let actual = parse("a{2,5}").unwrap();
    let expect = Ast::Repeat {
        expr: Box::new(single_char_class('a')),
        greedy: true,
        min: 2,
        max: Some(5),
    };
    assert_eq!(actual, expect);
}

#[test]
fn test_parse_char_class_range() {
    let actual = parse("[a-z]").unwrap();
    let expect = Ast::CharClass(CharClass::new(
        vec![CharRange {
            start: 'a',
            end: 'z',
        }],
        false,
    ));
    assert_eq!(actual, expect);

    let actual = parse("[A-Z]").unwrap();
    let expect = Ast::CharClass(CharClass::new(
        vec![CharRange {
            start: 'A',
            end: 'Z',
        }],
        false,
    ));
    assert_eq!(actual, expect);

    let actual = parse("[0-9]").unwrap();
    let expect = Ast::CharClass(CharClass::new(
        vec![CharRange {
            start: '0',
            end: '9',
        }],
        false,
    ));
    assert_eq!(actual, expect);

    let actual = parse("[a-zA-Z0-9]").unwrap();
    let expect = Ast::CharClass(CharClass::new(
        vec![
            CharRange {
                start: 'a',
                end: 'z',
            },
            CharRange {
                start: 'A',
                end: 'Z',
            },
            CharRange {
                start: '0',
                end: '9',
            },
        ],
        false,
    ));
    assert_eq!(actual, expect);
}

#[test]
fn test_parse_char_class_literals() {
    let actual = parse("[-a]").unwrap();
    let expect = Ast::CharClass(CharClass::new(
        vec![
            CharRange {
                start: '-',
                end: '-',
            },
            CharRange {
                start: 'a',
                end: 'a',
            },
        ],
        false,
    ));
    assert_eq!(actual, expect);

    let actual = parse("[a-]").unwrap();
    let expect = Ast::CharClass(CharClass::new(
        vec![
            CharRange {
                start: 'a',
                end: 'a',
            },
            CharRange {
                start: '-',
                end: '-',
            },
        ],
        false,
    ));
    assert_eq!(actual, expect);

    let actual = parse("[]a]").unwrap();
    let expect = Ast::CharClass(CharClass::new(
        vec![
            CharRange {
                start: ']',
                end: ']',
            },
            CharRange {
                start: 'a',
                end: 'a',
            },
        ],
        false,
    ));
    assert_eq!(actual, expect);
}

#[test]
fn test_parse_char_class_concat() {
    let actual = parse("a[bc]d").unwrap();
    let expect = Ast::Concat(vec![
        single_char_class('a'),
        Ast::CharClass(CharClass::new(
            vec![
                CharRange {
                    start: 'b',
                    end: 'b',
                },
                CharRange {
                    start: 'c',
                    end: 'c',
                },
            ],
            false,
        )),
        single_char_class('d'),
    ]);
    assert_eq!(actual, expect);
}

#[test]
fn test_parse_char_class_negated() {
    let actual = parse("[^abc]").unwrap();
    let expect = Ast::CharClass(CharClass::new(
        vec![
            CharRange {
                start: 'a',
                end: 'a',
            },
            CharRange {
                start: 'b',
                end: 'b',
            },
            CharRange {
                start: 'c',
                end: 'c',
            },
        ],
        true,
    ));
    assert_eq!(actual, expect);
}

#[test]
fn test_parse_capture_sequence() {
    let actual = parse("(abc)(def)").unwrap();
    let expect = Ast::Concat(vec![
        Ast::Capture {
            expr: Box::new(Ast::Concat(vec![
                single_char_class('a'),
                single_char_class('b'),
                single_char_class('c'),
            ])),
            index: 1,
        },
        Ast::Capture {
            expr: Box::new(Ast::Concat(vec![
                single_char_class('d'),
                single_char_class('e'),
                single_char_class('f'),
            ])),
            index: 2,
        },
    ]);
    assert_eq!(actual, expect);
}

#[test]
fn test_parse_backreference() {
    let actual = parse("(abc)\\1").unwrap();
    let expect = Ast::Concat(vec![
        Ast::Capture {
            expr: Box::new(Ast::Concat(vec![
                single_char_class('a'),
                single_char_class('b'),
                single_char_class('c'),
            ])),
            index: 1,
        },
        Ast::Backreference(1),
    ]);
    assert_eq!(actual, expect);
}

#[test]
fn test_parse_anchors() {
    let actual = parse("^abc$").unwrap();
    let expect = Ast::Concat(vec![
        Ast::Assertion(Predicate::StartOfLine),
        single_char_class('a'),
        single_char_class('b'),
        single_char_class('c'),
        Ast::Assertion(Predicate::EndOfLine),
    ]);
    assert_eq!(actual, expect);

    let actual = parse("^$").unwrap();
    let expect = Ast::Concat(vec![
        Ast::Assertion(Predicate::StartOfLine),
        Ast::Assertion(Predicate::EndOfLine),
    ]);
    assert_eq!(actual, expect);
}

#[test]
fn test_parse_dot() {
    let actual = parse("a.c").unwrap();
    let expect = Ast::Concat(vec![
        single_char_class('a'),
        Ast::CharClass(CharClass::new(
            vec![CharRange {
                start: '\u{0000}',
                end: '\u{10FFFF}',
            }],
            false,
        )),
        single_char_class('c'),
    ]);
    assert_eq!(actual, expect);
}

#[test]
fn test_parse_empty() {
    let actual = parse("").unwrap();
    let expect = Ast::Empty;
    assert_eq!(actual, expect);
}

#[test]
fn test_parse_escaped_literals() {
    let actual = parse("\\*").unwrap();
    let expect = single_char_class('*');
    assert_eq!(actual, expect);

    let actual = parse("\\\\").unwrap();
    let expect = single_char_class('\\');
    assert_eq!(actual, expect);

    let actual = parse("\\+").unwrap();
    let expect = single_char_class('+');
    assert_eq!(actual, expect);

    let actual = parse("\\?").unwrap();
    let expect = single_char_class('?');
    assert_eq!(actual, expect);

    let actual = parse("\\a").unwrap();
    let expect = single_char_class('a');
    assert_eq!(actual, expect);
}

#[test]
fn test_error_unexpected_end() {
    let mut parser = Parser::new("");
    let actual = parser.parse_factor();
    assert_eq!(actual, Err(ParseError::UnexpectedEnd));
}

#[test]
fn test_error_unexpected_char() {
    let actual = parse("*");
    assert_eq!(actual, Err(ParseError::UnexpectedChar('*')));

    let actual = parse(")");
    assert_eq!(actual, Err(ParseError::UnexpectedChar(')')));

    let actual = parse("}");
    assert_eq!(actual, Err(ParseError::UnexpectedChar('}')));
}

#[test]
fn test_error_invalid_repeat_op() {
    let actual = parse("a*?");
    assert_eq!(actual, Err(ParseError::InvalidRepeatOp));
}

#[test]
fn test_error_invalid_repeat_size() {
    let actual = parse("a{2,1}");
    assert_eq!(actual, Err(ParseError::InvalidRepeatSize));
}

#[test]
fn test_error_missing_bracket() {
    let actual = parse("[abc");
    assert_eq!(actual, Err(ParseError::MissingBracket));
}

#[test]
fn test_error_missing_parenthesis() {
    let actual = parse("(abc");
    assert_eq!(actual, Err(ParseError::MissingParenthesis));
}

#[test]
fn test_error_trailing_backslash() {
    let actual = parse("\\");
    assert_eq!(actual, Err(ParseError::TrailingBackslash));
}

#[test]
fn test_error_invalid_char_class() {
    let actual = parse("[z-a]");
    assert_eq!(actual, Err(ParseError::InvalidCharClass));
}

#[test]
fn test_error_missing_repeat_argument() {
    let actual = parse("a{}");
    assert_eq!(actual, Err(ParseError::MissingRepeatArgument));

    let actual = parse("a{,}");
    assert_eq!(actual, Err(ParseError::MissingRepeatArgument));

    let actual = parse("a{2,");
    assert_eq!(actual, Err(ParseError::MissingRepeatArgument));
}

#[test]
fn oversized_numbers_are_errors() {
    assert_eq!(parse("a{99999999999}"), Err(ParseError::InvalidRepeatSize));
    assert_eq!(parse("(a)\\99999999999"), Err(ParseError::InvalidRepeatSize));
    assert_eq!(parse("a{4294967295}").is_ok(), true);
}

#[test]
fn parse_errors_have_messages() {
    assert_eq!(
        ParseError::MissingParenthesis.to_string(),
        "no right parenthesis: missing closing parenthesis ')'"
    );
    assert_eq!(
        ParseError::UnexpectedChar('*').to_string(),
        "no previous expression: unexpected character: *"
    );
    assert_eq!(
        ParseError::UnexpectedChar('+').to_string(),
        "no previous expression: unexpected character: +"
    );
    assert_eq!(ParseError::UnexpectedChar(')').to_string(), "unexpected character: )");
    assert_eq!(ParseError::InvalidRepeatSize.to_string(), "invalid repeat size");
}
