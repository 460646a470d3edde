use regular_expression::engine::ast::{CharClass, CharRange, Predicate};
use regular_expression::engine::compiler::{compile_v2, CompileV2Error};
use regular_expression::engine::instruction::InstructionV2;
use regular_expression::engine::parser::parse;

fn literal(c: char) -> InstructionV2 {
    InstructionV2::CharClass(CharClass::new(vec![CharRange { start: c, end: c }], false))
}

#[test]
fn test_compile_v2_literal() {
    let ast = parse("abc").unwrap();
    let actual = compile_v2(&ast).unwrap();
    let expect = vec![
        literal('a'),
        literal('b'),
        literal('c'),
        InstructionV2::Match,
    ];
    assert_eq!(actual, expect);
}

#[test]
fn test_compile_v2_alternate() {
    let ast = parse("a|b").unwrap();
    let actual = compile_v2(&ast).unwrap();
    let expect = vec![
        InstructionV2::Split(1, 3),
        literal('a'),
        InstructionV2::Jump(4),
        literal('b'),
        InstructionV2::Match,
    ];
    assert_eq!(actual, expect);
}

#[test]
fn test_compile_v2_star() {
    let ast = parse("a*").unwrap();
    let actual = compile_v2(&ast).unwrap();
    let expect = vec![
        InstructionV2::Split(1, 3),
        literal('a'),
        InstructionV2::Jump(0),
        InstructionV2::Match,
    ];
    assert_eq!(actual, expect);
}

#[test]
fn test_compile_v2_repeat() {
    let ast = parse("a{2,3}").unwrap();
    let actual = compile_v2(&ast).unwrap();
    let expect = vec![
        literal('a'),
        literal('a'),
        InstructionV2::Split(3, 4),
        literal('a'),
        InstructionV2::Match,
    ];
    assert_eq!(actual, expect);
}

#[test]
fn test_compile_v2_assert_and_backref() {
    let ast = parse("^(abc)\\1$").unwrap();
    let actual = compile_v2(&ast).unwrap();
    let expect = vec![
        InstructionV2::Assert(Predicate::StartOfLine),
        InstructionV2::SaveStart(1),
        literal('a'),
        literal('b'),
        literal('c'),
        InstructionV2::SaveEnd(1),
        InstructionV2::Backref(1),
        InstructionV2::Assert(Predicate::EndOfLine),
        InstructionV2::Match,
    ];
    assert_eq!(actual, expect);
}

#[test]
fn test_compile_v2_invalid_backreference() {
    let ast = parse("(a)\\2").unwrap();
    let actual = compile_v2(&ast);
    assert_eq!(actual, Err(CompileV2Error::InvalidBackreference(2)));
}
