use regular_expression::engine::ast::{CharClass, CharRange, Predicate};
use regular_expression::engine::compiler::{compile, compile_v2};
use regular_expression::engine::evaluator::{eval, eval_from_start, eval_v2, EvalError, EvalV2Error};
use regular_expression::engine::instruction::{Instruction, InstructionV2};
use regular_expression::engine::parser::parse;

fn literal(c: char) -> Instruction {
    Instruction::CharClass(CharClass::new(vec![CharRange { start: c, end: c }], false))
}

#[test]
fn test_eval_backreference_match_and_mismatch() {
    let ast = parse("(abc)\\1").unwrap();
    let inst = compile(&ast).unwrap();

    assert!(eval(&inst, "abcabc").unwrap());
    assert!(!eval(&inst, "abcabd").unwrap());
}

#[test]
fn test_eval_unresolved_backreference() {
    let ast = parse("(a)?\\1").unwrap();
    let inst = compile(&ast).unwrap();

    assert!(!eval(&inst, "a").unwrap());
    assert!(!eval(&inst, "").unwrap());
    assert!(eval(&inst, "aa").unwrap());
}

#[test]
fn test_eval_negated_class() {
    let ast = parse("d[^io]g").unwrap();
    let inst = compile(&ast).unwrap();

    assert!(eval(&inst, "dag").unwrap());
    assert!(!eval(&inst, "dig").unwrap());
    assert!(!eval(&inst, "dog").unwrap());
}

#[test]
fn test_eval_anchors() {
    let ast = parse("^abc$").unwrap();
    let inst = compile(&ast).unwrap();
    assert!(eval(&inst, "abc").unwrap());
    assert!(!eval(&inst, "xabc").unwrap());
    assert!(!eval(&inst, "abcx").unwrap());

    let ast_empty = parse("^$").unwrap();
    let inst_empty = compile(&ast_empty).unwrap();
    assert!(eval(&inst_empty, "").unwrap());
    assert!(!eval(&inst_empty, "a").unwrap());
}

#[test]
fn test_eval_word_boundary_predicate() {
    let inst = vec![
        Instruction::Assert(Predicate::WordBoundary),
        literal('a'),
        Instruction::Match,
    ];
    assert!(eval(&inst, "a").unwrap());
    assert!(!eval(&inst, "_a").unwrap());
}

#[test]
fn test_eval_invalid_pc() {
    let inst = vec![Instruction::Jump(10)];
    let actual = eval(&inst, "abc");
    assert_eq!(actual, Err(EvalError::InvalidPC));
}

#[test]
fn test_eval_from_start() {
    let ast = parse("abc").unwrap();
    let inst = compile(&ast).unwrap();
    assert!(eval_from_start(&inst, "abcxxx").unwrap());
    assert!(!eval_from_start(&inst, "xabc").unwrap());
}


#[test]
fn test_eval_v2_backreference_match_and_mismatch() {
    let ast = parse("(abc)\\1").unwrap();
    let inst = compile_v2(&ast).unwrap();

    assert!(eval_v2(&inst, "abcabc").unwrap());
    assert!(!eval_v2(&inst, "abcabd").unwrap());
}

#[test]
fn test_eval_v2_unresolved_backreference() {
    let ast = parse("(a)?\\1").unwrap();
    let inst = compile_v2(&ast).unwrap();

    assert!(!eval_v2(&inst, "a").unwrap());
    assert!(!eval_v2(&inst, "").unwrap());
    assert!(eval_v2(&inst, "aa").unwrap());
}

#[test]
fn test_eval_v2_negated_class() {
    let ast = parse("d[^io]g").unwrap();
    let inst = compile_v2(&ast).unwrap();

    assert!(eval_v2(&inst, "dag").unwrap());
    assert!(!eval_v2(&inst, "dig").unwrap());
    assert!(!eval_v2(&inst, "dog").unwrap());
}

#[test]
fn test_eval_v2_anchors() {
    let ast = parse("^abc$").unwrap();
    let inst = compile_v2(&ast).unwrap();
    assert!(eval_v2(&inst, "abc").unwrap());
    assert!(!eval_v2(&inst, "xabc").unwrap());
    assert!(!eval_v2(&inst, "abcx").unwrap());

    let ast_empty = parse("^$").unwrap();
    let inst_empty = compile_v2(&ast_empty).unwrap();
    assert!(eval_v2(&inst_empty, "").unwrap());
    assert!(!eval_v2(&inst_empty, "a").unwrap());
}

#[test]
fn test_eval_v2_word_boundary_predicate() {
    let inst = vec![
        InstructionV2::Assert(Predicate::WordBoundary),
        literal('a'),
        InstructionV2::Match,
    ];
    assert!(eval_v2(&inst, "a").unwrap());
    assert!(!eval_v2(&inst, "_a").unwrap());
}

#[test]
fn test_eval_v2_invalid_pc() {
    let inst = vec![InstructionV2::Jump(10)];
    let actual = eval_v2(&inst, "abc");
    assert_eq!(actual, Err(EvalV2Error::InvalidPC));
}

#[test]
fn loops_of_empty_steps_end() {
    assert_eq!(eval(&vec![Instruction::Jump(0)], "abc"), Ok(false));
    assert_eq!(eval(&vec![Instruction::Split(0, 1), Instruction::Match], ""), Ok(true));
}
