use regular_expression::basic::error::EvalError;
use regular_expression::basic::evaluator::{eval_char, eval_depth, increment_pc_and_index};
use regular_expression::basic::instruction::{Char, Instruction};

#[test]
fn test_eval_char_true() {
    let actual: bool = eval_char(&Char::Literal('a'), "abc", 0);
    assert_eq!(actual, true);
}

#[test]
fn test_eval_char_false() {
    let actual1: bool = eval_char(&Char::Literal('a'), "abc", 1);
    assert_eq!(actual1, false);

    let actual2: bool = eval_char(&Char::Literal('a'), "abc", 10);
    assert_eq!(actual2, false);
}

#[test]
fn test_eval_char_any() {
    let actual: bool = eval_char(&Char::Any, "abc", 0);
    assert_eq!(actual, true);
}

#[test]
fn test_increment_success() {
    let pc: &mut usize = &mut 10;
    let index: &mut usize = &mut 10;
    let _ = increment_pc_and_index(pc, index);

    assert_eq!(pc, &mut 11);
    assert_eq!(index, &mut 11);
}

#[test]
fn test_increment_pc_overflow() {
    let mut u = usize::MAX;
    let actual = increment_pc_and_index(&mut u, &mut 1);
    assert_eq!(actual, Err(EvalError::PCOverFlow));
}

#[test]
fn test_increment_charindex_overflow() {
    let mut u = usize::MAX;
    let actual = increment_pc_and_index(&mut 1, &mut u);
    assert_eq!(actual, Err(EvalError::CharIndexOverFlow));
}

#[test]
fn test_eval_depth_true() {
    // "ab(c|d)" が入力された Instruction
    let insts: Vec<Instruction> = vec![
        Instruction::Char(Char::Literal('a')),
        Instruction::Char(Char::Literal('b')),
        Instruction::Split(3, 5),
        Instruction::Char(Char::Literal('c')),
        Instruction::Jump(6),
        Instruction::Char(Char::Literal('d')),
        Instruction::Match,
    ];

    // "abc" とマッチするケース
    let mut visited1: Vec<(usize, usize)> = Vec::new();
    let actual1 = eval_depth(&insts, "abc", 0, 0, false, &mut visited1).unwrap();
    assert_eq!(actual1, true);

    // "abd"とマッチするケース
    let mut visited2: Vec<(usize, usize)> = Vec::new();
    let actual2 = eval_depth(&insts, "abc", 0, 0, false, &mut visited2).unwrap();
    assert_eq!(actual2, true);
}

#[test]
fn test_eval_depth_false() {
    // "ab(c|d)" が入力された Instruction
    let insts: Vec<Instruction> = vec![
        Instruction::Char(Char::Literal('a')),
        Instruction::Char(Char::Literal('b')),
        Instruction::Split(3, 5),
        Instruction::Char(Char::Literal('c')),
        Instruction::Jump(6),
        Instruction::Char(Char::Literal('d')),
        Instruction::Match,
    ];

    // "abx" とマッチするケース
    let mut visited: Vec<(usize, usize)> = Vec::new();
    let actual = eval_depth(&insts, "abX", 0, 0, false, &mut visited).unwrap();
    assert_eq!(actual, false);
}

#[test]
fn test_eval_depth_is_end_dollar() {
    // "ab(c|d)" が入力された Instruction
    let insts: Vec<Instruction> = vec![
        Instruction::Char(Char::Literal('a')),
        Instruction::Char(Char::Literal('b')),
        Instruction::Split(3, 5),
        Instruction::Char(Char::Literal('c')),
        Instruction::Jump(6),
        Instruction::Char(Char::Literal('d')),
        Instruction::Match,
    ];

    // "xxxabc" とマッチするケース (true になる)
    let mut visited1: Vec<(usize, usize)> = Vec::new();
    let actual1: bool = eval_depth(&insts, "abc", 0, 0, true, &mut visited1).unwrap();
    assert_eq!(actual1, true);

    // "abcxxx"とマッチするケース (false になる)
    let mut visited2: Vec<(usize, usize)> = Vec::new();
    let actual2: bool = eval_depth(&insts, "abcxxx", 0, 0, true, &mut visited2).unwrap();
    assert_eq!(actual2, false);
}

#[test]
fn test_eval_depth_infinite_loop() {
    // "abc(d*)*" が入力された Instruction
    let insts: Vec<Instruction> = vec![
        Instruction::Char(Char::Literal('a')),
        Instruction::Char(Char::Literal('b')),
        Instruction::Char(Char::Literal('c')),
        Instruction::Split(4, 8),
        Instruction::Split(5, 7),
        Instruction::Char(Char::Literal('d')),
        Instruction::Jump(4),
        Instruction::Jump(3),
        Instruction::Match,
    ];

    // "abcde" とマッチするケース（true）
    let mut visited1: Vec<(usize, usize)> = Vec::new();
    let actual1 = eval_depth(&insts, "abcde", 0, 0, false, &mut visited1).unwrap();
    assert_eq!(actual1, true);

    // "bcdef" とマッチするケース（false）
    let mut visited2: Vec<(usize, usize)> = Vec::new();
    let actual2 = eval_depth(&insts, "bcdef", 0, 0, false, &mut visited2).unwrap();
    assert_eq!(actual2, false);
}

#[test]
fn test_eval_depth_invalidpc() {
    let insts: Vec<Instruction> = vec![
        Instruction::Char(Char::Literal('a')),
        Instruction::Char(Char::Literal('b')),
        Instruction::Match,
    ];
    let mut visited: Vec<(usize, usize)> = Vec::new();
    let actual = eval_depth(&insts, "abcd", usize::MAX, 0, false, &mut visited);
    assert_eq!(actual, Err(EvalError::InvalidPC));
}

#[test]
fn end_of_line_counts_characters() {
    let p: Vec<Instruction> = vec![Instruction::Char(Char::Literal('é')), Instruction::Match];
    let mut v: Vec<(usize, usize)> = Vec::new();
    assert_eq!(eval_depth(&p, "é", 0, 0, true, &mut v), Ok(true));
}

#[test]
fn revisited_splits_are_cut() {
    // "(a*)*"
    let p: Vec<Instruction> = vec![
        Instruction::Split(1, 5),
        Instruction::Split(2, 4),
        Instruction::Char(Char::Literal('a')),
        Instruction::Jump(1),
        Instruction::Jump(0),
        Instruction::Match,
    ];
    let mut v: Vec<(usize, usize)> = Vec::new();
    assert_eq!(eval_depth(&p, "b", 0, 0, false, &mut v), Ok(true));
}
