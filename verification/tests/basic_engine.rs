use regular_expression::basic;
use regular_expression::basic::error::{CompileError, EvalError, RegexError};
use regular_expression::basic::instruction::{Char, Instruction};
use regular_expression::basic::{compile_pattern, match_line, match_string};
use regular_expression::engine::safe_add;

#[test]
fn test_match_string_true() {
    let insts: Vec<Instruction> = vec![
        Instruction::Char(Char::Literal('a')),
        Instruction::Char(Char::Literal('b')),
        Instruction::Split(3, 5),
        Instruction::Char(Char::Literal('c')),
        Instruction::Jump(6),
        Instruction::Char(Char::Literal('d')),
        Instruction::Match,
    ];
    let actual: bool = match_string(&insts, "abc", false).unwrap();
    assert_eq!(actual, true);
}

#[test]
fn test_match_string_false() {
    let insts: Vec<Instruction> = vec![
        Instruction::Char(Char::Literal('a')),
        Instruction::Char(Char::Literal('b')),
        Instruction::Split(3, 5),
        Instruction::Char(Char::Literal('c')),
        Instruction::Jump(6),
        Instruction::Char(Char::Literal('d')),
        Instruction::Match,
    ];
    let actual: bool = match_string(&insts, "abx", false).unwrap();
    assert_eq!(actual, false);
}

#[test]
fn test_match_string_empty() {
    // パターン "a*" と空文字列のマッチングを行うテスト
    let insts: Vec<Instruction> = vec![
        Instruction::Split(1, 3),
        Instruction::Char(Char::Literal('a')),
        Instruction::Jump(0),
        Instruction::Match,
    ];
    let actual: bool = match_string(&insts, "", false).unwrap();
    assert_eq!(actual, true);
}

#[test]
fn test_match_string_eval_error() {
    let insts: Vec<Instruction> = vec![
        Instruction::Char(Char::Literal('a')),
        Instruction::Char(Char::Literal('b')),
        Instruction::Split(100, 200),
        Instruction::Char(Char::Literal('c')),
        Instruction::Jump(6),
        Instruction::Char(Char::Literal('d')),
        Instruction::Match,
    ];

    let actual = match_string(&insts, "abc", false);
    assert_eq!(actual, Err(RegexError::Eval(EvalError::InvalidPC)));
}

#[test]
fn test_safe_add_success() {
    let mut u: usize = 1;
    let _ = safe_add(&mut u, &1, || RegexError::Compile(CompileError::PCOverFlow));
    assert_eq!(u, 2);
}

#[test]
fn test_safe_add_failure() {

    let expect = RegexError::Compile(CompileError::PCOverFlow);
    let mut u: usize = usize::MAX;
    let actual: RegexError =
        safe_add(&mut u, &1, || RegexError::Compile(CompileError::PCOverFlow)).unwrap_err();
    assert_eq!(actual, expect);
}

#[test]
fn test_compile_pattern() {
    // "ab(c|d)" というパターンをコンパイルするテスト
    let expect = vec![
        Instruction::Char(Char::Literal('a')),
        Instruction::Char(Char::Literal('b')),
        Instruction::Split(3, 5),
        Instruction::Char(Char::Literal('c')),
        Instruction::Jump(6),
        Instruction::Char(Char::Literal('d')),
        Instruction::Match,
    ];

    let (code, is_caret, is_dollar) = compile_pattern("ab(c|d)").unwrap();
    assert_eq!(code, expect);
    assert_eq!(is_caret, false);
    assert_eq!(is_dollar, false);
}

#[test]
fn test_compile_pattern_caret() {
    // "^a*" というパターンをコンパイルするテスト
    let expect = vec![
        Instruction::Split(1, 3),
        Instruction::Char(Char::Literal('a')),
        Instruction::Jump(0),
        Instruction::Match,
    ];

    let (code, is_caret, is_dollar) = compile_pattern("^a*").unwrap();
    assert_eq!(code, expect);
    assert_eq!(is_caret, true);
    assert_eq!(is_dollar, false);
}

#[test]
fn test_compile_pattern_dollar() {
    // "a?b$" というパターンをコンパイルするテスト
    let expect = vec![
        Instruction::Split(1, 2),
        Instruction::Char(Char::Literal('a')),
        Instruction::Char(Char::Literal('b')),
        Instruction::Match,
    ];

    let (code, is_caret, is_dollar) = compile_pattern("a?b$").unwrap();
    assert_eq!(code, expect);
    assert_eq!(is_caret, false);
    assert_eq!(is_dollar, true);
}

#[test]
fn test_match_line() {
    // "ab(c|d)" というパターンに対してのテスト
    let insts: Vec<Instruction> = vec![
        Instruction::Char(Char::Literal('a')),
        Instruction::Char(Char::Literal('b')),
        Instruction::Split(3, 5),
        Instruction::Char(Char::Literal('c')),
        Instruction::Jump(6),
        Instruction::Char(Char::Literal('d')),
        Instruction::Match,
    ];
    // "abc" という文字列をマッチングするテスト
    let actual1: bool = match_line(&insts, "abc", false, false, false).unwrap();
    assert_eq!(actual1, true);

    // "abe" という文字列をマッチングするテスト
    let actual2: bool = match_line(&insts, "abe", false, false, false).unwrap();
    assert_eq!(actual2, false);

    // "a?b$" というパターンに対するテスト
    // 命令列の 1 番目が Char 以外のテスト
    let insts = vec![
        Instruction::Split(1, 2),
        Instruction::Char(Char::Literal('a')),
        Instruction::Char(Char::Literal('b')),
        Instruction::Match,
    ];
    let actual3 = match_line(&insts, "ab", false, false, false).unwrap();
    assert_eq!(actual3, true);
}
#[test]
fn test_match_line_caret() {
    // "^a+b" というパターンに対してのテスト
    let insts: Vec<Instruction> = vec![
        Instruction::Char(Char::Literal('a')),
        Instruction::Split(0, 2),
        Instruction::Char(Char::Literal('b')),
        Instruction::Match,
    ];
    // "aab" という文字列をマッチングするテスト
    let actual1: bool = match_line(&insts, "aab", true, false, false).unwrap();
    assert_eq!(actual1, true);

    // "xabcd" という文字列をマッチングするテスト
    let actual2: bool = match_line(&insts, "xabcd", true, false, false).unwrap();
    assert_eq!(actual2, false);
}

#[test]
fn test_match_line_dollar() {
    // "ab$" というパターンに対してのテスト
    let insts: Vec<Instruction> = vec![
        Instruction::Char(Char::Literal('a')),
        Instruction::Char(Char::Literal('b')),
        Instruction::Match,
    ];
    // "ab" という文字列をマッチングするテスト
    let actual1: bool = match_line(&insts, "ab", false, true, false).unwrap();
    assert_eq!(actual1, true);

    // "abc" という文字列をマッチングするテスト
    let actual2: bool = match_line(&insts, "abc", false, true, false).unwrap();
    assert_eq!(actual2, false);
}

#[test]
fn test_match_line_invert() {
    // "a+b" というパターンに対してのテスト
    let insts: Vec<Instruction> = vec![
        Instruction::Char(Char::Literal('a')),
        Instruction::Split(0, 2),
        Instruction::Char(Char::Literal('b')),
        Instruction::Match,
    ];

    // "ab" という文字列をマッチングするテスト
    let actual1: bool = match_line(&insts, "abc", false, false, true).unwrap();
    assert_eq!(actual1, false);

    // "abc" という文字列をマッチングするテスト
    let actual2: bool = match_line(&insts, "acd", false, false, true).unwrap();
    assert_eq!(actual2, true);
}

#[test]
fn starts_passed_over_never_change_the_answer() {
    // "ab": every start whose character is not 'a' is passed over.
    let insts: Vec<Instruction> = vec![
        Instruction::Char(Char::Literal('a')),
        Instruction::Char(Char::Literal('b')),
        Instruction::Match,
    ];
    assert!(match_line(&insts, "zzab", false, false, false).unwrap());
    assert!(!match_line(&insts, "zzaz", false, false, false).unwrap());
    assert!(match_string(&insts, "ab", false).unwrap());
    assert!(!match_string(&insts, "zab", false).unwrap());
}

#[test]
fn unanchored_search_tries_the_end_of_the_line() {
    // "a*"
    let star: Vec<Instruction> = vec![
        Instruction::Split(1, 3),
        Instruction::Char(Char::Literal('a')),
        Instruction::Jump(0),
        Instruction::Match,
    ];
    assert_eq!(match_line(&star, "", false, false, false), Ok(true));
    assert_eq!(match_line(&star, "", true, false, false), Ok(true));
    assert_eq!(match_string(&star, "", false), Ok(true));
    // "b$" needs the end of the line; "a*$" matches there on any line.
    assert_eq!(match_line(&star, "xyz", false, true, false), Ok(true));
}

#[test]
fn nested_repetitions_end_on_every_line() {
    let regex = basic::Regex::new("(a*)*b", false, false).unwrap();
    assert_eq!(regex.is_match("aaaa"), Ok(false));
    assert_eq!(regex.is_match("aaab"), Ok(true));
    let regex = basic::Regex::new("(a|b*)*c", false, false).unwrap();
    assert_eq!(regex.is_match("ababbx"), Ok(false));
    assert_eq!(regex.is_match("ababbc"), Ok(true));
}
