use regular_expression::basic;
use regular_expression::basic::instruction::{Char, Instruction};
use regular_expression::Regex;
use regular_expression::engine::{compile_pattern_with_must_literals, match_line, RegexError};

#[test]
fn lib_test_is_match() {
    let regex = Regex::new("ab(c|d)", false, false).unwrap();
    assert!(regex.is_match("abc").unwrap());
    assert!(!regex.is_match("abe").unwrap());
}

#[test]
fn test_is_match() {
    // パターン "ab(c|d)" から Regex 構造体を生成
    let pattern = "ab(c|d)";
    let regex = basic::Regex::new(pattern, false, false).unwrap();

    // "abc" という文字列に対して、マッチングを実行
    let line = "abc";
    let result = regex.is_match(line).unwrap();
    assert!(result);

    // "abe" という文字列に対して、マッチングを実行
    let line = "abe";
    let result = regex.is_match(line).unwrap();
    assert!(!result);
}

#[test]
fn lib_test_is_match_ignore_case() {
    let regex = Regex::new("ab(c|d)", true, false).unwrap();
    assert!(regex.is_match("ABC").unwrap());

    let regex = Regex::new("ab(c|d)", false, false).unwrap();
    assert!(!regex.is_match("ABC").unwrap());
}

#[test]
fn test_is_match_ignore_case() {
    // パターン "ab(c|d)" から Regex 構造体を生成
    // is_ignore_case を true に設定
    let pattern = "ab(c|d)";
    let regex1 = basic::Regex::new(pattern, true, false).unwrap();

    // "ABC" という文字列に対して、マッチングを実行
    let line = "ABC";
    let result = regex1.is_match(line).unwrap();
    assert!(result);

    // パターン "ab(c|d)" から Regex 構造体を生成
    // is_ignore_case を false に設定
    let pattern = "ab(c|d)";
    let regex2 = basic::Regex::new(pattern, false, false).unwrap();

    // "ABC" という文字列に対して、マッチングを実行
    let line = "ABC";
    let result = regex2.is_match(line).unwrap();
    assert!(!result);
}

#[test]
fn lib_test_is_match_invert() {
    let regex = Regex::new("ab(c|d)", false, true).unwrap();
    assert!(!regex.is_match("abc").unwrap());
    assert!(regex.is_match("abe").unwrap());
}

#[test]
fn test_is_match_invert() {
    // パターン "ab(c|d)" から Regex 構造体を生成
    let pattern = "ab(c|d)";
    let regex = basic::Regex::new(pattern, false, true).unwrap();

    // "abc" という文字列に対して、マッチングを実行
    let line = "abc";
    let result = regex.is_match(line).unwrap();
    assert!(!result);

    // "abe" という文字列に対して、マッチングを実行
    let line = "abe";
    let result = regex.is_match(line).unwrap();
    assert!(result);
}

#[test]
fn test_backreference() {
    let regex = Regex::new("(abc)\\1", false, false).unwrap();
    assert!(regex.is_match("abcabc").unwrap());
    assert!(!regex.is_match("abcabd").unwrap());
}

#[test]
fn test_anchor_patterns() {
    let regex_start = Regex::new("^hello", false, false).unwrap();
    assert!(regex_start.is_match("hello world").unwrap());
    assert!(!regex_start.is_match("say hello").unwrap());

    let regex_end = Regex::new("world$", false, false).unwrap();
    assert!(regex_end.is_match("hello world").unwrap());
    assert!(!regex_end.is_match("world peace").unwrap());

    let regex_both = Regex::new("^hello$", false, false).unwrap();
    assert!(regex_both.is_match("hello").unwrap());
    assert!(!regex_both.is_match("hello world").unwrap());
    assert!(!regex_both.is_match("say hello").unwrap());
}

#[test]
fn test_invalid_pattern() {
    assert!(Regex::new("(", false, false).is_err());
    assert!(Regex::new(")", false, false).is_err());
    assert!(Regex::new("*", false, false).is_err());
    assert!(Regex::new("+", false, false).is_err());
    assert!(Regex::new("?", false, false).is_err());
}

#[test]
fn test_extracts_must_literals_for_filtering() {
    let regex = Regex::new(".*abc.*", false, false).unwrap();
    assert_eq!(*regex.must_literals(), vec!["abc".to_string()]);

    let regex = Regex::new("ab*c", false, false).unwrap();
    assert_eq!(*regex.must_literals(), vec!["a".to_string(), "c".to_string()]);
}

#[test]
fn test_must_literal_filter_skips_non_matching_lines() {
    let regex = Regex::new(".*abc.*", false, false).unwrap();
    assert!(!regex.is_match("zzz").unwrap());
}

#[test]
fn test_must_literal_filter_allows_matching_lines() {
    let regex = Regex::new("a.*c", false, false).unwrap();
    assert!(regex.is_match("a---c").unwrap());
    assert!(!regex.is_match("a---").unwrap());
}

#[test]
fn test_must_literal_filter_respects_invert_match() {
    let regex = Regex::new(".*abc.*", false, true).unwrap();
    assert!(regex.is_match("zzz").unwrap());
}

#[test]
fn test_empty_must_literals_still_runs_matcher() {
    let regex = Regex::new("(abc|def)", false, false).unwrap();
    assert!(regex.must_literals().is_empty());
    assert!(regex.is_match("def").unwrap());
    assert!(!regex.is_match("xyz").unwrap());
}

#[test]
fn test_get_first_strings() {
    // "abc" のテスト
    let insts: Vec<Instruction> = vec![
        Instruction::Char(Char::Literal('a')),
        Instruction::Char(Char::Literal('b')),
        Instruction::Char(Char::Literal('c')),
        Instruction::Match,
    ];
    let first_strings = basic::Regex::get_first_strings(&insts);
    assert_eq!(first_strings.len(), 1);
    assert!(first_strings.iter().any(|s| s == "abc"));

    // "a*bc" のテスト
    let insts: Vec<Instruction> = vec![
        Instruction::Split(1, 3),
        Instruction::Char(Char::Literal('a')),
        Instruction::Jump(0),
        Instruction::Char(Char::Literal('b')),
        Instruction::Char(Char::Literal('c')),
        Instruction::Match,
    ];
    let first_strings = basic::Regex::get_first_strings(&insts);
    assert_eq!(first_strings.len(), 2);
    assert!(first_strings.iter().any(|s| s == "a"));
    assert!(first_strings.iter().any(|s| s == "bc"));

    // 以下のテストは実際にはありえないが、テストのために用意

    // 命令列の先頭が Jump のテスト
    let insts: Vec<Instruction> = vec![
        Instruction::Jump(1),
        Instruction::Char(Char::Literal('a')),
        Instruction::Char(Char::Literal('b')),
        Instruction::Match,
    ];
    let first_strings = basic::Regex::get_first_strings(&insts);
    assert_eq!(first_strings.len(), 0);

    // 命令列の先頭が Match のテスト
    let insts: Vec<Instruction> = vec![
        Instruction::Match,
        Instruction::Char(Char::Literal('a')),
        Instruction::Char(Char::Literal('b')),
    ];
    let first_strings = basic::Regex::get_first_strings(&insts);
    assert_eq!(first_strings.len(), 0);
}

#[test]
fn test_get_string() {
    // "ED*vQYpl" のテスト
    let regex = basic::Regex::new("ED*vQYpl", false, false).unwrap();
    let insts = regex.code();
    let first_strings = basic::Regex::get_first_strings(&insts);
    assert_eq!(first_strings.len(), 1);
    assert!(first_strings.iter().any(|s| s == "E"))
}

#[test]
fn filtered_lines_get_the_evaluator_answer() {
    let (code, must) = compile_pattern_with_must_literals("ab*c").unwrap();
    assert_eq!(must, vec!["a".to_string(), "c".to_string()]);
    let regex = Regex::new("ab*c", false, false).unwrap();
    let inverted = Regex::new("ab*c", false, true).unwrap();
    for line in ["xabbbcx", "ac", "bbbb", "abbb", "cba", ""] {
        let engine = match_line(&code, line).unwrap();
        assert_eq!(regex.is_match(line).unwrap(), engine);
        assert_eq!(inverted.is_match(line).unwrap(), !engine);
    }
}

#[test]
fn regex_errors_have_messages() {
    match Regex::new("(", false, false) {
        Err(e) => assert_eq!(
            e.to_string(),
            "no right parenthesis: missing closing parenthesis ')'"
        ),
        Ok(_) => panic!("expected an error"),
    }
    match Regex::new("*", false, false) {
        Err(e) => assert_eq!(e.to_string(), "no previous expression: unexpected character: *"),
        Ok(_) => panic!("expected an error"),
    }
    match Regex::new("(a)\\2", false, false) {
        Err(e) => assert_eq!(e.to_string(), "CompileError: InvalidBackreference(2)"),
        Ok(_) => panic!("expected an error"),
    }
}

#[test]
fn unclosed_group_is_reported_without_right_parenthesis() {
    match Regex::new("(", false, false) {
        Err(RegexError::Parse(e)) => assert!(e.to_string().contains("no right parenthesis")),
        _ => panic!("expected a parse error"),
    }
}

#[test]
fn leading_repetition_is_reported_without_previous_expression() {
    for pattern in ["*", "+"] {
        match Regex::new(pattern, false, false) {
            Err(RegexError::Parse(e)) => assert!(e.to_string().contains("no previous expression")),
            _ => panic!("expected a parse error"),
        }
    }
}
