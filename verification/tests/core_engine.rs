use regular_expression::engine::compiler::CompileError;
use regular_expression::engine::instruction::Instruction;
use regular_expression::engine::{
    compile_pattern_with_analysis, compile_pattern_with_must_literals, match_line,
    match_line_from_starts, RegexError,
};

#[test]
fn test_compile_pattern_literal() {
    let (code, _) = compile_pattern_with_must_literals("abc").unwrap();
    assert_eq!(code.len(), 4);
    assert!(matches!(code.last(), Some(Instruction::Match)));
}

#[test]
fn test_compile_pattern_invalid_backreference() {
    let actual = compile_pattern_with_must_literals("(a)\\2");
    assert_eq!(
        actual,
        Err(RegexError::Compile(CompileError::InvalidBackreference(2)))
    );
}

#[test]
fn test_match_line_backreference() {
    let (code, _) = compile_pattern_with_must_literals("(abc)\\1").unwrap();
    assert!(match_line(&code, "abcabc").unwrap());
    assert!(!match_line(&code, "abcabd").unwrap());
}

#[test]
fn test_compile_pattern_with_must_literals() {
    let (_code, must_literals) = compile_pattern_with_must_literals(".*abc.*").unwrap();
    assert_eq!(must_literals, vec!["abc".to_string()]);
}

#[test]
fn test_compile_pattern_with_analysis() {
    let (_code, analysis) = compile_pattern_with_analysis("(abc|def)").unwrap();
    assert!(analysis.must_literals.is_empty());
    assert_eq!(analysis.needles, vec!["abc".to_string(), "def".to_string()]);
    assert!(!analysis.nullable);
}

#[test]
fn test_match_line_from_starts() {
    let (code, _) = compile_pattern_with_must_literals("abc").unwrap();
    assert!(!match_line_from_starts(&code, "xabc", &[0]).unwrap());
    assert!(match_line_from_starts(&code, "xabc", &[1]).unwrap());
}
