use regular_expression::engine::analysis::{
    analyze_ast, extract_must_literals, extract_needles, is_nullable, MUST_LITERAL_LIMIT,
};
use regular_expression::engine::parser::parse;

#[test]
fn test_extract_must_literals_dot_star_abc_dot_star() {
    let ast = parse(".*abc.*").unwrap();
    let actual = extract_must_literals(&ast);
    assert_eq!(actual, vec!["abc".to_string()]);
}

#[test]
fn test_extract_must_literals_alternate_no_common_literal() {
    let ast = parse("(abc|def)").unwrap();
    let actual = extract_must_literals(&ast);
    assert_eq!(actual, Vec::<String>::new());
}

#[test]
fn test_extract_must_literals_ab_star_c() {
    let ast = parse("ab*c").unwrap();
    let actual = extract_must_literals(&ast);
    assert_eq!(actual, vec!["a".to_string(), "c".to_string()]);
}

#[test]
fn test_extract_must_literals_a_class_z() {
    let ast = parse("a[a-z]z").unwrap();
    let actual = extract_must_literals(&ast);
    assert_eq!(actual, vec!["a".to_string(), "z".to_string()]);
}

#[test]
fn test_extract_must_literals_limit_prefers_longer_then_lexicographic() {
    let pattern = [
        "ppp", "aaa", "qqq", "bbb", "ccc", "ddd", "eee", "fff", "ggg", "hhh", "iii", "jjj",
        "kkk", "lll", "mmm", "nnn", "ooo", "zzzz",
    ]
    .join(".*");
    let ast = parse(&pattern).unwrap();

    let actual = extract_must_literals(&ast);
    assert_eq!(actual.len(), MUST_LITERAL_LIMIT);
    let expected = [
        "zzzz", "aaa", "bbb", "ccc", "ddd", "eee", "fff", "ggg", "hhh", "iii", "jjj", "kkk",
        "lll", "mmm", "nnn", "ooo",
    ]
    .into_iter()
    .map(str::to_string)
    .collect::<Vec<_>>();
    assert_eq!(actual, expected);
}

#[test]
fn test_analyze_ast_alternate_needles_and_nullable() {
    let ast = parse("(abc|def)").unwrap();
    let actual = analyze_ast(&ast);
    assert_eq!(actual.needles, vec!["abc".to_string(), "def".to_string()]);
    assert!(!actual.nullable);
}

#[test]
fn test_analyze_ast_zero_or_more_nullable_and_needles() {
    let ast = parse("(abc)*").unwrap();
    let actual = analyze_ast(&ast);
    assert!(actual.nullable);
    assert_eq!(actual.needles, vec!["abc".to_string()]);
}

#[test]
fn test_is_nullable_repeat_zero_to_n() {
    let ast = parse("(abc|def){0,3}").unwrap();
    assert!(is_nullable(&ast));
}

#[test]
fn test_is_nullable_ab_plus_c() {
    let ast = parse("ab+c").unwrap();
    assert!(!is_nullable(&ast));
}

#[test]
fn test_extract_needles_limit_prefers_longer_then_lexicographic() {
    let pattern = [
        "ppp", "aaa", "qqq", "bbb", "ccc", "ddd", "eee", "fff", "ggg", "hhh", "iii", "jjj",
        "kkk", "lll", "mmm", "nnn", "ooo", "zzzz",
    ]
    .join("|");
    let ast = parse(&pattern).unwrap();

    let actual = extract_needles(&ast);
    assert_eq!(actual.len(), MUST_LITERAL_LIMIT);
    let expected = [
        "zzzz", "aaa", "bbb", "ccc", "ddd", "eee", "fff", "ggg", "hhh", "iii", "jjj", "kkk",
        "lll", "mmm", "nnn", "ooo",
    ]
    .into_iter()
    .map(str::to_string)
    .collect::<Vec<_>>();
    assert_eq!(actual, expected);
}

#[test]
fn test_backreference_analysis_is_conservative() {
    let ast = parse("\\1").unwrap();
    let actual = analyze_ast(&ast);
    assert!(!actual.nullable);
    assert!(actual.needles.is_empty());
}
