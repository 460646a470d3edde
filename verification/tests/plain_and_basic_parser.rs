use regular_expression::basic::error::ParseError;
use regular_expression::basic::parser::{fold_or, parse, parse_escape, parse_qualifier, Ast};
use regular_expression::simple::parser as plain;
use regular_expression::simple::parser::{Qualifier, AST};
use std::mem::take;

#[test]
fn parser_test_parse_escape_success() {
    {
    let expect: Ast = Ast::Char('\\');

    // テスト対象を実行
    let actual: Ast = parse_escape(0, '\\').unwrap();
    assert_eq!(actual, expect);
    }
}

#[test]
fn test_parse_escape_success() {
    // テスト対象を実行
    let actual: AST = plain::parse_escape(0, '\\').unwrap();
    let expect: AST = AST::Char('\\');

    assert_eq!(actual, expect);
}

#[test]
fn parser_test_parse_escape_failure() {
    {
    let expect = Err(ParseError::InvalidEscape(0, 'a'));

    // テスト対象を実行
    let actual = parse_escape(0, 'a');
    assert_eq!(actual, expect);
    }
}

#[test]
fn test_parse_escape_failure() {
    // テスト対象を実行
    let actual = plain::parse_escape(0, 'a');
    let expect = Err(ParseError::InvalidEscape(0, 'a'));

    assert_eq!(actual, expect);
}

#[test]
fn parser_test_parse_qualifier_plus() {
    {
    let expect: Ast = Ast::Plus(Box::new(Ast::Char('a')));

    // テスト対象を実行
    let ast: Ast = Ast::Char('a');
    let actual: Ast = parse_qualifier('+', ast);
    assert_eq!(actual, expect);
    }
}

#[test]
fn test_parse_qualifier_plus() {
    // テスト対象を実行
    let ast: AST = AST::Char('a');
    let actual: AST = plain::parse_qualifier(Qualifier::Plus, ast);

    let expect: AST = AST::Plus(Box::new(AST::Char('a')));

    assert_eq!(actual, expect);
}

#[test]
fn parser_test_parse_qualifier_star() {
    {
    let expect: Ast = Ast::Star(Box::new(Ast::Char('a')));

    // テスト対象を実行
    let ast: Ast = Ast::Char('a');
    let actual: Ast = parse_qualifier('*', ast);
    assert_eq!(actual, expect);
    }
}

#[test]
fn test_parse_qualifier_star() {
    // テスト対象を実行
    let ast: AST = AST::Char('a');
    let actual: AST = plain::parse_qualifier(Qualifier::Star, ast);

    let expect: AST = AST::Star(Box::new(AST::Char('a')));

    assert_eq!(actual, expect);
}

#[test]
fn parser_test_parse_qualifier_question() {
    {
    let expect: Ast = Ast::Question(Box::new(Ast::Char('a')));

    // テスト対象を実行
    let ast: Ast = Ast::Char('a');
    let actual: Ast = parse_qualifier('?', ast);
    assert_eq!(actual, expect);
    }
}

#[test]
fn test_parse_qualifier_question() {
    // テスト対象を実行
    let ast: AST = AST::Char('a');
    let actual: AST = plain::parse_qualifier(Qualifier::Question, ast);

    let expect: AST = AST::Question(Box::new(AST::Char('a')));

    assert_eq!(actual, expect);
}

#[test]
fn parser_test_fold_or_if_true() {
    {
    // パターン "a|b|c" を想定し、データ準備
    let seq: Vec<Ast> = vec![Ast::Char('a'), Ast::Char('b'), Ast::Char('c')];

    // a|b|c をパースした場合、以下のAstができる
    // Ast::Or(Ast::Char('a'), Ast::Or(Ast::Char('b'), Ast::Char('c')))
    // 上記のAstを用意するため、データを定義
    let left: Ast = Ast::Char('a');
    let right: Ast = Ast::Or(Box::new(Ast::Char('b')), Box::new(Ast::Char('c')));
    let expect: Ast = Ast::Or(Box::new(left), Box::new(right));

    let actual: Ast = fold_or(seq).unwrap();

    assert_eq!(actual, expect);
    }
}

#[test]
fn test_fold_or_if_true() {
    // パターン "a|b|c" を想定し、データ準備
    let seq: Vec<AST> = vec![AST::Char('a'), AST::Char('b'), AST::Char('c')];

    // a|b|c をパースした場合、以下のASTができる
    // AST::Or(AST::Char('a'), AST::Or(AST::Char('b'), AST::Char('c')))
    // 上記のASTを用意するため、データを定義
    let left: AST = AST::Char('a');
    let right: AST = AST::Or(Box::new(AST::Char('b')), Box::new(AST::Char('c')));
    let expect: AST = AST::Or(Box::new(left), Box::new(right));

    let actual: AST = plain::fold_or(seq).unwrap();

    assert_eq!(actual, expect);
}

#[test]
fn parser_test_fold_or_if_false() {
    {
    // 長さ 1 の配列を準備
    let seq: Vec<Ast> = vec![Ast::Char('a')];

    let expect: Ast = Ast::Char('a');

    // テスト対象を実行
    let actual: Ast = fold_or(seq).unwrap();

    assert_eq!(actual, expect);
    }
}

#[test]
fn test_fold_or_if_false() {
    // 長さ 1 の配列を準備
    let mut seq: Vec<AST> = Vec::new();
    seq.push(AST::Char('a'));

    let expect: AST = AST::Char('a');

    // テスト対象を実行
    let actual = plain::fold_or(seq).unwrap();

    assert_eq!(actual, expect);
}

#[test]
fn parser_test_parse_normal_string() {
    {
    // ----- "abc" が入力されたケース -----
    let expect: Ast = Ast::Sequence(vec![Ast::Char('a'), Ast::Char('b'), Ast::Char('c')]);
    // テスト対象を実行
    let pattern: &str = "abc";
    let actual: Ast = parse(pattern).unwrap();
    assert_eq!(actual, expect);
    }
}

#[test]
fn test_parse_normal_string() {
    // ----- "abc" が入力されたケース -----
    let expect1: AST = AST::Sequence(vec![AST::Char('a'), AST::Char('b'), AST::Char('c')]);

    let pattern1: &str = "abc";
    let actual1: AST = plain::parse(pattern1).unwrap();
    assert_eq!(actual1, expect1);

    // ----- "abc+" が入力されたケース -----
    let expect2: AST = AST::Sequence(vec![AST::Char('a'), AST::Char('b'), AST::Plus(Box::new(AST::Char('c')))]);

    let pattern2: &str = "abc+";
    let actual2: AST = plain::parse(pattern2).unwrap();
    assert_eq!(actual2, expect2);

    // ----- "abc|def|ghi" が入力されたケース-----
    let abc: AST = AST::Sequence(vec![AST::Char('a'), AST::Char('b'), AST::Char('c')]);
    let def: AST = AST::Sequence(vec![AST::Char('d'), AST::Char('e'), AST::Char('f')]);
    let ghi: AST = AST::Sequence(vec![AST::Char('g'), AST::Char('h'), AST::Char('i')]);

    let expect3: AST = AST::Or(
        Box::new(abc),
        Box::new(AST::Or(
            Box::new(def),
            Box::new(ghi),
        ))
    );

    let pattern3: &str= "abc|def|ghi";
    let actual3: AST = plain::parse(pattern3).unwrap();
    assert_eq!(actual3, expect3);

    // ----- "abc(def|ghi)" が入力されたケース-----
    let expect4: AST = AST::Sequence(vec![
        AST::Char('a'),
        AST::Char('b'),
        AST::Char('c'),
        AST::Or(
            Box::new(AST::Sequence(vec![AST::Char('d'), AST::Char('e'), AST::Char('f')])),
            Box::new(AST::Sequence(vec![AST::Char('g'), AST::Char('h'), AST::Char('i')]))
        )
    ]);
    let pattern4: &str = "abc(def|ghi)";
    let actual4: AST = plain::parse(pattern4).unwrap();

    assert_eq!(actual4, expect4);
}

#[test]
fn test_parse_contain_qualifier() {
    // ----- "abc+" が入力されたケース -----
    let expect: Ast = Ast::Sequence(vec![
        Ast::Char('a'),
        Ast::Char('b'),
        Ast::Plus(Box::new(Ast::Char('c'))),
    ]);
    // テスト対象を実行
    let pattern: &str = "abc+";
    let actual: Ast = parse(pattern).unwrap();
    assert_eq!(actual, expect);
}

#[test]
fn test_parse_contain_or() {
    // ----- "abc|def|ghi" が入力されたケース-----
    let abc: Ast = Ast::Sequence(vec![Ast::Char('a'), Ast::Char('b'), Ast::Char('c')]);
    let def: Ast = Ast::Sequence(vec![Ast::Char('d'), Ast::Char('e'), Ast::Char('f')]);
    let ghi: Ast = Ast::Sequence(vec![Ast::Char('g'), Ast::Char('h'), Ast::Char('i')]);

    let expect: Ast = Ast::Or(
        Box::new(abc),
        Box::new(Ast::Or(Box::new(def), Box::new(ghi))),
    );
    // テスト対象を実行
    let pattern: &str = "abc|def|ghi";
    let actual: Ast = parse(pattern).unwrap();
    assert_eq!(actual, expect);
}

#[test]
fn test_parse_contain_paran() {
    // ----- "abc(def|ghi)" が入力されたケース-----
    let expect: Ast = Ast::Sequence(vec![
        Ast::Char('a'),
        Ast::Char('b'),
        Ast::Char('c'),
        Ast::Or(
            Box::new(Ast::Sequence(vec![
                Ast::Char('d'),
                Ast::Char('e'),
                Ast::Char('f'),
            ])),
            Box::new(Ast::Sequence(vec![
                Ast::Char('g'),
                Ast::Char('h'),
                Ast::Char('i'),
            ])),
        ),
    ]);
    // テスト対象を実行
    let pattern: &str = "abc(def|ghi)";
    let actual: Ast = parse(pattern).unwrap();

    assert_eq!(actual, expect);
}

#[test]
fn test_parse_contain_period() {
    // ----- "a.c" が入力されたケース-----
    let expect: Ast = Ast::Sequence(vec![Ast::Char('a'), Ast::AnyChar, Ast::Char('c')]);
    // テスト対象を実行
    let pattern: &str = "a.c";
    let actual: Ast = parse(pattern).unwrap();

    assert_eq!(actual, expect);
}

#[test]
fn test_parse_contain_escape() {
    // ----- "a\*b" が入力されたケース -----
    let expect: Ast = Ast::Sequence(vec![Ast::Char('a'), Ast::Char('*'), Ast::Char('b')]);
    // テスト対象を実行
    let pattern: &str = "a\\*b";
    let actual: Ast = parse(pattern).unwrap();
    assert_eq!(actual, expect);
}

#[test]
fn test_parse_return_err() {
    // ----- "abc(def|ghi" が入力されたケース -----
    let expect = Err(ParseError::NoRightParen);

    // テスト対象を実行
    let pattern: &str = "abc(def|ghi";
    let actual = parse(pattern);
    assert_eq!(actual, expect);

    // ----- "abc(def|ghi))" が入力されたケース -----
    let expect = Err(ParseError::InvalidRightParen(12));
    // テスト対象を実行
    let pattern: &str = "abc(def|ghi))";
    let actual = parse(pattern);
    assert_eq!(actual, expect);

    // ----- "*abc" が入力されたケース -----
    let expect = Err(ParseError::NoPrev(0));
    // テスト対象を実行
    let pattern: &str = "*abc";
    let actual = parse(pattern);
    assert_eq!(actual, expect);

    // ----- "" が入力されたケース -----
    let expect = Err(ParseError::Empty);
    // テスト対象を実行
    let pattern: &str = "";
    let actual = parse(pattern);
    assert_eq!(actual, expect);

    // ----- "a\bc" が入力されたケース -----
    let expect = Err(ParseError::InvalidEscape(2, 'b'));
    // テスト対象を実行
    let pattern: &str = "a\\bc";
    let actual = parse(pattern);
    assert_eq!(actual, expect);
}

#[test]
fn try_take() {
    // take()の動作確認。
    // b に a の値 = Some(10) を代入。
    // その後、a に None を代入。
    let mut a: Option<i32> = Some(10);
    let b: Option<i32> = take(&mut a);

    assert_eq!(a, None); // a == None を確認するテスト
    assert_eq!(b, Some(10)); // b == Some(10) を確認するテスト
}

#[test]
fn test_convert_char_to_qualifier_plus() {
    let plus: Qualifier = plain::convert_char_to_qualifier('+').unwrap();
    assert_eq!(plus, Qualifier::Plus);
}

#[test]
fn test_convert_char_to_qualifier_star() {
    let star: Qualifier = plain::convert_char_to_qualifier('*').unwrap();
    assert_eq!(star, Qualifier::Star);
}

#[test]
fn test_convert_char_to_qualifier_question() {
    let question: Qualifier = plain::convert_char_to_qualifier('?').unwrap();
    assert_eq!(question, Qualifier::Question);
}

#[test]
fn test_convert_char_to_qualifier_none() {
    let none = plain::convert_char_to_qualifier('c');
    assert_eq!(none, None);
}

