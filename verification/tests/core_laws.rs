use regular_expression::engine::analysis::extract_must_literals;
use regular_expression::engine::ast::Ast;
use regular_expression::engine::compiler::compile_v2;
use regular_expression::engine::evaluator::{eval, eval_from_start};
use regular_expression::engine::instruction::InstructionV2;
use regular_expression::engine::parser::parse;
use regular_expression::Regex;

fn capture_indices(ast: &Ast, out: &mut Vec<usize>) {
    match ast {
        Ast::Capture { expr, index } => {
            out.push(*index);
            capture_indices(expr, out);
        }
        Ast::ZeroOrMore { expr, .. }
        | Ast::OneOrMore { expr, .. }
        | Ast::ZeroOrOne { expr, .. }
        | Ast::Repeat { expr, .. } => capture_indices(expr, out),
        Ast::Concat(items) => {
            for item in items {
                capture_indices(item, out);
            }
        }
        Ast::Alternate(l, r) => {
            capture_indices(l, out);
            capture_indices(r, out);
        }
        _ => {}
    }
}

#[test]
fn parsed_groups_are_numbered_in_order() {
    let ast = parse("(a(b)|(c))(d)*").unwrap();
    let mut indices = Vec::new();
    capture_indices(&ast, &mut indices);
    assert_eq!(indices, vec![1, 2, 3, 4]);
}

#[test]
fn compiled_programs_end_with_their_only_match() {
    for pattern in ["", "a|b", "(a*)*", "(ab)\\1{2,3}"] {
        let code = compile_v2(&parse(pattern).unwrap()).unwrap();
        assert_eq!(code.last(), Some(&InstructionV2::Match));
        assert_eq!(code.iter().filter(|i| **i == InstructionV2::Match).count(), 1);
    }
    assert_eq!(compile_v2(&Ast::Empty).unwrap(), vec![InstructionV2::Match]);
}

#[test]
fn must_literals_are_ordered_without_repeats() {
    let lits = extract_must_literals(&parse("xyzab.*ab.*c").unwrap());
    assert_eq!(lits, vec!["xyzab".to_string(), "ab".to_string(), "c".to_string()]);
}

#[test]
fn anchored_match_is_found_by_full_search() {
    let code = compile_v2(&parse("ab*").unwrap()).unwrap();
    for line in ["abbb", "a", "xab", ""] {
        if eval_from_start(&code, line) == Ok(true) {
            assert_eq!(eval(&code, line), Ok(true));
        }
    }
    assert_eq!(eval_from_start(&code, "abbb"), Ok(true));
    assert_eq!(eval(&code, "abbb"), Ok(true));
}

#[test]
fn inverted_regex_answers_oppositely() {
    let plain = Regex::new("ab(c|d)", false, false).unwrap();
    let inverted = Regex::new("ab(c|d)", false, true).unwrap();
    assert_eq!(inverted.is_match("abc"), Ok(false));
    assert_eq!(inverted.is_match("abe"), Ok(true));
    for line in ["abc", "abe", "", "xxabd"] {
        assert_eq!(inverted.is_match(line), plain.is_match(line).map(|m| !m));
    }
}
