use regular_expression::engine::search_plan::{Char, Instruction, SearchPlan};

#[test]
fn test_build_literal_plan() {
    let insts = vec![
        Instruction::Char(Char::Literal(b'a')),
        Instruction::Char(Char::Literal(b'b')),
        Instruction::Match,
    ];
    let plan = SearchPlan::build(&insts);

    assert!(!plan.can_match_empty);
    assert!(!plan.has_any_first_byte);
    assert!(plan.accepts_first_byte(b'a', false));
    assert!(!plan.accepts_first_byte(b'b', false));
    assert_eq!(plan.leading_literal, Some(b"ab".to_vec()));
}

#[test]
fn test_build_split_plan() {
    let insts = vec![
        Instruction::Split(1, 3),
        Instruction::Char(Char::Literal(b'a')),
        Instruction::Jump(5),
        Instruction::Char(Char::Literal(b'b')),
        Instruction::Jump(5),
        Instruction::Match,
    ];
    let plan = SearchPlan::build(&insts);

    assert!(!plan.can_match_empty);
    assert!(!plan.has_any_first_byte);
    assert!(plan.accepts_first_byte(b'a', false));
    assert!(plan.accepts_first_byte(b'b', false));
    assert_eq!(plan.leading_literal, None);
}

#[test]
fn test_build_empty_match_plan() {
    let insts = vec![
        Instruction::Split(1, 3),
        Instruction::Char(Char::Literal(b'a')),
        Instruction::Jump(0),
        Instruction::Match,
    ];
    let plan = SearchPlan::build(&insts);

    assert!(plan.can_match_empty);
    assert!(plan.accepts_first_byte(b'a', false));
    assert!(!plan.accepts_first_byte(b'b', false));
    assert_eq!(plan.leading_literal, None);
}

#[test]
fn test_build_any_plan() {
    let insts = vec![Instruction::Char(Char::Any), Instruction::Match];
    let plan = SearchPlan::build(&insts);

    assert!(plan.has_any_first_byte);
    assert!(plan.accepts_first_byte(0x00, false));
    assert!(plan.accepts_first_byte(0xFF, false));
}

#[test]
fn test_ignore_case_first_byte() {
    let insts = vec![Instruction::Char(Char::Literal(b'a')), Instruction::Match];
    let plan = SearchPlan::build(&insts);

    assert!(plan.accepts_first_byte(b'A', true));
    assert!(!plan.accepts_first_byte(b'A', false));
}

#[test]
fn test_invalid_jump_is_safe() {
    let insts = vec![Instruction::Jump(999)];
    let plan = SearchPlan::build(&insts);
    assert!(!plan.can_match_empty);
    assert!(!plan.has_any_first_byte);
    assert_eq!(plan.first_byte_mask, [0; 4]);
}
