use regular_expression::engine::ast::{CharClass, CharRange, Predicate};
use regular_expression::basic::instruction as basic_instruction;
use regular_expression::engine::instruction::{Instruction, InstructionV2};

#[test]
fn instruction_test_instruction_fmt() {
    let class = CharClass::new(
        vec![
            CharRange {
                start: 'a',
                end: 'z',
            },
            CharRange {
                start: '0',
                end: '9',
            },
        ],
        false,
    );

    assert_eq!(
        Instruction::CharClass(class).to_string(),
        "charclass [a-z,0-9]"
    );
    assert_eq!(
        Instruction::Assert(Predicate::StartOfLine).to_string(),
        "assert StartOfLine"
    );
    assert_eq!(Instruction::SaveStart(1).to_string(), "save_start 1");
    assert_eq!(Instruction::SaveEnd(1).to_string(), "save_end 1");
    assert_eq!(Instruction::Backref(1).to_string(), "backref 1");
    assert_eq!(Instruction::Split(2, 10).to_string(), "split 0002, 0010");
    assert_eq!(Instruction::Jump(10).to_string(), "jump 0010");
    assert_eq!(Instruction::Match.to_string(), "match");
}

#[test]
fn test_instruction_fmt() {
    let inst_literal = basic_instruction::Instruction::Char(basic_instruction::Char::Literal('a'));
    let inst_any = basic_instruction::Instruction::Char(basic_instruction::Char::Any);
    let inst_match = basic_instruction::Instruction::Match;
    let inst_jump = basic_instruction::Instruction::Jump(10);
    let inst_split = basic_instruction::Instruction::Split(20, 30);

    assert_eq!(inst_literal.to_string(), "char a");
    assert_eq!(inst_any.to_string(), "char any");
    assert_eq!(inst_match.to_string(), "match");
    assert_eq!(inst_jump.to_string(), "jump 0010");
    assert_eq!(inst_split.to_string(), "split 0020, 0030");
}

#[test]
fn test_instruction_fmt_negated_class() {
    let class = CharClass::new(
        vec![CharRange {
            start: 'a',
            end: 'a',
        }],
        true,
    );
    assert_eq!(
        Instruction::CharClass(class).to_string(),
        "charclass ^[a-a]"
    );
}

#[test]
fn test_instruction_v2_fmt() {
    let class = CharClass::new(
        vec![
            CharRange {
                start: 'a',
                end: 'z',
            },
            CharRange {
                start: '0',
                end: '9',
            },
        ],
        false,
    );

    assert_eq!(
        InstructionV2::CharClass(class).to_string(),
        "charclass [a-z,0-9]"
    );
    assert_eq!(
        InstructionV2::Assert(Predicate::StartOfLine).to_string(),
        "assert StartOfLine"
    );
    assert_eq!(InstructionV2::SaveStart(1).to_string(), "save_start 1");
    assert_eq!(InstructionV2::SaveEnd(1).to_string(), "save_end 1");
    assert_eq!(InstructionV2::Backref(1).to_string(), "backref 1");
    assert_eq!(
        InstructionV2::Split(2, 10).to_string(),
        "split 0002, 0010"
    );
    assert_eq!(InstructionV2::Jump(10).to_string(), "jump 0010");
    assert_eq!(InstructionV2::Match.to_string(), "match");
}

#[test]
fn test_instruction_v2_fmt_negated_class() {
    let class = CharClass::new(
        vec![CharRange {
            start: 'a',
            end: 'a',
        }],
        true,
    );
    assert_eq!(
        InstructionV2::CharClass(class).to_string(),
        "charclass ^[a-a]"
    );
}
