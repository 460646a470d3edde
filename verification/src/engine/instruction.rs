//! Instruction set shared by the compiler and the evaluator.
use vstd::prelude::*;
use crate::engine::ast::{CharClass, CharRange, ClassModel, Predicate};
use crate::text::{decimal, padded4, push_decimal, push_padded4, push_str, string_from_chars};

verus! {

/// One instruction of a compiled program.
#[derive(Debug, Clone, PartialEq, Eq)]
pub enum Instruction {
    /// Consume one character accepted by the class.
    CharClass(CharClass),
    /// Check a zero-width assertion.
    Assert(Predicate),
    /// Record the start of a capture group.
    SaveStart(usize),
    /// Record the end of a capture group.
    SaveEnd(usize),
    /// Match the text captured by a group.
    Backref(usize),
    /// Try the first address, then the second.
    Split(usize, usize),
    /// Continue at an address.
    Jump(usize),
    /// Success.
    Match,
}

/// Model of an instruction.
pub enum InstrModel {
    Class(ClassModel),
    Assert(Predicate),
    SaveStart(usize),
    SaveEnd(usize),
    Backref(usize),
    Split(usize, usize),
    Jump(usize),
    Match,
}

impl View for Instruction {
    type V = InstrModel;

    open spec fn view(&self) -> InstrModel {
        match self {
            Instruction::CharClass(c) => InstrModel::Class(c@),
            Instruction::Assert(p) => InstrModel::Assert(*p),
            Instruction::SaveStart(i) => InstrModel::SaveStart(*i),
            Instruction::SaveEnd(i) => InstrModel::SaveEnd(*i),
            Instruction::Backref(i) => InstrModel::Backref(*i),
            Instruction::Split(a, b) => InstrModel::Split(*a, *b),
            Instruction::Jump(a) => InstrModel::Jump(*a),
            Instruction::Match => InstrModel::Match,
        }
    }
}

/// The models of a sequence of instructions.
pub open spec fn program(v: Seq<Instruction>) -> Seq<InstrModel> {
    Seq::new(v.len(), |i: int| v[i]@)
}

/// The instruction set of the second code generator; it is the same set.
pub type InstructionV2 = Instruction;

/// The name of an assertion kind.
pub open spec fn predicate_name(p: Predicate) -> Seq<char> {
    match p {
        Predicate::StartOfLine => "StartOfLine"@,
        Predicate::EndOfLine => "EndOfLine"@,
        Predicate::StartOfText => "StartOfText"@,
        Predicate::EndOfText => "EndOfText"@,
        Predicate::WordBoundary => "WordBoundary"@,
        Predicate::NonWordBoundary => "NonWordBoundary"@,
    }
}

/// Ranges written `start-end`, separated by commas.
pub open spec fn ranges_text(rs: Seq<CharRange>) -> Seq<char>
    decreases rs.len(),
{
    if rs.len() == 0 {
        Seq::empty()
    } else {
        let prev = ranges_text(rs.drop_last());
        let one = seq![rs.last().start, '-', rs.last().end];
        if rs.len() == 1 {
            one
        } else {
            prev + ","@ + one
        }
    }
}

/// The text of an instruction.
pub open spec fn instr_text(i: InstrModel) -> Seq<char> {
    match i {
        InstrModel::Class(c) => "charclass "@ + (if c.negated {
            "^"@
        } else {
            Seq::empty()
        }) + "["@ + ranges_text(c.ranges) + "]"@,
        InstrModel::Assert(p) => "assert "@ + predicate_name(p),
        InstrModel::SaveStart(i) => "save_start "@ + decimal(i as nat),
        InstrModel::SaveEnd(i) => "save_end "@ + decimal(i as nat),
        InstrModel::Backref(i) => "backref "@ + decimal(i as nat),
        InstrModel::Split(a, b) => "split "@ + padded4(a as nat) + ", "@ + padded4(b as nat),
        InstrModel::Jump(a) => "jump "@ + padded4(a as nat),
        InstrModel::Match => "match"@,
    }
}

/// Appends the name of an assertion kind.
fn push_predicate(out: &mut Vec<char>, p: Predicate)
    ensures
        final(out)@ == old(out)@ + predicate_name(p),
{
    match p {
        Predicate::StartOfLine => push_str(out, "StartOfLine"),
        Predicate::EndOfLine => push_str(out, "EndOfLine"),
        Predicate::StartOfText => push_str(out, "StartOfText"),
        Predicate::EndOfText => push_str(out, "EndOfText"),
        Predicate::WordBoundary => push_str(out, "WordBoundary"),
        Predicate::NonWordBoundary => push_str(out, "NonWordBoundary"),
    }
}

/// Appends the text of a class's ranges.
fn push_ranges(out: &mut Vec<char>, ranges: &Vec<CharRange>)
    ensures
        final(out)@ == old(out)@ + ranges_text(ranges@),
{
    let ghost start = out@;
    for i in 0..ranges.len()
        invariant
            out@ == start + ranges_text(ranges@.take(i as int)),
    {
        let ghost before = out@;
        assert(ranges@.take(i + 1).drop_last() =~= ranges@.take(i as int));
        assert(ranges@.take(i + 1).last() == ranges@[i as int]);
        if i > 0 {
            push_str(out, ",");
        }
        let range = ranges[i];
        out.push(range.start);
        out.push('-');
        out.push(range.end);
        if i == 0 {
            assert(ranges@.take(0) =~= Seq::<CharRange>::empty());
            assert(out@ =~= start + ranges_text(ranges@.take(i + 1)));
        } else {
            assert(out@ =~= start + ranges_text(ranges@.take(i + 1)));
        }
    }
    assert(ranges@.take(ranges.len() as int) =~= ranges@);
}

impl Instruction {
    /// The text of the instruction, as a listing shows it.
    pub fn to_string(&self) -> (r: String)
        ensures
            r@ == instr_text(self@),
    {
        let mut out: Vec<char> = Vec::new();
        match self {
            Instruction::CharClass(class) => {
                push_str(&mut out, "charclass ");
                if class.negated {
                    push_str(&mut out, "^");
                }
                push_str(&mut out, "[");
                push_ranges(&mut out, &class.ranges);
                push_str(&mut out, "]");
            },
            Instruction::Assert(predicate) => {
                push_str(&mut out, "assert ");
                push_predicate(&mut out, *predicate);
            },
            Instruction::SaveStart(index) => {
                push_str(&mut out, "save_start ");
                push_decimal(&mut out, *index);
            },
            Instruction::SaveEnd(index) => {
                push_str(&mut out, "save_end ");
                push_decimal(&mut out, *index);
            },
            Instruction::Backref(index) => {
                push_str(&mut out, "backref ");
                push_decimal(&mut out, *index);
            },
            Instruction::Split(addr1, addr2) => {
                push_str(&mut out, "split ");
                push_padded4(&mut out, *addr1);
                push_str(&mut out, ", ");
                push_padded4(&mut out, *addr2);
            },
            Instruction::Jump(addr) => {
                push_str(&mut out, "jump ");
                push_padded4(&mut out, *addr);
            },
            Instruction::Match => push_str(&mut out, "match"),
        }
        assert(out@ =~= instr_text(self@));
        string_from_chars(&out)
    }
}

} // verus!
