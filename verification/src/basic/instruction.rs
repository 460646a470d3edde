//! Instructions of the basic engine.
use vstd::prelude::*;
use crate::text::{padded4, push_padded4, push_str, string_from_chars};

verus! {

/// A character test.
#[derive(Debug, Clone, Copy, PartialEq, Eq, Structural)]
pub enum Char {
    /// A given character.
    Literal(char),
    /// Any character.
    Any,
}

/// An instruction of the basic engine.
#[derive(Debug, Clone, Copy, PartialEq, Eq, Structural)]
pub enum Instruction {
    /// Consume one character that passes the test.
    Char(Char),
    /// Success.
    Match,
    /// Continue at an address.
    Jump(usize),
    /// Try the first address, then the second.
    Split(usize, usize),
}

/// The text of an instruction.
pub open spec fn instruction_text(i: Instruction) -> Seq<char> {
    match i {
        Instruction::Char(Char::Literal(c)) => "char "@.push(c),
        Instruction::Char(Char::Any) => "char any"@,
        Instruction::Match => "match"@,
        Instruction::Jump(a) => "jump "@ + padded4(a as nat),
        Instruction::Split(a, b) => "split "@ + padded4(a as nat) + ", "@ + padded4(b as nat),
    }
}

impl Instruction {
    /// The text of the instruction, as a listing shows it.
    pub fn to_string(&self) -> (r: String)
        ensures
            r@ == instruction_text(*self),
    {
        let mut out: Vec<char> = Vec::new();
        match self {
            Instruction::Char(Char::Literal(c)) => {
                push_str(&mut out, "char ");
                out.push(*c);
            },
            Instruction::Char(Char::Any) => push_str(&mut out, "char any"),
            Instruction::Match => push_str(&mut out, "match"),
            Instruction::Jump(addr) => {
                push_str(&mut out, "jump ");
                push_padded4(&mut out, *addr);
            },
            Instruction::Split(addr1, addr2) => {
                push_str(&mut out, "split ");
                push_padded4(&mut out, *addr1);
                push_str(&mut out, ", ");
                push_padded4(&mut out, *addr2);
            },
        }
        assert(out@ =~= instruction_text(*self));
        string_from_chars(&out)
    }
}

} // verus!
