//! Compiler of the basic engine: from a tree to instructions.
//!
//! `ab(c|d)` compiles to
//!
//! ```text
//! 0 : char a
//! 1 : char b
//! 2 : split 0003, 0005
//! 3 : char c
//! 4 : jump 0006
//! 5 : char d
//! 6 : match
//! ```
//!
//! The compiler keeps a program counter and the instructions so far; `split`
//! and `jump` targets not yet known are written as 0 and patched later. The
//! spec functions below say what each step does to that state, whatever the
//! state is.
use vstd::prelude::*;
use crate::basic::error::CompileError;
use crate::basic::instruction::{Char, Instruction};
use crate::basic::parser::{Ast, Node, lemma_seq_view, nodes};
use crate::engine::safe_add;

verus! {

/// The compiler's state: the program counter and the instructions so far.
pub struct CState {
    pub pc: nat,
    pub code: Seq<Instruction>,
}

/// The state after a step, and the error that stopped it, if any.
pub type Outcome = (CState, Option<CompileError>);

/// Incrementing the program counter.
pub open spec fn inc(st: CState) -> Outcome {
    if st.pc < usize::MAX {
        (CState { pc: st.pc + 1, ..st }, None)
    } else {
        (st, Some(CompileError::PCOverFlow))
    }
}

/// Incrementing the program counter, then appending `i`.
pub open spec fn emit(st: CState, i: Instruction) -> Outcome {
    let (s1, e) = inc(st);
    if e is Some {
        (s1, e)
    } else {
        (CState { code: s1.code.push(i), ..s1 }, None)
    }
}

/// Appending a split whose second target is not known yet.
pub open spec fn placeholder(st: CState) -> Outcome {
    let (s1, e) = inc(st);
    if e is Some {
        (s1, e)
    } else {
        (CState { code: s1.code.push(Instruction::Split(s1.pc as usize, 0)), ..s1 }, None)
    }
}

/// Setting the open target of the split or jump at `index` to the program
/// counter; `err` when there is no such instruction there.
pub open spec fn patch(st: CState, index: int, err: CompileError) -> Outcome {
    if 0 <= index < st.code.len() {
        match st.code[index] {
            Instruction::Split(l, _) => (
                CState { code: st.code.update(index, Instruction::Split(l, st.pc as usize)), ..st },
                None,
            ),
            Instruction::Jump(_) => (
                CState { code: st.code.update(index, Instruction::Jump(st.pc as usize)), ..st },
                None,
            ),
            _ => (st, Some(err)),
        }
    } else {
        (st, Some(err))
    }
}

/// What compiling a tree does to the state.
pub open spec fn gen(n: Node, st: CState) -> Outcome
    decreases n, 1int,
{
    match n {
        Node::AnyChar => emit(st, Instruction::Char(Char::Any)),
        Node::Char(c) => emit(st, Instruction::Char(Char::Literal(c))),
        Node::Plus(e) => {
            let left = st.pc;
            let (s1, e1) = gen(*e, st);
            if e1 is Some {
                (s1, e1)
            } else {
                let (s2, e2) = inc(s1);
                if e2 is Some {
                    (s2, e2)
                } else {
                    (CState { code: s2.code.push(Instruction::Split(left as usize, s2.pc as usize)), ..s2 }, None)
                }
            }
        },
        Node::Star(e) => {
            let split_count = st.pc;
            let (s1, e1) = placeholder(st);
            if e1 is Some {
                (s1, e1)
            } else {
                let (s2, e2) = gen(*e, s1);
                if e2 is Some {
                    (s2, e2)
                } else {
                    let (s3, e3) = emit(s2, Instruction::Jump(split_count as usize));
                    if e3 is Some {
                        (s3, e3)
                    } else {
                        patch(s3, split_count as int, CompileError::FailStar)
                    }
                }
            }
        },
        Node::Question(e) => {
            let split_count = st.pc;
            let (s1, e1) = placeholder(st);
            if e1 is Some {
                (s1, e1)
            } else {
                let (s2, e2) = gen(*e, s1);
                if e2 is Some {
                    (s2, e2)
                } else {
                    patch(s2, split_count as int, CompileError::FailQuestion)
                }
            }
        },
        Node::Or(l0, r0) => {
            let l = *l0;
            let r = *r0;
            let split_count = st.pc;
            let (s1, e1) = placeholder(st);
            if e1 is Some {
                (s1, e1)
            } else {
                let (s2, e2) = gen(l, s1);
                if e2 is Some {
                    (s2, e2)
                } else {
                    let jump_count = s2.pc;
                    let (s3, e3) = emit(s2, Instruction::Jump(0));
                    if e3 is Some {
                        (s3, e3)
                    } else {
                        let (s4, e4) = patch(s3, split_count as int, CompileError::FailOr);
                        if e4 is Some {
                            (s4, e4)
                        } else {
                            let (s5, e5) = gen(r, s4);
                            if e5 is Some {
                                (s5, e5)
                            } else {
                                patch(s5, jump_count as int, CompileError::FailOr)
                            }
                        }
                    }
                }
            }
        },
        Node::Sequence(items) => gen_list(items, st),
    }
}

/// What compiling the trees of a concatenation, in order, does to the state.
pub open spec fn gen_list(items: Seq<Node>, st: CState) -> Outcome
    decreases items, 0int,
{
    if items.len() == 0 {
        (st, None)
    } else {
        let (s1, e1) = gen_list(items.subrange(0, items.len() - 1), st);
        if e1 is Some {
            (s1, e1)
        } else {
            gen(items[items.len() - 1], s1)
        }
    }
}

/// What compiling a whole tree does: its code followed by `match`.
pub open spec fn gen_program(n: Node, st: CState) -> Outcome {
    let (s1, e1) = gen(n, st);
    if e1 is Some {
        (s1, e1)
    } else {
        emit(s1, Instruction::Match)
    }
}

/// Code generator state.
#[derive(Debug)]
pub struct Compiler {
    /// The next address.
    pub p_counter: usize,
    /// The instructions so far.
    pub instructions: Vec<Instruction>,
}

impl Compiler {
    /// The model of the state.
    pub open spec fn state(&self) -> CState {
        CState { pc: self.p_counter as nat, code: self.instructions@ }
    }

    /// Whether the state and error are those of an outcome.
    pub open spec fn reached(&self, r: Result<(), CompileError>, o: Outcome) -> bool {
        &&& self.state() == o.0
        &&& match o.1 {
            None => r is Ok,
            Some(e) => r == Err::<(), CompileError>(e),
        }
    }

    /// Increments the program counter, failing on overflow.
    pub fn increment_p_counter(&mut self) -> (r: Result<(), CompileError>)
        ensures
            final(self).reached(r, inc(old(self).state())),
    {
        safe_add(
            &mut self.p_counter,
            &1,
            || -> (e: CompileError) ensures e == CompileError::PCOverFlow { CompileError::PCOverFlow },
        )
    }

    /// Increments the program counter and appends `inst`.
    fn emit(&mut self, inst: Instruction) -> (r: Result<(), CompileError>)
        ensures
            final(self).reached(r, emit(old(self).state(), inst)),
    {
        match self.increment_p_counter() {
            Ok(()) => {},
            Err(e) => return Err(e),
        }
        self.instructions.push(inst);
        Ok(())
    }

    /// Appends a split whose second target is 0 for now, and returns the
    /// address it had before.
    pub fn insert_split_placeholder(&mut self) -> (r: Result<usize, CompileError>)
        ensures
            final(self).reached(
                match r {
                    Ok(_) => Ok(()),
                    Err(e) => Err(e),
                },
                placeholder(old(self).state()),
            ),
            r matches Ok(i) ==> i == old(self).p_counter,
    {
        let placeholder_index: usize = self.p_counter;
        match self.increment_p_counter() {
            Ok(()) => {},
            Err(e) => return Err(e),
        }
        self.instructions.push(Instruction::Split(self.p_counter, 0));
        Ok(placeholder_index)
    }

    /// Sets the open target of the split or jump at `index` to the program
    /// counter; `err` when there is none there.
    pub fn update_instruction_address(&mut self, index: usize, err: CompileError) -> (r: Result<
        (),
        CompileError,
    >)
        ensures
            final(self).reached(r, patch(old(self).state(), index as int, err)),
    {
        if index >= self.instructions.len() {
            return Err(err);
        }
        match self.instructions[index] {
            Instruction::Split(left, _) => {
                self.instructions.set(index, Instruction::Split(left, self.p_counter));
                Ok(())
            },
            Instruction::Jump(_) => {
                self.instructions.set(index, Instruction::Jump(self.p_counter));
                Ok(())
            },
            _ => Err(err),
        }
    }

    /// Appends the code of `ast`.
    pub fn gen_expr(&mut self, ast: &Ast) -> (r: Result<(), CompileError>)
        ensures
            final(self).reached(r, gen(ast@, old(self).state())),
        decreases ast, 1int,
    {
        match ast {
            Ast::AnyChar => self.gen_anychar(),
            Ast::Char(c) => self.gen_char(*c),
            Ast::Or(e1, e2) => self.gen_or_in(e1, e2, Ghost(*ast)),
            Ast::Plus(e) => self.gen_plus(e),
            Ast::Star(e) => self.gen_star(e),
            Ast::Question(e) => self.gen_question(e),
            Ast::Sequence(v) => {
                proof {
                    lemma_seq_view(*v);
                }
                self.gen_seq(v)
            },
        }
    }

    /// Appends `char c`.
    pub fn gen_char(&mut self, c: char) -> (r: Result<(), CompileError>)
        ensures
            final(self).reached(r, gen(Node::Char(c), old(self).state())),
    {
        self.emit(Instruction::Char(Char::Literal(c)))
    }

    /// Appends `char any`.
    pub fn gen_anychar(&mut self) -> (r: Result<(), CompileError>)
        ensures
            final(self).reached(r, gen(Node::AnyChar, old(self).state())),
    {
        self.emit(Instruction::Char(Char::Any))
    }

    /// Appends the code of `e*`: a split, the code of `e`, and a jump back.
    pub fn gen_star(&mut self, ast: &Ast) -> (r: Result<(), CompileError>)
        ensures
            final(self).reached(r, gen(Node::Star(Box::new(ast@)), old(self).state())),
        decreases ast, 2int,
    {
        let split_count = match self.insert_split_placeholder() {
            Ok(i) => i,
            Err(e) => return Err(e),
        };
        match self.gen_expr(ast) {
            Ok(()) => {},
            Err(e) => return Err(e),
        }
        match self.emit(Instruction::Jump(split_count)) {
            Ok(()) => {},
            Err(e) => return Err(e),
        }
        self.update_instruction_address(split_count, CompileError::FailStar)
    }

    /// Appends the code of `e+`: the code of `e` and a split back.
    pub fn gen_plus(&mut self, ast: &Ast) -> (r: Result<(), CompileError>)
        ensures
            final(self).reached(r, gen(Node::Plus(Box::new(ast@)), old(self).state())),
        decreases ast, 2int,
    {
        let left: usize = self.p_counter;
        match self.gen_expr(ast) {
            Ok(()) => {},
            Err(e) => return Err(e),
        }
        match self.increment_p_counter() {
            Ok(()) => {},
            Err(e) => return Err(e),
        }
        self.instructions.push(Instruction::Split(left, self.p_counter));
        Ok(())
    }

    /// Appends the code of `e?`: a split over the code of `e`.
    pub fn gen_question(&mut self, ast: &Ast) -> (r: Result<(), CompileError>)
        ensures
            final(self).reached(r, gen(Node::Question(Box::new(ast@)), old(self).state())),
        decreases ast, 2int,
    {
        let split_count = match self.insert_split_placeholder() {
            Ok(i) => i,
            Err(e) => return Err(e),
        };
        match self.gen_expr(ast) {
            Ok(()) => {},
            Err(e) => return Err(e),
        }
        self.update_instruction_address(split_count, CompileError::FailQuestion)
    }

    /// Appends the code of `e1|e2`: a split, the code of `e1`, a jump past
    /// the code of `e2`, and the code of `e2`.
    pub fn gen_or(&mut self, expr1: &Ast, expr2: &Ast) -> (r: Result<(), CompileError>)
        ensures
            final(self).reached(r, gen(Node::Or(Box::new(expr1@), Box::new(expr2@)), old(self).state())),
    {
        self.gen_or_in(expr1, expr2, Ghost(Ast::Or(Box::new(*expr1), Box::new(*expr2))))
    }

    /// Appends the code of `e1|e2`.
    fn gen_or_in(&mut self, expr1: &Ast, expr2: &Ast, Ghost(whole): Ghost<Ast>) -> (r: Result<
        (),
        CompileError,
    >)
        requires
            whole matches Ast::Or(l, r) && *l == *expr1 && *r == *expr2,
        ensures
            final(self).reached(r, gen(Node::Or(Box::new(expr1@), Box::new(expr2@)), old(self).state())),
        decreases whole, 0int,
    {
        let split_count = match self.insert_split_placeholder() {
            Ok(i) => i,
            Err(e) => return Err(e),
        };
        match self.gen_expr(expr1) {
            Ok(()) => {},
            Err(e) => return Err(e),
        }
        let jump_count: usize = self.p_counter;
        match self.emit(Instruction::Jump(0)) {
            Ok(()) => {},
            Err(e) => return Err(e),
        }
        match self.update_instruction_address(split_count, CompileError::FailOr) {
            Ok(()) => {},
            Err(e) => return Err(e),
        }
        match self.gen_expr(expr2) {
            Ok(()) => {},
            Err(e) => return Err(e),
        }
        self.update_instruction_address(jump_count, CompileError::FailOr)
    }

    /// Appends the codes of the trees of a concatenation, in order.
    #[verifier::loop_isolation(false)]
    pub fn gen_seq(&mut self, vec: &Vec<Ast>) -> (r: Result<(), CompileError>)
        ensures
            final(self).reached(r, gen_list(nodes(vec@), old(self).state())),
        decreases vec, 2int,
    {
        let ghost items = nodes(vec@);
        let ghost start = self.state();
        assert(items.subrange(0, 0) =~= Seq::<Node>::empty());
        for i in 0..vec.len()
            invariant
                items == nodes(vec@),
                items.len() == vec@.len(),
                start == old(self).state(),
                gen_list(items.subrange(0, i as int), start) == (self.state(), None::<CompileError>),
        {
            assert(items.subrange(0, i + 1).subrange(0, i as int) =~= items.subrange(0, i as int));
            assert(items.subrange(0, i + 1)[i as int] == vec@[i as int]@);
            match self.gen_expr(&vec[i]) {
                Ok(()) => {},
                Err(e) => {
                    proof {
                        lemma_gen_list_stops(items, start, i + 1);
                    }
                    return Err(e);
                },
            }
        }
        assert(items.subrange(0, vec.len() as int) =~= items);
        Ok(())
    }

    /// Appends the code of `ast` and a final `match`.
    pub fn gen_code(&mut self, ast: &Ast) -> (r: Result<(), CompileError>)
        ensures
            final(self).reached(r, gen_program(ast@, old(self).state())),
    {
        match self.gen_expr(ast) {
            Ok(()) => {},
            Err(e) => return Err(e),
        }
        self.emit(Instruction::Match)
    }
}

impl Default for Compiler {
    fn default() -> (r: Self)
        ensures
            r.p_counter == 0,
            r.instructions@ == Seq::<Instruction>::empty(),
    {
        Compiler { p_counter: 0, instructions: Vec::new() }
    }
}

/// Once a prefix of a concatenation fails, the whole fails the same way.
pub proof fn lemma_gen_list_stops(items: Seq<Node>, st: CState, i: int)
    requires
        0 <= i <= items.len(),
        gen_list(items.subrange(0, i), st).1 is Some,
    ensures
        gen_list(items, st) == gen_list(items.subrange(0, i), st),
    decreases items.len(),
{
    if i < items.len() {
        let init = items.subrange(0, items.len() - 1);
        assert(init.subrange(0, i) =~= items.subrange(0, i));
        lemma_gen_list_stops(init, st, i);
    } else {
        assert(items.subrange(0, i) =~= items);
    }
}

/// Compiles a tree into instructions ending in `match`.
pub fn compile(ast: &Ast) -> (r: Result<Vec<Instruction>, CompileError>)
    ensures
        ({
            let o = gen_program(ast@, CState { pc: 0, code: Seq::empty() });
            match o.1 {
                None => r matches Ok(v) && v@ == o.0.code,
                Some(e) => r == Err::<Vec<Instruction>, CompileError>(e),
            }
        }),
{
    let mut compiler = Compiler::default();
    assert(compiler.state() == CState { pc: 0, code: Seq::<Instruction>::empty() });
    match compiler.gen_code(ast) {
        Ok(()) => Ok(compiler.instructions),
        Err(e) => Err(e),
    }
}

} // verus!
