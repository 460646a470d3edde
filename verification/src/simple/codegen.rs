//! Code generator of the plain pattern language.
//!
//! Like the basic compiler, the generator keeps a program counter and the
//! instructions so far, writes unknown targets as 0 and patches them later;
//! the spec functions below say what each step does to that state.
use vstd::prelude::*;
use crate::basic::parser::Node;
use crate::engine::safe_add;
use crate::simple::parser::{AST, lemma_plain_sequence_view, plain_nodes};

verus! {

/// An instruction of the plain language.
#[derive(Debug, Clone, Copy, PartialEq, Eq, Structural)]
pub enum Instruction {
    /// Consume the given character.
    Char(char),
    /// Success.
    Match,
    /// Continue at an address.
    Jump(usize),
    /// Try the first address, then the second.
    Split(usize, usize),
}

/// An error found while generating code.
#[derive(Debug, Clone, Copy, PartialEq, Eq, Structural)]
pub enum CodeGenError {
    /// The program counter would overflow.
    PCOverFlow,
    /// The split of a `*` could not be patched.
    FailStar,
    /// The split of a `?` could not be patched.
    FailQuestion,
    /// A split or jump of a `|` could not be patched.
    FailOr,
}

/// The generator's state: the program counter and the instructions so far.
pub struct GState {
    pub pc: nat,
    pub code: Seq<Instruction>,
}

/// The state after a step, and the error that stopped it, if any.
pub type GOutcome = (GState, Option<CodeGenError>);

/// Incrementing the program counter, then appending `i`.
pub open spec fn emit(st: GState, i: Instruction) -> GOutcome {
    if st.pc < usize::MAX {
        (GState { pc: st.pc + 1, code: st.code.push(i) }, None)
    } else {
        (st, Some(CodeGenError::PCOverFlow))
    }
}

/// Incrementing the program counter, then appending a split to the new
/// counter whose second target is 0 for now.
pub open spec fn open_split(st: GState) -> GOutcome {
    if st.pc < usize::MAX {
        (GState { pc: st.pc + 1, code: st.code.push(Instruction::Split((st.pc + 1) as usize, 0)) }, None)
    } else {
        (st, Some(CodeGenError::PCOverFlow))
    }
}

/// Setting the second target of the split at `index` to the program counter.
pub open spec fn patch_split(st: GState, index: int, err: CodeGenError) -> GOutcome {
    if 0 <= index < st.code.len() && st.code[index] is Split {
        (
            GState {
                code: st.code.update(index, Instruction::Split(st.code[index]->Split_0, st.pc as usize)),
                ..st
            },
            None,
        )
    } else {
        (st, Some(err))
    }
}

/// Setting the target of the jump at `index` to the program counter.
pub open spec fn patch_jump(st: GState, index: int, err: CodeGenError) -> GOutcome {
    if 0 <= index < st.code.len() && st.code[index] is Jump {
        (GState { code: st.code.update(index, Instruction::Jump(st.pc as usize)), ..st }, None)
    } else {
        (st, Some(err))
    }
}

/// What generating the code of a tree does to the state.
pub open spec fn gen(n: Node, st: GState) -> GOutcome
    decreases n, 1int,
{
    match n {
        Node::Char(c) => emit(st, Instruction::Char(c)),
        Node::AnyChar => emit(st, Instruction::Char('.')),
        Node::Star(e) => {
            let split_count = st.pc;
            let (s1, e1) = open_split(st);
            if e1 is Some {
                (s1, e1)
            } else {
                let (s2, e2) = gen(*e, s1);
                if e2 is Some {
                    (s2, e2)
                } else {
                    let (s3, e3) = emit(s2, Instruction::Jump(split_count as usize));
                    if e3 is Some {
                        (s3, e3)
                    } else {
                        patch_split(s3, split_count as int, CodeGenError::FailStar)
                    }
                }
            }
        },
        Node::Plus(e) => {
            let left = st.pc;
            let (s1, e1) = gen(*e, st);
            if e1 is Some {
                (s1, e1)
            } else if s1.pc < usize::MAX {
                (GState { pc: s1.pc + 1, code: s1.code.push(Instruction::Split(left as usize, (s1.pc + 1) as usize)) }, None)
            } else {
                (s1, Some(CodeGenError::PCOverFlow))
            }
        },
        Node::Question(e) => {
            let split_count = st.pc;
            let (s1, e1) = open_split(st);
            if e1 is Some {
                (s1, e1)
            } else {
                let (s2, e2) = gen(*e, s1);
                if e2 is Some {
                    (s2, e2)
                } else {
                    patch_split(s2, split_count as int, CodeGenError::FailQuestion)
                }
            }
        },
        Node::Or(l0, r0) => {
            let split_counter = st.pc;
            let (s1, e1) = open_split(st);
            if e1 is Some {
                (s1, e1)
            } else {
                let (s2, e2) = gen(*l0, s1);
                if e2 is Some {
                    (s2, e2)
                } else {
                    let jump_counter = s2.pc;
                    let (s3, e3) = emit(s2, Instruction::Jump(0));
                    if e3 is Some {
                        (s3, e3)
                    } else {
                        let (s4, e4) = patch_split(s3, split_counter as int, CodeGenError::FailOr);
                        if e4 is Some {
                            (s4, e4)
                        } else {
                            let (s5, e5) = gen(*r0, s4);
                            if e5 is Some {
                                (s5, e5)
                            } else {
                                patch_jump(s5, jump_counter as int, CodeGenError::FailOr)
                            }
                        }
                    }
                }
            }
        },
        Node::Sequence(items) => gen_list(items, st),
    }
}

/// What generating the codes of the trees of a concatenation does.
pub open spec fn gen_list(items: Seq<Node>, st: GState) -> GOutcome
    decreases items, 0int,
{
    if items.len() == 0 {
        (st, None)
    } else {
        let (s1, e1) = gen_list(items.subrange(0, items.len() - 1), st);
        if e1 is Some {
            (s1, e1)
        } else {
            gen(items[items.len() - 1], s1)
        }
    }
}

/// What generating the code of a whole tree does: its code and `match`.
pub open spec fn gen_program(n: Node, st: GState) -> GOutcome {
    let (s1, e1) = gen(n, st);
    if e1 is Some {
        (s1, e1)
    } else {
        emit(s1, Instruction::Match)
    }
}

/// Once a prefix of a concatenation fails, the whole fails the same way.
pub proof fn lemma_gen_list_stops(items: Seq<Node>, st: GState, i: int)
    requires
        0 <= i <= items.len(),
        gen_list(items.subrange(0, i), st).1 is Some,
    ensures
        gen_list(items, st) == gen_list(items.subrange(0, i), st),
    decreases items.len(),
{
    if i < items.len() {
        let init = items.subrange(0, items.len() - 1);
        assert(init.subrange(0, i) =~= items.subrange(0, i));
        lemma_gen_list_stops(init, st, i);
    } else {
        assert(items.subrange(0, i) =~= items);
    }
}

/// Code generator state.
#[derive(Debug)]
pub struct Generator {
    /// The next address.
    pub p_counter: usize,
    /// The instructions so far.
    pub instructions: Vec<Instruction>,
}

impl Generator {
    /// The model of the state.
    pub open spec fn state(&self) -> GState {
        GState { pc: self.p_counter as nat, code: self.instructions@ }
    }

    /// Whether the state and error are those of an outcome.
    pub open spec fn reached(&self, r: Result<(), CodeGenError>, o: GOutcome) -> bool {
        &&& self.state() == o.0
        &&& match o.1 {
            None => r is Ok,
            Some(e) => r == Err::<(), CodeGenError>(e),
        }
    }

    /// Increments the program counter, failing on overflow.
    pub fn increment_p_counter(&mut self) -> (r: Result<(), CodeGenError>)
        ensures
            final(self).instructions@ == old(self).instructions@,
            old(self).p_counter < usize::MAX ==> r is Ok && final(self).p_counter == old(self).p_counter + 1,
            old(self).p_counter == usize::MAX ==> r == Err::<(), CodeGenError>(CodeGenError::PCOverFlow)
                && final(self).p_counter == old(self).p_counter,
    {
        safe_add(
            &mut self.p_counter,
            &1,
            || -> (e: CodeGenError) ensures e == CodeGenError::PCOverFlow { CodeGenError::PCOverFlow },
        )
    }

    /// Appends the code of `ast`.
    pub fn gen_expr(&mut self, ast: &AST) -> (r: Result<(), CodeGenError>)
        ensures
            final(self).reached(r, gen(ast@, old(self).state())),
        decreases ast, 1int,
    {
        match ast {
            AST::Char(c) => self.gen_char(*c),
            AST::Or(e1, e2) => self.gen_or_in(e1, e2, Ghost(*ast)),
            AST::Plus(e) => self.gen_plus(e),
            AST::Star(e) => self.gen_star(e),
            AST::Question(e) => self.gen_question(e),
            AST::Sequence(v) => {
                proof {
                    lemma_plain_sequence_view(*v);
                }
                self.gen_seq(v)
            },
        }
    }

    /// Appends `Char(c)`.
    pub fn gen_char(&mut self, c: char) -> (r: Result<(), CodeGenError>)
        ensures
            final(self).reached(r, gen(Node::Char(c), old(self).state())),
    {
        let inst: Instruction = Instruction::Char(c);
        match self.increment_p_counter() {
            Ok(()) => {
                self.instructions.push(inst);
                Ok(())
            },
            Err(e) => Err(e),
        }
    }

    /// Appends a split whose second target is 0 for now.
    fn open_split(&mut self) -> (r: Result<(), CodeGenError>)
        ensures
            final(self).reached(r, open_split(old(self).state())),
    {
        match self.increment_p_counter() {
            Ok(()) => {
                self.instructions.push(Instruction::Split(self.p_counter, 0));
                Ok(())
            },
            Err(e) => Err(e),
        }
    }

    /// Sets the second target of the split at `index` to the program counter.
    fn patch_split(&mut self, index: usize, err: CodeGenError) -> (r: Result<(), CodeGenError>)
        ensures
            final(self).reached(r, patch_split(old(self).state(), index as int, err)),
    {
        if index < self.instructions.len() {
            if let Instruction::Split(left, _) = self.instructions[index] {
                self.instructions.set(index, Instruction::Split(left, self.p_counter));
                return Ok(());
            }
        }
        Err(err)
    }

    /// Sets the target of the jump at `index` to the program counter.
    fn patch_jump(&mut self, index: usize, err: CodeGenError) -> (r: Result<(), CodeGenError>)
        ensures
            final(self).reached(r, patch_jump(old(self).state(), index as int, err)),
    {
        if index < self.instructions.len() {
            if let Instruction::Jump(_) = self.instructions[index] {
                self.instructions.set(index, Instruction::Jump(self.p_counter));
                return Ok(());
            }
        }
        Err(err)
    }

    /// Appends the code of `e*`.
    pub fn gen_star(&mut self, ast: &AST) -> (r: Result<(), CodeGenError>)
        ensures
            final(self).reached(r, gen(Node::Star(Box::new(ast@)), old(self).state())),
        decreases ast, 2int,
    {
        let split_count: usize = self.p_counter;
        match self.open_split() {
            Ok(()) => {},
            Err(e) => return Err(e),
        }
        match self.gen_expr(ast) {
            Ok(()) => {},
            Err(e) => return Err(e),
        }
        match self.increment_p_counter() {
            Ok(()) => self.instructions.push(Instruction::Jump(split_count)),
            Err(e) => return Err(e),
        }
        self.patch_split(split_count, CodeGenError::FailStar)
    }

    /// Appends the code of `e+`.
    pub fn gen_plus(&mut self, ast: &AST) -> (r: Result<(), CodeGenError>)
        ensures
            final(self).reached(r, gen(Node::Plus(Box::new(ast@)), old(self).state())),
        decreases ast, 2int,
    {
        let left: usize = self.p_counter;
        match self.gen_expr(ast) {
            Ok(()) => {},
            Err(e) => return Err(e),
        }
        match self.increment_p_counter() {
            Ok(()) => {
                self.instructions.push(Instruction::Split(left, self.p_counter));
                Ok(())
            },
            Err(e) => Err(e),
        }
    }

    /// Appends the code of `e?`.
    pub fn gen_question(&mut self, ast: &AST) -> (r: Result<(), CodeGenError>)
        ensures
            final(self).reached(r, gen(Node::Question(Box::new(ast@)), old(self).state())),
        decreases ast, 2int,
    {
        let split_count: usize = self.p_counter;
        match self.open_split() {
            Ok(()) => {},
            Err(e) => return Err(e),
        }
        match self.gen_expr(ast) {
            Ok(()) => {},
            Err(e) => return Err(e),
        }
        self.patch_split(split_count, CodeGenError::FailQuestion)
    }

    /// Appends the code of `e1|e2`: a split, the code of `e1`, a jump past
    /// the code of `e2`, and the code of `e2`.
    pub fn gen_or(&mut self, expr1: &AST, expr2: &AST) -> (r: Result<(), CodeGenError>)
        ensures
            final(self).reached(r, gen(Node::Or(Box::new(expr1@), Box::new(expr2@)), old(self).state())),
    {
        self.gen_or_in(expr1, expr2, Ghost(AST::Or(Box::new(*expr1), Box::new(*expr2))))
    }

    /// Appends the code of `e1|e2`.
    fn gen_or_in(&mut self, expr1: &AST, expr2: &AST, Ghost(whole): Ghost<AST>) -> (r: Result<
        (),
        CodeGenError,
    >)
        requires
            whole matches AST::Or(l, r) && *l == *expr1 && *r == *expr2,
        ensures
            final(self).reached(r, gen(Node::Or(Box::new(expr1@), Box::new(expr2@)), old(self).state())),
        decreases whole, 0int,
    {
        let split_counter: usize = self.p_counter;
        match self.open_split() {
            Ok(()) => {},
            Err(e) => return Err(e),
        }
        match self.gen_expr(expr1) {
            Ok(()) => {},
            Err(e) => return Err(e),
        }
        let jump_counter: usize = self.p_counter;
        match self.increment_p_counter() {
            Ok(()) => self.instructions.push(Instruction::Jump(0)),
            Err(e) => return Err(e),
        }
        match self.patch_split(split_counter, CodeGenError::FailOr) {
            Ok(()) => {},
            Err(e) => return Err(e),
        }
        match self.gen_expr(expr2) {
            Ok(()) => {},
            Err(e) => return Err(e),
        }
        self.patch_jump(jump_counter, CodeGenError::FailOr)
    }

    /// Appends the codes of the trees of a concatenation, in order.
    #[verifier::loop_isolation(false)]
    pub fn gen_seq(&mut self, vec: &Vec<AST>) -> (r: Result<(), CodeGenError>)
        ensures
            final(self).reached(r, gen_list(plain_nodes(vec@), old(self).state())),
        decreases vec, 2int,
    {
        let ghost items = plain_nodes(vec@);
        let ghost start = self.state();
        assert(items.subrange(0, 0) =~= Seq::<Node>::empty());
        for i in 0..vec.len()
            invariant
                items == plain_nodes(vec@),
                items.len() == vec@.len(),
                start == old(self).state(),
                gen_list(items.subrange(0, i as int), start) == (self.state(), None::<CodeGenError>),
        {
            assert(items.subrange(0, i + 1).subrange(0, i as int) =~= items.subrange(0, i as int));
            assert(items.subrange(0, i + 1)[i as int] == vec@[i as int]@);
            match self.gen_expr(&vec[i]) {
                Ok(()) => {},
                Err(e) => {
                    proof {
                        lemma_gen_list_stops(items, start, i + 1);
                    }
                    return Err(e);
                },
            }
        }
        assert(items.subrange(0, vec.len() as int) =~= items);
        Ok(())
    }

    /// Appends the code of `ast` and a final `Match`.
    pub fn gen_code(&mut self, ast: &AST) -> (r: Result<(), CodeGenError>)
        ensures
            final(self).reached(r, gen_program(ast@, old(self).state())),
    {
        match self.gen_expr(ast) {
            Ok(()) => {},
            Err(e) => return Err(e),
        }
        match self.increment_p_counter() {
            Ok(()) => {
                self.instructions.push(Instruction::Match);
                Ok(())
            },
            Err(e) => Err(e),
        }
    }
}

impl Default for Generator {
    fn default() -> (r: Self)
        ensures
            r.p_counter == 0,
            r.instructions@ == Seq::<Instruction>::empty(),
    {
        Generator { p_counter: 0, instructions: Vec::new() }
    }
}

/// Generates the code of a tree, ending in `Match`.
pub fn get_code(ast: &AST) -> (r: Result<Vec<Instruction>, CodeGenError>)
    ensures
        ({
            let o = gen_program(ast@, GState { pc: 0, code: Seq::empty() });
            match o.1 {
                None => r matches Ok(v) && v@ == o.0.code,
                Some(e) => r == Err::<Vec<Instruction>, CodeGenError>(e),
            }
        }),
{
    let mut generator = Generator::default();
    assert(generator.state() == GState { pc: 0, code: Seq::<Instruction>::empty() });
    match generator.gen_code(ast) {
        Ok(()) => Ok(generator.instructions),
        Err(e) => Err(e),
    }
}

} // verus!
