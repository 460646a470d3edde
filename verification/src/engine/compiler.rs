//! Code generation from a syntax tree to an instruction sequence.
//!
//! `code_of(ast, base)` is the code generated for `ast` when its first
//! instruction lands at address `base`.
use vstd::prelude::*;
use crate::engine::ast::{Ast, AstModel, CharClass, CharRange, lemma_concat_view, views};
use crate::engine::instruction::{InstrModel, Instruction, program};
use crate::engine::safe_add;

verus! {

/// Errors that can occur while compiling a tree.
#[derive(Debug, Clone, Copy, PartialEq, Eq, Structural)]
pub enum CompileError {
    /// The program counter would overflow.
    PCOverFlow,
    /// A backreference names no capture group.
    InvalidBackreference(usize),
}

/// Errors of `compile_v2`; the same cases as `CompileError`.
#[derive(Debug, Clone, Copy, PartialEq, Eq, Structural)]
pub enum CompileV2Error {
    /// The program counter would overflow.
    PCOverFlow,
    /// A backreference names no capture group.
    InvalidBackreference(usize),
}

/// A split that prefers `body` when greedy and `out` otherwise.
pub open spec fn split_for(greedy: bool, body: int, out: int) -> InstrModel {
    if greedy {
        InstrModel::Split(body as usize, out as usize)
    } else {
        InstrModel::Split(out as usize, body as usize)
    }
}

/// Code of `ast` placed at address `base`.
pub open spec fn code_of(a: AstModel, base: int) -> Seq<InstrModel>
    decreases a, 0int, 0int,
{
    match a {
        AstModel::Empty => Seq::empty(),
        AstModel::Class(c) => seq![InstrModel::Class(c)],
        AstModel::Assertion(p) => seq![InstrModel::Assert(p)],
        AstModel::Capture(e, i) => seq![InstrModel::SaveStart(i)] + code_of(*e, base + 1) + seq![
            InstrModel::SaveEnd(i),
        ],
        AstModel::ZeroOrMore(e, g) => code_star(*e, g, base),
        AstModel::OneOrMore(e, g) => {
            let body = code_of(*e, base);
            body + seq![split_for(g, base, base + body.len() + 1)]
        },
        AstModel::ZeroOrOne(e, g) => code_opt(*e, g, base),
        AstModel::Repeat(e, g, min, max) => {
            let fixed = code_times(*e, base, min as nat);
            let b2 = base + fixed.len();
            fixed + match max {
                Some(m) => if m <= min {
                    Seq::empty()
                } else {
                    code_opts(*e, g, b2, (m - min) as nat)
                },
                None => code_star(*e, g, b2),
            }
        },
        AstModel::Concat(items) => code_list(items, base),
        AstModel::Alternate(l, r) => {
            let lc = code_of(*l, base + 1);
            let re = base + 1 + lc.len() + 1;
            let rc = code_of(*r, re);
            seq![InstrModel::Split((base + 1) as usize, re as usize)] + lc + seq![
                InstrModel::Jump((re + rc.len()) as usize),
            ] + rc
        },
        AstModel::Backreference(i) => seq![InstrModel::Backref(i)],
    }
}

/// Code of `e*` at `base`.
pub open spec fn code_star(e: AstModel, g: bool, base: int) -> Seq<InstrModel>
    decreases e, 1int, 0int,
{
    let body = code_of(e, base + 1);
    seq![split_for(g, base + 1, base + 1 + body.len() + 1)] + body + seq![
        InstrModel::Jump(base as usize),
    ]
}

/// Code of `e?` at `base`.
pub open spec fn code_opt(e: AstModel, g: bool, base: int) -> Seq<InstrModel>
    decreases e, 1int, 0int,
{
    let body = code_of(e, base + 1);
    seq![split_for(g, base + 1, base + 1 + body.len())] + body
}

/// `k` copies of the code of `e`, one after another from `base`.
pub open spec fn code_times(e: AstModel, base: int, k: nat) -> Seq<InstrModel>
    decreases e, 2int, k,
{
    if k == 0 {
        Seq::empty()
    } else {
        let prev = code_times(e, base, (k - 1) as nat);
        prev + code_of(e, base + prev.len())
    }
}

/// `k` copies of the code of `e?`, one after another from `base`.
pub open spec fn code_opts(e: AstModel, g: bool, base: int, k: nat) -> Seq<InstrModel>
    decreases e, 2int, k,
{
    if k == 0 {
        Seq::empty()
    } else {
        let prev = code_opts(e, g, base, (k - 1) as nat);
        prev + code_opt(e, g, base + prev.len())
    }
}

/// The codes of `items`, one after another from `base`.
pub open spec fn code_list(items: Seq<AstModel>, base: int) -> Seq<InstrModel>
    decreases items, 0int, 0int,
{
    if items.len() == 0 {
        Seq::empty()
    } else {
        let prev = code_list(items.subrange(0, items.len() - 1), base);
        prev + code_of(items[items.len() - 1], base + prev.len())
    }
}

/// Taking fewer copies gives a prefix of the code.
pub proof fn lemma_times_prefix(e: AstModel, base: int, k: nat, k2: nat)
    requires
        k <= k2,
    ensures
        code_times(e, base, k2).len() >= code_times(e, base, k).len(),
    decreases k2,
{
    if k < k2 {
        lemma_times_prefix(e, base, k, (k2 - 1) as nat);
    }
}

/// Taking fewer optional copies gives a prefix of the code.
pub proof fn lemma_opts_prefix(e: AstModel, g: bool, base: int, k: nat, k2: nat)
    requires
        k <= k2,
    ensures
        code_opts(e, g, base, k2).len() >= code_opts(e, g, base, k).len(),
    decreases k2,
{
    if k < k2 {
        lemma_opts_prefix(e, g, base, k, (k2 - 1) as nat);
    }
}

/// The code of a prefix of a list is no longer than the code of the list.
pub proof fn lemma_list_prefix(items: Seq<AstModel>, base: int, i: int)
    requires
        0 <= i <= items.len(),
    ensures
        code_list(items, base).len() >= code_list(items.subrange(0, i), base).len(),
    decreases items.len(),
{
    if i < items.len() {
        let init = items.subrange(0, items.len() - 1);
        assert(init.subrange(0, i) =~= items.subrange(0, i));
        lemma_list_prefix(init, base, i);
    } else {
        assert(items.subrange(0, i) =~= items);
    }
}

/// Code generator state: the next address and the instructions so far.
struct Compiler {
    p_counter: usize,
    instructions: Vec<Instruction>,
}

impl Compiler {
    spec fn wf(&self) -> bool {
        self.p_counter == self.instructions@.len()
    }

    spec fn code(&self) -> Seq<InstrModel> {
        program(self.instructions@)
    }

    /// Increments the program counter, failing on overflow.
    fn increment_p_counter(&mut self) -> (r: Result<(), CompileError>)
        ensures
            final(self).instructions == old(self).instructions,
            old(self).p_counter < usize::MAX ==> r is Ok && final(self).p_counter == old(self).p_counter + 1,
            old(self).p_counter == usize::MAX ==> r == Err::<(), CompileError>(CompileError::PCOverFlow)
                && final(self).p_counter == old(self).p_counter,
    {
        safe_add(&mut self.p_counter, &1, || -> (e: CompileError)
            ensures
                e == CompileError::PCOverFlow,
            { CompileError::PCOverFlow })
    }

    /// The address after the current one.
    fn next_address(&self) -> (r: Result<usize, CompileError>)
        ensures
            self.p_counter < usize::MAX ==> r == Ok::<usize, CompileError>((self.p_counter + 1) as usize),
            self.p_counter == usize::MAX ==> r == Err::<usize, CompileError>(CompileError::PCOverFlow),
    {
        match self.p_counter.checked_add(1) {
            Some(n) => Ok(n),
            None => Err(CompileError::PCOverFlow),
        }
    }

    /// Appends an instruction and returns its address.
    fn push_instruction(&mut self, instruction: Instruction) -> (r: Result<usize, CompileError>)
        requires
            old(self).wf(),
        ensures
            final(self).wf(),
            old(self).p_counter < usize::MAX ==> r == Ok::<usize, CompileError>(old(self).p_counter)
                && final(self).code() == old(self).code().push(instruction@)
                && final(self).p_counter == old(self).p_counter + 1,
            old(self).p_counter == usize::MAX ==> r == Err::<usize, CompileError>(CompileError::PCOverFlow),
    {
        let index = self.p_counter;
        match self.increment_p_counter() {
            Ok(()) => {},
            Err(e) => return Err(e),
        }
        self.instructions.push(instruction);
        assert(self.code() =~= old(self).code().push(instruction@));
        Ok(index)
    }

    /// Sets the second address of the split at `split_index`.
    fn patch_split_right(&mut self, split_index: usize, target: usize) -> (r: Result<(), CompileError>)
        requires
            old(self).wf(),
            split_index < old(self).instructions@.len(),
            old(self).code()[split_index as int] is Split,
        ensures
            final(self).wf(),
            r is Ok,
            final(self).p_counter == old(self).p_counter,
            final(self).code() == old(self).code().update(
                split_index as int,
                InstrModel::Split(old(self).code()[split_index as int]->Split_0, target),
            ),
    {
        let left = match &self.instructions[split_index] {
            Instruction::Split(left, _) => *left,
            _ => return Err(CompileError::PCOverFlow),
        };
        self.instructions.set(split_index, Instruction::Split(left, target));
        assert(self.code() =~= old(self).code().update(
            split_index as int,
            InstrModel::Split(left, target),
        ));
        Ok(())
    }

    /// Sets the first address of the split at `split_index`.
    fn patch_split_left(&mut self, split_index: usize, target: usize) -> (r: Result<(), CompileError>)
        requires
            old(self).wf(),
            split_index < old(self).instructions@.len(),
            old(self).code()[split_index as int] is Split,
        ensures
            final(self).wf(),
            r is Ok,
            final(self).p_counter == old(self).p_counter,
            final(self).code() == old(self).code().update(
                split_index as int,
                InstrModel::Split(target, old(self).code()[split_index as int]->Split_1),
            ),
    {
        let right = match &self.instructions[split_index] {
            Instruction::Split(_, right) => *right,
            _ => return Err(CompileError::PCOverFlow),
        };
        self.instructions.set(split_index, Instruction::Split(target, right));
        assert(self.code() =~= old(self).code().update(
            split_index as int,
            InstrModel::Split(target, right),
        ));
        Ok(())
    }

    /// Sets the target of the jump at `jump_index`.
    fn patch_jump(&mut self, jump_index: usize, target: usize) -> (r: Result<(), CompileError>)
        requires
            old(self).wf(),
            jump_index < old(self).instructions@.len(),
            old(self).code()[jump_index as int] is Jump,
        ensures
            final(self).wf(),
            r is Ok,
            final(self).p_counter == old(self).p_counter,
            final(self).code() == old(self).code().update(jump_index as int, InstrModel::Jump(target)),
    {
        match &self.instructions[jump_index] {
            Instruction::Jump(_) => {},
            _ => return Err(CompileError::PCOverFlow),
        }
        self.instructions.set(jump_index, Instruction::Jump(target));
        assert(self.code() =~= old(self).code().update(jump_index as int, InstrModel::Jump(target)));
        Ok(())
    }
}

/// What a code generation step promises: it succeeds exactly when the code of
/// the step fits below the address limit, and then appends that code.
spec fn gen_post(
    before: Compiler,
    after: Compiler,
    r: Result<(), CompileError>,
    code: Seq<InstrModel>,
) -> bool {
    &&& after.wf()
    &&& (r is Ok <==> before.p_counter + code.len() <= usize::MAX)
    &&& r is Ok ==> after.code() == before.code() + code
    &&& r is Ok ==> after.p_counter == before.p_counter + code.len()
    &&& r is Err ==> r == Err::<(), CompileError>(CompileError::PCOverFlow)
}

/// A copy of a character class.
fn copy_class(class: &CharClass) -> (r: CharClass)
    ensures
        r@ == class@,
{
    let mut ranges: Vec<CharRange> = Vec::new();
    for i in 0..class.ranges.len()
        invariant
            ranges@ == class.ranges@.subrange(0, i as int),
    {
        ranges.push(class.ranges[i]);
        assert(ranges@ =~= class.ranges@.subrange(0, i + 1));
    }
    assert(ranges@ =~= class.ranges@);
    CharClass { ranges, negated: class.negated }
}

impl Compiler {
    /// Appends the code of `ast`.
    fn gen_expr(&mut self, ast: &Ast) -> (r: Result<(), CompileError>)
        requires
            old(self).wf(),
        ensures
            gen_post(*old(self), *final(self), r, code_of(ast@, old(self).p_counter as int)),
        decreases ast, 1int,
    {
        match ast {
            Ast::Empty => {
                assert(ast@ == AstModel::Empty);
                assert(code_of(ast@, self.p_counter as int) == Seq::<InstrModel>::empty());
                assert(self.code() =~= self.code() + Seq::<InstrModel>::empty());
                Ok(())
            },
            Ast::CharClass(class) => {
                let ghost before = self.code();
                let inst = Instruction::CharClass(copy_class(class));
                let r = self.push_instruction(inst);
                assert(r is Ok ==> self.code() =~= before + seq![inst@]);
                match r {
                    Ok(_) => Ok(()),
                    Err(e) => Err(e),
                }
            },
            Ast::Assertion(predicate) => {
                let ghost before = self.code();
                let inst = Instruction::Assert(*predicate);
                let r = self.push_instruction(inst);
                assert(r is Ok ==> self.code() =~= before + seq![inst@]);
                match r {
                    Ok(_) => Ok(()),
                    Err(e) => Err(e),
                }
            },
            Ast::Capture { expr, index } => self.gen_capture(expr, *index),
            Ast::ZeroOrMore { expr, greedy } => self.gen_zero_or_more(expr, *greedy),
            Ast::OneOrMore { expr, greedy } => self.gen_one_or_more(expr, *greedy),
            Ast::ZeroOrOne { expr, greedy } => self.gen_zero_or_one(expr, *greedy),
            Ast::Repeat { expr, greedy, min, max } => self.gen_repeat(expr, *greedy, *min, *max),
            Ast::Concat(exprs) => {
                proof {
                    lemma_concat_view(*exprs);
                }
                self.gen_concat(exprs)
            },
            Ast::Alternate(left, right) => self.gen_alternate(left, right, Ghost(*ast)),
            Ast::Backreference(index) => {
                let ghost before = self.code();
                let inst = Instruction::Backref(*index);
                let r = self.push_instruction(inst);
                assert(r is Ok ==> self.code() =~= before + seq![inst@]);
                match r {
                    Ok(_) => Ok(()),
                    Err(e) => Err(e),
                }
            },
        }
    }

    /// Appends the code of a capture group.
    fn gen_capture(&mut self, expr: &Ast, index: usize) -> (r: Result<(), CompileError>)
        requires
            old(self).wf(),
        ensures
            gen_post(
                *old(self),
                *final(self),
                r,
                code_of(AstModel::Capture(Box::new(expr@), index), old(self).p_counter as int),
            ),
        decreases expr, 2int,
    {
        let ghost base = self.p_counter as int;
        let ghost before = self.code();
        let ghost body = code_of(expr@, base + 1);
        assert(code_of(AstModel::Capture(Box::new(expr@), index), base) == seq![InstrModel::SaveStart(index)] + body + seq![InstrModel::SaveEnd(index)]);
        match self.push_instruction(Instruction::SaveStart(index)) {
            Ok(_) => {},
            Err(e) => return Err(e),
        }
        assert(self.p_counter == base + 1);
        match self.gen_expr(expr) {
            Ok(()) => {},
            Err(e) => {
                assert(base + 1 + body.len() > usize::MAX);
                assert(e == CompileError::PCOverFlow);
                assert(self.wf());
                return Err(e);
            },
        }
        match self.push_instruction(Instruction::SaveEnd(index)) {
            Ok(_) => {},
            Err(e) => return Err(e),
        }
        assert(self.code() =~= before + (seq![InstrModel::SaveStart(index)] + body + seq![
            InstrModel::SaveEnd(index),
        ]));
        Ok(())
    }

    /// Appends the code of `expr*`.
    fn gen_zero_or_more(&mut self, expr: &Ast, greedy: bool) -> (r: Result<(), CompileError>)
        requires
            old(self).wf(),
        ensures
            gen_post(*old(self), *final(self), r, code_star(expr@, greedy, old(self).p_counter as int)),
        decreases expr, 2int,
    {
        let ghost base = self.p_counter as int;
        let ghost before = self.code();
        let ghost body = code_of(expr@, base + 1);
        assert(code_star(expr@, greedy, base).len() == body.len() + 2);
        let expr_entry = match self.next_address() {
            Ok(a) => a,
            Err(e) => return Err(e),
        };
        let split = if greedy {
            Instruction::Split(expr_entry, 0)
        } else {
            Instruction::Split(0, expr_entry)
        };
        let split_index = match self.push_instruction(split) {
            Ok(i) => i,
            Err(e) => return Err(e),
        };
        assert(self.p_counter == base + 1);
        match self.gen_expr(expr) {
            Ok(()) => {},
            Err(e) => return Err(e),
        }
        assert(self.p_counter == base + 1 + body.len());
        assert(self.code()[split_index as int] == split@);
        match self.push_instruction(Instruction::Jump(split_index)) {
            Ok(_) => {},
            Err(e) => return Err(e),
        }
        let out = self.p_counter;
        let r = if greedy {
            self.patch_split_right(split_index, out)
        } else {
            self.patch_split_left(split_index, out)
        };
        assert(self.code() =~= before + code_star(expr@, greedy, base));
        r
    }

    /// Appends the code of `expr+`.
    fn gen_one_or_more(&mut self, expr: &Ast, greedy: bool) -> (r: Result<(), CompileError>)
        requires
            old(self).wf(),
        ensures
            gen_post(
                *old(self),
                *final(self),
                r,
                code_of(AstModel::OneOrMore(Box::new(expr@), greedy), old(self).p_counter as int),
            ),
        decreases expr, 2int,
    {
        let ghost base = self.p_counter as int;
        let ghost before = self.code();
        let ghost body = code_of(expr@, base);
        assert(code_of(AstModel::OneOrMore(Box::new(expr@), greedy), base) == body + seq![split_for(greedy, base, base + body.len() + 1)]);
        let loop_entry = self.p_counter;
        match self.gen_expr(expr) {
            Ok(()) => {},
            Err(e) => return Err(e),
        }
        assert(self.p_counter == base + body.len());
        let out = match self.next_address() {
            Ok(a) => a,
            Err(e) => return Err(e),
        };
        let split = if greedy {
            Instruction::Split(loop_entry, out)
        } else {
            Instruction::Split(out, loop_entry)
        };
        match self.push_instruction(split) {
            Ok(_) => {},
            Err(e) => return Err(e),
        }
        assert(self.code() =~= before + (body + seq![split_for(greedy, base, base + body.len() + 1)]));
        Ok(())
    }

    /// Appends the code of `expr?`.
    fn gen_zero_or_one(&mut self, expr: &Ast, greedy: bool) -> (r: Result<(), CompileError>)
        requires
            old(self).wf(),
        ensures
            gen_post(*old(self), *final(self), r, code_opt(expr@, greedy, old(self).p_counter as int)),
        decreases expr, 2int,
    {
        let ghost base = self.p_counter as int;
        let ghost before = self.code();
        let ghost body = code_of(expr@, base + 1);
        assert(code_opt(expr@, greedy, base).len() == body.len() + 1);
        let expr_entry = match self.next_address() {
            Ok(a) => a,
            Err(e) => return Err(e),
        };
        let split = if greedy {
            Instruction::Split(expr_entry, 0)
        } else {
            Instruction::Split(0, expr_entry)
        };
        let split_index = match self.push_instruction(split) {
            Ok(i) => i,
            Err(e) => return Err(e),
        };
        assert(self.p_counter == base + 1);
        match self.gen_expr(expr) {
            Ok(()) => {},
            Err(e) => return Err(e),
        }
        assert(self.p_counter == base + 1 + body.len());
        assert(self.code()[split_index as int] == split@);
        let out = self.p_counter;
        let r = if greedy {
            self.patch_split_right(split_index, out)
        } else {
            self.patch_split_left(split_index, out)
        };
        assert(self.code() =~= before + code_opt(expr@, greedy, base));
        r
    }

    /// Appends the code of `expr{min,max}`.
    #[verifier::loop_isolation(false)]
    fn gen_repeat(&mut self, expr: &Ast, greedy: bool, min: u32, max: Option<u32>) -> (r: Result<
        (),
        CompileError,
    >)
        requires
            old(self).wf(),
        ensures
            gen_post(
                *old(self),
                *final(self),
                r,
                code_of(
                    AstModel::Repeat(Box::new(expr@), greedy, min, max),
                    old(self).p_counter as int,
                ),
            ),
        decreases expr, 3int,
    {
        let ghost base = self.p_counter as int;
        let ghost before = self.code();
        let ghost e = expr@;
        let ghost total = code_of(AstModel::Repeat(Box::new(e), greedy, min, max), base);
        proof {
            lemma_times_prefix(e, base, 0, min as nat);
        }
        for i in 0..min
            invariant
                self.wf(),
                self.code() == before + code_times(e, base, i as nat),
                base == old(self).p_counter,
                before == old(self).code(),
                e == expr@,
                total == code_of(AstModel::Repeat(Box::new(e), greedy, min, max), base),
                total.len() >= code_times(e, base, min as nat).len(),
        {
            proof {
                lemma_times_prefix(e, base, (i + 1) as nat, min as nat);
            }
            match self.gen_expr(expr) {
                Ok(()) => {},
                Err(err) => return Err(err),
            }
            assert(self.code() =~= before + code_times(e, base, (i + 1) as nat));
        }
        let ghost b2 = base + code_times(e, base, min as nat).len();
        match max {
            Some(max_count) => {
                if max_count <= min {
                    assert(self.code() =~= before + total);
                    return Ok(());
                }
                let ghost k = (max_count - min) as nat;
                proof {
                    lemma_opts_prefix(e, greedy, b2, 0, k);
                }
                let ghost mid = self.code();
                for i in min..max_count
                    invariant
                        self.wf(),
                        min <= i <= max_count,
                        self.code() == mid + code_opts(e, greedy, b2, (i - min) as nat),
                        mid == before + code_times(e, base, min as nat),
                        b2 == base + code_times(e, base, min as nat).len(),
                        base == old(self).p_counter,
                        before == old(self).code(),
                        e == expr@,
                        k == max_count - min,
                        total == code_times(e, base, min as nat) + code_opts(e, greedy, b2, k),
                {
                    proof {
                        lemma_opts_prefix(e, greedy, b2, (i + 1 - min) as nat, k);
                    }
                    match self.gen_zero_or_one(expr, greedy) {
                        Ok(()) => {},
                        Err(err) => return Err(err),
                    }
                    assert(self.code() =~= mid + code_opts(e, greedy, b2, (i + 1 - min) as nat));
                }
                assert(self.code() =~= before + total);
                Ok(())
            },
            None => {
                let r = self.gen_zero_or_more(expr, greedy);
                assert(r is Ok ==> self.code() =~= before + total);
                r
            },
        }
    }

    /// Appends the codes of `exprs` one after another.
    #[verifier::loop_isolation(false)]
    fn gen_concat(&mut self, exprs: &Vec<Ast>) -> (r: Result<(), CompileError>)
        requires
            old(self).wf(),
        ensures
            gen_post(*old(self), *final(self), r, code_list(views(exprs@), old(self).p_counter as int)),
        decreases exprs, 2int,
    {
        let ghost base = self.p_counter as int;
        let ghost before = self.code();
        let ghost items = views(exprs@);
        assert(items.subrange(0, 0) =~= Seq::<AstModel>::empty());
        for i in 0..exprs.len()
            invariant
                self.wf(),
                self.code() == before + code_list(items.subrange(0, i as int), base),
                base == old(self).p_counter,
                before == old(self).code(),
                items == views(exprs@),
                items.len() == exprs@.len(),
        {
            proof {
                lemma_list_prefix(items, base, i + 1);
                assert(items.subrange(0, i + 1).subrange(0, i as int) =~= items.subrange(0, i as int));
            }
            match self.gen_expr(&exprs[i]) {
                Ok(()) => {},
                Err(err) => return Err(err),
            }
            assert(self.code() =~= before + code_list(items.subrange(0, i + 1), base));
        }
        assert(items.subrange(0, exprs.len() as int) =~= items);
        Ok(())
    }

    /// Appends the code of `left|right`.
    fn gen_alternate(&mut self, left: &Ast, right: &Ast, Ghost(whole): Ghost<Ast>) -> (r: Result<
        (),
        CompileError,
    >)
        requires
            old(self).wf(),
            whole matches Ast::Alternate(l, r) && *l == *left && *r == *right,
        ensures
            gen_post(
                *old(self),
                *final(self),
                r,
                code_of(
                    AstModel::Alternate(Box::new(left@), Box::new(right@)),
                    old(self).p_counter as int,
                ),
            ),
        decreases whole, 0int,
    {
        let ghost base = self.p_counter as int;
        let ghost before = self.code();
        let ghost lc = code_of(left@, base + 1);
        let ghost re = base + 1 + lc.len() + 1;
        let ghost rc = code_of(right@, re);
        assert(code_of(AstModel::Alternate(Box::new(left@), Box::new(right@)), base) == seq![InstrModel::Split((base + 1) as usize, re as usize)]
            + lc + seq![InstrModel::Jump((re + rc.len()) as usize)] + rc);
        let left_entry = match self.next_address() {
            Ok(a) => a,
            Err(e) => return Err(e),
        };
        let split_index = match self.push_instruction(Instruction::Split(left_entry, 0)) {
            Ok(i) => i,
            Err(e) => return Err(e),
        };
        assert(self.p_counter == base + 1);
        match self.gen_expr(left) {
            Ok(()) => {},
            Err(e) => return Err(e),
        }
        assert(self.p_counter == base + 1 + lc.len());
        assert(self.code()[split_index as int] == InstrModel::Split(left_entry, 0));
        let jump_index = match self.push_instruction(Instruction::Jump(0)) {
            Ok(i) => i,
            Err(e) => return Err(e),
        };
        let right_entry = self.p_counter;
        assert(right_entry == re);
        match self.patch_split_right(split_index, right_entry) {
            Ok(()) => {},
            Err(e) => return Err(e),
        }
        match self.gen_expr(right) {
            Ok(()) => {},
            Err(e) => return Err(e),
        }
        assert(self.p_counter == re + rc.len());
        assert(self.code()[jump_index as int] == InstrModel::Jump(0));
        let out = self.p_counter;
        let r = self.patch_jump(jump_index, out);
        assert(self.code() =~= before + (seq![InstrModel::Split((base + 1) as usize, re as usize)]
            + lc + seq![InstrModel::Jump((re + rc.len()) as usize)] + rc));
        r
    }

    /// Appends the final `Match` and returns the program.
    fn finish(self) -> (r: Result<Vec<Instruction>, CompileError>)
        requires
            self.wf(),
        ensures
            self.p_counter < usize::MAX ==> (r matches Ok(v) && program(v@) == self.code().push(InstrModel::Match)),
            self.p_counter == usize::MAX ==> r == Err::<Vec<Instruction>, CompileError>(CompileError::PCOverFlow),
    {
        let mut me = self;
        match me.push_instruction(Instruction::Match) {
            Ok(_) => Ok(me.instructions),
            Err(e) => Err(e),
        }
    }
}

/// The largest capture index that occurs in a tree (0 if none does).
pub open spec fn max_capture(a: AstModel) -> nat
    decreases a, 0int,
{
    match a {
        AstModel::Capture(e, i) => {
            let inner = max_capture(*e);
            if i >= inner {
                i as nat
            } else {
                inner
            }
        },
        AstModel::ZeroOrMore(e, _) => max_capture(*e),
        AstModel::OneOrMore(e, _) => max_capture(*e),
        AstModel::ZeroOrOne(e, _) => max_capture(*e),
        AstModel::Repeat(e, _, _, _) => max_capture(*e),
        AstModel::Concat(items) => max_capture_list(items),
        AstModel::Alternate(l, r) => {
            let a = max_capture(*l);
            let b = max_capture(*r);
            if a >= b {
                a
            } else {
                b
            }
        },
        _ => 0,
    }
}

/// The largest capture index that occurs in a list of trees.
pub open spec fn max_capture_list(items: Seq<AstModel>) -> nat
    decreases items, 0int,
{
    if items.len() == 0 {
        0
    } else {
        let a = max_capture_list(items.subrange(0, items.len() - 1));
        let b = max_capture(items[items.len() - 1]);
        if a >= b {
            a
        } else {
            b
        }
    }
}

/// The first backreference, from left to right, that names no group in
/// `1..=m`.
pub open spec fn first_bad_backref(a: AstModel, m: nat) -> Option<usize>
    decreases a, 0int,
{
    match a {
        AstModel::Backreference(i) => if i == 0 || i > m {
            Some(i)
        } else {
            None
        },
        AstModel::Capture(e, _) => first_bad_backref(*e, m),
        AstModel::ZeroOrMore(e, _) => first_bad_backref(*e, m),
        AstModel::OneOrMore(e, _) => first_bad_backref(*e, m),
        AstModel::ZeroOrOne(e, _) => first_bad_backref(*e, m),
        AstModel::Repeat(e, _, _, _) => first_bad_backref(*e, m),
        AstModel::Concat(items) => first_bad_backref_list(items, m),
        AstModel::Alternate(l, r) => match first_bad_backref(*l, m) {
            Some(i) => Some(i),
            None => first_bad_backref(*r, m),
        },
        _ => None,
    }
}

/// The first bad backreference in a list of trees.
pub open spec fn first_bad_backref_list(items: Seq<AstModel>, m: nat) -> Option<usize>
    decreases items, 0int,
{
    if items.len() == 0 {
        None
    } else {
        match first_bad_backref_list(items.subrange(0, items.len() - 1), m) {
            Some(i) => Some(i),
            None => first_bad_backref(items[items.len() - 1], m),
        }
    }
}

/// What compiling a tree gives: the first bad backreference, else the code
/// with a final `Match` when it fits below the address limit.
pub open spec fn compile_outcome(a: AstModel) -> Result<Seq<InstrModel>, CompileError> {
    match first_bad_backref(a, max_capture(a)) {
        Some(i) => Err(CompileError::InvalidBackreference(i)),
        None => {
            let c = code_of(a, 0);
            if c.len() + 1 <= usize::MAX {
                Ok(c.push(InstrModel::Match))
            } else {
                Err(CompileError::PCOverFlow)
            }
        },
    }
}

/// The largest capture index in `ast`.
#[verifier::loop_isolation(false)]
fn max_capture_index(ast: &Ast) -> (r: usize)
    ensures
        r == max_capture(ast@),
    decreases ast,
{
    match ast {
        Ast::Capture { expr, index } => {
            let inner = max_capture_index(expr);
            if *index >= inner {
                *index
            } else {
                inner
            }
        },
        Ast::ZeroOrMore { expr, .. } => max_capture_index(expr),
        Ast::OneOrMore { expr, .. } => max_capture_index(expr),
        Ast::ZeroOrOne { expr, .. } => max_capture_index(expr),
        Ast::Repeat { expr, .. } => max_capture_index(expr),
        Ast::Concat(exprs) => {
            proof {
                lemma_concat_view(*exprs);
            }
            let ghost items = views(exprs@);
            let mut best: usize = 0;
            assert(items.subrange(0, 0) =~= Seq::<AstModel>::empty());
            for i in 0..exprs.len()
                invariant
                    items == views(exprs@),
                    items.len() == exprs@.len(),
                    best == max_capture_list(items.subrange(0, i as int)),
            {
                let m = max_capture_index(&exprs[i]);
                assert(items.subrange(0, i + 1).subrange(0, i as int) =~= items.subrange(0, i as int));
                if m > best {
                    best = m;
                }
            }
            assert(items.subrange(0, exprs.len() as int) =~= items);
            best
        },
        Ast::Alternate(left, right) => {
            let a = max_capture_index(left);
            let b = max_capture_index(right);
            if a >= b {
                a
            } else {
                b
            }
        },
        _ => 0,
    }
}

/// Checks that every backreference names a group in `1..=max_capture`.
#[verifier::loop_isolation(false)]
fn validate_backreferences(ast: &Ast, max_capture: usize) -> (r: Result<(), CompileError>)
    ensures
        match first_bad_backref(ast@, max_capture as nat) {
            Some(i) => r == Err::<(), CompileError>(CompileError::InvalidBackreference(i)),
            None => r is Ok,
        },
    decreases ast,
{
    match ast {
        Ast::Backreference(index) => {
            if *index == 0 || *index > max_capture {
                Err(CompileError::InvalidBackreference(*index))
            } else {
                Ok(())
            }
        },
        Ast::Capture { expr, .. } => validate_backreferences(expr, max_capture),
        Ast::ZeroOrMore { expr, .. } => validate_backreferences(expr, max_capture),
        Ast::OneOrMore { expr, .. } => validate_backreferences(expr, max_capture),
        Ast::ZeroOrOne { expr, .. } => validate_backreferences(expr, max_capture),
        Ast::Repeat { expr, .. } => validate_backreferences(expr, max_capture),
        Ast::Concat(exprs) => {
            proof {
                lemma_concat_view(*exprs);
            }
            let ghost items = views(exprs@);
            assert(items.subrange(0, 0) =~= Seq::<AstModel>::empty());
            for i in 0..exprs.len()
                invariant
                    items == views(exprs@),
                    items.len() == exprs@.len(),
                    first_bad_backref_list(items.subrange(0, i as int), max_capture as nat) is None,
            {
                assert(items.subrange(0, i + 1).subrange(0, i as int) =~= items.subrange(0, i as int));
                match validate_backreferences(&exprs[i], max_capture) {
                    Ok(()) => {},
                    Err(e) => {
                        proof {
                            lemma_first_bad_list_prefix(items, max_capture as nat, i + 1);
                        }
                        return Err(e);
                    },
                }
            }
            assert(items.subrange(0, exprs.len() as int) =~= items);
            Ok(())
        },
        Ast::Alternate(left, right) => {
            match validate_backreferences(left, max_capture) {
                Ok(()) => {},
                Err(e) => return Err(e),
            }
            validate_backreferences(right, max_capture)
        },
        _ => Ok(()),
    }
}

/// A bad backreference found in a prefix of a list is the first one of the list.
pub proof fn lemma_first_bad_list_prefix(items: Seq<AstModel>, m: nat, i: int)
    requires
        0 <= i <= items.len(),
        first_bad_backref_list(items.subrange(0, i), m) is Some,
    ensures
        first_bad_backref_list(items, m) == first_bad_backref_list(items.subrange(0, i), m),
    decreases items.len(),
{
    if i < items.len() {
        let init = items.subrange(0, items.len() - 1);
        assert(init.subrange(0, i) =~= items.subrange(0, i));
        lemma_first_bad_list_prefix(init, m, i);
    } else {
        assert(items.subrange(0, i) =~= items);
    }
}

/// Compiles a tree into a program ending in `Match`.
pub fn compile(ast: &Ast) -> (r: Result<Vec<Instruction>, CompileError>)
    ensures
        match compile_outcome(ast@) {
            Ok(code) => r matches Ok(v) && program(v@) == code,
            Err(e) => r == Err::<Vec<Instruction>, CompileError>(e),
        },
{
    let max_capture = max_capture_index(ast);
    match validate_backreferences(ast, max_capture) {
        Ok(()) => {},
        Err(e) => return Err(e),
    }
    let mut compiler = Compiler { p_counter: 0, instructions: Vec::new() };
    assert(compiler.code() =~= Seq::<InstrModel>::empty());
    match compiler.gen_expr(ast) {
        Ok(()) => {},
        Err(e) => return Err(e),
    }
    assert(compiler.code() =~= code_of(ast@, 0));
    compiler.finish()
}

/// The `CompileV2Error` that corresponds to a compile error.
pub open spec fn v2_error(e: CompileError) -> CompileV2Error {
    match e {
        CompileError::PCOverFlow => CompileV2Error::PCOverFlow,
        CompileError::InvalidBackreference(i) => CompileV2Error::InvalidBackreference(i),
    }
}

/// Compiles a tree, reporting errors as `CompileV2Error`.
pub fn compile_v2(ast: &Ast) -> (r: Result<Vec<Instruction>, CompileV2Error>)
    ensures
        match compile_outcome(ast@) {
            Ok(code) => r matches Ok(v) && program(v@) == code,
            Err(e) => r == Err::<Vec<Instruction>, CompileV2Error>(v2_error(e)),
        },
{
    match compile(ast) {
        Ok(code) => Ok(code),
        Err(CompileError::PCOverFlow) => Err(CompileV2Error::PCOverFlow),
        Err(CompileError::InvalidBackreference(i)) => Err(CompileV2Error::InvalidBackreference(i)),
    }
}

} // verus!
