//! A plan that narrows where a match of a byte-level program can start: the
//! bytes a match can begin with, whether it can match the empty text, and the
//! literal bytes every match begins with.
use vstd::prelude::*;
use vstd::set_lib::set_int_range;

verus! {

/// A byte of the byte-level instruction set.
#[derive(Debug, Clone, Copy, PartialEq, Eq, Structural)]
pub enum Char {
    /// A given byte.
    Literal(u8),
    /// Any byte.
    Any,
}

/// An instruction of the byte-level instruction set.
#[derive(Debug, Clone, Copy, PartialEq, Eq, Structural)]
pub enum Instruction {
    /// Consume one byte.
    Char(Char),
    /// Success.
    Match,
    /// Continue at an address.
    Jump(usize),
    /// Try both addresses.
    Split(usize, usize),
}

/// Data that narrows the candidate start positions of a match.
#[derive(Debug, Clone, PartialEq, Eq)]
pub struct SearchPlan {
    /// Whether the program can match the empty text.
    pub can_match_empty: bool,
    /// Whether a match can begin with any byte.
    pub has_any_first_byte: bool,
    /// Bit set of the bytes a match can begin with.
    pub first_byte_mask: [u64; 4],
    /// The literal bytes at the start of the program, if any.
    pub leading_literal: Option<Vec<u8>>,
}

/// Whether the bit set holds `b`.
pub open spec fn mask_has(mask: [u64; 4], b: u8) -> bool {
    mask[(b / 64) as int] & (1u64 << ((b % 64) as u64)) != 0
}

/// An edge that a run follows without reading a byte.
pub open spec fn eps_step(prog: Seq<Instruction>, a: int, b: int) -> bool {
    &&& 0 <= a < prog.len()
    &&& 0 <= b < prog.len()
    &&& match prog[a] {
        Instruction::Jump(n) => b == n,
        Instruction::Split(l, r) => b == l || b == r,
        _ => false,
    }
}

/// Step `k` of a path follows such an edge.
pub open spec fn pc_step(prog: Seq<Instruction>, path: Seq<int>, k: int) -> bool {
    eps_step(prog, path[k], path[k + 1])
}

/// Whether the address `pc` can be reached from address 0 without reading.
pub open spec fn pc_reachable(prog: Seq<Instruction>, pc: int) -> bool {
    exists|path: Seq<int>|
        #![trigger path[0], path[path.len() - 1]]
        path.len() > 0 && path[0] == 0 && path[path.len() - 1] == pc && 0 <= pc < prog.len()
            && forall|k: int| 0 <= k < path.len() - 1 ==> #[trigger] pc_step(prog, path, k)
}

/// Whether an instruction reachable at the start satisfies `f`.
pub open spec fn reaches(prog: Seq<Instruction>, f: spec_fn(Instruction) -> bool) -> bool {
    exists|pc: int| #[trigger] pc_reachable(prog, pc) && f(prog[pc])
}

/// The literal bytes at the start of a program.
pub open spec fn leading_bytes(prog: Seq<Instruction>) -> Seq<u8>
    decreases prog.len(),
{
    if prog.len() == 0 {
        Seq::empty()
    } else {
        match prog[0] {
            Instruction::Char(Char::Literal(b)) => seq![b] + leading_bytes(prog.drop_first()),
            _ => Seq::empty(),
        }
    }
}

/// ASCII lowercase of a byte.
pub open spec fn ascii_lower(b: u8) -> u8 {
    if 65 <= b <= 90 {
        (b + 32) as u8
    } else {
        b
    }
}

proof fn lemma_bit_or(m: u64, i: u64, j: u64)
    requires
        i < 64,
        j < 64,
    ensures
        ((m | (1u64 << j)) & (1u64 << i) != 0) == ((m & (1u64 << i) != 0) || i == j),
{
    assert(((m | (1u64 << j)) & (1u64 << i) != 0) == ((m & (1u64 << i) != 0) || i == j))
        by (bit_vector)
        requires
            i < 64,
            j < 64,
    ;
}

proof fn lemma_zero_mask(i: u64)
    requires
        i < 64,
    ensures
        (0u64 & (1u64 << i)) == 0,
{
    assert((0u64 & (1u64 << i)) == 0) by (bit_vector);
}

proof fn lemma_reach_start(prog: Seq<Instruction>)
    requires
        prog.len() > 0,
    ensures
        pc_reachable(prog, 0),
{
    let path = seq![0int];
    assert(path[0] == 0 && path[path.len() - 1] == 0);
}

proof fn lemma_reach_next(prog: Seq<Instruction>, a: int, b: int)
    requires
        pc_reachable(prog, a),
        eps_step(prog, a, b),
    ensures
        pc_reachable(prog, b),
{
    let path = choose|path: Seq<int>|
        #![trigger path[0], path[path.len() - 1]]
        path.len() > 0 && path[0] == 0 && path[path.len() - 1] == a && 0 <= a < prog.len()
            && forall|k: int| 0 <= k < path.len() - 1 ==> #[trigger] pc_step(prog, path, k);
    let p2 = path.push(b);
    assert forall|k: int| 0 <= k < p2.len() - 1 implies #[trigger] pc_step(prog, p2, k) by {
        if k < path.len() - 1 {
            assert(pc_step(prog, path, k));
        }
    }
    assert(p2[0] == 0 && p2[p2.len() - 1] == b);
}

/// A set of addresses that holds 0 and every edge's target from its members
/// holds every reachable address.
proof fn lemma_closed(prog: Seq<Instruction>, seen: Set<int>, pc: int)
    requires
        seen.contains(0),
        forall|a: int, b: int| seen.contains(a) && #[trigger] eps_step(prog, a, b) ==> seen.contains(b),
        pc_reachable(prog, pc),
    ensures
        seen.contains(pc),
{
    let path = choose|path: Seq<int>|
        #![trigger path[0], path[path.len() - 1]]
        path.len() > 0 && path[0] == 0 && path[path.len() - 1] == pc && 0 <= pc < prog.len()
            && forall|k: int| 0 <= k < path.len() - 1 ==> #[trigger] pc_step(prog, path, k);
    lemma_closed_path(prog, seen, path, path.len() - 1);
}

/// Every address of a path from 0 lies in a closed set that holds 0.
proof fn lemma_closed_path(prog: Seq<Instruction>, seen: Set<int>, path: Seq<int>, k: int)
    requires
        0 <= k < path.len(),
        path[0] == 0,
        seen.contains(0),
        forall|j: int| 0 <= j < path.len() - 1 ==> #[trigger] pc_step(prog, path, j),
        forall|a: int, b: int| seen.contains(a) && #[trigger] eps_step(prog, a, b) ==> seen.contains(b),
    ensures
        seen.contains(path[k]),
    decreases k,
{
    if k > 0 {
        lemma_closed_path(prog, seen, path, k - 1);
        assert(pc_step(prog, path, k - 1));
    }
}

/// Whether a marked address holds an instruction that satisfies `f`.
spec fn seen_has(prog: Seq<Instruction>, seen: Set<int>, f: spec_fn(Instruction) -> bool) -> bool {
    exists|i: int| #[trigger] seen.contains(i) && f(prog[i])
}

proof fn lemma_seen_has_insert(prog: Seq<Instruction>, seen: Set<int>, x: int, f: spec_fn(Instruction) -> bool)
    ensures
        seen_has(prog, seen.insert(x), f) == (seen_has(prog, seen, f) || f(prog[x])),
{
    if seen_has(prog, seen.insert(x), f) {
        let i = choose|i: int| #[trigger] seen.insert(x).contains(i) && f(prog[i]);
        if i != x {
            assert(seen.contains(i));
        }
    }
    if seen_has(prog, seen, f) {
        let i = choose|i: int| #[trigger] seen.contains(i) && f(prog[i]);
        assert(seen.insert(x).contains(i));
    }
    if f(prog[x]) {
        assert(seen.insert(x).contains(x));
    }
}

/// When the marked set is the reachable set, it holds an instruction with a
/// property exactly when a reachable address does.
proof fn lemma_reaches_seen(prog: Seq<Instruction>, seen: Set<int>, f: spec_fn(Instruction) -> bool)
    requires
        forall|pc: int| pc_reachable(prog, pc) ==> #[trigger] seen.contains(pc),
        forall|i: int| #[trigger] seen.contains(i) ==> 0 <= i < prog.len() && pc_reachable(prog, i),
    ensures
        seen_has(prog, seen, f) == reaches(prog, f),
{
    if reaches(prog, f) {
        let pc = choose|pc: int| #[trigger] pc_reachable(prog, pc) && f(prog[pc]);
        assert(seen.contains(pc));
    }
    if seen_has(prog, seen, f) {
        let i = choose|i: int| #[trigger] seen.contains(i) && f(prog[i]);
        assert(pc_reachable(prog, i));
    }
}

/// The search's invariant: `seen` is the set of marked addresses, each
/// reachable; pending addresses are reachable; every edge from a marked
/// address ends at a marked or pending address; 0 is marked or pending; and
/// the flags and bit set describe the marked instructions.
spec fn walk_inv(
    prog: Seq<Instruction>,
    visited: Seq<bool>,
    seen: Set<int>,
    stack: Seq<usize>,
    plan: SearchPlan,
) -> bool {
    &&& visited.len() == prog.len()
    &&& forall|i: int| 0 <= i < prog.len() ==> (visited[i] <==> seen.contains(i))
    &&& forall|i: int| #[trigger] seen.contains(i) ==> 0 <= i < prog.len() && pc_reachable(prog, i)
    &&& forall|j: int| 0 <= j < stack.len() ==> stack[j] < prog.len() && pc_reachable(prog, #[trigger] stack[j] as int)
    &&& seen.contains(0) || stack.contains(0usize)
    &&& forall|a: int, b: int|
        seen.contains(a) && #[trigger] eps_step(prog, a, b) ==> seen.contains(b) || stack.contains(b as usize)
    &&& plan.can_match_empty == seen_has(prog, seen, |i: Instruction| i is Match)
    &&& plan.has_any_first_byte == seen_has(prog, seen, |i: Instruction| i == Instruction::Char(Char::Any))
    &&& forall|b: u8| #[trigger] mask_has(plan.first_byte_mask, b) == seen_has(
        prog,
        seen,
        |i: Instruction| i == Instruction::Char(Char::Literal(b)),
    )
}

impl SearchPlan {
    /// The plan of a program.
    pub fn build(insts: &[Instruction]) -> (plan: Self)
        ensures
            plan.can_match_empty == (insts@.len() == 0 || reaches(insts@, |i: Instruction| i is Match)),
            plan.has_any_first_byte == (insts@.len() > 0 && reaches(insts@, |i: Instruction| i == Instruction::Char(Char::Any))),
            forall|b: u8| #[trigger] mask_has(plan.first_byte_mask, b) == (insts@.len() > 0 && reaches(
                insts@,
                |i: Instruction| i == Instruction::Char(Char::Literal(b)),
            )),
            match plan.leading_literal {
                Some(v) => v@ == leading_bytes(insts@) && v@.len() > 0,
                None => leading_bytes(insts@).len() == 0,
            },
    {
        let mut plan = SearchPlan {
            can_match_empty: false,
            has_any_first_byte: false,
            first_byte_mask: [0u64, 0u64, 0u64, 0u64],
            leading_literal: Self::detect_leading_literal(insts),
        };
        plan.collect_first_bytes(insts);
        plan
    }

    /// The literal bytes at the start of the program, if any.
    #[verifier::loop_isolation(false)]
    fn detect_leading_literal(insts: &[Instruction]) -> (r: Option<Vec<u8>>)
        ensures
            match r {
                Some(v) => v@ == leading_bytes(insts@) && v@.len() > 0,
                None => leading_bytes(insts@).len() == 0,
            },
    {
        let ghost prog = insts@;
        let mut bytes: Vec<u8> = Vec::new();
        let mut pc: usize = 0;
        assert(prog.skip(0) =~= prog);
        while pc < insts.len()
            invariant
                prog == insts@,
                pc <= prog.len(),
                bytes@.len() == pc,
                leading_bytes(prog) == bytes@ + leading_bytes(prog.skip(pc as int)),
            decreases prog.len() - pc,
        {
            match insts[pc] {
                Instruction::Char(Char::Literal(b)) => {
                    assert(prog.skip(pc as int).drop_first() =~= prog.skip(pc + 1));
                    assert(prog.skip(pc as int)[0] == prog[pc as int]);
                    bytes.push(b);
                    assert(bytes@ + leading_bytes(prog.skip(pc + 1)) =~= bytes@.drop_last() + (seq![b]
                        + leading_bytes(prog.skip(pc + 1))));
                    pc = pc + 1;
                },
                _ => {
                    assert(prog.skip(pc as int)[0] == prog[pc as int]);
                    assert(leading_bytes(prog.skip(pc as int)) =~= Seq::<u8>::empty());
                    break;
                },
            }
        }
        if pc >= insts.len() {
            assert(prog.skip(pc as int).len() == 0);
            assert(leading_bytes(prog.skip(pc as int)) =~= Seq::<u8>::empty());
        }
        assert(bytes@ + Seq::<u8>::empty() =~= bytes@);
        if bytes.len() == 0 {
            None
        } else {
            Some(bytes)
        }
    }

    /// Walks the addresses reachable from the start without reading and
    /// records what the instructions there read.
    #[verifier::loop_isolation(false)]
    fn collect_first_bytes(&mut self, insts: &[Instruction])
        requires
            !old(self).can_match_empty,
            !old(self).has_any_first_byte,
            forall|i: int| 0 <= i < 4 ==> old(self).first_byte_mask[i] == 0,
        ensures
            final(self).leading_literal == old(self).leading_literal,
            final(self).can_match_empty == (insts@.len() == 0 || reaches(insts@, |i: Instruction| i is Match)),
            final(self).has_any_first_byte == (insts@.len() > 0 && reaches(insts@, |i: Instruction| i == Instruction::Char(Char::Any))),
            forall|b: u8| #[trigger] mask_has(final(self).first_byte_mask, b) == (insts@.len() > 0 && reaches(
                insts@,
                |i: Instruction| i == Instruction::Char(Char::Literal(b)),
            )),
    {
        let ghost prog = insts@;
        if insts.len() == 0 {
            self.can_match_empty = true;
            assert forall|b: u8| !#[trigger] mask_has(self.first_byte_mask, b) by {
                lemma_zero_mask((b % 64) as u64);
            }
            return;
        }
        let mut stack: Vec<usize> = Vec::new();
        stack.push(0);
        let mut visited: Vec<bool> = Vec::new();
        for i in 0..insts.len()
            invariant
                visited@.len() == i,
                forall|j: int| 0 <= j < i ==> !visited@[j],
        {
            visited.push(false);
        }
        let ghost mut seen: Set<int> = Set::empty();
        proof {
            lemma_reach_start(prog);
            assert(stack@[0] == 0usize);
            assert forall|b: u8| !#[trigger] mask_has(self.first_byte_mask, b) by {
                lemma_zero_mask((b % 64) as u64);
            }
            vstd::set_lib::lemma_int_range(0, prog.len() as int);
        }
        while stack.len() > 0
            invariant
                prog == insts@,
                walk_inv(prog, visited@, seen, stack@, *self),
                seen.subset_of(set_int_range(0, prog.len() as int)),
                seen.finite(),
                set_int_range(0, prog.len() as int).len() == prog.len(),
                self.leading_literal == old(self).leading_literal,
            decreases prog.len() - seen.len(), stack.len(),
        {
            proof {
                vstd::set_lib::lemma_len_subset(seen, set_int_range(0, prog.len() as int));
            }
            let ghost stack0 = stack@;
            let pc = stack.pop().unwrap();
            assert(stack0 =~= stack@.push(pc));
            if pc >= insts.len() {
                assert(false);
                continue;
            }
            if visited[pc] {
                assert forall|a: int, b: int|
                    seen.contains(a) && #[trigger] eps_step(prog, a, b) implies seen.contains(b)
                    || stack@.contains(b as usize) by {
                    if stack0.contains(b as usize) && !seen.contains(b) {
                        let j = choose|j: int| 0 <= j < stack0.len() && stack0[j] == b as usize;
                        if j < stack@.len() {
                            assert(stack@[j] == b as usize);
                        }
                    }
                }
                assert(seen.contains(0) || stack@.contains(0usize)) by {
                    if stack0.contains(0usize) && !seen.contains(0) {
                        let j = choose|j: int| 0 <= j < stack0.len() && stack0[j] == 0usize;
                        if j < stack@.len() {
                            assert(stack@[j] == 0usize);
                        }
                    }
                }
                continue;
            }
            visited.set(pc, true);
            let ghost old_seen = seen;
            proof {
                seen = seen.insert(pc as int);
                assert(pc_reachable(prog, pc as int)) by {
                    assert(stack0[stack0.len() - 1] == pc);
                }
            }
            let ghost stack1 = stack@;
            match insts[pc] {
                Instruction::Match => self.can_match_empty = true,
                Instruction::Char(Char::Any) => self.has_any_first_byte = true,
                Instruction::Char(Char::Literal(b)) => self.add_first_byte(b),
                Instruction::Jump(next) => {
                    if next < insts.len() {
                        stack.push(next);
                    }
                },
                Instruction::Split(left, right) => {
                    if left < insts.len() {
                        stack.push(left);
                    }
                    if right < insts.len() {
                        stack.push(right);
                    }
                },
            }
            proof {
                assert forall|j: int| 0 <= j < stack1.len() implies stack@.contains(#[trigger] stack1[j]) by {
                    assert(stack@[j] == stack1[j]);
                }
                assert forall|j: int| 0 <= j < stack@.len() implies stack@[j] < prog.len() && pc_reachable(
                    prog,
                    #[trigger] stack@[j] as int,
                ) by {
                    if j >= stack1.len() {
                        lemma_reach_next(prog, pc as int, stack@[j] as int);
                    } else {
                        assert(stack@[j] == stack1[j]);
                    }
                }
                assert forall|a: int, b: int|
                    seen.contains(a) && #[trigger] eps_step(prog, a, b) implies seen.contains(b)
                    || stack@.contains(b as usize) by {
                    if a == pc {
                        match prog[a] {
                            Instruction::Jump(n) => {
                                assert(stack@[stack@.len() - 1] == b as usize);
                            },
                            Instruction::Split(l, r) => {
                                if b == r {
                                    assert(stack@[stack@.len() - 1] == b as usize);
                                } else {
                                    if r < prog.len() {
                                        assert(stack@[stack@.len() - 2] == b as usize);
                                    } else {
                                        assert(stack@[stack@.len() - 1] == b as usize);
                                    }
                                }
                            },
                            _ => {},
                        }
                    } else {
                        assert(old_seen.contains(a));
                        if stack0.contains(b as usize) && !old_seen.contains(b) && b != pc {
                            let j = choose|j: int| 0 <= j < stack0.len() && stack0[j] == b as usize;
                            assert(j < stack1.len());
                            assert(stack1.contains(b as usize));
                        }
                    }
                }
                assert(seen.contains(0) || stack@.contains(0usize)) by {
                    if stack0.contains(0usize) && !old_seen.contains(0) && pc != 0 {
                        let j = choose|j: int| 0 <= j < stack0.len() && stack0[j] == 0usize;
                        assert(j < stack1.len());
                        assert(stack1.contains(0usize));
                    }
                }
                lemma_seen_has_insert(prog, old_seen, pc as int, |i: Instruction| i is Match);
                lemma_seen_has_insert(prog, old_seen, pc as int, |i: Instruction| i == Instruction::Char(Char::Any));
                assert forall|b: u8| #[trigger] mask_has(self.first_byte_mask, b) == seen_has(
                    prog,
                    seen,
                    |i: Instruction| i == Instruction::Char(Char::Literal(b)),
                ) by {
                    lemma_seen_has_insert(prog, old_seen, pc as int, |i: Instruction| i == Instruction::Char(Char::Literal(b)));
                }
                assert(seen.subset_of(set_int_range(0, prog.len() as int)));
                assert(!old_seen.contains(pc as int));
                vstd::set_lib::lemma_len_subset(seen, set_int_range(0, prog.len() as int));
            }
        }
        proof {
            assert forall|a: int, b: int| seen.contains(a) && #[trigger] eps_step(prog, a, b) implies seen.contains(b) by {
                assert(!stack@.contains(b as usize));
            }
            assert(seen.contains(0));
            assert forall|pc: int| pc_reachable(prog, pc) implies #[trigger] seen.contains(pc) by {
                lemma_closed(prog, seen, pc);
            }
            lemma_reaches_seen(prog, seen, |i: Instruction| i is Match);
            lemma_reaches_seen(prog, seen, |i: Instruction| i == Instruction::Char(Char::Any));
            assert forall|b: u8| #[trigger] mask_has(self.first_byte_mask, b) == (prog.len() > 0 && reaches(
                prog,
                |i: Instruction| i == Instruction::Char(Char::Literal(b)),
            )) by {
                lemma_reaches_seen(prog, seen, |i: Instruction| i == Instruction::Char(Char::Literal(b)));
            }
        }
    }

    /// Adds `byte` to the bit set.
    fn add_first_byte(&mut self, byte: u8)
        ensures
            final(self).can_match_empty == old(self).can_match_empty,
            final(self).has_any_first_byte == old(self).has_any_first_byte,
            final(self).leading_literal == old(self).leading_literal,
            forall|b: u8| #[trigger] mask_has(final(self).first_byte_mask, b) == (mask_has(old(self).first_byte_mask, b) || b == byte),
    {
        let index = (byte / 64) as usize;
        let shift = (byte % 64) as u64;
        let bit = 1u64 << shift;
        let ghost before = self.first_byte_mask;
        self.first_byte_mask[index] = self.first_byte_mask[index] | bit;
        assert forall|b: u8| #[trigger] mask_has(self.first_byte_mask, b) == (mask_has(before, b) || b == byte) by {
            lemma_bit_or(before[(b / 64) as int], (b % 64) as u64, shift);
            if (b / 64) as int != index as int {
                assert(self.first_byte_mask[(b / 64) as int] == before[(b / 64) as int]);
            } else {
                assert((b % 64 == byte % 64) == (b == byte));
            }
        }
    }

    /// Whether the bit set holds `byte`.
    fn contains_first_byte(&self, byte: u8) -> (r: bool)
        ensures
            r == mask_has(self.first_byte_mask, byte),
    {
        let index = (byte / 64) as usize;
        let bit = 1u64 << ((byte % 64) as u64);
        (self.first_byte_mask[index] & bit) != 0
    }

    /// Whether a match can begin with `byte`, compared after ASCII lowercasing
    /// when `ignore_case_ascii` is set.
    pub fn accepts_first_byte(&self, byte: u8, ignore_case_ascii: bool) -> (r: bool)
        ensures
            r == (self.has_any_first_byte || mask_has(
                self.first_byte_mask,
                if ignore_case_ascii {
                    ascii_lower(byte)
                } else {
                    byte
                },
            )),
    {
        if self.has_any_first_byte {
            return true;
        }
        if ignore_case_ascii {
            let lower = if 65 <= byte && byte <= 90 {
                byte + 32
            } else {
                byte
            };
            self.contains_first_byte(lower)
        } else {
            self.contains_first_byte(byte)
        }
    }
}

} // verus!
