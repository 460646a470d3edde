//! Depth-first evaluator of the basic engine.
//!
//! The evaluator follows the program from an address and a character index,
//! trying the first branch of a split before the second. Before a split it
//! records the pair (first branch, index), and gives up on the split when the
//! pair was recorded before, so every loop through a split ends. A loop made
//! of jumps alone still does not end: `run` says what the search gives when
//! it ends within `fuel` steps, and the `termination` module shows that it
//! ends on every program without such a loop, which includes every compiled
//! program.
use vstd::prelude::*;
use crate::basic::error::EvalError;
use crate::basic::instruction::{Char, Instruction};
use crate::engine::safe_add;

verus! {

/// Whether the test `c` passes at index `i`: there is a character there,
/// and it is the literal, if the test names one.
pub open spec fn char_ok(c: Char, s: Seq<char>, i: int) -> bool {
    0 <= i < s.len() && match c {
        Char::Any => true,
        Char::Literal(x) => s[i] == x,
    }
}

/// Records the pair `(addr, ci)`; tells whether it was already recorded.
pub open spec fn visit(vis: Seq<(usize, usize)>, addr: usize, ci: usize) -> (bool, Seq<(usize, usize)>) {
    if vis.contains((addr, ci)) {
        (true, vis)
    } else {
        (false, vis.push((addr, ci)))
    }
}

/// The result of a search and the record after it.
pub type RunResult = (Result<bool, EvalError>, Seq<(usize, usize)>);

/// The search from `pc` and `ci` with the record `vis`, when it ends within
/// `fuel` steps; `blen` is the length of the text in characters, compared with the
/// index at `match` when `dollar` is set.
pub open spec fn run(
    prog: Seq<Instruction>,
    s: Seq<char>,
    blen: nat,
    dollar: bool,
    pc: usize,
    ci: usize,
    vis: Seq<(usize, usize)>,
    fuel: nat,
) -> Option<RunResult>
    decreases fuel,
{
    if fuel == 0 {
        None
    } else if pc >= prog.len() {
        Some((Err(EvalError::InvalidPC), vis))
    } else {
        match prog[pc as int] {
            Instruction::Char(c) => if char_ok(c, s, ci as int) {
                if pc == usize::MAX {
                    Some((Err(EvalError::PCOverFlow), vis))
                } else if ci == usize::MAX {
                    Some((Err(EvalError::CharIndexOverFlow), vis))
                } else {
                    run(prog, s, blen, dollar, (pc + 1) as usize, (ci + 1) as usize, vis, (fuel - 1) as nat)
                }
            } else {
                Some((Ok(false), vis))
            },
            Instruction::Match => Some(
                (
                    Ok(
                        if dollar {
                            blen == ci
                        } else {
                            true
                        },
                    ),
                    vis,
                ),
            ),
            Instruction::Jump(a) => run(prog, s, blen, dollar, a, ci, vis, (fuel - 1) as nat),
            Instruction::Split(a1, a2) => {
                let (seen, v1) = visit(vis, a1, ci);
                if seen {
                    Some((Ok(false), v1))
                } else {
                    match run(prog, s, blen, dollar, a1, ci, v1, (fuel - 1) as nat) {
                        None => None,
                        Some((Ok(false), v2)) => run(prog, s, blen, dollar, a2, ci, v2, (fuel - 1) as nat),
                        Some(x) => Some(x),
                    }
                }
            },
        }
    }
}

/// Whether the search ends.
pub open spec fn finishes(
    prog: Seq<Instruction>,
    s: Seq<char>,
    blen: nat,
    dollar: bool,
    pc: usize,
    ci: usize,
    vis: Seq<(usize, usize)>,
) -> bool {
    exists|fuel: nat| #[trigger] run(prog, s, blen, dollar, pc, ci, vis, fuel) is Some
}

/// What the search gives when it ends.
pub open spec fn outcome(
    prog: Seq<Instruction>,
    s: Seq<char>,
    blen: nat,
    dollar: bool,
    pc: usize,
    ci: usize,
    vis: Seq<(usize, usize)>,
) -> RunResult {
    run(prog, s, blen, dollar, pc, ci, vis, choose|fuel: nat| #[trigger] run(prog, s, blen, dollar, pc, ci, vis, fuel) is Some)->0
}

/// A search that ends within some fuel gives the same with more fuel.
pub proof fn lemma_run_more_fuel(
    prog: Seq<Instruction>,
    s: Seq<char>,
    blen: nat,
    dollar: bool,
    pc: usize,
    ci: usize,
    vis: Seq<(usize, usize)>,
    fuel: nat,
    more: nat,
)
    requires
        run(prog, s, blen, dollar, pc, ci, vis, fuel) is Some,
        fuel <= more,
    ensures
        run(prog, s, blen, dollar, pc, ci, vis, more) == run(prog, s, blen, dollar, pc, ci, vis, fuel),
    decreases fuel,
{
    if fuel > 0 && pc < prog.len() {
        match prog[pc as int] {
            Instruction::Char(c) => {
                if char_ok(c, s, ci as int) && pc < usize::MAX && ci < usize::MAX {
                    lemma_run_more_fuel(prog, s, blen, dollar, (pc + 1) as usize, (ci + 1) as usize, vis, (fuel - 1) as nat, (more - 1) as nat);
                }
            },
            Instruction::Jump(a) => {
                lemma_run_more_fuel(prog, s, blen, dollar, a, ci, vis, (fuel - 1) as nat, (more - 1) as nat);
            },
            Instruction::Split(a1, a2) => {
                let (seen, v1) = visit(vis, a1, ci);
                if !seen {
                    lemma_run_more_fuel(prog, s, blen, dollar, a1, ci, v1, (fuel - 1) as nat, (more - 1) as nat);
                    match run(prog, s, blen, dollar, a1, ci, v1, (fuel - 1) as nat) {
                        Some((Ok(false), v2)) => {
                            lemma_run_more_fuel(prog, s, blen, dollar, a2, ci, v2, (fuel - 1) as nat, (more - 1) as nat);
                        },
                        _ => {},
                    }
                }
            },
            Instruction::Match => {},
        }
    }
}

/// A search that ends within some fuel gives what the search gives.
pub proof fn lemma_run_outcome(
    prog: Seq<Instruction>,
    s: Seq<char>,
    blen: nat,
    dollar: bool,
    pc: usize,
    ci: usize,
    vis: Seq<(usize, usize)>,
    fuel: nat,
)
    requires
        run(prog, s, blen, dollar, pc, ci, vis, fuel) is Some,
    ensures
        finishes(prog, s, blen, dollar, pc, ci, vis),
        run(prog, s, blen, dollar, pc, ci, vis, fuel) == Some(outcome(prog, s, blen, dollar, pc, ci, vis)),
{
    let f2 = choose|f: nat| #[trigger] run(prog, s, blen, dollar, pc, ci, vis, f) is Some;
    if f2 <= fuel {
        lemma_run_more_fuel(prog, s, blen, dollar, pc, ci, vis, f2, fuel);
    } else {
        lemma_run_more_fuel(prog, s, blen, dollar, pc, ci, vis, fuel, f2);
    }
}

/// One step of a search, from the address and character index `a` to `b`:
/// a passing test moves on by one, a jump goes to its target, a split to
/// either of its targets.
pub open spec fn steps_to(prog: Seq<Instruction>, s: Seq<char>, a: (int, int), b: (int, int)) -> bool {
    0 <= a.0 < prog.len() && match prog[a.0] {
        Instruction::Char(c) => char_ok(c, s, a.1) && b == (a.0 + 1, a.1 + 1),
        Instruction::Jump(x) => b == (x as int, a.1),
        Instruction::Split(x, y) => b == (x as int, a.1) || b == (y as int, a.1),
        Instruction::Match => false,
    }
}

/// A sequence of steps.
pub open spec fn is_path(prog: Seq<Instruction>, s: Seq<char>, p: Seq<(int, int)>) -> bool {
    &&& p.len() > 0
    &&& forall|k: int| 0 <= k < p.len() - 1 ==> #[trigger] steps_to(prog, s, p[k], p[k + 1])
}

/// A state at `Match`, at the end of the text (`blen` characters) when `dollar`.
pub open spec fn accepting(prog: Seq<Instruction>, blen: nat, dollar: bool, a: (int, int)) -> bool {
    &&& 0 <= a.0 < prog.len()
    &&& prog[a.0] is Match
    &&& dollar ==> a.1 == blen
}

/// Whether some sequence of steps from `(pc, ci)` reaches an accepting state.
pub open spec fn reaches_match(prog: Seq<Instruction>, s: Seq<char>, blen: nat, dollar: bool, pc: int, ci: int) -> bool {
    exists|p: Seq<(int, int)>|
        #[trigger] is_path(prog, s, p) && p[0] == (pc, ci) && accepting(prog, blen, dollar, p[p.len() - 1])
}

proof fn lemma_reach_prepend(
    prog: Seq<Instruction>,
    s: Seq<char>,
    blen: nat,
    dollar: bool,
    a: (int, int),
    b: (int, int),
)
    requires
        steps_to(prog, s, a, b),
        reaches_match(prog, s, blen, dollar, b.0, b.1),
    ensures
        reaches_match(prog, s, blen, dollar, a.0, a.1),
{
    let p = choose|p: Seq<(int, int)>|
        #[trigger] is_path(prog, s, p) && p[0] == (b.0, b.1) && accepting(prog, blen, dollar, p[p.len() - 1]);
    let q = seq![a] + p;
    assert forall|k: int| 0 <= k < q.len() - 1 implies #[trigger] steps_to(prog, s, q[k], q[k + 1]) by {
        if k > 0 {
            let j = k - 1;
            assert(steps_to(prog, s, p[j], p[j + 1]));
            assert(q[k] == p[j] && q[k + 1] == p[j + 1]);
        } else {
            assert(q[1] == p[0]);
        }
    }
    assert(q[q.len() - 1] == p[p.len() - 1]);
    assert(is_path(prog, s, q) && q[0] == (a.0, a.1));
}

/// A search that reports a match has found one: some sequence of steps
/// from where it began reaches `Match`.
pub proof fn law_reported_match_is_real(
    prog: Seq<Instruction>,
    s: Seq<char>,
    blen: nat,
    dollar: bool,
    pc: usize,
    ci: usize,
    vis: Seq<(usize, usize)>,
    fuel: nat,
)
    requires
        run(prog, s, blen, dollar, pc, ci, vis, fuel) matches Some((Ok(true), _)),
    ensures
        reaches_match(prog, s, blen, dollar, pc as int, ci as int),
    decreases fuel,
{
    let here = (pc as int, ci as int);
    match prog[pc as int] {
        Instruction::Char(c) => {
            law_reported_match_is_real(prog, s, blen, dollar, (pc + 1) as usize, (ci + 1) as usize, vis, (fuel - 1) as nat);
            lemma_reach_prepend(prog, s, blen, dollar, here, (pc + 1, ci + 1));
        },
        Instruction::Match => {
            let p = seq![here];
            assert(is_path(prog, s, p));
        },
        Instruction::Jump(a) => {
            law_reported_match_is_real(prog, s, blen, dollar, a, ci, vis, (fuel - 1) as nat);
            lemma_reach_prepend(prog, s, blen, dollar, here, (a as int, ci as int));
        },
        Instruction::Split(a1, a2) => {
            let (seen, v1) = visit(vis, a1, ci);
            match run(prog, s, blen, dollar, a1, ci, v1, (fuel - 1) as nat) {
                Some((Ok(false), v2)) => {
                    law_reported_match_is_real(prog, s, blen, dollar, a2, ci, v2, (fuel - 1) as nat);
                    lemma_reach_prepend(prog, s, blen, dollar, here, (a2 as int, ci as int));
                },
                _ => {
                    law_reported_match_is_real(prog, s, blen, dollar, a1, ci, v1, (fuel - 1) as nat);
                    lemma_reach_prepend(prog, s, blen, dollar, here, (a1 as int, ci as int));
                },
            }
        },
    }
}

/// Whether the test `inst` passes at character `index` of `string`.
pub fn eval_char(inst: &Char, string: &str, index: usize) -> (r: bool)
    ensures
        r == char_ok(*inst, string@, index as int),
{
    if index >= string.unicode_len() {
        return false;
    }
    match inst {
        Char::Literal(c) => string.get_char(index) == *c,
        Char::Any => true,
    }
}

/// Increments the program counter and the character index, failing on
/// overflow of either.
pub fn increment_pc_and_index(pc: &mut usize, index: &mut usize) -> (r: Result<(), EvalError>)
    ensures
        *old(pc) == usize::MAX ==> r == Err::<(), EvalError>(EvalError::PCOverFlow) && *final(pc)
            == *old(pc) && *final(index) == *old(index),
        *old(pc) < usize::MAX && *old(index) == usize::MAX ==> r == Err::<(), EvalError>(
            EvalError::CharIndexOverFlow,
        ) && *final(pc) == *old(pc) + 1 && *final(index) == *old(index),
        *old(pc) < usize::MAX && *old(index) < usize::MAX ==> r is Ok && *final(pc) == *old(pc) + 1
            && *final(index) == *old(index) + 1,
{
    match safe_add(
        pc,
        &1,
        || -> (e: EvalError) ensures e == EvalError::PCOverFlow { EvalError::PCOverFlow },
    ) {
        Ok(()) => {},
        Err(e) => return Err(e),
    }
    safe_add(
        index,
        &1,
        || -> (e: EvalError) ensures e == EvalError::CharIndexOverFlow { EvalError::CharIndexOverFlow },
    )
}

/// Records `(addr, char_index)`; tells whether it was recorded already.
#[verifier::loop_isolation(false)]
pub fn is_visited(visited: &mut Vec<(usize, usize)>, addr: usize, char_index: usize) -> (r: bool)
    ensures
        (r, final(visited)@) == visit(old(visited)@, addr, char_index),
{
    for i in 0..visited.len()
        invariant
            forall|j: int| 0 <= j < i ==> visited@[j] != (addr, char_index),
    {
        let (a, c) = visited[i];
        if a == addr && c == char_index {
            assert(visited@[i as int] == (addr, char_index));
            return true;
        }
    }
    assert(!visited@.contains((addr, char_index)));
    visited.push((addr, char_index));
    false
}

/// The search, with `fuel` enough for it to end.
#[verifier::loop_isolation(false)]
fn eval_run(
    instructions: &[Instruction],
    string: &str,
    p_counter: usize,
    char_index: usize,
    is_end_dollar: bool,
    visited: &mut Vec<(usize, usize)>,
    Ghost(fuel): Ghost<nat>,
) -> (r: Result<bool, EvalError>)
    requires
        run(instructions@, string@, string@.len(), is_end_dollar, p_counter, char_index, old(visited)@, fuel) is Some,
    ensures
        Some((r, final(visited)@)) == run(
            instructions@,
            string@,
            string@.len(),
            is_end_dollar,
            p_counter,
            char_index,
            old(visited)@,
            fuel,
        ),
    decreases fuel,
{
    let ghost prog = instructions@;
    let ghost s = string@;
    let ghost blen = string@.len();
    let ghost goal = run(prog, s, blen, is_end_dollar, p_counter, char_index, visited@, fuel);
    let mut pc = p_counter;
    let mut ci = char_index;
    let ghost mut f = fuel;
    loop
        invariant
            f <= fuel,
            run(prog, s, blen, is_end_dollar, pc, ci, visited@, f) == goal,
            goal is Some,
            visited@ == old(visited)@,
        decreases f,
    {
        if pc >= instructions.len() {
            return Err(EvalError::InvalidPC);
        }
        match instructions[pc] {
            Instruction::Char(inst_char) => {
                if eval_char(&inst_char, string, ci) {
                    match increment_pc_and_index(&mut pc, &mut ci) {
                        Ok(()) => {},
                        Err(e) => return Err(e),
                    }
                    proof {
                        f = (f - 1) as nat;
                    }
                } else {
                    return Ok(false);
                }
            },
            Instruction::Match => {
                if is_end_dollar {
                    return Ok(string.unicode_len() == ci);
                } else {
                    return Ok(true);
                }
            },
            Instruction::Jump(addr) => {
                pc = addr;
                proof {
                    f = (f - 1) as nat;
                }
            },
            Instruction::Split(addr1, addr2) => {
                if is_visited(visited, addr1, ci) {
                    return Ok(false);
                }
                let first = eval_run(instructions, string, addr1, ci, is_end_dollar, visited, Ghost((f - 1) as nat));
                match first {
                    Ok(true) => return Ok(true),
                    Err(e) => return Err(e),
                    Ok(false) => {},
                }
                return eval_run(instructions, string, addr2, ci, is_end_dollar, visited, Ghost((f - 1) as nat));
            },
        }
    }
}

/// Searches from `p_counter` and `char_index` with the record `visited`.
pub fn eval_depth(
    instructions: &[Instruction],
    string: &str,
    p_counter: usize,
    char_index: usize,
    is_end_dollar: bool,
    visited: &mut Vec<(usize, usize)>,
) -> (r: Result<bool, EvalError>)
    requires
        finishes(instructions@, string@, string@.len(), is_end_dollar, p_counter, char_index, old(visited)@),
    ensures
        (r, final(visited)@) == outcome(
            instructions@,
            string@,
            string@.len(),
            is_end_dollar,
            p_counter,
            char_index,
            old(visited)@,
        ),
{
    let ghost fuel = choose|fuel: nat|
        #[trigger] run(instructions@, string@, string@.len(), is_end_dollar, p_counter, char_index, visited@, fuel) is Some;
    eval_run(instructions, string, p_counter, char_index, is_end_dollar, visited, Ghost(fuel))
}

/// Evaluates the program on `string` from its first character.
pub fn eval(inst: &[Instruction], string: &str, is_end_dollar: bool) -> (r: Result<bool, EvalError>)
    requires
        finishes(inst@, string@, string@.len(), is_end_dollar, 0, 0, Seq::empty()),
    ensures
        r == outcome(inst@, string@, string@.len(), is_end_dollar, 0, 0, Seq::empty()).0,
{
    let mut visited: Vec<(usize, usize)> = Vec::new();
    assert(visited@ =~= Seq::<(usize, usize)>::empty());
    eval_depth(inst, string, 0, 0, is_end_dollar, &mut visited)
}

} // verus!
