//! Properties that relate the compiler and the evaluator: every jump of a
//! compiled program stays inside it, so no run of it reaches a missing
//! address, and evaluating it reports exactly whether some start position
//! reaches `Match`.
use vstd::prelude::*;
use crate::engine::ast::AstModel;
use crate::engine::compiler::{code_list, code_of, code_opt, code_opts, code_star, code_times, compile_outcome, split_for};
use crate::engine::evaluator::{
    EvalError, RunState, accepts_from, eval_outcome, faults_from, is_run, max_slot_index, reachable,
    run_step, search_any, start_state, successors,
};
use crate::engine::instruction::InstrModel;

verus! {

/// The instruction is no `Match`, and the targets of a split or jump lie in
/// `lo..=hi`.
pub open spec fn target_ok(ins: InstrModel, lo: int, hi: int) -> bool {
    match ins {
        InstrModel::Split(x, y) => lo <= x <= hi && lo <= y <= hi,
        InstrModel::Jump(x) => lo <= x <= hi,
        InstrModel::Match => false,
        _ => true,
    }
}

/// `code` holds no `Match`, and every split and jump of it targets `lo..=hi`.
pub open spec fn targets_in(code: Seq<InstrModel>, lo: int, hi: int) -> bool {
    forall|i: int| 0 <= i < code.len() ==> #[trigger] target_ok(code[i], lo, hi)
}

proof fn lemma_targets_concat(a: Seq<InstrModel>, b: Seq<InstrModel>, lo: int, hi: int)
    requires
        targets_in(a, lo, hi),
        targets_in(b, lo, hi),
    ensures
        targets_in(a + b, lo, hi),
{
    assert forall|i: int| 0 <= i < (a + b).len() implies #[trigger] target_ok((a + b)[i], lo, hi) by {
        if i < a.len() {
            assert((a + b)[i] == a[i]);
        } else {
            assert((a + b)[i] == b[i - a.len()]);
        }
    }
}

proof fn lemma_targets_widen(a: Seq<InstrModel>, lo: int, hi: int, lo2: int, hi2: int)
    requires
        targets_in(a, lo, hi),
        lo2 <= lo,
        hi <= hi2,
    ensures
        targets_in(a, lo2, hi2),
{
    assert forall|i: int| 0 <= i < a.len() implies #[trigger] target_ok(a[i], lo2, hi2) by {
        assert(target_ok(a[i], lo, hi));
    }
}

proof fn lemma_targets_one(ins: InstrModel, lo: int, hi: int)
    requires
        target_ok(ins, lo, hi),
    ensures
        targets_in(seq![ins], lo, hi),
{
    assert(seq![ins][0] == ins);
}

/// The code of a tree placed at `base` jumps only inside `base..=base + len`.
pub proof fn lemma_code_targets(a: AstModel, base: int)
    requires
        0 <= base,
        base + code_of(a, base).len() <= usize::MAX,
    ensures
        targets_in(code_of(a, base), base, base + code_of(a, base).len()),
    decreases a, 0int, 0int,
{
    let c = code_of(a, base);
    let hi = base + c.len();
    match a {
        AstModel::Capture(e, i) => {
            let inner = code_of(*e, base + 1);
            lemma_code_targets(*e, base + 1);
            lemma_targets_widen(inner, base + 1, base + 1 + inner.len(), base, hi);
            lemma_targets_one(InstrModel::SaveStart(i), base, hi);
            lemma_targets_one(InstrModel::SaveEnd(i), base, hi);
            lemma_targets_concat(seq![InstrModel::SaveStart(i)], inner, base, hi);
            lemma_targets_concat(seq![InstrModel::SaveStart(i)] + inner, seq![InstrModel::SaveEnd(i)], base, hi);
        },
        AstModel::ZeroOrMore(e, g) => {
            lemma_star_targets(*e, g, base);
        },
        AstModel::OneOrMore(e, g) => {
            let body = code_of(*e, base);
            lemma_code_targets(*e, base);
            lemma_targets_widen(body, base, base + body.len(), base, hi);
            lemma_targets_one(split_for(g, base, base + body.len() + 1), base, hi);
            lemma_targets_concat(body, seq![split_for(g, base, base + body.len() + 1)], base, hi);
        },
        AstModel::ZeroOrOne(e, g) => {
            lemma_opt_targets(*e, g, base);
        },
        AstModel::Repeat(e, g, min, max) => {
            let fixed = code_times(*e, base, min as nat);
            let b2 = base + fixed.len();
            lemma_times_targets(*e, base, min as nat);
            lemma_targets_widen(fixed, base, b2, base, hi);
            let rest = match max {
                Some(m) => if m <= min {
                    Seq::empty()
                } else {
                    code_opts(*e, g, b2, (m - min) as nat)
                },
                None => code_star(*e, g, b2),
            };
            assert(c == fixed + rest);
            match max {
                Some(m) => if m > min {
                    lemma_opts_targets(*e, g, b2, (m - min) as nat);
                },
                None => {
                    lemma_star_targets(*e, g, b2);
                },
            }
            lemma_targets_widen(rest, b2, b2 + rest.len(), base, hi);
            lemma_targets_concat(fixed, rest, base, hi);
        },
        AstModel::Concat(items) => {
            lemma_list_targets(items, base);
        },
        AstModel::Alternate(l, r) => {
            let lc = code_of(*l, base + 1);
            let re = base + 1 + lc.len() + 1;
            let rc = code_of(*r, re);
            lemma_code_targets(*l, base + 1);
            lemma_code_targets(*r, re);
            lemma_targets_widen(lc, base + 1, base + 1 + lc.len(), base, hi);
            lemma_targets_widen(rc, re, re + rc.len(), base, hi);
            let split = InstrModel::Split((base + 1) as usize, re as usize);
            let jump = InstrModel::Jump((re + rc.len()) as usize);
            lemma_targets_one(split, base, hi);
            lemma_targets_one(jump, base, hi);
            lemma_targets_concat(seq![split], lc, base, hi);
            lemma_targets_concat(seq![split] + lc, seq![jump], base, hi);
            lemma_targets_concat(seq![split] + lc + seq![jump], rc, base, hi);
        },
        _ => {
            assert forall|i: int| 0 <= i < c.len() implies #[trigger] target_ok(c[i], base, hi) by {}
        },
    }
}

pub proof fn lemma_star_targets(e: AstModel, g: bool, base: int)
    requires
        0 <= base,
        base + code_star(e, g, base).len() <= usize::MAX,
    ensures
        targets_in(code_star(e, g, base), base, base + code_star(e, g, base).len()),
    decreases e, 1int, 0int,
{
    let body = code_of(e, base + 1);
    let hi = base + code_star(e, g, base).len();
    lemma_code_targets(e, base + 1);
    lemma_targets_widen(body, base + 1, base + 1 + body.len(), base, hi);
    let split = split_for(g, base + 1, base + 1 + body.len() + 1);
    let jump = InstrModel::Jump(base as usize);
    lemma_targets_one(split, base, hi);
    lemma_targets_one(jump, base, hi);
    lemma_targets_concat(seq![split], body, base, hi);
    lemma_targets_concat(seq![split] + body, seq![jump], base, hi);
}

pub proof fn lemma_opt_targets(e: AstModel, g: bool, base: int)
    requires
        0 <= base,
        base + code_opt(e, g, base).len() <= usize::MAX,
    ensures
        targets_in(code_opt(e, g, base), base, base + code_opt(e, g, base).len()),
    decreases e, 1int, 0int,
{
    let body = code_of(e, base + 1);
    let hi = base + code_opt(e, g, base).len();
    lemma_code_targets(e, base + 1);
    lemma_targets_widen(body, base + 1, base + 1 + body.len(), base, hi);
    let split = split_for(g, base + 1, base + 1 + body.len());
    lemma_targets_one(split, base, hi);
    lemma_targets_concat(seq![split], body, base, hi);
}

pub proof fn lemma_times_targets(e: AstModel, base: int, k: nat)
    requires
        0 <= base,
        base + code_times(e, base, k).len() <= usize::MAX,
    ensures
        targets_in(code_times(e, base, k), base, base + code_times(e, base, k).len()),
    decreases e, 2int, k,
{
    let all = code_times(e, base, k);
    if k == 0 {
        assert forall|i: int| 0 <= i < all.len() implies #[trigger] target_ok(all[i], base, base) by {}
    } else {
        let prev = code_times(e, base, (k - 1) as nat);
        let last = code_of(e, base + prev.len());
        let hi = base + all.len();
        lemma_times_targets(e, base, (k - 1) as nat);
        lemma_code_targets(e, base + prev.len());
        lemma_targets_widen(prev, base, base + prev.len(), base, hi);
        lemma_targets_widen(last, base + prev.len(), base + prev.len() + last.len(), base, hi);
        lemma_targets_concat(prev, last, base, hi);
    }
}

pub proof fn lemma_opts_targets(e: AstModel, g: bool, base: int, k: nat)
    requires
        0 <= base,
        base + code_opts(e, g, base, k).len() <= usize::MAX,
    ensures
        targets_in(code_opts(e, g, base, k), base, base + code_opts(e, g, base, k).len()),
    decreases e, 2int, k,
{
    let all = code_opts(e, g, base, k);
    if k == 0 {
        assert forall|i: int| 0 <= i < all.len() implies #[trigger] target_ok(all[i], base, base) by {}
    } else {
        let prev = code_opts(e, g, base, (k - 1) as nat);
        let last = code_opt(e, g, base + prev.len());
        let hi = base + all.len();
        lemma_opts_targets(e, g, base, (k - 1) as nat);
        lemma_opt_targets(e, g, base + prev.len());
        lemma_targets_widen(prev, base, base + prev.len(), base, hi);
        lemma_targets_widen(last, base + prev.len(), base + prev.len() + last.len(), base, hi);
        lemma_targets_concat(prev, last, base, hi);
    }
}

pub proof fn lemma_list_targets(items: Seq<AstModel>, base: int)
    requires
        0 <= base,
        base + code_list(items, base).len() <= usize::MAX,
    ensures
        targets_in(code_list(items, base), base, base + code_list(items, base).len()),
    decreases items, 0int, 0int,
{
    let all = code_list(items, base);
    if items.len() == 0 {
        assert forall|i: int| 0 <= i < all.len() implies #[trigger] target_ok(all[i], base, base) by {}
    } else {
        let prev = code_list(items.subrange(0, items.len() - 1), base);
        let last = code_of(items[items.len() - 1], base + prev.len());
        let hi = base + all.len();
        lemma_list_targets(items.subrange(0, items.len() - 1), base);
        lemma_code_targets(items[items.len() - 1], base + prev.len());
        lemma_targets_widen(prev, base, base + prev.len(), base, hi);
        lemma_targets_widen(last, base + prev.len(), base + prev.len() + last.len(), base, hi);
        lemma_targets_concat(prev, last, base, hi);
    }
}

/// Every state of a run of a program whose jumps stay inside it, and whose
/// last instruction is `Match`, names an instruction.
proof fn lemma_run_stays_inside(prog: Seq<InstrModel>, chars: Seq<char>, path: Seq<RunState>, k: int)
    requires
        prog.len() > 0,
        prog[prog.len() - 1] is Match,
        forall|i: int| 0 <= i < prog.len() - 1 ==> #[trigger] target_ok(prog[i], 0, prog.len() - 1),
        is_run(prog, chars, path),
        path[0].pc < prog.len(),
        0 <= k < path.len(),
    ensures
        path[k].pc < prog.len(),
    decreases k,
{
    if k > 0 {
        lemma_run_stays_inside(prog, chars, path, k - 1);
        let s = path[k - 1];
        assert(run_step(prog, chars, path, k - 1));
        assert(successors(prog, chars, s).contains(path[k]));
        if s.pc < prog.len() - 1 {
            assert(target_ok(prog[s.pc as int], 0, prog.len() - 1));
        }
    }
}

/// No run of a compiled program reaches a missing address.
pub proof fn lemma_compiled_never_faults(a: AstModel, chars: Seq<char>, init: RunState)
    requires
        compile_outcome(a) is Ok,
        init.pc < compile_outcome(a)->Ok_0.len(),
    ensures
        !faults_from(compile_outcome(a)->Ok_0, chars, init),
{
    let c = code_of(a, 0);
    let prog = compile_outcome(a)->Ok_0;
    assert(prog == c.push(InstrModel::Match));
    lemma_code_targets(a, 0);
    assert forall|i: int| 0 <= i < prog.len() - 1 implies #[trigger] target_ok(prog[i], 0, prog.len() - 1) by {
        assert(prog[i] == c[i]);
        assert(target_ok(c[i], 0, c.len() as int));
    }
    if faults_from(prog, chars, init) {
        let s = choose|s: RunState| reachable(prog, chars, init, s) && s.pc >= prog.len();
        let path = choose|path: Seq<RunState>|
            #[trigger] is_run(prog, chars, path) && path[0] == init && path[path.len() - 1] == s;
        lemma_run_stays_inside(prog, chars, path, path.len() - 1);
    }
}

/// On a compiled program whose capture slots can be counted, evaluation
/// reports exactly whether some start position of the text reaches `Match`.
pub proof fn law_eval_compiled_exact(a: AstModel, chars: Seq<char>, r: Result<bool, EvalError>)
    requires
        compile_outcome(a) is Ok,
        max_slot_index(compile_outcome(a)->Ok_0) < usize::MAX,
        eval_outcome(compile_outcome(a)->Ok_0, chars, r),
    ensures
        r == Ok::<bool, EvalError>(
            exists|st: nat|
                st <= chars.len() && #[trigger] accepts_from(
                    compile_outcome(a)->Ok_0,
                    chars,
                    start_state(st, max_slot_index(compile_outcome(a)->Ok_0) + 1),
                ),
        ),
{
    let prog = compile_outcome(a)->Ok_0;
    let k = max_slot_index(prog) + 1;
    assert(search_any(prog, chars, k, r));
    let ex = exists|st: nat| st <= chars.len() && #[trigger] accepts_from(prog, chars, start_state(st, k));
    match r {
        Ok(true) => {
            assert(ex);
        },
        Ok(false) => {
            if ex {
                let st = choose|st: nat| st <= chars.len() && #[trigger] accepts_from(prog, chars, start_state(st, k));
                assert(!accepts_from(prog, chars, start_state(st, k)));
            }
        },
        Err(_) => {
            let st = choose|st: nat| st <= chars.len() && #[trigger] faults_from(prog, chars, start_state(st, k));
            lemma_compiled_never_faults(a, chars, start_state(st, k));
        },
    }
}

} // verus!
