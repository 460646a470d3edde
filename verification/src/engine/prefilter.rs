//! Why skipping a line that lacks one of the must literals of a pattern never
//! changes the answer: every run of a compiled program that goes through the
//! code of a tree reads each must literal of that tree.
use vstd::prelude::*;
use crate::engine::analysis::{analysis, concat_walk, flush, ins, ins_all, keep_common, prune, single_literal, tree_literal};
use crate::engine::ast::{AstModel, class_accepts};
use crate::engine::compiler::{code_list, code_of, code_times, compile_outcome};
use crate::engine::evaluator::{
    EvalError, RunState, accepts_from, eval_outcome, faults_from, is_run, max_slot_index, run_step,
    search_any, start_state, successors,
};
use crate::engine::instruction::InstrModel;
use crate::engine::laws::{law_eval_compiled_exact, lemma_code_targets, lemma_compiled_never_faults, target_ok, targets_in};
use crate::text::occurs_in;

verus! {

/// `code` stands in `prog` from address `base` on.
pub open spec fn placed(prog: Seq<InstrModel>, code: Seq<InstrModel>, base: int) -> bool {
    &&& 0 <= base
    &&& base + code.len() <= prog.len()
    &&& prog.subrange(base, base + code.len()) == code
}

/// No instruction of `prog` in `lo..hi` is `Match`, and each jumps only
/// inside `lo..=hi`.
pub open spec fn region_ok(prog: Seq<InstrModel>, lo: int, hi: int) -> bool {
    &&& 0 <= lo <= hi <= prog.len()
    &&& forall|pc: int| lo <= pc < hi ==> #[trigger] target_ok(prog[pc], lo, hi)
}

/// A run that starts at address `lo`, stays in `lo..hi`, and ends at `hi`.
pub open spec fn crosses(prog: Seq<InstrModel>, chars: Seq<char>, path: Seq<RunState>, lo: int, hi: int) -> bool {
    &&& is_run(prog, chars, path)
    &&& path[0].pc == lo
    &&& path[path.len() - 1].pc == hi
    &&& forall|k: int| 0 <= k < path.len() - 1 ==> lo <= #[trigger] path[k].pc < hi
}

/// `m` occurs in `chars` inside positions `i..j`.
pub open spec fn occurs_between(m: Seq<char>, chars: Seq<char>, i: int, j: int) -> bool {
    exists|p: int|
        0 <= i <= p && p + m.len() <= j && p + m.len() <= chars.len() && #[trigger] chars.subrange(
            p,
            p + m.len(),
        ) == m
}

proof fn lemma_occurs_widen(m: Seq<char>, chars: Seq<char>, i: int, j: int, i2: int, j2: int)
    requires
        occurs_between(m, chars, i, j),
        0 <= i2 <= i,
        j <= j2,
    ensures
        occurs_between(m, chars, i2, j2),
{
    let p = choose|p: int|
        0 <= i <= p && p + m.len() <= j && p + m.len() <= chars.len() && #[trigger] chars.subrange(
            p,
            p + m.len(),
        ) == m;
    assert(chars.subrange(p, p + m.len()) == m);
}

pub proof fn lemma_placed_split(prog: Seq<InstrModel>, a: Seq<InstrModel>, b: Seq<InstrModel>, base: int)
    requires
        placed(prog, a + b, base),
    ensures
        placed(prog, a, base),
        placed(prog, b, base + a.len()),
{
    let whole = prog.subrange(base, base + a.len() + b.len());
    assert(whole == a + b);
    assert(prog.subrange(base, base + a.len()) =~= a) by {
        assert forall|i: int| 0 <= i < a.len() implies prog.subrange(base, base + a.len())[i] == a[i] by {
            assert(whole[i] == (a + b)[i]);
        }
    }
    assert(prog.subrange(base + a.len(), base + a.len() + b.len()) =~= b) by {
        assert forall|i: int| 0 <= i < b.len() implies prog.subrange(
            base + a.len(),
            base + a.len() + b.len(),
        )[i] == b[i] by {
            assert(whole[a.len() + i] == (a + b)[a.len() + i]);
        }
    }
}

pub proof fn lemma_placed_at(prog: Seq<InstrModel>, code: Seq<InstrModel>, base: int, i: int)
    requires
        placed(prog, code, base),
        0 <= i < code.len(),
    ensures
        prog[base + i] == code[i],
{
    assert(prog.subrange(base, base + code.len())[i] == code[i]);
}

pub proof fn lemma_placed_region(prog: Seq<InstrModel>, code: Seq<InstrModel>, base: int)
    requires
        placed(prog, code, base),
        targets_in(code, base, base + code.len()),
    ensures
        region_ok(prog, base, base + code.len()),
{
    assert forall|pc: int| base <= pc < base + code.len() implies #[trigger] target_ok(
        prog[pc],
        base,
        base + code.len(),
    ) by {
        lemma_placed_at(prog, code, base, pc - base);
        assert(target_ok(code[pc - base], base, base + code.len()));
    }
}

/// What a step of a run does to the address and the position.
pub proof fn lemma_successor(prog: Seq<InstrModel>, chars: Seq<char>, s: RunState, t: RunState)
    requires
        prog.len() <= usize::MAX,
        chars.len() <= usize::MAX,
        successors(prog, chars, s).contains(t),
    ensures
        s.pc < prog.len(),
        s.char_index <= t.char_index,
        match prog[s.pc as int] {
            InstrModel::Split(x, y) => t.pc == x || t.pc == y,
            InstrModel::Jump(x) => t.pc == x,
            InstrModel::Match => false,
            InstrModel::Class(c) => t.pc == s.pc + 1 && s.char_index < chars.len() && class_accepts(
                c,
                chars[s.char_index as int],
            ) && t.char_index == s.char_index + 1,
            _ => t.pc == s.pc + 1,
        },
{
    let succ = successors(prog, chars, s);
    let i = choose|i: int| 0 <= i < succ.len() && succ[i] == t;
    assert(succ[i] == t);
}

/// Positions never decrease along a run.
pub proof fn lemma_index_grows(prog: Seq<InstrModel>, chars: Seq<char>, path: Seq<RunState>, a: int, b: int)
    requires
        prog.len() <= usize::MAX,
        chars.len() <= usize::MAX,
        is_run(prog, chars, path),
        0 <= a <= b < path.len(),
    ensures
        path[a].char_index <= path[b].char_index,
    decreases b - a,
{
    if a < b {
        lemma_index_grows(prog, chars, path, a, b - 1);
        assert(run_step(prog, chars, path, b - 1));
        lemma_successor(prog, chars, path[b - 1], path[b]);
    }
}

proof fn lemma_enter_from(
    prog: Seq<InstrModel>,
    chars: Seq<char>,
    path: Seq<RunState>,
    k: int,
    j: int,
    lo: int,
    hi: int,
) -> (f: int)
    requires
        prog.len() <= usize::MAX,
        chars.len() <= usize::MAX,
        is_run(prog, chars, path),
        region_ok(prog, lo, hi),
        0 <= k <= j < path.len(),
        !(lo <= path[path.len() - 1].pc < hi),
        forall|i: int| k <= i < j ==> lo <= #[trigger] path[i].pc < hi,
        lo <= path[j].pc <= hi,
    ensures
        j <= f < path.len(),
        path[f].pc == hi,
        forall|i: int| k <= i < f ==> lo <= #[trigger] path[i].pc < hi,
    decreases path.len() - j,
{
    if path[j].pc == hi {
        j
    } else {
        assert(j < path.len() - 1);
        assert(run_step(prog, chars, path, j));
        lemma_successor(prog, chars, path[j], path[j + 1]);
        assert(target_ok(prog[path[j].pc as int], lo, hi));
        lemma_enter_from(prog, chars, path, k, j + 1, lo, hi)
    }
}

/// A run that reaches the start of a region whose jumps stay inside it, and
/// ends outside it, crosses the region.
pub proof fn lemma_enter(prog: Seq<InstrModel>, chars: Seq<char>, path: Seq<RunState>, k: int, lo: int, hi: int) -> (f: int)
    requires
        prog.len() <= usize::MAX,
        chars.len() <= usize::MAX,
        is_run(prog, chars, path),
        region_ok(prog, lo, hi),
        0 <= k < path.len(),
        path[k].pc == lo,
        !(lo <= path[path.len() - 1].pc < hi),
    ensures
        k <= f < path.len(),
        crosses(prog, chars, path.subrange(k, f + 1), lo, hi),
{
    let f = lemma_enter_from(prog, chars, path, k, k, lo, hi);
    let sub = path.subrange(k, f + 1);
    assert forall|i: int| 0 <= i < sub.len() - 1 implies #[trigger] run_step(prog, chars, sub, i) by {
        assert(run_step(prog, chars, path, k + i));
        assert(sub[i] == path[k + i]);
        assert(sub[i + 1] == path[k + i + 1]);
    }
    assert forall|i: int| 0 <= i < sub.len() - 1 implies lo <= #[trigger] sub[i].pc < hi by {
        assert(sub[i] == path[k + i]);
    }
    f
}

/// A member of a cut set is a member of the set.
pub proof fn lemma_prune_member(s: Seq<Seq<char>>, x: Seq<char>)
    requires
        prune(s).contains(x),
    ensures
        s.contains(x),
{
    let p = prune(s);
    let i = choose|i: int| 0 <= i < p.len() && p[i] == x;
    assert(s[i] == p[i]);
}

/// A member of `ins(s, y)` is `y` or a member of `s`.
pub proof fn lemma_ins_member(s: Seq<Seq<char>>, y: Seq<char>, x: Seq<char>)
    requires
        ins(s, y).contains(x),
    ensures
        s.contains(x) || x == y,
    decreases s.len(),
{
    let r = ins(s, y);
    let i = choose|i: int| 0 <= i < r.len() && r[i] == x;
    if s.len() == 0 {
    } else if s[0] == y {
    } else if crate::engine::analysis::literal_lt(y, s[0]) {
        if i > 0 {
            assert(r[i] == s[i - 1]);
        }
    } else {
        let rest = ins(s.drop_first(), y);
        assert(r == seq![s[0]] + rest);
        if i == 0 {
            assert(s[0] == x);
        } else {
            assert(r[i] == rest[i - 1]);
            lemma_ins_member(s.drop_first(), y, x);
            if s.drop_first().contains(x) {
                let j = choose|j: int| 0 <= j < s.drop_first().len() && s.drop_first()[j] == x;
                assert(s[j + 1] == x);
            }
        }
    }
}

/// A member of `ins_all(a, b)` is a member of `a` or of `b`.
pub proof fn lemma_ins_all_member(a: Seq<Seq<char>>, b: Seq<Seq<char>>, x: Seq<char>)
    requires
        ins_all(a, b).contains(x),
    ensures
        a.contains(x) || b.contains(x),
    decreases b.len(),
{
    if b.len() > 0 {
        lemma_ins_member(ins_all(a, b.drop_last()), b.last(), x);
        if ins_all(a, b.drop_last()).contains(x) {
            lemma_ins_all_member(a, b.drop_last(), x);
            if b.drop_last().contains(x) {
                let j = choose|j: int| 0 <= j < b.drop_last().len() && b.drop_last()[j] == x;
                assert(b[j] == x);
            }
        } else {
            assert(b[b.len() - 1] == x);
        }
    }
}

/// A member of `keep_common(a, b)` is a member of both.
pub proof fn lemma_keep_common_member(a: Seq<Seq<char>>, b: Seq<Seq<char>>, x: Seq<char>)
    requires
        keep_common(a, b).contains(x),
    ensures
        a.contains(x) && b.contains(x),
    decreases a.len(),
{
    if a.len() > 0 {
        let rest = keep_common(a.drop_last(), b);
        if b.contains(a.last()) {
            let r = rest.push(a.last());
            let i = choose|i: int| 0 <= i < r.len() && r[i] == x;
            if i == rest.len() {
                assert(a[a.len() - 1] == x);
            } else {
                assert(rest[i] == x);
                lemma_keep_common_member(a.drop_last(), b, x);
                let j = choose|j: int| 0 <= j < a.drop_last().len() && a.drop_last()[j] == x;
                assert(a[j] == x);
            }
        } else {
            lemma_keep_common_member(a.drop_last(), b, x);
            let j = choose|j: int| 0 <= j < a.drop_last().len() && a.drop_last()[j] == x;
            assert(a[j] == x);
        }
    }
}

/// The first copy of `k` copies stands first.
proof fn lemma_times_first(prog: Seq<InstrModel>, e: AstModel, base: int, k: nat)
    requires
        k >= 1,
        placed(prog, code_times(e, base, k), base),
    ensures
        placed(prog, code_of(e, base), base),
        code_of(e, base).len() <= code_times(e, base, k).len(),
    decreases k,
{
    let prev = code_times(e, base, (k - 1) as nat);
    lemma_placed_split(prog, prev, code_of(e, base + prev.len()), base);
    if k == 1 {
        assert(prev =~= Seq::<InstrModel>::empty());
    } else {
        lemma_times_first(prog, e, base, (k - 1) as nat);
    }
}

/// Where the literal run of a concatenation ends: the run was read just
/// before position `j`, not before position `i`.
pub open spec fn run_ends(run: Seq<char>, chars: Seq<char>, i: int, j: int) -> bool {
    run.len() == 0 || (i + run.len() <= j && j <= chars.len() && chars.subrange(j - run.len(), j) == run)
}

/// A run that crosses the code of a tree reads every must literal of the
/// tree between its first and its last position.
pub proof fn lemma_must_read(
    prog: Seq<InstrModel>,
    chars: Seq<char>,
    a: AstModel,
    base: int,
    path: Seq<RunState>,
    m: Seq<char>,
)
    requires
        prog.len() <= usize::MAX,
        chars.len() <= usize::MAX,
        placed(prog, code_of(a, base), base),
        crosses(prog, chars, path, base, base + code_of(a, base).len()),
        analysis(a).must.contains(m),
    ensures
        occurs_between(m, chars, path[0].char_index as int, path[path.len() - 1].char_index as int),
    decreases a, 0int, 0int,
{
    let c = code_of(a, base);
    let hi = base + c.len();
    let last = path.len() - 1;
    match a {
        AstModel::Class(cl) => {
            let ch = single_literal(cl)->0;
            assert(m == seq![ch]);
            lemma_placed_at(prog, c, base, 0);
            assert(run_step(prog, chars, path, 0));
            lemma_successor(prog, chars, path[0], path[1]);
            let ci = path[0].char_index as int;
            let x = chars[ci];
            assert(class_accepts(cl, x));
            assert(x == ch);
            lemma_index_grows(prog, chars, path, 1, last);
            assert(chars.subrange(ci, ci + 1) =~= m);
            assert(chars.subrange(ci, ci + m.len()) == m);
        },
        AstModel::Capture(e, i) => {
            let inner = code_of(*e, base + 1);
            assert(c == seq![InstrModel::SaveStart(i)] + inner + seq![InstrModel::SaveEnd(i)]);
            lemma_placed_split(prog, seq![InstrModel::SaveStart(i)] + inner, seq![InstrModel::SaveEnd(i)], base);
            lemma_placed_split(prog, seq![InstrModel::SaveStart(i)], inner, base);
            lemma_placed_at(prog, c, base, 0);
            assert(run_step(prog, chars, path, 0));
            lemma_successor(prog, chars, path[0], path[1]);
            lemma_code_targets(*e, base + 1);
            lemma_placed_region(prog, inner, base + 1);
            let f = lemma_enter(prog, chars, path, 1, base + 1, base + 1 + inner.len());
            let sub = path.subrange(1, f + 1);
            lemma_must_read(prog, chars, *e, base + 1, sub, m);
            lemma_index_grows(prog, chars, path, 0, 1);
            lemma_index_grows(prog, chars, path, f, last);
            lemma_occurs_widen(
                m,
                chars,
                sub[0].char_index as int,
                sub[sub.len() - 1].char_index as int,
                path[0].char_index as int,
                path[last].char_index as int,
            );
        },
        AstModel::OneOrMore(e, g) => {
            let body = code_of(*e, base);
            assert(c =~= body + c.subrange(body.len() as int, c.len() as int));
            lemma_placed_split(prog, body, c.subrange(body.len() as int, c.len() as int), base);
            lemma_code_targets(*e, base);
            lemma_placed_region(prog, body, base);
            let f = lemma_enter(prog, chars, path, 0, base, base + body.len());
            let sub = path.subrange(0, f + 1);
            lemma_must_read(prog, chars, *e, base, sub, m);
            lemma_index_grows(prog, chars, path, f, last);
            lemma_occurs_widen(
                m,
                chars,
                sub[0].char_index as int,
                sub[sub.len() - 1].char_index as int,
                path[0].char_index as int,
                path[last].char_index as int,
            );
        },
        AstModel::Repeat(e, g, min, max) => {
            let fixed = code_times(*e, base, min as nat);
            let rest = c.subrange(fixed.len() as int, c.len() as int);
            assert(c =~= fixed + rest);
            lemma_placed_split(prog, fixed, rest, base);
            lemma_times_first(prog, *e, base, min as nat);
            let body = code_of(*e, base);
            lemma_code_targets(*e, base);
            lemma_placed_region(prog, body, base);
            let f = lemma_enter(prog, chars, path, 0, base, base + body.len());
            let sub = path.subrange(0, f + 1);
            lemma_must_read(prog, chars, *e, base, sub, m);
            lemma_index_grows(prog, chars, path, f, last);
            lemma_occurs_widen(
                m,
                chars,
                sub[0].char_index as int,
                sub[sub.len() - 1].char_index as int,
                path[0].char_index as int,
                path[last].char_index as int,
            );
        },
        AstModel::Concat(items) => {
            lemma_list_read(prog, chars, items, base, path);
            let st = concat_walk(items);
            if st.run.len() > 0 {
                lemma_prune_member(ins(st.must, st.run), m);
                lemma_ins_member(st.must, st.run, m);
                if m == st.run {
                    let j = path[last].char_index as int;
                    assert(chars.subrange(j - m.len(), j - m.len() + m.len()) == m);
                }
            }
        },
        AstModel::Alternate(l, r) => {
            let left = analysis(*l);
            let right = analysis(*r);
            lemma_prune_member(keep_common(left.must, right.must), m);
            lemma_keep_common_member(left.must, right.must, m);
            let lc = code_of(*l, base + 1);
            let re = base + 1 + lc.len() + 1;
            let rc = code_of(*r, re);
            let split = InstrModel::Split((base + 1) as usize, re as usize);
            let jump = InstrModel::Jump((re + rc.len()) as usize);
            assert(c == seq![split] + lc + seq![jump] + rc);
            lemma_placed_split(prog, seq![split] + lc + seq![jump], rc, base);
            lemma_placed_split(prog, seq![split] + lc, seq![jump], base);
            lemma_placed_split(prog, seq![split], lc, base);
            lemma_placed_at(prog, c, base, 0);
            assert(run_step(prog, chars, path, 0));
            lemma_successor(prog, chars, path[0], path[1]);
            lemma_index_grows(prog, chars, path, 0, 1);
            if path[1].pc == base + 1 {
                lemma_code_targets(*l, base + 1);
                lemma_placed_region(prog, lc, base + 1);
                let f = lemma_enter(prog, chars, path, 1, base + 1, base + 1 + lc.len());
                let sub = path.subrange(1, f + 1);
                lemma_must_read(prog, chars, *l, base + 1, sub, m);
                lemma_index_grows(prog, chars, path, f, last);
                lemma_occurs_widen(
                    m,
                    chars,
                    sub[0].char_index as int,
                    sub[sub.len() - 1].char_index as int,
                    path[0].char_index as int,
                    path[last].char_index as int,
                );
            } else {
                lemma_code_targets(*r, re);
                lemma_placed_region(prog, rc, re);
                let f = lemma_enter(prog, chars, path, 1, re, re + rc.len());
                let sub = path.subrange(1, f + 1);
                lemma_must_read(prog, chars, *r, re, sub, m);
                lemma_index_grows(prog, chars, path, f, last);
                lemma_occurs_widen(
                    m,
                    chars,
                    sub[0].char_index as int,
                    sub[sub.len() - 1].char_index as int,
                    path[0].char_index as int,
                    path[last].char_index as int,
                );
            }
        },
        _ => {},
    }
}

/// A run that crosses the code of a list of trees reads every must literal
/// of the walk over the list, and ends just after its literal run.
pub proof fn lemma_list_read(
    prog: Seq<InstrModel>,
    chars: Seq<char>,
    items: Seq<AstModel>,
    base: int,
    path: Seq<RunState>,
)
    requires
        prog.len() <= usize::MAX,
        chars.len() <= usize::MAX,
        placed(prog, code_list(items, base), base),
        crosses(prog, chars, path, base, base + code_list(items, base).len()),
    ensures
        forall|m: Seq<char>|
            #[trigger] concat_walk(items).must.contains(m) ==> occurs_between(
                m,
                chars,
                path[0].char_index as int,
                path[path.len() - 1].char_index as int,
            ),
        run_ends(
            concat_walk(items).run,
            chars,
            path[0].char_index as int,
            path[path.len() - 1].char_index as int,
        ),
    decreases items, 0int, 0int,
{
    if items.len() > 0 {
        let init = items.subrange(0, items.len() - 1);
        let item = items[items.len() - 1];
        let prev = code_list(init, base);
        let mid = base + prev.len();
        let lastc = code_of(item, mid);
        let hi = mid + lastc.len();
        let last = path.len() - 1;
        lemma_placed_split(prog, prev, lastc, base);
        assert(code_of(AstModel::Concat(init), base) == prev);
        lemma_code_targets(AstModel::Concat(init), base);
        lemma_placed_region(prog, prev, base);
        let f = lemma_enter(prog, chars, path, 0, base, mid);
        let sub1 = path.subrange(0, f + 1);
        lemma_list_read(prog, chars, init, base, sub1);
        lemma_code_targets(item, mid);
        lemma_placed_region(prog, lastc, mid);
        let f2 = lemma_enter(prog, chars, path, f, mid, hi);
        assert(f2 == last);
        let sub2 = path.subrange(f, f2 + 1);
        let i0 = path[0].char_index as int;
        let i1 = path[f].char_index as int;
        let i2 = path[last].char_index as int;
        lemma_index_grows(prog, chars, path, 0, f);
        lemma_index_grows(prog, chars, path, f, last);
        let st = concat_walk(init);
        let child = analysis(item);
        assert forall|m: Seq<char>| #[trigger] st.must.contains(m) implies occurs_between(m, chars, i0, i2) by {
            lemma_occurs_widen(m, chars, i0, i1, i0, i2);
        }
        match tree_literal(item) {
            Some(ch) => {
                let cl = item->Class_0;
                lemma_placed_at(prog, lastc, mid, 0);
                assert(run_step(prog, chars, path, f));
                lemma_successor(prog, chars, path[f], path[f + 1]);
                assert(class_accepts(cl, chars[i1]));
                assert(chars[i1] == ch);
                assert(f + 1 == last);
                let run = st.run.push(ch);
                assert(concat_walk(items).run == run);
                assert(chars.subrange(i2 - run.len(), i2) =~= run) by {
                    if st.run.len() > 0 {
                        assert(chars.subrange(i1 - st.run.len(), i1) == st.run);
                        assert forall|k: int| 0 <= k < run.len() implies chars.subrange(i2 - run.len(), i2)[k]
                            == run[k] by {
                            if k < st.run.len() {
                                assert(chars.subrange(i1 - st.run.len(), i1)[k] == st.run[k]);
                            }
                        }
                    }
                }
            },
            None => {
                let fl = flush(st);
                assert forall|m: Seq<char>| #[trigger] concat_walk(items).must.contains(m) implies occurs_between(
                    m,
                    chars,
                    i0,
                    i2,
                ) by {
                    lemma_prune_member(ins_all(fl.must, child.must), m);
                    lemma_ins_all_member(fl.must, child.must, m);
                    if fl.must.contains(m) {
                        if st.run.len() > 0 {
                            lemma_prune_member(ins(st.must, st.run), m);
                            lemma_ins_member(st.must, st.run, m);
                            if m == st.run {
                                assert(chars.subrange(i1 - m.len(), i1 - m.len() + m.len()) == m);
                                lemma_occurs_widen(m, chars, i0, i1, i0, i2);
                            }
                        }
                    } else {
                        lemma_must_read(prog, chars, item, mid, sub2, m);
                        lemma_occurs_widen(m, chars, i1, i2, i0, i2);
                    }
                }
            },
        }
    }
}

/// Every must literal of a tree lies inside each match of its compiled program: on a
/// run of the program that starts at its first instruction at position `i` and stops at
/// `Match` at position `j`, the literal occurs in the text between `i` and `j`.
pub proof fn law_must_literals_inside_match(a: AstModel, chars: Seq<char>, path: Seq<RunState>, m: Seq<char>)
    requires
        compile_outcome(a) is Ok,
        chars.len() <= usize::MAX,
        is_run(compile_outcome(a)->Ok_0, chars, path),
        path[0].pc == 0,
        crate::engine::evaluator::at_match(compile_outcome(a)->Ok_0, path[path.len() - 1]),
        prune(analysis(a).must).contains(m),
    ensures
        occurs_between(m, chars, path[0].char_index as int, path[path.len() - 1].char_index as int),
{
    let prog = compile_outcome(a)->Ok_0;
    let c = code_of(a, 0);
    let s = path[path.len() - 1];
    assert(prog == c.push(InstrModel::Match));
    assert(prog.subrange(0, c.len() as int) =~= c);
    lemma_code_targets(a, 0);
    lemma_placed_region(prog, c, 0);
    if s.pc < c.len() {
        assert(prog[s.pc as int] == c[s.pc as int]);
        assert(target_ok(c[s.pc as int], 0, c.len() as int));
    }
    let f = lemma_enter(prog, chars, path, 0, 0, c.len() as int);
    let sub = path.subrange(0, f + 1);
    lemma_prune_member(analysis(a).must, m);
    lemma_must_read(prog, chars, a, 0, sub, m);
    lemma_index_grows(prog, chars, path, f, path.len() - 1);
    lemma_occurs_widen(
        m,
        chars,
        path[0].char_index as int,
        path[f].char_index as int,
        path[0].char_index as int,
        s.char_index as int,
    );
}

/// Every must literal of a tree occurs in any text on which the compiled
/// program of the tree reaches `Match` from its first instruction.
pub proof fn law_must_literals_occur(a: AstModel, chars: Seq<char>, init: RunState, m: Seq<char>)
    requires
        compile_outcome(a) is Ok,
        chars.len() <= usize::MAX,
        init.pc == 0,
        accepts_from(compile_outcome(a)->Ok_0, chars, init),
        prune(analysis(a).must).contains(m),
    ensures
        occurs_in(m, chars),
{
    let prog = compile_outcome(a)->Ok_0;
    let s = choose|s: RunState| crate::engine::evaluator::reachable(prog, chars, init, s)
        && crate::engine::evaluator::at_match(prog, s);
    let path = choose|path: Seq<RunState>|
        #[trigger] is_run(prog, chars, path) && path[0] == init && path[path.len() - 1] == s;
    law_must_literals_inside_match(a, chars, path, m);
    let p = choose|p: int|
        0 <= path[0].char_index <= p && p + m.len() <= path[path.len() - 1].char_index && p + m.len()
            <= chars.len() && #[trigger] chars.subrange(p, p + m.len()) == m;
    assert(chars.subrange(p, p + m.len()) == m);
}

/// On a text that lacks one of the must literals of a tree, evaluating the
/// compiled program of the tree reports no match: the answer a line filter
/// on the must literals gives without running it.
pub proof fn law_filter_agrees(a: AstModel, chars: Seq<char>, i: int, r: Result<bool, EvalError>)
    requires
        compile_outcome(a) is Ok,
        max_slot_index(compile_outcome(a)->Ok_0) < usize::MAX,
        chars.len() <= usize::MAX,
        0 <= i < prune(analysis(a).must).len(),
        !occurs_in(prune(analysis(a).must)[i], chars),
        eval_outcome(compile_outcome(a)->Ok_0, chars, r),
    ensures
        r == Ok::<bool, EvalError>(false),
{
    let prog = compile_outcome(a)->Ok_0;
    let k = max_slot_index(prog) + 1;
    law_eval_compiled_exact(a, chars, r);
    let m = prune(analysis(a).must)[i];
    assert(prune(analysis(a).must).contains(m));
    if exists|st: nat| st <= chars.len() && #[trigger] accepts_from(prog, chars, start_state(st, k)) {
        let st = choose|st: nat| st <= chars.len() && #[trigger] accepts_from(prog, chars, start_state(st, k));
        law_must_literals_occur(a, chars, start_state(st, k), m);
    }
}

/// On a text that lacks one of the must literals of a tree, no start position
/// reaches `Match` and none reaches a missing address, so `false` is the
/// answer evaluation owes.
pub proof fn lemma_filtered_answer(a: AstModel, chars: Seq<char>, i: int)
    requires
        compile_outcome(a) is Ok,
        max_slot_index(compile_outcome(a)->Ok_0) < usize::MAX,
        chars.len() <= usize::MAX,
        0 <= i < prune(analysis(a).must).len(),
        !occurs_in(prune(analysis(a).must)[i], chars),
    ensures
        eval_outcome(compile_outcome(a)->Ok_0, chars, Ok::<bool, EvalError>(false)),
{
    let prog = compile_outcome(a)->Ok_0;
    let m = prune(analysis(a).must)[i];
    assert(prune(analysis(a).must).contains(m));
    let k: nat = (max_slot_index(prog) + 1) as nat;
    assert forall|st: nat| st <= chars.len() implies !#[trigger] accepts_from(prog, chars, start_state(st, k))
        && !faults_from(prog, chars, start_state(st, k)) by {
        if accepts_from(prog, chars, start_state(st, k)) {
            law_must_literals_occur(a, chars, start_state(st, k), m);
        }
        lemma_compiled_never_faults(a, chars, start_state(st, k));
    }
    assert(search_any(prog, chars, k, Ok::<bool, EvalError>(false)));
}

} // verus!
