//! What the compiled code of a tree accepts, against the text the tree
//! describes.
//!
//! `spans(a, chars, i, j)` says that the tree `a` describes the characters of
//! `chars` from position `i` to position `j`: a class one character it
//! accepts, an assertion the empty text where it holds, a concatenation the
//! texts of its items one after another, an alternation the text of either
//! side, and a repetition `k` texts of its body one after another, for each
//! count `k` the repetition allows. A backreference describes no text here,
//! since what it reads depends on the captures of the run.
//!
//! The laws below show that the code of every tree reads every text the tree
//! describes: a run enters the code at its first instruction at position `i`
//! and leaves it at its end at position `j`; and that, for a tree without
//! backreferences, every run across the code reads such a text, so the
//! compiled program accepts exactly the texts the tree describes. A law on
//! `backref_len` says what a backreference reads: a copy of its group's text.
use vstd::prelude::*;
use crate::engine::ast::{AstModel, class_accepts};
use crate::engine::compiler::{code_list, code_of, code_opt, code_opts, code_star, code_times, compile_outcome, split_for};
use crate::engine::evaluator::{
    RunState, accepts_from, advance, assertion_holds, at_match, backref_len, is_run, lemma_reach_self,
    lemma_reach_step, max_slot_index, reachable, run_step, slot_index, start_state, successors,
};
use crate::engine::instruction::InstrModel;
use crate::engine::laws::{
    lemma_code_targets, lemma_list_targets, lemma_opt_targets, lemma_opts_targets, lemma_star_targets,
    lemma_times_targets,
};
use crate::engine::prefilter::{crosses, lemma_enter, lemma_placed_at, lemma_placed_region, lemma_placed_split, placed};

verus! {

/// A derivation: the positions where the parts of a node's text begin and
/// end, and the derivations of those parts.
pub struct Deriv {
    pub points: Seq<int>,
    pub parts: Seq<Deriv>,
}

/// `d` shows that the tree `a` describes `chars` from `i` to `j`.
pub open spec fn derives(a: AstModel, d: Deriv, chars: Seq<char>, i: int, j: int) -> bool
    decreases a, 0int, 0int,
{
    let kids = d.parts;
    let pts = d.points;
    match a {
        AstModel::Empty => i == j,
        AstModel::Class(c) => 0 <= i < chars.len() && j == i + 1 && class_accepts(c, chars[i]),
        AstModel::Assertion(p) => 0 <= i && i == j && assertion_holds(p, chars, i),
        AstModel::Capture(e, _) => kids.len() >= 1 && derives(*e, kids[0], chars, i, j),
        AstModel::ZeroOrMore(e, _) => (chain(*e, kids, pts, chars) && pts[0] == i && pts[kids.len() as int] == j),
        AstModel::OneOrMore(e, _) => kids.len() >= 1 && (chain(*e, kids, pts, chars) && pts[0] == i && pts[kids.len() as int] == j),
        AstModel::ZeroOrOne(e, _) => (kids.len() == 0 && i == j) || (kids.len() >= 1 && derives(
            *e,
            kids[0],
            chars,
            i,
            j,
        )),
        AstModel::Repeat(e, _, min, max) => min <= kids.len() && (max matches Some(m) ==> kids.len() <= m
            || kids.len() == min) && (chain(*e, kids, pts, chars) && pts[0] == i && pts[kids.len() as int] == j),
        AstModel::Concat(items) => list_chain(items, kids, pts, chars) && pts[0] == i && pts[items.len() as int]
            == j,
        AstModel::Alternate(l, r) => kids.len() >= 1 && (derives(*l, kids[0], chars, i, j) || derives(
            *r,
            kids[0],
            chars,
            i,
            j,
        )),
        AstModel::Backreference(_) => false,
    }
}

/// Each part `kids[t]` derives a text of `e` from `pts[t]` to `pts[t + 1]`.
pub open spec fn chain(e: AstModel, kids: Seq<Deriv>, pts: Seq<int>, chars: Seq<char>) -> bool
    decreases e, 1int, kids.len(),
{
    pts.len() == kids.len() + 1 && (kids.len() == 0 || (derives(e, kids[0], chars, pts[0], pts[1]) && chain(
        e,
        kids.drop_first(),
        pts.drop_first(),
        chars,
    )))
}

/// Each part `kids[t]` derives a text of `items[t]` from `pts[t]` to
/// `pts[t + 1]`.
pub open spec fn list_chain(items: Seq<AstModel>, kids: Seq<Deriv>, pts: Seq<int>, chars: Seq<char>) -> bool
    decreases items, 0int, 0int,
{
    let n = items.len();
    pts.len() == n + 1 && kids.len() == n && (n == 0 || (list_chain(
        items.subrange(0, n - 1),
        kids.subrange(0, n - 1),
        pts.subrange(0, n as int),
        chars,
    ) && derives(items[n - 1], kids[n - 1], chars, pts[n - 1], pts[n as int])))
}

/// The tree `a` describes `chars` from position `i` to position `j`.
pub open spec fn spans(a: AstModel, chars: Seq<char>, i: int, j: int) -> bool {
    exists|d: Deriv| #[trigger] derives(a, d, chars, i, j)
}

/// A chain splits into its first `n` parts and the rest.
pub proof fn lemma_chain_split(e: AstModel, kids: Seq<Deriv>, pts: Seq<int>, chars: Seq<char>, n: int)
    requires
        chain(e, kids, pts, chars),
        0 <= n <= kids.len(),
    ensures
        pts.len() == kids.len() + 1,
        chain(e, kids.subrange(0, n), pts.subrange(0, n + 1), chars),
        chain(e, kids.subrange(n, kids.len() as int), pts.subrange(n, pts.len() as int), chars),
    decreases n,
{
    if n == 0 {
        assert(kids.subrange(0, kids.len() as int) =~= kids);
        assert(pts.subrange(0, pts.len() as int) =~= pts);
    } else {
        let kd = kids.drop_first();
        let pd = pts.drop_first();
        lemma_chain_split(e, kd, pd, chars, n - 1);
        assert(kids.subrange(0, n).drop_first() =~= kd.subrange(0, n - 1));
        assert(pts.subrange(0, n + 1).drop_first() =~= pd.subrange(0, n));
        assert(kids.subrange(n, kids.len() as int) =~= kd.subrange(n - 1, kd.len() as int));
        assert(pts.subrange(n, pts.len() as int) =~= pd.subrange(n - 1, pd.len() as int));
    }
}

/// The state `s` has a capture slot for every index the program names.
pub open spec fn slots_fit(prog: Seq<InstrModel>, s: RunState) -> bool {
    max_slot_index(prog) < s.starts.len() && max_slot_index(prog) < s.ends.len()
}

proof fn lemma_slot_below(prog: Seq<InstrModel>, p: int)
    requires
        0 <= p < prog.len(),
    ensures
        slot_index(prog[p]) <= max_slot_index(prog),
    decreases prog.len(),
{
    if p < prog.len() - 1 {
        lemma_slot_below(prog.drop_last(), p);
        assert(prog.drop_last()[p] == prog[p]);
    }
}

proof fn lemma_step(prog: Seq<InstrModel>, chars: Seq<char>, s: RunState, t: RunState)
    requires
        successors(prog, chars, s).contains(t),
    ensures
        reachable(prog, chars, s, t),
{
    lemma_reach_self(prog, chars, s);
    lemma_reach_step(prog, chars, s, s, t);
}

/// Reaching is transitive.
pub proof fn lemma_reach_trans(prog: Seq<InstrModel>, chars: Seq<char>, s: RunState, t: RunState, u: RunState)
    requires
        reachable(prog, chars, s, t),
        reachable(prog, chars, t, u),
    ensures
        reachable(prog, chars, s, u),
{
    let p1 = choose|p: Seq<RunState>| #[trigger] is_run(prog, chars, p) && p[0] == s && p[p.len() - 1] == t;
    let p2 = choose|p: Seq<RunState>| #[trigger] is_run(prog, chars, p) && p[0] == t && p[p.len() - 1] == u;
    let p = p1 + p2.drop_first();
    assert forall|k: int| 0 <= k < p.len() - 1 implies #[trigger] run_step(prog, chars, p, k) by {
        if k < p1.len() - 1 {
            assert(run_step(prog, chars, p1, k));
            assert(p[k] == p1[k] && p[k + 1] == p1[k + 1]);
        } else {
            let q = k - (p1.len() - 1);
            assert(run_step(prog, chars, p2, q));
            assert(p[k] == p2[q] && p[k + 1] == p2[q + 1]);
        }
    }
    assert(is_run(prog, chars, p));
    assert(p[0] == s);
    assert(p[p.len() - 1] == u);
}

/// A jump-like move to `pc`: the state `s` with another address.
pub open spec fn moved(s: RunState, pc: int) -> RunState {
    RunState { pc: pc as usize, ..s }
}

proof fn lemma_split_to(prog: Seq<InstrModel>, chars: Seq<char>, s: RunState, g: bool, x: int, y: int, to: int)
    requires
        s.pc < prog.len(),
        prog[s.pc as int] == split_for(g, x, y),
        to == x || to == y,
        0 <= x <= usize::MAX,
        0 <= y <= usize::MAX,
    ensures
        reachable(prog, chars, s, moved(s, to)),
{
    let succ = successors(prog, chars, s);
    if g {
        assert(succ[0] == moved(s, x) && succ[1] == moved(s, y));
    } else {
        assert(succ[0] == moved(s, y) && succ[1] == moved(s, x));
    }
    if to == x {
        if g {
            assert(succ.contains(succ[0]));
        } else {
            assert(succ.contains(succ[1]));
        }
    } else {
        if g {
            assert(succ.contains(succ[1]));
        } else {
            assert(succ.contains(succ[0]));
        }
    }
    lemma_step(prog, chars, s, moved(s, to));
}

proof fn lemma_jump_to(prog: Seq<InstrModel>, chars: Seq<char>, s: RunState, to: int)
    requires
        s.pc < prog.len(),
        0 <= to <= usize::MAX,
        prog[s.pc as int] == InstrModel::Jump(to as usize),
    ensures
        reachable(prog, chars, s, moved(s, to)),
{
    let succ = successors(prog, chars, s);
    assert(succ[0] == moved(s, to));
    assert(succ.contains(succ[0]));
    lemma_step(prog, chars, s, moved(s, to));
}

/// The code of `a` placed at `base` reads every text a derivation `d` of
/// `a` shows: from its first instruction at position `i`, a run reaches its
/// end at position `j`, keeping a slot for every capture index.
pub proof fn lemma_code_reads(
    prog: Seq<InstrModel>,
    chars: Seq<char>,
    a: AstModel,
    d: Deriv,
    base: int,
    s: RunState,
    j: int,
) -> (t: RunState)
    requires
        prog.len() <= usize::MAX,
        chars.len() <= usize::MAX,
        placed(prog, code_of(a, base), base),
        s.pc == base,
        derives(a, d, chars, s.char_index as int, j),
        slots_fit(prog, s),
    ensures
        reachable(prog, chars, s, t),
        t.pc == base + code_of(a, base).len(),
        t.char_index == j,
        slots_fit(prog, t),
    decreases a, 0int, 0int,
{
    let c = code_of(a, base);
    let kids = d.parts;
    let pts = d.points;
    match a {
        AstModel::Empty => {
            lemma_reach_self(prog, chars, s);
            s
        },
        AstModel::Class(cl) => {
            lemma_placed_at(prog, c, base, 0);
            let t = RunState { char_index: (s.char_index + 1) as usize, ..advance(s) };
            assert(successors(prog, chars, s)[0] == t);
            assert(successors(prog, chars, s).contains(t));
            lemma_step(prog, chars, s, t);
            t
        },
        AstModel::Assertion(p) => {
            lemma_placed_at(prog, c, base, 0);
            let t = advance(s);
            assert(successors(prog, chars, s)[0] == t);
            assert(successors(prog, chars, s).contains(t));
            lemma_step(prog, chars, s, t);
            t
        },
        AstModel::Capture(e, idx) => {
            let ce = code_of(*e, base + 1);
            let head = seq![InstrModel::SaveStart(idx)];
            let tail = seq![InstrModel::SaveEnd(idx)];
            assert(c == head + ce + tail);
            lemma_placed_split(prog, head + ce, tail, base);
            lemma_placed_split(prog, head, ce, base);
            lemma_placed_at(prog, head, base, 0);
            lemma_placed_at(prog, tail, base + 1 + ce.len(), 0);
            lemma_slot_below(prog, base);
            let s1 = RunState { starts: s.starts.update(idx as int, Some(s.char_index)), ..advance(s) };
            assert(successors(prog, chars, s)[0] == s1);
            assert(successors(prog, chars, s).contains(s1));
            lemma_step(prog, chars, s, s1);
            let t1 = lemma_code_reads(prog, chars, *e, kids[0], base + 1, s1, j);
            lemma_slot_below(prog, base + 1 + ce.len());
            let t = RunState { ends: t1.ends.update(idx as int, Some(t1.char_index)), ..advance(t1) };
            assert(successors(prog, chars, t1)[0] == t);
            assert(successors(prog, chars, t1).contains(t));
            lemma_step(prog, chars, t1, t);
            lemma_reach_trans(prog, chars, s, s1, t1);
            lemma_reach_trans(prog, chars, s, t1, t);
            t
        },
        AstModel::ZeroOrMore(e, g) => lemma_star_reads(prog, chars, *e, g, kids, pts, base, s),
        AstModel::OneOrMore(e, g) => lemma_plus_reads(prog, chars, *e, g, kids, pts, base, s),
        AstModel::ZeroOrOne(e, g) => {
            if kids.len() == 0 {
                lemma_opt_reads(prog, chars, *e, g, seq![], base, s, j)
            } else {
                lemma_opt_reads(prog, chars, *e, g, seq![kids[0]], base, s, j)
            }
        },
        AstModel::Repeat(e, g, min, max) => {
            let n = kids.len() as int;
            let fixed = code_times(*e, base, min as nat);
            let b2 = base + fixed.len();
            let rest = match max {
                Some(m) => if m <= min {
                    Seq::empty()
                } else {
                    code_opts(*e, g, b2, (m - min) as nat)
                },
                None => code_star(*e, g, b2),
            };
            assert(c == fixed + rest);
            lemma_placed_split(prog, fixed, rest, base);
            lemma_chain_split(*e, kids, pts, chars, min as int);
            let k1 = kids.subrange(0, min as int);
            let p1 = pts.subrange(0, min + 1);
            let k2 = kids.subrange(min as int, n);
            let p2 = pts.subrange(min as int, pts.len() as int);
            assert(p1[0] == pts[0] && p1[min as int] == pts[min as int]);
            assert(p2[0] == pts[min as int] && p2[k2.len() as int] == pts[n]);
            let t1 = lemma_times_reads(prog, chars, *e, k1, p1, base, min as nat, s);
            match max {
                Some(mx) => {
                    if mx <= min {
                        assert(n == min);
                        t1
                    } else {
                        let t = lemma_opts_reads(prog, chars, *e, g, k2, p2, b2, (mx - min) as nat, t1);
                        lemma_reach_trans(prog, chars, s, t1, t);
                        t
                    }
                },
                None => {
                    let t = lemma_star_reads(prog, chars, *e, g, k2, p2, b2, t1);
                    lemma_reach_trans(prog, chars, s, t1, t);
                    t
                },
            }
        },
        AstModel::Concat(items) => lemma_list_reads(prog, chars, items, kids, pts, base, s),
        AstModel::Alternate(l, r) => {
            let lc = code_of(*l, base + 1);
            let re = base + 1 + lc.len() + 1;
            let rc = code_of(*r, re);
            let head = seq![InstrModel::Split((base + 1) as usize, re as usize)];
            let jump = seq![InstrModel::Jump((re + rc.len()) as usize)];
            assert(c == head + lc + jump + rc);
            lemma_placed_split(prog, head + lc + jump, rc, base);
            lemma_placed_split(prog, head + lc, jump, base);
            lemma_placed_split(prog, head, lc, base);
            lemma_placed_at(prog, head, base, 0);
            lemma_placed_at(prog, jump, base + 1 + lc.len(), 0);
            assert(prog[base] == split_for(true, base + 1, re));
            if derives(*l, kids[0], chars, s.char_index as int, j) {
                lemma_split_to(prog, chars, s, true, base + 1, re, base + 1);
                let t1 = lemma_code_reads(prog, chars, *l, kids[0], base + 1, moved(s, base + 1), j);
                lemma_jump_to(prog, chars, t1, re + rc.len());
                let t = moved(t1, re + rc.len());
                lemma_reach_trans(prog, chars, s, moved(s, base + 1), t1);
                lemma_reach_trans(prog, chars, s, t1, t);
                t
            } else {
                lemma_split_to(prog, chars, s, true, base + 1, re, re);
                let t = lemma_code_reads(prog, chars, *r, kids[0], re, moved(s, re), j);
                lemma_reach_trans(prog, chars, s, moved(s, re), t);
                t
            }
        },
        AstModel::Backreference(_) => {
            lemma_reach_self(prog, chars, s);
            s
        },
    }
}

/// The code of `e*` reads the texts of a chain of `e`, one after another.
proof fn lemma_star_reads(
    prog: Seq<InstrModel>,
    chars: Seq<char>,
    e: AstModel,
    g: bool,
    kids: Seq<Deriv>,
    pts: Seq<int>,
    base: int,
    s: RunState,
) -> (t: RunState)
    requires
        prog.len() <= usize::MAX,
        chars.len() <= usize::MAX,
        placed(prog, code_star(e, g, base), base),
        s.pc == base,
        chain(e, kids, pts, chars),
        pts[0] == s.char_index,
        slots_fit(prog, s),
    ensures
        reachable(prog, chars, s, t),
        t.pc == base + code_star(e, g, base).len(),
        t.char_index == pts[kids.len() as int],
        slots_fit(prog, t),
    decreases e, 1int, kids.len(),
{
    let body = code_of(e, base + 1);
    let out = base + 1 + body.len() + 1;
    let head = seq![split_for(g, base + 1, out)];
    let tail = seq![InstrModel::Jump(base as usize)];
    assert(code_star(e, g, base) == head + body + tail);
    lemma_placed_split(prog, head + body, tail, base);
    lemma_placed_split(prog, head, body, base);
    lemma_placed_at(prog, head, base, 0);
    lemma_placed_at(prog, tail, base + 1 + body.len(), 0);
    if kids.len() == 0 {
        lemma_split_to(prog, chars, s, g, base + 1, out, out);
        moved(s, out)
    } else {
        lemma_split_to(prog, chars, s, g, base + 1, out, base + 1);
        let s1 = moved(s, base + 1);
        let t1 = lemma_code_reads(prog, chars, e, kids[0], base + 1, s1, pts[1]);
        lemma_jump_to(prog, chars, t1, base);
        let s2 = moved(t1, base);
        let t = lemma_star_reads(prog, chars, e, g, kids.drop_first(), pts.drop_first(), base, s2);
        lemma_reach_trans(prog, chars, s, s1, t1);
        lemma_reach_trans(prog, chars, s, t1, s2);
        lemma_reach_trans(prog, chars, s, s2, t);
        t
    }
}

/// The code of `e+` reads the texts of a chain of at least one `e`.
proof fn lemma_plus_reads(
    prog: Seq<InstrModel>,
    chars: Seq<char>,
    e: AstModel,
    g: bool,
    kids: Seq<Deriv>,
    pts: Seq<int>,
    base: int,
    s: RunState,
) -> (t: RunState)
    requires
        prog.len() <= usize::MAX,
        chars.len() <= usize::MAX,
        placed(prog, code_of(AstModel::OneOrMore(Box::new(e), g), base), base),
        s.pc == base,
        kids.len() >= 1,
        chain(e, kids, pts, chars),
        pts[0] == s.char_index,
        slots_fit(prog, s),
    ensures
        reachable(prog, chars, s, t),
        t.pc == base + code_of(AstModel::OneOrMore(Box::new(e), g), base).len(),
        t.char_index == pts[kids.len() as int],
        slots_fit(prog, t),
    decreases e, 1int, kids.len(),
{
    let body = code_of(e, base);
    let out = base + body.len() + 1;
    let tail = seq![split_for(g, base, out)];
    assert(code_of(AstModel::OneOrMore(Box::new(e), g), base) == body + tail);
    lemma_placed_split(prog, body, tail, base);
    lemma_placed_at(prog, tail, base + body.len(), 0);
    let t1 = lemma_code_reads(prog, chars, e, kids[0], base, s, pts[1]);
    if kids.len() == 1 {
        lemma_split_to(prog, chars, t1, g, base, out, out);
        let t = moved(t1, out);
        lemma_reach_trans(prog, chars, s, t1, t);
        t
    } else {
        lemma_split_to(prog, chars, t1, g, base, out, base);
        let s2 = moved(t1, base);
        let t = lemma_plus_reads(prog, chars, e, g, kids.drop_first(), pts.drop_first(), base, s2);
        lemma_reach_trans(prog, chars, s, t1, s2);
        lemma_reach_trans(prog, chars, s, s2, t);
        t
    }
}

/// The code of `e?` reads the empty text (no part) or a text of `e` (one part).
proof fn lemma_opt_reads(
    prog: Seq<InstrModel>,
    chars: Seq<char>,
    e: AstModel,
    g: bool,
    kids: Seq<Deriv>,
    base: int,
    s: RunState,
    j: int,
) -> (t: RunState)
    requires
        prog.len() <= usize::MAX,
        chars.len() <= usize::MAX,
        placed(prog, code_opt(e, g, base), base),
        s.pc == base,
        kids.len() <= 1,
        kids.len() == 0 ==> s.char_index == j,
        kids.len() == 1 ==> derives(e, kids[0], chars, s.char_index as int, j),
        slots_fit(prog, s),
    ensures
        reachable(prog, chars, s, t),
        t.pc == base + code_opt(e, g, base).len(),
        t.char_index == j,
        slots_fit(prog, t),
    decreases e, 1int, 0int,
{
    let body = code_of(e, base + 1);
    let out = base + 1 + body.len();
    let head = seq![split_for(g, base + 1, out)];
    assert(code_opt(e, g, base) == head + body);
    lemma_placed_split(prog, head, body, base);
    lemma_placed_at(prog, head, base, 0);
    if kids.len() == 0 {
        lemma_split_to(prog, chars, s, g, base + 1, out, out);
        moved(s, out)
    } else {
        lemma_split_to(prog, chars, s, g, base + 1, out, base + 1);
        let t = lemma_code_reads(prog, chars, e, kids[0], base + 1, moved(s, base + 1), j);
        lemma_reach_trans(prog, chars, s, moved(s, base + 1), t);
        t
    }
}

/// `n` copies of the code of `e` read a chain of `n` texts of `e`.
proof fn lemma_times_reads(
    prog: Seq<InstrModel>,
    chars: Seq<char>,
    e: AstModel,
    kids: Seq<Deriv>,
    pts: Seq<int>,
    base: int,
    n: nat,
    s: RunState,
) -> (t: RunState)
    requires
        prog.len() <= usize::MAX,
        chars.len() <= usize::MAX,
        placed(prog, code_times(e, base, n), base),
        s.pc == base,
        kids.len() == n,
        chain(e, kids, pts, chars),
        pts[0] == s.char_index,
        slots_fit(prog, s),
    ensures
        reachable(prog, chars, s, t),
        t.pc == base + code_times(e, base, n).len(),
        t.char_index == pts[n as int],
        slots_fit(prog, t),
    decreases e, 1int, n,
{
    if n == 0 {
        lemma_reach_self(prog, chars, s);
        s
    } else {
        let prev = code_times(e, base, (n - 1) as nat);
        let last = code_of(e, base + prev.len());
        lemma_placed_split(prog, prev, last, base);
        lemma_chain_split(e, kids, pts, chars, n - 1);
        let k1 = kids.subrange(0, n - 1);
        let p1 = pts.subrange(0, n as int);
        let k2 = kids.subrange(n - 1, n as int);
        let p2 = pts.subrange(n - 1, pts.len() as int);
        let t1 = lemma_times_reads(prog, chars, e, k1, p1, base, (n - 1) as nat, s);
        assert(k2[0] == kids[n - 1] && p2[0] == pts[n - 1] && p2[1] == pts[n as int]);
        let t = lemma_code_reads(prog, chars, e, kids[n - 1], base + prev.len(), t1, pts[n as int]);
        lemma_reach_trans(prog, chars, s, t1, t);
        t
    }
}

/// `n` copies of the code of `e?` read a chain of at most `n` texts of `e`.
proof fn lemma_opts_reads(
    prog: Seq<InstrModel>,
    chars: Seq<char>,
    e: AstModel,
    g: bool,
    kids: Seq<Deriv>,
    pts: Seq<int>,
    base: int,
    n: nat,
    s: RunState,
) -> (t: RunState)
    requires
        prog.len() <= usize::MAX,
        chars.len() <= usize::MAX,
        placed(prog, code_opts(e, g, base, n), base),
        s.pc == base,
        kids.len() <= n,
        chain(e, kids, pts, chars),
        pts[0] == s.char_index,
        slots_fit(prog, s),
    ensures
        reachable(prog, chars, s, t),
        t.pc == base + code_opts(e, g, base, n).len(),
        t.char_index == pts[kids.len() as int],
        slots_fit(prog, t),
    decreases e, 1int, n,
{
    if n == 0 {
        lemma_reach_self(prog, chars, s);
        s
    } else {
        let r = kids.len() as int;
        let prev = code_opts(e, g, base, (n - 1) as nat);
        let last = code_opt(e, g, base + prev.len());
        lemma_placed_split(prog, prev, last, base);
        if r == n {
            lemma_chain_split(e, kids, pts, chars, r - 1);
            let k1 = kids.subrange(0, r - 1);
            let p1 = pts.subrange(0, r);
            let k2 = kids.subrange(r - 1, r);
            let p2 = pts.subrange(r - 1, pts.len() as int);
            let t1 = lemma_opts_reads(prog, chars, e, g, k1, p1, base, (n - 1) as nat, s);
            assert(k2[0] == kids[r - 1] && p2[0] == pts[r - 1] && p2[1] == pts[r]);
            assert(seq![kids[r - 1]][0] == kids[r - 1]);
            let t = lemma_opt_reads(prog, chars, e, g, seq![kids[r - 1]], base + prev.len(), t1, pts[r]);
            lemma_reach_trans(prog, chars, s, t1, t);
            t
        } else {
            let t1 = lemma_opts_reads(prog, chars, e, g, kids, pts, base, (n - 1) as nat, s);
            let t = lemma_opt_reads(prog, chars, e, g, seq![], base + prev.len(), t1, pts[r]);
            lemma_reach_trans(prog, chars, s, t1, t);
            t
        }
    }
}

/// The codes of `items` read the texts of `items`, one after another.
proof fn lemma_list_reads(
    prog: Seq<InstrModel>,
    chars: Seq<char>,
    items: Seq<AstModel>,
    kids: Seq<Deriv>,
    pts: Seq<int>,
    base: int,
    s: RunState,
) -> (t: RunState)
    requires
        prog.len() <= usize::MAX,
        chars.len() <= usize::MAX,
        placed(prog, code_list(items, base), base),
        s.pc == base,
        list_chain(items, kids, pts, chars),
        pts[0] == s.char_index,
        slots_fit(prog, s),
    ensures
        reachable(prog, chars, s, t),
        t.pc == base + code_list(items, base).len(),
        t.char_index == pts[items.len() as int],
        slots_fit(prog, t),
    decreases items, 0int, 0int,
{
    let n = items.len() as int;
    if n == 0 {
        lemma_reach_self(prog, chars, s);
        s
    } else {
        let init = items.subrange(0, n - 1);
        let prev = code_list(init, base);
        let last = code_of(items[n - 1], base + prev.len());
        lemma_placed_split(prog, prev, last, base);
        let p1 = pts.subrange(0, n);
        let t1 = lemma_list_reads(prog, chars, init, kids.subrange(0, n - 1), p1, base, s);
        assert(p1[n - 1] == pts[n - 1]);
        let t = lemma_code_reads(prog, chars, items[n - 1], kids[n - 1], base + prev.len(), t1, pts[n]);
        lemma_reach_trans(prog, chars, s, t1, t);
        t
    }
}

/// The compiled program of a tree finds every text the tree describes: when
/// the tree describes `chars` from `i` to `j`, a run of the program from the
/// start state at `i`, with the slots the evaluator gives it, reaches
/// `Match` at position `j`. So `e+` accepts one or more texts of `e` one
/// after another, `e{m,}` at least `m` of them, `e{m,n}` from `m` to `n`.
pub proof fn law_compiled_code_reads_spans(a: AstModel, chars: Seq<char>, i: nat, j: int)
    requires
        compile_outcome(a) is Ok,
        chars.len() <= usize::MAX,
        i <= chars.len(),
        spans(a, chars, i as int, j),
    ensures
        ({
            let prog = compile_outcome(a)->Ok_0;
            exists|t: RunState|
                reachable(prog, chars, start_state(i, max_slot_index(prog) + 1), t) && at_match(prog, t)
                    && t.char_index == j
        }),
        accepts_from(
            compile_outcome(a)->Ok_0,
            chars,
            start_state(i, max_slot_index(compile_outcome(a)->Ok_0) + 1),
        ),
{
    let prog = compile_outcome(a)->Ok_0;
    let c = code_of(a, 0);
    assert(prog == c.push(InstrModel::Match));
    assert(prog.subrange(0, c.len() as int) =~= c);
    let s = start_state(i, max_slot_index(prog) + 1);
    let d = choose|d: Deriv| #[trigger] derives(a, d, chars, i as int, j);
    let t = lemma_code_reads(prog, chars, a, d, 0, s, j);
    assert(at_match(prog, t));
}

/// The tree has no backreference.
pub open spec fn plain(a: AstModel) -> bool
    decreases a, 0int,
{
    match a {
        AstModel::Backreference(_) => false,
        AstModel::Capture(e, _) => plain(*e),
        AstModel::ZeroOrMore(e, _) => plain(*e),
        AstModel::OneOrMore(e, _) => plain(*e),
        AstModel::ZeroOrOne(e, _) => plain(*e),
        AstModel::Repeat(e, _, _, _) => plain(*e),
        AstModel::Concat(items) => plain_list(items),
        AstModel::Alternate(l, r) => plain(*l) && plain(*r),
        _ => true,
    }
}

/// No tree of `items` has a backreference.
pub open spec fn plain_list(items: Seq<AstModel>) -> bool
    decreases items, 0int,
{
    if items.len() == 0 {
        true
    } else {
        plain_list(items.subrange(0, items.len() - 1)) && plain(items[items.len() - 1])
    }
}

/// What one step of a run does, exactly.
proof fn lemma_succ(prog: Seq<InstrModel>, chars: Seq<char>, s: RunState, t: RunState)
    requires
        prog.len() <= usize::MAX,
        chars.len() <= usize::MAX,
        successors(prog, chars, s).contains(t),
    ensures
        s.pc < prog.len(),
        match prog[s.pc as int] {
            InstrModel::Class(c) => t.pc == s.pc + 1 && s.char_index < chars.len() && class_accepts(
                c,
                chars[s.char_index as int],
            ) && t.char_index == s.char_index + 1,
            InstrModel::Assert(p) => t.pc == s.pc + 1 && t.char_index == s.char_index && assertion_holds(
                p,
                chars,
                s.char_index as int,
            ),
            InstrModel::SaveStart(_) => t.pc == s.pc + 1 && t.char_index == s.char_index,
            InstrModel::SaveEnd(_) => t.pc == s.pc + 1 && t.char_index == s.char_index,
            InstrModel::Split(x, y) => (t.pc == x || t.pc == y) && t.char_index == s.char_index,
            InstrModel::Jump(x) => t.pc == x && t.char_index == s.char_index,
            InstrModel::Match => false,
            InstrModel::Backref(_) => true,
        },
{
    let succ = successors(prog, chars, s);
    let i = choose|i: int| 0 <= i < succ.len() && succ[i] == t;
    assert(succ[i] == t);
}

/// Step `k` of a run, exactly.
proof fn lemma_path_step(prog: Seq<InstrModel>, chars: Seq<char>, path: Seq<RunState>, k: int)
    requires
        prog.len() <= usize::MAX,
        chars.len() <= usize::MAX,
        is_run(prog, chars, path),
        0 <= k < path.len() - 1,
    ensures
        path[k].pc < prog.len(),
        match prog[path[k].pc as int] {
            InstrModel::Class(c) => path[k + 1].pc == path[k].pc + 1 && path[k].char_index < chars.len()
                && class_accepts(c, chars[path[k].char_index as int]) && path[k + 1].char_index
                == path[k].char_index + 1,
            InstrModel::Assert(p) => path[k + 1].pc == path[k].pc + 1 && path[k + 1].char_index
                == path[k].char_index && assertion_holds(p, chars, path[k].char_index as int),
            InstrModel::SaveStart(_) => path[k + 1].pc == path[k].pc + 1 && path[k + 1].char_index
                == path[k].char_index,
            InstrModel::SaveEnd(_) => path[k + 1].pc == path[k].pc + 1 && path[k + 1].char_index
                == path[k].char_index,
            InstrModel::Split(x, y) => (path[k + 1].pc == x || path[k + 1].pc == y) && path[k + 1].char_index
                == path[k].char_index,
            InstrModel::Jump(x) => path[k + 1].pc == x && path[k + 1].char_index == path[k].char_index,
            InstrModel::Match => false,
            InstrModel::Backref(_) => true,
        },
{
    assert(run_step(prog, chars, path, k));
    lemma_succ(prog, chars, path[k], path[k + 1]);
}

/// A piece of a run that goes from `lo` to `hi` inside `lo..hi` crosses it.
proof fn lemma_piece_crosses(
    prog: Seq<InstrModel>,
    chars: Seq<char>,
    path: Seq<RunState>,
    a: int,
    b: int,
    lo: int,
    hi: int,
)
    requires
        is_run(prog, chars, path),
        0 <= a <= b < path.len(),
        path[a].pc == lo,
        path[b].pc == hi,
        forall|k: int| a <= k < b ==> lo <= #[trigger] path[k].pc < hi,
    ensures
        crosses(prog, chars, path.subrange(a, b + 1), lo, hi),
{
    let sub = path.subrange(a, b + 1);
    assert forall|k: int| 0 <= k < sub.len() - 1 implies #[trigger] run_step(prog, chars, sub, k) by {
        assert(run_step(prog, chars, path, a + k));
        assert(sub[k] == path[a + k] && sub[k + 1] == path[a + k + 1]);
    }
    assert forall|k: int| 0 <= k < sub.len() - 1 implies lo <= #[trigger] sub[k].pc < hi by {
        assert(sub[k] == path[a + k]);
    }
}

/// Adding a part at the end of a chain.
proof fn lemma_chain_push(e: AstModel, kids: Seq<Deriv>, pts: Seq<int>, chars: Seq<char>, d: Deriv, j: int)
    requires
        chain(e, kids, pts, chars),
        derives(e, d, chars, pts[kids.len() as int], j),
    ensures
        chain(e, kids.push(d), pts.push(j), chars),
    decreases kids.len(),
{
    if kids.len() > 0 {
        lemma_chain_push(e, kids.drop_first(), pts.drop_first(), chars, d, j);
        assert(kids.push(d).drop_first() =~= kids.drop_first().push(d));
        assert(pts.push(j).drop_first() =~= pts.drop_first().push(j));
    } else {
        assert(chain(e, Seq::<Deriv>::empty(), seq![j], chars));
        assert(kids.push(d).drop_first() =~= Seq::<Deriv>::empty());
        assert(pts.push(j).drop_first() =~= seq![j]);
    }
}

/// Two chains that meet make one.
proof fn lemma_chain_concat(e: AstModel, k1: Seq<Deriv>, p1: Seq<int>, k2: Seq<Deriv>, p2: Seq<int>, chars: Seq<char>)
    requires
        chain(e, k1, p1, chars),
        chain(e, k2, p2, chars),
        p1[k1.len() as int] == p2[0],
    ensures
        chain(e, k1 + k2, p1 + p2.drop_first(), chars),
    decreases k1.len(),
{
    if k1.len() == 0 {
        assert(k1 + k2 =~= k2);
        assert(p1 + p2.drop_first() =~= p2);
    } else {
        lemma_chain_concat(e, k1.drop_first(), p1.drop_first(), k2, p2, chars);
        assert((k1 + k2).drop_first() =~= k1.drop_first() + k2);
        assert((p1 + p2.drop_first()).drop_first() =~= p1.drop_first() + p2.drop_first());
    }
}

/// Every run across the code of a tree with no backreference reads a text
/// the tree describes: a derivation from where it enters to where it leaves.
pub proof fn lemma_code_derives(prog: Seq<InstrModel>, chars: Seq<char>, a: AstModel, base: int, path: Seq<RunState>) -> (d: Deriv)
    requires
        prog.len() <= usize::MAX,
        chars.len() <= usize::MAX,
        placed(prog, code_of(a, base), base),
        crosses(prog, chars, path, base, base + code_of(a, base).len()),
        plain(a),
    ensures
        derives(a, d, chars, path[0].char_index as int, path[path.len() - 1].char_index as int),
    decreases a, 0int, 0int,
{
    let c = code_of(a, base);
    let hi = base + c.len();
    let last = path.len() - 1;
    let none = Deriv { points: seq![], parts: seq![] };
    match a {
        AstModel::Empty => none,
        AstModel::Class(_) => {
            lemma_placed_at(prog, c, base, 0);
            lemma_path_step(prog, chars, path, 0);
            none
        },
        AstModel::Assertion(_) => {
            lemma_placed_at(prog, c, base, 0);
            lemma_path_step(prog, chars, path, 0);
            none
        },
        AstModel::Capture(e, idx) => {
            let inner = code_of(*e, base + 1);
            let head = seq![InstrModel::SaveStart(idx)];
            let tail = seq![InstrModel::SaveEnd(idx)];
            assert(c == head + inner + tail);
            lemma_placed_split(prog, head + inner, tail, base);
            lemma_placed_split(prog, head, inner, base);
            lemma_placed_at(prog, head, base, 0);
            lemma_placed_at(prog, tail, base + 1 + inner.len(), 0);
            lemma_path_step(prog, chars, path, 0);
            lemma_code_targets(*e, base + 1);
            lemma_placed_region(prog, inner, base + 1);
            let f = lemma_enter(prog, chars, path, 1, base + 1, base + 1 + inner.len());
            let sub = path.subrange(1, f + 1);
            let d0 = lemma_code_derives(prog, chars, *e, base + 1, sub);
            lemma_path_step(prog, chars, path, f);
            Deriv { points: seq![], parts: seq![d0] }
        },
        AstModel::ZeroOrMore(e, g) => {
            let (kids, pts) = lemma_star_derives(prog, chars, *e, g, base, path);
            Deriv { points: pts, parts: kids }
        },
        AstModel::OneOrMore(e, g) => {
            let (kids, pts) = lemma_plus_derives(prog, chars, *e, g, base, path);
            Deriv { points: pts, parts: kids }
        },
        AstModel::ZeroOrOne(e, g) => {
            let kids = lemma_opt_derives(prog, chars, *e, g, base, path);
            Deriv { points: seq![], parts: kids }
        },
        AstModel::Repeat(e, g, min, max) => {
            let fixed = code_times(*e, base, min as nat);
            let b2 = base + fixed.len();
            let rest = match max {
                Some(m) => if m <= min {
                    Seq::empty()
                } else {
                    code_opts(*e, g, b2, (m - min) as nat)
                },
                None => code_star(*e, g, b2),
            };
            assert(c == fixed + rest);
            lemma_placed_split(prog, fixed, rest, base);
            lemma_times_targets(*e, base, min as nat);
            lemma_placed_region(prog, fixed, base);
            let f = lemma_enter(prog, chars, path, 0, base, b2);
            let sub1 = path.subrange(0, f + 1);
            let (k1, p1) = lemma_times_derives(prog, chars, *e, base, min as nat, sub1);
            if rest.len() == 0 {
                assert(f == last);
                Deriv { points: p1, parts: k1 }
            } else {
                match max {
                    Some(m) => lemma_opts_targets(*e, g, b2, (m - min) as nat),
                    None => lemma_star_targets(*e, g, b2),
                }
                lemma_placed_region(prog, rest, b2);
                let f2 = lemma_enter(prog, chars, path, f, b2, hi);
                assert(f2 == last);
                let sub2 = path.subrange(f, last + 1);
                let (k2, p2) = match max {
                    Some(m) => lemma_opts_derives(prog, chars, *e, g, b2, (m - min) as nat, sub2),
                    None => lemma_star_derives(prog, chars, *e, g, b2, sub2),
                };
                lemma_chain_concat(*e, k1, p1, k2, p2, chars);
                let pts = p1 + p2.drop_first();
                let kids = k1 + k2;
                assert(pts[0] == p1[0]);
                if k2.len() == 0 {
                    assert(pts[kids.len() as int] == p1[k1.len() as int]);
                } else {
                    assert(pts[kids.len() as int] == p2[k2.len() as int]);
                }
                Deriv { points: pts, parts: kids }
            }
        },
        AstModel::Concat(items) => {
            let (kids, pts) = lemma_list_derives(prog, chars, items, base, path);
            Deriv { points: pts, parts: kids }
        },
        AstModel::Alternate(l, r) => {
            let lc = code_of(*l, base + 1);
            let re = base + 1 + lc.len() + 1;
            let rc = code_of(*r, re);
            let head = seq![InstrModel::Split((base + 1) as usize, re as usize)];
            let jump = seq![InstrModel::Jump((re + rc.len()) as usize)];
            assert(c == head + lc + jump + rc);
            lemma_placed_split(prog, head + lc + jump, rc, base);
            lemma_placed_split(prog, head + lc, jump, base);
            lemma_placed_split(prog, head, lc, base);
            lemma_placed_at(prog, head, base, 0);
            lemma_placed_at(prog, jump, base + 1 + lc.len(), 0);
            lemma_path_step(prog, chars, path, 0);
            if path[1].pc == base + 1 {
                lemma_code_targets(*l, base + 1);
                lemma_placed_region(prog, lc, base + 1);
                let f = lemma_enter(prog, chars, path, 1, base + 1, base + 1 + lc.len());
                let sub = path.subrange(1, f + 1);
                let d0 = lemma_code_derives(prog, chars, *l, base + 1, sub);
                lemma_path_step(prog, chars, path, f);
                Deriv { points: seq![], parts: seq![d0] }
            } else {
                lemma_code_targets(*r, re);
                lemma_placed_region(prog, rc, re);
                let f = lemma_enter(prog, chars, path, 1, re, re + rc.len());
                assert(f == last);
                let sub = path.subrange(1, f + 1);
                let d0 = lemma_code_derives(prog, chars, *r, re, sub);
                Deriv { points: seq![], parts: seq![d0] }
            }
        },
        AstModel::Backreference(_) => none,
    }
}

/// A run across the code of `e*` reads a chain of texts of `e`.
proof fn lemma_star_derives(
    prog: Seq<InstrModel>,
    chars: Seq<char>,
    e: AstModel,
    g: bool,
    base: int,
    path: Seq<RunState>,
) -> (r: (Seq<Deriv>, Seq<int>))
    requires
        prog.len() <= usize::MAX,
        chars.len() <= usize::MAX,
        placed(prog, code_star(e, g, base), base),
        crosses(prog, chars, path, base, base + code_star(e, g, base).len()),
        plain(e),
    ensures
        chain(e, r.0, r.1, chars),
        r.1[0] == path[0].char_index,
        r.1[r.0.len() as int] == path[path.len() - 1].char_index,
    decreases e, 1int, path.len(),
{
    let body = code_of(e, base + 1);
    let out = base + 1 + body.len() + 1;
    let head = seq![split_for(g, base + 1, out)];
    let tail = seq![InstrModel::Jump(base as usize)];
    let last = path.len() - 1;
    assert(code_star(e, g, base) == head + body + tail);
    lemma_placed_split(prog, head + body, tail, base);
    lemma_placed_split(prog, head, body, base);
    lemma_placed_at(prog, head, base, 0);
    lemma_placed_at(prog, tail, base + 1 + body.len(), 0);
    lemma_path_step(prog, chars, path, 0);
    let i = path[0].char_index as int;
    if path[1].pc == out {
        assert(last == 1);
        (seq![], seq![i])
    } else {
        lemma_code_targets(e, base + 1);
        lemma_placed_region(prog, body, base + 1);
        let f = lemma_enter(prog, chars, path, 1, base + 1, base + 1 + body.len());
        let sub = path.subrange(1, f + 1);
        let d0 = lemma_code_derives(prog, chars, e, base + 1, sub);
        lemma_path_step(prog, chars, path, f);
        lemma_piece_crosses(prog, chars, path, f + 1, last, base, out);
        let rest = path.subrange(f + 1, last + 1);
        let (k2, p2) = lemma_star_derives(prog, chars, e, g, base, rest);
        let kids = seq![d0] + k2;
        let pts = seq![i] + p2;
        assert(kids.drop_first() =~= k2);
        assert(pts.drop_first() =~= p2);
        assert(kids[0] == d0 && pts[1] == p2[0]);
        (kids, pts)
    }
}

/// A run across the code of `e+` reads a chain of at least one text of `e`.
proof fn lemma_plus_derives(
    prog: Seq<InstrModel>,
    chars: Seq<char>,
    e: AstModel,
    g: bool,
    base: int,
    path: Seq<RunState>,
) -> (r: (Seq<Deriv>, Seq<int>))
    requires
        prog.len() <= usize::MAX,
        chars.len() <= usize::MAX,
        placed(prog, code_of(AstModel::OneOrMore(Box::new(e), g), base), base),
        crosses(prog, chars, path, base, base + code_of(AstModel::OneOrMore(Box::new(e), g), base).len()),
        plain(e),
    ensures
        r.0.len() >= 1,
        chain(e, r.0, r.1, chars),
        r.1[0] == path[0].char_index,
        r.1[r.0.len() as int] == path[path.len() - 1].char_index,
    decreases e, 1int, path.len(),
{
    let body = code_of(e, base);
    let out = base + body.len() + 1;
    let tail = seq![split_for(g, base, out)];
    let last = path.len() - 1;
    assert(code_of(AstModel::OneOrMore(Box::new(e), g), base) == body + tail);
    lemma_placed_split(prog, body, tail, base);
    lemma_placed_at(prog, tail, base + body.len(), 0);
    lemma_code_targets(e, base);
    lemma_placed_region(prog, body, base);
    let f = lemma_enter(prog, chars, path, 0, base, base + body.len());
    let sub = path.subrange(0, f + 1);
    let d0 = lemma_code_derives(prog, chars, e, base, sub);
    lemma_path_step(prog, chars, path, f);
    let i = path[0].char_index as int;
    let m = path[f].char_index as int;
    if path[f + 1].pc == out {
        assert(f + 1 == last);
        let kids = seq![d0];
        let pts = seq![i, m];
        assert(kids.drop_first() =~= Seq::<Deriv>::empty());
        assert(pts.drop_first() =~= seq![m]);
        assert(chain(e, Seq::<Deriv>::empty(), seq![m], chars));
        (kids, pts)
    } else {
        lemma_piece_crosses(prog, chars, path, f + 1, last, base, out);
        let rest = path.subrange(f + 1, last + 1);
        let (k2, p2) = lemma_plus_derives(prog, chars, e, g, base, rest);
        let kids = seq![d0] + k2;
        let pts = seq![i] + p2;
        assert(kids.drop_first() =~= k2);
        assert(pts.drop_first() =~= p2);
        assert(kids[0] == d0 && pts[1] == p2[0]);
        (kids, pts)
    }
}

/// A run across the code of `e?` reads the empty text (no part) or a text of
/// `e` (one part).
proof fn lemma_opt_derives(
    prog: Seq<InstrModel>,
    chars: Seq<char>,
    e: AstModel,
    g: bool,
    base: int,
    path: Seq<RunState>,
) -> (kids: Seq<Deriv>)
    requires
        prog.len() <= usize::MAX,
        chars.len() <= usize::MAX,
        placed(prog, code_opt(e, g, base), base),
        crosses(prog, chars, path, base, base + code_opt(e, g, base).len()),
        plain(e),
    ensures
        (kids.len() == 0 && path[0].char_index == path[path.len() - 1].char_index) || (kids.len() == 1
            && derives(e, kids[0], chars, path[0].char_index as int, path[path.len() - 1].char_index as int)),
    decreases e, 1int, 0int,
{
    let body = code_of(e, base + 1);
    let out = base + 1 + body.len();
    let head = seq![split_for(g, base + 1, out)];
    let last = path.len() - 1;
    assert(code_opt(e, g, base) == head + body);
    lemma_placed_split(prog, head, body, base);
    lemma_placed_at(prog, head, base, 0);
    lemma_path_step(prog, chars, path, 0);
    if path[1].pc == out {
        assert(last == 1);
        seq![]
    } else {
        lemma_code_targets(e, base + 1);
        lemma_placed_region(prog, body, base + 1);
        let f = lemma_enter(prog, chars, path, 1, base + 1, out);
        assert(f == last);
        let sub = path.subrange(1, f + 1);
        let d0 = lemma_code_derives(prog, chars, e, base + 1, sub);
        seq![d0]
    }
}

/// A run across `n` copies of the code of `e` reads a chain of `n` texts.
proof fn lemma_times_derives(
    prog: Seq<InstrModel>,
    chars: Seq<char>,
    e: AstModel,
    base: int,
    n: nat,
    path: Seq<RunState>,
) -> (r: (Seq<Deriv>, Seq<int>))
    requires
        prog.len() <= usize::MAX,
        chars.len() <= usize::MAX,
        placed(prog, code_times(e, base, n), base),
        crosses(prog, chars, path, base, base + code_times(e, base, n).len()),
        plain(e),
    ensures
        r.0.len() == n,
        chain(e, r.0, r.1, chars),
        r.1[0] == path[0].char_index,
        r.1[r.0.len() as int] == path[path.len() - 1].char_index,
    decreases e, 1int, n,
{
    let last = path.len() - 1;
    let i = path[0].char_index as int;
    if n == 0 {
        (seq![], seq![i])
    } else {
        let prev = code_times(e, base, (n - 1) as nat);
        let lastc = code_of(e, base + prev.len());
        let hi = base + prev.len() + lastc.len();
        lemma_placed_split(prog, prev, lastc, base);
        lemma_times_targets(e, base, (n - 1) as nat);
        lemma_placed_region(prog, prev, base);
        let f = lemma_enter(prog, chars, path, 0, base, base + prev.len());
        let (k1, p1) = lemma_times_derives(prog, chars, e, base, (n - 1) as nat, path.subrange(0, f + 1));
        lemma_code_targets(e, base + prev.len());
        lemma_placed_region(prog, lastc, base + prev.len());
        let f2 = lemma_enter(prog, chars, path, f, base + prev.len(), hi);
        assert(f2 == last);
        let d = lemma_code_derives(prog, chars, e, base + prev.len(), path.subrange(f, last + 1));
        lemma_chain_push(e, k1, p1, chars, d, path[last].char_index as int);
        (k1.push(d), p1.push(path[last].char_index as int))
    }
}

/// A run across `n` copies of the code of `e?` reads a chain of at most `n`
/// texts.
proof fn lemma_opts_derives(
    prog: Seq<InstrModel>,
    chars: Seq<char>,
    e: AstModel,
    g: bool,
    base: int,
    n: nat,
    path: Seq<RunState>,
) -> (r: (Seq<Deriv>, Seq<int>))
    requires
        prog.len() <= usize::MAX,
        chars.len() <= usize::MAX,
        placed(prog, code_opts(e, g, base, n), base),
        crosses(prog, chars, path, base, base + code_opts(e, g, base, n).len()),
        plain(e),
    ensures
        r.0.len() <= n,
        chain(e, r.0, r.1, chars),
        r.1[0] == path[0].char_index,
        r.1[r.0.len() as int] == path[path.len() - 1].char_index,
    decreases e, 1int, n,
{
    let last = path.len() - 1;
    let i = path[0].char_index as int;
    if n == 0 {
        (seq![], seq![i])
    } else {
        let prev = code_opts(e, g, base, (n - 1) as nat);
        let lastc = code_opt(e, g, base + prev.len());
        let hi = base + prev.len() + lastc.len();
        lemma_placed_split(prog, prev, lastc, base);
        lemma_opts_targets(e, g, base, (n - 1) as nat);
        lemma_placed_region(prog, prev, base);
        let f = lemma_enter(prog, chars, path, 0, base, base + prev.len());
        let (k1, p1) = lemma_opts_derives(prog, chars, e, g, base, (n - 1) as nat, path.subrange(0, f + 1));
        lemma_opt_targets(e, g, base + prev.len());
        lemma_placed_region(prog, lastc, base + prev.len());
        let f2 = lemma_enter(prog, chars, path, f, base + prev.len(), hi);
        assert(f2 == last);
        let ks = lemma_opt_derives(prog, chars, e, g, base + prev.len(), path.subrange(f, last + 1));
        if ks.len() == 0 {
            (k1, p1)
        } else {
            lemma_chain_push(e, k1, p1, chars, ks[0], path[last].char_index as int);
            (k1.push(ks[0]), p1.push(path[last].char_index as int))
        }
    }
}

/// A run across the codes of `items` reads their texts one after another.
proof fn lemma_list_derives(
    prog: Seq<InstrModel>,
    chars: Seq<char>,
    items: Seq<AstModel>,
    base: int,
    path: Seq<RunState>,
) -> (r: (Seq<Deriv>, Seq<int>))
    requires
        prog.len() <= usize::MAX,
        chars.len() <= usize::MAX,
        placed(prog, code_list(items, base), base),
        crosses(prog, chars, path, base, base + code_list(items, base).len()),
        plain_list(items),
    ensures
        list_chain(items, r.0, r.1, chars),
        r.1[0] == path[0].char_index,
        r.1[items.len() as int] == path[path.len() - 1].char_index,
    decreases items, 0int, 0int,
{
    let last = path.len() - 1;
    let i = path[0].char_index as int;
    let n = items.len() as int;
    if n == 0 {
        (seq![], seq![i])
    } else {
        let init = items.subrange(0, n - 1);
        let prev = code_list(init, base);
        let lastc = code_of(items[n - 1], base + prev.len());
        let hi = base + prev.len() + lastc.len();
        lemma_placed_split(prog, prev, lastc, base);
        lemma_list_targets(init, base);
        lemma_placed_region(prog, prev, base);
        let f = lemma_enter(prog, chars, path, 0, base, base + prev.len());
        let (k1, p1) = lemma_list_derives(prog, chars, init, base, path.subrange(0, f + 1));
        lemma_code_targets(items[n - 1], base + prev.len());
        lemma_placed_region(prog, lastc, base + prev.len());
        let f2 = lemma_enter(prog, chars, path, f, base + prev.len(), hi);
        assert(f2 == last);
        let d = lemma_code_derives(prog, chars, items[n - 1], base + prev.len(), path.subrange(f, last + 1));
        let kids = k1.push(d);
        let pts = p1.push(path[last].char_index as int);
        assert(kids.subrange(0, n - 1) =~= k1);
        assert(pts.subrange(0, n) =~= p1);
        (kids, pts)
    }
}

/// The compiled program of a tree with no backreference matches only texts
/// the tree describes: a run from its first instruction at position `i` that
/// reaches `Match` at position `j` reads a text the tree describes from `i`
/// to `j`.
pub proof fn law_compiled_code_reads_only_spans(a: AstModel, chars: Seq<char>, path: Seq<RunState>)
    requires
        compile_outcome(a) is Ok,
        plain(a),
        chars.len() <= usize::MAX,
        is_run(compile_outcome(a)->Ok_0, chars, path),
        path[0].pc == 0,
        at_match(compile_outcome(a)->Ok_0, path[path.len() - 1]),
    ensures
        spans(a, chars, path[0].char_index as int, path[path.len() - 1].char_index as int),
{
    let prog = compile_outcome(a)->Ok_0;
    let c = code_of(a, 0);
    let last = path.len() - 1;
    assert(prog == c.push(InstrModel::Match));
    assert(prog.subrange(0, c.len() as int) =~= c);
    lemma_code_targets(a, 0);
    lemma_placed_region(prog, c, 0);
    let s = path[last];
    if s.pc < c.len() {
        assert(prog[s.pc as int] == c[s.pc as int]);
        assert(crate::engine::laws::target_ok(c[s.pc as int], 0, c.len() as int));
    }
    let f = lemma_enter(prog, chars, path, 0, 0, c.len() as int);
    if f < last {
        lemma_path_step(prog, chars, path, f);
    }
    let d = lemma_code_derives(prog, chars, a, 0, path.subrange(0, f + 1));
    assert(derives(a, d, chars, path[0].char_index as int, path[last].char_index as int));
}

/// For a tree with no backreference, the compiled program accepts from
/// position `i` exactly when the tree describes a text that starts at `i`.
pub proof fn law_compiled_code_accepts_exactly_spans(a: AstModel, chars: Seq<char>, i: nat)
    requires
        compile_outcome(a) is Ok,
        plain(a),
        chars.len() <= usize::MAX,
        i <= chars.len(),
    ensures
        accepts_from(
            compile_outcome(a)->Ok_0,
            chars,
            start_state(i, max_slot_index(compile_outcome(a)->Ok_0) + 1),
        ) <==> exists|j: int| #[trigger] spans(a, chars, i as int, j),
{
    let prog = compile_outcome(a)->Ok_0;
    let init = start_state(i, max_slot_index(prog) + 1);
    if accepts_from(prog, chars, init) {
        let s = choose|s: RunState| reachable(prog, chars, init, s) && at_match(prog, s);
        let path = choose|path: Seq<RunState>|
            #[trigger] is_run(prog, chars, path) && path[0] == init && path[path.len() - 1] == s;
        law_compiled_code_reads_only_spans(a, chars, path);
        assert(spans(a, chars, i as int, s.char_index as int));
    }
    if exists|j: int| #[trigger] spans(a, chars, i as int, j) {
        let j = choose|j: int| #[trigger] spans(a, chars, i as int, j);
        law_compiled_code_reads_spans(a, chars, i, j);
    }
}

/// A backreference reads exactly a copy of the whole text its group
/// captured: when `backref_len` gives a length, the group's start and end are
/// recorded, the length is theirs, and the text from the current position on
/// repeats the captured text character by character. Conversely, such a
/// copy is always read.
pub proof fn law_backref_reads_copy(chars: Seq<char>, s: RunState, index: usize)
    ensures
        backref_len(chars, s, index) matches Some(n) ==> {
            &&& index < s.starts.len() && index < s.ends.len()
            &&& s.starts[index as int] is Some && s.ends[index as int] is Some
            &&& s.starts[index as int]->0 + n == s.ends[index as int]->0
            &&& s.char_index + n <= chars.len()
            &&& forall|p: int|
                0 <= p < n ==> #[trigger] chars[s.starts[index as int]->0 + p] == chars[s.char_index + p]
        },
        ({
            &&& index < s.starts.len() && index < s.ends.len()
            &&& s.starts[index as int] is Some && s.ends[index as int] is Some
            &&& s.starts[index as int]->0 <= s.ends[index as int]->0 <= chars.len()
            &&& s.char_index + (s.ends[index as int]->0 - s.starts[index as int]->0) <= chars.len()
            &&& forall|p: int|
                0 <= p < s.ends[index as int]->0 - s.starts[index as int]->0 ==> #[trigger] chars[s.starts[index as int]->0
                    + p] == chars[s.char_index + p]
        }) ==> backref_len(chars, s, index) == Some(
            (s.ends[index as int]->0 - s.starts[index as int]->0) as nat,
        ),
{
    if index < s.starts.len() && index < s.ends.len() && s.starts[index as int] is Some
        && s.ends[index as int] is Some {
        let st = s.starts[index as int]->0 as int;
        let en = s.ends[index as int]->0 as int;
        let ci = s.char_index as int;
        if st <= en && en <= chars.len() && ci <= chars.len() && chars.len() - ci >= en - st {
            let x = chars.subrange(st, en);
            let y = chars.subrange(ci, ci + (en - st));
            if x == y {
                assert forall|p: int| 0 <= p < en - st implies #[trigger] chars[st + p] == chars[ci + p] by {
                    assert(x[p] == y[p]);
                }
            }
            if forall|p: int| 0 <= p < en - st ==> #[trigger] chars[st + p] == chars[ci + p] {
                assert forall|p: int| 0 <= p < x.len() implies x[p] == y[p] by {
                    assert(chars[st + p] == chars[ci + p]);
                }
                assert(x =~= y);
            }
        }
    }
}

} // verus!
