//! When the searches of the basic evaluator end.
//!
//! A search records each split it enters, with the character index, and
//! gives up on a split it has entered before at that index. Only finitely
//! many such pairs exist for a program and a text, characters only move the
//! index forward, and so a search can go on forever only through a loop of
//! jumps alone. A program in which every chain of jumps reaches another
//! instruction within as many steps as the program is long makes every search
//! end.
use vstd::prelude::*;
use crate::basic::compiler::{CState, Outcome, emit, gen, gen_list, gen_program, inc, patch, placeholder};
use crate::basic::evaluator::{char_ok, finishes, run, visit};
use crate::basic::instruction::Instruction;
use crate::basic::parser::Node;

verus! {

/// Following jumps from `pc` leads within `n` jumps to an instruction that is
/// no jump, or to an address outside the program.
pub open spec fn jumps_settle(prog: Seq<Instruction>, pc: int, n: nat) -> bool
    decreases n,
{
    if !(0 <= pc < prog.len()) || !(prog[pc] is Jump) {
        true
    } else if n == 0 {
        false
    } else {
        jumps_settle(prog, prog[pc]->Jump_0 as int, (n - 1) as nat)
    }
}

/// The program has no loop made of jumps alone.
pub open spec fn no_jump_loop(prog: Seq<Instruction>) -> bool {
    forall|pc: int| 0 <= pc < prog.len() ==> #[trigger] jumps_settle(prog, pc, prog.len())
}

/// Whether the split at `pc` has not yet been entered at index `c`.
pub open spec fn unentered(prog: Seq<Instruction>, vis: Seq<(usize, usize)>, pc: int, c: int) -> nat {
    if prog[pc] is Split && !vis.contains((prog[pc]->Split_0, c as usize)) {
        1
    } else {
        0
    }
}

/// How many of the indexes below `w` the split at `pc` has not been entered at.
pub open spec fn unentered_at(prog: Seq<Instruction>, vis: Seq<(usize, usize)>, pc: int, w: nat) -> nat
    decreases w,
{
    if w == 0 {
        0
    } else {
        unentered_at(prog, vis, pc, (w - 1) as nat) + unentered(prog, vis, pc, w - 1)
    }
}

/// How many pairs of a split among the first `n` instructions and an index
/// below `w` have not been entered.
pub open spec fn unentered_below(prog: Seq<Instruction>, vis: Seq<(usize, usize)>, n: nat, w: nat) -> nat
    decreases n,
{
    if n == 0 {
        0
    } else {
        unentered_below(prog, vis, (n - 1) as nat, w) + unentered_at(prog, vis, n - 1, w)
    }
}

/// Every pair of `vis` is in `more`.
pub open spec fn kept(vis: Seq<(usize, usize)>, more: Seq<(usize, usize)>) -> bool {
    forall|x: (usize, usize)| vis.contains(x) ==> #[trigger] more.contains(x)
}

proof fn lemma_unentered_at_mono(
    prog: Seq<Instruction>,
    vis: Seq<(usize, usize)>,
    more: Seq<(usize, usize)>,
    pc: int,
    w: nat,
)
    requires
        kept(vis, more),
    ensures
        unentered_at(prog, more, pc, w) <= unentered_at(prog, vis, pc, w),
    decreases w,
{
    if w > 0 {
        lemma_unentered_at_mono(prog, vis, more, pc, (w - 1) as nat);
        if prog[pc] is Split {
            let x = (prog[pc]->Split_0, (w - 1) as usize);
            if vis.contains(x) {
                assert(more.contains(x));
            }
        }
    }
}

proof fn lemma_unentered_below_mono(
    prog: Seq<Instruction>,
    vis: Seq<(usize, usize)>,
    more: Seq<(usize, usize)>,
    n: nat,
    w: nat,
)
    requires
        kept(vis, more),
    ensures
        unentered_below(prog, more, n, w) <= unentered_below(prog, vis, n, w),
    decreases n,
{
    if n > 0 {
        lemma_unentered_below_mono(prog, vis, more, (n - 1) as nat, w);
        lemma_unentered_at_mono(prog, vis, more, n - 1, w);
    }
}

proof fn lemma_unentered_at_drop(prog: Seq<Instruction>, vis: Seq<(usize, usize)>, pc: int, w: nat, c: usize)
    requires
        prog[pc] is Split,
        c < w,
        !vis.contains((prog[pc]->Split_0, c)),
    ensures
        unentered_at(prog, vis.push((prog[pc]->Split_0, c)), pc, w) < unentered_at(prog, vis, pc, w),
    decreases w,
{
    let more = vis.push((prog[pc]->Split_0, c));
    assert(kept(vis, more)) by {
        assert forall|x: (usize, usize)| vis.contains(x) implies #[trigger] more.contains(x) by {
            let i = choose|i: int| 0 <= i < vis.len() && vis[i] == x;
            assert(more[i] == x);
        }
    }
    assert(more[vis.len() as int] == (prog[pc]->Split_0, c));
    if c + 1 < w {
        lemma_unentered_at_drop(prog, vis, pc, (w - 1) as nat, c);
    } else {
        lemma_unentered_at_mono(prog, vis, more, pc, (w - 1) as nat);
        assert(((w - 1) as int) as usize == c);
    }
}

proof fn lemma_unentered_below_drop(
    prog: Seq<Instruction>,
    vis: Seq<(usize, usize)>,
    n: nat,
    w: nat,
    pc: int,
    c: usize,
)
    requires
        0 <= pc < n,
        prog[pc] is Split,
        c < w,
        !vis.contains((prog[pc]->Split_0, c)),
    ensures
        unentered_below(prog, vis.push((prog[pc]->Split_0, c)), n, w) < unentered_below(prog, vis, n, w),
    decreases n,
{
    let more = vis.push((prog[pc]->Split_0, c));
    assert(kept(vis, more)) by {
        assert forall|x: (usize, usize)| vis.contains(x) implies #[trigger] more.contains(x) by {
            let i = choose|i: int| 0 <= i < vis.len() && vis[i] == x;
            assert(more[i] == x);
        }
    }
    if pc < n - 1 {
        lemma_unentered_below_drop(prog, vis, (n - 1) as nat, w, pc, c);
        lemma_unentered_at_mono(prog, vis, more, n - 1, w);
    } else {
        lemma_unentered_below_mono(prog, vis, more, (n - 1) as nat, w);
        lemma_unentered_at_drop(prog, vis, pc, w, c);
    }
}

/// The record after a search holds every pair of the record before it.
pub proof fn lemma_record_kept(
    prog: Seq<Instruction>,
    s: Seq<char>,
    blen: nat,
    dollar: bool,
    pc: usize,
    ci: usize,
    vis: Seq<(usize, usize)>,
    fuel: nat,
)
    requires
        run(prog, s, blen, dollar, pc, ci, vis, fuel) is Some,
    ensures
        kept(vis, (run(prog, s, blen, dollar, pc, ci, vis, fuel)->0).1),
    decreases fuel,
{
    if fuel > 0 && pc < prog.len() {
        match prog[pc as int] {
            Instruction::Char(c) => {
                if char_ok(c, s, ci as int) && pc < usize::MAX && ci < usize::MAX {
                    lemma_record_kept(
                        prog,
                        s,
                        blen,
                        dollar,
                        (pc + 1) as usize,
                        (ci + 1) as usize,
                        vis,
                        (fuel - 1) as nat,
                    );
                }
            },
            Instruction::Jump(a) => {
                lemma_record_kept(prog, s, blen, dollar, a, ci, vis, (fuel - 1) as nat);
            },
            Instruction::Split(a1, a2) => {
                let (seen, v1) = visit(vis, a1, ci);
                if !seen {
                    assert(kept(vis, v1)) by {
                        assert forall|x: (usize, usize)| vis.contains(x) implies #[trigger] v1.contains(x) by {
                            let i = choose|i: int| 0 <= i < vis.len() && vis[i] == x;
                            assert(v1[i] == x);
                        }
                    }
                    lemma_record_kept(prog, s, blen, dollar, a1, ci, v1, (fuel - 1) as nat);
                    match run(prog, s, blen, dollar, a1, ci, v1, (fuel - 1) as nat) {
                        Some((Ok(false), v2)) => {
                            lemma_record_kept(prog, s, blen, dollar, a2, ci, v2, (fuel - 1) as nat);
                        },
                        _ => {},
                    }
                }
            },
            Instruction::Match => {},
        }
    }
}

proof fn lemma_ends(
    prog: Seq<Instruction>,
    s: Seq<char>,
    blen: nat,
    dollar: bool,
    pc: usize,
    ci: usize,
    vis: Seq<(usize, usize)>,
    b: nat,
    n: nat,
)
    requires
        no_jump_loop(prog),
        s.len() <= b,
        ci <= b,
        jumps_settle(prog, pc as int, n),
    ensures
        finishes(prog, s, blen, dollar, pc, ci, vis),
    decreases unentered_below(prog, vis, prog.len(), b + 1), b - ci, n,
{
    if pc >= prog.len() {
        assert(run(prog, s, blen, dollar, pc, ci, vis, 1) is Some);
    } else {
        match prog[pc as int] {
            Instruction::Char(c) => {
                if char_ok(c, s, ci as int) && pc < usize::MAX && ci < usize::MAX {
                    let next = (pc + 1) as usize;
                    if next < prog.len() {
                        assert(jumps_settle(prog, next as int, prog.len()));
                    }
                    lemma_ends(prog, s, blen, dollar, next, (ci + 1) as usize, vis, b, prog.len());
                    let f = choose|f: nat|
                        #[trigger] run(prog, s, blen, dollar, next, (ci + 1) as usize, vis, f) is Some;
                    assert(run(prog, s, blen, dollar, pc, ci, vis, f + 1) is Some);
                } else {
                    assert(run(prog, s, blen, dollar, pc, ci, vis, 1) is Some);
                }
            },
            Instruction::Match => {
                assert(run(prog, s, blen, dollar, pc, ci, vis, 1) is Some);
            },
            Instruction::Jump(a) => {
                lemma_ends(prog, s, blen, dollar, a, ci, vis, b, (n - 1) as nat);
                let f = choose|f: nat| #[trigger] run(prog, s, blen, dollar, a, ci, vis, f) is Some;
                assert(run(prog, s, blen, dollar, pc, ci, vis, f + 1) is Some);
            },
            Instruction::Split(a1, a2) => {
                let (seen, v1) = visit(vis, a1, ci);
                if seen {
                    assert(run(prog, s, blen, dollar, pc, ci, vis, 1) is Some);
                } else {
                    let w = b + 1;
                    lemma_unentered_below_drop(prog, vis, prog.len(), w, pc as int, ci);
                    if a1 < prog.len() {
                        assert(jumps_settle(prog, a1 as int, prog.len()));
                    }
                    lemma_ends(prog, s, blen, dollar, a1, ci, v1, b, prog.len());
                    let f1 = choose|f: nat| #[trigger] run(prog, s, blen, dollar, a1, ci, v1, f) is Some;
                    let r1 = run(prog, s, blen, dollar, a1, ci, v1, f1);
                    match r1 {
                        Some((Ok(false), v2)) => {
                            lemma_record_kept(prog, s, blen, dollar, a1, ci, v1, f1);
                            lemma_unentered_below_mono(prog, v1, v2, prog.len(), w);
                            if a2 < prog.len() {
                                assert(jumps_settle(prog, a2 as int, prog.len()));
                            }
                            lemma_ends(prog, s, blen, dollar, a2, ci, v2, b, prog.len());
                            let f2 = choose|f: nat| #[trigger] run(prog, s, blen, dollar, a2, ci, v2, f) is Some;
                            crate::basic::evaluator::lemma_run_more_fuel(
                                prog,
                                s,
                                blen,
                                dollar,
                                a1,
                                ci,
                                v1,
                                f1,
                                f1 + f2,
                            );
                            crate::basic::evaluator::lemma_run_more_fuel(
                                prog,
                                s,
                                blen,
                                dollar,
                                a2,
                                ci,
                                v2,
                                f2,
                                f1 + f2,
                            );
                            assert(run(prog, s, blen, dollar, pc, ci, vis, f1 + f2 + 1) is Some);
                        },
                        _ => {
                            assert(run(prog, s, blen, dollar, pc, ci, vis, f1 + 1) is Some);
                        },
                    }
                }
            },
        }
    }
}

/// In a program with no loop of jumps alone, every search ends, from any
/// address and character index and with any record.
pub proof fn law_search_ends(
    prog: Seq<Instruction>,
    s: Seq<char>,
    blen: nat,
    dollar: bool,
    pc: usize,
    ci: usize,
    vis: Seq<(usize, usize)>,
)
    requires
        no_jump_loop(prog),
    ensures
        finishes(prog, s, blen, dollar, pc, ci, vis),
{
    let b: nat = if s.len() <= ci { ci as nat } else { s.len() };
    if pc < prog.len() {
        assert(jumps_settle(prog, pc as int, prog.len()));
    }
    lemma_ends(prog, s, blen, dollar, pc, ci, vis, b, prog.len());
}

/// Each jump at an address in `lo..hi` goes forward, or back to a split at an
/// address in `lo..hi`.
pub open spec fn jumps_ok(code: Seq<Instruction>, lo: int, hi: int) -> bool {
    forall|i: int|
        lo <= i < hi && #[trigger] code[i] is Jump ==> i < code[i]->Jump_0 || (lo <= code[i]->Jump_0 < i
            && code[code[i]->Jump_0 as int] is Split)
}

/// A step of the compiler that succeeds keeps the instructions it was given,
/// keeps the program counter at the end of the code, and adds code whose jumps
/// are as `jumps_ok` says.
pub open spec fn extends(st: CState, o: Outcome) -> bool {
    o.1 is None ==> {
        &&& o.0.pc == o.0.code.len()
        &&& o.0.pc <= usize::MAX
        &&& st.code.len() <= o.0.code.len()
        &&& o.0.code.subrange(0, st.code.len() as int) == st.code
        &&& jumps_ok(o.0.code, st.code.len() as int, o.0.code.len() as int)
    }
}

proof fn lemma_jumps_ok_frame(c1: Seq<Instruction>, c2: Seq<Instruction>, lo: int, hi: int)
    requires
        jumps_ok(c1, lo, hi),
        0 <= lo,
        hi <= c1.len(),
        hi <= c2.len(),
        forall|k: int| lo <= k < hi ==> c1[k] == c2[k],
    ensures
        jumps_ok(c2, lo, hi),
{
    assert forall|i: int| lo <= i < hi && #[trigger] c2[i] is Jump implies i < c2[i]->Jump_0 || (lo
        <= c2[i]->Jump_0 < i && c2[c2[i]->Jump_0 as int] is Split) by {
        assert(c1[i] == c2[i]);
        if !(i < c2[i]->Jump_0) {
            assert(c1[c1[i]->Jump_0 as int] == c2[c2[i]->Jump_0 as int]);
        }
    }
}

proof fn lemma_jumps_ok_join(c: Seq<Instruction>, lo: int, m: int, hi: int)
    requires
        lo <= m <= hi,
        jumps_ok(c, lo, m),
        jumps_ok(c, m, hi),
    ensures
        jumps_ok(c, lo, hi),
{
    assert forall|i: int| lo <= i < hi && #[trigger] c[i] is Jump implies i < c[i]->Jump_0 || (lo
        <= c[i]->Jump_0 < i && c[c[i]->Jump_0 as int] is Split) by {
        if i < m {
            assert(lo <= i < m && c[i] is Jump);
        } else {
            assert(m <= i < hi && c[i] is Jump);
        }
    }
}

proof fn lemma_gen_list_extends(items: Seq<Node>, st: CState)
    requires
        st.pc == st.code.len(),
        st.pc <= usize::MAX,
    ensures
        extends(st, gen_list(items, st)),
    decreases items, 0int,
{
    if items.len() == 0 {
        assert(st.code.subrange(0, st.code.len() as int) =~= st.code);
    } else {
        let init = items.subrange(0, items.len() - 1);
        lemma_gen_list_extends(init, st);
        let (s1, e1) = gen_list(init, st);
        if e1 is None {
            lemma_gen_extends(items[items.len() - 1], s1);
            let (s2, e2) = gen(items[items.len() - 1], s1);
            if e2 is None {
                assert forall|k: int| 0 <= k < s1.code.len() implies s2.code[k] == s1.code[k] by {
                    assert(s2.code.subrange(0, s1.code.len() as int)[k] == s2.code[k]);
                }
                assert forall|k: int| 0 <= k < st.code.len() implies s2.code[k] == st.code[k] by {
                    assert(s1.code.subrange(0, st.code.len() as int)[k] == s1.code[k]);
                }
                assert(s2.code.subrange(0, st.code.len() as int) =~= st.code);
                lemma_jumps_ok_frame(s1.code, s2.code, st.code.len() as int, s1.code.len() as int);
                lemma_jumps_ok_join(s2.code, st.code.len() as int, s1.code.len() as int, s2.code.len() as int);
            }
        }
    }
}

proof fn lemma_gen_extends(n: Node, st: CState)
    requires
        st.pc == st.code.len(),
        st.pc <= usize::MAX,
    ensures
        extends(st, gen(n, st)),
    decreases n, 1int,
{
    let lo = st.code.len() as int;
    match n {
        Node::AnyChar => {
            let f = st.code.push(Instruction::Char(crate::basic::instruction::Char::Any));
            assert(f.subrange(0, lo) =~= st.code);
        },
        Node::Char(c) => {
            let f = st.code.push(Instruction::Char(crate::basic::instruction::Char::Literal(c)));
            assert(f.subrange(0, lo) =~= st.code);
        },
        Node::Plus(e) => {
            lemma_gen_extends(*e, st);
            let (s1, e1) = gen(*e, st);
            if e1 is None {
                let (s2, e2) = inc(s1);
                if e2 is None {
                    let f = s2.code.push(Instruction::Split(st.pc as usize, s2.pc as usize));
                    lemma_jumps_ok_frame(s1.code, f, lo, s1.code.len() as int);
                    assert(f.subrange(0, lo) =~= s1.code.subrange(0, lo));
                    assert(f[s1.code.len() as int] is Split);
                    assert(jumps_ok(f, lo, f.len() as int));
                }
            }
        },
        Node::Star(e) => {
            let (s1, e1) = placeholder(st);
            if e1 is None {
                lemma_gen_extends(*e, s1);
                let (s2, e2) = gen(*e, s1);
                if e2 is None {
                    let (s3, e3) = emit(s2, Instruction::Jump(st.pc as usize));
                    if e3 is None {
                        let (s4, e4) = patch(s3, lo, crate::basic::error::CompileError::FailStar);
                        if e4 is None {
                            assert(s2.code[lo] == s2.code.subrange(0, s1.code.len() as int)[lo]);
                            assert(s3.code[lo] == s2.code[lo]);
                            lemma_jumps_ok_frame(s2.code, s4.code, lo + 1, s2.code.len() as int);
                            assert forall|k: int| 0 <= k < lo implies s4.code[k] == st.code[k] by {
                                assert(s2.code.subrange(0, s1.code.len() as int)[k] == s2.code[k]);
                            }
                            assert(s4.code.subrange(0, lo) =~= st.code);
                            assert(s4.code[lo] is Split);
                            assert(s4.code[s2.code.len() as int] == Instruction::Jump(st.pc as usize));
                            let c = s4.code;
                            let m = s2.code.len() as int;
                            assert forall|i: int| lo <= i < c.len() && #[trigger] c[i] is Jump implies i
                                < c[i]->Jump_0 || (lo <= c[i]->Jump_0 < i && c[c[i]->Jump_0 as int] is Split) by {
                                if lo < i < m {
                                    assert(lo + 1 <= i < m && c[i] is Jump);
                                }
                            }
                        }
                    }
                }
            }
        },
        Node::Question(e) => {
            let (s1, e1) = placeholder(st);
            if e1 is None {
                lemma_gen_extends(*e, s1);
                let (s2, e2) = gen(*e, s1);
                if e2 is None {
                    let (s3, e3) = patch(s2, lo, crate::basic::error::CompileError::FailQuestion);
                    if e3 is None {
                        assert(s2.code[lo] == s2.code.subrange(0, s1.code.len() as int)[lo]);
                        lemma_jumps_ok_frame(s2.code, s3.code, lo + 1, s2.code.len() as int);
                        assert forall|k: int| 0 <= k < lo implies s3.code[k] == st.code[k] by {
                            assert(s2.code.subrange(0, s1.code.len() as int)[k] == s2.code[k]);
                        }
                        assert(s3.code.subrange(0, lo) =~= st.code);
                        assert(s3.code[lo] is Split);
                        let c = s3.code;
                        assert forall|i: int| lo <= i < c.len() && #[trigger] c[i] is Jump implies i
                            < c[i]->Jump_0 || (lo <= c[i]->Jump_0 < i && c[c[i]->Jump_0 as int] is Split) by {
                            if lo < i {
                                assert(lo + 1 <= i < c.len() && c[i] is Jump);
                            }
                        }
                    }
                }
            }
        },
        Node::Or(l0, r0) => {
            let l = *l0;
            let r = *r0;
            let (s1, e1) = placeholder(st);
            if e1 is None {
                lemma_gen_extends(l, s1);
                let (s2, e2) = gen(l, s1);
                if e2 is None {
                    let jc = s2.pc as int;
                    let (s3, e3) = emit(s2, Instruction::Jump(0));
                    if e3 is None {
                        let (s4, e4) = patch(s3, lo, crate::basic::error::CompileError::FailOr);
                        if e4 is None {
                            lemma_gen_extends(r, s4);
                            let (s5, e5) = gen(r, s4);
                            if e5 is None {
                                let (s6, e6) = patch(s5, jc, crate::basic::error::CompileError::FailOr);
                                if e6 is None {
                                    assert(s2.code[lo] == s2.code.subrange(0, s1.code.len() as int)[lo]);
                                    assert(forall|k: int|
                                        lo < k < jc ==> s6.code[k] == s5.code.subrange(0, s4.code.len() as int)[k]);
                                    lemma_jumps_ok_frame(s2.code, s6.code, lo + 1, jc);
                                    lemma_jumps_ok_frame(s5.code, s6.code, jc + 1, s5.code.len() as int);
                                    assert forall|k: int| 0 <= k < lo implies s6.code[k] == st.code[k] by {
                                        assert(s2.code.subrange(0, s1.code.len() as int)[k] == s2.code[k]);
                                        assert(s5.code.subrange(0, s4.code.len() as int)[k] == s5.code[k]);
                                    }
                                    assert(s6.code.subrange(0, lo) =~= st.code);
                                    assert(s5.code[lo] == s5.code.subrange(0, s4.code.len() as int)[lo]);
                                    assert(s5.code[jc] == s5.code.subrange(0, s4.code.len() as int)[jc]);
                                    assert(s4.code[jc] == Instruction::Jump(0));
                                    assert(s6.code[lo] is Split);
                                    assert(s6.code[jc] == Instruction::Jump(s5.pc as usize));
                                    let c = s6.code;
                                    assert forall|i: int| lo <= i < c.len() && #[trigger] c[i] is Jump implies i
                                        < c[i]->Jump_0 || (lo <= c[i]->Jump_0 < i && c[c[i]->Jump_0 as int] is Split) by {
                                        if lo < i < jc {
                                            assert(lo + 1 <= i < jc && c[i] is Jump);
                                        } else if jc < i {
                                            assert(jc + 1 <= i < c.len() && c[i] is Jump);
                                        }
                                    }
                                }
                            }
                        }
                    }
                }
            }
        },
        Node::Sequence(items) => {
            lemma_gen_list_extends(items, st);
        },
    }
}

proof fn lemma_settles(prog: Seq<Instruction>, pc: int, k: nat)
    requires
        jumps_ok(prog, 0, prog.len() as int),
        0 <= pc,
        prog.len() - pc <= k,
    ensures
        jumps_settle(prog, pc, k),
    decreases prog.len() - pc,
{
    if pc < prog.len() && prog[pc] is Jump {
        let a = prog[pc]->Jump_0 as int;
        if pc < a && a < prog.len() {
            lemma_settles(prog, a, (k - 1) as nat);
        } else if pc < a {
            assert(jumps_settle(prog, a, (k - 1) as nat));
        } else {
            assert(prog[a] is Split);
            assert(jumps_settle(prog, a, (k - 1) as nat));
        }
    }
}

/// A compiled program has no loop of jumps alone: each of its jumps goes
/// forward, or back to a split.
pub proof fn law_compiled_code_has_no_jump_loop(n: Node)
    requires
        gen_program(n, CState { pc: 0, code: Seq::empty() }).1 is None,
    ensures
        no_jump_loop(gen_program(n, CState { pc: 0, code: Seq::empty() }).0.code),
{
    let st = CState { pc: 0, code: Seq::empty() };
    lemma_gen_extends(n, st);
    let (s1, _e1) = gen(n, st);
    let code = gen_program(n, st).0.code;
    lemma_jumps_ok_frame(s1.code, code, 0, s1.code.len() as int);
    assert(code[s1.code.len() as int] == Instruction::Match);
    assert(jumps_ok(code, 0, code.len() as int));
    assert forall|pc: int| 0 <= pc < code.len() implies #[trigger] jumps_settle(code, pc, code.len()) by {
        lemma_settles(code, pc, code.len());
    }
}

} // verus!
