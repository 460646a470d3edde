//! What the compiled code of a basic tree accepts, against the text the tree
//! describes.
//!
//! `bspans(n, s, i, j)` says that the tree `n` describes the characters of
//! `s` from position `i` to position `j`: a character itself, `.` any one
//! character, a sequence the texts of its items one after another, `|` the
//! text of either side, `?` the empty text or one text of its body, `*` any
//! number of texts of its body one after another, `+` one or more.
//!
//! The laws show that the code the compiler lays out for a tree accepts
//! exactly the texts the tree describes: some sequence of steps reads each of
//! them, and every sequence of steps that reaches `match` reads one.
use vstd::prelude::*;
use crate::basic::compiler::{CState, emit, gen, gen_list, gen_program, inc, patch, placeholder};
use crate::basic::evaluator::{accepting, char_ok, is_path, reaches_match, steps_to};
use crate::basic::instruction::{Char, Instruction};
use crate::basic::parser::Node;
use crate::engine::semantics::Deriv;

verus! {

/// `d` shows that the tree `n` describes `s` from `i` to `j`.
pub open spec fn bderives(n: Node, d: Deriv, s: Seq<char>, i: int, j: int) -> bool
    decreases n, 0int, 0int,
{
    let kids = d.parts;
    let pts = d.points;
    match n {
        Node::AnyChar => 0 <= i < s.len() && j == i + 1,
        Node::Char(c) => 0 <= i < s.len() && s[i] == c && j == i + 1,
        Node::Plus(e) => kids.len() >= 1 && bchain(*e, kids, pts, s) && pts[0] == i && pts[kids.len() as int]
            == j,
        Node::Star(e) => bchain(*e, kids, pts, s) && pts[0] == i && pts[kids.len() as int] == j,
        Node::Question(e) => (kids.len() == 0 && i == j) || (kids.len() >= 1 && bderives(*e, kids[0], s, i, j)),
        Node::Or(l, r) => kids.len() >= 1 && (bderives(*l, kids[0], s, i, j) || bderives(*r, kids[0], s, i, j)),
        Node::Sequence(items) => blist_chain(items, kids, pts, s) && pts[0] == i && pts[items.len() as int] == j,
    }
}

/// Each part `kids[t]` derives a text of `e` from `pts[t]` to `pts[t + 1]`.
pub open spec fn bchain(e: Node, kids: Seq<Deriv>, pts: Seq<int>, s: Seq<char>) -> bool
    decreases e, 1int, kids.len(),
{
    pts.len() == kids.len() + 1 && (kids.len() == 0 || (bderives(e, kids[0], s, pts[0], pts[1]) && bchain(
        e,
        kids.drop_first(),
        pts.drop_first(),
        s,
    )))
}

/// Each part `kids[t]` derives a text of `items[t]` from `pts[t]` to
/// `pts[t + 1]`.
pub open spec fn blist_chain(items: Seq<Node>, kids: Seq<Deriv>, pts: Seq<int>, s: Seq<char>) -> bool
    decreases items, 0int, 0int,
{
    let n = items.len();
    pts.len() == n + 1 && kids.len() == n && (n == 0 || (blist_chain(
        items.subrange(0, n - 1),
        kids.subrange(0, n - 1),
        pts.subrange(0, n as int),
        s,
    ) && bderives(items[n - 1], kids[n - 1], s, pts[n - 1], pts[n as int])))
}

/// The tree `n` describes `s` from position `i` to position `j`.
pub open spec fn bspans(n: Node, s: Seq<char>, i: int, j: int) -> bool {
    exists|d: Deriv| #[trigger] bderives(n, d, s, i, j)
}

/// The code the compiler lays out for `n` from address `b`.
pub open spec fn bcode(n: Node, b: int) -> Seq<Instruction>
    decreases n, 0int,
{
    match n {
        Node::AnyChar => seq![Instruction::Char(Char::Any)],
        Node::Char(c) => seq![Instruction::Char(Char::Literal(c))],
        Node::Plus(e) => {
            let body = bcode(*e, b);
            body + seq![Instruction::Split(b as usize, (b + body.len() + 1) as usize)]
        },
        Node::Star(e) => {
            let body = bcode(*e, b + 1);
            seq![Instruction::Split((b + 1) as usize, (b + 1 + body.len() + 1) as usize)] + body + seq![
                Instruction::Jump(b as usize),
            ]
        },
        Node::Question(e) => {
            let body = bcode(*e, b + 1);
            seq![Instruction::Split((b + 1) as usize, (b + 1 + body.len()) as usize)] + body
        },
        Node::Or(l, r) => {
            let lc = bcode(*l, b + 1);
            let rb = b + 1 + lc.len() + 1;
            let rc = bcode(*r, rb);
            seq![Instruction::Split((b + 1) as usize, rb as usize)] + lc + seq![
                Instruction::Jump((rb + rc.len()) as usize),
            ] + rc
        },
        Node::Sequence(items) => bcode_list(items, b),
    }
}

/// The codes of `items`, one after another from `b`.
pub open spec fn bcode_list(items: Seq<Node>, b: int) -> Seq<Instruction>
    decreases items, 0int,
{
    if items.len() == 0 {
        Seq::empty()
    } else {
        let prev = bcode_list(items.subrange(0, items.len() - 1), b);
        prev + bcode(items[items.len() - 1], b + prev.len())
    }
}

/// A compiler step that succeeds appends `code` and keeps the counter at the
/// end of the instructions.
pub open spec fn appends(st: CState, o: (CState, Option<crate::basic::error::CompileError>), code: Seq<Instruction>) -> bool {
    o.1 is None ==> {
        &&& o.0.code == st.code + code
        &&& o.0.pc == o.0.code.len()
        &&& o.0.pc <= usize::MAX
    }
}

proof fn lemma_gen_list_appends(items: Seq<Node>, st: CState)
    requires
        st.pc == st.code.len(),
        st.pc <= usize::MAX,
    ensures
        appends(st, gen_list(items, st), bcode_list(items, st.pc as int)),
    decreases items, 0int,
{
    if items.len() == 0 {
        assert(st.code + Seq::<Instruction>::empty() =~= st.code);
    } else {
        let init = items.subrange(0, items.len() - 1);
        lemma_gen_list_appends(init, st);
        let (s1, e1) = gen_list(init, st);
        if e1 is None {
            lemma_gen_appends(items[items.len() - 1], s1);
            let prev = bcode_list(init, st.pc as int);
            assert(s1.pc == st.pc + prev.len());
            let (s2, e2) = gen(items[items.len() - 1], s1);
            if e2 is None {
                assert(s2.code =~= st.code + bcode_list(items, st.pc as int));
            }
        }
    }
}

proof fn lemma_gen_appends(n: Node, st: CState)
    requires
        st.pc == st.code.len(),
        st.pc <= usize::MAX,
    ensures
        appends(st, gen(n, st), bcode(n, st.pc as int)),
    decreases n, 1int,
{
    let b = st.pc as int;
    match n {
        Node::AnyChar => {
            assert(st.code.push(Instruction::Char(Char::Any)) =~= st.code + bcode(n, b));
        },
        Node::Char(c) => {
            assert(st.code.push(Instruction::Char(Char::Literal(c))) =~= st.code + bcode(n, b));
        },
        Node::Plus(e) => {
            lemma_gen_appends(*e, st);
            let (s1, e1) = gen(*e, st);
            if e1 is None {
                let (s2, e2) = inc(s1);
                if e2 is None {
                    let f = s2.code.push(Instruction::Split(st.pc as usize, s2.pc as usize));
                    assert(f =~= st.code + bcode(n, b));
                }
            }
        },
        Node::Star(e) => {
            let (s1, e1) = placeholder(st);
            if e1 is None {
                lemma_gen_appends(*e, s1);
                let (s2, e2) = gen(*e, s1);
                if e2 is None {
                    let (s3, e3) = emit(s2, Instruction::Jump(st.pc as usize));
                    if e3 is None {
                        let (s4, e4) = patch(s3, b, crate::basic::error::CompileError::FailStar);
                        assert(s3.code[b] == s1.code[b]);
                        if e4 is None {
                            assert(s4.code =~= st.code + bcode(n, b));
                        }
                    }
                }
            }
        },
        Node::Question(e) => {
            let (s1, e1) = placeholder(st);
            if e1 is None {
                lemma_gen_appends(*e, s1);
                let (s2, e2) = gen(*e, s1);
                if e2 is None {
                    let (s3, e3) = patch(s2, b, crate::basic::error::CompileError::FailQuestion);
                    assert(s2.code[b] == s1.code[b]);
                    if e3 is None {
                        assert(s3.code =~= st.code + bcode(n, b));
                    }
                }
            }
        },
        Node::Or(l0, r0) => {
            let l = *l0;
            let r = *r0;
            let (s1, e1) = placeholder(st);
            if e1 is None {
                lemma_gen_appends(l, s1);
                let (s2, e2) = gen(l, s1);
                if e2 is None {
                    let jc = s2.pc as int;
                    let (s3, e3) = emit(s2, Instruction::Jump(0));
                    if e3 is None {
                        let (s4, e4) = patch(s3, b, crate::basic::error::CompileError::FailOr);
                        assert(s3.code[b] == s1.code[b]);
                        if e4 is None {
                            lemma_gen_appends(r, s4);
                            let (s5, e5) = gen(r, s4);
                            if e5 is None {
                                let (s6, e6) = patch(s5, jc, crate::basic::error::CompileError::FailOr);
                                assert(s5.code[jc] == s4.code[jc]);
                                if e6 is None {
                                    assert(s6.code =~= st.code + bcode(n, b));
                                }
                            }
                        }
                    }
                }
            }
        },
        Node::Sequence(items) => {
            lemma_gen_list_appends(items, st);
        },
    }
}

/// What compiling a whole tree lays out: the code of the tree and `match`.
pub proof fn lemma_program_code(n: Node)
    requires
        gen_program(n, CState { pc: 0, code: Seq::empty() }).1 is None,
    ensures
        gen_program(n, CState { pc: 0, code: Seq::empty() }).0.code == bcode(n, 0).push(Instruction::Match),
        bcode(n, 0).len() < usize::MAX,
{
    let st = CState { pc: 0, code: Seq::empty() };
    lemma_gen_appends(n, st);
    assert(Seq::<Instruction>::empty() + bcode(n, 0) =~= bcode(n, 0));
}

/// `code` stands in `prog` from address `base` on.
pub open spec fn laid(prog: Seq<Instruction>, code: Seq<Instruction>, base: int) -> bool {
    &&& 0 <= base
    &&& base + code.len() <= prog.len()
    &&& prog.subrange(base, base + code.len()) == code
}

proof fn lemma_laid_split(prog: Seq<Instruction>, a: Seq<Instruction>, b: Seq<Instruction>, base: int)
    requires
        laid(prog, a + b, base),
    ensures
        laid(prog, a, base),
        laid(prog, b, base + a.len()),
{
    let whole = prog.subrange(base, base + a.len() + b.len());
    assert(whole == a + b);
    assert(prog.subrange(base, base + a.len()) =~= a) by {
        assert forall|i: int| 0 <= i < a.len() implies prog.subrange(base, base + a.len())[i] == a[i] by {
            assert(whole[i] == (a + b)[i]);
        }
    }
    assert(prog.subrange(base + a.len(), base + a.len() + b.len()) =~= b) by {
        assert forall|i: int| 0 <= i < b.len() implies prog.subrange(base + a.len(), base + a.len() + b.len())[i]
            == b[i] by {
            assert(whole[a.len() + i] == (a + b)[a.len() + i]);
        }
    }
}

proof fn lemma_laid_at(prog: Seq<Instruction>, code: Seq<Instruction>, base: int, i: int)
    requires
        laid(prog, code, base),
        0 <= i < code.len(),
    ensures
        prog[base + i] == code[i],
{
    assert(prog.subrange(base, base + code.len())[i] == code[i]);
}

/// Some sequence of steps goes from `a` to `b`.
pub open spec fn goes(prog: Seq<Instruction>, s: Seq<char>, a: (int, int), b: (int, int)) -> bool {
    exists|p: Seq<(int, int)>| #[trigger] is_path(prog, s, p) && p[0] == a && p[p.len() - 1] == b
}

proof fn lemma_goes_self(prog: Seq<Instruction>, s: Seq<char>, a: (int, int))
    ensures
        goes(prog, s, a, a),
{
    let p = seq![a];
    assert(is_path(prog, s, p) && p[0] == a && p[p.len() - 1] == a);
}

proof fn lemma_goes_step(prog: Seq<Instruction>, s: Seq<char>, a: (int, int), b: (int, int))
    requires
        steps_to(prog, s, a, b),
    ensures
        goes(prog, s, a, b),
{
    let p = seq![a, b];
    assert(steps_to(prog, s, p[0], p[1]));
    assert(is_path(prog, s, p) && p[0] == a && p[p.len() - 1] == b);
}

proof fn lemma_goes_trans(prog: Seq<Instruction>, s: Seq<char>, a: (int, int), b: (int, int), c: (int, int))
    requires
        goes(prog, s, a, b),
        goes(prog, s, b, c),
    ensures
        goes(prog, s, a, c),
{
    let p1 = choose|p: Seq<(int, int)>| #[trigger] is_path(prog, s, p) && p[0] == a && p[p.len() - 1] == b;
    let p2 = choose|p: Seq<(int, int)>| #[trigger] is_path(prog, s, p) && p[0] == b && p[p.len() - 1] == c;
    let p = p1 + p2.drop_first();
    assert forall|k: int| 0 <= k < p.len() - 1 implies #[trigger] steps_to(prog, s, p[k], p[k + 1]) by {
        if k < p1.len() - 1 {
            assert(steps_to(prog, s, p1[k], p1[k + 1]));
            assert(p[k] == p1[k] && p[k + 1] == p1[k + 1]);
        } else {
            let q = k - (p1.len() - 1);
            assert(steps_to(prog, s, p2[q], p2[q + 1]));
            assert(p[k] == p2[q] && p[k + 1] == p2[q + 1]);
        }
    }
    assert(is_path(prog, s, p) && p[0] == a && p[p.len() - 1] == c);
}

/// The code of `n` laid at `base` reads every text a derivation of `n`
/// shows: some sequence of steps goes from its first instruction at `i` to
/// its end at `j`.
pub proof fn lemma_bcode_reads(prog: Seq<Instruction>, s: Seq<char>, n: Node, d: Deriv, base: int, i: int, j: int)
    requires
        prog.len() <= usize::MAX,
        laid(prog, bcode(n, base), base),
        bderives(n, d, s, i, j),
    ensures
        goes(prog, s, (base, i), (base + bcode(n, base).len(), j)),
    decreases n, 0int, 0int,
{
    let c = bcode(n, base);
    let kids = d.parts;
    let pts = d.points;
    match n {
        Node::AnyChar => {
            lemma_laid_at(prog, c, base, 0);
            lemma_goes_step(prog, s, (base, i), (base + 1, j));
        },
        Node::Char(_) => {
            lemma_laid_at(prog, c, base, 0);
            lemma_goes_step(prog, s, (base, i), (base + 1, j));
        },
        Node::Plus(e) => {
            lemma_plus_reads(prog, s, *e, kids, pts, base);
        },
        Node::Star(e) => {
            lemma_star_reads(prog, s, *e, kids, pts, base);
        },
        Node::Question(e) => {
            let body = bcode(*e, base + 1);
            let head = seq![Instruction::Split((base + 1) as usize, (base + 1 + body.len()) as usize)];
            assert(c == head + body);
            lemma_laid_split(prog, head, body, base);
            lemma_laid_at(prog, head, base, 0);
            if kids.len() == 0 && i == j {
                lemma_goes_step(prog, s, (base, i), (base + 1 + body.len(), i));
            } else {
                lemma_goes_step(prog, s, (base, i), (base + 1, i));
                lemma_bcode_reads(prog, s, *e, kids[0], base + 1, i, j);
                lemma_goes_trans(prog, s, (base, i), (base + 1, i), (base + 1 + body.len(), j));
            }
        },
        Node::Or(l, r) => {
            let lc = bcode(*l, base + 1);
            let rb = base + 1 + lc.len() + 1;
            let rc = bcode(*r, rb);
            let head = seq![Instruction::Split((base + 1) as usize, rb as usize)];
            let jump = seq![Instruction::Jump((rb + rc.len()) as usize)];
            assert(c == head + lc + jump + rc);
            lemma_laid_split(prog, head + lc + jump, rc, base);
            lemma_laid_split(prog, head + lc, jump, base);
            lemma_laid_split(prog, head, lc, base);
            lemma_laid_at(prog, head, base, 0);
            lemma_laid_at(prog, jump, base + 1 + lc.len(), 0);
            if bderives(*l, kids[0], s, i, j) {
                lemma_goes_step(prog, s, (base, i), (base + 1, i));
                lemma_bcode_reads(prog, s, *l, kids[0], base + 1, i, j);
                lemma_goes_step(prog, s, (base + 1 + lc.len(), j), (rb + rc.len(), j));
                lemma_goes_trans(prog, s, (base, i), (base + 1, i), (base + 1 + lc.len(), j));
                lemma_goes_trans(prog, s, (base, i), (base + 1 + lc.len(), j), (rb + rc.len(), j));
            } else {
                lemma_goes_step(prog, s, (base, i), (rb, i));
                lemma_bcode_reads(prog, s, *r, kids[0], rb, i, j);
                lemma_goes_trans(prog, s, (base, i), (rb, i), (rb + rc.len(), j));
            }
        },
        Node::Sequence(items) => {
            lemma_blist_reads(prog, s, items, kids, pts, base);
        },
    }
}

proof fn lemma_star_reads(prog: Seq<Instruction>, s: Seq<char>, e: Node, kids: Seq<Deriv>, pts: Seq<int>, base: int)
    requires
        prog.len() <= usize::MAX,
        laid(prog, bcode(Node::Star(Box::new(e)), base), base),
        bchain(e, kids, pts, s),
    ensures
        goes(prog, s, (base, pts[0]), (base + bcode(Node::Star(Box::new(e)), base).len(), pts[kids.len() as int])),
    decreases e, 1int, kids.len(),
{
    let c = bcode(Node::Star(Box::new(e)), base);
    let body = bcode(e, base + 1);
    let out = base + 1 + body.len() + 1;
    let head = seq![Instruction::Split((base + 1) as usize, out as usize)];
    let tail = seq![Instruction::Jump(base as usize)];
    assert(c == head + body + tail);
    lemma_laid_split(prog, head + body, tail, base);
    lemma_laid_split(prog, head, body, base);
    lemma_laid_at(prog, head, base, 0);
    lemma_laid_at(prog, tail, base + 1 + body.len(), 0);
    let i = pts[0];
    if kids.len() == 0 {
        lemma_goes_step(prog, s, (base, i), (out, i));
    } else {
        let m = pts[1];
        lemma_goes_step(prog, s, (base, i), (base + 1, i));
        lemma_bcode_reads(prog, s, e, kids[0], base + 1, i, m);
        lemma_goes_step(prog, s, (base + 1 + body.len(), m), (base, m));
        lemma_star_reads(prog, s, e, kids.drop_first(), pts.drop_first(), base);
        lemma_goes_trans(prog, s, (base, i), (base + 1, i), (base + 1 + body.len(), m));
        lemma_goes_trans(prog, s, (base, i), (base + 1 + body.len(), m), (base, m));
        lemma_goes_trans(prog, s, (base, i), (base, m), (out, pts[kids.len() as int]));
    }
}

proof fn lemma_plus_reads(prog: Seq<Instruction>, s: Seq<char>, e: Node, kids: Seq<Deriv>, pts: Seq<int>, base: int)
    requires
        prog.len() <= usize::MAX,
        laid(prog, bcode(Node::Plus(Box::new(e)), base), base),
        kids.len() >= 1,
        bchain(e, kids, pts, s),
    ensures
        goes(prog, s, (base, pts[0]), (base + bcode(Node::Plus(Box::new(e)), base).len(), pts[kids.len() as int])),
    decreases e, 1int, kids.len(),
{
    let c = bcode(Node::Plus(Box::new(e)), base);
    let body = bcode(e, base);
    let out = base + body.len() + 1;
    let tail = seq![Instruction::Split(base as usize, out as usize)];
    assert(c == body + tail);
    lemma_laid_split(prog, body, tail, base);
    lemma_laid_at(prog, tail, base + body.len(), 0);
    let i = pts[0];
    let m = pts[1];
    lemma_bcode_reads(prog, s, e, kids[0], base, i, m);
    if kids.len() == 1 {
        lemma_goes_step(prog, s, (base + body.len(), m), (out, m));
        lemma_goes_trans(prog, s, (base, i), (base + body.len(), m), (out, m));
    } else {
        lemma_goes_step(prog, s, (base + body.len(), m), (base, m));
        lemma_plus_reads(prog, s, e, kids.drop_first(), pts.drop_first(), base);
        lemma_goes_trans(prog, s, (base, i), (base + body.len(), m), (base, m));
        lemma_goes_trans(prog, s, (base, i), (base, m), (out, pts[kids.len() as int]));
    }
}

proof fn lemma_blist_reads(prog: Seq<Instruction>, s: Seq<char>, items: Seq<Node>, kids: Seq<Deriv>, pts: Seq<int>, base: int)
    requires
        prog.len() <= usize::MAX,
        laid(prog, bcode_list(items, base), base),
        blist_chain(items, kids, pts, s),
    ensures
        goes(prog, s, (base, pts[0]), (base + bcode_list(items, base).len(), pts[items.len() as int])),
    decreases items, 0int, 0int,
{
    let n = items.len() as int;
    if n == 0 {
        lemma_goes_self(prog, s, (base, pts[0]));
    } else {
        let init = items.subrange(0, n - 1);
        let prev = bcode_list(init, base);
        let last = bcode(items[n - 1], base + prev.len());
        lemma_laid_split(prog, prev, last, base);
        let p1 = pts.subrange(0, n);
        lemma_blist_reads(prog, s, init, kids.subrange(0, n - 1), p1, base);
        assert(p1[0] == pts[0] && p1[n - 1] == pts[n - 1]);
        lemma_bcode_reads(prog, s, items[n - 1], kids[n - 1], base + prev.len(), pts[n - 1], pts[n]);
        lemma_goes_trans(
            prog,
            s,
            (base, pts[0]),
            (base + prev.len(), pts[n - 1]),
            (base + prev.len() + last.len(), pts[n]),
        );
    }
}

/// The compiled program of a basic tree finds every text the tree describes:
/// when the tree describes `s` from `i` to `j`, some sequence of steps from
/// the program's start at `i` reaches `match` at `j`, and so an accepting
/// state (at the end of the text, `blen`, when the end is anchored). So
/// `e+` accepts one or more texts of `e` one after another, and `e*` any
/// number of them.
pub proof fn law_basic_code_reads_spans(n: Node, s: Seq<char>, blen: nat, dollar: bool, i: int, j: int)
    requires
        gen_program(n, CState { pc: 0, code: Seq::empty() }).1 is None,
        bspans(n, s, i, j),
        dollar ==> j == blen,
    ensures
        reaches_match(gen_program(n, CState { pc: 0, code: Seq::empty() }).0.code, s, blen, dollar, 0, i),
{
    let prog = gen_program(n, CState { pc: 0, code: Seq::empty() }).0.code;
    lemma_program_code(n);
    let c = bcode(n, 0);
    assert(prog.subrange(0, c.len() as int) =~= c);
    let d = choose|d: Deriv| #[trigger] bderives(n, d, s, i, j);
    lemma_bcode_reads(prog, s, n, d, 0, i, j);
    let p = choose|p: Seq<(int, int)>| #[trigger] is_path(prog, s, p) && p[0] == (0int, i) && p[p.len() - 1] == (
        c.len() as int,
        j,
    );
    assert(accepting(prog, blen, dollar, p[p.len() - 1]));
}

/// A jump or split at an address of `lo..hi` goes into `lo..=hi`, and no
/// instruction there is `match`.
pub open spec fn btarget_ok(ins: Instruction, lo: int, hi: int) -> bool {
    match ins {
        Instruction::Split(x, y) => lo <= x <= hi && lo <= y <= hi,
        Instruction::Jump(x) => lo <= x <= hi,
        Instruction::Match => false,
        _ => true,
    }
}

/// Every instruction of `code` keeps to `lo..=hi`.
pub open spec fn btargets_in(code: Seq<Instruction>, lo: int, hi: int) -> bool {
    forall|k: int| 0 <= k < code.len() ==> #[trigger] btarget_ok(code[k], lo, hi)
}

proof fn lemma_btargets_join(a: Seq<Instruction>, b: Seq<Instruction>, lo: int, hi: int)
    requires
        btargets_in(a, lo, hi),
        btargets_in(b, lo, hi),
    ensures
        btargets_in(a + b, lo, hi),
{
    assert forall|k: int| 0 <= k < (a + b).len() implies #[trigger] btarget_ok((a + b)[k], lo, hi) by {
        if k < a.len() {
            assert((a + b)[k] == a[k]);
        } else {
            assert((a + b)[k] == b[k - a.len()]);
        }
    }
}

proof fn lemma_btargets_widen(a: Seq<Instruction>, lo: int, hi: int, lo2: int, hi2: int)
    requires
        btargets_in(a, lo, hi),
        lo2 <= lo,
        hi <= hi2,
    ensures
        btargets_in(a, lo2, hi2),
{
    assert forall|k: int| 0 <= k < a.len() implies #[trigger] btarget_ok(a[k], lo2, hi2) by {
        assert(btarget_ok(a[k], lo, hi));
    }
}

/// The code of a tree keeps to its own addresses and its end.
pub proof fn lemma_bcode_targets(n: Node, base: int)
    requires
        0 <= base,
        base + bcode(n, base).len() <= usize::MAX,
    ensures
        btargets_in(bcode(n, base), base, base + bcode(n, base).len()),
    decreases n, 0int,
{
    let c = bcode(n, base);
    let hi = base + c.len();
    match n {
        Node::AnyChar => {
            assert(btarget_ok(c[0], base, hi));
        },
        Node::Char(_) => {
            assert(btarget_ok(c[0], base, hi));
        },
        Node::Plus(e) => {
            let body = bcode(*e, base);
            let tail = seq![Instruction::Split(base as usize, (base + body.len() + 1) as usize)];
            lemma_bcode_targets(*e, base);
            lemma_btargets_widen(body, base, base + body.len(), base, hi);
            assert(btarget_ok(tail[0], base, hi));
            lemma_btargets_join(body, tail, base, hi);
            assert(c == body + tail);
        },
        Node::Star(e) => {
            let body = bcode(*e, base + 1);
            let head = seq![Instruction::Split((base + 1) as usize, (base + 1 + body.len() + 1) as usize)];
            let tail = seq![Instruction::Jump(base as usize)];
            lemma_bcode_targets(*e, base + 1);
            lemma_btargets_widen(body, base + 1, base + 1 + body.len(), base, hi);
            assert(btarget_ok(head[0], base, hi));
            assert(btarget_ok(tail[0], base, hi));
            lemma_btargets_join(head, body, base, hi);
            lemma_btargets_join(head + body, tail, base, hi);
            assert(c == head + body + tail);
        },
        Node::Question(e) => {
            let body = bcode(*e, base + 1);
            let head = seq![Instruction::Split((base + 1) as usize, (base + 1 + body.len()) as usize)];
            lemma_bcode_targets(*e, base + 1);
            lemma_btargets_widen(body, base + 1, base + 1 + body.len(), base, hi);
            assert(btarget_ok(head[0], base, hi));
            lemma_btargets_join(head, body, base, hi);
            assert(c == head + body);
        },
        Node::Or(l, r) => {
            let lc = bcode(*l, base + 1);
            let rb = base + 1 + lc.len() + 1;
            let rc = bcode(*r, rb);
            let head = seq![Instruction::Split((base + 1) as usize, rb as usize)];
            let jump = seq![Instruction::Jump((rb + rc.len()) as usize)];
            lemma_bcode_targets(*l, base + 1);
            lemma_bcode_targets(*r, rb);
            lemma_btargets_widen(lc, base + 1, base + 1 + lc.len(), base, hi);
            lemma_btargets_widen(rc, rb, rb + rc.len(), base, hi);
            assert(btarget_ok(head[0], base, hi));
            assert(btarget_ok(jump[0], base, hi));
            lemma_btargets_join(head, lc, base, hi);
            lemma_btargets_join(head + lc, jump, base, hi);
            lemma_btargets_join(head + lc + jump, rc, base, hi);
            assert(c == head + lc + jump + rc);
        },
        Node::Sequence(items) => {
            lemma_blist_targets(items, base);
        },
    }
}

proof fn lemma_blist_targets(items: Seq<Node>, base: int)
    requires
        0 <= base,
        base + bcode_list(items, base).len() <= usize::MAX,
    ensures
        btargets_in(bcode_list(items, base), base, base + bcode_list(items, base).len()),
    decreases items, 0int,
{
    if items.len() > 0 {
        let init = items.subrange(0, items.len() - 1);
        let prev = bcode_list(init, base);
        let last = bcode(items[items.len() - 1], base + prev.len());
        let hi = base + prev.len() + last.len();
        lemma_blist_targets(init, base);
        lemma_bcode_targets(items[items.len() - 1], base + prev.len());
        lemma_btargets_widen(prev, base, base + prev.len(), base, hi);
        lemma_btargets_widen(last, base + prev.len(), hi, base, hi);
        lemma_btargets_join(prev, last, base, hi);
    }
}

/// A sequence of steps that starts at `lo`, stays in `lo..hi` and ends at `hi`.
pub open spec fn bcrosses(prog: Seq<Instruction>, s: Seq<char>, p: Seq<(int, int)>, lo: int, hi: int) -> bool {
    &&& is_path(prog, s, p)
    &&& p[0].0 == lo
    &&& p[p.len() - 1].0 == hi
    &&& forall|k: int| 0 <= k < p.len() - 1 ==> lo <= #[trigger] p[k].0 < hi
}

proof fn lemma_benter_from(prog: Seq<Instruction>, s: Seq<char>, p: Seq<(int, int)>, k: int, j: int, lo: int, hi: int) -> (f: int)
    requires
        is_path(prog, s, p),
        forall|pc: int| lo <= pc < hi ==> #[trigger] btarget_ok(prog[pc], lo, hi),
        0 <= lo <= hi <= prog.len(),
        0 <= k <= j < p.len(),
        !(lo <= p[p.len() - 1].0 < hi),
        forall|i: int| k <= i < j ==> lo <= #[trigger] p[i].0 < hi,
        lo <= p[j].0 <= hi,
    ensures
        j <= f < p.len(),
        p[f].0 == hi,
        forall|i: int| k <= i < f ==> lo <= #[trigger] p[i].0 < hi,
    decreases p.len() - j,
{
    if p[j].0 == hi {
        j
    } else {
        assert(j < p.len() - 1);
        assert(steps_to(prog, s, p[j], p[j + 1]));
        assert(btarget_ok(prog[p[j].0], lo, hi));
        lemma_benter_from(prog, s, p, k, j + 1, lo, hi)
    }
}

/// A sequence of steps that reaches the start of a code block laid in the
/// program, and ends outside it, crosses the block.
proof fn lemma_benter(prog: Seq<Instruction>, s: Seq<char>, p: Seq<(int, int)>, k: int, code: Seq<Instruction>, lo: int) -> (f: int)
    requires
        prog.len() <= usize::MAX,
        is_path(prog, s, p),
        laid(prog, code, lo),
        btargets_in(code, lo, lo + code.len()),
        0 <= k < p.len(),
        p[k].0 == lo,
        !(lo <= p[p.len() - 1].0 < lo + code.len()),
    ensures
        k <= f < p.len(),
        bcrosses(prog, s, p.subrange(k, f + 1), lo, lo + code.len()),
{
    let hi = lo + code.len();
    assert forall|pc: int| lo <= pc < hi implies #[trigger] btarget_ok(prog[pc], lo, hi) by {
        lemma_laid_at(prog, code, lo, pc - lo);
        assert(btarget_ok(code[pc - lo], lo, hi));
    }
    let f = lemma_benter_from(prog, s, p, k, k, lo, hi);
    let sub = p.subrange(k, f + 1);
    assert forall|i: int| 0 <= i < sub.len() - 1 implies #[trigger] steps_to(prog, s, sub[i], sub[i + 1]) by {
        assert(steps_to(prog, s, p[k + i], p[k + i + 1]));
        assert(sub[i] == p[k + i] && sub[i + 1] == p[k + i + 1]);
    }
    assert forall|i: int| 0 <= i < sub.len() - 1 implies lo <= #[trigger] sub[i].0 < hi by {
        assert(sub[i] == p[k + i]);
    }
    f
}

proof fn lemma_bpiece(prog: Seq<Instruction>, s: Seq<char>, p: Seq<(int, int)>, a: int, b: int, lo: int, hi: int)
    requires
        is_path(prog, s, p),
        0 <= a <= b < p.len(),
        p[a].0 == lo,
        p[b].0 == hi,
        forall|k: int| a <= k < b ==> lo <= #[trigger] p[k].0 < hi,
    ensures
        bcrosses(prog, s, p.subrange(a, b + 1), lo, hi),
{
    let sub = p.subrange(a, b + 1);
    assert forall|k: int| 0 <= k < sub.len() - 1 implies #[trigger] steps_to(prog, s, sub[k], sub[k + 1]) by {
        assert(steps_to(prog, s, p[a + k], p[a + k + 1]));
        assert(sub[k] == p[a + k] && sub[k + 1] == p[a + k + 1]);
    }
    assert forall|k: int| 0 <= k < sub.len() - 1 implies lo <= #[trigger] sub[k].0 < hi by {
        assert(sub[k] == p[a + k]);
    }
}

proof fn lemma_bchain_push(e: Node, kids: Seq<Deriv>, pts: Seq<int>, s: Seq<char>, d: Deriv, j: int)
    requires
        bchain(e, kids, pts, s),
        bderives(e, d, s, pts[kids.len() as int], j),
    ensures
        bchain(e, kids.push(d), pts.push(j), s),
    decreases kids.len(),
{
    if kids.len() > 0 {
        lemma_bchain_push(e, kids.drop_first(), pts.drop_first(), s, d, j);
        assert(kids.push(d).drop_first() =~= kids.drop_first().push(d));
        assert(pts.push(j).drop_first() =~= pts.drop_first().push(j));
    } else {
        assert(bchain(e, Seq::<Deriv>::empty(), seq![j], s));
        assert(kids.push(d).drop_first() =~= Seq::<Deriv>::empty());
        assert(pts.push(j).drop_first() =~= seq![j]);
    }
}

/// Every sequence of steps across the code of a tree reads a text the tree
/// describes: a derivation from where it enters to where it leaves.
pub proof fn lemma_bcode_derives(prog: Seq<Instruction>, s: Seq<char>, n: Node, base: int, p: Seq<(int, int)>) -> (d: Deriv)
    requires
        prog.len() <= usize::MAX,
        laid(prog, bcode(n, base), base),
        bcrosses(prog, s, p, base, base + bcode(n, base).len()),
    ensures
        bderives(n, d, s, p[0].1, p[p.len() - 1].1),
    decreases n, 0int, 0int,
{
    let c = bcode(n, base);
    let hi = base + c.len();
    let last = p.len() - 1;
    let none = Deriv { points: seq![], parts: seq![] };
    match n {
        Node::AnyChar => {
            lemma_laid_at(prog, c, base, 0);
            assert(steps_to(prog, s, p[0], p[1]));
            assert(p[1].0 == hi);
            assert(last == 1);
            none
        },
        Node::Char(_) => {
            lemma_laid_at(prog, c, base, 0);
            assert(steps_to(prog, s, p[0], p[1]));
            assert(p[1].0 == hi);
            assert(last == 1);
            none
        },
        Node::Plus(e) => {
            let (kids, pts) = lemma_bplus_derives(prog, s, *e, base, p);
            Deriv { points: pts, parts: kids }
        },
        Node::Star(e) => {
            let (kids, pts) = lemma_bstar_derives(prog, s, *e, base, p);
            Deriv { points: pts, parts: kids }
        },
        Node::Question(e) => {
            let body = bcode(*e, base + 1);
            let head = seq![Instruction::Split((base + 1) as usize, (base + 1 + body.len()) as usize)];
            assert(c == head + body);
            lemma_laid_split(prog, head, body, base);
            lemma_laid_at(prog, head, base, 0);
            assert(steps_to(prog, s, p[0], p[1]));
            if p[1].0 == hi {
                assert(last == 1);
                none
            } else {
                lemma_bcode_targets(*e, base + 1);
                let f = lemma_benter(prog, s, p, 1, body, base + 1);
                assert(f == last);
                let d0 = lemma_bcode_derives(prog, s, *e, base + 1, p.subrange(1, f + 1));
                Deriv { points: seq![], parts: seq![d0] }
            }
        },
        Node::Or(l, r) => {
            let lc = bcode(*l, base + 1);
            let rb = base + 1 + lc.len() + 1;
            let rc = bcode(*r, rb);
            let head = seq![Instruction::Split((base + 1) as usize, rb as usize)];
            let jump = seq![Instruction::Jump((rb + rc.len()) as usize)];
            assert(c == head + lc + jump + rc);
            lemma_laid_split(prog, head + lc + jump, rc, base);
            lemma_laid_split(prog, head + lc, jump, base);
            lemma_laid_split(prog, head, lc, base);
            lemma_laid_at(prog, head, base, 0);
            lemma_laid_at(prog, jump, base + 1 + lc.len(), 0);
            assert(steps_to(prog, s, p[0], p[1]));
            if p[1].0 == base + 1 {
                lemma_bcode_targets(*l, base + 1);
                let f = lemma_benter(prog, s, p, 1, lc, base + 1);
                let d0 = lemma_bcode_derives(prog, s, *l, base + 1, p.subrange(1, f + 1));
                assert(steps_to(prog, s, p[f], p[f + 1]));
                assert(p[f + 1].0 == hi);
                assert(f + 1 == last);
                Deriv { points: seq![], parts: seq![d0] }
            } else {
                lemma_bcode_targets(*r, rb);
                let f = lemma_benter(prog, s, p, 1, rc, rb);
                assert(f == last);
                let d0 = lemma_bcode_derives(prog, s, *r, rb, p.subrange(1, f + 1));
                Deriv { points: seq![], parts: seq![d0] }
            }
        },
        Node::Sequence(items) => {
            let (kids, pts) = lemma_blist_derives(prog, s, items, base, p);
            Deriv { points: pts, parts: kids }
        },
    }
}

proof fn lemma_bstar_derives(prog: Seq<Instruction>, s: Seq<char>, e: Node, base: int, p: Seq<(int, int)>) -> (r: (Seq<Deriv>, Seq<int>))
    requires
        prog.len() <= usize::MAX,
        laid(prog, bcode(Node::Star(Box::new(e)), base), base),
        bcrosses(prog, s, p, base, base + bcode(Node::Star(Box::new(e)), base).len()),
    ensures
        bchain(e, r.0, r.1, s),
        r.1[0] == p[0].1,
        r.1[r.0.len() as int] == p[p.len() - 1].1,
    decreases e, 1int, p.len(),
{
    let c = bcode(Node::Star(Box::new(e)), base);
    let body = bcode(e, base + 1);
    let out = base + 1 + body.len() + 1;
    let head = seq![Instruction::Split((base + 1) as usize, out as usize)];
    let tail = seq![Instruction::Jump(base as usize)];
    let last = p.len() - 1;
    assert(c == head + body + tail);
    lemma_laid_split(prog, head + body, tail, base);
    lemma_laid_split(prog, head, body, base);
    lemma_laid_at(prog, head, base, 0);
    lemma_laid_at(prog, tail, base + 1 + body.len(), 0);
    assert(steps_to(prog, s, p[0], p[1]));
    let i = p[0].1;
    if p[1].0 == out {
        assert(last == 1);
        (seq![], seq![i])
    } else {
        lemma_bcode_targets(e, base + 1);
        let f = lemma_benter(prog, s, p, 1, body, base + 1);
        let d0 = lemma_bcode_derives(prog, s, e, base + 1, p.subrange(1, f + 1));
        assert(steps_to(prog, s, p[f], p[f + 1]));
        lemma_bpiece(prog, s, p, f + 1, last, base, out);
        let (k2, p2) = lemma_bstar_derives(prog, s, e, base, p.subrange(f + 1, last + 1));
        let kids = seq![d0] + k2;
        let pts = seq![i] + p2;
        assert(kids.drop_first() =~= k2);
        assert(pts.drop_first() =~= p2);
        assert(kids[0] == d0 && pts[1] == p2[0]);
        (kids, pts)
    }
}

proof fn lemma_bplus_derives(prog: Seq<Instruction>, s: Seq<char>, e: Node, base: int, p: Seq<(int, int)>) -> (r: (Seq<Deriv>, Seq<int>))
    requires
        prog.len() <= usize::MAX,
        laid(prog, bcode(Node::Plus(Box::new(e)), base), base),
        bcrosses(prog, s, p, base, base + bcode(Node::Plus(Box::new(e)), base).len()),
    ensures
        r.0.len() >= 1,
        bchain(e, r.0, r.1, s),
        r.1[0] == p[0].1,
        r.1[r.0.len() as int] == p[p.len() - 1].1,
    decreases e, 1int, p.len(),
{
    let c = bcode(Node::Plus(Box::new(e)), base);
    let body = bcode(e, base);
    let out = base + body.len() + 1;
    let tail = seq![Instruction::Split(base as usize, out as usize)];
    let last = p.len() - 1;
    assert(c == body + tail);
    lemma_laid_split(prog, body, tail, base);
    lemma_laid_at(prog, tail, base + body.len(), 0);
    lemma_bcode_targets(e, base);
    let f = lemma_benter(prog, s, p, 0, body, base);
    let d0 = lemma_bcode_derives(prog, s, e, base, p.subrange(0, f + 1));
    assert(steps_to(prog, s, p[f], p[f + 1]));
    let i = p[0].1;
    let m = p[f].1;
    if p[f + 1].0 == out {
        assert(f + 1 == last);
        let kids = seq![d0];
        let pts = seq![i, m];
        assert(kids.drop_first() =~= Seq::<Deriv>::empty());
        assert(pts.drop_first() =~= seq![m]);
        assert(bchain(e, Seq::<Deriv>::empty(), seq![m], s));
        (kids, pts)
    } else {
        lemma_bpiece(prog, s, p, f + 1, last, base, out);
        let (k2, p2) = lemma_bplus_derives(prog, s, e, base, p.subrange(f + 1, last + 1));
        let kids = seq![d0] + k2;
        let pts = seq![i] + p2;
        assert(kids.drop_first() =~= k2);
        assert(pts.drop_first() =~= p2);
        assert(kids[0] == d0 && pts[1] == p2[0]);
        (kids, pts)
    }
}

proof fn lemma_blist_derives(prog: Seq<Instruction>, s: Seq<char>, items: Seq<Node>, base: int, p: Seq<(int, int)>) -> (r: (Seq<Deriv>, Seq<int>))
    requires
        prog.len() <= usize::MAX,
        laid(prog, bcode_list(items, base), base),
        bcrosses(prog, s, p, base, base + bcode_list(items, base).len()),
    ensures
        blist_chain(items, r.0, r.1, s),
        r.1[0] == p[0].1,
        r.1[items.len() as int] == p[p.len() - 1].1,
    decreases items, 0int, 0int,
{
    let last = p.len() - 1;
    let i = p[0].1;
    let n = items.len() as int;
    if n == 0 {
        (seq![], seq![i])
    } else {
        let init = items.subrange(0, n - 1);
        let prev = bcode_list(init, base);
        let lastc = bcode(items[n - 1], base + prev.len());
        lemma_laid_split(prog, prev, lastc, base);
        lemma_blist_targets(init, base);
        let f = lemma_benter(prog, s, p, 0, prev, base);
        let (k1, p1) = lemma_blist_derives(prog, s, init, base, p.subrange(0, f + 1));
        lemma_bcode_targets(items[n - 1], base + prev.len());
        let f2 = lemma_benter(prog, s, p, f, lastc, base + prev.len());
        assert(f2 == last);
        let d = lemma_bcode_derives(prog, s, items[n - 1], base + prev.len(), p.subrange(f, last + 1));
        let kids = k1.push(d);
        let pts = p1.push(p[last].1);
        assert(kids.subrange(0, n - 1) =~= k1);
        assert(pts.subrange(0, n) =~= p1);
        (kids, pts)
    }
}

/// The compiled program of a basic tree accepts only texts the tree
/// describes: every sequence of steps from the program's start at `i` that
/// ends at `match` at `j` reads a text the tree describes from `i` to `j`.
pub proof fn law_basic_code_reads_only_spans(n: Node, s: Seq<char>, p: Seq<(int, int)>)
    requires
        gen_program(n, CState { pc: 0, code: Seq::empty() }).1 is None,
        is_path(gen_program(n, CState { pc: 0, code: Seq::empty() }).0.code, s, p),
        p[0].0 == 0,
        gen_program(n, CState { pc: 0, code: Seq::empty() }).0.code[p[p.len() - 1].0] is Match,
        0 <= p[p.len() - 1].0 < gen_program(n, CState { pc: 0, code: Seq::empty() }).0.code.len(),
    ensures
        bspans(n, s, p[0].1, p[p.len() - 1].1),
{
    let prog = gen_program(n, CState { pc: 0, code: Seq::empty() }).0.code;
    lemma_program_code(n);
    let c = bcode(n, 0);
    let last = p.len() - 1;
    assert(prog.subrange(0, c.len() as int) =~= c);
    lemma_bcode_targets(n, 0);
    if p[last].0 < c.len() {
        lemma_laid_at(prog, c, 0, p[last].0);
        assert(btarget_ok(c[p[last].0], 0, c.len() as int));
    }
    let f = lemma_benter(prog, s, p, 0, c, 0);
    if f < last {
        assert(steps_to(prog, s, p[f], p[f + 1]));
    }
    let d = lemma_bcode_derives(prog, s, n, 0, p.subrange(0, f + 1));
    assert(bderives(n, d, s, p[0].1, p[last].1));
}

/// The compiled program of a basic tree accepts from position `i` exactly
/// when the tree describes a text from `i` (ending at `blen` when the end is
/// anchored).
pub proof fn law_basic_code_accepts_exactly_spans(n: Node, s: Seq<char>, blen: nat, dollar: bool, i: int)
    requires
        gen_program(n, CState { pc: 0, code: Seq::empty() }).1 is None,
    ensures
        reaches_match(gen_program(n, CState { pc: 0, code: Seq::empty() }).0.code, s, blen, dollar, 0, i)
            <==> exists|j: int| #[trigger] bspans(n, s, i, j) && (dollar ==> j == blen),
{
    let prog = gen_program(n, CState { pc: 0, code: Seq::empty() }).0.code;
    if reaches_match(prog, s, blen, dollar, 0, i) {
        let p = choose|p: Seq<(int, int)>|
            #[trigger] is_path(prog, s, p) && p[0] == (0int, i) && accepting(prog, blen, dollar, p[p.len() - 1]);
        law_basic_code_reads_only_spans(n, s, p);
        assert(bspans(n, s, i, p[p.len() - 1].1));
    }
    if exists|j: int| #[trigger] bspans(n, s, i, j) && (dollar ==> j == blen) {
        let j = choose|j: int| #[trigger] bspans(n, s, i, j) && (dollar ==> j == blen);
        law_basic_code_reads_spans(n, s, blen, dollar, i, j);
    }
}

} // verus!
