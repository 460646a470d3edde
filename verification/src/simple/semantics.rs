//! What the code generated for a plain tree accepts, against the text the
//! tree describes.
//!
//! An instruction `char c` reads the character `c` (in the plain language a
//! `.` is an ordinary character), `jump` goes to its target and `split` to
//! either target. `pspans(n, s, i, j)` says that the tree `n` describes the
//! characters of `s` from `i` to `j`: a character itself, a sequence the
//! texts of its items one after another, `|` the text of either side, `?` the
//! empty text or one text of its body, `*` any number of texts of its body,
//! `+` one or more.
//!
//! The laws show that the code the generator lays out for a tree reads
//! exactly the texts the tree describes.
use vstd::prelude::*;
use crate::basic::parser::Node;
use crate::engine::semantics::Deriv;
use crate::simple::codegen::{CodeGenError, GState, Instruction, emit, gen, gen_list, gen_program, open_split, patch_jump, patch_split};

verus! {

/// `d` shows that the tree `n` describes `s` from `i` to `j`.
pub open spec fn pderives(n: Node, d: Deriv, s: Seq<char>, i: int, j: int) -> bool
    decreases n, 0int, 0int,
{
    let kids = d.parts;
    let pts = d.points;
    match n {
        Node::AnyChar => 0 <= i < s.len() && s[i] == '.' && j == i + 1,
        Node::Char(c) => 0 <= i < s.len() && s[i] == c && j == i + 1,
        Node::Plus(e) => kids.len() >= 1 && pchain(*e, kids, pts, s) && pts[0] == i && pts[kids.len() as int]
            == j,
        Node::Star(e) => pchain(*e, kids, pts, s) && pts[0] == i && pts[kids.len() as int] == j,
        Node::Question(e) => (kids.len() == 0 && i == j) || (kids.len() >= 1 && pderives(*e, kids[0], s, i, j)),
        Node::Or(l, r) => kids.len() >= 1 && (pderives(*l, kids[0], s, i, j) || pderives(*r, kids[0], s, i, j)),
        Node::Sequence(items) => plist_chain(items, kids, pts, s) && pts[0] == i && pts[items.len() as int] == j,
    }
}

/// Each part `kids[t]` derives a text of `e` from `pts[t]` to `pts[t + 1]`.
pub open spec fn pchain(e: Node, kids: Seq<Deriv>, pts: Seq<int>, s: Seq<char>) -> bool
    decreases e, 1int, kids.len(),
{
    pts.len() == kids.len() + 1 && (kids.len() == 0 || (pderives(e, kids[0], s, pts[0], pts[1]) && pchain(
        e,
        kids.drop_first(),
        pts.drop_first(),
        s,
    )))
}

/// Each part `kids[t]` derives a text of `items[t]` from `pts[t]` to
/// `pts[t + 1]`.
pub open spec fn plist_chain(items: Seq<Node>, kids: Seq<Deriv>, pts: Seq<int>, s: Seq<char>) -> bool
    decreases items, 0int, 0int,
{
    let n = items.len();
    pts.len() == n + 1 && kids.len() == n && (n == 0 || (plist_chain(
        items.subrange(0, n - 1),
        kids.subrange(0, n - 1),
        pts.subrange(0, n as int),
        s,
    ) && pderives(items[n - 1], kids[n - 1], s, pts[n - 1], pts[n as int])))
}

/// The tree `n` describes `s` from position `i` to position `j`.
pub open spec fn pspans(n: Node, s: Seq<char>, i: int, j: int) -> bool {
    exists|d: Deriv| #[trigger] pderives(n, d, s, i, j)
}

/// The code the generator lays out for `n` from address `b`.
pub open spec fn pcode(n: Node, b: int) -> Seq<Instruction>
    decreases n, 0int,
{
    match n {
        Node::AnyChar => seq![Instruction::Char('.')],
        Node::Char(c) => seq![Instruction::Char(c)],
        Node::Plus(e) => {
            let body = pcode(*e, b);
            body + seq![Instruction::Split(b as usize, (b + body.len() + 1) as usize)]
        },
        Node::Star(e) => {
            let body = pcode(*e, b + 1);
            seq![Instruction::Split((b + 1) as usize, (b + 1 + body.len() + 1) as usize)] + body + seq![
                Instruction::Jump(b as usize),
            ]
        },
        Node::Question(e) => {
            let body = pcode(*e, b + 1);
            seq![Instruction::Split((b + 1) as usize, (b + 1 + body.len()) as usize)] + body
        },
        Node::Or(l, r) => {
            let lc = pcode(*l, b + 1);
            let rb = b + 1 + lc.len() + 1;
            let rc = pcode(*r, rb);
            seq![Instruction::Split((b + 1) as usize, rb as usize)] + lc + seq![
                Instruction::Jump((rb + rc.len()) as usize),
            ] + rc
        },
        Node::Sequence(items) => pcode_list(items, b),
    }
}

/// The codes of `items`, one after another from `b`.
pub open spec fn pcode_list(items: Seq<Node>, b: int) -> Seq<Instruction>
    decreases items, 0int,
{
    if items.len() == 0 {
        Seq::empty()
    } else {
        let prev = pcode_list(items.subrange(0, items.len() - 1), b);
        prev + pcode(items[items.len() - 1], b + prev.len())
    }
}

/// A generator step that succeeds appends `code` and keeps the counter at the
/// end of the instructions.
pub open spec fn appends(st: GState, o: (GState, Option<CodeGenError>), code: Seq<Instruction>) -> bool {
    o.1 is None ==> {
        &&& o.0.code == st.code + code
        &&& o.0.pc == o.0.code.len()
        &&& o.0.pc <= usize::MAX
    }
}

proof fn lemma_pgen_list_appends(items: Seq<Node>, st: GState)
    requires
        st.pc == st.code.len(),
        st.pc <= usize::MAX,
    ensures
        appends(st, gen_list(items, st), pcode_list(items, st.pc as int)),
    decreases items, 0int,
{
    if items.len() == 0 {
        assert(st.code + Seq::<Instruction>::empty() =~= st.code);
    } else {
        let init = items.subrange(0, items.len() - 1);
        lemma_pgen_list_appends(init, st);
        let (s1, e1) = gen_list(init, st);
        if e1 is None {
            lemma_pgen_appends(items[items.len() - 1], s1);
            let prev = pcode_list(init, st.pc as int);
            assert(s1.pc == st.pc + prev.len());
            let (s2, e2) = gen(items[items.len() - 1], s1);
            if e2 is None {
                assert(s2.code =~= st.code + pcode_list(items, st.pc as int));
            }
        }
    }
}

proof fn lemma_pgen_appends(n: Node, st: GState)
    requires
        st.pc == st.code.len(),
        st.pc <= usize::MAX,
    ensures
        appends(st, gen(n, st), pcode(n, st.pc as int)),
    decreases n, 1int,
{
    let b = st.pc as int;
    match n {
        Node::AnyChar => {
            assert(st.code.push(Instruction::Char('.')) =~= st.code + pcode(n, b));
        },
        Node::Char(c) => {
            assert(st.code.push(Instruction::Char(c)) =~= st.code + pcode(n, b));
        },
        Node::Plus(e) => {
            lemma_pgen_appends(*e, st);
            let (s1, e1) = gen(*e, st);
            if e1 is None && s1.pc < usize::MAX {
                let f = s1.code.push(Instruction::Split(st.pc as usize, (s1.pc + 1) as usize));
                assert(f =~= st.code + pcode(n, b));
            }
        },
        Node::Star(e) => {
            let (s1, e1) = open_split(st);
            if e1 is None {
                lemma_pgen_appends(*e, s1);
                let (s2, e2) = gen(*e, s1);
                if e2 is None {
                    let (s3, e3) = emit(s2, Instruction::Jump(st.pc as usize));
                    if e3 is None {
                        let (s4, e4) = patch_split(s3, b, CodeGenError::FailStar);
                        assert(s3.code[b] == s1.code[b]);
                        if e4 is None {
                            assert(s4.code =~= st.code + pcode(n, b));
                        }
                    }
                }
            }
        },
        Node::Question(e) => {
            let (s1, e1) = open_split(st);
            if e1 is None {
                lemma_pgen_appends(*e, s1);
                let (s2, e2) = gen(*e, s1);
                if e2 is None {
                    let (s3, e3) = patch_split(s2, b, CodeGenError::FailQuestion);
                    assert(s2.code[b] == s1.code[b]);
                    if e3 is None {
                        assert(s3.code =~= st.code + pcode(n, b));
                    }
                }
            }
        },
        Node::Or(l0, r0) => {
            let l = *l0;
            let r = *r0;
            let (s1, e1) = open_split(st);
            if e1 is None {
                lemma_pgen_appends(l, s1);
                let (s2, e2) = gen(l, s1);
                if e2 is None {
                    let jc = s2.pc as int;
                    let (s3, e3) = emit(s2, Instruction::Jump(0));
                    if e3 is None {
                        let (s4, e4) = patch_split(s3, b, CodeGenError::FailOr);
                        assert(s3.code[b] == s1.code[b]);
                        if e4 is None {
                            lemma_pgen_appends(r, s4);
                            let (s5, e5) = gen(r, s4);
                            if e5 is None {
                                let (s6, e6) = patch_jump(s5, jc, CodeGenError::FailOr);
                                assert(s5.code[jc] == s4.code[jc]);
                                if e6 is None {
                                    assert(s6.code =~= st.code + pcode(n, b));
                                }
                            }
                        }
                    }
                }
            }
        },
        Node::Sequence(items) => {
            lemma_pgen_list_appends(items, st);
        },
    }
}

/// What generating a whole tree lays out: the code of the tree and `match`.
pub proof fn lemma_plain_program_code(n: Node)
    requires
        gen_program(n, GState { pc: 0, code: Seq::empty() }).1 is None,
    ensures
        gen_program(n, GState { pc: 0, code: Seq::empty() }).0.code == pcode(n, 0).push(Instruction::Match),
        pcode(n, 0).len() < usize::MAX,
{
    let st = GState { pc: 0, code: Seq::empty() };
    lemma_pgen_appends(n, st);
    assert(Seq::<Instruction>::empty() + pcode(n, 0) =~= pcode(n, 0));
}

/// One step from the address and position `a` to `b`: `char c` reads `c`,
/// `jump` goes to its target, `split` to either target.
pub open spec fn psteps_to(prog: Seq<Instruction>, s: Seq<char>, a: (int, int), b: (int, int)) -> bool {
    0 <= a.0 < prog.len() && match prog[a.0] {
        Instruction::Char(c) => 0 <= a.1 < s.len() && s[a.1] == c && b == (a.0 + 1, a.1 + 1),
        Instruction::Jump(x) => b == (x as int, a.1),
        Instruction::Split(x, y) => b == (x as int, a.1) || b == (y as int, a.1),
        Instruction::Match => false,
    }
}

/// A sequence of steps.
pub open spec fn is_ppath(prog: Seq<Instruction>, s: Seq<char>, p: Seq<(int, int)>) -> bool {
    &&& p.len() > 0
    &&& forall|k: int| 0 <= k < p.len() - 1 ==> #[trigger] psteps_to(prog, s, p[k], p[k + 1])
}

/// Some sequence of steps from the start at `i` reaches `match`.
pub open spec fn preaches_match(prog: Seq<Instruction>, s: Seq<char>, i: int) -> bool {
    exists|p: Seq<(int, int)>|
        #[trigger] is_ppath(prog, s, p) && p[0] == (0int, i) && 0 <= p[p.len() - 1].0 < prog.len()
            && prog[p[p.len() - 1].0] is Match
}

/// `code` stands in `prog` from address `base` on.
pub open spec fn plaid(prog: Seq<Instruction>, code: Seq<Instruction>, base: int) -> bool {
    &&& 0 <= base
    &&& base + code.len() <= prog.len()
    &&& prog.subrange(base, base + code.len()) == code
}

proof fn lemma_plaid_split(prog: Seq<Instruction>, a: Seq<Instruction>, b: Seq<Instruction>, base: int)
    requires
        plaid(prog, a + b, base),
    ensures
        plaid(prog, a, base),
        plaid(prog, b, base + a.len()),
{
    let whole = prog.subrange(base, base + a.len() + b.len());
    assert(whole == a + b);
    assert(prog.subrange(base, base + a.len()) =~= a) by {
        assert forall|i: int| 0 <= i < a.len() implies prog.subrange(base, base + a.len())[i] == a[i] by {
            assert(whole[i] == (a + b)[i]);
        }
    }
    assert(prog.subrange(base + a.len(), base + a.len() + b.len()) =~= b) by {
        assert forall|i: int| 0 <= i < b.len() implies prog.subrange(base + a.len(), base + a.len() + b.len())[i]
            == b[i] by {
            assert(whole[a.len() + i] == (a + b)[a.len() + i]);
        }
    }
}

proof fn lemma_plaid_at(prog: Seq<Instruction>, code: Seq<Instruction>, base: int, i: int)
    requires
        plaid(prog, code, base),
        0 <= i < code.len(),
    ensures
        prog[base + i] == code[i],
{
    assert(prog.subrange(base, base + code.len())[i] == code[i]);
}

/// Some sequence of steps goes from `a` to `b`.
pub open spec fn pgoes(prog: Seq<Instruction>, s: Seq<char>, a: (int, int), b: (int, int)) -> bool {
    exists|p: Seq<(int, int)>| #[trigger] is_ppath(prog, s, p) && p[0] == a && p[p.len() - 1] == b
}

proof fn lemma_pgoes_self(prog: Seq<Instruction>, s: Seq<char>, a: (int, int))
    ensures
        pgoes(prog, s, a, a),
{
    let p = seq![a];
    assert(is_ppath(prog, s, p) && p[0] == a && p[p.len() - 1] == a);
}

proof fn lemma_pgoes_step(prog: Seq<Instruction>, s: Seq<char>, a: (int, int), b: (int, int))
    requires
        psteps_to(prog, s, a, b),
    ensures
        pgoes(prog, s, a, b),
{
    let p = seq![a, b];
    assert(psteps_to(prog, s, p[0], p[1]));
    assert(is_ppath(prog, s, p) && p[0] == a && p[p.len() - 1] == b);
}

proof fn lemma_pgoes_trans(prog: Seq<Instruction>, s: Seq<char>, a: (int, int), b: (int, int), c: (int, int))
    requires
        pgoes(prog, s, a, b),
        pgoes(prog, s, b, c),
    ensures
        pgoes(prog, s, a, c),
{
    let p1 = choose|p: Seq<(int, int)>| #[trigger] is_ppath(prog, s, p) && p[0] == a && p[p.len() - 1] == b;
    let p2 = choose|p: Seq<(int, int)>| #[trigger] is_ppath(prog, s, p) && p[0] == b && p[p.len() - 1] == c;
    let p = p1 + p2.drop_first();
    assert forall|k: int| 0 <= k < p.len() - 1 implies #[trigger] psteps_to(prog, s, p[k], p[k + 1]) by {
        if k < p1.len() - 1 {
            assert(psteps_to(prog, s, p1[k], p1[k + 1]));
            assert(p[k] == p1[k] && p[k + 1] == p1[k + 1]);
        } else {
            let q = k - (p1.len() - 1);
            assert(psteps_to(prog, s, p2[q], p2[q + 1]));
            assert(p[k] == p2[q] && p[k + 1] == p2[q + 1]);
        }
    }
    assert(is_ppath(prog, s, p) && p[0] == a && p[p.len() - 1] == c);
}

/// The code of `n` laid at `base` reads every text a derivation of `n`
/// shows: some sequence of steps goes from its first instruction at `i` to
/// its end at `j`.
pub proof fn lemma_pcode_reads(prog: Seq<Instruction>, s: Seq<char>, n: Node, d: Deriv, base: int, i: int, j: int)
    requires
        prog.len() <= usize::MAX,
        plaid(prog, pcode(n, base), base),
        pderives(n, d, s, i, j),
    ensures
        pgoes(prog, s, (base, i), (base + pcode(n, base).len(), j)),
    decreases n, 0int, 0int,
{
    let c = pcode(n, base);
    let kids = d.parts;
    let pts = d.points;
    match n {
        Node::AnyChar => {
            lemma_plaid_at(prog, c, base, 0);
            lemma_pgoes_step(prog, s, (base, i), (base + 1, j));
        },
        Node::Char(_) => {
            lemma_plaid_at(prog, c, base, 0);
            lemma_pgoes_step(prog, s, (base, i), (base + 1, j));
        },
        Node::Plus(e) => {
            lemma_pplus_reads(prog, s, *e, kids, pts, base);
        },
        Node::Star(e) => {
            lemma_pstar_reads(prog, s, *e, kids, pts, base);
        },
        Node::Question(e) => {
            let body = pcode(*e, base + 1);
            let head = seq![Instruction::Split((base + 1) as usize, (base + 1 + body.len()) as usize)];
            assert(c == head + body);
            lemma_plaid_split(prog, head, body, base);
            lemma_plaid_at(prog, head, base, 0);
            if kids.len() == 0 && i == j {
                lemma_pgoes_step(prog, s, (base, i), (base + 1 + body.len(), i));
            } else {
                lemma_pgoes_step(prog, s, (base, i), (base + 1, i));
                lemma_pcode_reads(prog, s, *e, kids[0], base + 1, i, j);
                lemma_pgoes_trans(prog, s, (base, i), (base + 1, i), (base + 1 + body.len(), j));
            }
        },
        Node::Or(l, r) => {
            let lc = pcode(*l, base + 1);
            let rb = base + 1 + lc.len() + 1;
            let rc = pcode(*r, rb);
            let head = seq![Instruction::Split((base + 1) as usize, rb as usize)];
            let jump = seq![Instruction::Jump((rb + rc.len()) as usize)];
            assert(c == head + lc + jump + rc);
            lemma_plaid_split(prog, head + lc + jump, rc, base);
            lemma_plaid_split(prog, head + lc, jump, base);
            lemma_plaid_split(prog, head, lc, base);
            lemma_plaid_at(prog, head, base, 0);
            lemma_plaid_at(prog, jump, base + 1 + lc.len(), 0);
            if pderives(*l, kids[0], s, i, j) {
                lemma_pgoes_step(prog, s, (base, i), (base + 1, i));
                lemma_pcode_reads(prog, s, *l, kids[0], base + 1, i, j);
                lemma_pgoes_step(prog, s, (base + 1 + lc.len(), j), (rb + rc.len(), j));
                lemma_pgoes_trans(prog, s, (base, i), (base + 1, i), (base + 1 + lc.len(), j));
                lemma_pgoes_trans(prog, s, (base, i), (base + 1 + lc.len(), j), (rb + rc.len(), j));
            } else {
                lemma_pgoes_step(prog, s, (base, i), (rb, i));
                lemma_pcode_reads(prog, s, *r, kids[0], rb, i, j);
                lemma_pgoes_trans(prog, s, (base, i), (rb, i), (rb + rc.len(), j));
            }
        },
        Node::Sequence(items) => {
            lemma_plist_reads(prog, s, items, kids, pts, base);
        },
    }
}

proof fn lemma_pstar_reads(prog: Seq<Instruction>, s: Seq<char>, e: Node, kids: Seq<Deriv>, pts: Seq<int>, base: int)
    requires
        prog.len() <= usize::MAX,
        plaid(prog, pcode(Node::Star(Box::new(e)), base), base),
        pchain(e, kids, pts, s),
    ensures
        pgoes(prog, s, (base, pts[0]), (base + pcode(Node::Star(Box::new(e)), base).len(), pts[kids.len() as int])),
    decreases e, 1int, kids.len(),
{
    let c = pcode(Node::Star(Box::new(e)), base);
    let body = pcode(e, base + 1);
    let out = base + 1 + body.len() + 1;
    let head = seq![Instruction::Split((base + 1) as usize, out as usize)];
    let tail = seq![Instruction::Jump(base as usize)];
    assert(c == head + body + tail);
    lemma_plaid_split(prog, head + body, tail, base);
    lemma_plaid_split(prog, head, body, base);
    lemma_plaid_at(prog, head, base, 0);
    lemma_plaid_at(prog, tail, base + 1 + body.len(), 0);
    let i = pts[0];
    if kids.len() == 0 {
        lemma_pgoes_step(prog, s, (base, i), (out, i));
    } else {
        let m = pts[1];
        lemma_pgoes_step(prog, s, (base, i), (base + 1, i));
        lemma_pcode_reads(prog, s, e, kids[0], base + 1, i, m);
        lemma_pgoes_step(prog, s, (base + 1 + body.len(), m), (base, m));
        lemma_pstar_reads(prog, s, e, kids.drop_first(), pts.drop_first(), base);
        lemma_pgoes_trans(prog, s, (base, i), (base + 1, i), (base + 1 + body.len(), m));
        lemma_pgoes_trans(prog, s, (base, i), (base + 1 + body.len(), m), (base, m));
        lemma_pgoes_trans(prog, s, (base, i), (base, m), (out, pts[kids.len() as int]));
    }
}

proof fn lemma_pplus_reads(prog: Seq<Instruction>, s: Seq<char>, e: Node, kids: Seq<Deriv>, pts: Seq<int>, base: int)
    requires
        prog.len() <= usize::MAX,
        plaid(prog, pcode(Node::Plus(Box::new(e)), base), base),
        kids.len() >= 1,
        pchain(e, kids, pts, s),
    ensures
        pgoes(prog, s, (base, pts[0]), (base + pcode(Node::Plus(Box::new(e)), base).len(), pts[kids.len() as int])),
    decreases e, 1int, kids.len(),
{
    let c = pcode(Node::Plus(Box::new(e)), base);
    let body = pcode(e, base);
    let out = base + body.len() + 1;
    let tail = seq![Instruction::Split(base as usize, out as usize)];
    assert(c == body + tail);
    lemma_plaid_split(prog, body, tail, base);
    lemma_plaid_at(prog, tail, base + body.len(), 0);
    let i = pts[0];
    let m = pts[1];
    lemma_pcode_reads(prog, s, e, kids[0], base, i, m);
    if kids.len() == 1 {
        lemma_pgoes_step(prog, s, (base + body.len(), m), (out, m));
        lemma_pgoes_trans(prog, s, (base, i), (base + body.len(), m), (out, m));
    } else {
        lemma_pgoes_step(prog, s, (base + body.len(), m), (base, m));
        lemma_pplus_reads(prog, s, e, kids.drop_first(), pts.drop_first(), base);
        lemma_pgoes_trans(prog, s, (base, i), (base + body.len(), m), (base, m));
        lemma_pgoes_trans(prog, s, (base, i), (base, m), (out, pts[kids.len() as int]));
    }
}

proof fn lemma_plist_reads(prog: Seq<Instruction>, s: Seq<char>, items: Seq<Node>, kids: Seq<Deriv>, pts: Seq<int>, base: int)
    requires
        prog.len() <= usize::MAX,
        plaid(prog, pcode_list(items, base), base),
        plist_chain(items, kids, pts, s),
    ensures
        pgoes(prog, s, (base, pts[0]), (base + pcode_list(items, base).len(), pts[items.len() as int])),
    decreases items, 0int, 0int,
{
    let n = items.len() as int;
    if n == 0 {
        lemma_pgoes_self(prog, s, (base, pts[0]));
    } else {
        let init = items.subrange(0, n - 1);
        let prev = pcode_list(init, base);
        let last = pcode(items[n - 1], base + prev.len());
        lemma_plaid_split(prog, prev, last, base);
        let p1 = pts.subrange(0, n);
        lemma_plist_reads(prog, s, init, kids.subrange(0, n - 1), p1, base);
        assert(p1[0] == pts[0] && p1[n - 1] == pts[n - 1]);
        lemma_pcode_reads(prog, s, items[n - 1], kids[n - 1], base + prev.len(), pts[n - 1], pts[n]);
        lemma_pgoes_trans(
            prog,
            s,
            (base, pts[0]),
            (base + prev.len(), pts[n - 1]),
            (base + prev.len() + last.len(), pts[n]),
        );
    }
}

/// The code generated for a plain tree reads every text the tree describes:
/// when the tree describes `s` from `i` to `j`, some sequence of steps goes
/// from the program's start at `i` to its `match` at `j`. So `e+` reads one
/// or more texts of `e` one after another, and `e*` any number of them.
pub proof fn law_plain_code_reads_spans(n: Node, s: Seq<char>, i: int, j: int)
    requires
        gen_program(n, GState { pc: 0, code: Seq::empty() }).1 is None,
        pspans(n, s, i, j),
    ensures
        ({
            let prog = gen_program(n, GState { pc: 0, code: Seq::empty() }).0.code;
            exists|e: int|
                0 <= e < prog.len() && prog[e] == Instruction::Match && #[trigger] pgoes(prog, s, (0int, i), (e, j))
        }),
        preaches_match(gen_program(n, GState { pc: 0, code: Seq::empty() }).0.code, s, i),
{
    let prog = gen_program(n, GState { pc: 0, code: Seq::empty() }).0.code;
    lemma_plain_program_code(n);
    let c = pcode(n, 0);
    assert(prog.subrange(0, c.len() as int) =~= c);
    let d = choose|d: Deriv| #[trigger] pderives(n, d, s, i, j);
    lemma_pcode_reads(prog, s, n, d, 0, i, j);
    assert(prog[c.len() as int] == Instruction::Match);
    let p = choose|p: Seq<(int, int)>| #[trigger] is_ppath(prog, s, p) && p[0] == (0int, i) && p[p.len() - 1] == (
        c.len() as int,
        j,
    );
    assert(pgoes(prog, s, (0int, i), (c.len() as int, j)));
}

/// A jump or split at an address of `lo..hi` goes into `lo..=hi`, and no
/// instruction there is `match`.
pub open spec fn ptarget_ok(ins: Instruction, lo: int, hi: int) -> bool {
    match ins {
        Instruction::Split(x, y) => lo <= x <= hi && lo <= y <= hi,
        Instruction::Jump(x) => lo <= x <= hi,
        Instruction::Match => false,
        _ => true,
    }
}

/// Every instruction of `code` keeps to `lo..=hi`.
pub open spec fn ptargets_in(code: Seq<Instruction>, lo: int, hi: int) -> bool {
    forall|k: int| 0 <= k < code.len() ==> #[trigger] ptarget_ok(code[k], lo, hi)
}

proof fn lemma_ptargets_join(a: Seq<Instruction>, b: Seq<Instruction>, lo: int, hi: int)
    requires
        ptargets_in(a, lo, hi),
        ptargets_in(b, lo, hi),
    ensures
        ptargets_in(a + b, lo, hi),
{
    assert forall|k: int| 0 <= k < (a + b).len() implies #[trigger] ptarget_ok((a + b)[k], lo, hi) by {
        if k < a.len() {
            assert((a + b)[k] == a[k]);
        } else {
            assert((a + b)[k] == b[k - a.len()]);
        }
    }
}

proof fn lemma_ptargets_widen(a: Seq<Instruction>, lo: int, hi: int, lo2: int, hi2: int)
    requires
        ptargets_in(a, lo, hi),
        lo2 <= lo,
        hi <= hi2,
    ensures
        ptargets_in(a, lo2, hi2),
{
    assert forall|k: int| 0 <= k < a.len() implies #[trigger] ptarget_ok(a[k], lo2, hi2) by {
        assert(ptarget_ok(a[k], lo, hi));
    }
}

/// The code of a tree keeps to its own addresses and its end.
pub proof fn lemma_pcode_targets(n: Node, base: int)
    requires
        0 <= base,
        base + pcode(n, base).len() <= usize::MAX,
    ensures
        ptargets_in(pcode(n, base), base, base + pcode(n, base).len()),
    decreases n, 0int,
{
    let c = pcode(n, base);
    let hi = base + c.len();
    match n {
        Node::AnyChar => {
            assert(ptarget_ok(c[0], base, hi));
        },
        Node::Char(_) => {
            assert(ptarget_ok(c[0], base, hi));
        },
        Node::Plus(e) => {
            let body = pcode(*e, base);
            let tail = seq![Instruction::Split(base as usize, (base + body.len() + 1) as usize)];
            lemma_pcode_targets(*e, base);
            lemma_ptargets_widen(body, base, base + body.len(), base, hi);
            assert(ptarget_ok(tail[0], base, hi));
            lemma_ptargets_join(body, tail, base, hi);
            assert(c == body + tail);
        },
        Node::Star(e) => {
            let body = pcode(*e, base + 1);
            let head = seq![Instruction::Split((base + 1) as usize, (base + 1 + body.len() + 1) as usize)];
            let tail = seq![Instruction::Jump(base as usize)];
            lemma_pcode_targets(*e, base + 1);
            lemma_ptargets_widen(body, base + 1, base + 1 + body.len(), base, hi);
            assert(ptarget_ok(head[0], base, hi));
            assert(ptarget_ok(tail[0], base, hi));
            lemma_ptargets_join(head, body, base, hi);
            lemma_ptargets_join(head + body, tail, base, hi);
            assert(c == head + body + tail);
        },
        Node::Question(e) => {
            let body = pcode(*e, base + 1);
            let head = seq![Instruction::Split((base + 1) as usize, (base + 1 + body.len()) as usize)];
            lemma_pcode_targets(*e, base + 1);
            lemma_ptargets_widen(body, base + 1, base + 1 + body.len(), base, hi);
            assert(ptarget_ok(head[0], base, hi));
            lemma_ptargets_join(head, body, base, hi);
            assert(c == head + body);
        },
        Node::Or(l, r) => {
            let lc = pcode(*l, base + 1);
            let rb = base + 1 + lc.len() + 1;
            let rc = pcode(*r, rb);
            let head = seq![Instruction::Split((base + 1) as usize, rb as usize)];
            let jump = seq![Instruction::Jump((rb + rc.len()) as usize)];
            lemma_pcode_targets(*l, base + 1);
            lemma_pcode_targets(*r, rb);
            lemma_ptargets_widen(lc, base + 1, base + 1 + lc.len(), base, hi);
            lemma_ptargets_widen(rc, rb, rb + rc.len(), base, hi);
            assert(ptarget_ok(head[0], base, hi));
            assert(ptarget_ok(jump[0], base, hi));
            lemma_ptargets_join(head, lc, base, hi);
            lemma_ptargets_join(head + lc, jump, base, hi);
            lemma_ptargets_join(head + lc + jump, rc, base, hi);
            assert(c == head + lc + jump + rc);
        },
        Node::Sequence(items) => {
            lemma_plist_targets(items, base);
        },
    }
}

proof fn lemma_plist_targets(items: Seq<Node>, base: int)
    requires
        0 <= base,
        base + pcode_list(items, base).len() <= usize::MAX,
    ensures
        ptargets_in(pcode_list(items, base), base, base + pcode_list(items, base).len()),
    decreases items, 0int,
{
    if items.len() > 0 {
        let init = items.subrange(0, items.len() - 1);
        let prev = pcode_list(init, base);
        let last = pcode(items[items.len() - 1], base + prev.len());
        let hi = base + prev.len() + last.len();
        lemma_plist_targets(init, base);
        lemma_pcode_targets(items[items.len() - 1], base + prev.len());
        lemma_ptargets_widen(prev, base, base + prev.len(), base, hi);
        lemma_ptargets_widen(last, base + prev.len(), hi, base, hi);
        lemma_ptargets_join(prev, last, base, hi);
    }
}

/// A sequence of steps that starts at `lo`, stays in `lo..hi` and ends at `hi`.
pub open spec fn pcrosses(prog: Seq<Instruction>, s: Seq<char>, p: Seq<(int, int)>, lo: int, hi: int) -> bool {
    &&& is_ppath(prog, s, p)
    &&& p[0].0 == lo
    &&& p[p.len() - 1].0 == hi
    &&& forall|k: int| 0 <= k < p.len() - 1 ==> lo <= #[trigger] p[k].0 < hi
}

proof fn lemma_penter_from(prog: Seq<Instruction>, s: Seq<char>, p: Seq<(int, int)>, k: int, j: int, lo: int, hi: int) -> (f: int)
    requires
        is_ppath(prog, s, p),
        forall|pc: int| lo <= pc < hi ==> #[trigger] ptarget_ok(prog[pc], lo, hi),
        0 <= lo <= hi <= prog.len(),
        0 <= k <= j < p.len(),
        !(lo <= p[p.len() - 1].0 < hi),
        forall|i: int| k <= i < j ==> lo <= #[trigger] p[i].0 < hi,
        lo <= p[j].0 <= hi,
    ensures
        j <= f < p.len(),
        p[f].0 == hi,
        forall|i: int| k <= i < f ==> lo <= #[trigger] p[i].0 < hi,
    decreases p.len() - j,
{
    if p[j].0 == hi {
        j
    } else {
        assert(j < p.len() - 1);
        assert(psteps_to(prog, s, p[j], p[j + 1]));
        assert(ptarget_ok(prog[p[j].0], lo, hi));
        lemma_penter_from(prog, s, p, k, j + 1, lo, hi)
    }
}

/// A sequence of steps that reaches the start of a code block laid in the
/// program, and ends outside it, crosses the block.
proof fn lemma_penter(prog: Seq<Instruction>, s: Seq<char>, p: Seq<(int, int)>, k: int, code: Seq<Instruction>, lo: int) -> (f: int)
    requires
        prog.len() <= usize::MAX,
        is_ppath(prog, s, p),
        plaid(prog, code, lo),
        ptargets_in(code, lo, lo + code.len()),
        0 <= k < p.len(),
        p[k].0 == lo,
        !(lo <= p[p.len() - 1].0 < lo + code.len()),
    ensures
        k <= f < p.len(),
        pcrosses(prog, s, p.subrange(k, f + 1), lo, lo + code.len()),
{
    let hi = lo + code.len();
    assert forall|pc: int| lo <= pc < hi implies #[trigger] ptarget_ok(prog[pc], lo, hi) by {
        lemma_plaid_at(prog, code, lo, pc - lo);
        assert(ptarget_ok(code[pc - lo], lo, hi));
    }
    let f = lemma_penter_from(prog, s, p, k, k, lo, hi);
    let sub = p.subrange(k, f + 1);
    assert forall|i: int| 0 <= i < sub.len() - 1 implies #[trigger] psteps_to(prog, s, sub[i], sub[i + 1]) by {
        assert(psteps_to(prog, s, p[k + i], p[k + i + 1]));
        assert(sub[i] == p[k + i] && sub[i + 1] == p[k + i + 1]);
    }
    assert forall|i: int| 0 <= i < sub.len() - 1 implies lo <= #[trigger] sub[i].0 < hi by {
        assert(sub[i] == p[k + i]);
    }
    f
}

proof fn lemma_ppiece(prog: Seq<Instruction>, s: Seq<char>, p: Seq<(int, int)>, a: int, b: int, lo: int, hi: int)
    requires
        is_ppath(prog, s, p),
        0 <= a <= b < p.len(),
        p[a].0 == lo,
        p[b].0 == hi,
        forall|k: int| a <= k < b ==> lo <= #[trigger] p[k].0 < hi,
    ensures
        pcrosses(prog, s, p.subrange(a, b + 1), lo, hi),
{
    let sub = p.subrange(a, b + 1);
    assert forall|k: int| 0 <= k < sub.len() - 1 implies #[trigger] psteps_to(prog, s, sub[k], sub[k + 1]) by {
        assert(psteps_to(prog, s, p[a + k], p[a + k + 1]));
        assert(sub[k] == p[a + k] && sub[k + 1] == p[a + k + 1]);
    }
    assert forall|k: int| 0 <= k < sub.len() - 1 implies lo <= #[trigger] sub[k].0 < hi by {
        assert(sub[k] == p[a + k]);
    }
}

proof fn lemma_pchain_push(e: Node, kids: Seq<Deriv>, pts: Seq<int>, s: Seq<char>, d: Deriv, j: int)
    requires
        pchain(e, kids, pts, s),
        pderives(e, d, s, pts[kids.len() as int], j),
    ensures
        pchain(e, kids.push(d), pts.push(j), s),
    decreases kids.len(),
{
    if kids.len() > 0 {
        lemma_pchain_push(e, kids.drop_first(), pts.drop_first(), s, d, j);
        assert(kids.push(d).drop_first() =~= kids.drop_first().push(d));
        assert(pts.push(j).drop_first() =~= pts.drop_first().push(j));
    } else {
        assert(pchain(e, Seq::<Deriv>::empty(), seq![j], s));
        assert(kids.push(d).drop_first() =~= Seq::<Deriv>::empty());
        assert(pts.push(j).drop_first() =~= seq![j]);
    }
}

/// Every sequence of steps across the code of a tree reads a text the tree
/// describes: a derivation from where it enters to where it leaves.
pub proof fn lemma_pcode_derives(prog: Seq<Instruction>, s: Seq<char>, n: Node, base: int, p: Seq<(int, int)>) -> (d: Deriv)
    requires
        prog.len() <= usize::MAX,
        plaid(prog, pcode(n, base), base),
        pcrosses(prog, s, p, base, base + pcode(n, base).len()),
    ensures
        pderives(n, d, s, p[0].1, p[p.len() - 1].1),
    decreases n, 0int, 0int,
{
    let c = pcode(n, base);
    let hi = base + c.len();
    let last = p.len() - 1;
    let none = Deriv { points: seq![], parts: seq![] };
    match n {
        Node::AnyChar => {
            lemma_plaid_at(prog, c, base, 0);
            assert(psteps_to(prog, s, p[0], p[1]));
            assert(p[1].0 == hi);
            assert(last == 1);
            none
        },
        Node::Char(_) => {
            lemma_plaid_at(prog, c, base, 0);
            assert(psteps_to(prog, s, p[0], p[1]));
            assert(p[1].0 == hi);
            assert(last == 1);
            none
        },
        Node::Plus(e) => {
            let (kids, pts) = lemma_pplus_derives(prog, s, *e, base, p);
            Deriv { points: pts, parts: kids }
        },
        Node::Star(e) => {
            let (kids, pts) = lemma_pstar_derives(prog, s, *e, base, p);
            Deriv { points: pts, parts: kids }
        },
        Node::Question(e) => {
            let body = pcode(*e, base + 1);
            let head = seq![Instruction::Split((base + 1) as usize, (base + 1 + body.len()) as usize)];
            assert(c == head + body);
            lemma_plaid_split(prog, head, body, base);
            lemma_plaid_at(prog, head, base, 0);
            assert(psteps_to(prog, s, p[0], p[1]));
            if p[1].0 == hi {
                assert(last == 1);
                none
            } else {
                lemma_pcode_targets(*e, base + 1);
                let f = lemma_penter(prog, s, p, 1, body, base + 1);
                assert(f == last);
                let d0 = lemma_pcode_derives(prog, s, *e, base + 1, p.subrange(1, f + 1));
                Deriv { points: seq![], parts: seq![d0] }
            }
        },
        Node::Or(l, r) => {
            let lc = pcode(*l, base + 1);
            let rb = base + 1 + lc.len() + 1;
            let rc = pcode(*r, rb);
            let head = seq![Instruction::Split((base + 1) as usize, rb as usize)];
            let jump = seq![Instruction::Jump((rb + rc.len()) as usize)];
            assert(c == head + lc + jump + rc);
            lemma_plaid_split(prog, head + lc + jump, rc, base);
            lemma_plaid_split(prog, head + lc, jump, base);
            lemma_plaid_split(prog, head, lc, base);
            lemma_plaid_at(prog, head, base, 0);
            lemma_plaid_at(prog, jump, base + 1 + lc.len(), 0);
            assert(psteps_to(prog, s, p[0], p[1]));
            if p[1].0 == base + 1 {
                lemma_pcode_targets(*l, base + 1);
                let f = lemma_penter(prog, s, p, 1, lc, base + 1);
                let d0 = lemma_pcode_derives(prog, s, *l, base + 1, p.subrange(1, f + 1));
                assert(psteps_to(prog, s, p[f], p[f + 1]));
                assert(p[f + 1].0 == hi);
                assert(f + 1 == last);
                Deriv { points: seq![], parts: seq![d0] }
            } else {
                lemma_pcode_targets(*r, rb);
                let f = lemma_penter(prog, s, p, 1, rc, rb);
                assert(f == last);
                let d0 = lemma_pcode_derives(prog, s, *r, rb, p.subrange(1, f + 1));
                Deriv { points: seq![], parts: seq![d0] }
            }
        },
        Node::Sequence(items) => {
            let (kids, pts) = lemma_plist_derives(prog, s, items, base, p);
            Deriv { points: pts, parts: kids }
        },
    }
}

proof fn lemma_pstar_derives(prog: Seq<Instruction>, s: Seq<char>, e: Node, base: int, p: Seq<(int, int)>) -> (r: (Seq<Deriv>, Seq<int>))
    requires
        prog.len() <= usize::MAX,
        plaid(prog, pcode(Node::Star(Box::new(e)), base), base),
        pcrosses(prog, s, p, base, base + pcode(Node::Star(Box::new(e)), base).len()),
    ensures
        pchain(e, r.0, r.1, s),
        r.1[0] == p[0].1,
        r.1[r.0.len() as int] == p[p.len() - 1].1,
    decreases e, 1int, p.len(),
{
    let c = pcode(Node::Star(Box::new(e)), base);
    let body = pcode(e, base + 1);
    let out = base + 1 + body.len() + 1;
    let head = seq![Instruction::Split((base + 1) as usize, out as usize)];
    let tail = seq![Instruction::Jump(base as usize)];
    let last = p.len() - 1;
    assert(c == head + body + tail);
    lemma_plaid_split(prog, head + body, tail, base);
    lemma_plaid_split(prog, head, body, base);
    lemma_plaid_at(prog, head, base, 0);
    lemma_plaid_at(prog, tail, base + 1 + body.len(), 0);
    assert(psteps_to(prog, s, p[0], p[1]));
    let i = p[0].1;
    if p[1].0 == out {
        assert(last == 1);
        (seq![], seq![i])
    } else {
        lemma_pcode_targets(e, base + 1);
        let f = lemma_penter(prog, s, p, 1, body, base + 1);
        let d0 = lemma_pcode_derives(prog, s, e, base + 1, p.subrange(1, f + 1));
        assert(psteps_to(prog, s, p[f], p[f + 1]));
        lemma_ppiece(prog, s, p, f + 1, last, base, out);
        let (k2, p2) = lemma_pstar_derives(prog, s, e, base, p.subrange(f + 1, last + 1));
        let kids = seq![d0] + k2;
        let pts = seq![i] + p2;
        assert(kids.drop_first() =~= k2);
        assert(pts.drop_first() =~= p2);
        assert(kids[0] == d0 && pts[1] == p2[0]);
        (kids, pts)
    }
}

proof fn lemma_pplus_derives(prog: Seq<Instruction>, s: Seq<char>, e: Node, base: int, p: Seq<(int, int)>) -> (r: (Seq<Deriv>, Seq<int>))
    requires
        prog.len() <= usize::MAX,
        plaid(prog, pcode(Node::Plus(Box::new(e)), base), base),
        pcrosses(prog, s, p, base, base + pcode(Node::Plus(Box::new(e)), base).len()),
    ensures
        r.0.len() >= 1,
        pchain(e, r.0, r.1, s),
        r.1[0] == p[0].1,
        r.1[r.0.len() as int] == p[p.len() - 1].1,
    decreases e, 1int, p.len(),
{
    let c = pcode(Node::Plus(Box::new(e)), base);
    let body = pcode(e, base);
    let out = base + body.len() + 1;
    let tail = seq![Instruction::Split(base as usize, out as usize)];
    let last = p.len() - 1;
    assert(c == body + tail);
    lemma_plaid_split(prog, body, tail, base);
    lemma_plaid_at(prog, tail, base + body.len(), 0);
    lemma_pcode_targets(e, base);
    let f = lemma_penter(prog, s, p, 0, body, base);
    let d0 = lemma_pcode_derives(prog, s, e, base, p.subrange(0, f + 1));
    assert(psteps_to(prog, s, p[f], p[f + 1]));
    let i = p[0].1;
    let m = p[f].1;
    if p[f + 1].0 == out {
        assert(f + 1 == last);
        let kids = seq![d0];
        let pts = seq![i, m];
        assert(kids.drop_first() =~= Seq::<Deriv>::empty());
        assert(pts.drop_first() =~= seq![m]);
        assert(pchain(e, Seq::<Deriv>::empty(), seq![m], s));
        (kids, pts)
    } else {
        lemma_ppiece(prog, s, p, f + 1, last, base, out);
        let (k2, p2) = lemma_pplus_derives(prog, s, e, base, p.subrange(f + 1, last + 1));
        let kids = seq![d0] + k2;
        let pts = seq![i] + p2;
        assert(kids.drop_first() =~= k2);
        assert(pts.drop_first() =~= p2);
        assert(kids[0] == d0 && pts[1] == p2[0]);
        (kids, pts)
    }
}

proof fn lemma_plist_derives(prog: Seq<Instruction>, s: Seq<char>, items: Seq<Node>, base: int, p: Seq<(int, int)>) -> (r: (Seq<Deriv>, Seq<int>))
    requires
        prog.len() <= usize::MAX,
        plaid(prog, pcode_list(items, base), base),
        pcrosses(prog, s, p, base, base + pcode_list(items, base).len()),
    ensures
        plist_chain(items, r.0, r.1, s),
        r.1[0] == p[0].1,
        r.1[items.len() as int] == p[p.len() - 1].1,
    decreases items, 0int, 0int,
{
    let last = p.len() - 1;
    let i = p[0].1;
    let n = items.len() as int;
    if n == 0 {
        (seq![], seq![i])
    } else {
        let init = items.subrange(0, n - 1);
        let prev = pcode_list(init, base);
        let lastc = pcode(items[n - 1], base + prev.len());
        lemma_plaid_split(prog, prev, lastc, base);
        lemma_plist_targets(init, base);
        let f = lemma_penter(prog, s, p, 0, prev, base);
        let (k1, p1) = lemma_plist_derives(prog, s, init, base, p.subrange(0, f + 1));
        lemma_pcode_targets(items[n - 1], base + prev.len());
        let f2 = lemma_penter(prog, s, p, f, lastc, base + prev.len());
        assert(f2 == last);
        let d = lemma_pcode_derives(prog, s, items[n - 1], base + prev.len(), p.subrange(f, last + 1));
        let kids = k1.push(d);
        let pts = p1.push(p[last].1);
        assert(kids.subrange(0, n - 1) =~= k1);
        assert(pts.subrange(0, n) =~= p1);
        (kids, pts)
    }
}

/// The code generated for a plain tree reads only texts the tree describes:
/// every sequence of steps from the program's start at `i` that ends at
/// `match` at `j` reads a text the tree describes from `i` to `j`.
pub proof fn law_plain_code_reads_only_spans(n: Node, s: Seq<char>, p: Seq<(int, int)>)
    requires
        gen_program(n, GState { pc: 0, code: Seq::empty() }).1 is None,
        is_ppath(gen_program(n, GState { pc: 0, code: Seq::empty() }).0.code, s, p),
        p[0].0 == 0,
        gen_program(n, GState { pc: 0, code: Seq::empty() }).0.code[p[p.len() - 1].0] is Match,
        0 <= p[p.len() - 1].0 < gen_program(n, GState { pc: 0, code: Seq::empty() }).0.code.len(),
    ensures
        pspans(n, s, p[0].1, p[p.len() - 1].1),
{
    let prog = gen_program(n, GState { pc: 0, code: Seq::empty() }).0.code;
    lemma_plain_program_code(n);
    let c = pcode(n, 0);
    let last = p.len() - 1;
    assert(prog.subrange(0, c.len() as int) =~= c);
    lemma_pcode_targets(n, 0);
    if p[last].0 < c.len() {
        lemma_plaid_at(prog, c, 0, p[last].0);
        assert(ptarget_ok(c[p[last].0], 0, c.len() as int));
    }
    let f = lemma_penter(prog, s, p, 0, c, 0);
    if f < last {
        assert(psteps_to(prog, s, p[f], p[f + 1]));
    }
    let d = lemma_pcode_derives(prog, s, n, 0, p.subrange(0, f + 1));
    assert(pderives(n, d, s, p[0].1, p[last].1));
}

/// The code generated for a plain tree reaches `match` from position `i`
/// exactly when the tree describes a text that starts at `i`.
pub proof fn law_plain_code_accepts_exactly_spans(n: Node, s: Seq<char>, i: int)
    requires
        gen_program(n, GState { pc: 0, code: Seq::empty() }).1 is None,
    ensures
        preaches_match(gen_program(n, GState { pc: 0, code: Seq::empty() }).0.code, s, i)
            <==> exists|j: int| #[trigger] pspans(n, s, i, j),
{
    let prog = gen_program(n, GState { pc: 0, code: Seq::empty() }).0.code;
    if preaches_match(prog, s, i) {
        let p = choose|p: Seq<(int, int)>|
            #[trigger] is_ppath(prog, s, p) && p[0] == (0int, i) && 0 <= p[p.len() - 1].0 < prog.len()
                && prog[p[p.len() - 1].0] is Match;
        law_plain_code_reads_only_spans(n, s, p);
        assert(pspans(n, s, i, p[p.len() - 1].1));
    }
    if exists|j: int| #[trigger] pspans(n, s, i, j) {
        let j = choose|j: int| #[trigger] pspans(n, s, i, j);
        law_plain_code_reads_spans(n, s, i, j);
    }
}

} // verus!
