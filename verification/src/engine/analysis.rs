//! Literal analysis of a syntax tree: substrings that every match contains,
//! candidate substrings for a prefilter, and whether the empty text matches.
//!
//! A set of literals is kept as a sequence ordered by `literal_lt` (longer
//! UTF-8 encodings first, then by characters), without repeats, and is cut to
//! its first `MUST_LITERAL_LIMIT` members after each change.
use vstd::prelude::*;
use crate::engine::ast::{Ast, AstModel, CharClass, ClassModel, lemma_concat_view, views};
use crate::text::string_from_chars;

verus! {

/// The largest number of literals a set keeps.
pub const MUST_LITERAL_LIMIT: usize = 16;

/// Length of the UTF-8 encoding of `c`.
pub open spec fn utf8_width(c: char) -> nat {
    if (c as u32) < 0x80 {
        1
    } else if (c as u32) < 0x800 {
        2
    } else if (c as u32) < 0x10000 {
        3
    } else {
        4
    }
}

/// Length of the UTF-8 encoding of `s`.
pub open spec fn byte_len(s: Seq<char>) -> nat
    decreases s.len(),
{
    if s.len() == 0 {
        0
    } else {
        byte_len(s.drop_last()) + utf8_width(s.last())
    }
}

/// Lexicographic order on characters: a proper prefix comes first.
pub open spec fn lex_lt(a: Seq<char>, b: Seq<char>) -> bool
    decreases a.len(),
{
    if b.len() == 0 {
        false
    } else if a.len() == 0 {
        true
    } else if a[0] != b[0] {
        a[0] < b[0]
    } else {
        lex_lt(a.drop_first(), b.drop_first())
    }
}

/// The order of literals: longer UTF-8 encodings first, then lexicographic.
pub open spec fn literal_lt(a: Seq<char>, b: Seq<char>) -> bool {
    byte_len(a) > byte_len(b) || (byte_len(a) == byte_len(b) && lex_lt(a, b))
}

/// `x` added to an ordered set: in front of the first member it precedes,
/// and not at all when it is already there.
pub open spec fn ins(s: Seq<Seq<char>>, x: Seq<char>) -> Seq<Seq<char>>
    decreases s.len(),
{
    if s.len() == 0 {
        seq![x]
    } else if s[0] == x {
        s
    } else if literal_lt(x, s[0]) {
        seq![x] + s
    } else {
        seq![s[0]] + ins(s.drop_first(), x)
    }
}

/// The members of `b` added to `a`, first to last.
pub open spec fn ins_all(a: Seq<Seq<char>>, b: Seq<Seq<char>>) -> Seq<Seq<char>>
    decreases b.len(),
{
    if b.len() == 0 {
        a
    } else {
        ins(ins_all(a, b.drop_last()), b.last())
    }
}

/// An ordered set cut to its first `MUST_LITERAL_LIMIT` members.
pub open spec fn prune(s: Seq<Seq<char>>) -> Seq<Seq<char>> {
    if s.len() <= MUST_LITERAL_LIMIT {
        s
    } else {
        s.take(MUST_LITERAL_LIMIT as int)
    }
}

/// The members of `a` that are in `b`, in the order of `a`.
pub open spec fn keep_common(a: Seq<Seq<char>>, b: Seq<Seq<char>>) -> Seq<Seq<char>>
    decreases a.len(),
{
    if a.len() == 0 {
        Seq::empty()
    } else if b.contains(a.last()) {
        keep_common(a.drop_last(), b).push(a.last())
    } else {
        keep_common(a.drop_last(), b)
    }
}

/// Result of the analysis of a tree.
pub struct LitModel {
    pub must: Seq<Seq<char>>,
    pub needles: Seq<Seq<char>>,
    pub nullable: bool,
}

/// The character that a class accepts alone, when it is one plain range of
/// one character.
pub open spec fn single_literal(c: ClassModel) -> Option<char> {
    if !c.negated && c.ranges.len() == 1 && c.ranges[0].start == c.ranges[0].end {
        Some(c.ranges[0].start)
    } else {
        None
    }
}

/// The character a tree matches alone, when it is such a class.
pub open spec fn tree_literal(a: AstModel) -> Option<char> {
    match a {
        AstModel::Class(c) => single_literal(c),
        _ => None,
    }
}

/// State of the walk over a concatenation: the sets so far, the run of
/// single characters not yet added, and whether every part so far is nullable.
pub struct ConcatModel {
    pub must: Seq<Seq<char>>,
    pub needles: Seq<Seq<char>>,
    pub run: Seq<char>,
    pub nullable: bool,
}

/// Adds a non-empty run to both sets.
pub open spec fn flush(st: ConcatModel) -> ConcatModel {
    if st.run.len() == 0 {
        st
    } else {
        ConcatModel {
            must: prune(ins(st.must, st.run)),
            needles: prune(ins(st.needles, st.run)),
            run: Seq::empty(),
            nullable: st.nullable,
        }
    }
}

/// The analysis of a tree.
pub open spec fn analysis(a: AstModel) -> LitModel
    decreases a, 1int,
{
    match a {
        AstModel::Empty => LitModel { must: Seq::empty(), needles: Seq::empty(), nullable: true },
        AstModel::Assertion(_) => LitModel { must: Seq::empty(), needles: Seq::empty(), nullable: true },
        AstModel::Backreference(_) => LitModel {
            must: Seq::empty(),
            needles: Seq::empty(),
            nullable: false,
        },
        AstModel::Class(c) => match single_literal(c) {
            Some(ch) => LitModel { must: seq![seq![ch]], needles: seq![seq![ch]], nullable: false },
            None => LitModel { must: Seq::empty(), needles: Seq::empty(), nullable: false },
        },
        AstModel::Capture(e, _) => analysis(*e),
        AstModel::ZeroOrMore(e, _) => LitModel {
            must: Seq::empty(),
            needles: analysis(*e).needles,
            nullable: true,
        },
        AstModel::ZeroOrOne(e, _) => LitModel {
            must: Seq::empty(),
            needles: analysis(*e).needles,
            nullable: true,
        },
        AstModel::OneOrMore(e, _) => analysis(*e),
        AstModel::Repeat(e, _, min, _) => {
            let child = analysis(*e);
            LitModel {
                must: if min == 0 {
                    Seq::empty()
                } else {
                    child.must
                },
                needles: child.needles,
                nullable: min == 0 || child.nullable,
            }
        },
        AstModel::Concat(items) => {
            let st = flush(concat_walk(items));
            LitModel { must: st.must, needles: st.needles, nullable: st.nullable }
        },
        AstModel::Alternate(l, r) => {
            let left = analysis(*l);
            let right = analysis(*r);
            LitModel {
                must: prune(keep_common(left.must, right.must)),
                needles: prune(ins_all(left.needles, right.needles)),
                nullable: left.nullable || right.nullable,
            }
        },
    }
}

/// The walk over the parts of a concatenation, first to last.
pub open spec fn concat_walk(items: Seq<AstModel>) -> ConcatModel
    decreases items, 0int,
{
    if items.len() == 0 {
        ConcatModel { must: Seq::empty(), needles: Seq::empty(), run: Seq::empty(), nullable: true }
    } else {
        let st = concat_walk(items.subrange(0, items.len() - 1));
        let item = items[items.len() - 1];
        let child = analysis(item);
        let nullable = st.nullable && child.nullable;
        match tree_literal(item) {
            Some(c) => ConcatModel { run: st.run.push(c), nullable, ..st },
            None => {
                let f = flush(st);
                ConcatModel {
                    must: prune(ins_all(f.must, child.must)),
                    needles: prune(ins_all(f.needles, child.needles)),
                    run: Seq::empty(),
                    nullable,
                }
            },
        }
    }
}

/// The models of a set of literals.
pub open spec fn lits(v: Seq<Vec<char>>) -> Seq<Seq<char>> {
    Seq::new(v.len(), |i: int| v[i]@)
}

/// The models of a list of strings.
pub open spec fn strings(v: Seq<String>) -> Seq<Seq<char>> {
    Seq::new(v.len(), |i: int| v[i]@)
}

/// Aggregate analysis results of one tree.
#[derive(Debug, Clone, PartialEq, Eq)]
pub struct AstAnalysis {
    /// Substrings that appear in every successful match.
    pub must_literals: Vec<String>,
    /// Candidate substrings used as prefilter hints.
    pub needles: Vec<String>,
    /// Whether the pattern can match the empty string.
    pub nullable: bool,
}

/// Working result with sets of literals.
struct AnalysisSet {
    must_literals: Vec<Vec<char>>,
    needles: Vec<Vec<char>>,
    nullable: bool,
}

impl AnalysisSet {
    spec fn model(&self) -> LitModel {
        LitModel { must: lits(self.must_literals@), needles: lits(self.needles@), nullable: self.nullable }
    }
}

// ----- literals -----

/// Length of the UTF-8 encoding of `s`.
fn utf8_len(s: &Vec<char>) -> (r: u128)
    ensures
        r == byte_len(s@),
{
    let mut total: u128 = 0;
    for i in 0..s.len()
        invariant
            total == byte_len(s@.take(i as int)),
            total <= 4 * i,
    {
        assert(s@.take(i + 1).drop_last() =~= s@.take(i as int));
        let c = s[i];
        let code = c as u32;
        let w: u128 = if code < 0x80 {
            1
        } else if code < 0x800 {
            2
        } else if code < 0x10000 {
            3
        } else {
            4
        };
        total = total + w;
    }
    assert(s@.take(s.len() as int) =~= s@);
    total
}

/// Lexicographic comparison of two literals.
fn lex_less(a: &Vec<char>, b: &Vec<char>) -> (r: bool)
    ensures
        r == lex_lt(a@, b@),
{
    let mut i: usize = 0;
    assert(a@.skip(0) =~= a@ && b@.skip(0) =~= b@);
    while i < a.len() && i < b.len()
        invariant
            i <= a.len(),
            i <= b.len(),
            lex_lt(a@, b@) == lex_lt(a@.skip(i as int), b@.skip(i as int)),
        decreases a.len() - i,
    {
        if a[i] != b[i] {
            return a[i] < b[i];
        }
        assert(a@.skip(i as int).drop_first() =~= a@.skip(i + 1));
        assert(b@.skip(i as int).drop_first() =~= b@.skip(i + 1));
        i = i + 1;
    }
    a.len() < b.len()
}

/// Whether `a` comes before `b` in the order of literals.
fn literal_less(a: &Vec<char>, b: &Vec<char>) -> (r: bool)
    ensures
        r == literal_lt(a@, b@),
{
    let la = utf8_len(a);
    let lb = utf8_len(b);
    la > lb || (la == lb && lex_less(a, b))
}

/// Whether two literals are equal.
fn chars_equal(a: &Vec<char>, b: &Vec<char>) -> (r: bool)
    ensures
        r == (a@ == b@),
{
    if a.len() != b.len() {
        return false;
    }
    for i in 0..a.len()
        invariant
            a@.len() == b@.len(),
            forall|j: int| 0 <= j < i ==> a@[j] == b@[j],
    {
        if a[i] != b[i] {
            return false;
        }
    }
    assert(a@ =~= b@);
    true
}

/// A copy of a literal.
fn copy_chars(v: &Vec<char>) -> (r: Vec<char>)
    ensures
        r@ == v@,
{
    let mut out: Vec<char> = Vec::new();
    for i in 0..v.len()
        invariant
            out@ == v@.take(i as int),
    {
        out.push(v[i]);
        assert(out@ =~= v@.take(i + 1));
    }
    assert(out@ =~= v@);
    out
}

/// Adding to an ordered set walks past the members that come first.
proof fn lemma_ins_skip(s: Seq<Seq<char>>, x: Seq<char>, i: int)
    requires
        0 <= i < s.len(),
        s[i] != x,
        !literal_lt(x, s[i]),
    ensures
        s.take(i) + ins(s.skip(i), x) == s.take(i + 1) + ins(s.skip(i + 1), x),
{
    let t = s.skip(i);
    assert(t[0] == s[i]);
    assert(t.drop_first() =~= s.skip(i + 1));
    assert(ins(t, x) == seq![s[i]] + ins(s.skip(i + 1), x));
    assert(s.take(i + 1) =~= s.take(i).push(s[i]));
    assert(s.take(i) + (seq![s[i]] + ins(s.skip(i + 1), x)) =~= s.take(i + 1) + ins(s.skip(i + 1), x));
}

/// Adds `x` to an ordered set.
fn insert_literal(set: &mut Vec<Vec<char>>, x: Vec<char>)
    ensures
        lits(final(set)@) == ins(lits(old(set)@), x@),
{
    let ghost s = lits(set@);
    let mut i: usize = 0;
    assert(s =~= s.take(0) + s.skip(0));
    while i < set.len()
        invariant
            s == lits(old(set)@),
            set@ == old(set)@,
            i <= set.len(),
            ins(s, x@) == s.take(i as int) + ins(s.skip(i as int), x@),
        decreases set.len() - i,
    {
        assert(s.skip(i as int)[0] == s[i as int]);
        if chars_equal(&set[i], &x) {
            assert(ins(s.skip(i as int), x@) == s.skip(i as int));
            assert(s.take(i as int) + s.skip(i as int) =~= s);
            return;
        }
        if literal_less(&x, &set[i]) {
            assert(ins(s.skip(i as int), x@) == seq![x@] + s.skip(i as int));
            set.insert(i, x);
            assert(lits(set@) =~= s.take(i as int) + (seq![x@] + s.skip(i as int)));
            return;
        }
        proof {
            lemma_ins_skip(s, x@, i as int);
        }
        i = i + 1;
    }
    assert(s.skip(i as int) =~= Seq::<Seq<char>>::empty());
    assert(s.take(i as int) =~= s);
    set.push(x);
    assert(lits(set@) =~= s.push(x@));
}

/// Cuts an ordered set to its first `MUST_LITERAL_LIMIT` members.
fn prune_literal_set(set: &mut Vec<Vec<char>>)
    ensures
        lits(final(set)@) == prune(lits(old(set)@)),
{
    if set.len() <= MUST_LITERAL_LIMIT {
        return;
    }
    set.truncate(MUST_LITERAL_LIMIT);
    assert(lits(set@) =~= lits(old(set)@).take(MUST_LITERAL_LIMIT as int));
}

/// Adds the members of `src` to `dst`, then cuts `dst`.
fn union_literal_sets(dst: &mut Vec<Vec<char>>, src: Vec<Vec<char>>)
    ensures
        lits(final(dst)@) == prune(ins_all(lits(old(dst)@), lits(src@))),
{
    let ghost a = lits(dst@);
    let ghost b = lits(src@);
    for i in 0..src.len()
        invariant
            a == lits(old(dst)@),
            b == lits(src@),
            lits(dst@) == ins_all(a, b.take(i as int)),
    {
        assert(b.take(i + 1).drop_last() =~= b.take(i as int));
        insert_literal(dst, copy_chars(&src[i]));
    }
    assert(b.take(src.len() as int) =~= b);
    prune_literal_set(dst);
}

/// Whether `x` is a member of `set`.
fn contains_literal(set: &Vec<Vec<char>>, x: &Vec<char>) -> (r: bool)
    ensures
        r == lits(set@).contains(x@),
{
    for i in 0..set.len()
        invariant
            forall|j: int| 0 <= j < i ==> set@[j]@ != x@,
    {
        if chars_equal(&set[i], x) {
            assert(lits(set@)[i as int] == x@);
            return true;
        }
    }
    assert forall|j: int| 0 <= j < lits(set@).len() implies lits(set@)[j] != x@ by {
        assert(lits(set@)[j] == set@[j]@);
    }
    false
}

/// The members of `left` that are in `right`, cut.
fn intersect_literal_sets(left: Vec<Vec<char>>, right: Vec<Vec<char>>) -> (r: Vec<Vec<char>>)
    ensures
        lits(r@) == prune(keep_common(lits(left@), lits(right@))),
{
    let ghost a = lits(left@);
    let ghost b = lits(right@);
    let mut out: Vec<Vec<char>> = Vec::new();
    for i in 0..left.len()
        invariant
            a == lits(left@),
            b == lits(right@),
            lits(out@) == keep_common(a.take(i as int), b),
    {
        assert(a.take(i + 1).drop_last() =~= a.take(i as int));
        assert(a.take(i + 1).last() == left@[i as int]@);
        if contains_literal(&right, &left[i]) {
            let ghost before = lits(out@);
            out.push(copy_chars(&left[i]));
            assert(lits(out@) =~= before.push(left@[i as int]@));
        }
    }
    assert(a.take(left.len() as int) =~= a);
    prune_literal_set(&mut out);
    out
}

/// Adds a non-empty run of characters to both sets and empties it.
fn flush_literal_run(
    must_literals: &mut Vec<Vec<char>>,
    needles: &mut Vec<Vec<char>>,
    literal_run: &mut Vec<char>,
)
    ensures
        ({
            let after = flush(
                ConcatModel {
                    must: lits(old(must_literals)@),
                    needles: lits(old(needles)@),
                    run: old(literal_run)@,
                    nullable: true,
                },
            );
            &&& lits(final(must_literals)@) == after.must
            &&& lits(final(needles)@) == after.needles
            &&& final(literal_run)@ == Seq::<char>::empty()
        }),
{
    if literal_run.len() == 0 {
        return;
    }
    let literal = copy_chars(literal_run);
    insert_literal(must_literals, copy_chars(&literal));
    prune_literal_set(must_literals);
    insert_literal(needles, literal);
    prune_literal_set(needles);
    *literal_run = Vec::new();
}

// ----- the analysis -----

/// The character a class accepts alone, if any.
fn class_single_literal(class: &CharClass) -> (r: Option<char>)
    ensures
        r == single_literal(class@),
{
    if class.negated || class.ranges.len() != 1 {
        return None;
    }
    let range = class.ranges[0];
    if range.start == range.end {
        Some(range.start)
    } else {
        None
    }
}

/// The character a tree matches alone, if it is such a class.
fn ast_single_literal(ast: &Ast) -> (r: Option<char>)
    ensures
        r == tree_literal(ast@),
{
    match ast {
        Ast::CharClass(class) => class_single_literal(class),
        _ => None,
    }
}

fn analyze_char_class(class: &CharClass) -> (r: AnalysisSet)
    ensures
        r.model() == analysis(AstModel::Class(class@)),
{
    let mut must_literals: Vec<Vec<char>> = Vec::new();
    let mut needles: Vec<Vec<char>> = Vec::new();
    if let Some(literal) = class_single_literal(class) {
        let mut one: Vec<char> = Vec::new();
        one.push(literal);
        must_literals.push(copy_chars(&one));
        needles.push(one);
        assert(lits(must_literals@) =~= seq![seq![literal]]);
        assert(lits(needles@) =~= seq![seq![literal]]);
    } else {
        assert(lits(must_literals@) =~= Seq::<Seq<char>>::empty());
        assert(lits(needles@) =~= Seq::<Seq<char>>::empty());
    }
    AnalysisSet { must_literals, needles, nullable: false }
}

fn empty_set(nullable: bool) -> (r: AnalysisSet)
    ensures
        r.model() == (LitModel { must: Seq::empty(), needles: Seq::empty(), nullable }),
{
    let r = AnalysisSet { must_literals: Vec::new(), needles: Vec::new(), nullable };
    assert(lits(r.must_literals@) =~= Seq::<Seq<char>>::empty());
    assert(lits(r.needles@) =~= Seq::<Seq<char>>::empty());
    r
}

#[verifier::loop_isolation(false)]
fn analyze_concat(exprs: &Vec<Ast>) -> (r: AnalysisSet)
    ensures
        r.model() == analysis(Ast::Concat(*exprs)@),
    decreases exprs, 0int,
{
    proof {
        lemma_concat_view(*exprs);
    }
    let ghost items = views(exprs@);
    let mut must_literals: Vec<Vec<char>> = Vec::new();
    let mut needles: Vec<Vec<char>> = Vec::new();
    let mut literal_run: Vec<char> = Vec::new();
    let mut nullable = true;
    proof {
        assert(items.subrange(0, 0) =~= Seq::<AstModel>::empty());
        assert(lits(must_literals@) =~= Seq::<Seq<char>>::empty());
        assert(lits(needles@) =~= Seq::<Seq<char>>::empty());
        assert(literal_run@ =~= Seq::<char>::empty());
    }
    for i in 0..exprs.len()
        invariant
            items == views(exprs@),
            items.len() == exprs@.len(),
            ({
                let st = concat_walk(items.subrange(0, i as int));
                &&& lits(must_literals@) == st.must
                &&& lits(needles@) == st.needles
                &&& literal_run@ == st.run
                &&& nullable == st.nullable
            }),
    {
        let ghost prev = concat_walk(items.subrange(0, i as int));
        assert(items.subrange(0, i + 1).subrange(0, i as int) =~= items.subrange(0, i as int));
        assert(items.subrange(0, i + 1)[i as int] == exprs@[i as int]@);
        let expr = &exprs[i];
        let child = analyze_ast_set(expr);
        nullable = nullable && child.nullable;
        if let Some(literal) = ast_single_literal(expr) {
            literal_run.push(literal);
        } else {
            flush_literal_run(&mut must_literals, &mut needles, &mut literal_run);
            union_literal_sets(&mut must_literals, child.must_literals);
            union_literal_sets(&mut needles, child.needles);
        }
    }
    assert(items.subrange(0, exprs.len() as int) =~= items);
    flush_literal_run(&mut must_literals, &mut needles, &mut literal_run);
    AnalysisSet { must_literals, needles, nullable }
}

fn analyze_alternate(left: &Ast, right: &Ast, Ghost(whole): Ghost<Ast>) -> (r: AnalysisSet)
    requires
        whole matches Ast::Alternate(l, r) && *l == *left && *r == *right,
    ensures
        r.model() == analysis(AstModel::Alternate(Box::new(left@), Box::new(right@))),
    decreases whole, 0int,
{
    let l = analyze_ast_set(left);
    let rt = analyze_ast_set(right);
    let must_literals = intersect_literal_sets(l.must_literals, rt.must_literals);
    let mut needles = l.needles;
    union_literal_sets(&mut needles, rt.needles);
    AnalysisSet { must_literals, needles, nullable: l.nullable || rt.nullable }
}

fn analyze_ast_set(ast: &Ast) -> (r: AnalysisSet)
    ensures
        r.model() == analysis(ast@),
    decreases ast, 1int,
{
    match ast {
        Ast::Empty => empty_set(true),
        Ast::Assertion(_) => empty_set(true),
        Ast::Backreference(_) => empty_set(false),
        Ast::CharClass(class) => analyze_char_class(class),
        Ast::Capture { expr, .. } => analyze_ast_set(expr),
        Ast::ZeroOrMore { expr, .. } => {
            let child = analyze_ast_set(expr);
            let r = AnalysisSet { must_literals: Vec::new(), needles: child.needles, nullable: true };
            assert(lits(r.must_literals@) =~= Seq::<Seq<char>>::empty());
            r
        },
        Ast::ZeroOrOne { expr, .. } => {
            let child = analyze_ast_set(expr);
            let r = AnalysisSet { must_literals: Vec::new(), needles: child.needles, nullable: true };
            assert(lits(r.must_literals@) =~= Seq::<Seq<char>>::empty());
            r
        },
        Ast::OneOrMore { expr, .. } => analyze_ast_set(expr),
        Ast::Repeat { expr, min, .. } => {
            let child = analyze_ast_set(expr);
            let must_literals = if *min == 0 {
                Vec::new()
            } else {
                child.must_literals
            };
            assert(*min == 0 ==> lits(must_literals@) =~= Seq::<Seq<char>>::empty());
            AnalysisSet {
                must_literals,
                needles: child.needles,
                nullable: if *min == 0 {
                    true
                } else {
                    child.nullable
                },
            }
        },
        Ast::Concat(exprs) => analyze_concat(exprs),
        Ast::Alternate(left, right) => analyze_alternate(left, right, Ghost(*ast)),
    }
}

/// The first `MUST_LITERAL_LIMIT` members of an ordered set, as strings.
fn literal_set_to_vec(set: Vec<Vec<char>>) -> (r: Vec<String>)
    ensures
        strings(r@) == prune(lits(set@)),
{
    let ghost s = prune(lits(set@));
    let n = if set.len() <= MUST_LITERAL_LIMIT {
        set.len()
    } else {
        MUST_LITERAL_LIMIT
    };
    let mut out: Vec<String> = Vec::new();
    for i in 0..n
        invariant
            s == prune(lits(set@)),
            n == s.len(),
            n <= set.len(),
            strings(out@) == s.take(i as int),
    {
        let text = string_from_chars(&set[i]);
        let ghost before = strings(out@);
        out.push(text);
        assert(strings(out@) =~= before.push(set@[i as int]@));
        assert(s.take(i + 1) =~= s.take(i as int).push(s[i as int]));
    }
    assert(s.take(n as int) =~= s);
    out
}

/// The analysis of `ast`, with each set as strings.
pub fn analyze_ast(ast: &Ast) -> (r: AstAnalysis)
    ensures
        strings(r.must_literals@) == prune(analysis(ast@).must),
        strings(r.needles@) == prune(analysis(ast@).needles),
        r.nullable == analysis(ast@).nullable,
{
    let result = analyze_ast_set(ast);
    AstAnalysis {
        must_literals: literal_set_to_vec(result.must_literals),
        needles: literal_set_to_vec(result.needles),
        nullable: result.nullable,
    }
}

/// Substrings that every match of `ast` contains.
pub fn extract_must_literals(ast: &Ast) -> (r: Vec<String>)
    ensures
        strings(r@) == prune(analysis(ast@).must),
{
    analyze_ast(ast).must_literals
}

/// Candidate substrings of the matches of `ast`.
pub fn extract_needles(ast: &Ast) -> (r: Vec<String>)
    ensures
        strings(r@) == prune(analysis(ast@).needles),
{
    analyze_ast(ast).needles
}

/// Whether `ast` can match the empty string.
pub fn is_nullable(ast: &Ast) -> (r: bool)
    ensures
        r == analysis(ast@).nullable,
{
    analyze_ast(ast).nullable
}

} // verus!
