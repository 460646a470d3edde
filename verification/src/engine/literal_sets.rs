//! The literal sets of the analysis are ordered sets: strictly increasing by
//! `literal_lt` (so without repeats), and cut to at most
//! `MUST_LITERAL_LIMIT` members.
use vstd::prelude::*;
use crate::engine::analysis::{
    MUST_LITERAL_LIMIT, analysis, byte_len, concat_walk, flush, ins, ins_all, keep_common, lex_lt, literal_lt,
    prune, tree_literal,
};
use crate::engine::ast::AstModel;
use crate::engine::prefilter::{lemma_ins_all_member, lemma_ins_member, lemma_keep_common_member, lemma_prune_member};

verus! {

/// Each member of `s` comes before every later one.
pub open spec fn increasing(s: Seq<Seq<char>>) -> bool {
    forall|i: int, j: int| 0 <= i < j < s.len() ==> literal_lt(#[trigger] s[i], #[trigger] s[j])
}

proof fn lemma_lex_irreflexive(a: Seq<char>)
    ensures
        !lex_lt(a, a),
    decreases a.len(),
{
    if a.len() > 0 {
        lemma_lex_irreflexive(a.drop_first());
    }
}

proof fn lemma_lex_transitive(a: Seq<char>, b: Seq<char>, c: Seq<char>)
    requires
        lex_lt(a, b),
        lex_lt(b, c),
    ensures
        lex_lt(a, c),
    decreases a.len(),
{
    if a.len() > 0 && b.len() > 0 && c.len() > 0 && a[0] == b[0] && b[0] == c[0] {
        lemma_lex_transitive(a.drop_first(), b.drop_first(), c.drop_first());
    }
}

proof fn lemma_lex_total(a: Seq<char>, b: Seq<char>)
    requires
        a != b,
    ensures
        lex_lt(a, b) || lex_lt(b, a),
    decreases a.len(),
{
    if a.len() == 0 && b.len() == 0 {
        assert(a =~= b);
    } else if a.len() > 0 && b.len() > 0 && a[0] == b[0] {
        if a.drop_first() == b.drop_first() {
            assert(a =~= seq![a[0]] + a.drop_first());
            assert(b =~= seq![b[0]] + b.drop_first());
        }
        lemma_lex_total(a.drop_first(), b.drop_first());
    }
}

proof fn lemma_lit_irreflexive(a: Seq<char>)
    ensures
        !literal_lt(a, a),
{
    lemma_lex_irreflexive(a);
}

proof fn lemma_lit_transitive(a: Seq<char>, b: Seq<char>, c: Seq<char>)
    requires
        literal_lt(a, b),
        literal_lt(b, c),
    ensures
        literal_lt(a, c),
{
    if byte_len(a) == byte_len(b) && byte_len(b) == byte_len(c) {
        lemma_lex_transitive(a, b, c);
    }
}

proof fn lemma_lit_total(a: Seq<char>, b: Seq<char>)
    requires
        a != b,
    ensures
        literal_lt(a, b) || literal_lt(b, a),
{
    lemma_lex_total(a, b);
}

proof fn lemma_cons_increasing(x: Seq<char>, s: Seq<Seq<char>>)
    requires
        increasing(s),
        forall|j: int| 0 <= j < s.len() ==> literal_lt(x, #[trigger] s[j]),
    ensures
        increasing(seq![x] + s),
{
    let r = seq![x] + s;
    assert forall|i: int, j: int| 0 <= i < j < r.len() implies literal_lt(#[trigger] r[i], #[trigger] r[j]) by {
        assert(r[j] == s[j - 1]);
        if i > 0 {
            assert(r[i] == s[i - 1]);
        }
    }
}

proof fn lemma_ins_increasing(s: Seq<Seq<char>>, x: Seq<char>)
    requires
        increasing(s),
    ensures
        increasing(ins(s, x)),
    decreases s.len(),
{
    if s.len() == 0 {
    } else if s[0] == x {
    } else if literal_lt(x, s[0]) {
        assert forall|j: int| 0 <= j < s.len() implies literal_lt(x, #[trigger] s[j]) by {
            if j > 0 {
                lemma_lit_transitive(x, s[0], s[j]);
            }
        }
        lemma_cons_increasing(x, s);
    } else {
        let rest = s.drop_first();
        assert(increasing(rest)) by {
            assert forall|i: int, j: int| 0 <= i < j < rest.len() implies literal_lt(#[trigger] rest[i], #[trigger] rest[j]) by {
                assert(rest[i] == s[i + 1] && rest[j] == s[j + 1]);
            }
        }
        lemma_ins_increasing(rest, x);
        lemma_lit_total(x, s[0]);
        let r = ins(rest, x);
        assert forall|j: int| 0 <= j < r.len() implies literal_lt(s[0], #[trigger] r[j]) by {
            assert(r.contains(r[j]));
            lemma_ins_member(rest, x, r[j]);
            if rest.contains(r[j]) {
                let k = choose|k: int| 0 <= k < rest.len() && rest[k] == r[j];
                assert(s[k + 1] == r[j]);
            }
        }
        lemma_cons_increasing(s[0], r);
    }
}

proof fn lemma_ins_all_increasing(a: Seq<Seq<char>>, b: Seq<Seq<char>>)
    requires
        increasing(a),
    ensures
        increasing(ins_all(a, b)),
    decreases b.len(),
{
    if b.len() > 0 {
        lemma_ins_all_increasing(a, b.drop_last());
        lemma_ins_increasing(ins_all(a, b.drop_last()), b.last());
    }
}

proof fn lemma_prune_increasing(s: Seq<Seq<char>>)
    requires
        increasing(s),
    ensures
        increasing(prune(s)),
        prune(s).len() <= MUST_LITERAL_LIMIT,
{
    let p = prune(s);
    assert forall|i: int, j: int| 0 <= i < j < p.len() implies literal_lt(#[trigger] p[i], #[trigger] p[j]) by {
        assert(p[i] == s[i] && p[j] == s[j]);
    }
}

proof fn lemma_keep_common_increasing(a: Seq<Seq<char>>, b: Seq<Seq<char>>)
    requires
        increasing(a),
    ensures
        increasing(keep_common(a, b)),
    decreases a.len(),
{
    if a.len() > 0 {
        let init = a.drop_last();
        assert(increasing(init)) by {
            assert forall|i: int, j: int| 0 <= i < j < init.len() implies literal_lt(#[trigger] init[i], #[trigger] init[j]) by {
                assert(init[i] == a[i] && init[j] == a[j]);
            }
        }
        lemma_keep_common_increasing(init, b);
        if b.contains(a.last()) {
            let k = keep_common(init, b);
            let r = k.push(a.last());
            assert forall|i: int, j: int| 0 <= i < j < r.len() implies literal_lt(#[trigger] r[i], #[trigger] r[j]) by {
                if j == k.len() {
                    assert(k.contains(k[i]));
                    lemma_keep_common_member(init, b, k[i]);
                    let m = choose|m: int| 0 <= m < init.len() && init[m] == k[i];
                    assert(a[m] == k[i]);
                    assert(r[j] == a[a.len() - 1]);
                } else {
                    assert(r[i] == k[i] && r[j] == k[j]);
                }
            }
        }
    }
}

/// The must literals and needles of a tree are increasing.
proof fn lemma_analysis_increasing(a: AstModel)
    ensures
        increasing(analysis(a).must),
        increasing(analysis(a).needles),
    decreases a, 1int,
{
    match a {
        AstModel::Capture(e, _) => lemma_analysis_increasing(*e),
        AstModel::ZeroOrMore(e, _) => lemma_analysis_increasing(*e),
        AstModel::ZeroOrOne(e, _) => lemma_analysis_increasing(*e),
        AstModel::OneOrMore(e, _) => lemma_analysis_increasing(*e),
        AstModel::Repeat(e, _, _, _) => lemma_analysis_increasing(*e),
        AstModel::Concat(items) => {
            lemma_walk_increasing(items);
            lemma_flush_increasing(concat_walk(items));
        },
        AstModel::Alternate(l, r) => {
            lemma_analysis_increasing(*l);
            lemma_analysis_increasing(*r);
            lemma_keep_common_increasing(analysis(*l).must, analysis(*r).must);
            lemma_prune_increasing(keep_common(analysis(*l).must, analysis(*r).must));
            lemma_ins_all_increasing(analysis(*l).needles, analysis(*r).needles);
            lemma_prune_increasing(ins_all(analysis(*l).needles, analysis(*r).needles));
        },
        _ => {},
    }
}

proof fn lemma_flush_increasing(st: crate::engine::analysis::ConcatModel)
    requires
        increasing(st.must),
        increasing(st.needles),
    ensures
        increasing(flush(st).must),
        increasing(flush(st).needles),
{
    if st.run.len() > 0 {
        lemma_ins_increasing(st.must, st.run);
        lemma_prune_increasing(ins(st.must, st.run));
        lemma_ins_increasing(st.needles, st.run);
        lemma_prune_increasing(ins(st.needles, st.run));
    }
}

proof fn lemma_walk_increasing(items: Seq<AstModel>)
    ensures
        increasing(concat_walk(items).must),
        increasing(concat_walk(items).needles),
    decreases items, 0int,
{
    if items.len() > 0 {
        let init = items.subrange(0, items.len() - 1);
        let item = items[items.len() - 1];
        lemma_walk_increasing(init);
        let st = concat_walk(init);
        if tree_literal(item) is None {
            lemma_analysis_increasing(item);
            lemma_flush_increasing(st);
            let f = flush(st);
            lemma_ins_all_increasing(f.must, analysis(item).must);
            lemma_prune_increasing(ins_all(f.must, analysis(item).must));
            lemma_ins_all_increasing(f.needles, analysis(item).needles);
            lemma_prune_increasing(ins_all(f.needles, analysis(item).needles));
        }
    }
}

/// The must literals and the needles that the analysis of a tree gives are
/// ordered by `literal_lt` (longer UTF-8 encodings first, then by
/// characters), hold no literal twice, and are at most `MUST_LITERAL_LIMIT`.
pub proof fn law_literal_sets_ordered(a: AstModel)
    ensures
        increasing(prune(analysis(a).must)),
        prune(analysis(a).must).no_duplicates(),
        prune(analysis(a).must).len() <= MUST_LITERAL_LIMIT,
        increasing(prune(analysis(a).needles)),
        prune(analysis(a).needles).no_duplicates(),
        prune(analysis(a).needles).len() <= MUST_LITERAL_LIMIT,
{
    lemma_analysis_increasing(a);
    lemma_prune_increasing(analysis(a).must);
    lemma_prune_increasing(analysis(a).needles);
    let m = prune(analysis(a).must);
    let n = prune(analysis(a).needles);
    assert forall|i: int, j: int| 0 <= i < m.len() && 0 <= j < m.len() && i != j implies m[i] != m[j] by {
        if i < j {
            assert(literal_lt(m[i], m[j]));
        } else {
            assert(literal_lt(m[j], m[i]));
        }
        lemma_lit_irreflexive(m[i]);
    }
    assert forall|i: int, j: int| 0 <= i < n.len() && 0 <= j < n.len() && i != j implies n[i] != n[j] by {
        if i < j {
            assert(literal_lt(n[i], n[j]));
        } else {
            assert(literal_lt(n[j], n[i]));
        }
        lemma_lit_irreflexive(n[i]);
    }
}

} // verus!
