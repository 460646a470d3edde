//! Capture numbering: a parsed pattern numbers its groups below its own
//! length, and a compiled program names no capture slot above the largest
//! group of its tree, so the slots of any compiled pattern can be counted.
use vstd::prelude::*;
use crate::engine::ast::{AstModel, CharRange, literal_class};
use crate::engine::compiler::{
    code_list, code_of, code_opt, code_opts, code_star, code_times, compile_outcome, first_bad_backref,
    first_bad_backref_list, max_capture, max_capture_list, split_for,
};
use crate::engine::evaluator::{max_slot_index, slot_index};
use crate::engine::instruction::InstrModel;
use crate::engine::laws::{lemma_code_targets, target_ok};
use crate::engine::parser::{
    Step, any_class, model_backref_digits, model_char_class, model_class_atom, model_class_items, model_escape, model_expr,
    model_expr_rest, model_factor, model_number_from, model_parse, model_quantify, model_repeat,
    model_seq, model_seq_loop, model_term, peek_at, seq_tree,
};

verus! {

/// Every range of `ranges` has its start at or before its end.
pub open spec fn ordered_ranges(ranges: Seq<CharRange>) -> bool {
    forall|k: int| 0 <= k < ranges.len() ==> (#[trigger] ranges[k]).start <= ranges[k].end
}

/// Numbering the groups of `a` in pre-order (the order of their `(`) from
/// `c`, one number each with no gap: the number after the last, when the
/// groups of `a` carry exactly those numbers.
pub open spec fn numbering(a: AstModel, c: int) -> Option<int>
    decreases a, 0int,
{
    match a {
        AstModel::Capture(e, i) => if i == c {
            numbering(*e, c + 1)
        } else {
            None
        },
        AstModel::ZeroOrMore(e, _) => numbering(*e, c),
        AstModel::OneOrMore(e, _) => numbering(*e, c),
        AstModel::ZeroOrOne(e, _) => numbering(*e, c),
        AstModel::Repeat(e, _, _, _) => numbering(*e, c),
        AstModel::Concat(items) => numbering_list(items, c),
        AstModel::Alternate(l, r) => match numbering(*l, c) {
            Some(c1) => numbering(*r, c1),
            None => None,
        },
        _ => Some(c),
    }
}

/// The numbering of the groups of a list of trees, first to last.
pub open spec fn numbering_list(items: Seq<AstModel>, c: int) -> Option<int>
    decreases items, 0int,
{
    if items.len() == 0 {
        Some(c)
    } else {
        match numbering_list(items.subrange(0, items.len() - 1), c) {
            Some(c1) => numbering(items[items.len() - 1], c1),
            None => None,
        }
    }
}

/// The classes of `a` have ordered ranges, its bounded repetitions have
/// `min <= max`, and all its repetitions are greedy.
pub open spec fn tidy(a: AstModel) -> bool
    decreases a, 0int,
{
    match a {
        AstModel::Class(cl) => ordered_ranges(cl.ranges),
        AstModel::Capture(e, _) => tidy(*e),
        AstModel::ZeroOrMore(e, g) => g && tidy(*e),
        AstModel::OneOrMore(e, g) => g && tidy(*e),
        AstModel::ZeroOrOne(e, g) => g && tidy(*e),
        AstModel::Repeat(e, g, min, max) => g && (max matches Some(x) ==> min <= x) && tidy(*e),
        AstModel::Concat(items) => tidy_list(items),
        AstModel::Alternate(l, r) => tidy(*l) && tidy(*r),
        _ => true,
    }
}

/// Every tree of a list is tidy.
pub open spec fn tidy_list(items: Seq<AstModel>) -> bool
    decreases items, 0int,
{
    if items.len() == 0 {
        true
    } else {
        tidy_list(items.subrange(0, items.len() - 1)) && tidy(items[items.len() - 1])
    }
}

/// The result, when there is one, numbers its groups from `c0` on and is tidy.
pub open spec fn shaped(r: Step<AstModel>, c0: int) -> bool {
    r matches Step::Done(a, _p2, c2) ==> numbering(a, c0) == Some(c2) && tidy(a)
}

proof fn lemma_push_ordered(ranges: Seq<CharRange>, r: CharRange)
    requires
        ordered_ranges(ranges),
        r.start <= r.end,
    ensures
        ordered_ranges(ranges.push(r)),
{
    assert forall|k: int| 0 <= k < ranges.push(r).len() implies (#[trigger] ranges.push(r)[k]).start
        <= ranges.push(r)[k].end by {
        if k < ranges.len() {
            assert(ranges.push(r)[k] == ranges[k]);
        }
    }
}

proof fn lemma_literal_ordered(ch: char)
    ensures
        ordered_ranges(literal_class(ch).ranges),
        tidy(AstModel::Class(literal_class(ch))),
{
    assert(literal_class(ch).ranges[0] == CharRange { start: ch, end: ch });
}

proof fn lemma_number_from(s: Seq<char>, p: int, c: int, v: int, has: bool)
    requires
        0 <= p <= s.len(),
    ensures
        model_number_from(s, p, c, v, has) matches Step::Done(_, p2, c2) ==> c2 == c && p <= p2 <= s.len(),
    decreases s.len() - p,
{
    if p < s.len() {
        lemma_number_from(s, p + 1, c, v * 10 + (s[p] as int - '0' as int), true);
    }
}

proof fn lemma_repeat(s: Seq<char>, p: int, c: int)
    requires
        0 <= p <= s.len(),
    ensures
        model_repeat(s, p, c) matches Step::Done(_, p2, c2) ==> c2 == c && p <= p2 <= s.len(),
        model_repeat(s, p, c) matches Step::Done(b, _, _) ==> (b.1 matches Some(x) ==> b.0 <= x),
{
    lemma_number_from(s, p, c, 0, false);
    if let Step::Done(_, p1, _) = model_number_from(s, p, c, 0, false) {
        if peek_at(s, p1) == Some(',') && p1 + 1 <= s.len() {
            lemma_number_from(s, p1 + 1, c, 0, false);
        }
    }
}

spec fn items_ok(s: Seq<char>, p: int, c: int, ranges: Seq<CharRange>) -> bool {
    model_class_items(s, p, c, ranges) matches Step::Done(rs, p2, c2) ==> c2 == c && p <= p2 <= s.len() && (
    ordered_ranges(ranges) ==> ordered_ranges(rs))
}

proof fn lemma_items_dash_end(s: Seq<char>, p: int, c: int, ranges: Seq<CharRange>, start: char, p1: int, c1: int)
    requires
        0 <= p < s.len(),
        s[p] != ']',
        model_class_atom(s, p, c) == Step::<char>::Done(start, p1, c1),
        peek_at(s, p1) == Some('-'),
        peek_at(s, p1 + 1) == Some(']'),
        p < p1,
        items_ok(s, p1 + 1, c, ranges.push(CharRange { start: start, end: start }).push(CharRange { start: '-', end: '-' })),
    ensures
        items_ok(s, p, c, ranges),
{
    if ordered_ranges(ranges) {
        lemma_push_ordered(ranges, CharRange { start: start, end: start });
        lemma_push_ordered(ranges.push(CharRange { start: start, end: start }), CharRange { start: '-', end: '-' });
    }
}

proof fn lemma_items_range(
    s: Seq<char>,
    p: int,
    c: int,
    ranges: Seq<CharRange>,
    start: char,
    p1: int,
    c1: int,
    e: char,
    p2: int,
    c2: int,
)
    requires
        0 <= p < s.len(),
        s[p] != ']',
        model_class_atom(s, p, c) == Step::<char>::Done(start, p1, c1),
        peek_at(s, p1) == Some('-'),
        peek_at(s, p1 + 1) is Some,
        peek_at(s, p1 + 1) != Some(']'),
        model_class_atom(s, p1 + 1, c) == Step::<char>::Done(e, p2, c2),
        !(e < start),
        p < p2,
        items_ok(s, p2, c, ranges.push(CharRange { start: start, end: e })),
    ensures
        items_ok(s, p, c, ranges),
{
    if ordered_ranges(ranges) {
        lemma_push_ordered(ranges, CharRange { start: start, end: e });
    }
}

proof fn lemma_items_plain(s: Seq<char>, p: int, c: int, ranges: Seq<CharRange>, start: char, p1: int, c1: int)
    requires
        0 <= p < s.len(),
        s[p] != ']',
        model_class_atom(s, p, c) == Step::<char>::Done(start, p1, c1),
        peek_at(s, p1) != Some('-'),
        p < p1,
        items_ok(s, p1, c, ranges.push(CharRange { start: start, end: start })),
    ensures
        items_ok(s, p, c, ranges),
{
    if ordered_ranges(ranges) {
        lemma_push_ordered(ranges, CharRange { start: start, end: start });
    }
}

proof fn lemma_class_items(s: Seq<char>, p: int, c: int, ranges: Seq<CharRange>)
    requires
        0 <= p <= s.len(),
    ensures
        items_ok(s, p, c, ranges),
    decreases s.len() - p, 2int,
{
    if p < s.len() && s[p] != ']' {
        let atom = model_class_atom(s, p, c);
        if atom is Done {
            lemma_items_after_atom(s, p, c, ranges, atom->Done_0, atom->Done_1, atom->Done_2);
        }
    }
}

proof fn lemma_items_after_atom(s: Seq<char>, p: int, c: int, ranges: Seq<CharRange>, first: char, p1: int, c1: int)
    requires
        0 <= p < s.len(),
        s[p] != ']',
        model_class_atom(s, p, c) == Step::<char>::Done(first, p1, c1),
    ensures
        items_ok(s, p, c, ranges),
    decreases s.len() - p, 1int,
{
    assert(p < p1 <= s.len());
    if peek_at(s, p1) == Some('-') {
        if peek_at(s, p1 + 1) == Some(']') {
            lemma_class_items(
                s,
                p1 + 1,
                c,
                ranges.push(CharRange { start: first, end: first }).push(CharRange { start: '-', end: '-' }),
            );
            lemma_items_dash_end(s, p, c, ranges, first, p1, c1);
        } else if peek_at(s, p1 + 1) is Some {
            let second = model_class_atom(s, p1 + 1, c);
            if second is Done {
                lemma_items_range_after(s, p, c, ranges, first, p1, c1, second->Done_0, second->Done_1, second->Done_2);
            }
        }
    } else {
        lemma_class_items(s, p1, c, ranges.push(CharRange { start: first, end: first }));
        lemma_items_plain(s, p, c, ranges, first, p1, c1);
    }
}

proof fn lemma_items_range_after(
    s: Seq<char>,
    p: int,
    c: int,
    ranges: Seq<CharRange>,
    first: char,
    p1: int,
    c1: int,
    last: char,
    p2: int,
    c2: int,
)
    requires
        0 <= p < s.len(),
        s[p] != ']',
        p < p1 <= s.len(),
        model_class_atom(s, p, c) == Step::<char>::Done(first, p1, c1),
        peek_at(s, p1) == Some('-'),
        peek_at(s, p1 + 1) is Some,
        peek_at(s, p1 + 1) != Some(']'),
        model_class_atom(s, p1 + 1, c) == Step::<char>::Done(last, p2, c2),
    ensures
        items_ok(s, p, c, ranges),
    decreases s.len() - p, 0int,
{
    assert(p1 + 1 < p2 <= s.len());
    if !(last < first) {
        lemma_class_items(s, p2, c, ranges.push(CharRange { start: first, end: last }));
        lemma_items_range(s, p, c, ranges, first, p1, c1, last, p2, c2);
    }
}

proof fn lemma_char_class(s: Seq<char>, p: int, c: int)
    requires
        0 <= p <= s.len(),
    ensures
        model_char_class(s, p, c) matches Step::Done(a, p2, c2) ==> c2 == c && p <= p2 <= s.len()
            && max_capture(a) == 0,
        shaped(model_char_class(s, p, c), c),
{
    let negated = peek_at(s, p) == Some('^');
    let p0 = if negated {
        p + 1
    } else {
        p
    };
    let leading = peek_at(s, p0) == Some(']');
    let init = if leading {
        seq![CharRange { start: ']', end: ']' }]
    } else {
        Seq::empty()
    };
    let p1 = if leading {
        p0 + 1
    } else {
        p0
    };
    lemma_class_items(s, p1, c, init);
    assert(ordered_ranges(init));
}

proof fn lemma_backref_digits(s: Seq<char>, p: int, c: int, v: int)
    requires
        0 <= p <= s.len(),
    ensures
        model_backref_digits(s, p, c, v) matches Step::Done(_, p2, c2) ==> c2 == c && p <= p2 <= s.len(),
    decreases s.len() - p,
{
    if p < s.len() {
        lemma_backref_digits(s, p + 1, c, v * 10 + (s[p] as int - '0' as int));
    }
}

proof fn lemma_escape(s: Seq<char>, p: int, c: int)
    requires
        0 <= p <= s.len(),
    ensures
        model_escape(s, p, c) matches Step::Done(a, p2, c2) ==> c2 == c && p <= p2 <= s.len()
            && max_capture(a) == 0,
        shaped(model_escape(s, p, c), c),
{
    if p < s.len() {
        lemma_backref_digits(s, p + 1, c, s[p] as int - '0' as int);
        lemma_literal_ordered(s[p]);
    }
}

/// What every tree rule keeps: positions move forward inside the text, each
/// new group takes a number of its own and a character of its own, and every
/// group of the result is numbered below the next free number.
pub open spec fn numbered(r: Step<AstModel>, s: Seq<char>, p: int, c: int) -> bool {
    r matches Step::Done(a, p2, c2) ==> p <= p2 <= s.len() && c <= c2 && c2 - c <= p2 - p && max_capture(
        a,
    ) < c2
}

proof fn lemma_factor(s: Seq<char>, p: int, c: int)
    requires
        0 <= p <= s.len(),
        s.len() < usize::MAX,
        1 <= c <= p + 1,
    ensures
        numbered(model_factor(s, p, c), s, p, c),
        shaped(model_factor(s, p, c), c),
    decreases s.len() - p, 0int,
{
    if p < s.len() {
        let ch = s[p];
        if ch == '(' {
            if peek_at(s, p + 1) != Some('?') {
                lemma_expr(s, p + 1, c + 1);
            }
        } else if ch == '[' {
            lemma_char_class(s, p + 1, c);
        } else if ch == '\\' {
            lemma_escape(s, p + 1, c);
        } else if ch == '.' {
            assert(any_class().ranges[0] == CharRange { start: '\u{0}', end: '\u{10FFFF}' });
            assert(ordered_ranges(any_class().ranges));
        } else {
            lemma_literal_ordered(ch);
        }
    }
}

proof fn lemma_term(s: Seq<char>, p: int, c: int)
    requires
        0 <= p <= s.len(),
        s.len() < usize::MAX,
        1 <= c <= p + 1,
    ensures
        numbered(model_term(s, p, c), s, p, c),
        shaped(model_term(s, p, c), c),
    decreases s.len() - p, 1int,
{
    lemma_factor(s, p, c);
    if let Step::Done(base, p1, c1) = model_factor(s, p, c) {
        if peek_at(s, p1) == Some('{') {
            lemma_repeat(s, p1 + 1, c1);
        }
        assert(numbered(model_quantify(s, base, p1, c1), s, p, c));
        assert(shaped(model_quantify(s, base, p1, c1), c));
    }
}

proof fn lemma_seq_loop(s: Seq<char>, p: int, c: int, items: Seq<AstModel>, c0: int)
    requires
        0 <= p <= s.len(),
        s.len() < usize::MAX,
        1 <= c <= p + 1,
        max_capture_list(items) < c,
        numbering_list(items, c0) == Some(c),
        tidy_list(items),
    ensures
        model_seq_loop(s, p, c, items) matches Step::Done(items2, p2, c2) ==> p <= p2 <= s.len() && c
            <= c2 && c2 - c <= p2 - p && max_capture_list(items2) < c2,
        model_seq_loop(s, p, c, items) matches Step::Done(items2, _p2, c2) ==> numbering_list(items2, c0)
            == Some(c2) && tidy_list(items2),
    decreases s.len() - p, 2int,
{
    if p < s.len() && s[p] != '|' && s[p] != ')' {
        lemma_term(s, p, c);
        if let Step::Done(t, p1, c1) = model_term(s, p, c) {
            if p < p1 <= s.len() {
                assert(items.push(t).subrange(0, items.len() as int) =~= items);
                lemma_seq_loop(s, p1, c1, items.push(t), c0);
            }
        }
    }
}

proof fn lemma_seq(s: Seq<char>, p: int, c: int)
    requires
        0 <= p <= s.len(),
        s.len() < usize::MAX,
        1 <= c <= p + 1,
    ensures
        numbered(model_seq(s, p, c), s, p, c),
        shaped(model_seq(s, p, c), c),
    decreases s.len() - p, 3int,
{
    lemma_seq_loop(s, p, c, Seq::empty(), c);
    if let Step::Done(items, p1, c1) = model_seq_loop(s, p, c, Seq::empty()) {
        if items.len() == 1 {
            assert(items.subrange(0, 0) =~= Seq::<AstModel>::empty());
        }
        assert(max_capture(seq_tree(items)) == max_capture_list(items));
        assert(numbering(seq_tree(items), c) == numbering_list(items, c));
        assert(tidy(seq_tree(items)) == tidy_list(items));
    }
}

proof fn lemma_expr_rest(s: Seq<char>, left: AstModel, p: int, c: int, c0: int)
    requires
        0 <= p <= s.len(),
        s.len() < usize::MAX,
        1 <= c <= p + 1,
        max_capture(left) < c,
        numbering(left, c0) == Some(c),
        tidy(left),
    ensures
        numbered(model_expr_rest(s, left, p, c), s, p, c),
        shaped(model_expr_rest(s, left, p, c), c0),
    decreases s.len() - p, 4int,
{
    if peek_at(s, p) == Some('|') {
        lemma_seq(s, p + 1, c);
        if let Step::Done(right, p2, c2) = model_seq(s, p + 1, c) {
            if p < p2 <= s.len() {
                lemma_expr_rest(s, AstModel::Alternate(Box::new(left), Box::new(right)), p2, c2, c0);
            }
        }
    }
}

proof fn lemma_expr(s: Seq<char>, p: int, c: int)
    requires
        0 <= p <= s.len(),
        s.len() < usize::MAX,
        1 <= c <= p + 1,
    ensures
        numbered(model_expr(s, p, c), s, p, c),
        shaped(model_expr(s, p, c), c),
    decreases s.len() - p, 5int,
{
    lemma_seq(s, p, c);
    if let Step::Done(left, p1, c1) = model_seq(s, p, c) {
        if p <= p1 <= s.len() {
            lemma_expr_rest(s, left, p1, c1, c);
        }
    }
}

/// A parsed pattern numbers its groups below its length.
pub proof fn lemma_parsed_captures(s: Seq<char>)
    requires
        s.len() < usize::MAX,
        model_parse(s) is Done,
    ensures
        max_capture(model_parse(s)->Done_0) <= s.len(),
{
    lemma_expr(s, 0, 1);
}

/// A parsed tree numbers its groups 1, 2, ... in the order of their `(`,
/// with no gap or repeat (through the next capture index the parse gives);
/// its class ranges are ordered, its bounded repetitions have `min <= max`,
/// and all its repetitions are greedy.
pub proof fn law_parsed_tree_shape(s: Seq<char>)
    requires
        s.len() < usize::MAX,
        model_parse(s) is Done,
    ensures
        numbering(model_parse(s)->Done_0, 1) == Some(model_parse(s)->Done_2),
        tidy(model_parse(s)->Done_0),
{
    lemma_expr(s, 0, 1);
}

/// The capture slot that `ins` names is at most `m`, and a backreference
/// names a group from 1 on.
pub open spec fn slot_ok(ins: InstrModel, m: nat) -> bool {
    &&& slot_index(ins) <= m
    &&& ins matches InstrModel::Backref(j) ==> j >= 1
}

/// Every instruction of `code` names a capture slot at most `m`, and every
/// backreference of it a group in `1..=m`.
pub open spec fn slots_within(code: Seq<InstrModel>, m: nat) -> bool {
    forall|i: int| 0 <= i < code.len() ==> #[trigger] slot_ok(code[i], m)
}

proof fn lemma_slots_concat(a: Seq<InstrModel>, b: Seq<InstrModel>, m: nat)
    requires
        slots_within(a, m),
        slots_within(b, m),
    ensures
        slots_within(a + b, m),
{
    assert forall|i: int| 0 <= i < (a + b).len() implies #[trigger] slot_ok((a + b)[i], m) by {
        if i < a.len() {
            assert((a + b)[i] == a[i]);
        } else {
            assert((a + b)[i] == b[i - a.len()]);
        }
    }
}

proof fn lemma_slots_one(ins: InstrModel, m: nat)
    requires
        slot_ok(ins, m),
    ensures
        slots_within(seq![ins], m),
{
    assert(seq![ins][0] == ins);
}

/// The code of a tree whose groups and backreferences all lie in `1..=m`
/// names no slot above `m`.
proof fn lemma_code_slots(a: AstModel, base: int, m: nat)
    requires
        first_bad_backref(a, m) is None,
        max_capture(a) <= m,
    ensures
        slots_within(code_of(a, base), m),
    decreases a, 0int, 0int,
{
    let c = code_of(a, base);
    match a {
        AstModel::Capture(e, i) => {
            let inner = code_of(*e, base + 1);
            lemma_code_slots(*e, base + 1, m);
            lemma_slots_one(InstrModel::SaveStart(i), m);
            lemma_slots_one(InstrModel::SaveEnd(i), m);
            lemma_slots_concat(seq![InstrModel::SaveStart(i)], inner, m);
            lemma_slots_concat(seq![InstrModel::SaveStart(i)] + inner, seq![InstrModel::SaveEnd(i)], m);
        },
        AstModel::ZeroOrMore(e, g) => {
            lemma_star_slots(*e, g, base, m);
        },
        AstModel::OneOrMore(e, g) => {
            let body = code_of(*e, base);
            lemma_code_slots(*e, base, m);
            lemma_slots_one(split_for(g, base, base + body.len() + 1), m);
            lemma_slots_concat(body, seq![split_for(g, base, base + body.len() + 1)], m);
        },
        AstModel::ZeroOrOne(e, g) => {
            lemma_opt_slots(*e, g, base, m);
        },
        AstModel::Repeat(e, g, min, max) => {
            let fixed = code_times(*e, base, min as nat);
            let b2 = base + fixed.len();
            lemma_times_slots(*e, base, min as nat, m);
            let rest = match max {
                Some(x) => if x <= min {
                    Seq::empty()
                } else {
                    code_opts(*e, g, b2, (x - min) as nat)
                },
                None => code_star(*e, g, b2),
            };
            assert(c == fixed + rest);
            match max {
                Some(x) => if x > min {
                    lemma_opts_slots(*e, g, b2, (x - min) as nat, m);
                } else {
                    assert(slots_within(rest, m));
                },
                None => {
                    lemma_star_slots(*e, g, b2, m);
                },
            }
            lemma_slots_concat(fixed, rest, m);
        },
        AstModel::Concat(items) => {
            lemma_list_slots(items, base, m);
        },
        AstModel::Alternate(l, r) => {
            let lc = code_of(*l, base + 1);
            let re = base + 1 + lc.len() + 1;
            let rc = code_of(*r, re);
            lemma_code_slots(*l, base + 1, m);
            lemma_code_slots(*r, re, m);
            let split = InstrModel::Split((base + 1) as usize, re as usize);
            let jump = InstrModel::Jump((re + rc.len()) as usize);
            lemma_slots_one(split, m);
            lemma_slots_one(jump, m);
            lemma_slots_concat(seq![split], lc, m);
            lemma_slots_concat(seq![split] + lc, seq![jump], m);
            lemma_slots_concat(seq![split] + lc + seq![jump], rc, m);
        },
        _ => {
            assert forall|i: int| 0 <= i < c.len() implies #[trigger] slot_ok(c[i], m) by {}
        },
    }
}

proof fn lemma_star_slots(e: AstModel, g: bool, base: int, m: nat)
    requires
        first_bad_backref(e, m) is None,
        max_capture(e) <= m,
    ensures
        slots_within(code_star(e, g, base), m),
    decreases e, 1int, 0int,
{
    let body = code_of(e, base + 1);
    lemma_code_slots(e, base + 1, m);
    let split = split_for(g, base + 1, base + 1 + body.len() + 1);
    let jump = InstrModel::Jump(base as usize);
    lemma_slots_one(split, m);
    lemma_slots_one(jump, m);
    lemma_slots_concat(seq![split], body, m);
    lemma_slots_concat(seq![split] + body, seq![jump], m);
}

proof fn lemma_opt_slots(e: AstModel, g: bool, base: int, m: nat)
    requires
        first_bad_backref(e, m) is None,
        max_capture(e) <= m,
    ensures
        slots_within(code_opt(e, g, base), m),
    decreases e, 1int, 0int,
{
    let body = code_of(e, base + 1);
    lemma_code_slots(e, base + 1, m);
    let split = split_for(g, base + 1, base + 1 + body.len());
    lemma_slots_one(split, m);
    lemma_slots_concat(seq![split], body, m);
}

proof fn lemma_times_slots(e: AstModel, base: int, k: nat, m: nat)
    requires
        first_bad_backref(e, m) is None,
        max_capture(e) <= m,
    ensures
        slots_within(code_times(e, base, k), m),
    decreases e, 2int, k,
{
    if k > 0 {
        let prev = code_times(e, base, (k - 1) as nat);
        lemma_times_slots(e, base, (k - 1) as nat, m);
        lemma_code_slots(e, base + prev.len(), m);
        lemma_slots_concat(prev, code_of(e, base + prev.len()), m);
    }
}

proof fn lemma_opts_slots(e: AstModel, g: bool, base: int, k: nat, m: nat)
    requires
        first_bad_backref(e, m) is None,
        max_capture(e) <= m,
    ensures
        slots_within(code_opts(e, g, base, k), m),
    decreases e, 2int, k,
{
    if k > 0 {
        let prev = code_opts(e, g, base, (k - 1) as nat);
        lemma_opts_slots(e, g, base, (k - 1) as nat, m);
        lemma_opt_slots(e, g, base + prev.len(), m);
        lemma_slots_concat(prev, code_opt(e, g, base + prev.len()), m);
    }
}

proof fn lemma_list_slots(items: Seq<AstModel>, base: int, m: nat)
    requires
        first_bad_backref_list(items, m) is None,
        max_capture_list(items) <= m,
    ensures
        slots_within(code_list(items, base), m),
    decreases items, 0int, 0int,
{
    if items.len() > 0 {
        let init = items.subrange(0, items.len() - 1);
        let prev = code_list(init, base);
        lemma_list_slots(init, base, m);
        lemma_code_slots(items[items.len() - 1], base + prev.len(), m);
        lemma_slots_concat(prev, code_of(items[items.len() - 1], base + prev.len()), m);
    }
}

proof fn lemma_max_slot_bound(prog: Seq<InstrModel>, m: nat)
    requires
        slots_within(prog, m),
    ensures
        max_slot_index(prog) <= m,
    decreases prog.len(),
{
    if prog.len() > 0 {
        assert forall|i: int| 0 <= i < prog.drop_last().len() implies #[trigger] slot_ok(prog.drop_last()[i], m) by {
            assert(prog.drop_last()[i] == prog[i]);
        }
        lemma_max_slot_bound(prog.drop_last(), m);
        assert(slot_ok(prog[prog.len() - 1], m));
    }
}

/// The program compiled from a pattern names no capture slot above the
/// pattern's length, so its slots can be counted in a `usize`.
pub proof fn lemma_compiled_slots(s: Seq<char>)
    requires
        s.len() < usize::MAX,
        model_parse(s) is Done,
        compile_outcome(model_parse(s)->Done_0) is Ok,
    ensures
        max_slot_index(compile_outcome(model_parse(s)->Done_0)->Ok_0) <= s.len(),
{
    let a = model_parse(s)->Done_0;
    let m = max_capture(a);
    lemma_parsed_captures(s);
    lemma_code_slots(a, 0, m);
    let c = code_of(a, 0);
    let prog = compile_outcome(a)->Ok_0;
    assert(prog == c.push(InstrModel::Match));
    lemma_slots_one(InstrModel::Match, m);
    assert(prog =~= c + seq![InstrModel::Match]);
    lemma_slots_concat(c, seq![InstrModel::Match], m);
    lemma_max_slot_bound(prog, m);
}

/// A compiled program ends with its only `Match`, each of its splits and
/// jumps targets one of its instructions, and each of its backreferences
/// names a group of the tree, in `1..=max_capture`.
pub proof fn law_compiled_shape(a: AstModel)
    requires
        compile_outcome(a) is Ok,
    ensures
        ({
            let prog = compile_outcome(a)->Ok_0;
            &&& prog.len() > 0
            &&& prog[prog.len() - 1] is Match
            &&& forall|i: int| 0 <= i < prog.len() - 1 ==> !(#[trigger] prog[i] is Match)
            &&& forall|i: int|
                0 <= i < prog.len() ==> (#[trigger] prog[i] matches InstrModel::Split(x, y) ==> x < prog.len()
                    && y < prog.len())
            &&& forall|i: int| 0 <= i < prog.len() ==> (#[trigger] prog[i] matches InstrModel::Jump(x) ==> x < prog.len())
            &&& forall|i: int|
                0 <= i < prog.len() ==> (#[trigger] prog[i] matches InstrModel::Backref(j) ==> 1 <= j <= max_capture(a))
        }),
{
    let m = max_capture(a);
    let c = code_of(a, 0);
    let prog = compile_outcome(a)->Ok_0;
    assert(prog == c.push(InstrModel::Match));
    lemma_code_slots(a, 0, m);
    lemma_code_targets(a, 0);
    assert forall|i: int| 0 <= i < prog.len() - 1 implies !(#[trigger] prog[i] is Match) by {
        assert(prog[i] == c[i]);
        assert(target_ok(c[i], 0, c.len() as int));
    }
    assert forall|i: int| 0 <= i < prog.len() implies (#[trigger] prog[i] matches InstrModel::Split(x, y) ==> x
        < prog.len() && y < prog.len()) by {
        if i < c.len() {
            assert(prog[i] == c[i]);
            assert(target_ok(c[i], 0, c.len() as int));
        }
    }
    assert forall|i: int| 0 <= i < prog.len() implies (#[trigger] prog[i] matches InstrModel::Jump(x) ==> x
        < prog.len()) by {
        if i < c.len() {
            assert(prog[i] == c[i]);
            assert(target_ok(c[i], 0, c.len() as int));
        }
    }
    assert forall|i: int| 0 <= i < prog.len() implies (#[trigger] prog[i] matches InstrModel::Backref(j) ==> 1 <= j
        <= m) by {
        if i < c.len() {
            assert(prog[i] == c[i]);
            assert(slot_ok(c[i], m));
        }
    }
}

} // verus!
