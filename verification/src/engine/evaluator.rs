//! Backtracking evaluation of a compiled program over a line of text.
//!
//! A run of the program is a sequence of states, each a successor of the one
//! before it (`successors`). The evaluator searches the states reachable from
//! a start state depth first, remembering the states it has seen.
use vstd::prelude::*;
use vstd::set_lib::set_int_range;
use crate::engine::ast::{CharClass, Predicate, class_accepts};
use crate::engine::instruction::{InstrModel, Instruction, program};
use crate::engine::safe_add;
use crate::text::chars_of;

verus! {

/// One state of a run: the next instruction, the position in the text, and
/// the recorded starts and ends of capture groups.
pub struct RunState {
    pub pc: usize,
    pub char_index: usize,
    pub starts: Seq<Option<usize>>,
    pub ends: Seq<Option<usize>>,
}

/// Word characters for word-boundary assertions.
pub open spec fn word_char(c: char) -> bool {
    ('a' <= c && c <= 'z') || ('A' <= c && c <= 'Z') || ('0' <= c && c <= '9') || c == '_'
}

/// Whether position `i` lies between a word character and a non-word one.
pub open spec fn at_word_boundary(chars: Seq<char>, i: int) -> bool {
    let prev = 0 < i && i - 1 < chars.len() && word_char(chars[i - 1]);
    let curr = 0 <= i < chars.len() && word_char(chars[i]);
    prev != curr
}

/// Whether the assertion holds at position `i`.
pub open spec fn assertion_holds(p: Predicate, chars: Seq<char>, i: int) -> bool {
    if i > chars.len() {
        false
    } else {
        match p {
            Predicate::StartOfLine => i == 0 || chars[i - 1] == '\n',
            Predicate::EndOfLine => i == chars.len() || chars[i] == '\n',
            Predicate::StartOfText => i == 0,
            Predicate::EndOfText => i == chars.len(),
            Predicate::WordBoundary => at_word_boundary(chars, i),
            Predicate::NonWordBoundary => !at_word_boundary(chars, i),
        }
    }
}

/// Length of the text captured by group `index`, when it is recorded, lies in
/// the text, and occurs again at the current position.
pub open spec fn backref_len(chars: Seq<char>, s: RunState, index: usize) -> Option<nat> {
    if index < s.starts.len() && index < s.ends.len() && s.starts[index as int] is Some
        && s.ends[index as int] is Some {
        let st = s.starts[index as int]->0 as int;
        let en = s.ends[index as int]->0 as int;
        let ci = s.char_index as int;
        if en < st || en > chars.len() || ci > chars.len() {
            None
        } else if chars.len() - ci < en - st {
            None
        } else if chars.subrange(st, en) == chars.subrange(ci, ci + (en - st)) {
            Some((en - st) as nat)
        } else {
            None
        }
    } else {
        None
    }
}

/// The state with the next instruction.
pub open spec fn advance(s: RunState) -> RunState {
    RunState { pc: (s.pc + 1) as usize, ..s }
}

/// The states that follow `s` in a run; none when `s` fails, matches, or has
/// no instruction.
pub open spec fn successors(prog: Seq<InstrModel>, chars: Seq<char>, s: RunState) -> Seq<RunState> {
    if s.pc >= prog.len() {
        Seq::empty()
    } else {
        match prog[s.pc as int] {
            InstrModel::Class(c) => if s.char_index < chars.len() && class_accepts(
                c,
                chars[s.char_index as int],
            ) {
                seq![RunState { char_index: (s.char_index + 1) as usize, ..advance(s) }]
            } else {
                Seq::empty()
            },
            InstrModel::Assert(p) => if assertion_holds(p, chars, s.char_index as int) {
                seq![advance(s)]
            } else {
                Seq::empty()
            },
            InstrModel::SaveStart(i) => if i < s.starts.len() {
                seq![RunState { starts: s.starts.update(i as int, Some(s.char_index)), ..advance(s) }]
            } else {
                Seq::empty()
            },
            InstrModel::SaveEnd(i) => if i < s.ends.len() {
                seq![RunState { ends: s.ends.update(i as int, Some(s.char_index)), ..advance(s) }]
            } else {
                Seq::empty()
            },
            InstrModel::Backref(i) => match backref_len(chars, s, i) {
                Some(n) => seq![
                    RunState { char_index: (s.char_index + n) as usize, ..advance(s) },
                ],
                None => Seq::empty(),
            },
            InstrModel::Split(a, b) => seq![RunState { pc: a, ..s }, RunState { pc: b, ..s }],
            InstrModel::Jump(a) => seq![RunState { pc: a, ..s }],
            InstrModel::Match => Seq::empty(),
        }
    }
}

/// Step `k` of a path goes to a successor.
pub open spec fn run_step(prog: Seq<InstrModel>, chars: Seq<char>, path: Seq<RunState>, k: int) -> bool {
    successors(prog, chars, path[k]).contains(path[k + 1])
}

/// A run: each state is a successor of the one before it.
pub open spec fn is_run(prog: Seq<InstrModel>, chars: Seq<char>, path: Seq<RunState>) -> bool {
    &&& path.len() > 0
    &&& forall|k: int| 0 <= k < path.len() - 1 ==> #[trigger] run_step(prog, chars, path, k)
}

/// Whether `s` can be reached from `init`.
pub open spec fn reachable(prog: Seq<InstrModel>, chars: Seq<char>, init: RunState, s: RunState) -> bool {
    exists|path: Seq<RunState>|
        #[trigger] is_run(prog, chars, path) && path[0] == init && path[path.len() - 1] == s
}

/// A state at a `Match` instruction.
pub open spec fn at_match(prog: Seq<InstrModel>, s: RunState) -> bool {
    s.pc < prog.len() && prog[s.pc as int] is Match
}

/// Whether some run from `init` reaches `Match`.
pub open spec fn accepts_from(prog: Seq<InstrModel>, chars: Seq<char>, init: RunState) -> bool {
    exists|s: RunState| reachable(prog, chars, init, s) && at_match(prog, s)
}

/// Whether some run from `init` reaches an address with no instruction.
pub open spec fn faults_from(prog: Seq<InstrModel>, chars: Seq<char>, init: RunState) -> bool {
    exists|s: RunState| reachable(prog, chars, init, s) && s.pc >= prog.len()
}

/// The start state at position `start`, with `slots` empty capture slots.
pub open spec fn start_state(start: nat, slots: nat) -> RunState {
    RunState {
        pc: 0,
        char_index: start as usize,
        starts: Seq::new(slots, |i: int| None::<usize>),
        ends: Seq::new(slots, |i: int| None::<usize>),
    }
}

/// What a search from one start state promises: `true` only when `Match` is
/// reachable, `false` only when neither `Match` nor a missing address is, and
/// `InvalidPC` only when a missing address is.
pub open spec fn search_result(
    prog: Seq<InstrModel>,
    chars: Seq<char>,
    init: RunState,
    r: Result<bool, EvalError>,
) -> bool {
    &&& r == Ok::<bool, EvalError>(true) ==> accepts_from(prog, chars, init)
    &&& r == Ok::<bool, EvalError>(false) ==> !accepts_from(prog, chars, init) && !faults_from(
        prog,
        chars,
        init,
    )
    &&& r is Err ==> r == Err::<bool, EvalError>(EvalError::InvalidPC) && faults_from(prog, chars, init)
}

/// Errors returned while evaluating instructions.
#[derive(Debug, Clone, Copy, PartialEq, Eq, Structural)]
pub enum EvalError {
    /// Program counter overflow.
    PCOverFlow,
    /// Character index overflow.
    CharIndexOverFlow,
    /// The program counter names no instruction.
    InvalidPC,
}

/// Errors of `eval_v2`; the same cases as `EvalError`.
#[derive(Debug, Clone, Copy, PartialEq, Eq, Structural)]
pub enum EvalV2Error {
    /// Program counter overflow.
    PCOverFlow,
    /// Character index overflow.
    CharIndexOverFlow,
    /// The program counter names no instruction.
    InvalidPC,
}

// ----- the finite space of states -----

/// Capture values that can occur on a text of length `n`.
pub open spec fn slot_values(n: nat) -> Set<Option<usize>> {
    Set::new(|o: Option<usize>| o matches Some(x) ==> x <= n)
}

/// Capture slot vectors of length `k` on a text of length `n`.
pub open spec fn slot_vectors(k: nat, n: nat) -> Set<Seq<Option<usize>>> {
    Set::new(|v: Seq<Option<usize>>| v.len() == k && forall|i: int| 0 <= i < k ==> slot_values(n).contains(#[trigger] v[i]))
}

/// States of a program of length `len` on a text of length `n` with `k` slots.
pub open spec fn state_space(len: nat, n: nat, k: nat) -> Set<RunState> {
    Set::new(
        |s: RunState|
            s.pc < len && s.char_index <= n && slot_vectors(k, n).contains(s.starts)
                && slot_vectors(k, n).contains(s.ends),
    )
}

pub proof fn lemma_slot_values_finite(n: nat)
    ensures
        slot_values(n).finite(),
{
    let r = set_int_range(0, n as int + 1);
    vstd::set_lib::lemma_int_range(0, n as int + 1);
    let f = |i: int| Some(i as usize);
    r.lemma_map_finite(f);
    let big = r.map(f).insert(None);
    assert forall|o: Option<usize>| slot_values(n).contains(o) implies big.contains(o) by {
        if let Some(x) = o {
            assert(r.contains(x as int));
            assert(f(x as int) == o);
        }
    }
    vstd::set_lib::lemma_set_subset_finite(big, slot_values(n));
}

pub proof fn lemma_slot_vectors_finite(k: nat, n: nat)
    ensures
        slot_vectors(k, n).finite(),
    decreases k,
{
    if k == 0 {
        let one = Set::<Seq<Option<usize>>>::empty().insert(Seq::<Option<usize>>::empty());
        assert forall|v: Seq<Option<usize>>| slot_vectors(0, n).contains(v) implies one.contains(v) by {
            assert(v =~= Seq::<Option<usize>>::empty());
        }
        vstd::set_lib::lemma_set_subset_finite(one, slot_vectors(0, n));
    } else {
        lemma_slot_vectors_finite((k - 1) as nat, n);
        lemma_slot_values_finite(n);
        let prev = slot_vectors((k - 1) as nat, n);
        let vals = slot_values(n);
        let fwd = |v: Seq<Option<usize>>| vals.map(|o: Option<usize>| v.push(o));
        let rev = |w: Seq<Option<usize>>| w.drop_last();
        assert forall|v: Seq<Option<usize>>| prev.contains(v) implies #[trigger] fwd(v).finite() by {
            vals.lemma_map_finite(|o: Option<usize>| v.push(o));
        }
        prev.lemma_map_flatten_by_finite(fwd, rev);
        let big = prev.map_flatten_by(fwd, rev);
        assert forall|w: Seq<Option<usize>>| slot_vectors(k, n).contains(w) implies big.contains(w) by {
            let v = w.drop_last();
            assert(prev.contains(v)) by {
                assert forall|i: int| 0 <= i < k - 1 implies slot_values(n).contains(#[trigger] v[i]) by {
                    assert(v[i] == w[i]);
                }
            }
            assert(vals.contains(w[k - 1]));
            assert(v.push(w[k - 1]) =~= w);
            assert(vals.map(|o: Option<usize>| v.push(o)).contains(w));
        }
        vstd::set_lib::lemma_set_subset_finite(big, slot_vectors(k, n));
    }
}

/// The product of two finite sets is finite.
pub proof fn lemma_product_finite<A, B>(a: Set<A>, b: Set<B>)
    requires
        a.finite(),
        b.finite(),
    ensures
        Set::new(|p: (A, B)| a.contains(p.0) && b.contains(p.1)).finite(),
{
    let fwd = |x: A| b.map(|y: B| (x, y));
    let rev = |p: (A, B)| p.0;
    assert forall|x: A| a.contains(x) implies #[trigger] fwd(x).finite() by {
        b.lemma_map_finite(|y: B| (x, y));
    }
    a.lemma_map_flatten_by_finite(fwd, rev);
    let big = a.map_flatten_by(fwd, rev);
    let target = Set::new(|p: (A, B)| a.contains(p.0) && b.contains(p.1));
    assert forall|p: (A, B)| target.contains(p) implies big.contains(p) by {
        assert(b.map(|y: B| (p.0, y)).contains(p));
    }
    vstd::set_lib::lemma_set_subset_finite(big, target);
}

pub proof fn lemma_state_space_finite(len: nat, n: nat, k: nat)
    ensures
        state_space(len, n, k).finite(),
{
    vstd::set_lib::lemma_int_range(0, len as int);
    vstd::set_lib::lemma_int_range(0, n as int + 1);
    lemma_slot_vectors_finite(k, n);
    let pcs = set_int_range(0, len as int);
    let cis = set_int_range(0, n as int + 1);
    let vs = slot_vectors(k, n);
    lemma_product_finite(pcs, cis);
    lemma_product_finite(vs, vs);
    let p1 = Set::new(|p: (int, int)| pcs.contains(p.0) && cis.contains(p.1));
    let p2 = Set::new(|p: (Seq<Option<usize>>, Seq<Option<usize>>)| vs.contains(p.0) && vs.contains(p.1));
    lemma_product_finite(p1, p2);
    let all = Set::new(
        |p: ((int, int), (Seq<Option<usize>>, Seq<Option<usize>>))| p1.contains(p.0) && p2.contains(p.1),
    );
    let f = |p: ((int, int), (Seq<Option<usize>>, Seq<Option<usize>>))|
        RunState { pc: p.0.0 as usize, char_index: p.0.1 as usize, starts: p.1.0, ends: p.1.1 };
    all.lemma_map_finite(f);
    assert forall|s: RunState| state_space(len, n, k).contains(s) implies all.map(f).contains(s) by {
        let p = ((s.pc as int, s.char_index as int), (s.starts, s.ends));
        assert(all.contains(p));
        assert(f(p) == s);
    }
    vstd::set_lib::lemma_set_subset_finite(all.map(f), state_space(len, n, k));
}

/// Every text position and capture value lies within a text of length `n`,
/// and there are `k` capture slots.
pub open spec fn bounded(s: RunState, n: nat, k: nat) -> bool {
    s.char_index <= n && slot_vectors(k, n).contains(s.starts) && slot_vectors(k, n).contains(s.ends)
}

// ----- runs -----

pub proof fn lemma_reach_self(prog: Seq<InstrModel>, chars: Seq<char>, init: RunState)
    ensures
        reachable(prog, chars, init, init),
{
    let path = seq![init];
    assert(is_run(prog, chars, path));
    assert(path[0] == init && path[path.len() - 1] == init);
}

/// A successor of a reachable state is reachable.
pub proof fn lemma_reach_step(
    prog: Seq<InstrModel>,
    chars: Seq<char>,
    init: RunState,
    s: RunState,
    t: RunState,
)
    requires
        reachable(prog, chars, init, s),
        successors(prog, chars, s).contains(t),
    ensures
        reachable(prog, chars, init, t),
{
    let path = choose|path: Seq<RunState>|
        is_run(prog, chars, path) && path[0] == init && path[path.len() - 1] == s;
    let p2 = path.push(t);
    assert forall|k: int| 0 <= k < p2.len() - 1 implies #[trigger] run_step(prog, chars, p2, k) by {
        if k < path.len() - 1 {
            assert(run_step(prog, chars, path, k));
            assert(p2[k] == path[k] && p2[k + 1] == path[k + 1]);
        }
    }
    assert(is_run(prog, chars, p2));
    assert(p2[0] == init && p2[p2.len() - 1] == t);
}

/// A set of states that holds `init` and every successor of its members holds
/// every state reachable from `init`.
pub proof fn lemma_closed_holds_reachable(
    prog: Seq<InstrModel>,
    chars: Seq<char>,
    init: RunState,
    seen: Seq<RunState>,
    s: RunState,
)
    requires
        seen.contains(init),
        forall|i: int, t: RunState|
            0 <= i < seen.len() && #[trigger] successors(prog, chars, seen[i]).contains(t)
                ==> seen.contains(t),
        reachable(prog, chars, init, s),
    ensures
        seen.contains(s),
{
    let path = choose|path: Seq<RunState>|
        is_run(prog, chars, path) && path[0] == init && path[path.len() - 1] == s;
    lemma_closed_holds_run(prog, chars, seen, path, path.len() - 1);
}

/// Every state of a run that starts in a closed set stays in it.
proof fn lemma_closed_holds_run(
    prog: Seq<InstrModel>,
    chars: Seq<char>,
    seen: Seq<RunState>,
    path: Seq<RunState>,
    k: int,
)
    requires
        is_run(prog, chars, path),
        0 <= k < path.len(),
        seen.contains(path[0]),
        forall|i: int, t: RunState|
            0 <= i < seen.len() && #[trigger] successors(prog, chars, seen[i]).contains(t)
                ==> seen.contains(t),
    ensures
        seen.contains(path[k]),
    decreases k,
{
    if k > 0 {
        lemma_closed_holds_run(prog, chars, seen, path, k - 1);
        let j = choose|j: int| 0 <= j < seen.len() && seen[j] == path[k - 1];
        assert(run_step(prog, chars, path, k - 1));
        assert(successors(prog, chars, seen[j]).contains(path[k]));
    }
}

/// Successors keep positions and capture values within the text.
pub proof fn lemma_successor_bounded(
    prog: Seq<InstrModel>,
    chars: Seq<char>,
    s: RunState,
    t: RunState,
    k: nat,
)
    requires
        bounded(s, chars.len(), k),
        successors(prog, chars, s).contains(t),
    ensures
        bounded(t, chars.len(), k),
{
    let n = chars.len();
    let succ = successors(prog, chars, s);
    let j = choose|j: int| 0 <= j < succ.len() && succ[j] == t;
    match prog[s.pc as int] {
        InstrModel::SaveStart(i) => {
            let v = s.starts.update(i as int, Some(s.char_index));
            assert(slot_vectors(k, n).contains(v)) by {
                assert forall|x: int| 0 <= x < k implies slot_values(n).contains(#[trigger] v[x]) by {
                    if x != i {
                        assert(v[x] == s.starts[x]);
                    }
                }
            }
        },
        InstrModel::SaveEnd(i) => {
            let v = s.ends.update(i as int, Some(s.char_index));
            assert(slot_vectors(k, n).contains(v)) by {
                assert forall|x: int| 0 <= x < k implies slot_values(n).contains(#[trigger] v[x]) by {
                    if x != i {
                        assert(v[x] == s.ends[x]);
                    }
                }
            }
        },
        _ => {},
    }
}

/// A sequence without duplicates inside a finite set is no longer than the set.
pub proof fn lemma_seen_bound(seen: Seq<RunState>, space: Set<RunState>)
    requires
        seen.no_duplicates(),
        space.finite(),
        forall|i: int| 0 <= i < seen.len() ==> space.contains(#[trigger] seen[i]),
    ensures
        seen.len() <= space.len(),
{
    seen.unique_seq_to_set();
    assert(seen.to_set().subset_of(space));
    vstd::set_lib::lemma_len_subset(seen.to_set(), space);
}

// ----- executable state -----

/// Runtime state of one search branch.
#[derive(Debug)]
struct State {
    pc: usize,
    char_index: usize,
    capture_start: Vec<Option<usize>>,
    capture_end: Vec<Option<usize>>,
}

impl View for State {
    type V = RunState;

    closed spec fn view(&self) -> RunState {
        RunState {
            pc: self.pc,
            char_index: self.char_index,
            starts: self.capture_start@,
            ends: self.capture_end@,
        }
    }
}

/// Identity of a state, used to detect revisits.
#[derive(Debug)]
struct StateKey {
    pc: usize,
    char_index: usize,
    capture_start: Vec<Option<usize>>,
    capture_end: Vec<Option<usize>>,
}

impl View for StateKey {
    type V = RunState;

    closed spec fn view(&self) -> RunState {
        RunState {
            pc: self.pc,
            char_index: self.char_index,
            starts: self.capture_start@,
            ends: self.capture_end@,
        }
    }
}

/// The models of a sequence of states.
spec fn state_views(v: Seq<State>) -> Seq<RunState> {
    Seq::new(v.len(), |i: int| v[i]@)
}

/// The models of a sequence of keys.
spec fn key_views(v: Seq<StateKey>) -> Seq<RunState> {
    Seq::new(v.len(), |i: int| v[i]@)
}

/// `n` empty slots.
fn empty_slots(n: usize) -> (r: Vec<Option<usize>>)
    ensures
        r@ == Seq::new(n as nat, |i: int| None::<usize>),
{
    let mut v: Vec<Option<usize>> = Vec::new();
    for i in 0..n
        invariant
            v@ == Seq::new(i as nat, |j: int| None::<usize>),
    {
        v.push(None);
        assert(v@ =~= Seq::new((i + 1) as nat, |j: int| None::<usize>));
    }
    v
}

/// A copy of a slot vector.
fn copy_slots(v: &Vec<Option<usize>>) -> (r: Vec<Option<usize>>)
    ensures
        r@ == v@,
{
    let mut out: Vec<Option<usize>> = Vec::new();
    for i in 0..v.len()
        invariant
            out@ == v@.subrange(0, i as int),
    {
        out.push(v[i]);
        assert(out@ =~= v@.subrange(0, i + 1));
    }
    assert(out@ =~= v@);
    out
}

/// Whether two slot vectors are equal.
fn slots_equal(a: &Vec<Option<usize>>, b: &Vec<Option<usize>>) -> (r: bool)
    ensures
        r == (a@ == b@),
{
    if a.len() != b.len() {
        return false;
    }
    for i in 0..a.len()
        invariant
            a@.len() == b@.len(),
            forall|j: int| 0 <= j < i ==> a@[j] == b@[j],
    {
        let same = match (a[i], b[i]) {
            (None, None) => true,
            (Some(x), Some(y)) => x == y,
            _ => false,
        };
        if !same {
            return false;
        }
    }
    assert(a@ =~= b@);
    true
}

impl State {
    /// The state at `start` with `capture_slots` empty capture slots.
    fn new(start: usize, capture_slots: usize) -> (r: Self)
        ensures
            r@ == start_state(start as nat, capture_slots as nat),
    {
        State {
            pc: 0,
            char_index: start,
            capture_start: empty_slots(capture_slots),
            capture_end: empty_slots(capture_slots),
        }
    }

    /// A copy of the state.
    fn copy(&self) -> (r: Self)
        ensures
            r@ == self@,
    {
        State {
            pc: self.pc,
            char_index: self.char_index,
            capture_start: copy_slots(&self.capture_start),
            capture_end: copy_slots(&self.capture_end),
        }
    }
}

impl StateKey {
    /// The key of a state.
    fn from_state(state: &State) -> (r: Self)
        ensures
            r@ == state@,
    {
        StateKey {
            pc: state.pc,
            char_index: state.char_index,
            capture_start: copy_slots(&state.capture_start),
            capture_end: copy_slots(&state.capture_end),
        }
    }

    /// Whether two keys name the same state.
    fn same(&self, other: &StateKey) -> (r: bool)
        ensures
            r == (self@ == other@),
    {
        self.pc == other.pc && self.char_index == other.char_index && slots_equal(
            &self.capture_start,
            &other.capture_start,
        ) && slots_equal(&self.capture_end, &other.capture_end)
    }
}

/// Adds `key` to `visited` unless it is there; tells whether it was added.
fn insert_key(visited: &mut Vec<StateKey>, key: StateKey) -> (r: bool)
    ensures
        r == !key_views(old(visited)@).contains(key@),
        key_views(final(visited)@) == if r {
            key_views(old(visited)@).push(key@)
        } else {
            key_views(old(visited)@)
        },
{
    for i in 0..visited.len()
        invariant
            forall|j: int| 0 <= j < i ==> visited@[j]@ != key@,
    {
        if visited[i].same(&key) {
            assert(key_views(visited@)[i as int] == key@);
            return false;
        }
    }
    assert(!key_views(visited@).contains(key@));
    let ghost before = key_views(visited@);
    visited.push(key);
    assert(key_views(visited@) =~= before.push(key@));
    true
}

// ----- single steps -----

/// Increments the program counter, failing on overflow.
fn increment_pc(pc: &mut usize) -> (r: Result<(), EvalError>)
    ensures
        *old(pc) < usize::MAX ==> r is Ok && *final(pc) == *old(pc) + 1,
        *old(pc) == usize::MAX ==> r == Err::<(), EvalError>(EvalError::PCOverFlow) && *final(pc)
            == *old(pc),
{
    safe_add(pc, &1, || -> (e: EvalError) ensures e == EvalError::PCOverFlow { EvalError::PCOverFlow })
}

/// Advances the text position by `size`, failing on overflow.
fn increment_char_index(char_index: &mut usize, size: usize) -> (r: Result<(), EvalError>)
    ensures
        *old(char_index) + size <= usize::MAX ==> r is Ok && *final(char_index) == *old(char_index)
            + size,
        *old(char_index) + size > usize::MAX ==> r == Err::<(), EvalError>(
            EvalError::CharIndexOverFlow,
        ) && *final(char_index) == *old(char_index),
{
    safe_add(
        char_index,
        &size,
        || -> (e: EvalError) ensures e == EvalError::CharIndexOverFlow { EvalError::CharIndexOverFlow },
    )
}

/// Whether the class accepts the current character; `false` at the end of the text.
fn eval_char_class(class: &CharClass, current: Option<char>) -> (r: bool)
    ensures
        r == (current matches Some(c) && class_accepts(class@, c)),
{
    let current_char = match current {
        Some(c) => c,
        None => return false,
    };
    let mut is_in_range = false;
    for i in 0..class.ranges.len()
        invariant
            is_in_range == exists|j: int|
                0 <= j < i && class.ranges@[j].start <= current_char && current_char
                    <= class.ranges@[j].end,
    {
        let range = class.ranges[i];
        if range.start <= current_char && current_char <= range.end {
            is_in_range = true;
        }
    }
    if class.negated {
        !is_in_range
    } else {
        is_in_range
    }
}

/// Whether `c` is a word character: an ASCII letter or digit, or `_`.
fn is_word_char(c: char) -> (r: bool)
    ensures
        r == word_char(c),
{
    ('a' <= c && c <= 'z') || ('A' <= c && c <= 'Z') || ('0' <= c && c <= '9') || c == '_'
}

/// Whether position `char_index` lies between a word character and a non-word one.
fn is_word_boundary(chars: &[char], char_index: usize) -> (r: bool)
    ensures
        r == at_word_boundary(chars@, char_index as int),
{
    let is_prev_word = if char_index == 0 || char_index - 1 >= chars.len() {
        false
    } else {
        is_word_char(chars[char_index - 1])
    };
    let is_curr_word = if char_index < chars.len() {
        is_word_char(chars[char_index])
    } else {
        false
    };
    is_prev_word != is_curr_word
}

/// Evaluates a zero-width assertion at `char_index`.
fn eval_assert(predicate: Predicate, chars: &[char], char_index: usize) -> (r: bool)
    ensures
        r == assertion_holds(predicate, chars@, char_index as int),
{
    if char_index > chars.len() {
        return false;
    }
    match predicate {
        Predicate::StartOfLine => char_index == 0 || chars[char_index - 1] == '\n',
        Predicate::EndOfLine => char_index == chars.len() || chars[char_index] == '\n',
        Predicate::StartOfText => char_index == 0,
        Predicate::EndOfText => char_index == chars.len(),
        Predicate::WordBoundary => is_word_boundary(chars, char_index),
        Predicate::NonWordBoundary => !is_word_boundary(chars, char_index),
    }
}

/// Matches the text captured by group `index` at the current position and
/// steps past it; `Ok(false)` leaves the state as it was.
#[verifier::loop_isolation(false)]
fn eval_backref(index: usize, state: &mut State, chars: &[char]) -> (r: Result<bool, EvalError>)
    ensures
        match backref_len(chars@, old(state)@, index) {
            Some(n) => if old(state)@.pc < usize::MAX {
                r == Ok::<bool, EvalError>(true) && final(state)@ == RunState {
                    char_index: (old(state)@.char_index + n) as usize,
                    ..advance(old(state)@)
                }
            } else {
                r == Err::<bool, EvalError>(EvalError::PCOverFlow)
            },
            None => r == Ok::<bool, EvalError>(false) && final(state)@ == old(state)@,
        },
{
    if index >= state.capture_start.len() || index >= state.capture_end.len() {
        return Ok(false);
    }
    let start = match state.capture_start[index] {
        Some(start) => start,
        None => return Ok(false),
    };
    let end = match state.capture_end[index] {
        Some(end) => end,
        None => return Ok(false),
    };
    if end < start || end > chars.len() || state.char_index > chars.len() {
        return Ok(false);
    }
    let capture_len = end - start;
    if chars.len() - state.char_index < capture_len {
        return Ok(false);
    }
    let ghost cs = chars@;
    let ghost ci = state.char_index as int;
    let ghost captured = cs.subrange(start as int, end as int);
    let ghost here = cs.subrange(ci, ci + capture_len);
    for i in 0..capture_len
        invariant
            cs == chars@,
            ci == state.char_index,
            start + capture_len == end,
            end <= cs.len(),
            ci + capture_len <= cs.len(),
            captured == cs.subrange(start as int, end as int),
            here == cs.subrange(ci, ci + capture_len),
            forall|j: int| 0 <= j < i ==> captured[j] == here[j],
    {
        if chars[start + i] != chars[state.char_index + i] {
            assert(captured[i as int] != here[i as int]);
            return Ok(false);
        }
    }
    assert(captured =~= here);
    increment_pc(&mut state.pc)?;
    increment_char_index(&mut state.char_index, capture_len)?;
    Ok(true)
}

// ----- the depth-first search -----

/// The capture index an instruction names, or 0.
pub open spec fn slot_index(i: InstrModel) -> nat {
    match i {
        InstrModel::SaveStart(x) => x as nat,
        InstrModel::SaveEnd(x) => x as nat,
        InstrModel::Backref(x) => x as nat,
        _ => 0,
    }
}

/// The largest capture index the program names, or 0.
pub open spec fn max_slot_index(prog: Seq<InstrModel>) -> nat
    decreases prog.len(),
{
    if prog.len() == 0 {
        0
    } else {
        let m = max_slot_index(prog.drop_last());
        let x = slot_index(prog.last());
        if x > m {
            x
        } else {
            m
        }
    }
}

/// Returns the largest capture index referenced by instructions.
fn max_capture_index(inst: &[Instruction]) -> (r: usize)
    ensures
        r == max_slot_index(program(inst@)),
{
    let ghost prog = program(inst@);
    let mut max_index: usize = 0;
    for i in 0..inst.len()
        invariant
            prog == program(inst@),
            max_index == max_slot_index(prog.take(i as int)),
    {
        match &inst[i] {
            Instruction::SaveStart(index) | Instruction::SaveEnd(index) | Instruction::Backref(
                index,
            ) => {
                if *index > max_index {
                    max_index = *index;
                }
            },
            _ => {},
        }
        assert(prog.take(i + 1).drop_last() =~= prog.take(i as int));
        assert(prog.take(i + 1).last() == prog[i as int]);
    }
    assert(prog.take(inst@.len() as int) =~= prog);
    max_index
}

/// The search's invariant: `seen` holds the states already expanded, without
/// repeats, each reachable, in the space of states, and neither matching nor
/// faulting; `pending` holds reachable states still to expand; every successor
/// of an expanded state is expanded or pending, and so is `init`.
spec fn dfs_inv(
    prog: Seq<InstrModel>,
    chars: Seq<char>,
    init: RunState,
    k: nat,
    seen: Seq<RunState>,
    pending: Seq<RunState>,
) -> bool {
    &&& seen.no_duplicates()
    &&& forall|i: int|
        0 <= i < seen.len() ==> reachable(prog, chars, init, #[trigger] seen[i])
            && state_space(prog.len(), chars.len(), k).contains(seen[i]) && !at_match(prog, seen[i])
    &&& forall|i: int|
        0 <= i < pending.len() ==> reachable(prog, chars, init, #[trigger] pending[i]) && bounded(
            pending[i],
            chars.len(),
            k,
        )
    &&& seen.contains(init) || pending.contains(init)
    &&& forall|i: int, t: RunState|
        0 <= i < seen.len() && #[trigger] successors(prog, chars, seen[i]).contains(t)
            ==> seen.contains(t) || pending.contains(t)
}

/// A state of the depth-first search: still running over the pending
/// states (the next one last) and the expanded states, or stopped with an
/// answer.
pub enum Dfs {
    Run(Seq<RunState>, Seq<RunState>),
    Stop(Result<bool, EvalError>),
}

/// One step of the depth-first search: the last pending state is dropped if
/// it was expanded before; else it is expanded: a missing address stops with
/// `InvalidPC`, `Match` stops with `true`, and otherwise its successors take
/// its place, the first of them next. No pending state left stops with
/// `false`.
pub open spec fn dfs_step(prog: Seq<InstrModel>, chars: Seq<char>, stack: Seq<RunState>, seen: Seq<RunState>) -> Dfs {
    if stack.len() == 0 {
        Dfs::Stop(Ok(false))
    } else {
        let c = stack.last();
        let rest = stack.drop_last();
        if seen.contains(c) {
            Dfs::Run(rest, seen)
        } else if c.pc >= prog.len() {
            Dfs::Stop(Err(EvalError::InvalidPC))
        } else if prog[c.pc as int] is Match {
            Dfs::Stop(Ok(true))
        } else {
            Dfs::Run(rest + successors(prog, chars, c).reverse(), seen.push(c))
        }
    }
}

/// The answer of the search within `fuel` steps, if it stops by then.
pub open spec fn dfs_run(
    prog: Seq<InstrModel>,
    chars: Seq<char>,
    stack: Seq<RunState>,
    seen: Seq<RunState>,
    fuel: nat,
) -> Option<Result<bool, EvalError>>
    decreases fuel,
{
    if fuel == 0 {
        None
    } else {
        match dfs_step(prog, chars, stack, seen) {
            Dfs::Stop(r) => Some(r),
            Dfs::Run(st, se) => dfs_run(prog, chars, st, se, (fuel - 1) as nat),
        }
    }
}

/// The answer of the search from `init`: the one it stops with.
pub open spec fn dfs_answer(prog: Seq<InstrModel>, chars: Seq<char>, init: RunState) -> Result<bool, EvalError> {
    dfs_run(
        prog,
        chars,
        seq![init],
        Seq::empty(),
        choose|fuel: nat| #[trigger] dfs_run(prog, chars, seq![init], Seq::empty(), fuel) is Some,
    )->0
}

/// After `n` steps from `init` the search is at `stack` and `seen`.
spec fn dfs_at(
    prog: Seq<InstrModel>,
    chars: Seq<char>,
    init: RunState,
    n: nat,
    stack: Seq<RunState>,
    seen: Seq<RunState>,
) -> bool {
    forall|f: nat|
        dfs_run(prog, chars, seq![init], Seq::empty(), n + f) == #[trigger] dfs_run(prog, chars, stack, seen, f)
}

proof fn lemma_dfs_more_fuel(
    prog: Seq<InstrModel>,
    chars: Seq<char>,
    stack: Seq<RunState>,
    seen: Seq<RunState>,
    fuel: nat,
    more: nat,
)
    requires
        dfs_run(prog, chars, stack, seen, fuel) is Some,
        fuel <= more,
    ensures
        dfs_run(prog, chars, stack, seen, more) == dfs_run(prog, chars, stack, seen, fuel),
    decreases fuel,
{
    if let Dfs::Run(st, se) = dfs_step(prog, chars, stack, seen) {
        lemma_dfs_more_fuel(prog, chars, st, se, (fuel - 1) as nat, (more - 1) as nat);
    }
}

proof fn lemma_dfs_advance(
    prog: Seq<InstrModel>,
    chars: Seq<char>,
    init: RunState,
    n: nat,
    stack: Seq<RunState>,
    seen: Seq<RunState>,
    stack2: Seq<RunState>,
    seen2: Seq<RunState>,
)
    requires
        dfs_at(prog, chars, init, n, stack, seen),
        dfs_step(prog, chars, stack, seen) == Dfs::Run(stack2, seen2),
    ensures
        dfs_at(prog, chars, init, n + 1, stack2, seen2),
{
    assert forall|f: nat| dfs_run(prog, chars, seq![init], Seq::empty(), (n + 1) + f) == #[trigger] dfs_run(
        prog,
        chars,
        stack2,
        seen2,
        f,
    ) by {
        assert(dfs_run(prog, chars, stack, seen, f + 1) == dfs_run(prog, chars, stack2, seen2, f));
        assert(n + (f + 1) == (n + 1) + f);
    }
}

proof fn lemma_dfs_stop(
    prog: Seq<InstrModel>,
    chars: Seq<char>,
    init: RunState,
    n: nat,
    stack: Seq<RunState>,
    seen: Seq<RunState>,
    r: Result<bool, EvalError>,
)
    requires
        dfs_at(prog, chars, init, n, stack, seen),
        dfs_step(prog, chars, stack, seen) == Dfs::Stop(r),
    ensures
        r == dfs_answer(prog, chars, init),
{
    assert(dfs_run(prog, chars, stack, seen, 1) == Some(r));
    assert(dfs_run(prog, chars, seq![init], Seq::empty(), n + 1) == Some(r));
    let f = choose|fuel: nat| #[trigger] dfs_run(prog, chars, seq![init], Seq::empty(), fuel) is Some;
    if f <= n + 1 {
        lemma_dfs_more_fuel(prog, chars, seq![init], Seq::empty(), f, n + 1);
    } else {
        lemma_dfs_more_fuel(prog, chars, seq![init], Seq::empty(), n + 1, f);
    }
}

proof fn lemma_dfs_expand(
    prog: Seq<InstrModel>,
    chars: Seq<char>,
    init: RunState,
    n: nat,
    rest: Seq<RunState>,
    c: RunState,
    seen: Seq<RunState>,
    news: Seq<RunState>,
)
    requires
        dfs_at(prog, chars, init, n, rest.push(c), seen),
        !seen.contains(c),
        c.pc < prog.len(),
        !(prog[c.pc as int] is Match),
        news == successors(prog, chars, c).reverse(),
    ensures
        dfs_at(prog, chars, init, n + 1, rest + news, seen.push(c)),
{
    assert(rest.push(c).last() == c);
    assert(rest.push(c).drop_last() =~= rest);
    lemma_dfs_advance(prog, chars, init, n, rest.push(c), seen, rest + news, seen.push(c));
}

proof fn lemma_dfs_skip(
    prog: Seq<InstrModel>,
    chars: Seq<char>,
    init: RunState,
    n: nat,
    rest: Seq<RunState>,
    c: RunState,
    seen: Seq<RunState>,
)
    requires
        dfs_at(prog, chars, init, n, rest.push(c), seen),
        seen.contains(c),
    ensures
        dfs_at(prog, chars, init, n + 1, rest, seen),
{
    assert(rest.push(c).last() == c);
    assert(rest.push(c).drop_last() =~= rest);
    lemma_dfs_advance(prog, chars, init, n, rest.push(c), seen, rest, seen);
}

proof fn lemma_dfs_halt(
    prog: Seq<InstrModel>,
    chars: Seq<char>,
    init: RunState,
    n: nat,
    rest: Seq<RunState>,
    c: RunState,
    seen: Seq<RunState>,
)
    requires
        dfs_at(prog, chars, init, n, rest.push(c), seen),
        !seen.contains(c),
    ensures
        c.pc >= prog.len() ==> dfs_answer(prog, chars, init) == Err::<bool, EvalError>(EvalError::InvalidPC),
        c.pc < prog.len() && prog[c.pc as int] is Match ==> dfs_answer(prog, chars, init) == Ok::<bool, EvalError>(
            true,
        ),
{
    assert(rest.push(c).last() == c);
    if c.pc >= prog.len() {
        lemma_dfs_stop(prog, chars, init, n, rest.push(c), seen, Err::<bool, EvalError>(EvalError::InvalidPC));
    } else if prog[c.pc as int] is Match {
        lemma_dfs_stop(prog, chars, init, n, rest.push(c), seen, Ok::<bool, EvalError>(true));
    }
}

/// Dropping a pending state that was already expanded keeps the invariant.
proof fn lemma_dfs_drop(
    prog: Seq<InstrModel>,
    chars: Seq<char>,
    init: RunState,
    k: nat,
    seen: Seq<RunState>,
    rest: Seq<RunState>,
    c: RunState,
)
    requires
        dfs_inv(prog, chars, init, k, seen, rest.push(c)),
        seen.contains(c),
    ensures
        dfs_inv(prog, chars, init, k, seen, rest),
{
    let pending = rest.push(c);
    assert forall|i: int| 0 <= i < rest.len() implies reachable(prog, chars, init, #[trigger] rest[i])
        && bounded(rest[i], chars.len(), k) by {
        assert(pending[i] == rest[i]);
    }
    assert forall|t: RunState| pending.contains(t) && !seen.contains(t) implies rest.contains(t) by {
        let j = choose|j: int| 0 <= j < pending.len() && pending[j] == t;
        assert(j < rest.len());
        assert(rest[j] == t);
    }
}

/// Expanding the last pending state `c`, whose successors are the states of
/// `news`, keeps the invariant.
proof fn lemma_dfs_step(
    prog: Seq<InstrModel>,
    chars: Seq<char>,
    init: RunState,
    k: nat,
    seen: Seq<RunState>,
    rest: Seq<RunState>,
    c: RunState,
    news: Seq<RunState>,
)
    requires
        dfs_inv(prog, chars, init, k, seen, rest.push(c)),
        !seen.contains(c),
        c.pc < prog.len(),
        !at_match(prog, c),
        forall|j: int|
            0 <= j < successors(prog, chars, c).len() ==> news.contains(
                #[trigger] successors(prog, chars, c)[j],
            ),
        forall|j: int| 0 <= j < news.len() ==> successors(prog, chars, c).contains(#[trigger] news[j]),
    ensures
        dfs_inv(prog, chars, init, k, seen.push(c), rest + news),
        seen.len() + 1 <= state_space(prog.len(), chars.len(), k).len(),
{
    assert forall|t: RunState| #[trigger] successors(prog, chars, c).contains(t) implies news.contains(t) by {
        let j = choose|j: int| 0 <= j < successors(prog, chars, c).len() && successors(prog, chars, c)[j] == t;
    }
    let pending = rest.push(c);
    let seen2 = seen.push(c);
    let pending2 = rest + news;
    assert(pending[pending.len() - 1] == c);
    assert(reachable(prog, chars, init, c) && bounded(c, chars.len(), k));
    assert forall|i: int| 0 <= i < seen2.len() implies reachable(prog, chars, init, #[trigger] seen2[i])
        && state_space(prog.len(), chars.len(), k).contains(seen2[i]) && !at_match(prog, seen2[i]) by {
        if i < seen.len() {
            assert(seen2[i] == seen[i]);
        }
    }
    assert forall|i: int| 0 <= i < pending2.len() implies reachable(prog, chars, init, #[trigger] pending2[i])
        && bounded(pending2[i], chars.len(), k) by {
        if i < rest.len() {
            assert(pending2[i] == rest[i]);
            assert(pending[i] == rest[i]);
        } else {
            let t = news[i - rest.len()];
            assert(pending2[i] == t);
            assert(successors(prog, chars, c).contains(t));
            lemma_reach_step(prog, chars, init, c, t);
            lemma_successor_bounded(prog, chars, c, t, k);
        }
    }
    assert forall|t: RunState| pending.contains(t) implies seen2.contains(t) || pending2.contains(t) by {
        let j = choose|j: int| 0 <= j < pending.len() && pending[j] == t;
        if j < rest.len() {
            assert(pending2[j] == t);
        } else {
            assert(seen2[seen.len() as int] == t);
        }
    }
    assert forall|t: RunState| news.contains(t) implies pending2.contains(t) by {
        let j = choose|j: int| 0 <= j < news.len() && news[j] == t;
        assert(pending2[rest.len() + j] == t);
    }
    assert forall|t: RunState| seen.contains(t) implies seen2.contains(t) by {
        let j = choose|j: int| 0 <= j < seen.len() && seen[j] == t;
        assert(seen2[j] == t);
    }
    assert(seen2[seen.len() as int] == c);
    assert forall|i: int, t: RunState|
        0 <= i < seen2.len() && #[trigger] successors(prog, chars, seen2[i]).contains(t) implies seen2.contains(t)
        || pending2.contains(t) by {
        if i < seen.len() {
            assert(seen2[i] == seen[i]);
        }
    }
    assert(seen2.no_duplicates()) by {
        assert forall|i: int, j: int| 0 <= i < seen2.len() && 0 <= j < seen2.len() && i != j implies seen2[i]
            != seen2[j] by {
            if i < seen.len() && j < seen.len() {
            } else if i < seen.len() {
                assert(seen.contains(seen[i]));
            } else if j < seen.len() {
                assert(seen.contains(seen[j]));
            }
        }
    }
    lemma_state_space_finite(prog.len(), chars.len(), k);
    lemma_seen_bound(seen2, state_space(prog.len(), chars.len(), k));
}

/// When nothing is pending, every reachable state has been expanded, so no run
/// matches and none faults.
proof fn lemma_dfs_done(prog: Seq<InstrModel>, chars: Seq<char>, init: RunState, k: nat, seen: Seq<RunState>)
    requires
        dfs_inv(prog, chars, init, k, seen, Seq::empty()),
    ensures
        !accepts_from(prog, chars, init),
        !faults_from(prog, chars, init),
{
    assert forall|s: RunState| reachable(prog, chars, init, s) implies seen.contains(s) by {
        lemma_closed_holds_reachable(prog, chars, init, seen, s);
    }
    if accepts_from(prog, chars, init) {
        let s = choose|s: RunState| reachable(prog, chars, init, s) && at_match(prog, s);
        assert(seen.contains(s));
    }
    if faults_from(prog, chars, init) {
        let s = choose|s: RunState| reachable(prog, chars, init, s) && s.pc >= prog.len();
        assert(seen.contains(s));
    }
}

proof fn lemma_dfs_ends(
    prog: Seq<InstrModel>,
    chars: Seq<char>,
    init: RunState,
    k: nat,
    stack: Seq<RunState>,
    seen: Seq<RunState>,
)
    requires
        dfs_inv(prog, chars, init, k, seen, stack),
    ensures
        exists|fuel: nat| #[trigger] dfs_run(prog, chars, stack, seen, fuel) is Some,
    decreases state_space(prog.len(), chars.len(), k).len() - seen.len(), stack.len(),
{
    let space = state_space(prog.len(), chars.len(), k);
    lemma_state_space_finite(prog.len(), chars.len(), k);
    lemma_seen_bound(seen, space);
    if stack.len() == 0 {
        assert(dfs_run(prog, chars, stack, seen, 1) is Some);
    } else {
        let c = stack.last();
        let rest = stack.drop_last();
        assert(stack =~= rest.push(c));
        if seen.contains(c) {
            lemma_dfs_drop(prog, chars, init, k, seen, rest, c);
            lemma_dfs_ends(prog, chars, init, k, rest, seen);
            let f = choose|f: nat| #[trigger] dfs_run(prog, chars, rest, seen, f) is Some;
            assert(dfs_run(prog, chars, stack, seen, f + 1) is Some);
        } else if c.pc >= prog.len() || prog[c.pc as int] is Match {
            assert(dfs_run(prog, chars, stack, seen, 1) is Some);
        } else {
            let succ = successors(prog, chars, c);
            let news = succ.reverse();
            assert forall|j: int| 0 <= j < succ.len() implies news.contains(#[trigger] succ[j]) by {
                assert(news[succ.len() - 1 - j] == succ[j]);
            }
            assert forall|j: int| 0 <= j < news.len() implies succ.contains(#[trigger] news[j]) by {
                assert(succ[succ.len() - 1 - j] == news[j]);
            }
            lemma_dfs_step(prog, chars, init, k, seen, rest, c, news);
            lemma_dfs_ends(prog, chars, init, k, rest + news, seen.push(c));
            let f = choose|f: nat| #[trigger] dfs_run(prog, chars, rest + news, seen.push(c), f) is Some;
            assert(dfs_run(prog, chars, stack, seen, f + 1) is Some);
        }
    }
}

/// Every search ends: from the start state at any position of the text, with
/// any number of capture slots, the depth-first search over a program stops
/// within some number of steps, whatever the program holds.
pub proof fn law_every_search_ends(prog: Seq<InstrModel>, chars: Seq<char>, start: nat, k: nat)
    requires
        start <= chars.len(),
    ensures
        exists|fuel: nat| #[trigger] dfs_run(prog, chars, seq![start_state(start, k)], Seq::empty(), fuel) is Some,
{
    let init = start_state(start, k);
    lemma_state_space_finite(prog.len(), chars.len(), k);
    lemma_reach_self(prog, chars, init);
    assert(slot_vectors(k, chars.len()).contains(init.starts));
    let stack = seq![init];
    assert(stack[0] == init);
    assert(dfs_inv(prog, chars, init, k, Seq::empty(), stack));
    lemma_dfs_ends(prog, chars, init, k, stack, Seq::empty());
}

/// Searches the states reachable from the start state at `start` for a match.
#[verifier::loop_isolation(false)]
fn eval_from_start_inner(
    inst: &[Instruction],
    chars: &[char],
    start: usize,
    capture_slots: usize,
) -> (r: Result<bool, EvalError>)
    requires
        start <= chars@.len(),
    ensures
        search_result(program(inst@), chars@, start_state(start as nat, capture_slots as nat), r),
        r == dfs_answer(program(inst@), chars@, start_state(start as nat, capture_slots as nat)),
{
    let ghost prog = program(inst@);
    let ghost cs = chars@;
    let ghost k = capture_slots as nat;
    let ghost init = start_state(start as nat, k);
    let ghost space = state_space(prog.len(), cs.len(), k);
    proof {
        lemma_state_space_finite(prog.len(), cs.len(), k);
        lemma_reach_self(prog, cs, init);
        assert(slot_vectors(k, cs.len()).contains(init.starts));
    }
    let mut stack: Vec<State> = Vec::new();
    stack.push(State::new(start, capture_slots));
    let mut visited: Vec<StateKey> = Vec::new();
    proof {
        assert(state_views(stack@) =~= seq![init]);
        assert(key_views(visited@) =~= Seq::<RunState>::empty());
        assert(state_views(stack@)[0] == init);
    }
    let ghost mut n: nat = 0;
    proof {
        assert forall|f: nat| dfs_run(prog, cs, seq![init], Seq::empty(), n + f) == #[trigger] dfs_run(
            prog,
            cs,
            state_views(stack@),
            key_views(visited@),
            f,
        ) by {
            assert(n + f == f);
        }
    }
    while stack.len() > 0
        invariant
            dfs_inv(prog, cs, init, k, key_views(visited@), state_views(stack@)),
            dfs_at(prog, cs, init, n, state_views(stack@), key_views(visited@)),
        decreases space.len() - key_views(visited@).len(), stack.len(),
    {
        let ghost seen0 = key_views(visited@);
        let ghost stack0 = state_views(stack@);
        proof {
            lemma_seen_bound(seen0, space);
        }
        let mut state = stack.pop().unwrap();
        proof {
            assert(stack0 =~= state_views(stack@).push(state@));
        }
        loop
            invariant
                dfs_inv(prog, cs, init, k, key_views(visited@), state_views(stack@).push(state@)),
                dfs_at(prog, cs, init, n, state_views(stack@).push(state@), key_views(visited@)),
                key_views(visited@).len() >= seen0.len(),
                key_views(visited@).len() <= space.len(),
                key_views(visited@).len() == seen0.len() ==> stack@.len() + 1 == stack0.len(),
            decreases space.len() - key_views(visited@).len(),
        {
            let ghost seen = key_views(visited@);
            let ghost rest = state_views(stack@);
            let ghost c = state@;
            let key = StateKey::from_state(&state);
            if !insert_key(&mut visited, key) {
                proof {
                    lemma_dfs_drop(prog, cs, init, k, seen, rest, c);
                    lemma_dfs_skip(prog, cs, init, n, rest, c, seen);
                    n = n + 1;
                }
                break;
            }
            proof {
                lemma_dfs_halt(prog, cs, init, n, rest, c, seen);
            }
            proof {
                assert(rest.push(c)[rest.len() as int] == c);
            }
            if state.pc >= inst.len() {
                assert(reachable(prog, cs, init, c) && c.pc >= prog.len());
                return Err(EvalError::InvalidPC);
            }
            let ghost succ = successors(prog, cs, c);
            match &inst[state.pc] {
                Instruction::CharClass(class) => {
                    let current = if state.char_index < chars.len() {
                        Some(chars[state.char_index])
                    } else {
                        None
                    };
                    if !eval_char_class(class, current) {
                        proof {
                            lemma_dfs_step(prog, cs, init, k, seen, rest, c, Seq::empty());
                            assert(rest + Seq::<RunState>::empty() =~= rest);
                            assert(succ.reverse() =~= Seq::<RunState>::empty());
                            lemma_dfs_expand(prog, cs, init, n, rest, c, seen, Seq::empty());
                            n = n + 1;
                        }
                        break;
                    }
                    increment_pc(&mut state.pc)?;
                    increment_char_index(&mut state.char_index, 1)?;
                    proof {
                        assert(succ =~= seq![state@]);
                        lemma_dfs_step(prog, cs, init, k, seen, rest, c, succ);
                        assert(rest + succ =~= rest.push(state@));
                        assert(succ.reverse() =~= succ);
                        lemma_dfs_expand(prog, cs, init, n, rest, c, seen, succ);
                        n = n + 1;
                    }
                },
                Instruction::Assert(predicate) => {
                    if !eval_assert(*predicate, chars, state.char_index) {
                        proof {
                            lemma_dfs_step(prog, cs, init, k, seen, rest, c, Seq::empty());
                            assert(rest + Seq::<RunState>::empty() =~= rest);
                            assert(succ.reverse() =~= Seq::<RunState>::empty());
                            lemma_dfs_expand(prog, cs, init, n, rest, c, seen, Seq::empty());
                            n = n + 1;
                        }
                        break;
                    }
                    increment_pc(&mut state.pc)?;
                    proof {
                        assert(succ =~= seq![state@]);
                        lemma_dfs_step(prog, cs, init, k, seen, rest, c, succ);
                        assert(rest + succ =~= rest.push(state@));
                        assert(succ.reverse() =~= succ);
                        lemma_dfs_expand(prog, cs, init, n, rest, c, seen, succ);
                        n = n + 1;
                    }
                },
                Instruction::SaveStart(index) => {
                    if *index < state.capture_start.len() {
                        let at = state.char_index;
                        state.capture_start.set(*index, Some(at));
                    } else {
                        proof {
                            lemma_dfs_step(prog, cs, init, k, seen, rest, c, Seq::empty());
                            assert(rest + Seq::<RunState>::empty() =~= rest);
                            assert(succ.reverse() =~= Seq::<RunState>::empty());
                            lemma_dfs_expand(prog, cs, init, n, rest, c, seen, Seq::empty());
                            n = n + 1;
                        }
                        break;
                    }
                    increment_pc(&mut state.pc)?;
                    proof {
                        assert(succ =~= seq![state@]);
                        lemma_dfs_step(prog, cs, init, k, seen, rest, c, succ);
                        assert(rest + succ =~= rest.push(state@));
                        assert(succ.reverse() =~= succ);
                        lemma_dfs_expand(prog, cs, init, n, rest, c, seen, succ);
                        n = n + 1;
                    }
                },
                Instruction::SaveEnd(index) => {
                    if *index < state.capture_end.len() {
                        let at = state.char_index;
                        state.capture_end.set(*index, Some(at));
                    } else {
                        proof {
                            lemma_dfs_step(prog, cs, init, k, seen, rest, c, Seq::empty());
                            assert(rest + Seq::<RunState>::empty() =~= rest);
                            assert(succ.reverse() =~= Seq::<RunState>::empty());
                            lemma_dfs_expand(prog, cs, init, n, rest, c, seen, Seq::empty());
                            n = n + 1;
                        }
                        break;
                    }
                    increment_pc(&mut state.pc)?;
                    proof {
                        assert(succ =~= seq![state@]);
                        lemma_dfs_step(prog, cs, init, k, seen, rest, c, succ);
                        assert(rest + succ =~= rest.push(state@));
                        assert(succ.reverse() =~= succ);
                        lemma_dfs_expand(prog, cs, init, n, rest, c, seen, succ);
                        n = n + 1;
                    }
                },
                Instruction::Backref(index) => {
                    let matched = eval_backref(*index, &mut state, chars)?;
                    if !matched {
                        proof {
                            lemma_dfs_step(prog, cs, init, k, seen, rest, c, Seq::empty());
                            assert(rest + Seq::<RunState>::empty() =~= rest);
                            assert(succ.reverse() =~= Seq::<RunState>::empty());
                            lemma_dfs_expand(prog, cs, init, n, rest, c, seen, Seq::empty());
                            n = n + 1;
                        }
                        break;
                    }
                    proof {
                        assert(succ =~= seq![state@]);
                        lemma_dfs_step(prog, cs, init, k, seen, rest, c, succ);
                        assert(rest + succ =~= rest.push(state@));
                        assert(succ.reverse() =~= succ);
                        lemma_dfs_expand(prog, cs, init, n, rest, c, seen, succ);
                        n = n + 1;
                    }
                },
                Instruction::Split(left, right) => {
                    let mut right_state = state.copy();
                    right_state.pc = *right;
                    stack.push(right_state);
                    state.pc = *left;
                    proof {
                        let news = seq![right_state@, state@];
                        assert(news[1] == succ[0] && news[0] == succ[1]);
                        assert(succ.len() == 2);
                        assert forall|j: int| 0 <= j < news.len() implies succ.contains(#[trigger] news[j]) by {
                            if j == 0 {
                                assert(succ[1] == news[j]);
                            } else {
                                assert(succ[0] == news[j]);
                            }
                        }
                        lemma_dfs_step(prog, cs, init, k, seen, rest, c, news);
                        assert(rest + news =~= state_views(stack@).push(state@));
                        assert(news =~= succ.reverse());
                        lemma_dfs_expand(prog, cs, init, n, rest, c, seen, news);
                        n = n + 1;
                    }
                },
                Instruction::Jump(addr) => {
                    state.pc = *addr;
                    proof {
                        assert(succ =~= seq![state@]);
                        lemma_dfs_step(prog, cs, init, k, seen, rest, c, succ);
                        assert(rest + succ =~= rest.push(state@));
                        assert(succ.reverse() =~= succ);
                        lemma_dfs_expand(prog, cs, init, n, rest, c, seen, succ);
                        n = n + 1;
                    }
                },
                Instruction::Match => {
                    assert(reachable(prog, cs, init, c) && at_match(prog, c));
                    return Ok(true);
                },
            }
        }
    }
    proof {
        assert(state_views(stack@) =~= Seq::<RunState>::empty());
        lemma_dfs_done(prog, cs, init, k, key_views(visited@));
        lemma_dfs_stop(prog, cs, init, n, state_views(stack@), key_views(visited@), Ok::<bool, EvalError>(false));
    }
    Ok(false)
}

/// What a search from every position of the text promises: `true` only when
/// some start reaches `Match`, `false` only when no start reaches `Match` or a
/// missing address, and `InvalidPC` only when some start reaches a missing
/// address.
pub open spec fn search_any(
    prog: Seq<InstrModel>,
    chars: Seq<char>,
    slots: nat,
    r: Result<bool, EvalError>,
) -> bool {
    &&& r == Ok::<bool, EvalError>(true) ==> exists|st: nat|
        st <= chars.len() && #[trigger] accepts_from(prog, chars, start_state(st, slots))
    &&& r == Ok::<bool, EvalError>(false) ==> forall|st: nat|
        st <= chars.len() ==> !#[trigger] accepts_from(prog, chars, start_state(st, slots))
            && !faults_from(prog, chars, start_state(st, slots))
    &&& r is Err ==> r == Err::<bool, EvalError>(EvalError::InvalidPC) && exists|st: nat|
        st <= chars.len() && #[trigger] faults_from(prog, chars, start_state(st, slots))
}

/// Evaluates whether `input` matches from its first character.
pub fn eval_from_start(inst: &[Instruction], input: &str) -> (r: Result<bool, EvalError>)
    ensures
        max_slot_index(program(inst@)) == usize::MAX ==> r == Err::<bool, EvalError>(
            EvalError::PCOverFlow,
        ),
        max_slot_index(program(inst@)) < usize::MAX ==> search_result(
            program(inst@),
            input@,
            start_state(0, max_slot_index(program(inst@)) + 1),
            r,
        ),
        max_slot_index(program(inst@)) < usize::MAX ==> r == dfs_answer(
            program(inst@),
            input@,
            start_state(0, max_slot_index(program(inst@)) + 1),
        ),
{
    let chars = chars_of(input);
    let max_index = max_capture_index(inst);
    let capture_slots = match max_index.checked_add(1) {
        Some(n) => n,
        None => return Err(EvalError::PCOverFlow),
    };
    eval_from_start_inner(inst, chars.as_slice(), 0, capture_slots)
}

/// The answer of the searches from the starts `st`, `st + 1`, ... up to the
/// end of the text, in turn, until one answers other than `false`.
pub open spec fn starts_answer(prog: Seq<InstrModel>, chars: Seq<char>, slots: nat, st: int) -> Result<bool, EvalError>
    decreases chars.len() + 1 - st,
{
    if st < 0 || st > chars.len() {
        Ok(false)
    } else {
        match dfs_answer(prog, chars, start_state(st as nat, slots)) {
            Ok(false) => starts_answer(prog, chars, slots, st + 1),
            x => x,
        }
    }
}

/// A match that the search from the first position finds is found by the
/// search from every position too, which tries the first position first.
pub proof fn law_anchored_match_is_found(prog: Seq<InstrModel>, chars: Seq<char>, slots: nat)
    requires
        dfs_answer(prog, chars, start_state(0, slots)) == Ok::<bool, EvalError>(true),
    ensures
        starts_answer(prog, chars, slots, 0) == Ok::<bool, EvalError>(true),
{
}

/// What `eval` promises: `PCOverFlow` when the capture slots cannot be
/// counted, and otherwise what a search from every position promises.
pub open spec fn eval_outcome(prog: Seq<InstrModel>, chars: Seq<char>, r: Result<bool, EvalError>) -> bool {
    &&& max_slot_index(prog) == usize::MAX ==> r == Err::<bool, EvalError>(EvalError::PCOverFlow)
    &&& max_slot_index(prog) < usize::MAX ==> search_any(prog, chars, max_slot_index(prog) + 1, r)
}

/// Evaluates whether `input` matches at any starting position.
#[verifier::loop_isolation(false)]
pub fn eval(inst: &[Instruction], input: &str) -> (r: Result<bool, EvalError>)
    ensures
        eval_outcome(program(inst@), input@, r),
        max_slot_index(program(inst@)) < usize::MAX ==> r == starts_answer(
            program(inst@),
            input@,
            max_slot_index(program(inst@)) + 1,
            0,
        ),
{
    let chars = chars_of(input);
    let max_index = max_capture_index(inst);
    let capture_slots = match max_index.checked_add(1) {
        Some(n) => n,
        None => return Err(EvalError::PCOverFlow),
    };
    let ghost prog = program(inst@);
    let ghost k = capture_slots as nat;
    let mut start: usize = 0;
    loop
        invariant
            chars@ == input@,
            start <= chars@.len(),
            forall|st: nat|
                st < start ==> !#[trigger] accepts_from(prog, input@, start_state(st, k))
                    && !faults_from(prog, input@, start_state(st, k)),
            k == max_slot_index(prog) + 1,
            starts_answer(prog, input@, k, 0) == starts_answer(prog, input@, k, start as int),
        decreases chars@.len() - start,
    {
        let found = eval_from_start_inner(inst, chars.as_slice(), start, capture_slots);
        match found {
            Ok(true) => {
                assert(accepts_from(prog, input@, start_state(start as nat, k)));
                return Ok(true);
            },
            Ok(false) => {
                assert(!accepts_from(prog, input@, start_state(start as nat, k)));
            },
            Err(e) => {
                assert(faults_from(prog, input@, start_state(start as nat, k)));
                return Err(e);
            },
        }
        assert forall|st: nat| st <= start implies !#[trigger] accepts_from(prog, input@, start_state(st, k))
            && !faults_from(prog, input@, start_state(st, k)) by {
            if st < start {
            }
        }
        if start == chars.len() {
            assert(starts_answer(prog, input@, k, start + 1) == Ok::<bool, EvalError>(false));
            break;
        }
        start = start + 1;
    }
    Ok(false)
}

/// What a search from each listed start promises: starts beyond the text are
/// passed over; `true` only when a listed start reaches `Match`, `false` only
/// when none reaches `Match` or a missing address, and `InvalidPC` only when
/// one reaches a missing address.
pub open spec fn search_listed(
    prog: Seq<InstrModel>,
    chars: Seq<char>,
    slots: nat,
    starts: Seq<usize>,
    r: Result<bool, EvalError>,
) -> bool {
    &&& r == Ok::<bool, EvalError>(true) ==> exists|i: int|
        0 <= i < starts.len() && starts[i] <= chars.len() && #[trigger] accepts_from(
            prog,
            chars,
            start_state(starts[i] as nat, slots),
        )
    &&& r == Ok::<bool, EvalError>(false) ==> forall|i: int|
        0 <= i < starts.len() && starts[i] <= chars.len() ==> !#[trigger] accepts_from(
            prog,
            chars,
            start_state(starts[i] as nat, slots),
        ) && !faults_from(prog, chars, start_state(starts[i] as nat, slots))
    &&& r is Err ==> r == Err::<bool, EvalError>(EvalError::InvalidPC) && exists|i: int|
        0 <= i < starts.len() && starts[i] <= chars.len() && #[trigger] faults_from(
            prog,
            chars,
            start_state(starts[i] as nat, slots),
        )
}

/// The answer of the searches from the listed starts from the `i`-th on, in
/// turn, passing over starts beyond the text, until one answers other than
/// `false`.
pub open spec fn listed_answer(
    prog: Seq<InstrModel>,
    chars: Seq<char>,
    slots: nat,
    starts: Seq<usize>,
    i: int,
) -> Result<bool, EvalError>
    decreases starts.len() - i,
{
    if i < 0 || i >= starts.len() {
        Ok(false)
    } else if starts[i] > chars.len() {
        listed_answer(prog, chars, slots, starts, i + 1)
    } else {
        match dfs_answer(prog, chars, start_state(starts[i] as nat, slots)) {
            Ok(false) => listed_answer(prog, chars, slots, starts, i + 1),
            x => x,
        }
    }
}

/// Evaluates whether `input` matches from one of `starts`, tried in order.
#[verifier::loop_isolation(false)]
pub fn eval_from_starts(inst: &[Instruction], input: &str, starts: &[usize]) -> (r: Result<
    bool,
    EvalError,
>)
    ensures
        max_slot_index(program(inst@)) == usize::MAX ==> r == Err::<bool, EvalError>(
            EvalError::PCOverFlow,
        ),
        max_slot_index(program(inst@)) < usize::MAX ==> search_listed(
            program(inst@),
            input@,
            max_slot_index(program(inst@)) + 1,
            starts@,
            r,
        ),
        max_slot_index(program(inst@)) < usize::MAX ==> r == listed_answer(
            program(inst@),
            input@,
            max_slot_index(program(inst@)) + 1,
            starts@,
            0,
        ),
{
    let chars = chars_of(input);
    let max_index = max_capture_index(inst);
    let capture_slots = match max_index.checked_add(1) {
        Some(n) => n,
        None => return Err(EvalError::PCOverFlow),
    };
    let ghost prog = program(inst@);
    let ghost k = capture_slots as nat;
    let mut i: usize = 0;
    while i < starts.len()
        invariant
            chars@ == input@,
            i <= starts@.len(),
            forall|j: int|
                #![trigger starts@[j]]
                0 <= j < i && starts@[j] <= input@.len() ==> !accepts_from(
                    prog,
                    input@,
                    start_state(starts@[j] as nat, k),
                ) && !faults_from(prog, input@, start_state(starts@[j] as nat, k)),
            k == max_slot_index(prog) + 1,
            listed_answer(prog, input@, k, starts@, 0) == listed_answer(prog, input@, k, starts@, i as int),
        decreases starts@.len() - i,
    {
        let start = starts[i];
        if start <= chars.len() {
            match eval_from_start_inner(inst, chars.as_slice(), start, capture_slots) {
                Ok(true) => {
                    assert(accepts_from(prog, input@, start_state(starts@[i as int] as nat, k)));
                    return Ok(true);
                },
                Ok(false) => {
                    assert(!accepts_from(prog, input@, start_state(starts@[i as int] as nat, k)));
                },
                Err(e) => {
                    assert(faults_from(prog, input@, start_state(starts@[i as int] as nat, k)));
                    return Err(e);
                },
            }
        }
        i = i + 1;
    }
    Ok(false)
}

/// The result of `eval` that a result of `eval_v2` stands for.
pub open spec fn v1_result(r: Result<bool, EvalV2Error>) -> Result<bool, EvalError> {
    match r {
        Ok(b) => Ok(b),
        Err(EvalV2Error::PCOverFlow) => Err(EvalError::PCOverFlow),
        Err(EvalV2Error::CharIndexOverFlow) => Err(EvalError::CharIndexOverFlow),
        Err(EvalV2Error::InvalidPC) => Err(EvalError::InvalidPC),
    }
}

/// Evaluates a program of the second instruction set; it behaves as `eval`,
/// with the errors of `EvalV2Error`.
pub fn eval_v2(inst: &[Instruction], input: &str) -> (r: Result<bool, EvalV2Error>)
    ensures
        eval_outcome(program(inst@), input@, v1_result(r)),
        max_slot_index(program(inst@)) < usize::MAX ==> v1_result(r) == starts_answer(
            program(inst@),
            input@,
            max_slot_index(program(inst@)) + 1,
            0,
        ),
{
    let r0 = eval(inst, input);
    match r0 {
        Ok(b) => Ok(b),
        Err(e) => Err(
            match e {
                EvalError::PCOverFlow => EvalV2Error::PCOverFlow,
                EvalError::CharIndexOverFlow => EvalV2Error::CharIndexOverFlow,
                EvalError::InvalidPC => EvalV2Error::InvalidPC,
            },
        ),
    }
}

} // verus!
