//! The basic engine: a smaller pattern language with its own parser,
//! compiler and backtracking evaluator, and a matcher built on them.
pub mod compiler;
pub mod error;
pub mod evaluator;
pub mod instruction;
pub mod parser;
pub mod semantics;
pub mod termination;

use vstd::prelude::*;
use crate::basic::compiler::{CState, compile, gen_program};
use crate::basic::error::{EvalError, RegexError};
use crate::basic::evaluator::{
    eval, finishes, law_reported_match_is_real, lemma_run_outcome, outcome, reaches_match, run,
};
use crate::basic::instruction::{Char, Instruction};
use crate::basic::parser::{parse, parse_model};
use crate::basic::termination::{law_compiled_code_has_no_jump_loop, law_search_ends, no_jump_loop};
use crate::text::{lowercase, string_from_chars, to_lowercase};

verus! {

/// Whether the pattern starts with `^`.
pub open spec fn has_caret(p: Seq<char>) -> bool {
    p.len() > 0 && p[0] == '^'
}

/// The pattern without a leading `^`.
pub open spec fn after_caret(p: Seq<char>) -> Seq<char> {
    if has_caret(p) {
        p.drop_first()
    } else {
        p
    }
}

/// Whether the pattern, without a leading `^`, ends with `$`.
pub open spec fn has_dollar(p: Seq<char>) -> bool {
    let q = after_caret(p);
    q.len() > 0 && q.last() == '$'
}

/// The pattern without a leading `^` and a trailing `$`.
pub open spec fn core_pattern(p: Seq<char>) -> Seq<char> {
    let q = after_caret(p);
    if has_dollar(p) {
        q.drop_last()
    } else {
        q
    }
}

/// What compiling a pattern gives: its program, and whether it was anchored
/// at the start and at the end.
pub open spec fn pattern_outcome(p: Seq<char>) -> Result<(Seq<Instruction>, bool, bool), RegexError> {
    match parse_model(core_pattern(p), true) {
        Err(e) => Err(RegexError::Parse(e)),
        Ok(n) => {
            let o = gen_program(n, CState { pc: 0, code: Seq::empty() });
            match o.1 {
                None => Ok((o.0.code, has_caret(p), has_dollar(p))),
                Some(e) => Err(RegexError::Compile(e)),
            }
        },
    }
}

/// Strips a leading `^` and a trailing `$`, then parses and compiles the rest.
pub fn compile_pattern(pattern: &str) -> (r: Result<(Vec<Instruction>, bool, bool), RegexError>)
    ensures
        match pattern_outcome(pattern@) {
            Ok((code, caret, dollar)) => r matches Ok((v, c, d)) && v@ == code && c == caret && d
                == dollar,
            Err(e) => r == Err::<(Vec<Instruction>, bool, bool), RegexError>(e),
        },
{
    let n = pattern.unicode_len();
    let is_caret = n > 0 && pattern.get_char(0) == '^';
    let start: usize = if is_caret {
        1
    } else {
        0
    };
    let is_dollar = n > start && pattern.get_char(n - 1) == '$';
    let end: usize = if is_dollar {
        n - 1
    } else {
        n
    };
    let core = pattern.substring_char(start, end);
    assert(core@ =~= core_pattern(pattern@));
    let ast = match parse(core) {
        Ok(a) => a,
        Err(e) => return Err(RegexError::Parse(e)),
    };
    let instructions = match compile(&ast) {
        Ok(code) => code,
        Err(e) => return Err(RegexError::Compile(e)),
    };
    Ok((instructions, is_caret, is_dollar))
}

/// The evaluator's result as a matcher's result.
pub open spec fn as_regex_result(r: Result<bool, EvalError>) -> Result<bool, RegexError> {
    match r {
        Ok(b) => Ok(b),
        Err(e) => Err(RegexError::Eval(e)),
    }
}

/// The search over a whole text.
pub open spec fn text_outcome(code: Seq<Instruction>, s: Seq<char>, dollar: bool) -> Result<bool, RegexError> {
    as_regex_result(outcome(code, s, s.len(), dollar, 0, 0, Seq::empty()).0)
}

/// Whether the search over a whole text ends.
pub open spec fn text_finishes(code: Seq<Instruction>, s: Seq<char>, dollar: bool) -> bool {
    finishes(code, s, s.len(), dollar, 0, 0, Seq::empty())
}

/// Matches a program against a whole text, from its first character.
pub fn match_string(insts: &[Instruction], str: &str, is_end_dollar: bool) -> (r: Result<bool, RegexError>)
    requires
        text_finishes(insts@, str@, is_end_dollar),
    ensures
        r == text_outcome(insts@, str@, is_end_dollar),
{
    match eval(insts, str, is_end_dollar) {
        Ok(b) => Ok(b),
        Err(e) => Err(RegexError::Eval(e)),
    }
}

/// Whether the start at `c` is passed over: the program begins with a
/// literal other than `c`.
pub open spec fn skips(code: Seq<Instruction>, c: char) -> bool {
    code.len() > 0 && (code[0] matches Instruction::Char(Char::Literal(f)) && f != c)
}

/// The text from character `k` on.
pub open spec fn tail(s: Seq<char>, k: int) -> Seq<char> {
    s.subrange(k, s.len() as int)
}

/// Whether the start `k` is passed over: a start at a character that
/// `skips` names. The start at the end of the text is never passed over.
pub open spec fn passed_over(code: Seq<Instruction>, s: Seq<char>, k: int) -> bool {
    0 <= k < s.len() && skips(code, s[k])
}

/// The result of trying the starts from `k` on, the end of the text
/// included, in order, until one matches or fails.
pub open spec fn scan(code: Seq<Instruction>, s: Seq<char>, k: int, dollar: bool) -> Result<bool, RegexError>
    decreases s.len() + 1 - k,
{
    if k < 0 || k > s.len() {
        Ok(false)
    } else if passed_over(code, s, k) {
        scan(code, s, k + 1, dollar)
    } else {
        match text_outcome(code, tail(s, k), dollar) {
            Ok(false) => scan(code, s, k + 1, dollar),
            x => x,
        }
    }
}

/// The result of trying every start from `k` on, in order, until one
/// matches or fails, passing over none.
pub open spec fn scan_every(code: Seq<Instruction>, s: Seq<char>, k: int, dollar: bool) -> Result<bool, RegexError>
    decreases s.len() + 1 - k,
{
    if k < 0 || k > s.len() {
        Ok(false)
    } else {
        match text_outcome(code, tail(s, k), dollar) {
            Ok(false) => scan_every(code, s, k + 1, dollar),
            x => x,
        }
    }
}

/// Passing over the starts whose character differs from the literal the
/// program begins with never changes what a line search gives: the search
/// from such a start ends at once without a match.
pub proof fn law_skipped_starts_do_not_match(code: Seq<Instruction>, s: Seq<char>, k: int, dollar: bool)
    ensures
        scan(code, s, k, dollar) == scan_every(code, s, k, dollar),
    decreases s.len() + 1 - k,
{
    if 0 <= k <= s.len() {
        law_skipped_starts_do_not_match(code, s, k + 1, dollar);
        if passed_over(code, s, k) {
            let t = tail(s, k);
            assert(t[0] == s[k]);
            assert(run(code, t, t.len(), dollar, 0, 0, Seq::empty(), 1) == Some(
                (Ok::<bool, EvalError>(false), Seq::<(usize, usize)>::empty()),
            ));
            lemma_run_outcome(code, t, t.len(), dollar, 0, 0, Seq::empty(), 1);
        }
    }
}

/// A search over a whole text that reports a match has found one.
proof fn lemma_text_match_is_real(code: Seq<Instruction>, s: Seq<char>, dollar: bool)
    requires
        text_finishes(code, s, dollar),
        text_outcome(code, s, dollar) == Ok::<bool, RegexError>(true),
    ensures
        reaches_match(code, s, s.len(), dollar, 0, 0),
{
    let f = choose|f: nat| #[trigger] run(code, s, s.len(), dollar, 0, 0, Seq::empty(), f) is Some;
    law_reported_match_is_real(code, s, s.len(), dollar, 0, 0, Seq::empty(), f);
}

proof fn lemma_scan_match_is_real(code: Seq<Instruction>, s: Seq<char>, k: int, dollar: bool)
    requires
        scan_finishes(code, s, k, dollar),
        scan(code, s, k, dollar) == Ok::<bool, RegexError>(true),
    ensures
        exists|j: int|
            k <= j <= s.len() && #[trigger] reaches_match(code, tail(s, j), tail(s, j).len(), dollar, 0, 0),
    decreases s.len() + 1 - k,
{
    if passed_over(code, s, k) {
        lemma_scan_match_is_real(code, s, k + 1, dollar);
    } else if text_outcome(code, tail(s, k), dollar) == Ok::<bool, RegexError>(false) {
        lemma_scan_match_is_real(code, s, k + 1, dollar);
    } else {
        lemma_text_match_is_real(code, tail(s, k), dollar);
    }
}

/// A line that matching reports as matched (before any inversion) has a
/// start from which the program reaches `Match`: the start of the line when
/// `caret`, else some position of it.
pub proof fn law_line_match_is_real(code: Seq<Instruction>, s: Seq<char>, caret: bool, dollar: bool)
    requires
        line_finishes(code, s, caret, dollar),
        line_result(code, s, caret, dollar, false) == Ok::<bool, RegexError>(true),
    ensures
        caret ==> reaches_match(code, s, s.len(), dollar, 0, 0),
        !caret ==> exists|k: int|
            0 <= k <= s.len() && #[trigger] reaches_match(code, tail(s, k), tail(s, k).len(), dollar, 0, 0),
{
    if caret {
        lemma_text_match_is_real(code, s, dollar);
    } else {
        lemma_scan_match_is_real(code, s, 0, dollar);
    }
}

/// Whether every search that `scan` makes from `k` on ends.
pub open spec fn scan_finishes(code: Seq<Instruction>, s: Seq<char>, k: int, dollar: bool) -> bool
    decreases s.len() + 1 - k,
{
    if k < 0 || k > s.len() {
        true
    } else if passed_over(code, s, k) {
        scan_finishes(code, s, k + 1, dollar)
    } else {
        &&& text_finishes(code, tail(s, k), dollar)
        &&& text_outcome(code, tail(s, k), dollar) == Ok::<bool, RegexError>(false) ==> scan_finishes(
            code,
            s,
            k + 1,
            dollar,
        )
    }
}

/// Whether matching a line ends.
pub open spec fn line_finishes(code: Seq<Instruction>, s: Seq<char>, caret: bool, dollar: bool) -> bool {
    if caret {
        text_finishes(code, s, dollar)
    } else {
        scan_finishes(code, s, 0, dollar)
    }
}

/// In a program with no loop of jumps alone, every search that matching a
/// line makes ends.
pub proof fn law_lines_finish(code: Seq<Instruction>, s: Seq<char>, caret: bool, dollar: bool)
    requires
        no_jump_loop(code),
    ensures
        line_finishes(code, s, caret, dollar),
{
    law_search_ends(code, s, s.len(), dollar, 0, 0, Seq::empty());
    lemma_scans_finish(code, s, 0, dollar);
}

proof fn lemma_scans_finish(code: Seq<Instruction>, s: Seq<char>, k: int, dollar: bool)
    requires
        no_jump_loop(code),
    ensures
        scan_finishes(code, s, k, dollar),
    decreases s.len() + 1 - k,
{
    if 0 <= k <= s.len() {
        lemma_scans_finish(code, s, k + 1, dollar);
        let t = tail(s, k);
        law_search_ends(code, t, t.len(), dollar, 0, 0, Seq::empty());
    }
}

/// A pattern that compiles gives a program with no loop of jumps alone, so
/// every search on it ends.
pub proof fn law_compiled_patterns_finish(p: Seq<char>)
    requires
        pattern_outcome(p) is Ok,
    ensures
        no_jump_loop(pattern_outcome(p)->Ok_0.0),
{
    let n = parse_model(core_pattern(p), true)->Ok_0;
    law_compiled_code_has_no_jump_loop(n);
}

/// What matching a line gives.
pub open spec fn line_result(
    code: Seq<Instruction>,
    s: Seq<char>,
    caret: bool,
    dollar: bool,
    invert: bool,
) -> Result<bool, RegexError> {
    let m = if caret {
        text_outcome(code, s, dollar)
    } else {
        scan(code, s, 0, dollar)
    };
    match m {
        Ok(b) => Ok(b != invert),
        Err(e) => Err(e),
    }
}

/// Inverting the match negates the answer on every line and keeps every error.
pub proof fn law_inverted_line_result(code: Seq<Instruction>, s: Seq<char>, caret: bool, dollar: bool)
    ensures
        line_result(code, s, caret, dollar, true) == match line_result(code, s, caret, dollar, false) {
            Ok(b) => Ok::<bool, RegexError>(!b),
            Err(e) => Err(e),
        },
{
}

/// Matches a program against a line: from its start when `is_caret`, else
/// from each position in turn; the result is inverted when `is_invert_match`.
#[verifier::loop_isolation(false)]
pub fn match_line(
    code: &[Instruction],
    line: &str,
    is_caret: bool,
    is_dollar: bool,
    is_invert_match: bool,
) -> (r: Result<bool, RegexError>)
    requires
        line_finishes(code@, line@, is_caret, is_dollar),
    ensures
        r == line_result(code@, line@, is_caret, is_dollar, is_invert_match),
{
    let mut is_match: bool = false;
    if is_caret {
        is_match = match match_string(code, line, is_dollar) {
            Ok(b) => b,
            Err(e) => return Err(e),
        };
    } else {
        let ghost s = line@;
        let n = line.unicode_len();
        let mut k: usize = 0;
        while k < n
            invariant
                s == line@,
                n == s.len(),
                k <= n,
                !is_match,
                scan(code@, s, 0, is_dollar) == scan(code@, s, k as int, is_dollar),
                scan_finishes(code@, s, k as int, is_dollar),
            decreases n - k,
        {
            let ch = line.get_char(k);
            let mut skip = false;
            if code.len() > 0 {
                if let Instruction::Char(Char::Literal(first)) = code[0] {
                    if ch != first {
                        skip = true;
                    }
                }
            }
            if !skip {
                let suffix = line.substring_char(k, n);
                assert(suffix@ == tail(s, k as int));
                is_match = match match_string(code, suffix, is_dollar) {
                    Ok(b) => b,
                    Err(e) => return Err(e),
                };
                if is_match {
                    break;
                }
            }
            k = k + 1;
        }
        if !is_match {
            assert(k == n);
            assert(scan(code@, s, n + 1, is_dollar) == Ok::<bool, RegexError>(false));
            let empty = line.substring_char(n, n);
            assert(empty@ == tail(s, n as int));
            is_match = match match_string(code, empty, is_dollar) {
                Ok(b) => b,
                Err(e) => return Err(e),
            };
        }
    }
    Ok(is_match != is_invert_match)
}

/// The characters of the literal instructions from `start` on.
pub open spec fn literal_run(code: Seq<Instruction>, start: int) -> Seq<char>
    decreases code.len() - start,
{
    if 0 <= start < code.len() {
        match code[start] {
            Instruction::Char(Char::Literal(c)) => seq![c] + literal_run(code, start + 1),
            _ => Seq::empty(),
        }
    } else {
        Seq::empty()
    }
}

/// The literal run at `start`, when it is not empty.
pub open spec fn run_at(code: Seq<Instruction>, start: int) -> Option<Seq<char>> {
    if literal_run(code, start).len() > 0 {
        Some(literal_run(code, start))
    } else {
        None
    }
}

proof fn lemma_one_to_set(x: Seq<char>)
    ensures
        seq![x].to_set() == set![x],
{
    assert forall|a: Seq<char>| seq![x].to_set().contains(a) <==> set![x].contains(a) by {
        if a == x {
            assert(seq![x][0] == x);
        }
    }
    assert(seq![x].to_set() =~= set![x]);
}

/// The set holding the value, if any.
pub open spec fn opt_set(o: Option<Seq<char>>) -> Set<Seq<char>> {
    match o {
        Some(x) => set![x],
        None => Set::empty(),
    }
}

/// The literal runs a match can begin with: the one at 0 when the program
/// starts with a literal, the ones at both targets when it starts with a split.
pub open spec fn first_runs(code: Seq<Instruction>) -> Set<Seq<char>> {
    if code.len() == 0 {
        Set::empty()
    } else {
        match code[0] {
            Instruction::Char(Char::Literal(_)) => opt_set(run_at(code, 0)),
            Instruction::Split(l, r) => opt_set(run_at(code, l as int)).union(opt_set(run_at(code, r as int))),
            _ => Set::empty(),
        }
    }
}

/// The models of a list of strings.
pub open spec fn string_views(v: Seq<String>) -> Seq<Seq<char>> {
    Seq::new(v.len(), |i: int| v[i]@)
}

/// A pattern compiled for the basic engine, with its matching options.
pub struct Regex {
    code: Vec<Instruction>,
    first_strings: Vec<String>,
    is_ignore_case: bool,
    is_invert_match: bool,
    is_caret: bool,
    is_dollar: bool,
}

impl Regex {
    /// The program has no loop of jumps alone, as every compiled program.
    #[verifier::type_invariant]
    spec fn no_endless_search(&self) -> bool {
        no_jump_loop(self.code@)
    }

    /// The compiled program.
    pub closed spec fn spec_code(&self) -> Seq<Instruction> {
        self.code@
    }

    /// The literal runs a match can begin with.
    pub closed spec fn spec_first_strings(&self) -> Seq<Seq<char>> {
        string_views(self.first_strings@)
    }

    /// The options: ignore case, invert, anchored at start, anchored at end.
    pub closed spec fn spec_flags(&self) -> (bool, bool, bool, bool) {
        (self.is_ignore_case, self.is_invert_match, self.is_caret, self.is_dollar)
    }

    /// Compiles `pattern`, lowercased first when `is_ignore_case` is set.
    pub fn new(pattern: &str, is_ignore_case: bool, is_invert_match: bool) -> (r: Result<Self, RegexError>)
        ensures
            ({
                let p = if is_ignore_case {
                    lowercase(pattern@)
                } else {
                    pattern@
                };
                match pattern_outcome(p) {
                    Ok((code, caret, dollar)) => r matches Ok(re) && re.spec_code() == code && re.spec_flags()
                        == (is_ignore_case, is_invert_match, caret, dollar) && re.spec_first_strings().to_set()
                        == first_runs(code) && re.spec_first_strings().no_duplicates(),
                    Err(e) => r == Err::<Regex, RegexError>(e),
                }
            }),
    {
        let compiled = if is_ignore_case {
            let lowered = to_lowercase(pattern);
            compile_pattern(lowered.as_str())
        } else {
            compile_pattern(pattern)
        };
        let (code, is_caret, is_dollar) = match compiled {
            Ok(x) => x,
            Err(e) => return Err(e),
        };
        let first_strings = Self::get_first_strings(code.as_slice());
        proof {
            let p = if is_ignore_case {
                lowercase(pattern@)
            } else {
                pattern@
            };
            law_compiled_patterns_finish(p);
        }
        Ok(Regex { code, first_strings, is_ignore_case, is_invert_match, is_caret, is_dollar })
    }

    /// The compiled program.
    pub fn code(&self) -> (r: &Vec<Instruction>)
        ensures
            r@ == self.spec_code(),
    {
        &self.code
    }

    /// The literal runs a match can begin with.
    pub fn first_strings(&self) -> (r: &Vec<String>)
        ensures
            string_views(r@) == self.spec_first_strings(),
    {
        &self.first_strings
    }

    /// Matches a line; the result is inverted when `is_invert_match` is set.
    pub fn is_match(&self, line: &str) -> (r: Result<bool, RegexError>)
        ensures
            ({
                let (ic, inv, caret, dollar) = self.spec_flags();
                r == line_result(self.spec_code(), if ic { lowercase(line@) } else { line@ }, caret, dollar, inv)
            }),
    {
        proof {
            use_type_invariant(self);
        }
        let matched = if self.is_ignore_case {
            let lowered = to_lowercase(line);
            proof {
                law_lines_finish(self.code@, lowered@, self.is_caret, self.is_dollar);
            }
            match_line(self.code.as_slice(), lowered.as_str(), self.is_caret, self.is_dollar, false)
        } else {
            proof {
                law_lines_finish(self.code@, line@, self.is_caret, self.is_dollar);
            }
            match_line(self.code.as_slice(), line, self.is_caret, self.is_dollar, false)
        };
        match matched {
            Ok(b) => Ok(b != self.is_invert_match),
            Err(e) => Err(e),
        }
    }

    /// The literal runs a match of `insts` can begin with.
    pub fn get_first_strings(insts: &[Instruction]) -> (r: Vec<String>)
        ensures
            string_views(r@).to_set() == first_runs(insts@),
            string_views(r@).no_duplicates(),
    {
        let mut first_strings: Vec<String> = Vec::new();
        if insts.len() == 0 {
            assert(string_views(first_strings@).to_set() =~= first_runs(insts@));
            return first_strings;
        }
        match insts[0] {
            Instruction::Char(Char::Literal(_)) => {
                if let Some(string) = Self::get_string(insts, 0) {
                    let ghost x = string@;
                    first_strings.push(string);
                    assert(string_views(first_strings@) =~= seq![x]);
                    proof {
                        lemma_one_to_set(x);
                    }
                }
            },
            Instruction::Split(left, right) => {
                let a = Self::get_string(insts, left);
                let b = Self::get_string(insts, right);
                match (a, b) {
                    (Some(x), Some(y)) => {
                        let ghost xv = x@;
                        let ghost yv = y@;
                        let same = crate::text::strings_equal(&x, &y);
                        first_strings.push(x);
                        if !same {
                            first_strings.push(y);
                            assert(string_views(first_strings@) =~= seq![xv, yv]);
                            assert(seq![xv, yv].to_set() =~= set![xv].union(set![yv]));
                        } else {
                            assert(string_views(first_strings@) =~= seq![xv]);
                            proof {
                                lemma_one_to_set(xv);
                            }
                            assert(set![xv] =~= set![xv].union(set![yv]));
                        }
                    },
                    (Some(x), None) => {
                        let ghost xv = x@;
                        first_strings.push(x);
                        assert(string_views(first_strings@) =~= seq![xv]);
                        proof {
                            lemma_one_to_set(xv);
                        }
                        assert(set![xv] =~= set![xv].union(Set::<Seq<char>>::empty()));
                    },
                    (None, Some(y)) => {
                        let ghost yv = y@;
                        first_strings.push(y);
                        assert(string_views(first_strings@) =~= seq![yv]);
                        proof {
                            lemma_one_to_set(yv);
                        }
                        assert(set![yv] =~= Set::<Seq<char>>::empty().union(set![yv]));
                    },
                    (None, None) => {},
                }
            },
            _ => {},
        }
        assert(string_views(first_strings@).to_set() =~= first_runs(insts@));
        first_strings
    }

    /// The characters of the literal instructions from `start` on, when
    /// there is at least one.
    #[verifier::loop_isolation(false)]
    pub fn get_string(insts: &[Instruction], start: usize) -> (r: Option<String>)
        ensures
            match run_at(insts@, start as int) {
                Some(x) => r matches Some(s) && s@ == x,
                None => r is None,
            },
    {
        let ghost code = insts@;
        let mut pre: Vec<char> = Vec::new();
        let mut at = start;
        assert(pre@ + literal_run(code, start as int) =~= literal_run(code, start as int));
        while at < insts.len()
            invariant
                code == insts@,
                start <= at,
                pre@ + literal_run(code, at as int) == literal_run(code, start as int),
            decreases insts.len() - at,
        {
            match insts[at] {
                Instruction::Char(Char::Literal(c)) => {
                    let ghost before = pre@;
                    pre.push(c);
                    assert(pre@ + literal_run(code, at + 1) =~= before + (seq![c] + literal_run(code, at + 1)));
                    at = at + 1;
                },
                _ => {
                    assert(literal_run(code, at as int) == Seq::<char>::empty());
                    assert(pre@ =~= pre@ + Seq::<char>::empty());
                    break;
                },
            }
        }
        if at >= insts.len() {
            assert(literal_run(code, at as int) == Seq::<char>::empty());
            assert(pre@ =~= pre@ + Seq::<char>::empty());
        }
        if pre.len() == 0 {
            None
        } else {
            Some(string_from_chars(&pre))
        }
    }
}

} // verus!
