//! The public matcher: a compiled pattern with its options.
use vstd::prelude::*;
use crate::engine::analysis::{analysis, prune, strings};
use crate::engine::compiler::compile_outcome;
use crate::engine::instruction::{Instruction, program};
use crate::engine::parser::{Step, model_parse};
use crate::engine::{RegexError, compile_pattern_with_must_literals, line_outcome, match_line};
use crate::engine::ast::AstModel;
use crate::engine::evaluator::{EvalError, accepts_from, max_slot_index, search_any, start_state};
use crate::engine::laws::law_eval_compiled_exact;
use crate::engine::prefilter::lemma_filtered_answer;
use crate::engine::semantics::{law_compiled_code_accepts_exactly_spans, law_compiled_code_reads_spans, plain, spans};
use crate::engine::slots::lemma_compiled_slots;
use crate::text::{chars_of, contains_chars, lowercase, occurs_in, to_lowercase};

verus! {

/// A compiled pattern with its matching options.
pub struct Regex {
    /// Compiled program.
    code: Vec<Instruction>,
    /// Substrings every match contains, used to skip lines early.
    must_literals: Vec<String>,
    /// Whether pattern and lines are compared in lowercase.
    is_ignore_case: bool,
    /// Whether the result of a match is inverted.
    is_invert_match: bool,
    /// The syntax tree that the program and the must literals come from.
    tree: Ghost<AstModel>,
}

/// The text a pattern or line is compared as.
pub open spec fn folded(s: Seq<char>, ignore_case: bool) -> Seq<char> {
    if ignore_case {
        lowercase(s)
    } else {
        s
    }
}

/// Whether the program of `re` reaches `Match` from some position of `text`.
pub open spec fn finds(re: Regex, text: Seq<char>) -> bool {
    let prog = program(re.spec_code());
    exists|st: nat|
        st <= text.len() && #[trigger] accepts_from(prog, text, start_state(st, max_slot_index(prog) + 1))
}

/// `code` and `must` are what compiling and analysing the tree `a` give, and
/// the capture slots of the code can be counted.
pub open spec fn compiled_from(code: Seq<Instruction>, must: Seq<Seq<char>>, a: AstModel) -> bool {
    &&& compile_outcome(a) is Ok
    &&& program(code) == compile_outcome(a)->Ok_0
    &&& must == prune(analysis(a).must)
    &&& max_slot_index(compile_outcome(a)->Ok_0) < usize::MAX
}

/// What compiling `pattern` gives: the program and must literals of its
/// tree with the given options, or the parse or compile error.
pub open spec fn new_outcome(pattern: Seq<char>, ic: bool, inv: bool, r: Result<Regex, RegexError>) -> bool {
    match model_parse(folded(pattern, ic)) {
        Step::Done(a, _p, _c) => match compile_outcome(a) {
            Ok(code) => r matches Ok(re) && program(re.spec_code()) == code && re.spec_must_literals()
                == prune(analysis(a).must) && re.spec_ignore_case() == ic && re.spec_invert() == inv
                && re.well_built(),
            Err(e) => r == Err::<Regex, RegexError>(RegexError::Compile(e)),
        },
        Step::Fail(e) => r == Err::<Regex, RegexError>(RegexError::Parse(e)),
        Step::Overflow => false,
    }
}

/// On a regex that `new` built, what evaluating its program on a text gives
/// (as `match_line` reports it) is whether the program finds a match there:
/// so `is_match` agrees with `match_line` on the same program and the
/// compared text, inverted when the regex inverts.
pub proof fn law_is_match_agrees_with_match_line(re: Regex, text: Seq<char>, r: Result<bool, RegexError>)
    requires
        re.well_built(),
        text.len() <= usize::MAX,
        line_outcome(re.spec_code(), text, r),
    ensures
        r == Ok::<bool, RegexError>(finds(re, text)),
{
    let a = re.tree@;
    let prog = program(re.code@);
    let k = max_slot_index(prog) + 1;
    match r {
        Ok(b) => {
            law_eval_compiled_exact(a, text, Ok::<bool, EvalError>(b));
            if b {
                let st = choose|st: nat| st <= text.len() && #[trigger] accepts_from(prog, text, start_state(st, k));
                assert(accepts_from(prog, text, start_state(st, k)));
            } else if finds(re, text) {
                let st = choose|st: nat| st <= text.len() && #[trigger] accepts_from(prog, text, start_state(st, k));
                assert(accepts_from(prog, text, start_state(st, k)));
            }
        },
        Err(e) => {
            if let RegexError::Eval(x) = e {
                law_eval_compiled_exact(a, text, Err::<bool, EvalError>(x));
            }
        },
    }
}

/// Two regexes built from one pattern with the same case option, one
/// inverting and one not, are built or refused alike, and answer every line
/// oppositely.
pub proof fn law_invert_negates(
    pattern: Seq<char>,
    ic: bool,
    r0: Result<Regex, RegexError>,
    r1: Result<Regex, RegexError>,
    line: Seq<char>,
)
    requires
        new_outcome(pattern, ic, false, r0),
        new_outcome(pattern, ic, true, r1),
    ensures
        r0 is Ok <==> r1 is Ok,
        r0 is Err ==> r0 == r1,
        r0 is Ok && r1 is Ok ==> ({
            let a = r0->Ok_0;
            let b = r1->Ok_0;
            (finds(a, folded(line, a.spec_ignore_case())) != a.spec_invert()) == !(finds(
                b,
                folded(line, b.spec_ignore_case()),
            ) != b.spec_invert())
        }),
{
}

impl Regex {
    /// The program and the must literals come from one syntax tree, and the
    /// program's capture slots can be counted.
    pub closed spec fn well_built(&self) -> bool {
        compiled_from(self.code@, strings(self.must_literals@), self.tree@)
    }

    /// The program and the must literals come from one syntax tree.
    #[verifier::type_invariant]
    spec fn from_tree(self) -> bool {
        compiled_from(self.code@, strings(self.must_literals@), self.tree@)
    }

    /// The compiled program.
    pub closed spec fn spec_code(&self) -> Seq<Instruction> {
        self.code@
    }

    /// The substrings every match contains.
    pub closed spec fn spec_must_literals(&self) -> Seq<Seq<char>> {
        strings(self.must_literals@)
    }

    /// Whether matching ignores case.
    pub closed spec fn spec_ignore_case(&self) -> bool {
        self.is_ignore_case
    }

    /// Whether results are inverted.
    pub closed spec fn spec_invert(&self) -> bool {
        self.is_invert_match
    }

    /// Compiles `pattern`, lowercased first when `is_ignore_case` is set.
    pub fn new(pattern: &str, is_ignore_case: bool, is_invert_match: bool) -> (r: Result<
        Self,
        RegexError,
    >)
        requires
            folded(pattern@, is_ignore_case).len() < usize::MAX,
        ensures
            new_outcome(pattern@, is_ignore_case, is_invert_match, r),
    {
        let compiled = if is_ignore_case {
            let lowered = to_lowercase(pattern);
            compile_pattern_with_must_literals(lowered.as_str())
        } else {
            compile_pattern_with_must_literals(pattern)
        };
        match compiled {
            Ok((code, must_literals)) => {
                let ghost text = folded(pattern@, is_ignore_case);
                proof {
                    lemma_compiled_slots(text);
                }
                Ok(Self::assemble(code, must_literals, is_ignore_case, is_invert_match, Ghost(model_parse(text)->Done_0)))
            },
            Err(e) => Err(e),
        }
    }

    /// A regex from the program and must literals of the tree `a`.
    fn assemble(
        code: Vec<Instruction>,
        must_literals: Vec<String>,
        is_ignore_case: bool,
        is_invert_match: bool,
        Ghost(a): Ghost<AstModel>,
    ) -> (r: Self)
        requires
            compiled_from(code@, strings(must_literals@), a),
        ensures
            r.code@ == code@,
            r.must_literals@ == must_literals@,
            r.is_ignore_case == is_ignore_case,
            r.is_invert_match == is_invert_match,
            r.tree@ == a,
    {
        Regex { code, must_literals, is_ignore_case, is_invert_match, tree: Ghost(a) }
    }

    /// Compiles `pattern` as `new` does, or gives `None` when the pattern is
    /// too long to index.
    pub fn try_new(pattern: &str, is_ignore_case: bool, is_invert_match: bool) -> (r: Option<
        Result<Self, RegexError>,
    >)
        ensures
            r is None <==> folded(pattern@, is_ignore_case).len() >= usize::MAX,
            r matches Some(x) ==> new_outcome(pattern@, is_ignore_case, is_invert_match, x),
    {
        let too_long = if is_ignore_case {
            let lowered = to_lowercase(pattern);
            chars_of(lowered.as_str()).len() == usize::MAX
        } else {
            chars_of(pattern).len() == usize::MAX
        };
        if too_long {
            None
        } else {
            Some(Self::new(pattern, is_ignore_case, is_invert_match))
        }
    }

    /// The substrings every match contains.
    pub fn must_literals(&self) -> (r: &Vec<String>)
        ensures
            strings(r@) == self.spec_must_literals(),
    {
        &self.must_literals
    }

    /// Matches a line: `true` when the pattern matches it, inverted when
    /// `is_invert_match` is set. Lines that lack a must literal are answered
    /// without running the program; the answer is the same.
    pub fn is_match(&self, line: &str) -> (r: Result<bool, RegexError>)
        ensures
            r == Ok::<bool, RegexError>(
                finds(*self, folded(line@, self.spec_ignore_case())) != self.spec_invert(),
            ),
    {
        let matched = if self.is_ignore_case {
            let lowered = to_lowercase(line);
            self.is_match_line(lowered.as_str())
        } else {
            self.is_match_line(line)
        };
        match matched {
            Ok(b) => Ok(b != self.is_invert_match),
            Err(e) => Err(e),
        }
    }

    /// Matches a line, after checking that it holds every must literal.
    fn is_match_line(&self, line: &str) -> (r: Result<bool, RegexError>)
        ensures
            r == Ok::<bool, RegexError>(finds(*self, line@)),
    {
        proof {
            use_type_invariant(self);
        }
        let ghost a = self.tree@;
        let ghost prog = program(self.code@);
        let chars = chars_of(line);
        assert(line@.len() <= usize::MAX) by {
            assert(chars@.len() == chars.len());
        }
        let ghost lits = strings(self.must_literals@);
        for i in 0..self.must_literals.len()
            invariant
                lits == strings(self.must_literals@),
                chars@ == line@,
                line@.len() <= usize::MAX,
                prog == program(self.code@),
                compiled_from(self.code@, lits, a),
                forall|j: int| 0 <= j < i ==> occurs_in(#[trigger] lits[j], line@),
        {
            let literal = chars_of(self.must_literals[i].as_str());
            if !contains_chars(&chars, &literal) {
                assert(!occurs_in(lits[i as int], line@));
                proof {
                    lemma_filtered_answer(a, line@, i as int);
                    if finds(*self, line@) {
                        let st = choose|st: nat|
                            st <= line@.len() && #[trigger] accepts_from(
                                prog,
                                line@,
                                start_state(st, max_slot_index(prog) + 1),
                            );
                        assert(search_any(prog, line@, max_slot_index(prog) + 1, Ok::<bool, EvalError>(false)));
                    }
                }
                return Ok(false);
            }
        }
        let r = match_line(self.code.as_slice(), line);
        proof {
            law_is_match_agrees_with_match_line(*self, line@, r);
        }
        r
    }
}

/// A regex finds every text its pattern describes: when the tree of the
/// (possibly lowercased) pattern describes some part of a text, from `i` to
/// `j`, the compiled regex finds a match in that text, and `is_match` on a
/// line whose compared text this is answers `true` (`false` when inverted).
pub proof fn law_regex_finds_spanned_text(
    pattern: Seq<char>,
    ic: bool,
    inv: bool,
    re: Regex,
    text: Seq<char>,
    i: nat,
    j: int,
)
    requires
        new_outcome(pattern, ic, inv, Ok(re)),
        model_parse(folded(pattern, ic)) is Done,
        spans(model_parse(folded(pattern, ic))->Done_0, text, i as int, j),
        i <= text.len(),
        text.len() <= usize::MAX,
    ensures
        finds(re, text),
{
    let a = model_parse(folded(pattern, ic))->Done_0;
    law_compiled_code_reads_spans(a, text, i, j);
    let prog = program(re.spec_code());
    assert(accepts_from(prog, text, start_state(i, max_slot_index(prog) + 1)));
}

/// For a pattern without backreferences, a regex finds a match in a text
/// exactly when the tree of the (possibly lowercased) pattern describes some
/// part of the text; `is_match` answers that, inverted when asked.
pub proof fn law_regex_finds_exactly_spanned_text(pattern: Seq<char>, ic: bool, inv: bool, re: Regex, text: Seq<char>)
    requires
        new_outcome(pattern, ic, inv, Ok(re)),
        model_parse(folded(pattern, ic)) is Done,
        plain(model_parse(folded(pattern, ic))->Done_0),
        text.len() <= usize::MAX,
    ensures
        finds(re, text) <==> exists|i: nat, j: int|
            i <= text.len() && #[trigger] spans(model_parse(folded(pattern, ic))->Done_0, text, i as int, j),
{
    let a = model_parse(folded(pattern, ic))->Done_0;
    let prog = program(re.spec_code());
    if finds(re, text) {
        let st = choose|st: nat| st <= text.len() && #[trigger] accepts_from(prog, text, start_state(st, max_slot_index(prog) + 1));
        law_compiled_code_accepts_exactly_spans(a, text, st);
        let j = choose|j: int| #[trigger] spans(a, text, st as int, j);
        assert(st <= text.len() && spans(a, text, st as int, j));
    }
    if exists|i: nat, j: int| i <= text.len() && #[trigger] spans(a, text, i as int, j) {
        let (i, j) = choose|i: nat, j: int| i <= text.len() && #[trigger] spans(a, text, i as int, j);
        law_regex_finds_spanned_text(pattern, ic, inv, re, text, i, j);
    }
}

} // verus!
