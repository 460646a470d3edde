# regular_expression

A regular-expression engine and a grep-like command, written in Verus: the
parsers, compilers, evaluators, literal analysis and command-line decisions
are proved against their contracts.

## Layout

- `src/engine/`: the main engine. `parser` (pattern text to syntax tree, with
  a grammar given by `model_*` spec functions), `compiler` (tree to
  instructions, `code_of`), `evaluator` (depth-first search over states, with
  `accepts_from` / `faults_from` as the meaning of a run and `dfs_answer` as
  the answer the search order gives), `analysis` (must literals, needles,
  nullability), `search_plan` (start-byte filter for a
  byte-level program), and the proofs that tie them together:
  - `laws`: compiled programs never jump outside themselves, and evaluation
    reports exactly whether some start position reaches `Match`;
  - `prefilter`: every must literal occurs inside each match of a compiled
    program, so skipping lines without one never changes an answer;
  - `slots`: a parsed pattern numbers its groups 1, 2, ... in the order of
    their `(` and is tidy (ordered ranges, `min <= max`, greedy
    repetitions); a compiled program ends with its only `Match`, names no
    capture slot beyond its groups, and its slots can always be counted;
  - `literal_sets`: the must literals and needles are ordered, without
    repeats, and at most sixteen;
  - `messages`: the error messages of the engine; an unclosed group is
    reported as having no right parenthesis, a leading `*`, `+`, `?` or `{`
    as having no previous expression.
- `src/regex.rs`: `Regex`, whose `is_match` gives exactly whether the
  compiled program finds a match in the (possibly lowercased) line, inverted
  when asked.
- `src/basic/`: the first engine (literal, `.`, `*`, `+`, `?`, `|`, groups,
  anchors) with its own parser, compiler and backtracking evaluator, and
  `src/simple/`, the plain dialect of that language (where `.` is an
  ordinary character) with its parser and code generator. Its evaluator's
  meaning is given by `run`; `law_reported_match_is_real` shows that every
  match it reports is reached by the program's steps, and
  `law_skipped_starts_do_not_match` that passing over starts never changes
  a line's result. The evaluator's functions take any program and ask that
  the search ends; `termination` proves that it does on every program without
  a loop of jumps alone (`law_search_ends`), and that the compiler only
  produces such programs (`law_compiled_code_has_no_jump_loop`), so a
  compiled `basic::Regex` matches every line with no precondition.
- `src/cli.rs`: the decisions of the command (patterns, file-name display,
  output lines, matching a line against several patterns).
- `src/text.rs`: character-level helpers and the two calls into std that
  carry trusted contracts (`String` from characters, `str::to_lowercase`).
- `app/main.rs`: argument parsing, file and standard-input reading, printing.
- `tests/`: scenario tests of the library and tests of its laws on concrete values.
