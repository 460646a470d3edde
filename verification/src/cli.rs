//! The decisions of the grep-like command: which patterns and files the
//! arguments name, whether output lines carry the file name, what an output
//! line says, and whether a line matches one of the patterns.
use vstd::prelude::*;
use crate::basic::Regex;
use crate::basic::error::RegexError;
use crate::text::{decimal, lowercase, push_decimal, push_str, string_from_chars};

verus! {

/// The arguments and options of the command.
#[derive(Debug)]
pub struct Args {
    /// The first positional argument: the pattern, or a file when `-e` is used.
    pub pattern: Option<String>,
    /// The files to search.
    pub files: Vec<String>,
    /// The patterns given with `-e`.
    pub patterns: Vec<String>,
    /// Print only the number of matching lines.
    pub count: bool,
    /// Compare without regard to case.
    pub ignore_case: bool,
    /// Select the lines that do not match.
    pub invert_match: bool,
    /// Never print file names.
    pub no_filename: bool,
    /// Always print file names.
    pub with_filename: bool,
    /// Print line numbers.
    pub line_number: bool,
    /// Show help.
    pub help: Option<bool>,
    /// Show the version.
    pub version: Option<bool>,
}

/// An error in the command line.
#[derive(Debug, Clone, Copy, PartialEq, Eq, Structural)]
pub enum CommandLineError {
    /// No pattern was given.
    NoPattern,
    /// `-h` and `-H` were both given.
    DuplicateFilenameOption,
}

/// The message of a command-line error.
pub open spec fn command_line_error_text(e: CommandLineError) -> Seq<char> {
    match e {
        CommandLineError::NoPattern => "CommandLineError : no pattern specified."@,
        CommandLineError::DuplicateFilenameOption => "CommandLineError : -h, -H options are specified at the same time."@,
    }
}

impl CommandLineError {
    /// The message of the error.
    pub fn to_string(&self) -> (r: String)
        ensures
            r@ == command_line_error_text(*self),
    {
        let mut out: Vec<char> = Vec::new();
        match self {
            CommandLineError::NoPattern => push_str(&mut out, "CommandLineError : no pattern specified."),
            CommandLineError::DuplicateFilenameOption => push_str(
                &mut out,
                "CommandLineError : -h, -H options are specified at the same time.",
            ),
        }
        assert(out@ =~= command_line_error_text(*self));
        string_from_chars(&out)
    }
}

/// The models of a list of strings.
pub open spec fn texts(v: Seq<String>) -> Seq<Seq<char>> {
    Seq::new(v.len(), |i: int| v[i]@)
}

impl Args {
    /// The patterns to search for. Without `-e` the positional argument is the
    /// pattern; with `-e` it is the first file.
    pub fn get_patterns(&mut self) -> (r: Result<&Vec<String>, CommandLineError>)
        ensures
            old(self).patterns@.len() == 0 ==> match old(self).pattern {
                Some(p) => r is Ok && texts(final(self).patterns@) == seq![p@] && final(self).files@
                    == old(self).files@,
                None => r == Err::<&Vec<String>, CommandLineError>(CommandLineError::NoPattern)
                    && final(self).patterns@ == old(self).patterns@ && final(self).files@
                    == old(self).files@,
            },
            old(self).patterns@.len() > 0 ==> r is Ok && final(self).patterns@ == old(self).patterns@
                && match old(self).pattern {
                Some(f) => texts(final(self).files@) == seq![f@] + texts(old(self).files@),
                None => final(self).files@ == old(self).files@,
            },
            r matches Ok(v) ==> v@ == final(self).patterns@,
            final(self).pattern == old(self).pattern,
            final(self).count == old(self).count,
            final(self).ignore_case == old(self).ignore_case,
            final(self).invert_match == old(self).invert_match,
            final(self).no_filename == old(self).no_filename,
            final(self).with_filename == old(self).with_filename,
            final(self).line_number == old(self).line_number,
            final(self).help == old(self).help,
            final(self).version == old(self).version,
    {
        if self.patterns.len() == 0 {
            match &self.pattern {
                Some(p) => {
                    let owned = p.clone();
                    self.patterns.push(owned);
                    assert(texts(self.patterns@) =~= seq![p@]);
                },
                None => return Err(CommandLineError::NoPattern),
            }
        } else {
            if let Some(file) = &self.pattern {
                let owned = file.clone();
                let ghost before = texts(self.files@);
                self.files.insert(0, owned);
                assert(texts(self.files@) =~= seq![file@] + before);
            }
        }
        Ok(&self.patterns)
    }
}

/// Whether output lines carry the file name: for at most one file only with
/// `-H`, for more files unless `-h`.
pub fn is_print_filename(file_count: usize, no_filename: bool, with_filename: bool) -> (r: bool)
    ensures
        r == if file_count <= 1 {
            with_filename
        } else {
            !no_filename
        },
{
    if file_count <= 1 {
        with_filename
    } else {
        !no_filename
    }
}

/// The text printed for a matching line.
pub open spec fn output_text(
    filename: Seq<char>,
    line: Seq<char>,
    line_number: nat,
    is_filename: bool,
    is_line_number: bool,
) -> Seq<char> {
    if is_filename && is_line_number {
        filename + ":"@ + decimal(line_number) + ":"@ + line
    } else if is_filename {
        filename + ":"@ + line
    } else if is_line_number {
        decimal(line_number) + ":"@ + line
    } else {
        line
    }
}

/// The text printed for a matching line, with the file name and the line
/// number as the options ask.
pub fn format_line(
    filename: &str,
    line: &str,
    line_number: usize,
    is_filename: bool,
    is_line_number: bool,
) -> (r: String)
    ensures
        r@ == output_text(filename@, line@, line_number as nat, is_filename, is_line_number),
{
    let mut out: Vec<char> = Vec::new();
    if is_filename {
        push_str(&mut out, filename);
        push_str(&mut out, ":");
    }
    if is_line_number {
        push_decimal(&mut out, line_number);
        push_str(&mut out, ":");
    }
    push_str(&mut out, line);
    assert(out@ =~= output_text(filename@, line@, line_number as nat, is_filename, is_line_number));
    string_from_chars(&out)
}

/// What matching a line against the patterns gave.
#[derive(Debug, Clone, Copy, PartialEq, Eq, Structural)]
pub enum LineMatch {
    /// A pattern matched the line.
    Matched,
    /// No pattern matched the line.
    Unmatched,
    /// Matching failed.
    Failed(RegexError),
}

/// What the patterns from `i` on give for a line, tried in order until one
/// matches or fails.
pub open spec fn first_match(results: Seq<Result<bool, RegexError>>, i: int) -> LineMatch
    decreases results.len() - i,
{
    if i < 0 || i >= results.len() {
        LineMatch::Unmatched
    } else {
        match results[i] {
            Ok(true) => LineMatch::Matched,
            Ok(false) => first_match(results, i + 1),
            Err(e) => LineMatch::Failed(e),
        }
    }
}

/// The result of one pattern on a line.
pub open spec fn regex_result(re: Regex, line: Seq<char>) -> Result<bool, RegexError> {
    let (ic, inv, caret, dollar) = re.spec_flags();
    crate::basic::line_result(
        re.spec_code(),
        if ic {
            lowercase(line)
        } else {
            line
        },
        caret,
        dollar,
        inv,
    )
}

/// Matches a line against the patterns in order, stopping at the first that
/// matches or fails.
pub fn match_any(regexes: &[Regex], line: &str) -> (r: LineMatch)
    ensures
        r == first_match(Seq::new(regexes@.len(), |i: int| regex_result(regexes@[i], line@)), 0),
{
    let ghost results = Seq::new(regexes@.len(), |i: int| regex_result(regexes@[i], line@));
    let mut i: usize = 0;
    while i < regexes.len()
        invariant
            i <= regexes@.len(),
            results == Seq::new(regexes@.len(), |i: int| regex_result(regexes@[i], line@)),
            first_match(results, 0) == first_match(results, i as int),
        decreases regexes@.len() - i,
    {
        match regexes[i].is_match(line) {
            Ok(true) => return LineMatch::Matched,
            Ok(false) => {},
            Err(e) => return LineMatch::Failed(e),
        }
        i = i + 1;
    }
    LineMatch::Unmatched
}

/// What to do after matching one line of an input.
pub enum LineAction {
    /// Print this output line.
    Print(String),
    /// Print nothing for this line.
    Skip,
    /// Stop reading this input: matching failed with this error.
    Stop(RegexError),
}

/// Matches line `line_number` of the input `filename` and says what to do:
/// a matching line is counted and, unless only counts are printed, printed
/// with the file name and the line number as asked; a failure stops the
/// input. Gives the new count of matching lines and the action.
pub fn handle_line(
    regexes: &[Regex],
    filename: &str,
    line: &str,
    line_number: usize,
    count: usize,
    is_filename: bool,
    is_count: bool,
    is_line_number: bool,
) -> (r: (usize, LineAction))
    requires
        count < usize::MAX,
    ensures
        match first_match(Seq::new(regexes@.len(), |i: int| regex_result(regexes@[i], line@)), 0) {
            LineMatch::Matched => r.0 == count + 1 && if is_count {
                r.1 == LineAction::Skip
            } else {
                r.1 matches LineAction::Print(t) && t@ == output_text(
                    filename@,
                    line@,
                    line_number as nat,
                    is_filename,
                    is_line_number,
                )
            },
            LineMatch::Unmatched => r.0 == count && r.1 == LineAction::Skip,
            LineMatch::Failed(e) => r.0 == count && r.1 == LineAction::Stop(e),
        },
{
    match match_any(regexes, line) {
        LineMatch::Matched => {
            if is_count {
                (count + 1, LineAction::Skip)
            } else {
                (count + 1, LineAction::Print(format_line(filename, line, line_number, is_filename, is_line_number)))
            }
        },
        LineMatch::Unmatched => (count, LineAction::Skip),
        LineMatch::Failed(e) => (count, LineAction::Stop(e)),
    }
}

/// `-h` and `-H` cannot be used together.
pub fn check_filename_options(no_filename: bool, with_filename: bool) -> (r: Result<(), CommandLineError>)
    ensures
        r == (if no_filename && with_filename {
            Err::<(), CommandLineError>(CommandLineError::DuplicateFilenameOption)
        } else {
            Ok::<(), CommandLineError>(())
        }),
{
    if no_filename && with_filename {
        Err(CommandLineError::DuplicateFilenameOption)
    } else {
        Ok(())
    }
}

} // verus!
