//! The option surface of the command line, and the parse-error policy.
//!
//! Reading arguments, files and standard input happens outside the library;
//! this module holds the plain option record those layers fill in, and the
//! decision of what a parse error in an input file means under each policy.

use vstd::prelude::*;

verus! {

/// What to do about parse errors in input files.
#[derive(Clone, Debug, Eq, PartialEq, Structural)]
pub enum OnParseError {
    /// Silently proceed with the best-effort tree.
    Ignore,
    /// Proceed, but report the error.
    Warn,
    /// Stop processing with a failure.
    Error,
}

impl OnParseError {
    /// The policy's surface name.
    pub fn label(&self) -> (r: &'static str)
        ensures
            *self is Ignore ==> r@ == "ignore"@,
            *self is Warn ==> r@ == "warn"@,
            *self is Error ==> r@ == "error"@,
    {
        match self {
            OnParseError::Ignore => "ignore",
            OnParseError::Warn => "warn",
            OnParseError::Error => "error",
        }
    }
}

impl Default for OnParseError {
    /// Parse errors are ignored unless asked otherwise.
    fn default() -> (r: Self)
        ensures
            r is Ignore,
    {
        OnParseError::Ignore
    }
}

/// What the host should do after parsing one input file.
#[derive(Clone, Debug, Eq, PartialEq, Structural)]
pub enum ParseErrorAction {
    /// Go on matching.
    Proceed,
    /// Report the file, then go on matching.
    WarnAndProceed,
    /// Report the file and stop with a failure.
    Stop,
}

/// The decision table of the parse-error policy: a clean parse always
/// proceeds silently; an erroneous parse proceeds, warns, or stops as the
/// policy says.
pub fn parse_error_action(policy: &OnParseError, has_error: bool) -> (r: ParseErrorAction)
    ensures
        !has_error ==> r is Proceed,
        has_error && *policy is Ignore ==> r is Proceed,
        has_error && *policy is Warn ==> r is WarnAndProceed,
        has_error && *policy is Error ==> r is Stop,
{
    if !has_error {
        return ParseErrorAction::Proceed;
    }
    match policy {
        OnParseError::Ignore => ParseErrorAction::Proceed,
        OnParseError::Warn => ParseErrorAction::WarnAndProceed,
        OnParseError::Error => ParseErrorAction::Stop,
    }
}

/// The options of one invocation, as plain values.
#[derive(Clone, Debug)]
pub struct Args {
    /// Show details: metavariable spans and notes.
    pub detail: bool,
    /// Print replacements, do not perform them.
    pub dry_run: bool,
    /// Limit to this number of matches per file.
    pub limit: Option<usize>,
    /// Behavior on parse errors.
    pub on_parse_error: OnParseError,
    /// Print only the matched code.
    pub only_matching: bool,
    /// Recursively match patterns.
    pub recursive: bool,
    /// Pattern to replace with.
    pub replace: Option<String>,
    /// Additional conditions on the match.
    pub wheres: Vec<String>,
    /// Pattern to search for.
    pub pattern: String,
    /// Input files; a lone dash names standard input.
    pub files: Vec<String>,
}

} // verus!
