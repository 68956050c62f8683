//! The exit-code matrix every subcommand resolves into. A higher code
//! shadows a lower one when outcomes combine.

use vstd::prelude::*;

use crate::diagnostics::Severity;

verus! {

/// A run's exit status, in ascending precedence.
#[derive(Clone, Copy, Debug, PartialEq, Eq, Structural, PartialOrd, Ord, Hash)]
pub enum ExitStatus {
    Clean,
    FormatChange,
    LintViolation,
    ParseError,
    ConfigError,
}

/// The process exit code of a status, which is also its precedence.
pub open spec fn code_of(s: ExitStatus) -> u8 {
    match s {
        ExitStatus::Clean => 0,
        ExitStatus::FormatChange => 1,
        ExitStatus::LintViolation => 2,
        ExitStatus::ParseError => 3,
        ExitStatus::ConfigError => 4,
    }
}

/// The status with the higher precedence of the two.
pub open spec fn max_spec(a: ExitStatus, b: ExitStatus) -> ExitStatus {
    if code_of(a) >= code_of(b) {
        a
    } else {
        b
    }
}

/// The status a diagnostic of severity `s` raises.
pub open spec fn from_severity(s: Severity) -> ExitStatus {
    match s {
        Severity::Format => ExitStatus::FormatChange,
        Severity::Lint => ExitStatus::LintViolation,
    }
}

impl ExitStatus {
    /// The process exit code.
    pub fn code(self) -> (c: u8)
        ensures
            c == code_of(self),
    {
        match self {
            ExitStatus::Clean => 0,
            ExitStatus::FormatChange => 1,
            ExitStatus::LintViolation => 2,
            ExitStatus::ParseError => 3,
            ExitStatus::ConfigError => 4,
        }
    }

    /// The status with the higher precedence of `self` and `other`.
    pub fn max(self, other: ExitStatus) -> (r: ExitStatus)
        ensures
            r == max_spec(self, other),
    {
        if self.code() >= other.code() {
            self
        } else {
            other
        }
    }
}

/// Precedence is a total order on statuses: equal codes mean equal
/// statuses, so `max` picks one of its arguments and combining is
/// commutative and associative.
pub proof fn lemma_max_laws(a: ExitStatus, b: ExitStatus, c: ExitStatus)
    ensures
        code_of(a) == code_of(b) ==> a == b,
        max_spec(a, b) == max_spec(b, a),
        max_spec(max_spec(a, b), c) == max_spec(a, max_spec(b, c)),
        code_of(max_spec(a, b)) >= code_of(a) && code_of(max_spec(a, b)) >= code_of(b),
        max_spec(a, ExitStatus::Clean) == a,
{
}

impl Default for ExitStatus {
    fn default() -> (s: ExitStatus)
        ensures
            s == ExitStatus::Clean,
    {
        ExitStatus::Clean
    }
}

impl From<Severity> for ExitStatus {
    fn from(s: Severity) -> (r: ExitStatus) {
        match s {
            Severity::Format => ExitStatus::FormatChange,
            Severity::Lint => ExitStatus::LintViolation,
        }
    }
}

impl vstd::std_specs::convert::FromSpecImpl<Severity> for ExitStatus {
    open spec fn obeys_from_spec() -> bool {
        true
    }

    open spec fn from_spec(s: Severity) -> ExitStatus {
        from_severity(s)
    }
}

#[verifier::external_type_specification]
#[verifier::external_body]
pub struct ExAnyhowError(anyhow::Error);

/// True when `err`, through any context `anyhow` wrapped round it,
/// holds an I/O error of kind `BrokenPipe`: `downcast_ref` looks through
/// the context chain. Nothing is stated of the result, which depends on
/// the error value that the library cannot see into.
#[verifier::external_body]
pub fn is_broken_pipe(err: &anyhow::Error) -> bool {
    match err.downcast_ref::<std::io::Error>() {
        Some(e) => e.kind() == std::io::ErrorKind::BrokenPipe,
        None => false,
    }
}

/// The status a failed run closes with: a broken pipe (the reader went
/// away) is clean, any other error is a configuration error.
pub fn error_status(broken_pipe: bool) -> (s: ExitStatus)
    ensures
        broken_pipe ==> s == ExitStatus::Clean,
        !broken_pipe ==> s == ExitStatus::ConfigError,
{
    if broken_pipe {
        ExitStatus::Clean
    } else {
        ExitStatus::ConfigError
    }
}

/// A run's closing status, and the error to log when the run failed for
/// any reason other than a broken pipe.
pub struct Finalized {
    pub status: ExitStatus,
    pub to_log: Option<anyhow::Error>,
}

/// Resolves a run's result: its status when it succeeded; otherwise
/// clean for a broken pipe, or a configuration error, handed back for
/// logging.
pub fn finalize_outcome(result: Result<ExitStatus, anyhow::Error>) -> (f: Finalized)
    ensures
        result matches Ok(s) ==> f.status == s && f.to_log is None,
        result is Err ==> (f.status == ExitStatus::Clean && f.to_log is None) || (f.status
            == ExitStatus::ConfigError && f.to_log is Some),
{
    match result {
        Ok(status) => Finalized { status, to_log: None },
        Err(err) => {
            let broken = is_broken_pipe(&err);
            let status = error_status(broken);
            if broken {
                Finalized { status, to_log: None }
            } else {
                Finalized { status, to_log: Some(err) }
            }
        },
    }
}

/// The status a run's result closes with; see [`finalize_outcome`].
pub fn finalize(result: Result<ExitStatus, anyhow::Error>) -> (s: ExitStatus)
    ensures
        result matches Ok(t) ==> s == t,
        result is Err ==> s == ExitStatus::Clean || s == ExitStatus::ConfigError,
{
    finalize_outcome(result).status
}

} // verus!
