//! The parsed command-line arguments of `check` and `format`, and the
//! checks made on them once parsed.

use vstd::prelude::*;

use crate::exit_status::ExitStatus;
use crate::report::OutputFormat;
use crate::rule::RuleId;

verus! {

/// The rule filter shared by `check` and `format`: rules to leave out,
/// and rules to run in place of the configured set.
pub struct RuleFilter {
    pub ignore: Vec<RuleId>,
    pub select: Vec<RuleId>,
}

/// Arguments of `prose check`.
pub struct CheckArgs {
    pub no_cache: bool,
    pub output_format: OutputFormat,
    pub paths: Vec<String>,
    pub quiet: bool,
    pub rules: RuleFilter,
    pub stdin: bool,
    pub validate: bool,
}

/// Arguments of `prose format`.
pub struct FormatArgs {
    pub diff: bool,
    pub no_cache: bool,
    pub output_format: OutputFormat,
    pub paths: Vec<String>,
    pub quiet: bool,
    pub rules: RuleFilter,
    pub stdin: bool,
}

/// `--diff` prints a patch, so it is refused with any output format but
/// text.
pub fn diff_format_conflict(args: &FormatArgs) -> (r: bool)
    ensures
        r == (args.diff && args.output_format != OutputFormat::Text),
{
    args.diff && !args.output_format.is_text()
}

/// What a refused command line exits with: help and version requests
/// are clean, any other refusal is a configuration error.
pub fn usage_error_status(is_help_or_version: bool) -> (s: ExitStatus)
    ensures
        is_help_or_version ==> s == ExitStatus::Clean,
        !is_help_or_version ==> s == ExitStatus::ConfigError,
{
    if is_help_or_version {
        ExitStatus::Clean
    } else {
        ExitStatus::ConfigError
    }
}

} // verus!
