//! What one file's processing decides once the outside work is done:
//! whether a cache entry can stand for the file, whether a check must
//! re-confirm its rewrite, and the outcome a pass yields.

use vstd::prelude::*;
use vstd::utf8::*;

use crate::cache::{CacheEntry, Rewrite};
use crate::diagnostics::Diagnostic;
use crate::exit_status::ExitStatus;
use crate::report::{has_format_change, has_format_spec, FileOutcome, Pass};
use crate::rule::str_eq;
use crate::text::utf8_string;

verus! {

/// The rewrite a cache hit reports: the stored one when the mode needs
/// a rewrite, none otherwise.
pub open spec fn replayed_rewrite(entry: CacheEntry, needs_rewrite: bool) -> Rewrite {
    if needs_rewrite {
        entry.rewrite
    } else {
        Rewrite::Skipped
    }
}

/// Turns a cache hit back into the file's outcome. `None` when the entry
/// cannot stand for this run: the mode needs a rewrite that a check left
/// out, or the file's bytes are not UTF-8.
pub fn rehydrate(name: String, original_bytes: Vec<u8>, entry: CacheEntry, needs_rewrite: bool) -> (r: Option<
    FileOutcome,
>)
    ensures
        r is None <==> ((needs_rewrite && entry.rewrite is Skipped) || !valid_utf8(original_bytes@)),
        r matches Some(o) ==> o == (FileOutcome::Done {
            cached: true,
            diagnostics: entry.diagnostics,
            name,
            rewrite: replayed_rewrite(entry, needs_rewrite),
        }),
{
    let rewrite = if needs_rewrite {
        match entry.rewrite {
            Rewrite::Skipped => {
                return None;
            },
            rewrite => rewrite,
        }
    } else {
        Rewrite::Skipped
    };
    match utf8_string(original_bytes) {
        Some(_) => Some(FileOutcome::Done { cached: true, diagnostics: entry.diagnostics, name, rewrite }),
        None => None,
    }
}

/// Whether a validating check must re-confirm that its rewrite parses:
/// only when some diagnostic proposes a format change.
pub fn needs_validation(validate: bool, diagnostics: &[Diagnostic]) -> (r: bool)
    ensures
        r == (validate && has_format_spec(diagnostics@)),
{
    validate && has_format_change(diagnostics)
}

/// The outcome of a diagnose-only pass. `rewrite_parses` is `None` when
/// no validation ran; a failed validation fails the file.
pub fn diagnose_outcome(name: String, diagnostics: Vec<Diagnostic>, rewrite_parses: Option<bool>) -> (r: FileOutcome)
    ensures
        rewrite_parses == Some(false) ==> r == FileOutcome::Failed(ExitStatus::ConfigError),
        rewrite_parses != Some(false) ==> r == (FileOutcome::Done {
            cached: false,
            diagnostics,
            name,
            rewrite: Rewrite::Skipped,
        }),
{
    match rewrite_parses {
        Some(false) => FileOutcome::Failed(ExitStatus::ConfigError),
        _ => FileOutcome::Done { cached: false, diagnostics, name, rewrite: Rewrite::Skipped },
    }
}

/// The outcome of a rewriting pass over `original` that produced
/// `formatted` and `run_diagnostics`. The diagnostics reported are the
/// as-written ones when the mode computed them, the run's own otherwise.
pub fn run_outcome(
    name: String,
    original: &str,
    formatted: String,
    run_diagnostics: Vec<Diagnostic>,
    diagnosed: Option<Vec<Diagnostic>>,
) -> (r: FileOutcome)
    ensures
        r matches FileOutcome::Done { cached, diagnostics, name: n, rewrite } && {
            &&& !cached
            &&& n == name
            &&& diagnostics == (match diagnosed {
                Some(d) => d,
                None => run_diagnostics,
            })
            &&& formatted@ == original@ ==> rewrite is Unchanged
            &&& formatted@ != original@ ==> (rewrite matches Rewrite::Changed(t) && t@ == formatted@)
        },
{
    let rewrite = if str_eq(formatted.as_str(), original) {
        Rewrite::Unchanged
    } else {
        Rewrite::Changed(formatted)
    };
    let diagnostics = match diagnosed {
        Some(d) => d,
        None => run_diagnostics,
    };
    FileOutcome::Done { cached: false, diagnostics, name, rewrite }
}

/// The cache is read and written for a file: the cache is open and the
/// pass is neither the rewrite alone (which would record post-edit
/// diagnostics) nor a validating check (which must re-confirm the
/// rewrite).
pub open spec fn keyed(pass: Pass, cache_on: bool) -> bool {
    cache_on && !(pass == Pass::Rewrite || pass == Pass::Diagnose { validate: true })
}

/// What the processing of one file asks of its caller next.
pub enum ProcessAction {
    /// Look the file up in the cache under its key.
    LookUp,
    /// Decode the text and run the rules over it.
    RunRules,
    /// Store `entry` under the file's key, then report the fresh outcome
    /// it was taken from (see [`stored_outcome`]).
    Store { entry: CacheEntry, name: String },
    /// Report this outcome; the cache is not written.
    Report(FileOutcome),
}

/// The first step for a file: look it up when the cache is in play for
/// this pass, else run the rules.
pub fn process_begin(pass: Pass, cache_on: bool) -> (a: ProcessAction)
    ensures
        a is LookUp <==> keyed(pass, cache_on),
        a is RunRules <==> !keyed(pass, cache_on),
{
    if cache_on && pass.uses_cache() {
        ProcessAction::LookUp
    } else {
        ProcessAction::RunRules
    }
}

/// After the lookup: a hit that can stand for this run is reported as
/// the file's cached outcome; a miss, or a hit that cannot stand (see
/// [`rehydrate`]), runs the rules.
pub fn process_after_lookup(pass: Pass, name: String, bytes: Vec<u8>, hit: Option<CacheEntry>) -> (a: ProcessAction)
    ensures
        match hit {
            Some(e) => if (pass == Pass::Both && e.rewrite is Skipped) || !valid_utf8(bytes@) {
                a is RunRules
            } else {
                a == ProcessAction::Report(
                    FileOutcome::Done {
                        cached: true,
                        diagnostics: e.diagnostics,
                        name,
                        rewrite: replayed_rewrite(e, pass == Pass::Both),
                    },
                )
            },
            None => a is RunRules,
        },
{
    match hit {
        Some(entry) => match rehydrate(name, bytes, entry, pass.needs_rewrite()) {
            Some(o) => ProcessAction::Report(o),
            None => ProcessAction::RunRules,
        },
        None => ProcessAction::RunRules,
    }
}

/// After the rules ran: when the cache is in play, a finished outcome
/// is stored as exactly its diagnostics and rewrite; a failure, or a
/// pass that bypasses the cache, is reported as it is.
pub fn process_after_run(pass: Pass, cache_on: bool, outcome: FileOutcome) -> (a: ProcessAction)
    ensures
        match outcome {
            FileOutcome::Done { cached, diagnostics, name, rewrite } => if keyed(pass, cache_on) {
                a == ProcessAction::Store { entry: CacheEntry { diagnostics, rewrite }, name }
            } else {
                a == ProcessAction::Report(outcome)
            },
            FileOutcome::Failed(_) => a == ProcessAction::Report(outcome),
        },
{
    if cache_on && pass.uses_cache() {
        match outcome {
            FileOutcome::Done { cached, diagnostics, name, rewrite } => ProcessAction::Store {
                entry: CacheEntry { diagnostics, rewrite },
                name,
            },
            FileOutcome::Failed(s) => ProcessAction::Report(FileOutcome::Failed(s)),
        }
    } else {
        ProcessAction::Report(outcome)
    }
}

/// The outcome reported once a fresh entry is stored: the diagnostics
/// and rewrite it holds, not from the cache.
pub fn stored_outcome(entry: CacheEntry, name: String) -> (o: FileOutcome)
    ensures
        o == (FileOutcome::Done { cached: false, diagnostics: entry.diagnostics, name, rewrite: entry.rewrite }),
{
    FileOutcome::Done { cached: false, diagnostics: entry.diagnostics, name, rewrite: entry.rewrite }
}

/// The passes that bypass the cache never look a file up nor store it:
/// for the rewrite alone and for a validating check, processing starts
/// by running the rules and reports the fresh outcome as it is.
pub proof fn lemma_bypassing_passes_leave_the_cache(pass: Pass, cache_on: bool)
    requires
        pass == Pass::Rewrite || pass == (Pass::Diagnose { validate: true }),
    ensures
        !keyed(pass, cache_on),
{
}

} // verus!
