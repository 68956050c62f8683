use prose::cache::{CacheEntry, Rewrite};
use prose::diagnostics::Diagnostic;
use prose::edit::Edit;
use prose::exit_status::ExitStatus;
use prose::process::{
    diagnose_outcome, needs_validation, process_after_lookup, process_after_run, process_begin, rehydrate, run_outcome,
    stored_outcome, ProcessAction,
};
use prose::report::{status_from_outcomes, FileOutcome, Pass};
use prose::rule::RuleId;

fn entry(rewrite: Rewrite) -> CacheEntry {
    CacheEntry { diagnostics: Vec::new(), rewrite }
}

fn rewrite_of(outcome: &Option<FileOutcome>) -> Option<&Rewrite> {
    match outcome {
        Some(FileOutcome::Done { rewrite, .. }) => Some(rewrite),
        _ => None,
    }
}

#[test]
fn rehydrate_marks_a_check_mode_outcome_skipped() {
    let outcome = rehydrate("a.py".to_string(), b"x = 1\n".to_vec(), entry(Rewrite::Changed("y = 1\n".to_owned())), false);
    assert!(matches!(rewrite_of(&outcome), Some(Rewrite::Skipped)));
    assert!(matches!(outcome, Some(FileOutcome::Done { cached: true, .. })));
}

#[test]
fn rehydrate_returns_none_for_a_skipped_entry() {
    assert!(rehydrate("a.py".to_string(), b"x = 1\n".to_vec(), entry(Rewrite::Skipped), true).is_none());
}

#[test]
fn rehydrate_serves_a_changed_rewrite_to_a_format_mode() {
    let outcome = rehydrate("a.py".to_string(), b"x = 1\n".to_vec(), entry(Rewrite::Changed("y = 1\n".to_owned())), true);
    assert!(matches!(rewrite_of(&outcome), Some(Rewrite::Changed(text)) if text == "y = 1\n"));
}

#[test]
fn rehydrate_serves_an_unchanged_rewrite_as_no_edit() {
    let outcome = rehydrate("a.py".to_string(), b"x = 1\n".to_vec(), entry(Rewrite::Unchanged), true);
    assert!(matches!(rewrite_of(&outcome), Some(Rewrite::Unchanged)));
}

#[test]
fn rehydrate_refuses_bytes_that_are_not_utf8() {
    assert!(rehydrate("a.py".to_string(), vec![0x78, 0xff, 0x0a], entry(Rewrite::Unchanged), true).is_none());
}

fn format_diag() -> Diagnostic {
    Diagnostic::format(RuleId("x-to-y"), vec![Edit::range_replacement("y".to_string(), 0, 1)], "m".to_string())
}

#[test]
fn validation_runs_only_for_a_validating_check_with_format_changes() {
    assert!(needs_validation(true, &[format_diag()]));
    assert!(!needs_validation(false, &[format_diag()]));
    let lint = Diagnostic::lint(RuleId("x"), 0, 1, "m".to_string());
    assert!(!needs_validation(true, &[lint]));
}

#[test]
fn check_validate_fails_on_unparseable_rule_output() {
    let outcome = diagnose_outcome("<source>".to_string(), vec![format_diag()], Some(false));
    assert!(matches!(outcome, FileOutcome::Failed(ExitStatus::ConfigError)));
}

#[test]
fn check_without_validate_ignores_unparseable_rule_output() {
    let outcome = diagnose_outcome("<source>".to_string(), vec![format_diag()], None);
    assert!(matches!(outcome, FileOutcome::Done { rewrite: Rewrite::Skipped, cached: false, .. }));
}

#[test]
fn run_pipeline_reports_unchanged_when_edits_cancel() {
    // Two rules rewrite `x` to `y` and back: the text ends where it began.
    let run_diags = vec![format_diag(), format_diag()];
    let outcome = run_outcome("<source>".to_string(), "x = 1\n", "x = 1\n".to_string(), run_diags, None);
    assert!(matches!(&outcome, FileOutcome::Done { diagnostics, rewrite: Rewrite::Unchanged, .. } if diagnostics.len() == 2));
    assert_eq!(status_from_outcomes(std::slice::from_ref(&outcome), false), ExitStatus::Clean);
}

#[test]
fn run_outcome_prefers_the_as_written_diagnostics() {
    let outcome = run_outcome("<source>".to_string(), "x = 1\n", "y = 1\n".to_string(), vec![format_diag()], Some(Vec::new()));
    assert!(matches!(&outcome, FileOutcome::Done { diagnostics, rewrite: Rewrite::Changed(t), .. } if diagnostics.is_empty() && t == "y = 1\n"));
}

#[test]
fn process_begin_bypasses_the_cache_for_rewrite_and_validating_passes() {
    assert!(matches!(process_begin(Pass::Rewrite, true), ProcessAction::RunRules));
    assert!(matches!(process_begin(Pass::Diagnose { validate: true }, true), ProcessAction::RunRules));
    assert!(matches!(process_begin(Pass::Both, true), ProcessAction::LookUp));
    assert!(matches!(process_begin(Pass::Diagnose { validate: false }, true), ProcessAction::LookUp));
    assert!(matches!(process_begin(Pass::Both, false), ProcessAction::RunRules));
}

#[test]
fn process_after_lookup_reports_a_usable_hit_and_runs_on_a_miss() {
    let hit = process_after_lookup(Pass::Both, "a.py".to_string(), b"x\n".to_vec(), Some(entry(Rewrite::Unchanged)));
    assert!(matches!(hit, ProcessAction::Report(FileOutcome::Done { cached: true, rewrite: Rewrite::Unchanged, .. })));
    let miss = process_after_lookup(Pass::Both, "a.py".to_string(), b"x\n".to_vec(), None);
    assert!(matches!(miss, ProcessAction::RunRules));
    let stale = process_after_lookup(Pass::Both, "a.py".to_string(), b"x\n".to_vec(), Some(entry(Rewrite::Skipped)));
    assert!(matches!(stale, ProcessAction::RunRules));
}

#[test]
fn process_after_run_stores_exactly_the_fresh_outcome() {
    let outcome = FileOutcome::Done {
        cached: false,
        diagnostics: vec![format_diag()],
        name: "a.py".to_string(),
        rewrite: Rewrite::Changed("y = 1\n".to_string()),
    };
    match process_after_run(Pass::Both, true, outcome) {
        ProcessAction::Store { entry, name } => {
            assert_eq!(name, "a.py");
            assert_eq!(entry.diagnostics.len(), 1);
            assert!(matches!(&entry.rewrite, Rewrite::Changed(t) if t == "y = 1\n"));
            let reported = stored_outcome(entry, name);
            assert!(matches!(reported, FileOutcome::Done { cached: false, ref diagnostics, .. } if diagnostics.len() == 1));
        }
        _ => panic!("expected a store"),
    }
}

#[test]
fn process_after_run_reports_without_storing_when_the_cache_is_bypassed() {
    let outcome = FileOutcome::Done { cached: false, diagnostics: Vec::new(), name: "a.py".to_string(), rewrite: Rewrite::Unchanged };
    assert!(matches!(process_after_run(Pass::Rewrite, true, outcome), ProcessAction::Report(_)));
    let failed = FileOutcome::Failed(ExitStatus::ConfigError);
    assert!(matches!(process_after_run(Pass::Both, true, failed), ProcessAction::Report(FileOutcome::Failed(ExitStatus::ConfigError))));
}
