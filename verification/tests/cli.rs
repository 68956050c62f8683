use prose::cache::{CleanReport, Rewrite};
use prose::diagnostics::{Diagnostic, Severity};
use prose::diff::write_diff;
use prose::edit::Edit;
use prose::exit_status::{finalize, is_broken_pipe, ExitStatus};
use prose::output::{paint_with, pluralize, report, ube_tint, Presentation, Summary};
use prose::report::{
    cache_rewrite, emitter_summary, file_changed, format_pass, relative_age, report_verbose,
    status_from_outcomes, summarize, write_report, FileOutcome, Mode, OutputFormat, Pass,
};
use prose::rule::RuleId;

const ASCENDING: [ExitStatus; 5] = [
    ExitStatus::Clean,
    ExitStatus::FormatChange,
    ExitStatus::LintViolation,
    ExitStatus::ParseError,
    ExitStatus::ConfigError,
];

#[test]
fn ord_matches_matrix() {
    assert!(ASCENDING.windows(2).all(|w| w[0] <= w[1]));
}

#[test]
fn exit_codes_match_the_matrix() {
    for (code, status) in ASCENDING.iter().enumerate() {
        assert_eq!(status.code() as usize, code);
        assert_eq!(*status as u8 as usize, code);
    }
    assert_eq!(ExitStatus::default(), ExitStatus::Clean);
    assert_eq!(ExitStatus::from(Severity::Format), ExitStatus::FormatChange);
    assert_eq!(ExitStatus::from(Severity::Lint), ExitStatus::LintViolation);
    assert_eq!(ExitStatus::LintViolation.max(ExitStatus::FormatChange), ExitStatus::LintViolation);
}

#[test]
fn finalize_clears_broken_pipe_to_clean() {
    let err = anyhow::Error::from(std::io::Error::new(std::io::ErrorKind::BrokenPipe, "x"));
    assert_eq!(finalize(Err(err)), ExitStatus::Clean);
}

#[test]
fn finalize_returns_config_error_for_other_errors() {
    let err = anyhow::Error::msg("simulated");
    assert_eq!(finalize(Err(err)), ExitStatus::ConfigError);
}

#[test]
fn finalize_returns_input_status_on_ok() {
    assert_eq!(finalize(Ok(ExitStatus::Clean)), ExitStatus::Clean);
    assert_eq!(finalize(Ok(ExitStatus::FormatChange)), ExitStatus::FormatChange);
}

#[test]
fn is_broken_pipe_detects_io_error_in_chain() {
    let err = anyhow::Error::from(std::io::Error::new(std::io::ErrorKind::BrokenPipe, "x"));
    assert!(is_broken_pipe(&err));
}

#[test]
fn is_broken_pipe_returns_false_for_other_io_errors() {
    let err = anyhow::Error::from(std::io::Error::other("x"));
    assert!(!is_broken_pipe(&err));
}

#[test]
fn is_broken_pipe_unwraps_through_anyhow_context() {
    let err = anyhow::Error::from(std::io::Error::new(std::io::ErrorKind::BrokenPipe, "x"))
        .context("writing stdout");
    assert!(is_broken_pipe(&err));
}

const SECOND: u128 = 1_000_000_000;

#[test]
fn relative_age_renders_seconds_minutes_hours_days() {
    let now: u128 = 1_700_000_000 * SECOND;
    assert!(relative_age(now, now - 5 * SECOND).ends_with("s ago"));
    assert!(relative_age(now, now - 120 * SECOND).ends_with("m ago"));
    assert!(relative_age(now, now - 7200 * SECOND).ends_with("h ago"));
    assert!(relative_age(now, now - 172_800 * SECOND).ends_with("d ago"));
}

#[test]
fn relative_age_exact_values() {
    let now: u128 = 1_700_000_000 * SECOND;
    assert_eq!(relative_age(now, now - 5 * SECOND), "5s ago");
    assert_eq!(relative_age(now, now - 120 * SECOND), "2m ago");
    assert_eq!(relative_age(now, now - 7200 * SECOND), "2h ago");
    assert_eq!(relative_age(now, now - 172_800 * SECOND), "2d ago");
    assert_eq!(relative_age(now, now + SECOND), "in the future");
}

#[test]
fn write_diff_plain_keeps_the_patch_header() {
    let mut out = String::new();
    write_diff(&mut out, "sample.py", "ab = 1\nx = 2\n", "ab = 1\nx  = 2\n", false);
    assert!(out.contains("--- sample.py"), "patch header missing: {out:?}");
    assert!(!out.contains('🧵'), "decoration leaked: {out:?}");
    assert!(out.contains("-x = 2"));
    assert!(out.contains("+x  = 2"));
}

#[test]
fn write_diff_decorated_replaces_the_header() {
    let mut out = String::new();
    write_diff(&mut out, "sample.py", "a\n", "b\n", true);
    assert!(out.contains("🧵 sample.py"));
    assert!(!out.contains("--- sample.py"));
}

#[test]
fn decorate_diff_requires_a_tty_without_quiet() {
    for (stdout_tty, quiet, expected) in
        [(true, false, true), (true, true, false), (false, false, false), (false, true, false)]
    {
        assert_eq!(Presentation { quiet, stdout_tty }.decorate_diff(), expected);
    }
}

fn strip_escapes(s: &str) -> String {
    let mut out = String::new();
    let mut chars = s.chars().peekable();
    while let Some(c) = chars.next() {
        if c == '\u{1b}' {
            for d in chars.by_ref() {
                if d == 'm' {
                    break;
                }
            }
        } else {
            out.push(c);
        }
    }
    out
}

#[test]
fn each_outcome_renders_its_anchored_line() {
    let windowed = Presentation { quiet: false, stdout_tty: false };
    let cases = [
        (Summary::Clean, "🪻 All clean.\n"),
        (Summary::Diagnostics { files: 2, total: 5 }, "☕ 5 diagnostics in 2 files.\n"),
        (Summary::Diagnostics { files: 1, total: 1 }, "☕ 1 diagnostic in 1 file.\n"),
        (Summary::Reformatted { files: 4 }, "🗞️ Reformatted 4 files.\n"),
        (Summary::Reformatted { files: 1 }, "🗞️ Reformatted 1 file.\n"),
        (Summary::WouldReformat { files: 3 }, "🗞️ 3 files would be reformatted.\n"),
    ];
    for (summary, expected) in cases {
        let mut out = String::new();
        report(&mut out, &windowed, &summary);
        assert_eq!(strip_escapes(&out), expected);
    }
}

#[test]
fn quiet_strips_emoji_and_color() {
    let mut out = String::new();
    report(&mut out, &Presentation { quiet: true, stdout_tty: true }, &Summary::Diagnostics { files: 2, total: 5 });
    assert_eq!(out, "5 diagnostics in 2 files.\n");
}

#[test]
fn paint_emits_rgb_under_truecolor() {
    let painted = paint_with("x", true, ube_tint());
    assert!(painted.contains("\u{1b}[38;2;138;128;203m"));
    assert!(painted.ends_with("\u{1b}[0m"));
    assert_eq!(painted, "\u{1b}[38;2;138;128;203mx\u{1b}[0m");
}

#[test]
fn paint_falls_back_to_ansi_without_truecolor() {
    let painted = paint_with("x", false, ube_tint());
    assert!(painted.contains("\u{1b}[35m"));
    assert!(!painted.contains("38;2;"));
}

#[test]
fn pluralize_counts() {
    assert_eq!(pluralize(0, "file"), "0 files");
    assert_eq!(pluralize(1, "file"), "1 file");
    assert_eq!(pluralize(1234, "diagnostic"), "1234 diagnostics");
}

#[test]
fn write_report_renders_removed_counts() {
    let mut out = String::new();
    write_report(&mut out, CleanReport { bytes: 2048, entries: 3 });
    assert_eq!(out, "removed 3 entries (2048 bytes)\n");
}

fn lint(rule: &'static str) -> Diagnostic {
    Diagnostic::lint(RuleId(rule), 0, 1, "m".to_string())
}

fn format_diag(rule: &'static str) -> Diagnostic {
    Diagnostic::format(RuleId(rule), vec![Edit::insertion(" ".to_string(), 3)], "m".to_string())
}

fn done(diagnostics: Vec<Diagnostic>, rewrite: Rewrite, cached: bool) -> FileOutcome {
    FileOutcome::Done { cached, diagnostics, name: "a.py".to_string(), rewrite }
}

#[test]
fn status_from_outcomes_takes_the_highest_status() {
    let outcomes = vec![
        done(vec![format_diag("align-equals")], Rewrite::Skipped, false),
        done(vec![lint("step-narration")], Rewrite::Skipped, false),
    ];
    assert_eq!(status_from_outcomes(&outcomes, false), ExitStatus::LintViolation);
    let outcomes = vec![
        done(vec![format_diag("align-equals")], Rewrite::Skipped, false),
        FileOutcome::Failed(ExitStatus::ParseError),
    ];
    assert_eq!(status_from_outcomes(&outcomes, false), ExitStatus::ParseError);
    assert_eq!(status_from_outcomes(&[], false), ExitStatus::Clean);
}

#[test]
fn status_from_outcomes_demotes_format_changes() {
    let outcomes = vec![done(vec![format_diag("align-equals")], Rewrite::Skipped, false)];
    assert_eq!(status_from_outcomes(&outcomes, false), ExitStatus::FormatChange);
    assert_eq!(status_from_outcomes(&outcomes, true), ExitStatus::Clean);
    let settled = vec![done(vec![format_diag("align-equals")], Rewrite::Unchanged, false)];
    assert_eq!(status_from_outcomes(&settled, false), ExitStatus::Clean);
}

#[test]
fn emitter_summary_counts_files_and_rules() {
    let outcomes = vec![
        done(vec![format_diag("align-equals"), lint("reassigned-constants")], Rewrite::Skipped, true),
        done(vec![format_diag("align-equals")], Rewrite::Changed("x".to_string()), false),
        done(vec![], Rewrite::Unchanged, false),
        FileOutcome::Failed(ExitStatus::ConfigError),
    ];
    let summary = emitter_summary(&outcomes);
    assert_eq!(summary.files_visited, 3);
    assert_eq!(summary.files_changed, 2);
    assert_eq!(summary.files_with_diagnostics, 2);
    assert_eq!(summary.diagnostics_total, 3);
    let count = |slug: &str| summary.rules_fired.iter().find(|(id, _)| id.as_str() == slug).map(|(_, n)| *n);
    assert_eq!(count("align-equals"), Some(2));
    assert_eq!(count("reassigned-constants"), Some(1));
    assert_eq!(summary.rules_fired.len(), 2);

    assert!(matches!(summarize(&outcomes, &summary, Mode::Check), Some(Summary::Diagnostics { files: 2, total: 3 })));
    assert!(matches!(summarize(&outcomes, &summary, Mode::Reformat), Some(Summary::Reformatted { files: 2 })));
    let mut line = String::new();
    report_verbose(&outcomes, true, &mut line);
    assert_eq!(line, "cache: 1 hits, 2 misses, 3 files\n");
    let mut bypassed = String::new();
    report_verbose(&outcomes, false, &mut bypassed);
    assert_eq!(bypassed, "cache: bypassed\n");
}

#[test]
fn summarize_hides_a_clean_result_shadowed_by_a_failure() {
    let outcomes = vec![FileOutcome::Failed(ExitStatus::ConfigError)];
    let summary = emitter_summary(&outcomes);
    assert!(summarize(&outcomes, &summary, Mode::Check).is_none());
    let clean = vec![done(vec![], Rewrite::Unchanged, false)];
    let summary = emitter_summary(&clean);
    assert!(matches!(summarize(&clean, &summary, Mode::Preview), Some(Summary::Clean)));
}

#[test]
fn file_changed_falls_back_to_format_diagnostics() {
    assert!(file_changed(&[], &Rewrite::Changed("x".to_string())));
    assert!(!file_changed(&[format_diag("align-equals")], &Rewrite::Unchanged));
    assert!(file_changed(&[format_diag("align-equals")], &Rewrite::Skipped));
    assert!(!file_changed(&[lint("step-narration")], &Rewrite::Skipped));
}

#[test]
fn format_pass_needs_both_only_for_a_diagnostic_format() {
    assert_eq!(format_pass(false, OutputFormat::Json), Pass::Both);
    assert_eq!(format_pass(false, OutputFormat::Text), Pass::Rewrite);
    assert_eq!(format_pass(true, OutputFormat::Json), Pass::Rewrite);
    assert!(!Pass::Rewrite.uses_cache());
    assert!(!Pass::Diagnose { validate: true }.uses_cache());
    assert!(Pass::Diagnose { validate: false }.uses_cache());
    assert!(Pass::Both.needs_rewrite());
}

#[test]
fn cache_rewrite_marks_skipped_unless_run_supplied_text() {
    assert!(matches!(cache_rewrite(false, None), Rewrite::Skipped));
    assert!(matches!(cache_rewrite(true, None), Rewrite::Unchanged));
    assert!(matches!(cache_rewrite(true, Some("y = 1\n")), Rewrite::Changed(text) if text == "y = 1\n"));
}

#[test]
fn default_is_clean() {
    assert_eq!(ExitStatus::default(), ExitStatus::Clean);
}

#[test]
fn from_severity_format_is_format_change() {
    assert_eq!(ExitStatus::from(Severity::Format), ExitStatus::FormatChange);
}

#[test]
fn from_severity_lint_is_lint_violation() {
    assert_eq!(ExitStatus::from(Severity::Lint), ExitStatus::LintViolation);
}

fn diagnostic(severity: Severity, slug: &'static str) -> Diagnostic {
    match severity {
        Severity::Format => Diagnostic::format(RuleId(slug), vec![Edit::range_replacement("y".to_string(), 0, 1)], "test".to_string()),
        Severity::Lint => Diagnostic::lint(RuleId(slug), 0, 1, "test".to_string()),
    }
}

fn outcome_with(diagnostics: Vec<Diagnostic>) -> FileOutcome {
    FileOutcome::Done { cached: false, diagnostics, name: "<source>".to_string(), rewrite: Rewrite::Skipped }
}

fn rules_fired(summary: &prose::report::EmitterSummary, slug: &str) -> usize {
    summary.rules_fired.iter().find(|(id, _)| id.as_str() == slug).map(|(_, n)| *n).unwrap_or(0)
}

#[test]
fn report_check_outcomes_with_failed_parse_takes_higher_status() {
    let outcomes = vec![
        outcome_with(vec![diagnostic(Severity::Format, "synthetic-format")]),
        FileOutcome::Failed(ExitStatus::ParseError),
    ];
    assert_eq!(status_from_outcomes(&outcomes, false), ExitStatus::ParseError);
}

#[test]
fn report_check_outcomes_with_lint_and_format_returns_lint_violation() {
    let outcomes = vec![outcome_with(vec![
        diagnostic(Severity::Format, "synthetic-format"),
        diagnostic(Severity::Lint, "synthetic-lint"),
    ])];
    assert_eq!(status_from_outcomes(&outcomes, false), ExitStatus::LintViolation);
}

#[test]
fn report_check_outcomes_with_synthetic_lint_returns_lint_violation() {
    let outcomes = vec![outcome_with(vec![diagnostic(Severity::Lint, "synthetic-lint")])];
    assert_eq!(status_from_outcomes(&outcomes, false), ExitStatus::LintViolation);
}

#[test]
fn report_emitter_summary_counts_visited_changed_diagnostics_and_rules() {
    let changed = FileOutcome::Done {
        cached: false,
        diagnostics: vec![diagnostic(Severity::Format, "align-equals"), diagnostic(Severity::Lint, "reassigned-constants")],
        name: "<source>".to_string(),
        rewrite: Rewrite::Changed("x   = 1\n".to_string()),
    };
    let clean = outcome_with(Vec::new());
    let outcomes = vec![changed, clean, FileOutcome::Failed(ExitStatus::ParseError)];
    let summary = emitter_summary(&outcomes);
    assert_eq!(summary.files_visited, 2);
    assert_eq!(summary.files_changed, 1);
    assert_eq!(summary.files_with_diagnostics, 1);
    assert_eq!(summary.diagnostics_total, 2);
    assert_eq!(rules_fired(&summary, "align-equals"), 1);
    assert_eq!(rules_fired(&summary, "reassigned-constants"), 1);
}

#[test]
fn report_emitter_summary_tallies_repeated_rule_occurrences() {
    let outcome = outcome_with(vec![diagnostic(Severity::Format, "align-equals"), diagnostic(Severity::Format, "align-equals")]);
    let summary = emitter_summary(std::slice::from_ref(&outcome));
    assert_eq!(rules_fired(&summary, "align-equals"), 2);
}

#[test]
fn file_changed_counts_a_changed_rewrite_or_a_skipped_format_diagnostic() {
    let format = vec![diagnostic(Severity::Format, "synthetic-format")];
    let lint = vec![diagnostic(Severity::Lint, "synthetic-lint")];
    assert!(file_changed(&[], &Rewrite::Changed("x = 1\n".to_owned())));
    assert!(file_changed(&format, &Rewrite::Skipped));
    assert!(!file_changed(&format, &Rewrite::Unchanged));
    assert!(!file_changed(&lint, &Rewrite::Skipped));
    assert!(!file_changed(&[], &Rewrite::Skipped));
}

#[test]
fn report_report_verbose_prints_bypassed_when_cache_disabled() {
    let mut out = String::new();
    report_verbose(&[], false, &mut out);
    assert_eq!(out, "cache: bypassed\n");
}

#[test]
fn report_report_verbose_prints_hit_and_miss_counts() {
    let make = |cached: bool| FileOutcome::Done {
        cached,
        diagnostics: Vec::new(),
        name: "<source>".to_string(),
        rewrite: Rewrite::Skipped,
    };
    let outcomes = vec![make(true), make(true), make(false), FileOutcome::Failed(ExitStatus::Clean)];
    let mut out = String::new();
    report_verbose(&outcomes, true, &mut out);
    assert_eq!(out, "cache: 2 hits, 1 misses, 3 files\n");
}

#[test]
fn status_from_outcomes_clears_format_change_for_an_unchanged_rewrite() {
    let outcome = FileOutcome::Done {
        cached: false,
        diagnostics: vec![diagnostic(Severity::Format, "synthetic-format"), diagnostic(Severity::Lint, "synthetic-lint")],
        name: "<source>".to_string(),
        rewrite: Rewrite::Unchanged,
    };
    assert_eq!(status_from_outcomes(&[outcome], false), ExitStatus::LintViolation);
}

#[test]
fn report_status_from_outcomes_demotes_format_change_when_demoted() {
    let outcomes = vec![outcome_with(vec![diagnostic(Severity::Format, "synthetic-format")])];
    assert_eq!(status_from_outcomes(&outcomes, true), ExitStatus::Clean);
    assert_eq!(status_from_outcomes(&outcomes, false), ExitStatus::FormatChange);
}

#[test]
fn report_summarize_reports_diagnostics_alongside_a_failure() {
    let outcomes = vec![
        outcome_with(vec![diagnostic(Severity::Lint, "synthetic-lint")]),
        FileOutcome::Failed(ExitStatus::ParseError),
    ];
    assert!(matches!(
        summarize(&outcomes, &emitter_summary(&outcomes), Mode::Check),
        Some(Summary::Diagnostics { files: 1, total: 1 })
    ));
}

#[test]
fn report_summarize_suppresses_clean_summary_when_a_file_failed() {
    let outcomes = vec![FileOutcome::Failed(ExitStatus::ParseError)];
    assert!(summarize(&outcomes, &emitter_summary(&outcomes), Mode::Check).is_none());
}
