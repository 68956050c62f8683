use prose::diagnostics::{Diagnostic, Severity};
use prose::edit::Edit;
use prose::pipeline::{edits_fit_text, pipeline_start, pipeline_step, PipelineAction, PipelineEvent};
use prose::rule::RuleId;

fn lint(rule: &'static str) -> Diagnostic {
    Diagnostic::lint(RuleId(rule), 0, 1, "finding".to_string())
}

fn applied(groups: Vec<Vec<Edit>>, lints: Vec<Diagnostic>, rule: &'static str) -> PipelineEvent {
    PipelineEvent::Applied { groups, lints, rule: RuleId(rule), message: "reformat".to_string() }
}

#[test]
fn pipeline_start_finishes_a_suppressed_file_unchanged() {
    let (run, action) = pipeline_start("x = 1\n".to_string(), 3, true);
    assert!(matches!(action, PipelineAction::Done));
    assert_eq!(run.text, "x = 1\n");
    assert!(run.diagnostics.is_empty());
}

#[test]
fn pipeline_start_finishes_at_once_without_rules() {
    let (run, action) = pipeline_start("x\n".to_string(), 0, false);
    assert!(matches!(action, PipelineAction::Done));
    assert_eq!(run.text, "x\n");
}

#[test]
fn pipeline_runs_each_rule_and_reparses_each_rewrite() {
    let (run, action) = pipeline_start("a  = 1\n".to_string(), 2, false);
    assert!(matches!(action, PipelineAction::Apply(0)));
    let (run, action) = pipeline_step(run, applied(Vec::new(), vec![lint("first")], "first"));
    assert!(matches!(action, PipelineAction::Apply(1)));
    assert_eq!(run.text, "a  = 1\n");
    assert_eq!(run.diagnostics.len(), 1);
    let fix = Edit::range_replacement(" ".to_string(), 1, 3);
    let (run, action) = pipeline_step(run, applied(vec![vec![fix]], vec![lint("second")], "second"));
    match &action {
        PipelineAction::Reparse(t) => assert_eq!(t, "a = 1\n"),
        _ => panic!("expected a reparse"),
    }
    assert_eq!(run.text, "a  = 1\n");
    assert_eq!(run.diagnostics.len(), 3);
    assert_eq!(run.diagnostics[1].severity, Severity::Lint);
    assert_eq!(run.diagnostics[2].severity, Severity::Format);
    assert_eq!((run.diagnostics[2].start, run.diagnostics[2].end), (1, 3));
    let (run, action) = pipeline_step(run, PipelineEvent::Reparsed(true));
    assert!(matches!(action, PipelineAction::Done));
    assert_eq!(run.text, "a = 1\n");
    assert!(run.pending.is_none());
}

#[test]
fn pipeline_fails_with_the_rule_whose_rewrite_does_not_parse() {
    let (run, _) = pipeline_start("f(x)\n".to_string(), 1, false);
    let del = Edit::range_deletion(3, 4);
    let (run, action) = pipeline_step(run, applied(vec![vec![del]], Vec::new(), "drop"));
    assert!(matches!(action, PipelineAction::Reparse(_)));
    let (run, action) = pipeline_step(run, PipelineEvent::Reparsed(false));
    assert!(matches!(action, PipelineAction::Failed(0)));
    assert_eq!(run.text, "f(x)\n");
}

#[test]
fn pipeline_splices_every_group_of_a_rule() {
    let (run, _) = pipeline_start("ab\n".to_string(), 1, false);
    let groups = vec![vec![Edit::insertion("[".to_string(), 0)], vec![Edit::insertion("]".to_string(), 2)]];
    let (_, action) = pipeline_step(run, applied(groups, Vec::new(), "brackets"));
    match action {
        PipelineAction::Reparse(t) => assert_eq!(t, "[ab]\n"),
        _ => panic!("expected a reparse"),
    }
}

#[test]
fn edits_fit_text_rejects_overlap_and_split_characters() {
    let text = "añb";
    assert!(edits_fit_text(text, &[Edit::range_deletion(0, 1), Edit::range_deletion(3, 4)]));
    assert!(!edits_fit_text(text, &[Edit::range_deletion(0, 3), Edit::range_deletion(1, 3)]));
    assert!(!edits_fit_text(text, &[Edit::range_deletion(2, 3)]));
    assert!(!edits_fit_text(text, &[Edit::range_deletion(3, 9)]));
    assert!(edits_fit_text(text, &[]));
}

#[test]
fn run_emits_one_diagnostic_per_group_carrying_every_edit() {
    let (run, _) = pipeline_start("x = 1\n".to_string(), 1, false);
    let group = vec![Edit::range_replacement("Y".to_owned(), 0, 1), Edit::range_replacement("Z".to_owned(), 4, 5)];
    let (run, action) = pipeline_step(run, applied(vec![group], Vec::new(), "rewrite-x-and-1"));
    assert!(matches!(action, PipelineAction::Reparse(_)));
    let (run, action) = pipeline_step(run, PipelineEvent::Reparsed(true));
    assert!(matches!(action, PipelineAction::Done));
    assert_eq!(run.text, "Y = Z\n");
    assert_eq!(run.diagnostics.len(), 1);
    let fix = run.diagnostics[0].fix.as_ref().expect("format diagnostic carries a fix");
    assert_eq!(fix.len(), 2);
    assert_eq!((run.diagnostics[0].start, run.diagnostics[0].end), (0, 5));
    assert_eq!(run.diagnostics[0].rule, RuleId("rewrite-x-and-1"));
}

#[test]
fn pipeline_emits_one_diagnostic_per_group_in_group_order() {
    let (run, _) = pipeline_start("abc\n".to_string(), 1, false);
    let groups = vec![
        vec![Edit::range_replacement("C".to_owned(), 2, 3)],
        vec![Edit::range_replacement("A".to_owned(), 0, 1)],
    ];
    let (run, _) = pipeline_step(run, applied(groups, vec![lint("r")], "r"));
    assert_eq!(run.diagnostics.len(), 3);
    assert_eq!((run.diagnostics[1].start, run.diagnostics[1].end), (2, 3));
    assert_eq!((run.diagnostics[2].start, run.diagnostics[2].end), (0, 1));
}
