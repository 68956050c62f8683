//! The rule loop. Each enabled rule, in order, reports its surviving
//! fix groups and lints against the current text; a rule with fixes has
//! them spliced in, and the rewritten text must parse again before the
//! next rule sees it. The decisions live here as a state machine: the
//! caller applies the rule or reparses as each action asks, and hands
//! back what came of it.

use vstd::prelude::*;
use vstd::utf8::*;

use crate::diagnostics::{is_group_diagnostic, Diagnostic};
use crate::rule::RuleId;
use crate::edit::{apply_edits, edits_fit, is_index_permutation, permuted, sorted_edits, splice, Edit};

verus! {

/// Where a run of the rules stands: the current text, the diagnostics
/// gathered so far, the index of the rule to apply next out of
/// `rule_count`, and the rewrite waiting for its reparse.
pub struct PipelineRun {
    pub text: String,
    pub diagnostics: Vec<Diagnostic>,
    pub next_rule: usize,
    pub rule_count: usize,
    pub pending: Option<String>,
}

/// What the run asks of its caller next.
pub enum PipelineAction {
    /// Apply the rule with this index to the current text.
    Apply(usize),
    /// Parse this rewritten text and report whether it parses.
    Reparse(String),
    /// Every rule has run; the run holds the final text.
    Done,
    /// The rewrite of the rule with this index did not parse.
    Failed(usize),
}

/// What came of the last action.
pub enum PipelineEvent {
    /// The rule's fix groups that survived suppression (none empty), its
    /// unsuppressed lints, and the rule's id and message, which each
    /// group's format diagnostic carries.
    Applied { groups: Vec<Vec<Edit>>, lints: Vec<Diagnostic>, rule: RuleId, message: String },
    /// Whether the pending rewrite parses.
    Reparsed(bool),
}

/// The edits of all groups, group after group.
pub open spec fn concat_groups(groups: Seq<Vec<Edit>>) -> Seq<Edit>
    decreases groups.len(),
{
    if groups.len() == 0 {
        Seq::empty()
    } else {
        groups[0]@ + concat_groups(groups.drop_first())
    }
}

/// `out` is `text` with `edits` spliced in, in edit order.
pub open spec fn spliced_text(text: Seq<char>, edits: Seq<Edit>, out: Seq<char>) -> bool {
    exists|p: Seq<usize>|
        is_index_permutation(p, edits.len() as nat) && sorted_edits(permuted(edits, p)) && encode_utf8(out) == splice(
            encode_utf8(text),
            permuted(edits, p),
            0,
        )
}

/// The action once the rule at `next` is the next to run: apply it,
/// or finish when none is left.
pub open spec fn next_action_spec(next: int, count: int) -> PipelineAction {
    if next < count {
        PipelineAction::Apply(next as usize)
    } else {
        PipelineAction::Done
    }
}

/// The run awaits the outcome of applying a rule.
pub open spec fn awaits_rule(run: PipelineRun) -> bool {
    run.pending is None && run.next_rule < run.rule_count
}

/// The run awaits the verdict on a rewrite.
pub open spec fn awaits_reparse(run: PipelineRun) -> bool {
    run.pending is Some && run.next_rule < run.rule_count
}

/// Starts a run of `rule_count` rules over `text`. A file suppressed as
/// a whole runs no rule: it is done at once, unchanged and with no
/// diagnostics, as is a run with no rules.
pub fn pipeline_start(text: String, rule_count: usize, file_suppressed: bool) -> (r: (PipelineRun, PipelineAction))
    ensures
        r.0.text@ == text@,
        r.0.diagnostics@.len() == 0,
        r.0.pending is None,
        r.0.next_rule == 0,
        r.0.rule_count == (if file_suppressed { 0 } else { rule_count }),
        r.1 == next_action_spec(0, r.0.rule_count as int),
{
    let count = if file_suppressed {
        0
    } else {
        rule_count
    };
    let run = PipelineRun { text, diagnostics: Vec::new(), next_rule: 0, rule_count: count, pending: None };
    let action = if count > 0 {
        PipelineAction::Apply(0)
    } else {
        PipelineAction::Done
    };
    (run, action)
}

fn copy_edit(e: &Edit) -> (r: Edit)
    ensures
        r == *e,
{
    let content = match &e.content {
        Some(c) => Some(c.clone()),
        None => None,
    };
    Edit { start: e.start, end: e.end, content }
}

/// Splits the fix groups into the edits of all groups, group after
/// group, and one format diagnostic per group carrying all its edits.
fn group_fixes(groups: Vec<Vec<Edit>>, rule: RuleId, message: &String) -> (r: (Vec<Edit>, Vec<Diagnostic>))
    ensures
        r.0@ == concat_groups(groups@),
        r.1@.len() == groups@.len(),
        forall|j: int| 0 <= j < groups@.len() ==> is_group_diagnostic(#[trigger] r.1@[j], rule, groups@[j]@, message@),
{
    let ghost whole = groups@;
    let mut gs = groups;
    let mut out: Vec<Edit> = Vec::new();
    let mut fixes: Vec<Diagnostic> = Vec::new();
    proof {
        assert(out@ + concat_groups(gs@) =~= concat_groups(whole));
        assert(gs@ =~= whole.skip(0));
    }
    while gs.len() > 0
        invariant
            out@ + concat_groups(gs@) == concat_groups(whole),
            fixes@.len() + gs@.len() == whole.len(),
            gs@ == whole.skip(fixes@.len() as int),
            forall|j: int| 0 <= j < fixes@.len() ==> is_group_diagnostic(#[trigger] fixes@[j], rule, whole[j]@, message@),
        decreases gs.len(),
    {
        let ghost before = gs@;
        let ghost k = fixes@.len() as int;
        let g = gs.remove(0);
        proof {
            assert(gs@ =~= before.drop_first());
            assert(concat_groups(before) == before[0]@ + concat_groups(before.drop_first()));
            assert(before[0] == whole[k]);
            assert(gs@ =~= whole.skip(k + 1));
        }
        let ghost gv = g@;
        let mut copy: Vec<Edit> = Vec::new();
        let mut i: usize = 0;
        while i < g.len()
            invariant
                i <= g.len(),
                g@ == gv,
                copy@ == gv.take(i as int),
            decreases g.len() - i,
        {
            let e = copy_edit(&g[i]);
            copy.push(e);
            proof {
                assert(gv.take(i + 1) =~= gv.take(i as int).push(gv[i as int]));
            }
            i += 1;
        }
        proof {
            assert(gv.take(gv.len() as int) =~= gv);
        }
        let ghost prev = out@;
        out.append(&mut copy);
        let d = Diagnostic::format(rule, g, copy_text(message));
        fixes.push(d);
        proof {
            assert(out@ =~= prev + gv);
            assert(out@ + concat_groups(gs@) =~= prev + (gv + concat_groups(gs@)));
            assert forall|j: int| 0 <= j < fixes@.len() implies is_group_diagnostic(
                #[trigger] fixes@[j],
                rule,
                whole[j]@,
                message@,
            ) by {
                if j < k {
                } else {
                    assert(fixes@[j] == d);
                }
            }
        }
    }
    proof {
        assert(concat_groups(gs@) =~= Seq::<Edit>::empty());
        assert(out@ + Seq::<Edit>::empty() =~= out@);
    }
    (out, fixes)
}

fn copy_text(s: &String) -> (r: String)
    ensures
        r@ == s@,
{
    s.clone()
}

/// Takes one event into the run. After a rule's report the lints join
/// the diagnostics; a rule with no surviving group leaves the text and
/// moves on, one with groups adds their format diagnostics and asks for
/// the spliced rewrite to be reparsed. A rewrite that parses becomes
/// the text and the next rule runs; one that does not fails the run
/// with that rule.
pub fn pipeline_step(run: PipelineRun, event: PipelineEvent) -> (r: (PipelineRun, PipelineAction))
    requires
        event is Applied ==> awaits_rule(run),
        event is Reparsed ==> awaits_reparse(run),
        event matches PipelineEvent::Applied { groups, .. } ==> {
            &&& encode_utf8(run.text@).len() <= u32::MAX
            &&& edits_fit(encode_utf8(run.text@), concat_groups(groups@))
        },
    ensures
        r.0.rule_count == run.rule_count,
        match event {
            PipelineEvent::Applied { groups, lints, rule, message } => if groups.len() == 0 {
                &&& r.0.text@ == run.text@
                &&& r.0.diagnostics@ == run.diagnostics@ + lints@
                &&& r.0.pending is None
                &&& r.0.next_rule == run.next_rule + 1
                &&& r.1 == next_action_spec(run.next_rule + 1, run.rule_count as int)
            } else {
                &&& r.0.text@ == run.text@
                &&& r.0.diagnostics@.len() == run.diagnostics@.len() + lints@.len() + groups@.len()
                &&& r.0.diagnostics@.take((run.diagnostics@.len() + lints@.len()) as int) == run.diagnostics@ + lints@
                &&& forall|j: int|
                    0 <= j < groups@.len() ==> is_group_diagnostic(
                        #[trigger] r.0.diagnostics@[run.diagnostics@.len() + lints@.len() + j],
                        rule,
                        groups@[j]@,
                        message@,
                    )
                &&& r.0.next_rule == run.next_rule
                &&& r.0.pending matches Some(t) && spliced_text(run.text@, concat_groups(groups@), t@)
                &&& r.1 matches PipelineAction::Reparse(t) && r.0.pending.unwrap()@ == t@
            },
            PipelineEvent::Reparsed(parses) => if parses {
                &&& r.0.text@ == run.pending.unwrap()@
                &&& r.0.diagnostics@ == run.diagnostics@
                &&& r.0.pending is None
                &&& r.0.next_rule == run.next_rule + 1
                &&& r.1 == next_action_spec(run.next_rule + 1, run.rule_count as int)
            } else {
                &&& r.0.text@ == run.text@
                &&& r.0.diagnostics@ == run.diagnostics@
                &&& r.0.next_rule == run.next_rule
                &&& r.1 == PipelineAction::Failed(run.next_rule)
            },
        },
{
    let PipelineRun { text, mut diagnostics, next_rule, rule_count, pending } = run;
    match event {
        PipelineEvent::Applied { groups, mut lints, rule, message } => {
            diagnostics.append(&mut lints);
            if groups.len() == 0 {
                let next = next_rule + 1;
                let action = if next < rule_count {
                    PipelineAction::Apply(next)
                } else {
                    PipelineAction::Done
                };
                (PipelineRun { text, diagnostics, next_rule: next, rule_count, pending: None }, action)
            } else {
                let ghost before = diagnostics@;
                let ghost gv = groups@;
                let (edits, mut fixes) = group_fixes(groups, rule, &message);
                let ghost fv = fixes@;
                diagnostics.append(&mut fixes);
                proof {
                    assert(diagnostics@ =~= before + fv);
                    assert(diagnostics@.take(before.len() as int) =~= before);
                    assert forall|j: int| 0 <= j < gv.len() implies is_group_diagnostic(
                        #[trigger] diagnostics@[before.len() + j],
                        rule,
                        gv[j]@,
                        message@,
                    ) by {
                        assert(diagnostics@[before.len() + j] == fv[j]);
                    }
                }
                let rewritten = apply_edits(text.as_str(), edits);
                let asked = copy_text(&rewritten);
                (
                    PipelineRun { text, diagnostics, next_rule, rule_count, pending: Some(rewritten) },
                    PipelineAction::Reparse(asked),
                )
            }
        },
        PipelineEvent::Reparsed(parses) => {
            if parses {
                let new_text = match pending {
                    Some(t) => t,
                    None => text,
                };
                let next = next_rule + 1;
                let action = if next < rule_count {
                    PipelineAction::Apply(next)
                } else {
                    PipelineAction::Done
                };
                (PipelineRun { text: new_text, diagnostics, next_rule: next, rule_count, pending: None }, action)
            } else {
                (PipelineRun { text, diagnostics, next_rule, rule_count, pending }, PipelineAction::Failed(next_rule))
            }
        },
    }
}

/// True when `edits` can be spliced into `text`: every range lies in
/// the text on character boundaries and no two overlap.
pub fn edits_fit_text(text: &str, edits: &[Edit]) -> (r: bool)
    ensures
        r == edits_fit(encode_utf8(text@), edits@),
{
    let n = text.as_bytes().len();
    let ghost bytes = encode_utf8(text@);
    let mut i: usize = 0;
    while i < edits.len()
        invariant
            i <= edits.len(),
            n == bytes.len(),
            bytes == encode_utf8(text@),
            forall|k: int|
                0 <= k < i ==> {
                    &&& #[trigger] edits@[k].start <= edits@[k].end <= bytes.len()
                    &&& is_char_boundary(bytes, edits@[k].start as int)
                    &&& is_char_boundary(bytes, edits@[k].end as int)
                },
            forall|k: int, l: int| 0 <= k < i && 0 <= l < i && k != l ==> crate::edit::disjoint(
                #[trigger] edits@[k],
                #[trigger] edits@[l],
            ),
        decreases edits.len() - i,
    {
        let e = &edits[i];
        if !(e.start <= e.end && (e.end as usize) <= n) {
            assert(!(edits@[i as int].start <= edits@[i as int].end <= bytes.len()));
            return false;
        }
        if !text.is_char_boundary(e.start as usize) || !text.is_char_boundary(e.end as usize) {
            assert(!(is_char_boundary(bytes, edits@[i as int].start as int) && is_char_boundary(
                bytes,
                edits@[i as int].end as int,
            )));
            return false;
        }
        let mut j: usize = 0;
        while j < i
            invariant
                j <= i < edits.len(),
                *e == edits@[i as int],
                forall|l: int| 0 <= l < j ==> crate::edit::disjoint(edits@[i as int], #[trigger] edits@[l]),
            decreases i - j,
        {
            let f = &edits[j];
            if !(e.end <= f.start || f.end <= e.start) {
                assert(!crate::edit::disjoint(edits@[i as int], edits@[j as int]));
                return false;
            }
            j += 1;
        }
        i += 1;
    }
    true
}

} // verus!
