//! The diagnostic model: a rule's finding, its severity, its byte range
//! and the fix it proposes.

use vstd::prelude::*;

use crate::edit::Edit;
use crate::rule::RuleId;

verus! {

/// A format diagnostic carries a fix; a lint diagnostic only reports.
#[derive(Clone, Copy, Debug, PartialEq, Eq, Structural)]
pub enum Severity {
    Format,
    Lint,
}

/// One finding of one rule over the byte range `start..end`. A format
/// diagnostic's fix is the whole group of edits that belong together.
pub struct Diagnostic {
    pub fix: Option<Vec<Edit>>,
    pub message: String,
    pub start: u32,
    pub end: u32,
    pub rule: RuleId,
    pub severity: Severity,
}

/// The least start among the edits.
pub open spec fn group_start(edits: Seq<Edit>) -> u32
    decreases edits.len(),
{
    if edits.len() <= 1 {
        if edits.len() == 0 { 0 } else { edits[0].start }
    } else {
        let rest = group_start(edits.drop_last());
        if edits.last().start < rest { edits.last().start } else { rest }
    }
}

/// The greatest end among the edits.
pub open spec fn group_end(edits: Seq<Edit>) -> u32
    decreases edits.len(),
{
    if edits.len() <= 1 {
        if edits.len() == 0 { 0 } else { edits[0].end }
    } else {
        let rest = group_end(edits.drop_last());
        if edits.last().end > rest { edits.last().end } else { rest }
    }
}

/// `d` is the format diagnostic of `rule` for the fix group `edits`:
/// it carries every edit of the group and spans from the first start to
/// the last end.
pub open spec fn is_group_diagnostic(d: Diagnostic, rule: RuleId, edits: Seq<Edit>, message: Seq<char>) -> bool {
    &&& d.fix matches Some(f) && f@ == edits
    &&& d.start == group_start(edits)
    &&& d.end == group_end(edits)
    &&& d.rule == rule
    &&& d.message@ == message
    &&& d.severity == Severity::Format
}

fn covering_range(edits: &Vec<Edit>) -> (r: (u32, u32))
    ensures
        r.0 == group_start(edits@),
        r.1 == group_end(edits@),
{
    if edits.len() == 0 {
        return (0, 0);
    }
    let mut lo = edits[0].start;
    let mut hi = edits[0].end;
    let mut i: usize = 1;
    while i < edits.len()
        invariant
            1 <= i <= edits.len(),
            lo == group_start(edits@.take(i as int)),
            hi == group_end(edits@.take(i as int)),
        decreases edits.len() - i,
    {
        proof {
            assert(edits@.take(i + 1).drop_last() =~= edits@.take(i as int));
        }
        if edits[i].start < lo {
            lo = edits[i].start;
        }
        if edits[i].end > hi {
            hi = edits[i].end;
        }
        i += 1;
    }
    proof {
        assert(edits@.take(edits.len() as int) =~= edits@);
    }
    (lo, hi)
}

impl Diagnostic {
    /// A format diagnostic that carries the fix group `edits` and spans
    /// the range that covers them all.
    pub fn format(rule: RuleId, edits: Vec<Edit>, message: String) -> (d: Diagnostic)
        ensures
            is_group_diagnostic(d, rule, edits@, message@),
    {
        let (start, end) = covering_range(&edits);
        Diagnostic { fix: Some(edits), message, start, end, rule, severity: Severity::Format }
    }

    /// A lint diagnostic over `start..end`, with no fix.
    pub fn lint(rule: RuleId, start: u32, end: u32, message: String) -> (d: Diagnostic)
        ensures
            d.fix is None,
            d.start == start,
            d.end == end,
            d.rule == rule,
            d.message@ == message@,
            d.severity == Severity::Lint,
    {
        Diagnostic { fix: None, message, start, end, rule, severity: Severity::Lint }
    }
}

} // verus!
