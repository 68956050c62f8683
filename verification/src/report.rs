//! Outcome aggregation for a run: the closing exit status, the run-wide
//! counts, the closing summary, and the passes each mode reads.

use vstd::prelude::*;

use crate::cache::{CleanReport, Rewrite};
use crate::diagnostics::{Diagnostic, Severity};
use crate::exit_status::{code_of, from_severity, lemma_max_laws, max_spec, ExitStatus};
use crate::output::{decimal, push_decimal, Summary};
use crate::rule::RuleId;
use crate::text::push_str;

verus! {

/// One file's contribution to the run: its diagnostics and what became
/// of its text, or the status it failed with.
pub enum FileOutcome {
    Done { cached: bool, diagnostics: Vec<Diagnostic>, name: String, rewrite: Rewrite },
    Failed(ExitStatus),
}

/// Which closing summary an outcome set resolves into.
#[derive(Clone, Copy, Debug, PartialEq, Eq, Structural)]
pub enum Mode {
    Check,
    Preview,
    Reformat,
}

/// Which pipeline passes a mode reads from a file: both the as-written
/// diagnostics and the rewrite, the diagnostics alone (with the opt-in
/// reparse guard), or the rewrite alone.
#[derive(Clone, Copy, Debug, PartialEq, Eq, Structural)]
pub enum Pass {
    Both,
    Diagnose { validate: bool },
    Rewrite,
}

/// The report formats a run can emit.
#[derive(Clone, Copy, Debug, PartialEq, Eq, Structural)]
pub enum OutputFormat {
    Github,
    Json,
    Sarif,
    Text,
}

impl OutputFormat {
    /// True for the human text format.
    pub fn is_text(self) -> (r: bool)
        ensures
            r == (self == OutputFormat::Text),
    {
        match self {
            OutputFormat::Text => true,
            _ => false,
        }
    }
}

impl Default for OutputFormat {
    fn default() -> (f: OutputFormat)
        ensures
            f == OutputFormat::Text,
    {
        OutputFormat::Text
    }
}

impl Pass {
    /// Whether the pass computes the rewrite, which the cache then
    /// records.
    pub fn needs_rewrite(self) -> (r: bool)
        ensures
            r == (self == Pass::Both),
    {
        match self {
            Pass::Both => true,
            _ => false,
        }
    }

    /// Whether the pass may read and write the cache: a rewrite-only
    /// pass would record post-edit diagnostics, and a validating check
    /// must re-confirm the rewrite parses, so both bypass it.
    pub fn uses_cache(self) -> (r: bool)
        ensures
            r == !(self == Pass::Rewrite || self == Pass::Diagnose { validate: true }),
    {
        match self {
            Pass::Rewrite => false,
            Pass::Diagnose { validate } => !validate,
            Pass::Both => true,
        }
    }
}

/// The passes a `format` invocation reads: the rewrite alone for text
/// output or a diff, both for a machine-readable format.
pub fn format_pass(diff: bool, format: OutputFormat) -> (p: Pass)
    ensures
        (diff || format == OutputFormat::Text) ==> p == Pass::Rewrite,
        !(diff || format == OutputFormat::Text) ==> p == Pass::Both,
{
    if diff || format.is_text() {
        Pass::Rewrite
    } else {
        Pass::Both
    }
}

/// What the cache records of a file's text: `Skipped` when the pass
/// computed no rewrite, else the new text, or `Unchanged` when the
/// rewrite settled back to the input.
pub fn cache_rewrite(needs_rewrite: bool, formatted_text: Option<&str>) -> (r: Rewrite)
    ensures
        !needs_rewrite ==> r is Skipped,
        needs_rewrite && formatted_text is None ==> r is Unchanged,
        needs_rewrite && formatted_text is Some ==> (r matches Rewrite::Changed(t) && t@
            == formatted_text->0@),
{
    if !needs_rewrite {
        return Rewrite::Skipped;
    }
    match formatted_text {
        Some(text) => {
            let mut t = String::new();
            push_str(&mut t, text);
            Rewrite::Changed(t)
        },
        None => Rewrite::Unchanged,
    }
}

/// True when some diagnostic is a format diagnostic.
pub open spec fn has_format_spec(ds: Seq<Diagnostic>) -> bool {
    exists|k: int| 0 <= k < ds.len() && #[trigger] ds[k].severity == Severity::Format
}

/// True when some diagnostic is a format diagnostic.
pub fn has_format_change(diagnostics: &[Diagnostic]) -> (r: bool)
    ensures
        r == has_format_spec(diagnostics@),
{
    let mut i: usize = 0;
    while i < diagnostics.len()
        invariant
            i <= diagnostics.len(),
            forall|k: int| 0 <= k < i ==> diagnostics@[k].severity != Severity::Format,
        decreases diagnostics.len() - i,
    {
        if diagnostics[i].severity == Severity::Format {
            return true;
        }
        i += 1;
    }
    false
}

/// Whether a file counts as changed: a rewrite that produced new text
/// did change it; a mode that skipped the rewrite falls back to whether
/// a format diagnostic was found.
pub open spec fn file_changed_spec(ds: Seq<Diagnostic>, rw: Rewrite) -> bool {
    match rw {
        Rewrite::Changed(_) => true,
        Rewrite::Skipped => has_format_spec(ds),
        Rewrite::Unchanged => false,
    }
}

/// Whether a file counts as changed; see [`file_changed_spec`].
pub fn file_changed(diagnostics: &[Diagnostic], rewrite: &Rewrite) -> (r: bool)
    ensures
        r == file_changed_spec(diagnostics@, *rewrite),
{
    match rewrite {
        Rewrite::Changed(_) => true,
        Rewrite::Skipped => has_format_change(diagnostics),
        Rewrite::Unchanged => false,
    }
}

/// The highest status among the first `n` diagnostics, leaving out
/// format changes when `demote`; clean when none counts.
pub open spec fn diagnostics_status(ds: Seq<Diagnostic>, demote: bool, n: int) -> ExitStatus
    decreases n,
{
    if n <= 0 {
        ExitStatus::Clean
    } else {
        let prev = diagnostics_status(ds, demote, n - 1);
        let s = from_severity(ds[n - 1].severity);
        if demote && s == ExitStatus::FormatChange {
            prev
        } else {
            max_spec(prev, s)
        }
    }
}

/// A file's status: a failure's own status; otherwise the highest status
/// its diagnostics raise, format changes left out when the run demotes
/// them or the rewrite settled back to the input.
pub open spec fn outcome_status(o: FileOutcome, demote_format_change: bool) -> ExitStatus {
    match o {
        FileOutcome::Done { diagnostics, rewrite, .. } => diagnostics_status(
            diagnostics@,
            demote_format_change || rewrite is Unchanged,
            diagnostics@.len() as int,
        ),
        FileOutcome::Failed(s) => s,
    }
}

/// The highest status among the first `n` outcomes; clean when there
/// are none.
pub open spec fn outcomes_status(os: Seq<FileOutcome>, demote_format_change: bool, n: int) -> ExitStatus
    decreases n,
{
    if n <= 0 {
        ExitStatus::Clean
    } else {
        max_spec(outcomes_status(os, demote_format_change, n - 1), outcome_status(os[n - 1], demote_format_change))
    }
}

fn diagnostics_status_exec(ds: &[Diagnostic], demote: bool) -> (s: ExitStatus)
    ensures
        s == diagnostics_status(ds@, demote, ds@.len() as int),
{
    let mut acc = ExitStatus::Clean;
    let mut i: usize = 0;
    while i < ds.len()
        invariant
            i <= ds.len(),
            acc == diagnostics_status(ds@, demote, i as int),
        decreases ds.len() - i,
    {
        let s = ExitStatus::from(ds[i].severity);
        if !(demote && s == ExitStatus::FormatChange) {
            acc = acc.max(s);
        }
        i += 1;
    }
    acc
}

/// The run's closing status: the highest status any file raises.
pub fn status_from_outcomes(outcomes: &[FileOutcome], demote_format_change: bool) -> (s: ExitStatus)
    ensures
        s == outcomes_status(outcomes@, demote_format_change, outcomes@.len() as int),
{
    let mut acc = ExitStatus::Clean;
    let mut i: usize = 0;
    while i < outcomes.len()
        invariant
            i <= outcomes.len(),
            acc == outcomes_status(outcomes@, demote_format_change, i as int),
        decreases outcomes.len() - i,
    {
        let s = match &outcomes[i] {
            FileOutcome::Done { diagnostics, rewrite, .. } => {
                let unchanged = match rewrite {
                    Rewrite::Unchanged => true,
                    _ => false,
                };
                diagnostics_status_exec(diagnostics.as_slice(), demote_format_change || unchanged)
            },
            FileOutcome::Failed(s) => *s,
        };
        acc = acc.max(s);
        i += 1;
    }
    acc
}

/// Run-wide rollup across every processed file: diagnostics in all,
/// files changed, files visited, files with a diagnostic, and how often
/// each rule fired (each rule listed once).
pub struct EmitterSummary {
    pub diagnostics_total: usize,
    pub files_changed: usize,
    pub files_visited: usize,
    pub files_with_diagnostics: usize,
    pub rules_fired: Vec<(RuleId, usize)>,
}

/// The number of finished files among the first `n` outcomes.
pub open spec fn visited_upto(os: Seq<FileOutcome>, n: int) -> int
    decreases n,
{
    if n <= 0 {
        0
    } else {
        visited_upto(os, n - 1) + if os[n - 1] is Done { 1int } else { 0int }
    }
}

/// The number of changed files among the first `n` outcomes.
pub open spec fn changed_upto(os: Seq<FileOutcome>, n: int) -> int
    decreases n,
{
    if n <= 0 {
        0
    } else {
        changed_upto(os, n - 1) + match os[n - 1] {
            FileOutcome::Done { diagnostics, rewrite, .. } => if file_changed_spec(diagnostics@, rewrite) {
                1int
            } else {
                0int
            },
            FileOutcome::Failed(_) => 0int,
        }
    }
}

/// The number of files with a diagnostic among the first `n` outcomes.
pub open spec fn with_diagnostics_upto(os: Seq<FileOutcome>, n: int) -> int
    decreases n,
{
    if n <= 0 {
        0
    } else {
        with_diagnostics_upto(os, n - 1) + match os[n - 1] {
            FileOutcome::Done { diagnostics, .. } => if diagnostics@.len() > 0 { 1int } else { 0int },
            FileOutcome::Failed(_) => 0int,
        }
    }
}

/// The rule slugs of a file's diagnostics, in order.
pub open spec fn diagnostic_slugs(o: FileOutcome) -> Seq<Seq<char>> {
    match o {
        FileOutcome::Done { diagnostics, .. } => diagnostics@.map_values(|d: Diagnostic| d.rule.0@),
        FileOutcome::Failed(_) => Seq::empty(),
    }
}

/// The rule slugs of every diagnostic of the first `n` outcomes, in
/// order.
pub open spec fn slugs_upto(os: Seq<FileOutcome>, n: int) -> Seq<Seq<char>>
    decreases n,
{
    if n <= 0 {
        Seq::empty()
    } else {
        slugs_upto(os, n - 1) + diagnostic_slugs(os[n - 1])
    }
}

/// How many times `s` occurs in `xs`.
pub open spec fn occurrences(xs: Seq<Seq<char>>, s: Seq<char>) -> int
    decreases xs.len(),
{
    if xs.len() == 0 {
        0
    } else {
        occurrences(xs.drop_last(), s) + if xs.last() == s { 1int } else { 0int }
    }
}

/// `fired` counts exactly the rules of `xs`: each rule once, with its
/// number of occurrences, and every occurring rule present.
pub open spec fn counts_rules(fired: Seq<(RuleId, usize)>, xs: Seq<Seq<char>>) -> bool {
    &&& forall|i: int, j: int| 0 <= i < j < fired.len() ==> fired[i].0.0@ != fired[j].0.0@
    &&& forall|i: int| 0 <= i < fired.len() ==> fired[i].1 == occurrences(xs, #[trigger] fired[i].0.0@)
    &&& forall|k: int| 0 <= k < xs.len() ==> exists|i: int| 0 <= i < fired.len() && fired[i].0.0@ == #[trigger] xs[k]
}

proof fn lemma_occurrences_le(xs: Seq<Seq<char>>, s: Seq<char>)
    ensures
        0 <= occurrences(xs, s) <= xs.len(),
    decreases xs.len(),
{
    if xs.len() > 0 {
        lemma_occurrences_le(xs.drop_last(), s);
    }
}

/// The total number of diagnostics of the first `n` outcomes.
pub open spec fn total_upto(os: Seq<FileOutcome>, n: int) -> int {
    slugs_upto(os, n).len() as int
}

proof fn lemma_slugs_grow(os: Seq<FileOutcome>, n: int, m: int)
    requires
        0 <= n <= m,
    ensures
        slugs_upto(os, n).len() <= slugs_upto(os, m).len(),
    decreases m,
{
    if n < m {
        lemma_slugs_grow(os, n, m - 1);
    }
}

proof fn lemma_counts_bounded(os: Seq<FileOutcome>, n: int)
    requires
        0 <= n,
    ensures
        0 <= visited_upto(os, n) <= n,
        0 <= changed_upto(os, n) <= n,
        0 <= with_diagnostics_upto(os, n) <= n,
    decreases n,
{
    if n > 0 {
        lemma_counts_bounded(os, n - 1);
    }
}

/// Folds the outcomes into the run-wide rollup. Failed files count in
/// none of the totals.
pub fn emitter_summary(outcomes: &[FileOutcome]) -> (r: EmitterSummary)
    requires
        total_upto(outcomes@, outcomes@.len() as int) <= usize::MAX,
    ensures
        r.files_visited == visited_upto(outcomes@, outcomes@.len() as int),
        r.files_changed == changed_upto(outcomes@, outcomes@.len() as int),
        r.files_with_diagnostics == with_diagnostics_upto(outcomes@, outcomes@.len() as int),
        r.diagnostics_total == total_upto(outcomes@, outcomes@.len() as int),
        counts_rules(r.rules_fired@, slugs_upto(outcomes@, outcomes@.len() as int)),
{
    let mut visited: usize = 0;
    let mut changed: usize = 0;
    let mut with_diags: usize = 0;
    let mut total: usize = 0;
    let mut fired: Vec<(RuleId, usize)> = Vec::new();
    let mut i: usize = 0;
    while i < outcomes.len()
        invariant
            i <= outcomes.len(),
            total_upto(outcomes@, outcomes@.len() as int) <= usize::MAX,
            visited == visited_upto(outcomes@, i as int),
            changed == changed_upto(outcomes@, i as int),
            with_diags == with_diagnostics_upto(outcomes@, i as int),
            total == total_upto(outcomes@, i as int),
            counts_rules(fired@, slugs_upto(outcomes@, i as int)),
        decreases outcomes.len() - i,
    {
        proof {
            lemma_counts_bounded(outcomes@, i + 1);
            lemma_slugs_grow(outcomes@, i + 1, outcomes@.len() as int);
        }
        match &outcomes[i] {
            FileOutcome::Done { diagnostics, rewrite, .. } => {
                visited = visited + 1;
                if file_changed(diagnostics.as_slice(), rewrite) {
                    changed = changed + 1;
                }
                if diagnostics.len() > 0 {
                    with_diags = with_diags + 1;
                }
                total = total + diagnostics.len();
                let ghost base = slugs_upto(outcomes@, i as int);
                let ghost ds = diagnostic_slugs(outcomes@[i as int]);
                let mut k: usize = 0;
                assert(ds.take(0) =~= Seq::<Seq<char>>::empty());
                assert(base + ds.take(0) =~= base);
                while k < diagnostics.len()
                    invariant
                        k <= diagnostics.len(),
                        ds == diagnostics@.map_values(|d: Diagnostic| d.rule.0@),
                        base.len() + ds.len() <= usize::MAX,
                        counts_rules(fired@, base + ds.take(k as int)),
                    decreases diagnostics.len() - k,
                {
                    let id = diagnostics[k].rule;
                    let ghost prev = base + ds.take(k as int);
                    let ghost next = base + ds.take(k + 1);
                    assert(next =~= prev.push(id.0@));
                    assert(ds[k as int] == id.0@);
                    proof {
                        lemma_occurrences_le(next, id.0@);
                    }
                    let mut j: usize = 0;
                    let mut found = false;
                    while j < fired.len()
                        invariant_except_break
                            !found,
                        invariant
                            j <= fired.len(),
                            forall|q: int| 0 <= q < j ==> fired@[q].0.0@ != id.0@,
                        ensures
                            found ==> j < fired.len() && fired@[j as int].0.0@ == id.0@,
                            !found ==> forall|q: int| 0 <= q < fired.len() ==> fired@[q].0.0@ != id.0@,
                        decreases fired.len() - j,
                    {
                        if fired[j].0 == id {
                            found = true;
                            break;
                        }
                        j += 1;
                    }
                    let ghost old_fired = fired@;
                    if found {
                        let c = fired[j].1;
                        assert(c == occurrences(prev, id.0@));
                        proof {
                            lemma_occurrences_le(prev, id.0@);
                        }
                        fired.set(j, (id, c + 1));
                        proof {
                            assert forall|q: int| 0 <= q < fired.len() implies fired@[q].1 == occurrences(
                                next,
                                #[trigger] fired@[q].0.0@,
                            ) by {
                                assert(next.drop_last() =~= prev);
                                if q != j {
                                    assert(fired@[q] == old_fired[q]);
                                }
                            }
                            assert forall|p: int| 0 <= p < next.len() implies exists|q: int|
                                0 <= q < fired.len() && fired@[q].0.0@ == #[trigger] next[p] by {
                                if p < prev.len() {
                                    assert(next[p] == prev[p]);
                                    let q = choose|q: int| 0 <= q < old_fired.len() && old_fired[q].0.0@ == prev[p];
                                    assert(fired@[q].0.0@ == old_fired[q].0.0@);
                                } else {
                                    assert(fired@[j as int].0.0@ == next[p]);
                                }
                            }
                            assert forall|a: int, b: int| 0 <= a < b < fired.len() implies fired@[a].0.0@
                                != fired@[b].0.0@ by {
                                assert(fired@[a].0.0@ == old_fired[a].0.0@);
                                assert(fired@[b].0.0@ == old_fired[b].0.0@);
                            }
                        }
                    } else {
                        proof {
                            lemma_occurrences_absent(prev, id.0@);
                        }
                        fired.push((id, 1));
                        proof {
                            assert forall|q: int| 0 <= q < fired.len() implies fired@[q].1 == occurrences(
                                next,
                                #[trigger] fired@[q].0.0@,
                            ) by {
                                assert(next.drop_last() =~= prev);
                                if q < old_fired.len() {
                                    assert(fired@[q] == old_fired[q]);
                                }
                            }
                            assert forall|p: int| 0 <= p < next.len() implies exists|q: int|
                                0 <= q < fired.len() && fired@[q].0.0@ == #[trigger] next[p] by {
                                if p < prev.len() {
                                    assert(next[p] == prev[p]);
                                    let q = choose|q: int| 0 <= q < old_fired.len() && old_fired[q].0.0@ == prev[p];
                                    assert(fired@[q] == old_fired[q]);
                                } else {
                                    assert(fired@[old_fired.len() as int].0.0@ == next[p]);
                                }
                            }
                            assert forall|a: int, b: int| 0 <= a < b < fired.len() implies fired@[a].0.0@
                                != fired@[b].0.0@ by {
                                if b < old_fired.len() {
                                    assert(fired@[a] == old_fired[a]);
                                    assert(fired@[b] == old_fired[b]);
                                } else {
                                    assert(fired@[a] == old_fired[a]);
                                }
                            }
                        }
                    }
                    k += 1;
                }
                assert(ds.take(diagnostics.len() as int) =~= ds);
            },
            FileOutcome::Failed(_) => {
                assert(slugs_upto(outcomes@, i + 1) =~= slugs_upto(outcomes@, i as int));
            },
        }
        i += 1;
    }
    EmitterSummary {
        diagnostics_total: total,
        files_changed: changed,
        files_visited: visited,
        files_with_diagnostics: with_diags,
        rules_fired: fired,
    }
}

/// A slug that occurs nowhere in `xs` has no occurrences.
proof fn lemma_occurrences_absent(xs: Seq<Seq<char>>, s: Seq<char>)
    requires
        forall|k: int| 0 <= k < xs.len() ==> xs[k] != s,
    ensures
        occurrences(xs, s) == 0,
    decreases xs.len(),
{
    if xs.len() > 0 {
        lemma_occurrences_absent(xs.drop_last(), s);
    }
}

/// Resolves an outcome set into its closing summary, or `None` when a
/// clean result is shadowed by a per-file failure already logged.
pub fn summarize(outcomes: &[FileOutcome], summary: &EmitterSummary, mode: Mode) -> (r: Option<Summary>)
    ensures
        ({
            let failed = exists|k: int| 0 <= k < outcomes@.len() && #[trigger] outcomes@[k] is Failed;
            let resolved = match mode {
                Mode::Check => if summary.diagnostics_total == 0 {
                    Summary::Clean
                } else {
                    Summary::Diagnostics { files: summary.files_with_diagnostics, total: summary.diagnostics_total }
                },
                Mode::Preview => if summary.files_changed == 0 {
                    Summary::Clean
                } else {
                    Summary::WouldReformat { files: summary.files_changed }
                },
                Mode::Reformat => if summary.files_changed == 0 {
                    Summary::Clean
                } else {
                    Summary::Reformatted { files: summary.files_changed }
                },
            };
            r == if resolved == Summary::Clean && failed { None } else { Some(resolved) }
        }),
{
    let mut failed = false;
    let mut i: usize = 0;
    while i < outcomes.len()
        invariant
            i <= outcomes.len(),
            failed == exists|k: int| 0 <= k < i && #[trigger] outcomes@[k] is Failed,
        decreases outcomes.len() - i,
    {
        match &outcomes[i] {
            FileOutcome::Failed(_) => {
                failed = true;
            },
            FileOutcome::Done { .. } => {},
        }
        i += 1;
    }
    let resolved = match mode {
        Mode::Check => if summary.diagnostics_total == 0 {
            Summary::Clean
        } else {
            Summary::Diagnostics { files: summary.files_with_diagnostics, total: summary.diagnostics_total }
        },
        Mode::Preview => if summary.files_changed == 0 {
            Summary::Clean
        } else {
            Summary::WouldReformat { files: summary.files_changed }
        },
        Mode::Reformat => if summary.files_changed == 0 {
            Summary::Clean
        } else {
            Summary::Reformatted { files: summary.files_changed }
        },
    };
    match resolved {
        Summary::Clean => if failed {
            None
        } else {
            Some(resolved)
        },
        _ => Some(resolved),
    }
}

/// The number of cache hits among the first `n` outcomes.
pub open spec fn hits_upto(os: Seq<FileOutcome>, n: int) -> int
    decreases n,
{
    if n <= 0 {
        0
    } else {
        hits_upto(os, n - 1) + match os[n - 1] {
            FileOutcome::Done { cached, .. } => if cached { 1int } else { 0int },
            FileOutcome::Failed(_) => 0int,
        }
    }
}

proof fn lemma_hits_bounded(os: Seq<FileOutcome>, n: int)
    requires
        0 <= n,
    ensures
        0 <= hits_upto(os, n) <= visited_upto(os, n) <= n,
    decreases n,
{
    if n > 0 {
        lemma_hits_bounded(os, n - 1);
    }
}

/// Appends the verbose cache line to `out`: that the cache was
/// bypassed, or its hits, misses and files among the finished files.
pub fn report_verbose(outcomes: &[FileOutcome], cache_enabled: bool, out: &mut String)
    ensures
        !cache_enabled ==> final(out)@ == old(out)@ + "cache: bypassed\n"@,
        cache_enabled ==> ({
            let n = outcomes@.len() as int;
            let hits = hits_upto(outcomes@, n);
            let misses = visited_upto(outcomes@, n) - hits;
            final(out)@ == old(out)@ + "cache: "@ + decimal(hits as nat) + " hits, "@ + decimal(misses as nat)
                + " misses, "@ + decimal((hits + misses) as nat) + " files\n"@
        }),
{
    if !cache_enabled {
        push_str(out, "cache: bypassed\n");
        return;
    }
    let mut hits: usize = 0;
    let mut misses: usize = 0;
    let mut i: usize = 0;
    while i < outcomes.len()
        invariant
            i <= outcomes.len(),
            hits == hits_upto(outcomes@, i as int),
            misses == visited_upto(outcomes@, i as int) - hits_upto(outcomes@, i as int),
        decreases outcomes.len() - i,
    {
        proof {
            lemma_hits_bounded(outcomes@, i + 1);
        }
        match &outcomes[i] {
            FileOutcome::Done { cached, .. } => {
                if *cached {
                    hits = hits + 1;
                } else {
                    misses = misses + 1;
                }
            },
            FileOutcome::Failed(_) => {},
        }
        i += 1;
    }
    proof {
        lemma_hits_bounded(outcomes@, outcomes@.len() as int);
    }
    push_str(out, "cache: ");
    push_decimal(out, hits as u128);
    push_str(out, " hits, ");
    push_decimal(out, misses as u128);
    push_str(out, " misses, ");
    push_decimal(out, (hits + misses) as u128);
    push_str(out, " files\n");
}

/// Appends the clean / compact report line to `out`.
pub fn write_report(out: &mut String, report: CleanReport)
    ensures
        final(out)@ == old(out)@ + "removed "@ + decimal(report.entries as nat) + " entries ("@ + decimal(
            report.bytes as nat,
        ) + " bytes)\n"@,
{
    push_str(out, "removed ");
    push_decimal(out, report.entries as u128);
    push_str(out, " entries (");
    push_decimal(out, report.bytes as u128);
    push_str(out, " bytes)\n");
}

/// How long ago an entry was modified, in the largest whole unit that
/// fits: seconds under a minute, minutes under an hour, hours under a
/// day, days beyond; "in the future" when the time is past `now`. Both
/// times are nanoseconds since the Unix epoch.
pub open spec fn relative_age_spec(now: u128, t: u128) -> Seq<char> {
    if now < t {
        "in the future"@
    } else {
        let s = ((now - t) / 1_000_000_000) as nat;
        if s < 60 {
            decimal(s) + "s ago"@
        } else if s < 3600 {
            decimal(s / 60) + "m ago"@
        } else if s < 86400 {
            decimal(s / 3600) + "h ago"@
        } else {
            decimal(s / 86400) + "d ago"@
        }
    }
}

/// Renders how long before `now` the time `t` lies; see
/// [`relative_age_spec`].
pub fn relative_age(now: u128, t: u128) -> (s: String)
    ensures
        s@ == relative_age_spec(now, t),
{
    let mut out = String::new();
    if now < t {
        push_str(&mut out, "in the future");
        return out;
    }
    let secs = (now - t) / 1_000_000_000;
    if secs < 60 {
        push_decimal(&mut out, secs);
        push_str(&mut out, "s ago");
    } else if secs < 3600 {
        push_decimal(&mut out, secs / 60);
        push_str(&mut out, "m ago");
    } else if secs < 86400 {
        push_decimal(&mut out, secs / 3600);
        push_str(&mut out, "h ago");
    } else {
        push_decimal(&mut out, secs / 86400);
        push_str(&mut out, "d ago");
    }
    out
}

proof fn lemma_outcomes_status_prefix(os: Seq<FileOutcome>, demote: bool, n: int)
    requires
        0 <= n <= os.len(),
    ensures
        forall|i: int|
            0 <= i < n ==> code_of(outcome_status(#[trigger] os[i], demote)) <= code_of(
                outcomes_status(os, demote, n),
            ),
        outcomes_status(os, demote, n) == ExitStatus::Clean || exists|i: int|
            0 <= i < n && outcomes_status(os, demote, n) == outcome_status(#[trigger] os[i], demote),
    decreases n,
{
    if n > 0 {
        lemma_outcomes_status_prefix(os, demote, n - 1);
        let prev = outcomes_status(os, demote, n - 1);
        let last = outcome_status(os[n - 1], demote);
        lemma_max_laws(prev, last, ExitStatus::Clean);
        if outcomes_status(os, demote, n) == last {
            assert(outcomes_status(os, demote, n) == outcome_status(os[n - 1], demote));
        } else if prev != ExitStatus::Clean {
            let i = choose|i: int| 0 <= i < n - 1 && prev == outcome_status(#[trigger] os[i], demote);
            assert(outcomes_status(os, demote, n) == outcome_status(os[i], demote));
        }
    }
}

/// The run's status is the highest among its files' statuses: no file
/// raises a status above it (by exit code), and it is the status of
/// some file, or clean when there is none. So the order in which the
/// files come does not matter.
pub proof fn lemma_run_status_is_highest_file_status(os: Seq<FileOutcome>, demote: bool)
    ensures
        forall|i: int|
            0 <= i < os.len() ==> code_of(outcome_status(#[trigger] os[i], demote)) <= code_of(
                outcomes_status(os, demote, os.len() as int),
            ),
        outcomes_status(os, demote, os.len() as int) == ExitStatus::Clean || exists|i: int|
            0 <= i < os.len() && outcomes_status(os, demote, os.len() as int) == outcome_status(
                #[trigger] os[i],
                demote,
            ),
{
    lemma_outcomes_status_prefix(os, demote, os.len() as int);
}

proof fn lemma_diagnostics_status_prefix(ds: Seq<Diagnostic>, demote: bool, n: int)
    requires
        0 <= n <= ds.len(),
    ensures
        ({
            let r = diagnostics_status(ds, demote, n);
            &&& forall|i: int| 0 <= i < n && (#[trigger] ds[i]).severity == Severity::Lint ==> r == ExitStatus::LintViolation
            &&& forall|i: int|
                0 <= i < n && (#[trigger] ds[i]).severity == Severity::Format && !demote ==> code_of(r) >= 1
            &&& r == ExitStatus::Clean || r == ExitStatus::FormatChange || r == ExitStatus::LintViolation
            &&& r == ExitStatus::LintViolation ==> exists|i: int| 0 <= i < n && (#[trigger] ds[i]).severity == Severity::Lint
            &&& r == ExitStatus::FormatChange ==> !demote && exists|i: int|
                0 <= i < n && (#[trigger] ds[i]).severity == Severity::Format
        }),
    decreases n,
{
    if n > 0 {
        lemma_diagnostics_status_prefix(ds, demote, n - 1);
    }
}

/// A file's status from its diagnostics: a lint makes it a lint
/// violation; otherwise a counted format diagnostic makes it a format
/// change; with neither it is clean. Format diagnostics do not count
/// when `demote` holds.
pub proof fn lemma_file_status_from_diagnostics(ds: Seq<Diagnostic>, demote: bool)
    ensures
        ({
            let r = diagnostics_status(ds, demote, ds.len() as int);
            &&& (exists|i: int| 0 <= i < ds.len() && (#[trigger] ds[i]).severity == Severity::Lint) ==> r
                == ExitStatus::LintViolation
            &&& !(exists|i: int| 0 <= i < ds.len() && (#[trigger] ds[i]).severity == Severity::Lint) ==> (r
                == if !demote && exists|i: int| 0 <= i < ds.len() && (#[trigger] ds[i]).severity == Severity::Format {
                ExitStatus::FormatChange
            } else {
                ExitStatus::Clean
            })
        }),
{
    lemma_diagnostics_status_prefix(ds, demote, ds.len() as int);
    let r = diagnostics_status(ds, demote, ds.len() as int);
    if !demote && exists|i: int| 0 <= i < ds.len() && (#[trigger] ds[i]).severity == Severity::Format {
        let i = choose|i: int| 0 <= i < ds.len() && (#[trigger] ds[i]).severity == Severity::Format;
        assert(code_of(r) >= 1);
    }
}

} // verus!
