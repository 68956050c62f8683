//! Rule identifiers: the registry of kebab-case slugs, parsing a slug
//! back to its identifier, each rule's one-line message, and the
//! selection of the rules a run enables.

use vstd::prelude::*;
use vstd::utf8::*;

use crate::slug::{lemma_slug_chars_bytes, valid_slug};
use crate::text::{chars_of, push_char};

verus! {

/// Stable, parseable rule identifier wrapping a kebab-case slug: the
/// handle used by `--select` / `--ignore`, suppression pragmas and
/// diagnostic output.
#[derive(Clone, Copy, Eq, Hash, PartialOrd, Ord, Debug)]
pub struct RuleId(pub &'static str);

/// Returned when a string fails to match any registered rule slug.
/// Carries the offending input verbatim.
#[derive(Debug)]
pub struct ParseRuleIdError(pub String);

/// True when the two character runs are equal.
pub fn str_eq(a: &str, b: &str) -> (r: bool)
    ensures
        r == (a@ == b@),
{
    let x = chars_of(a);
    let y = chars_of(b);
    if x.len() != y.len() {
        return false;
    }
    let mut i: usize = 0;
    while i < x.len()
        invariant
            i <= x.len() == y.len(),
            x@ == a@,
            y@ == b@,
            forall|k: int| 0 <= k < i ==> x@[k] == y@[k],
        decreases x.len() - i,
    {
        if x[i] != y[i] {
            return false;
        }
        i += 1;
    }
    assert(x@ =~= y@);
    true
}

impl PartialEq for RuleId {
    fn eq(&self, other: &Self) -> (r: bool) {
        str_eq(self.0, other.0)
    }
}

impl vstd::std_specs::cmp::PartialEqSpecImpl for RuleId {
    open spec fn obeys_eq_spec() -> bool {
        true
    }

    open spec fn eq_spec(&self, other: &Self) -> bool {
        self.0@ == other.0@
    }
}

impl From<&'static str> for RuleId {
    fn from(slug: &'static str) -> (id: RuleId) {
        RuleId(slug)
    }
}

impl vstd::std_specs::convert::FromSpecImpl<&'static str> for RuleId {
    open spec fn obeys_from_spec() -> bool {
        true
    }

    open spec fn from_spec(slug: &'static str) -> RuleId {
        RuleId(slug)
    }
}

/// Every registered slug, in registry order.
pub open spec fn known_slugs() -> Seq<Seq<char>> {
    seq![
        "collection-layout"@,
        "alphabetize"@,
        "call-layout"@,
        "strip-trailing-commas"@,
        "docstring-expand"@,
        "docstring-frame"@,
        "unused-future-annotations"@,
        "blank-lines"@,
        "bare-imports"@,
        "align-match-case"@,
        "strip-none-return"@,
        "signature-layout"@,
        "import-layout"@,
        "align-imports"@,
        "align-colons"@,
        "docstring-wrap"@,
        "align-equals"@,
        "align-comparisons"@,
        "strip-align-padding"@,
        "reassigned-constants"@,
        "step-narration"@,
        "legacy-union-syntax"@,
        "single-use-variables"@,
        "signature-annotations"@
    ]
}

/// Each registered rule's one-line imperative, in registry order.
pub open spec fn known_messages() -> Seq<Seq<char>> {
    seq![
        "lay out collection literal against the line budget"@,
        "alphabetize this group"@,
        "explode call arguments to one keyword per line"@,
        "strip trailing comma"@,
        "expand single-line docstring to multi-line form"@,
        "place docstring opener and closer on their own lines"@,
        "remove unused `from __future__ import annotations`"@,
        "normalize blank-line spacing"@,
        "flag a bare import a `from` import could replace"@,
        "align match-case colons"@,
        "drop a redundant `-> None` return annotation"@,
        "normalize function signature to one-line or one-per-line shape"@,
        "split an over-long `from` import into repeated-prefix lines"@,
        "align consecutive `import`s"@,
        "align consecutive `:` separators"@,
        "wrap docstring prose to the configured budget"@,
        "align consecutive `=` operators"@,
        "align consecutive comparison operators"@,
        "drop padding from a group with no column to align to"@,
        "SCREAMING_CASE name is reassigned despite its constant casing. Rename it lowercase or keep it write-once"@,
        "numbered-step comment found. Consider extracting each step as a named function"@,
        "rewrite legacy `Optional`/`Union` to PEP 604 union syntax"@,
        "binding is assigned and used once. Consider inlining"@,
        "flag a missing parameter or return type annotation"@
    ]
}

/// The index of the first registered slug equal to `s`, from `i` on;
/// the registry's length when there is none.
pub open spec fn slug_index_from(s: Seq<char>, i: int) -> int
    decreases known_slugs().len() - i,
{
    if 0 <= i < known_slugs().len() && known_slugs()[i] != s {
        slug_index_from(s, i + 1)
    } else {
        i
    }
}

/// The registry index of `s`.
pub open spec fn slug_index(s: Seq<char>) -> int {
    slug_index_from(s, 0)
}

/// The slugs of a run of identifiers.
pub open spec fn slugs_of(ids: Seq<RuleId>) -> Seq<Seq<char>> {
    ids.map_values(|id: RuleId| id.0@)
}

/// Every registered rule id, in registry order.
pub fn known_ids() -> (ids: Vec<RuleId>)
    ensures
        slugs_of(ids@) == known_slugs(),
{
    let ids = vec![
        RuleId("collection-layout"),
        RuleId("alphabetize"),
        RuleId("call-layout"),
        RuleId("strip-trailing-commas"),
        RuleId("docstring-expand"),
        RuleId("docstring-frame"),
        RuleId("unused-future-annotations"),
        RuleId("blank-lines"),
        RuleId("bare-imports"),
        RuleId("align-match-case"),
        RuleId("strip-none-return"),
        RuleId("signature-layout"),
        RuleId("import-layout"),
        RuleId("align-imports"),
        RuleId("align-colons"),
        RuleId("docstring-wrap"),
        RuleId("align-equals"),
        RuleId("align-comparisons"),
        RuleId("strip-align-padding"),
        RuleId("reassigned-constants"),
        RuleId("step-narration"),
        RuleId("legacy-union-syntax"),
        RuleId("single-use-variables"),
        RuleId("signature-annotations")
    ];
    assert(slugs_of(ids@) =~= known_slugs());
    ids
}

fn known_message_list() -> (ms: Vec<&'static str>)
    ensures
        ms@.map_values(|m: &'static str| m@) == known_messages(),
{
    let ms = vec![
        "lay out collection literal against the line budget",
        "alphabetize this group",
        "explode call arguments to one keyword per line",
        "strip trailing comma",
        "expand single-line docstring to multi-line form",
        "place docstring opener and closer on their own lines",
        "remove unused `from __future__ import annotations`",
        "normalize blank-line spacing",
        "flag a bare import a `from` import could replace",
        "align match-case colons",
        "drop a redundant `-> None` return annotation",
        "normalize function signature to one-line or one-per-line shape",
        "split an over-long `from` import into repeated-prefix lines",
        "align consecutive `import`s",
        "align consecutive `:` separators",
        "wrap docstring prose to the configured budget",
        "align consecutive `=` operators",
        "align consecutive comparison operators",
        "drop padding from a group with no column to align to",
        "SCREAMING_CASE name is reassigned despite its constant casing. Rename it lowercase or keep it write-once",
        "numbered-step comment found. Consider extracting each step as a named function",
        "rewrite legacy `Optional`/`Union` to PEP 604 union syntax",
        "binding is assigned and used once. Consider inlining",
        "flag a missing parameter or return type annotation"
    ];
    assert(ms@.map_values(|m: &'static str| m@) =~= known_messages());
    ms
}

/// Every registered slug is a valid kebab-case slug once encoded, and
/// no two registry rows share a slug.
#[verifier::rlimit(50)]
pub proof fn lemma_registry_slugs()
    ensures
        forall|i: int| 0 <= i < known_slugs().len() ==> valid_slug(#[trigger] encode_utf8(known_slugs()[i])),
        forall|i: int, j: int|
            0 <= i < j < known_slugs().len() ==> #[trigger] known_slugs()[i] != #[trigger] known_slugs()[j],
{
    reveal_strlit("collection-layout");
    reveal_strlit("alphabetize");
    reveal_strlit("call-layout");
    reveal_strlit("strip-trailing-commas");
    reveal_strlit("docstring-expand");
    reveal_strlit("docstring-frame");
    reveal_strlit("unused-future-annotations");
    reveal_strlit("blank-lines");
    reveal_strlit("bare-imports");
    reveal_strlit("align-match-case");
    reveal_strlit("strip-none-return");
    reveal_strlit("signature-layout");
    reveal_strlit("import-layout");
    reveal_strlit("align-imports");
    reveal_strlit("align-colons");
    reveal_strlit("docstring-wrap");
    reveal_strlit("align-equals");
    reveal_strlit("align-comparisons");
    reveal_strlit("strip-align-padding");
    reveal_strlit("reassigned-constants");
    reveal_strlit("step-narration");
    reveal_strlit("legacy-union-syntax");
    reveal_strlit("single-use-variables");
    reveal_strlit("signature-annotations");
    lemma_slug_chars_bytes(known_slugs()[0]);
    lemma_slug_chars_bytes(known_slugs()[1]);
    lemma_slug_chars_bytes(known_slugs()[2]);
    lemma_slug_chars_bytes(known_slugs()[3]);
    lemma_slug_chars_bytes(known_slugs()[4]);
    lemma_slug_chars_bytes(known_slugs()[5]);
    lemma_slug_chars_bytes(known_slugs()[6]);
    lemma_slug_chars_bytes(known_slugs()[7]);
    lemma_slug_chars_bytes(known_slugs()[8]);
    lemma_slug_chars_bytes(known_slugs()[9]);
    lemma_slug_chars_bytes(known_slugs()[10]);
    lemma_slug_chars_bytes(known_slugs()[11]);
    lemma_slug_chars_bytes(known_slugs()[12]);
    lemma_slug_chars_bytes(known_slugs()[13]);
    lemma_slug_chars_bytes(known_slugs()[14]);
    lemma_slug_chars_bytes(known_slugs()[15]);
    lemma_slug_chars_bytes(known_slugs()[16]);
    lemma_slug_chars_bytes(known_slugs()[17]);
    lemma_slug_chars_bytes(known_slugs()[18]);
    lemma_slug_chars_bytes(known_slugs()[19]);
    lemma_slug_chars_bytes(known_slugs()[20]);
    lemma_slug_chars_bytes(known_slugs()[21]);
    lemma_slug_chars_bytes(known_slugs()[22]);
    lemma_slug_chars_bytes(known_slugs()[23]);
    assert forall|i: int, j: int| 0 <= i < j < known_slugs().len() implies #[trigger] known_slugs()[i]
        != #[trigger] known_slugs()[j] by {
        if known_slugs()[i] == known_slugs()[j] {
            assert(known_slugs()[i].len() == known_slugs()[j].len());
            assert(known_slugs()[i][0] == known_slugs()[j][0]);
            assert(known_slugs()[i][1] == known_slugs()[j][1]);
            assert(known_slugs()[i][6] == known_slugs()[j][6]);
        }
    }
}

/// The registry index of `s`, or the registry's length.
fn find_slug(s: &str) -> (i: usize)
    ensures
        i == slug_index(s@),
        i <= known_slugs().len(),
{
    let ids = known_ids();
    let mut i: usize = 0;
    while i < ids.len()
        invariant
            i <= ids.len(),
            slugs_of(ids@) == known_slugs(),
            slug_index(s@) == slug_index_from(s@, i as int),
        decreases ids.len() - i,
    {
        assert(slugs_of(ids@)[i as int] == ids@[i as int].0@);
        if str_eq(ids[i].0, s) {
            return i;
        }
        i += 1;
    }
    i
}

impl RuleId {
    /// The slug this identifier wraps.
    pub fn as_str(&self) -> (s: &'static str)
        ensures
            s@ == self.0@,
    {
        self.0
    }

    /// The slug as an owned string; what displaying the identifier
    /// prints.
    pub fn to_string(&self) -> (s: String)
        ensures
            s@ == self.0@,
    {
        let cs = chars_of(self.0);
        crate::text::string_from_chars(cs.as_slice())
    }

    /// Parses a registered slug. Anything else, a prefixed or
    /// differently cased form included, is refused with the input
    /// carried verbatim.
    pub fn parse(s: &str) -> (r: Result<RuleId, ParseRuleIdError>)
        ensures
            known_slugs().contains(s@) <==> r is Ok,
            r matches Ok(id) ==> id.0@ == s@,
            r matches Err(e) ==> e.0@ == s@,
    {
        let i = find_slug(s);
        let ids = known_ids();
        if i < ids.len() {
            proof {
                lemma_slug_index_found(s@, 0);
            }
            assert(slugs_of(ids@)[i as int] == ids@[i as int].0@);
            assert(known_slugs()[i as int] == s@);
            Ok(ids[i])
        } else {
            proof {
                lemma_slug_index_absent(s@, 0);
            }
            let cs = chars_of(s);
            Err(ParseRuleIdError(crate::text::string_from_chars(cs.as_slice())))
        }
    }
}

/// A slug past the end of the registry search is no registered slug.
proof fn lemma_slug_index_absent(s: Seq<char>, i: int)
    requires
        0 <= i,
        slug_index_from(s, i) >= known_slugs().len(),
    ensures
        forall|k: int| i <= k < known_slugs().len() ==> known_slugs()[k] != s,
    decreases known_slugs().len() - i,
{
    if i < known_slugs().len() {
        lemma_slug_index_absent(s, i + 1);
    }
}

/// A found slug sits at its index, and at no earlier one.
proof fn lemma_slug_index_found(s: Seq<char>, i: int)
    requires
        0 <= i,
        slug_index_from(s, i) < known_slugs().len(),
    ensures
        i <= slug_index_from(s, i),
        known_slugs()[slug_index_from(s, i)] == s,
        forall|k: int| i <= k < slug_index_from(s, i) ==> known_slugs()[k] != s,
    decreases known_slugs().len() - i,
{
    if i < known_slugs().len() && known_slugs()[i] != s {
        lemma_slug_index_found(s, i + 1);
    }
}

/// What parsing `s` yields: the slug of the registry row it names, or
/// the refused text.
pub open spec fn parse_spec(s: Seq<char>) -> Result<Seq<char>, Seq<char>> {
    if known_slugs().contains(s) {
        Ok(s)
    } else {
        Err(s)
    }
}

/// Displaying a registered identifier and parsing the text gives the
/// identifier's slug back; any other text is refused as written.
pub proof fn lemma_parse_display_round_trip(id: RuleId, text: Seq<char>)
    ensures
        known_slugs().contains(id.0@) ==> parse_spec(id.0@) == Ok::<Seq<char>, Seq<char>>(id.0@),
        !known_slugs().contains(text) ==> parse_spec(text) == Err::<Seq<char>, Seq<char>>(text),
{
}

impl std::str::FromStr for RuleId {
    type Err = ParseRuleIdError;

    fn from_str(s: &str) -> (r: Result<RuleId, ParseRuleIdError>)
        ensures
            parse_spec(s@) == (match r {
                Ok(id) => Ok(id.0@),
                Err(e) => Err(e.0@),
            }),
    {
        RuleId::parse(s)
    }
}

impl ParseRuleIdError {
    /// The error's message, "unknown rule id `<input>`".
    pub fn to_string(&self) -> (m: String)
        ensures
            m@ == "unknown rule id `"@ + self.0@ + "`"@,
    {
        let mut m = String::new();
        let head = chars_of("unknown rule id `");
        let body = chars_of(self.0.as_str());
        let tail = chars_of("`");
        let mut i: usize = 0;
        while i < head.len()
            invariant
                i <= head.len(),
                head@ == "unknown rule id `"@,
                m@ == head@.take(i as int),
            decreases head.len() - i,
        {
            push_char(&mut m, head[i]);
            assert(head@.take(i as int).push(head@[i as int]) =~= head@.take(i + 1));
            i += 1;
        }
        assert(head@.take(head.len() as int) =~= head@);
        let mut j: usize = 0;
        while j < body.len()
            invariant
                j <= body.len(),
                head@ == "unknown rule id `"@,
                body@ == self.0@,
                m@ == head@ + body@.take(j as int),
            decreases body.len() - j,
        {
            push_char(&mut m, body[j]);
            assert((head@ + body@.take(j as int)).push(body@[j as int]) =~= head@ + body@.take(j + 1));
            j += 1;
        }
        assert(body@.take(body.len() as int) =~= body@);
        proof {
            reveal_strlit("`");
        }
        assert(tail@.len() == 1);
        push_char(&mut m, tail[0]);
        assert(m@ =~= "unknown rule id `"@ + self.0@ + "`"@);
        m
    }
}

/// The one-line imperative a registered rule carries as its message.
pub fn message_for_id(id: RuleId) -> (m: &'static str)
    requires
        known_slugs().contains(id.0@),
    ensures
        m@ == known_messages()[slug_index(id.0@)],
{
    let i = find_slug(id.0);
    proof {
        let k = choose|k: int| 0 <= k < known_slugs().len() && known_slugs()[k] == id.0@;
        if slug_index(id.0@) >= known_slugs().len() {
            lemma_slug_index_absent(id.0@, 0);
            assert(known_slugs()[k] != id.0@);
        }
    }
    assert(i < known_slugs().len());
    let ms = known_message_list();
    assert(ms@.len() == known_messages().len());
    assert(ms@.map_values(|m: &'static str| m@)[i as int] == ms@[i as int]@);
    ms[i]
}

/// `name` with every `_` replaced by `-`, the kebab form a snake-case
/// rule name normalizes to.
pub open spec fn kebab_of(name: Seq<char>) -> Seq<char> {
    name.map_values(|c: char| if c == '_' { '-' } else { c })
}

/// The rule a single-rule run names: `name`, snake-case normalized to
/// kebab-case, when it is a registered slug.
pub fn rule_for_name(name: &str) -> (r: Option<RuleId>)
    ensures
        known_slugs().contains(kebab_of(name@)) <==> r is Some,
        r matches Some(id) ==> id.0@ == kebab_of(name@),
{
    let cs = chars_of(name);
    let mut out = String::new();
    let mut i: usize = 0;
    while i < cs.len()
        invariant
            i <= cs.len(),
            cs@ == name@,
            out@ == kebab_of(name@).take(i as int),
        decreases cs.len() - i,
    {
        let c = if cs[i] == '_' { '-' } else { cs[i] };
        push_char(&mut out, c);
        assert(kebab_of(name@).take(i as int).push(c) =~= kebab_of(name@).take(i + 1));
        i += 1;
    }
    assert(kebab_of(name@).take(cs.len() as int) =~= kebab_of(name@));
    match RuleId::parse(out.as_str()) {
        Ok(id) => Some(id),
        Err(_) => None,
    }
}

/// True when some identifier in `ids` wraps the slug `s`.
pub open spec fn mentions(ids: Seq<RuleId>, s: Seq<char>) -> bool {
    slugs_of(ids).contains(s)
}

/// Whether the rule at registry index `i` runs: a non-empty `select`
/// replaces the configured toggles, an empty one falls back to them,
/// and `ignore` subtracts from either.
pub open spec fn rule_selected(enabled: Seq<bool>, select: Seq<RuleId>, ignore: Seq<RuleId>, i: int) -> bool {
    let s = known_slugs()[i];
    let base = if select.len() == 0 { enabled[i] } else { mentions(select, s) };
    base && !mentions(ignore, s)
}

/// The slugs of the selected rules among the first `n` registered.
pub open spec fn selected_upto(enabled: Seq<bool>, select: Seq<RuleId>, ignore: Seq<RuleId>, n: int) -> Seq<Seq<char>>
    decreases n,
{
    if n <= 0 {
        Seq::empty()
    } else {
        let prev = selected_upto(enabled, select, ignore, n - 1);
        if rule_selected(enabled, select, ignore, n - 1) {
            prev.push(known_slugs()[n - 1])
        } else {
            prev
        }
    }
}

fn mentions_exec(ids: &[RuleId], s: &str) -> (r: bool)
    ensures
        r == mentions(ids@, s@),
{
    let mut i: usize = 0;
    while i < ids.len()
        invariant
            i <= ids.len(),
            forall|k: int| 0 <= k < i ==> ids@[k].0@ != s@,
        decreases ids.len() - i,
    {
        if str_eq(ids[i].0, s) {
            assert(slugs_of(ids@)[i as int] == s@);
            return true;
        }
        i += 1;
    }
    assert forall|k: int| 0 <= k < slugs_of(ids@).len() implies slugs_of(ids@)[k] != s@ by {
        assert(slugs_of(ids@)[k] == ids@[k].0@);
    }
    false
}

/// The identifiers of the rules a run enables, in registry order.
/// `enabled` holds each registered rule's configured toggle, in
/// registry order.
pub fn selected_ids(enabled: &[bool], select: &[RuleId], ignore: &[RuleId]) -> (r: Vec<RuleId>)
    requires
        enabled.len() == known_slugs().len(),
    ensures
        slugs_of(r@) == selected_upto(enabled@, select@, ignore@, known_slugs().len() as int),
{
    let ids = known_ids();
    let mut out: Vec<RuleId> = Vec::new();
    let mut i: usize = 0;
    assert(slugs_of(out@) =~= Seq::<Seq<char>>::empty());
    while i < ids.len()
        invariant
            i <= ids.len(),
            enabled.len() == ids.len(),
            slugs_of(ids@) == known_slugs(),
            slugs_of(out@) == selected_upto(enabled@, select@, ignore@, i as int),
        decreases ids.len() - i,
    {
        let id = ids[i];
        assert(slugs_of(ids@)[i as int] == id.0@);
        let base = if select.len() == 0 {
            enabled[i]
        } else {
            mentions_exec(select, id.0)
        };
        if base && !mentions_exec(ignore, id.0) {
            let ghost before = out@;
            out.push(id);
            assert(slugs_of(out@) =~= slugs_of(before).push(id.0@));
        }
        i += 1;
    }
    out
}

} // verus!
