//! Classifies import statements into the canonical group order bare →
//! external `from` → local-package, and builds the composite key that
//! orders a run within and across those groups. First-party detection
//! reads the package names configured for the project.

use vstd::prelude::*;

use crate::orderer::{bytes_le, lex_le};
use crate::rule::str_eq;
use crate::text::{chars_of, push_str};

verus! {

/// Canonical import group, in rank order.
#[derive(Clone, Copy, Debug, PartialEq, Eq, Structural, PartialOrd, Ord)]
pub enum ImportGroup {
    Bare,
    ExternalFrom,
    Local,
}

/// The rank of a group: bare first, external `from` next, local last.
pub open spec fn group_rank(g: ImportGroup) -> u8 {
    match g {
        ImportGroup::Bare => 0,
        ImportGroup::ExternalFrom => 1,
        ImportGroup::Local => 2,
    }
}

impl ImportGroup {
    /// The group's rank; see [`group_rank`].
    pub fn rank(self) -> (r: u8)
        ensures
            r == group_rank(self),
    {
        match self {
            ImportGroup::Bare => 0,
            ImportGroup::ExternalFrom => 1,
            ImportGroup::Local => 2,
        }
    }
}

/// A statement as import classification sees it: a bare `import` with
/// its dotted names, a `from` import with its relative level, module and
/// imported names, or any other statement.
pub enum ImportStmt {
    Import { names: Vec<String> },
    ImportFrom { level: u32, module: Option<String>, names: Vec<String> },
    Other,
}

/// The segment of `dotted` before its first `.`, or all of it.
pub open spec fn root_of(dotted: Seq<char>) -> Seq<char> {
    if exists|k: int| 0 <= k < dotted.len() && dotted[k] == '.' {
        dotted.take(first_dot(dotted, 0))
    } else {
        dotted
    }
}

/// The index of the first `.` at or after `i`, or the length.
pub open spec fn first_dot(s: Seq<char>, i: int) -> int
    decreases s.len() - i,
{
    if 0 <= i < s.len() && s[i] != '.' {
        first_dot(s, i + 1)
    } else {
        i
    }
}

proof fn lemma_first_dot(s: Seq<char>, i: int)
    requires
        0 <= i <= s.len(),
    ensures
        i <= first_dot(s, i) <= s.len(),
        forall|k: int| i <= k < first_dot(s, i) ==> s[k] != '.',
        first_dot(s, i) < s.len() ==> s[first_dot(s, i)] == '.',
    decreases s.len() - i,
{
    if i < s.len() && s[i] != '.' {
        lemma_first_dot(s, i + 1);
    }
}

fn first_dot_exec(s: &Vec<char>) -> (k: usize)
    ensures
        k == first_dot(s@, 0),
        k <= s.len(),
{
    let mut k: usize = 0;
    while k < s.len() && s[k] != '.'
        invariant
            k <= s.len(),
            first_dot(s@, 0) == first_dot(s@, k as int),
        decreases s.len() - k,
    {
        k += 1;
    }
    k
}

/// Returns the segment of `dotted` before the first `.`. Matches
/// Python's `import a.b.c` shape, which binds `a` rather than the full
/// dotted path.
pub fn top_level_module(dotted: &str) -> (r: String)
    ensures
        r@ == root_of(dotted@),
{
    let cs = chars_of(dotted);
    let k = first_dot_exec(&cs);
    proof {
        lemma_first_dot(cs@, 0);
        if k < cs.len() {
            assert(cs@[k as int] == '.');
        } else {
            assert forall|j: int| 0 <= j < cs@.len() implies cs@[j] != '.' by {}
            assert(cs@.take(k as int) =~= cs@);
        }
    }
    let head = crate::text::char_slice(&cs, 0, k);
    assert(head@ =~= cs@.take(k as int));
    crate::text::string_from_chars(head.as_slice())
}

/// True when the root package of `name` is one of `first_party`.
pub open spec fn first_party_spec(name: Seq<char>, first_party: Seq<String>) -> bool {
    exists|k: int| 0 <= k < first_party.len() && #[trigger] first_party[k]@ == root_of(name)
}

/// True when the root package of `name` (the substring up to the first
/// `.`) appears in `first_party`.
pub fn is_first_party(name: &str, first_party: &[String]) -> (r: bool)
    ensures
        r == first_party_spec(name@, first_party@),
{
    let root = top_level_module(name);
    let mut i: usize = 0;
    while i < first_party.len()
        invariant
            i <= first_party.len(),
            root@ == root_of(name@),
            forall|k: int| 0 <= k < i ==> first_party@[k]@ != root_of(name@),
        decreases first_party.len() - i,
    {
        if str_eq(first_party[i].as_str(), root.as_str()) {
            assert(first_party@[i as int]@ == root_of(name@));
            return true;
        }
        i += 1;
    }
    false
}

fn any_first_party(names: &Vec<String>, first_party: &[String]) -> (r: bool)
    ensures
        r == exists|k: int| 0 <= k < names@.len() && first_party_spec(#[trigger] names@[k]@, first_party@),
{
    let mut i: usize = 0;
    while i < names.len()
        invariant
            i <= names.len(),
            forall|k: int| 0 <= k < i ==> !first_party_spec(#[trigger] names@[k]@, first_party@),
        decreases names.len() - i,
    {
        if is_first_party(names[i].as_str(), first_party) {
            return true;
        }
        i += 1;
    }
    false
}

/// The canonical group of a statement: `None` for a non-import; `Local`
/// for a bare import naming a first-party root, or a `from` import that
/// is relative or whose module's root is first-party; otherwise `Bare`
/// or `ExternalFrom` by kind.
pub open spec fn import_group_spec(stmt: ImportStmt, first_party: Seq<String>) -> Option<ImportGroup> {
    match stmt {
        ImportStmt::Import { names } => Some(
            if exists|k: int| 0 <= k < names@.len() && first_party_spec(#[trigger] names@[k]@, first_party) {
                ImportGroup::Local
            } else {
                ImportGroup::Bare
            },
        ),
        ImportStmt::ImportFrom { level, module, .. } => Some(
            if level > 0 || (module matches Some(m) && first_party_spec(m@, first_party)) {
                ImportGroup::Local
            } else {
                ImportGroup::ExternalFrom
            },
        ),
        ImportStmt::Other => None,
    }
}

/// Returns the canonical group of an import statement; see
/// [`import_group_spec`].
pub fn import_group(stmt: &ImportStmt, first_party: &[String]) -> (g: Option<ImportGroup>)
    ensures
        g == import_group_spec(*stmt, first_party@),
{
    match stmt {
        ImportStmt::Import { names } => {
            if any_first_party(names, first_party) {
                Some(ImportGroup::Local)
            } else {
                Some(ImportGroup::Bare)
            }
        },
        ImportStmt::ImportFrom { level, module, .. } => {
            let local = *level > 0 || match module {
                Some(m) => is_first_party(m.as_str(), first_party),
                None => false,
            };
            if local {
                Some(ImportGroup::Local)
            } else {
                Some(ImportGroup::ExternalFrom)
            }
        },
        ImportStmt::Other => None,
    }
}

/// True when `a` and `b` are both imports in the same canonical group,
/// the adjacency that seats a single blank line between them.
pub fn same_import_group(a: &ImportStmt, b: &ImportStmt, first_party: &[String]) -> (r: bool)
    ensures
        r == (import_group_spec(*a, first_party@) is Some && import_group_spec(*a, first_party@)
            == import_group_spec(*b, first_party@)),
{
    let ga = import_group(a, first_party);
    let gb = import_group(b, first_party);
    match (ga, gb) {
        (Some(x), Some(y)) => x == y,
        _ => false,
    }
}

/// The byte-wise least of a non-empty list of names: one of them, no
/// greater than any.
pub open spec fn is_least_alias(r: Seq<char>, names: Seq<String>) -> bool {
    &&& exists|k: int| 0 <= k < names.len() && #[trigger] names[k]@ == r
    &&& forall|k: int| 0 <= k < names.len() ==> lex_le(vstd::utf8::encode_utf8(r), vstd::utf8::encode_utf8(#[trigger] names[k]@))
}

/// Returns the alphabetically least name of a bare import's non-empty
/// name list.
pub fn least_alias(names: &[String]) -> (r: String)
    requires
        names.len() > 0,
    ensures
        is_least_alias(r@, names@),
{
    let mut best: usize = 0;
    let mut i: usize = 1;
    proof {
        crate::orderer::lemma_lex_le_refl(vstd::utf8::encode_utf8(names@[0]@));
    }
    while i < names.len()
        invariant
            1 <= i <= names.len(),
            best < i,
            forall|k: int| 0 <= k < i ==> lex_le(
                vstd::utf8::encode_utf8(names@[best as int]@),
                vstd::utf8::encode_utf8(#[trigger] names@[k]@),
            ),
        decreases names.len() - i,
    {
        if !bytes_le(names[best].as_str().as_bytes(), names[i].as_str().as_bytes()) {
            proof {
                crate::orderer::lemma_lex_le_total(
                    vstd::utf8::encode_utf8(names@[best as int]@),
                    vstd::utf8::encode_utf8(names@[i as int]@),
                );
                assert forall|k: int| 0 <= k < i + 1 implies lex_le(
                    vstd::utf8::encode_utf8(names@[i as int]@),
                    vstd::utf8::encode_utf8(#[trigger] names@[k]@),
                ) by {
                    if k < i {
                        crate::orderer::lemma_lex_le_trans(
                            vstd::utf8::encode_utf8(names@[i as int]@),
                            vstd::utf8::encode_utf8(names@[best as int]@),
                            vstd::utf8::encode_utf8(names@[k]@),
                        );
                    } else {
                        crate::orderer::lemma_lex_le_refl(vstd::utf8::encode_utf8(names@[i as int]@));
                    }
                }
            }
            best = i;
        } else {
            proof {
                assert(lex_le(
                    vstd::utf8::encode_utf8(names@[best as int]@),
                    vstd::utf8::encode_utf8(names@[i as int]@),
                ));
            }
        }
        i += 1;
    }
    let mut out = String::new();
    push_str(&mut out, names[best].as_str());
    assert(out@ =~= names@[best as int]@);
    out
}

/// The composite sort key of an import: its group, `0` for a bare import
/// or `1` for a `from` import, then the `from` import's level and module
/// (zero and empty for a bare import), or the bare import's least name.
pub struct ImportSortKey {
    pub group: ImportGroup,
    pub kind: u8,
    pub level: u32,
    pub name: String,
}

/// Returns the composite sort key landing the canonical group order
/// ahead of a per-kind inner sort, or `None` for a non-import, which
/// stays in place. A bare import must bind at least one name.
pub fn import_sort_key(stmt: &ImportStmt, first_party: &[String]) -> (r: Option<ImportSortKey>)
    requires
        stmt matches ImportStmt::Import { names } ==> names@.len() > 0,
    ensures
        stmt is Other ==> r is None,
        stmt matches ImportStmt::Import { names } ==> (r matches Some(k) && Some(k.group) == import_group_spec(
            *stmt,
            first_party@,
        ) && k.kind == 0 && k.level == 0 && is_least_alias(k.name@, names@)),
        stmt matches ImportStmt::ImportFrom { level, module, .. } ==> (r matches Some(k) && Some(k.group)
            == import_group_spec(*stmt, first_party@) && k.kind == 1 && k.level == level && k.name@ == match module {
            Some(m) => m@,
            None => Seq::<char>::empty(),
        }),
{
    let group = match import_group(stmt, first_party) {
        Some(g) => g,
        None => return None,
    };
    match stmt {
        ImportStmt::Import { names } => Some(
            ImportSortKey { group, kind: 0, level: 0, name: least_alias(names.as_slice()) },
        ),
        ImportStmt::ImportFrom { level, module, .. } => {
            let mut name = String::new();
            match module {
                Some(m) => push_str(&mut name, m.as_str()),
                None => {},
            }
            Some(ImportSortKey { group, kind: 1, level: *level, name })
        },
        ImportStmt::Other => None,
    }
}

/// The position of the `annotations` name in a
/// `from __future__ import …` statement, or `None` for any other
/// statement.
#[verifier::loop_isolation(false)]
pub fn future_annotations_alias(stmt: &ImportStmt) -> (r: Option<usize>)
    ensures
        match *stmt {
            ImportStmt::ImportFrom { level, module, names } => if level == 0 && (module matches Some(m) && m@
                == "__future__"@) {
                match r {
                    Some(p) => p < names@.len() && names@[p as int]@ == "annotations"@ && forall|k: int|
                        0 <= k < p ==> #[trigger] names@[k]@ != "annotations"@,
                    None => forall|k: int| 0 <= k < names@.len() ==> #[trigger] names@[k]@ != "annotations"@,
                }
            } else {
                r is None
            },
            _ => r is None,
        },
{
    match stmt {
        ImportStmt::ImportFrom { level, module, names } => {
            if *level != 0 {
                return None;
            }
            let is_future = match module {
                Some(m) => str_eq(m.as_str(), "__future__"),
                None => false,
            };
            if !is_future {
                return None;
            }
            let mut i: usize = 0;
            while i < names.len()
                invariant
                    i <= names.len(),
                    forall|k: int| 0 <= k < i ==> #[trigger] names@[k]@ != "annotations"@,
                decreases names.len() - i,
            {
                if str_eq(names[i].as_str(), "annotations") {
                    return Some(i);
                }
                i += 1;
            }
            None
        },
        _ => None,
    }
}

} // verus!
