//! Name resolution along a chain of lexical scopes.

use vstd::prelude::*;

use crate::rule::str_eq;

verus! {

/// The kinds of scope a Python module nests.
#[derive(Clone, Copy, Debug, PartialEq, Eq, Structural)]
pub enum ScopeKind {
    Class,
    Comprehension,
    Function,
    Module,
}

/// One scope: the names it binds, each to a binding index, its kind,
/// and the index of the scope enclosing it.
pub struct Scope {
    pub bindings: Vec<(String, u32)>,
    pub kind: ScopeKind,
    pub parent: Option<u32>,
}

/// No name is bound twice in one scope's table.
pub open spec fn names_unique(bs: Seq<(String, u32)>) -> bool {
    forall|j: int, k: int| 0 <= j < k < bs.len() ==> #[trigger] bs[j].0@ != #[trigger] bs[k].0@
}

/// Scopes are listed outer before inner: every parent precedes its
/// child, so the chain of parents ends; and each scope binds a name at
/// most once, as a name-keyed table does.
pub open spec fn scopes_wf(scopes: Seq<Scope>) -> bool {
    &&& forall|i: int| 0 <= i < scopes.len() ==> (#[trigger] scopes[i].parent matches Some(p) ==> p < i)
    &&& forall|i: int| 0 <= i < scopes.len() ==> names_unique(#[trigger] scopes[i].bindings@)
}

/// The binding of `name` in one scope: the entry naming it (the first,
/// should a table name it twice).
pub open spec fn lookup_from(bs: Seq<(String, u32)>, name: Seq<char>, k: int) -> Option<u32>
    decreases bs.len() - k,
{
    if 0 <= k < bs.len() {
        if bs[k].0@ == name {
            Some(bs[k].1)
        } else {
            lookup_from(bs, name, k + 1)
        }
    } else {
        None
    }
}

/// Resolves `name` from scope `id` outward through parent links. A class
/// scope other than the innermost is skipped: its names are invisible to
/// the functions and comprehensions nested in it.
pub open spec fn resolve_from(scopes: Seq<Scope>, innermost: int, id: int, name: Seq<char>) -> Option<u32>
    decreases id,
{
    if 0 <= id < scopes.len() {
        let s = scopes[id];
        let here = if id == innermost || s.kind != ScopeKind::Class {
            lookup_from(s.bindings@, name, 0)
        } else {
            None
        };
        match here {
            Some(b) => Some(b),
            None => match s.parent {
                Some(p) => if p < id {
                    resolve_from(scopes, innermost, p as int, name)
                } else {
                    None
                },
                None => None,
            },
        }
    } else {
        None
    }
}

/// In a table that binds each name once, looking a name up gives the
/// binding of the one entry that names it, wherever that entry stands.
pub proof fn lemma_lookup_finds_entry(bs: Seq<(String, u32)>, name: Seq<char>, k: int)
    requires
        names_unique(bs),
        0 <= k < bs.len(),
        bs[k].0@ == name,
    ensures
        lookup_from(bs, name, 0) == Some(bs[k].1),
{
    lemma_lookup_from_below(bs, name, k, 0);
}

proof fn lemma_lookup_from_below(bs: Seq<(String, u32)>, name: Seq<char>, k: int, start: int)
    requires
        names_unique(bs),
        0 <= start <= k < bs.len(),
        bs[k].0@ == name,
    ensures
        lookup_from(bs, name, start) == Some(bs[k].1),
    decreases k - start,
{
    if start < k {
        assert(bs[start].0@ != bs[k].0@);
        lemma_lookup_from_below(bs, name, k, start + 1);
    }
}

fn lookup(bs: &Vec<(String, u32)>, name: &str) -> (r: Option<u32>)
    ensures
        r == lookup_from(bs@, name@, 0),
{
    let mut k: usize = 0;
    while k < bs.len()
        invariant
            k <= bs.len(),
            lookup_from(bs@, name@, 0) == lookup_from(bs@, name@, k as int),
        decreases bs.len() - k,
    {
        if str_eq(bs[k].0.as_str(), name) {
            return Some(bs[k].1);
        }
        k += 1;
    }
    None
}

/// Resolves `name` against the scope chain rooted at `innermost`,
/// walking outward through parent links and skipping any class scope but
/// the innermost. `None` when no scope in the chain binds `name`.
pub fn resolve_in_chain(scopes: &[Scope], innermost: u32, name: &str) -> (r: Option<u32>)
    requires
        scopes_wf(scopes@),
        innermost < scopes.len(),
    ensures
        r == resolve_from(scopes@, innermost as int, innermost as int, name@),
{
    let mut id = innermost;
    loop
        invariant
            scopes_wf(scopes@),
            innermost < scopes.len(),
            id < scopes.len(),
            resolve_from(scopes@, innermost as int, innermost as int, name@) == resolve_from(
                scopes@,
                innermost as int,
                id as int,
                name@,
            ),
        decreases id,
    {
        let s = &scopes[id as usize];
        let visible = id == innermost || s.kind != ScopeKind::Class;
        if visible {
            if let Some(b) = lookup(&s.bindings, name) {
                return Some(b);
            }
        }
        match s.parent {
            Some(p) => {
                assert(scopes@[id as int].parent matches Some(q) ==> q < id);
                id = p;
            },
            None => {
                return None;
            },
        }
    }
}

/// The scope `d` parent links out from `id`, when the chain is that long.
pub open spec fn chain_at(scopes: Seq<Scope>, id: int, d: nat) -> Option<int>
    decreases d,
{
    if d == 0 {
        if 0 <= id < scopes.len() {
            Some(id)
        } else {
            None
        }
    } else {
        match chain_at(scopes, id, (d - 1) as nat) {
            Some(k) => match scopes[k].parent {
                Some(p) => if (p as int) < scopes.len() {
                    Some(p as int)
                } else {
                    None
                },
                None => None,
            },
            None => None,
        }
    }
}

/// Scope `k`'s table maps `name` to binding `b`.
pub open spec fn table_binds(scopes: Seq<Scope>, k: int, name: Seq<char>, b: u32) -> bool {
    exists|j: int|
        0 <= j < scopes[k].bindings@.len() && (#[trigger] scopes[k].bindings@[j]).0@ == name && scopes[k].bindings@[j].1
            == b
}

/// The names of scope `k` are seen from `innermost`: every scope is seen
/// from itself, and any enclosing scope but a class scope.
pub open spec fn seen_from(scopes: Seq<Scope>, innermost: int, k: int) -> bool {
    k == innermost || scopes[k].kind != ScopeKind::Class
}

proof fn lemma_chain_shorter(scopes: Seq<Scope>, id: int, d: nat, e: nat)
    requires
        e <= d,
        chain_at(scopes, id, d) is Some,
    ensures
        chain_at(scopes, id, e) is Some,
    decreases d,
{
    if e < d {
        lemma_chain_shorter(scopes, id, (d - 1) as nat, e);
    }
}

proof fn lemma_lookup_some_is_entry(bs: Seq<(String, u32)>, name: Seq<char>, k: int)
    requires
        0 <= k,
    ensures
        lookup_from(bs, name, k) matches Some(b) ==> exists|j: int|
            0 <= j < bs.len() && (#[trigger] bs[j]).0@ == name && bs[j].1 == b,
    decreases bs.len() - k,
{
    if 0 <= k < bs.len() && bs[k].0@ != name {
        lemma_lookup_some_is_entry(bs, name, k + 1);
    }
}

proof fn lemma_resolve_walk(scopes: Seq<Scope>, innermost: int, name: Seq<char>, d: nat, b: u32, e: nat)
    requires
        scopes_wf(scopes),
        e <= d,
        chain_at(scopes, innermost, d) matches Some(k) && seen_from(scopes, innermost, k) && table_binds(
            scopes,
            k,
            name,
            b,
        ),
        forall|d2: nat|
            d2 < d ==> (#[trigger] chain_at(scopes, innermost, d2) matches Some(k2) ==> !(seen_from(
                scopes,
                innermost,
                k2,
            ) && exists|b2: u32| table_binds(scopes, k2, name, b2))),
    ensures
        chain_at(scopes, innermost, e) matches Some(id) && resolve_from(scopes, innermost, id, name) == Some(b),
    decreases d - e,
{
    lemma_chain_shorter(scopes, innermost, d, e);
    let id = chain_at(scopes, innermost, e).unwrap();
    let s = scopes[id];
    assert(0 <= id < scopes.len()) by {
        if e > 0 {
            assert(chain_at(scopes, innermost, e) == match chain_at(scopes, innermost, (e - 1) as nat) {
                Some(k) => match scopes[k].parent {
                    Some(p) => if (p as int) < scopes.len() { Some(p as int) } else { None },
                    None => None,
                },
                None => None,
            });
        }
    }
    if e == d {
        let j = choose|j: int|
            0 <= j < s.bindings@.len() && (#[trigger] s.bindings@[j]).0@ == name && s.bindings@[j].1 == b;
        assert(names_unique(scopes[id].bindings@));
        lemma_lookup_finds_entry(s.bindings@, name, j);
    } else {
        lemma_lookup_some_is_entry(s.bindings@, name, 0);
        if seen_from(scopes, innermost, id) {
            if let Some(x) = lookup_from(s.bindings@, name, 0) {
                assert(table_binds(scopes, id, name, x));
                assert(false);
            }
        }
        lemma_chain_shorter(scopes, innermost, d, e + 1);
        assert(chain_at(scopes, innermost, e + 1) == match s.parent {
            Some(p) => if (p as int) < scopes.len() { Some(p as int) } else { None },
            None => None,
        });
        assert(s.parent matches Some(p) ==> p < id);
        lemma_resolve_walk(scopes, innermost, name, d, b, e + 1);
    }
}

/// Resolution finds the nearest binding seen from the innermost scope:
/// when the scope `d` links out along the parent chain binds `name` to
/// `b`, is seen from the innermost scope (it is the innermost, or not a
/// class scope), and no scope nearer the innermost that is seen binds
/// `name`, the name resolves to `b`.
pub proof fn lemma_resolves_to_nearest_seen_binding(
    scopes: Seq<Scope>,
    innermost: int,
    name: Seq<char>,
    d: nat,
    b: u32,
)
    requires
        scopes_wf(scopes),
        chain_at(scopes, innermost, d) matches Some(k) && seen_from(scopes, innermost, k) && table_binds(
            scopes,
            k,
            name,
            b,
        ),
        forall|d2: nat|
            d2 < d ==> (#[trigger] chain_at(scopes, innermost, d2) matches Some(k2) ==> !(seen_from(
                scopes,
                innermost,
                k2,
            ) && exists|b2: u32| table_binds(scopes, k2, name, b2))),
    ensures
        resolve_from(scopes, innermost, innermost, name) == Some(b),
{
    lemma_resolve_walk(scopes, innermost, name, d, b, 0);
}

proof fn lemma_resolve_sound_from(scopes: Seq<Scope>, innermost: int, name: Seq<char>, e: nat, id: int)
    requires
        scopes_wf(scopes),
        chain_at(scopes, innermost, e) == Some(id),
    ensures
        resolve_from(scopes, innermost, id, name) matches Some(b) ==> exists|d: nat|
            d >= e && (#[trigger] chain_at(scopes, innermost, d) matches Some(k) && seen_from(scopes, innermost, k)
                && table_binds(scopes, k, name, b)),
        resolve_from(scopes, innermost, id, name) is None ==> forall|d: nat|
            d >= e ==> (#[trigger] chain_at(scopes, innermost, d) matches Some(k) ==> !(seen_from(
                scopes,
                innermost,
                k,
            ) && exists|b2: u32| table_binds(scopes, k, name, b2))),
    decreases id,
{
    assert(0 <= id < scopes.len()) by {
        if e > 0 {
            assert(chain_at(scopes, innermost, e) == match chain_at(scopes, innermost, (e - 1) as nat) {
                Some(k) => match scopes[k].parent {
                    Some(p) => if (p as int) < scopes.len() { Some(p as int) } else { None },
                    None => None,
                },
                None => None,
            });
        }
    }
    let s = scopes[id];
    let seen = seen_from(scopes, innermost, id);
    lemma_lookup_some_is_entry(s.bindings@, name, 0);
    assert(chain_at(scopes, innermost, e + 1) == match s.parent {
        Some(p) => if (p as int) < scopes.len() { Some(p as int) } else { None },
        None => None,
    });
    assert(s.parent matches Some(p) ==> p < id);
    let here = if seen { lookup_from(s.bindings@, name, 0) } else { None };
    if let Some(x) = here {
        assert(table_binds(scopes, id, name, x));
        assert(chain_at(scopes, innermost, e) == Some(id));
    } else {
        if let Some(p) = s.parent {
            lemma_resolve_sound_from(scopes, innermost, name, e + 1, p as int);
            if let Some(b) = resolve_from(scopes, innermost, id, name) {
                let d = choose|d: nat|
                    d >= e + 1 && (#[trigger] chain_at(scopes, innermost, d) matches Some(k) && seen_from(
                        scopes,
                        innermost,
                        k,
                    ) && table_binds(scopes, k, name, b));
                assert(d >= e);
            }
        }
        if resolve_from(scopes, innermost, id, name) is None {
            assert forall|d: nat|
                d >= e implies (#[trigger] chain_at(scopes, innermost, d) matches Some(k) ==> !(seen_from(
                    scopes,
                    innermost,
                    k,
                ) && exists|b2: u32| table_binds(scopes, k, name, b2))) by {
                if d == e {
                    if seen && exists|b2: u32| table_binds(scopes, id, name, b2) {
                        let b2 = choose|b2: u32| table_binds(scopes, id, name, b2);
                        let j = choose|j: int|
                            0 <= j < s.bindings@.len() && (#[trigger] s.bindings@[j]).0@ == name
                                && s.bindings@[j].1 == b2;
                        assert(names_unique(scopes[id].bindings@));
                        lemma_lookup_finds_entry(s.bindings@, name, j);
                    }
                } else if chain_at(scopes, innermost, d) is Some {
                    lemma_chain_shorter(scopes, innermost, d, e + 1);
                }
            }
        }
    }
}

/// Resolution only ever answers with a binding that some scope on the
/// parent chain, seen from the innermost scope, holds for `name`; and it
/// answers `None` only when no such scope binds `name`.
pub proof fn lemma_resolution_is_sound(scopes: Seq<Scope>, innermost: int, name: Seq<char>)
    requires
        scopes_wf(scopes),
        0 <= innermost < scopes.len(),
    ensures
        resolve_from(scopes, innermost, innermost, name) matches Some(b) ==> exists|d: nat|
            #[trigger] chain_at(scopes, innermost, d) matches Some(k) && seen_from(scopes, innermost, k) && table_binds(
                scopes,
                k,
                name,
                b,
            ),
        resolve_from(scopes, innermost, innermost, name) is None ==> forall|d: nat|
            #[trigger] chain_at(scopes, innermost, d) matches Some(k) ==> !(seen_from(scopes, innermost, k)
                && exists|b2: u32| table_binds(scopes, k, name, b2)),
{
    lemma_resolve_sound_from(scopes, innermost, name, 0, innermost);
}

} // verus!
