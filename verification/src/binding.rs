//! The last step of binding analysis: reads that had to wait for the
//! whole module (a use before its definition) are resolved against the
//! finished scope chain, and each multi-name unpack assignment learns,
//! from the final read counts, how its targets may be reported.

use vstd::prelude::*;
use vstd::multiset::Multiset;

use crate::rule::str_eq;
use crate::scope::{lookup_from, resolve_from, resolve_in_chain, scopes_wf, Scope};

verus! {

broadcast use vstd::seq_lib::to_multiset_insert;

/// One named binding: its name and scope, the offsets of its writes
/// and reads, the distinct attribute names read off it (`os.environ`
/// records `environ`), and whether it is ever read bare.
pub struct Binding {
    pub name: String,
    pub scope: u32,
    pub write_offsets: Vec<u32>,
    pub read_offsets: Vec<u32>,
    pub attributes: Vec<String>,
    pub bare_read: bool,
}

/// A read seen before the scopes it may resolve to were complete.
pub struct DeferredRead {
    pub attribute: Option<String>,
    pub name: String,
    pub offset: u32,
    pub scope: u32,
}

/// One multi-name unpack assignment: the bindings of its targets in
/// order, whether a subscript rewrite may be offered, and the range of
/// its right-hand side.
pub struct UnpackGroup {
    pub members: Vec<u32>,
    pub suggestible: bool,
    pub value: (u32, u32),
}

/// How an unpack target may be reported.
#[derive(Clone, Copy, Debug, PartialEq, Eq, Structural)]
pub enum UnpackKind {
    /// Flagged with no subscript rewrite, because the right-hand side
    /// is a call or a starred target shifts the indices.
    Bare,
    /// A sibling target reads more than once, so removing this target
    /// would split the unpack into an indexed read.
    Exempt,
    /// Flagged with a subscript rewrite: the right-hand-side range and
    /// this target's index.
    Suggested(u32, u32, usize),
}

/// Ascending, as reads are kept in source order.
pub open spec fn sorted(s: Seq<u32>) -> bool {
    forall|i: int, j: int| 0 <= i <= j < s.len() ==> s[i] <= s[j]
}

/// The attribute names of a binding, as text.
pub open spec fn attribute_names(b: Binding) -> Seq<Seq<char>> {
    b.attributes@.map_values(|a: String| a@)
}

/// A binding's reads are in order and its attribute names are distinct.
pub open spec fn binding_wf(b: Binding) -> bool {
    &&& sorted(b.read_offsets@)
    &&& attribute_names(b).no_duplicates()
}

/// The binding a deferred read resolves to along its scope chain.
pub open spec fn read_target(scopes: Seq<Scope>, d: DeferredRead) -> Option<u32> {
    resolve_from(scopes, d.scope as int, d.scope as int, d.name@)
}

/// The offsets of the first `n` deferred reads that resolve to `id`.
pub open spec fn offsets_resolved_to(scopes: Seq<Scope>, deferred: Seq<DeferredRead>, n: int, id: u32) -> Multiset<u32>
    decreases n,
{
    if n <= 0 {
        Multiset::empty()
    } else {
        let rest = offsets_resolved_to(scopes, deferred, n - 1, id);
        if read_target(scopes, deferred[n - 1]) == Some(id) {
            rest.insert(deferred[n - 1].offset)
        } else {
            rest
        }
    }
}

/// The attribute names read off `id` by the first `n` deferred reads.
pub open spec fn attributes_resolved_to(scopes: Seq<Scope>, deferred: Seq<DeferredRead>, n: int, id: u32) -> Set<
    Seq<char>,
> {
    Set::new(
        |a: Seq<char>|
            exists|k: int|
                0 <= k < n && read_target(scopes, #[trigger] deferred[k]) == Some(id)
                    && (deferred[k].attribute matches Some(s) && s@ == a),
    )
}

/// Some of the first `n` deferred reads reads `id` bare.
pub open spec fn bare_resolved_to(scopes: Seq<Scope>, deferred: Seq<DeferredRead>, n: int, id: u32) -> bool {
    exists|k: int|
        0 <= k < n && read_target(scopes, #[trigger] deferred[k]) == Some(id) && deferred[k].attribute is None
}

/// Every table entry of every scope names an existing binding.
pub open spec fn tables_in_range(scopes: Seq<Scope>, nbindings: int) -> bool {
    forall|i: int, k: int|
        0 <= i < scopes.len() && 0 <= k < scopes[i].bindings@.len() ==> (#[trigger] scopes[i].bindings@[k]).1
            < nbindings
}

/// A resolved read is recorded on binding `new`, taken from `old`: the
/// identity and writes are kept, the offsets stay ordered and gain the
/// read's, and the attribute or the bare flag is noted.
pub open spec fn records_read(old: Binding, new: Binding, offset: u32, attribute: Option<String>) -> bool {
    &&& new.name@ == old.name@
    &&& new.scope == old.scope
    &&& new.write_offsets@ == old.write_offsets@
    &&& binding_wf(new)
    &&& new.read_offsets@.to_multiset() == old.read_offsets@.to_multiset().insert(offset)
    &&& attribute_names(new).to_set() == match attribute {
        Some(a) => attribute_names(old).to_set().insert(a@),
        None => attribute_names(old).to_set(),
    }
    &&& new.bare_read == (old.bare_read || attribute is None)
}

/// Where `offset` goes in ascending `reads`: after every smaller one.
fn partition_point(reads: &Vec<u32>, offset: u32) -> (k: usize)
    requires
        sorted(reads@),
    ensures
        k <= reads.len(),
        forall|i: int| 0 <= i < k ==> reads@[i] < offset,
        forall|i: int| k <= i < reads.len() ==> offset <= reads@[i],
{
    let mut k: usize = 0;
    while k < reads.len() && reads[k] < offset
        invariant
            k <= reads.len(),
            sorted(reads@),
            forall|i: int| 0 <= i < k ==> reads@[i] < offset,
        decreases reads.len() - k,
    {
        k += 1;
    }
    k
}

fn contains_name(names: &Vec<String>, name: &str) -> (r: bool)
    ensures
        r == names@.map_values(|a: String| a@).contains(name@),
{
    let ghost view = names@.map_values(|a: String| a@);
    let mut k: usize = 0;
    while k < names.len()
        invariant
            k <= names.len(),
            view == names@.map_values(|a: String| a@),
            forall|i: int| 0 <= i < k ==> view[i] != name@,
        decreases names.len() - k,
    {
        if str_eq(names[k].as_str(), name) {
            assert(view[k as int] == name@);
            return true;
        }
        k += 1;
    }
    false
}

/// Records a read at `offset` on binding `b`: its offset at its place in
/// order, and its attribute name, or the bare flag when it has none.
fn record_read(b: &mut Binding, offset: u32, attribute: &Option<String>)
    requires
        binding_wf(*old(b)),
    ensures
        records_read(*old(b), *final(b), offset, *attribute),
{
    let slot = partition_point(&b.read_offsets, offset);
    let ghost before = b.read_offsets@;
    b.read_offsets.insert(slot, offset);
    proof {
        let after = b.read_offsets@;
        assert(after == before.insert(slot as int, offset));
        assert forall|i: int, j: int| 0 <= i <= j < after.len() implies after[i] <= after[j] by {
            if j < slot {
            } else if j == slot {
            } else if i < slot {
                assert(after[j] == before[j - 1]);
            } else if i == slot {
                assert(after[j] == before[j - 1]);
            } else {
                assert(after[i] == before[i - 1] && after[j] == before[j - 1]);
            }
        }
    }
    let ghost names0 = attribute_names(*b);
    match attribute {
        Some(a) => {
            if !contains_name(&b.attributes, a.as_str()) {
                b.attributes.push(a.clone());
                proof {
                    let names1 = attribute_names(*b);
                    assert(names1 =~= names0.push(a@));
                    assert(names0.push(a@) =~= names0 + seq![a@]);
                    Seq::<Seq<char>>::lemma_to_set_insert_commutes(names0, a@);
                    assert forall|i: int, j: int| 0 <= i < j < names1.len() implies names1[i] != names1[j] by {
                        if j == names1.len() - 1 {
                            assert(names0.contains(names0[i]));
                        }
                    }
                }
            } else {
                proof {
                    assert(names0.to_set().contains(a@));
                    assert(names0.to_set().insert(a@) =~= names0.to_set());
                }
            }
        },
        None => {
            b.bare_read = true;
        },
    }
}

/// Some member of the group reads more than once.
pub open spec fn group_reused(g: UnpackGroup, bindings: Seq<Binding>) -> bool {
    exists|m: int| 0 <= m < g.members@.len() && bindings[(#[trigger] g.members@[m]) as int].read_offsets@.len() > 1
}

/// The kinds of a group's targets, in order: all exempt when a member
/// is reused, else each offered its subscript when the group is
/// suggestible, else each bare.
pub open spec fn group_kinds(g: UnpackGroup, reused: bool) -> Seq<(u32, UnpackKind)> {
    Seq::new(
        g.members@.len(),
        |m: int|
            (
                g.members@[m],
                if reused {
                    UnpackKind::Exempt
                } else if g.suggestible {
                    UnpackKind::Suggested(g.value.0, g.value.1, m as usize)
                } else {
                    UnpackKind::Bare
                },
            ),
    )
}

/// Every group's target kinds, group after group. Read as a table, a
/// later pair for the same binding supersedes an earlier one.
pub open spec fn unpack_kinds(groups: Seq<UnpackGroup>, bindings: Seq<Binding>) -> Seq<(u32, UnpackKind)>
    decreases groups.len(),
{
    if groups.len() == 0 {
        Seq::empty()
    } else {
        unpack_kinds(groups.drop_last(), bindings) + group_kinds(groups.last(), group_reused(groups.last(), bindings))
    }
}

proof fn lemma_lookup_names_entry(bs: Seq<(String, u32)>, name: Seq<char>, k: int)
    requires
        0 <= k,
    ensures
        lookup_from(bs, name, k) matches Some(b) ==> exists|j: int| 0 <= j < bs.len() && (#[trigger] bs[j]).1 == b,
    decreases bs.len() - k,
{
    if 0 <= k < bs.len() && bs[k].0@ != name {
        lemma_lookup_names_entry(bs, name, k + 1);
    }
}

proof fn lemma_resolved_in_range(scopes: Seq<Scope>, innermost: int, id: int, name: Seq<char>, nbindings: int)
    requires
        tables_in_range(scopes, nbindings),
    ensures
        resolve_from(scopes, innermost, id, name) matches Some(b) ==> b < nbindings,
    decreases id,
{
    if 0 <= id < scopes.len() {
        let s = scopes[id];
        lemma_lookup_names_entry(s.bindings@, name, 0);
        if let Some(b) = lookup_from(s.bindings@, name, 0) {
            let j = choose|j: int| 0 <= j < s.bindings@.len() && (#[trigger] s.bindings@[j]).1 == b;
            assert(scopes[id].bindings@[j].1 < nbindings);
        }
        if let Some(p) = s.parent {
            if p < id {
                lemma_resolved_in_range(scopes, innermost, p as int, name, nbindings);
            }
        }
    }
}

/// What `finish` has made of binding `i`, taken from `b0`: identity
/// and writes kept, every resolved deferred read recorded.
pub open spec fn reads_recorded(
    b0: Binding,
    b1: Binding,
    scopes: Seq<Scope>,
    deferred: Seq<DeferredRead>,
    n: int,
    i: int,
) -> bool {
    &&& b1.name@ == b0.name@
    &&& b1.scope == b0.scope
    &&& b1.write_offsets@ == b0.write_offsets@
    &&& binding_wf(b1)
    &&& b1.read_offsets@.to_multiset() == b0.read_offsets@.to_multiset().add(
        offsets_resolved_to(scopes, deferred, n, i as u32),
    )
    &&& attribute_names(b1).to_set() == attribute_names(b0).to_set().union(
        attributes_resolved_to(scopes, deferred, n, i as u32),
    )
    &&& b1.bare_read == (b0.bare_read || bare_resolved_to(scopes, deferred, n, i as u32))
}

/// One deferred read taken into account: a binding it resolves to has
/// it recorded, any other binding is left as it was.
proof fn lemma_record_step(
    b0: Binding,
    before: Binding,
    after: Binding,
    scopes: Seq<Scope>,
    deferred: Seq<DeferredRead>,
    n: int,
    i: int,
)
    requires
        0 <= n < deferred.len(),
        0 <= i <= u32::MAX,
        reads_recorded(b0, before, scopes, deferred, n, i),
        read_target(scopes, deferred[n]) == Some(i as u32) ==> records_read(
            before,
            after,
            deferred[n].offset,
            deferred[n].attribute,
        ),
        read_target(scopes, deferred[n]) != Some(i as u32) ==> after == before,
    ensures
        reads_recorded(b0, after, scopes, deferred, n + 1, i),
{
    let w = i as u32;
    let d = deferred[n];
    let hit = read_target(scopes, d) == Some(w);
    let a0 = attributes_resolved_to(scopes, deferred, n, w);
    let a1 = attributes_resolved_to(scopes, deferred, n + 1, w);
    let r0 = offsets_resolved_to(scopes, deferred, n, w);
    let base = attribute_names(b0).to_set();
    if hit {
        match d.attribute {
            Some(a) => {
                assert forall|x: Seq<char>| a1.contains(x) <==> a0.insert(a@).contains(x) by {
                    if a1.contains(x) {
                        let k = choose|k: int|
                            0 <= k < n + 1 && read_target(scopes, #[trigger] deferred[k]) == Some(w)
                                && (deferred[k].attribute matches Some(s) && s@ == x);
                        if k < n {
                            assert(a0.contains(x));
                        }
                    }
                    if a0.contains(x) {
                        let k = choose|k: int|
                            0 <= k < n && read_target(scopes, #[trigger] deferred[k]) == Some(w)
                                && (deferred[k].attribute matches Some(s) && s@ == x);
                        assert(0 <= k < n + 1);
                    }
                    if x == a@ {
                        assert(read_target(scopes, deferred[n]) == Some(w));
                    }
                }
                assert(a1 =~= a0.insert(a@));
                assert(base.union(a0).insert(a@) =~= base.union(a1));
                assert(!bare_resolved_to(scopes, deferred, n + 1, w) || bare_resolved_to(scopes, deferred, n, w)) by {
                    if bare_resolved_to(scopes, deferred, n + 1, w) {
                        let k = choose|k: int|
                            0 <= k < n + 1 && read_target(scopes, #[trigger] deferred[k]) == Some(w)
                                && deferred[k].attribute is None;
                        assert(k < n);
                    }
                }
            },
            None => {
                assert forall|x: Seq<char>| a1.contains(x) <==> a0.contains(x) by {
                    if a1.contains(x) {
                        let k = choose|k: int|
                            0 <= k < n + 1 && read_target(scopes, #[trigger] deferred[k]) == Some(w)
                                && (deferred[k].attribute matches Some(s) && s@ == x);
                        assert(k < n);
                    }
                    if a0.contains(x) {
                        let k = choose|k: int|
                            0 <= k < n && read_target(scopes, #[trigger] deferred[k]) == Some(w)
                                && (deferred[k].attribute matches Some(s) && s@ == x);
                        assert(0 <= k < n + 1);
                    }
                }
                assert(a1 =~= a0);
                assert(bare_resolved_to(scopes, deferred, n + 1, w)) by {
                    assert(read_target(scopes, deferred[n]) == Some(w));
                }
            },
        }
        assert(b0.read_offsets@.to_multiset().add(r0).insert(d.offset) =~= b0.read_offsets@.to_multiset().add(
            r0.insert(d.offset),
        ));
    } else {
        assert forall|x: Seq<char>| a1.contains(x) <==> a0.contains(x) by {
            if a1.contains(x) {
                let k = choose|k: int|
                    0 <= k < n + 1 && read_target(scopes, #[trigger] deferred[k]) == Some(w)
                        && (deferred[k].attribute matches Some(s) && s@ == x);
                assert(k < n);
            }
            if a0.contains(x) {
                let k = choose|k: int|
                    0 <= k < n && read_target(scopes, #[trigger] deferred[k]) == Some(w)
                        && (deferred[k].attribute matches Some(s) && s@ == x);
                assert(0 <= k < n + 1);
            }
        }
        assert(a1 =~= a0);
        assert(bare_resolved_to(scopes, deferred, n + 1, w) == bare_resolved_to(scopes, deferred, n, w)) by {
            if bare_resolved_to(scopes, deferred, n + 1, w) {
                let k = choose|k: int|
                    0 <= k < n + 1 && read_target(scopes, #[trigger] deferred[k]) == Some(w)
                        && deferred[k].attribute is None;
                assert(k < n);
            }
        }
    }
}

/// Completes the analysis. Each deferred read, in order, is resolved
/// along its scope chain and, when some scope binds its name, recorded
/// on that binding: its offset in order among the reads, its attribute
/// name or the bare flag. Then each unpack group's targets are given
/// their kinds from the final read counts (see [`unpack_kinds`]).
pub fn finish(
    scopes: &[Scope],
    bindings: &mut Vec<Binding>,
    deferred: &[DeferredRead],
    groups: &[UnpackGroup],
) -> (kinds: Vec<(u32, UnpackKind)>)
    requires
        scopes_wf(scopes@),
        old(bindings).len() <= u32::MAX,
        tables_in_range(scopes@, old(bindings).len() as int),
        forall|i: int| 0 <= i < old(bindings).len() ==> binding_wf(#[trigger] old(bindings)@[i]),
        forall|k: int| 0 <= k < deferred.len() ==> (#[trigger] deferred@[k]).scope < scopes.len(),
        forall|g: int, m: int|
            0 <= g < groups.len() && 0 <= m < groups@[g].members.len() ==> (#[trigger] groups@[g].members@[m])
                < old(bindings).len(),
    ensures
        final(bindings).len() == old(bindings).len(),
        forall|i: int|
            0 <= i < old(bindings).len() ==> reads_recorded(
                #[trigger] old(bindings)@[i],
                final(bindings)@[i],
                scopes@,
                deferred@,
                deferred.len() as int,
                i,
            ),
        kinds@ == unpack_kinds(groups@, final(bindings)@),
{
    let ghost b0 = bindings@;
    proof {
        assert forall|i: int| 0 <= i < b0.len() implies reads_recorded(
            #[trigger] b0[i],
            bindings@[i],
            scopes@,
            deferred@,
            0,
            i,
        ) by {
            let w = i as u32;
            assert(b0[i].read_offsets@.to_multiset().add(offsets_resolved_to(scopes@, deferred@, 0, w))
                =~= b0[i].read_offsets@.to_multiset());
            assert(attribute_names(b0[i]).to_set().union(attributes_resolved_to(scopes@, deferred@, 0, w))
                =~= attribute_names(b0[i]).to_set());
        }
    }
    let mut n: usize = 0;
    while n < deferred.len()
        invariant
            n <= deferred.len(),
            scopes_wf(scopes@),
            bindings.len() == b0.len(),
            b0.len() <= u32::MAX,
            tables_in_range(scopes@, b0.len() as int),
            forall|k: int| 0 <= k < deferred.len() ==> (#[trigger] deferred@[k]).scope < scopes.len(),
            forall|i: int|
                0 <= i < b0.len() ==> reads_recorded(
                    #[trigger] b0[i],
                    bindings@[i],
                    scopes@,
                    deferred@,
                    n as int,
                    i,
                ),
        decreases deferred.len() - n,
    {
        let d = &deferred[n];
        let target = resolve_in_chain(scopes, d.scope, d.name.as_str());
        proof {
            lemma_resolved_in_range(scopes@, d.scope as int, d.scope as int, d.name@, b0.len() as int);
        }
        let ghost before = bindings@;
        if let Some(id) = target {
            assert(reads_recorded(b0[id as int], bindings@[id as int], scopes@, deferred@, n as int, id as int));
            let mut b = bindings.remove(id as usize);
            record_read(&mut b, d.offset, &d.attribute);
            bindings.insert(id as usize, b);
            proof {
                assert(bindings@ =~= before.update(id as int, b));
            }
        }
        proof {
            assert forall|i: int| 0 <= i < b0.len() implies reads_recorded(
                #[trigger] b0[i],
                bindings@[i],
                scopes@,
                deferred@,
                n + 1,
                i,
            ) by {
                assert(reads_recorded(b0[i], before[i], scopes@, deferred@, n as int, i));
                if target == Some(i as u32) {
                    lemma_record_step(b0[i], before[i], bindings@[i], scopes@, deferred@, n as int, i);
                } else {
                    assert(bindings@[i] == before[i]);
                    lemma_record_step(b0[i], before[i], bindings@[i], scopes@, deferred@, n as int, i);
                }
            }
        }
        n += 1;
    }
    let mut kinds: Vec<(u32, UnpackKind)> = Vec::new();
    let mut g: usize = 0;
    while g < groups.len()
        invariant
            g <= groups.len(),
            bindings.len() == b0.len(),
            forall|g: int, m: int|
                0 <= g < groups.len() && 0 <= m < groups@[g].members.len() ==> (#[trigger] groups@[g].members@[m])
                    < b0.len(),
            kinds@ == unpack_kinds(groups@.take(g as int), bindings@),
        decreases groups.len() - g,
    {
        let group = &groups[g];
        let mut reused = false;
        let mut m: usize = 0;
        while m < group.members.len()
            invariant
                m <= group.members.len(),
                group == groups@[g as int],
                bindings.len() == b0.len(),
                forall|j: int| 0 <= j < group.members.len() ==> group.members@[j] < b0.len(),
                reused == exists|j: int|
                    0 <= j < m && bindings@[(#[trigger] group.members@[j]) as int].read_offsets@.len() > 1,
            decreases group.members.len() - m,
        {
            if bindings[group.members[m] as usize].read_offsets.len() > 1 {
                reused = true;
            }
            m += 1;
        }
        assert(reused == group_reused(*group, bindings@));
        let ghost prefix = kinds@;
        let mut m: usize = 0;
        while m < group.members.len()
            invariant
                m <= group.members.len(),
                group == groups@[g as int],
                kinds@ == prefix + group_kinds(*group, reused).take(m as int),
            decreases group.members.len() - m,
        {
            let kind = if reused {
                UnpackKind::Exempt
            } else if group.suggestible {
                UnpackKind::Suggested(group.value.0, group.value.1, m)
            } else {
                UnpackKind::Bare
            };
            kinds.push((group.members[m], kind));
            assert(group_kinds(*group, reused).take(m + 1) =~= group_kinds(*group, reused).take(m as int).push(
                (group.members@[m as int], kind),
            ));
            m += 1;
        }
        assert(group_kinds(*group, reused).take(m as int) =~= group_kinds(*group, reused));
        assert(groups@.take(g + 1).drop_last() =~= groups@.take(g as int));
        g += 1;
    }
    assert(groups@.take(groups.len() as int) =~= groups@);
    kinds
}

} // verus!
