//! Reorders sibling items by a classification key. Items classified as
//! `None` pin in their slot, and items classified as `Some(key)`
//! redistribute across the remaining slots in key order, stably.
//!
//! Keys are byte strings compared lexicographically, the order `str`
//! and `[u8]` use, so a name or a fixed-width encoded tuple sorts as it
//! would in the source language.

use vstd::prelude::*;
use vstd::utf8::*;

use crate::text::{lemma_valid_subrange, push_byte_range, string_from_utf8};
use crate::trivia::{full_line_end, full_line_end_of, is_own_line, line_end, line_end_of, line_start, line_start_of, own_line};

verus! {

/// Lexicographic order on byte strings: a proper prefix sorts first.
pub open spec fn lex_le(a: Seq<u8>, b: Seq<u8>) -> bool
    decreases a.len(),
{
    if a.len() == 0 {
        true
    } else if b.len() == 0 {
        false
    } else if a[0] < b[0] {
        true
    } else if a[0] > b[0] {
        false
    } else {
        lex_le(a.drop_first(), b.drop_first())
    }
}

/// Every byte string is ordered against itself.
pub proof fn lemma_lex_le_refl(a: Seq<u8>)
    ensures
        lex_le(a, a),
    decreases a.len(),
{
    if a.len() > 0 {
        lemma_lex_le_refl(a.drop_first());
    }
}

/// Any two byte strings are comparable.
pub proof fn lemma_lex_le_total(a: Seq<u8>, b: Seq<u8>)
    ensures
        lex_le(a, b) || lex_le(b, a),
    decreases a.len(),
{
    if a.len() > 0 && b.len() > 0 && a[0] == b[0] {
        lemma_lex_le_total(a.drop_first(), b.drop_first());
    }
}

/// The order is transitive.
pub proof fn lemma_lex_le_trans(a: Seq<u8>, b: Seq<u8>, c: Seq<u8>)
    requires
        lex_le(a, b),
        lex_le(b, c),
    ensures
        lex_le(a, c),
    decreases a.len(),
{
    if a.len() > 0 && b.len() > 0 && c.len() > 0 && a[0] == b[0] && b[0] == c[0] {
        lemma_lex_le_trans(a.drop_first(), b.drop_first(), c.drop_first());
    }
}

/// The order is antisymmetric: two strings ordered both ways are equal.
pub proof fn lemma_lex_le_antisym(a: Seq<u8>, b: Seq<u8>)
    requires
        lex_le(a, b),
        lex_le(b, a),
    ensures
        a == b,
    decreases a.len(),
{
    if a.len() > 0 && b.len() > 0 {
        lemma_lex_le_antisym(a.drop_first(), b.drop_first());
        assert(a =~= seq![a[0]] + a.drop_first());
        assert(b =~= seq![b[0]] + b.drop_first());
    }
}

/// Compares two byte strings lexicographically.
pub fn bytes_le(a: &[u8], b: &[u8]) -> (r: bool)
    ensures
        r == lex_le(a@, b@),
{
    let mut i: usize = 0;
    assert(a@.skip(0) =~= a@);
    assert(b@.skip(0) =~= b@);
    while i < a.len() && i < b.len()
        invariant
            i <= a.len(),
            i <= b.len(),
            forall|t: int| 0 <= t < i ==> a@[t] == b@[t],
            lex_le(a@, b@) == lex_le(a@.skip(i as int), b@.skip(i as int)),
        decreases a.len() - i,
    {
        if a[i] != b[i] {
            return a[i] < b[i];
        }
        assert(a@.skip(i as int).drop_first() =~= a@.skip(i + 1));
        assert(b@.skip(i as int).drop_first() =~= b@.skip(i + 1));
        i += 1;
    }
    i == a.len()
}

/// The spec view of a key table: each classified item's key bytes.
pub open spec fn key_view(keys: Seq<Option<Vec<u8>>>) -> Seq<Option<Seq<u8>>> {
    keys.map_values(|k: Option<Vec<u8>>| match k {
        Some(v) => Some(v@),
        None => None,
    })
}

/// The key an item classified as `Some` carries.
pub open spec fn key_of(keys: Seq<Option<Seq<u8>>>, src: usize) -> Seq<u8> {
    keys[src as int]->Some_0
}

/// The items of `s` whose key is exactly `k`, in their order in `s`.
pub open spec fn with_key(keys: Seq<Option<Seq<u8>>>, s: Seq<usize>, k: Seq<u8>) -> Seq<usize> {
    s.filter(|x: usize| key_of(keys, x) == k)
}

/// `s` lists items in non-decreasing key order.
pub open spec fn sorted_by_key(keys: Seq<Option<Seq<u8>>>, s: Seq<usize>) -> bool {
    forall|i: int, j: int|
        0 <= i < j < s.len() ==> lex_le(#[trigger] key_of(keys, s[i]), #[trigger] key_of(keys, s[j]))
}

/// `out` is the stable sort of `inp` by key: sorted, and the items that
/// share any one key appear in `out` exactly as they appear in `inp`.
pub open spec fn is_stable_sort(keys: Seq<Option<Seq<u8>>>, out: Seq<usize>, inp: Seq<usize>) -> bool {
    &&& sorted_by_key(keys, out)
    &&& forall|k: Seq<u8>| #[trigger] with_key(keys, out, k) == with_key(keys, inp, k)
}

/// The slots of `order` within `lo..hi` whose item is classified, in
/// increasing slot order.
pub open spec fn keyed_slots(order: Seq<usize>, keys: Seq<Option<Seq<u8>>>, lo: int, hi: int) -> Seq<int> {
    Seq::new((hi - lo) as nat, |j: int| lo + j).filter(|s: int| keys[order[s] as int] is Some)
}

/// The items the classified slots of `order` hold, in slot order.
pub open spec fn slot_items(order: Seq<usize>, slots: Seq<int>) -> Seq<usize> {
    slots.map_values(|s: int| order[s])
}

proof fn lemma_filter_none(s: Seq<usize>, pred: spec_fn(usize) -> bool)
    requires
        forall|i: int| 0 <= i < s.len() ==> !pred(s[i]),
    ensures
        s.filter(pred) == Seq::<usize>::empty(),
    decreases s.len(),
{
    reveal(Seq::filter);
    if s.len() > 0 {
        lemma_filter_none(s.drop_last(), pred);
    }
    assert(s.filter(pred) =~= Seq::<usize>::empty());
}

/// Inserts `x` into the key-sorted `r` after every item whose key does
/// not exceed `x`'s, keeping `r` sorted and the insertion stable.
fn insert_stable(r: &mut Vec<usize>, x: usize, keys: &[Option<Vec<u8>>])
    requires
        x < keys.len(),
        keys@[x as int] is Some,
        forall|t: int| 0 <= t < old(r).len() ==> old(r)@[t] < keys.len() && keys@[old(r)@[t] as int] is Some,
        sorted_by_key(key_view(keys@), old(r)@),
    ensures
        final(r).len() == old(r).len() + 1,
        sorted_by_key(key_view(keys@), final(r)@),
        forall|t: int| 0 <= t < final(r).len() ==> final(r)@[t] < keys.len() && keys@[final(r)@[t] as int] is Some,
        forall|k: Seq<u8>| #[trigger] with_key(key_view(keys@), final(r)@, k)
            == if k == key_of(key_view(keys@), x) { with_key(key_view(keys@), old(r)@, k).push(x) } else { with_key(key_view(keys@), old(r)@, k) },
{
    let xk = keys[x].as_ref().unwrap();
    let mut j = r.len();
    while j > 0
        invariant
            j <= r.len(),
            x < keys.len(),
            keys@[x as int] is Some,
            xk@ == key_of(key_view(keys@), x),
            forall|t: int| 0 <= t < r.len() ==> r@[t] < keys.len() && keys@[r@[t] as int] is Some,
            forall|t: int| j <= t < r.len() ==> !lex_le(#[trigger] key_of(key_view(keys@), r@[t]), key_of(key_view(keys@), x)),
        ensures
            j <= r.len(),
            forall|t: int| j <= t < r.len() ==> !lex_le(#[trigger] key_of(key_view(keys@), r@[t]), key_of(key_view(keys@), x)),
            j == 0 || lex_le(key_of(key_view(keys@), r@[j - 1]), key_of(key_view(keys@), x)),
        decreases j,
    {
        let rk = keys[r[j - 1]].as_ref().unwrap();
        if bytes_le(rk.as_slice(), xk.as_slice()) {
            break;
        }
        j -= 1;
    }
    let ghost old_r = r@;
    let ghost kx = key_of(key_view(keys@), x);
    proof {
        assert forall|t: int| 0 <= t < j implies lex_le(#[trigger] key_of(key_view(keys@), old_r[t]), kx) by {
            if t < j - 1 {
                lemma_lex_le_trans(key_of(key_view(keys@), old_r[t]), key_of(key_view(keys@), old_r[j - 1]), kx);
            }
        }
        assert forall|t: int| j <= t < old_r.len() implies lex_le(kx, #[trigger] key_of(key_view(keys@), old_r[t])) by {
            lemma_lex_le_total(kx, key_of(key_view(keys@), old_r[t]));
        }
    }
    r.insert(j, x);
    proof {
        let nr = r@;
        assert(nr =~= old_r.take(j as int) + seq![x] + old_r.skip(j as int));
        assert forall|a: int, b: int| 0 <= a < b < nr.len() implies lex_le(
            #[trigger] key_of(key_view(keys@), nr[a]),
            #[trigger] key_of(key_view(keys@), nr[b]),
        ) by {
            if b < j {
            } else if a < j && b == j {
            } else if a < j && b > j {
                assert(nr[b] == old_r[b - 1]);
                lemma_lex_le_trans(key_of(key_view(keys@), nr[a]), kx, key_of(key_view(keys@), nr[b]));
            } else if a == j {
                assert(nr[b] == old_r[b - 1]);
            } else {
                assert(nr[a] == old_r[a - 1]);
                assert(nr[b] == old_r[b - 1]);
            }
        }
        assert forall|k: Seq<u8>| #[trigger] with_key(key_view(keys@), nr, k)
            == if k == kx { with_key(key_view(keys@), old_r, k).push(x) } else { with_key(key_view(keys@), old_r, k) } by {
            let pred = |e: usize| key_of(key_view(keys@), e) == k;
            let pre = old_r.take(j as int);
            let post = old_r.skip(j as int);
            assert(old_r =~= pre + post);
            Seq::filter_distributes_over_add(pre, post, pred);
            Seq::filter_distributes_over_add(pre + seq![x], post, pred);
            Seq::filter_distributes_over_add(pre, seq![x], pred);
            assert(Seq::<usize>::empty().push(x) =~= seq![x]);
            Seq::<usize>::empty().lemma_filter_push(x, pred);
            reveal(Seq::filter);
            assert(Seq::<usize>::empty().filter(pred) =~= Seq::<usize>::empty());
            if k == kx {
                assert forall|i: int| 0 <= i < post.len() implies !pred(post[i]) by {
                    assert(post[i] == old_r[j + i]);
                    if key_of(key_view(keys@), post[i]) == k {
                        lemma_lex_le_refl(k);
                    }
                }
                lemma_filter_none(post, pred);
                assert(seq![x].filter(pred) =~= seq![x]);
                assert(with_key(key_view(keys@), nr, k) =~= pre.filter(pred).push(x));
                assert(with_key(key_view(keys@), old_r, k) =~= pre.filter(pred));
            } else {
                assert(seq![x].filter(pred) =~= Seq::<usize>::empty());
                assert(with_key(key_view(keys@), nr, k) =~= pre.filter(pred) + post.filter(pred));
            }
        }
    }
}

/// Permutes the slots of `order` within `lo..hi` in place by sorting
/// the items whose key is `Some`, stably. Items whose key is `None` pin
/// in their current slot, and slots outside `lo..hi` stay untouched.
/// `keys[i]` is the classification of item `i`. Returns `true` when the
/// classified items were out of key order, so the permutation rewrote
/// at least one slot.
pub fn permute_in_place(order: &mut Vec<usize>, keys: &[Option<Vec<u8>>], lo: usize, hi: usize) -> (changed: bool)
    requires
        lo <= hi <= old(order).len(),
        forall|s: int| lo <= s < hi ==> old(order)@[s] < keys.len(),
    ensures
        final(order).len() == old(order).len(),
        changed == !sorted_by_key(
            key_view(keys@),
            slot_items(old(order)@, keyed_slots(old(order)@, key_view(keys@), lo as int, hi as int)),
        ),
        forall|s: int|
            0 <= s < old(order).len() && !(lo <= s < hi && keys@[old(order)@[s] as int] is Some)
                ==> final(order)@[s] == old(order)@[s],
        is_stable_sort(
            key_view(keys@),
            slot_items(final(order)@, keyed_slots(old(order)@, key_view(keys@), lo as int, hi as int)),
            slot_items(old(order)@, keyed_slots(old(order)@, key_view(keys@), lo as int, hi as int)),
        ),
{
    let ghost o = order@;
    let ghost pred = |s: int| key_view(keys@)[o[s] as int] is Some;
    let ghost range = Seq::new((hi - lo) as nat, |j: int| lo + j);
    let mut slots: Vec<usize> = Vec::new();
    let mut srcs: Vec<usize> = Vec::new();
    let mut s = lo;
    while s < hi
        invariant
            lo <= s <= hi <= order.len(),
            order@ == o,
            forall|t: int| lo <= t < hi ==> o[t] < keys.len(),
            range == Seq::new((hi - lo) as nat, |j: int| lo + j),
            pred == (|s: int| key_view(keys@)[o[s] as int] is Some),
            slots@.map_values(|v: usize| v as int) == range.take(s - lo).filter(pred),
            srcs@ == slot_items(o, range.take(s - lo).filter(pred)),
            slots.len() == srcs.len(),
            forall|a: int| 0 <= a < slots.len() ==> lo <= #[trigger] slots@[a] < s,
            forall|a: int, b: int| 0 <= a < b < slots.len() ==> slots@[a] < slots@[b],
        decreases hi - s,
    {
        let ghost before = range.take(s - lo);
        assert(range.take(s - lo + 1) =~= before.push(s as int));
        proof {
            before.lemma_filter_push(s as int, pred);
        }
        if keys[order[s]].is_some() {
            slots.push(s);
            srcs.push(order[s]);
            assert(slots@.map_values(|v: usize| v as int) =~= before.filter(pred).push(s as int));
            assert(srcs@ =~= slot_items(o, before.filter(pred).push(s as int)));
        }
        s += 1;
    }
    let ghost all_slots = keyed_slots(o, key_view(keys@), lo as int, hi as int);
    assert(range.take(hi - lo) =~= range);
    assert(all_slots == range.filter(pred));
    assert(srcs@ == slot_items(o, all_slots));
    proof {
        assert forall|t: int| 0 <= t < srcs.len() implies srcs@[t] < keys.len() && keys@[srcs@[t] as int] is Some by {
            let sl = slots@[t] as int;
            assert(slots@.map_values(|v: usize| v as int)[t] == sl);
            assert(all_slots[t] == sl);
            range.lemma_filter_pred(pred, t);
            assert(srcs@[t] == o[sl]);
        }
    }
    if srcs.len() == 0 {
        assert(slot_items(order@, all_slots) =~= srcs@);
        return false;
    }
    // Already in key order: nothing moves.
    let mut sorted = true;
    let mut i: usize = 1;
    while i < srcs.len()
        invariant
            1 <= i <= srcs.len(),
            forall|t: int| 0 <= t < srcs.len() ==> srcs@[t] < keys.len() && keys@[srcs@[t] as int] is Some,
            sorted == sorted_by_key(key_view(keys@), srcs@.take(i as int)),
        decreases srcs.len() - i,
    {
        let a = keys[srcs[i - 1]].as_ref().unwrap();
        let b = keys[srcs[i]].as_ref().unwrap();
        let ghost prev = srcs@.take(i as int);
        let ghost next = srcs@.take(i + 1);
        if !bytes_le(a.as_slice(), b.as_slice()) {
            sorted = false;
            assert(!lex_le(key_of(key_view(keys@), next[i - 1]), key_of(key_view(keys@), next[i as int])));
            assert(next[i - 1] == srcs@[i - 1] && next[i as int] == srcs@[i as int]);
            assert(!sorted_by_key(key_view(keys@), next));
        } else if sorted {
            assert forall|x: int, y: int| 0 <= x < y < next.len() implies lex_le(
                #[trigger] key_of(key_view(keys@), next[x]),
                #[trigger] key_of(key_view(keys@), next[y]),
            ) by {
                if y == i {
                    if x < i - 1 {
                        assert(prev[x] == next[x] && prev[i - 1] == next[i - 1]);
                        lemma_lex_le_trans(key_of(key_view(keys@), next[x]), key_of(key_view(keys@), next[i - 1]), key_of(key_view(keys@), next[y]));
                    }
                } else {
                    assert(prev[x] == next[x] && prev[y] == next[y]);
                }
            }
        } else {
            assert forall|x: int, y: int| 0 <= x < y < prev.len() && !lex_le(
                key_of(key_view(keys@), prev[x]),
                key_of(key_view(keys@), prev[y]),
            ) implies !sorted_by_key(key_view(keys@), next) by {
                assert(prev[x] == next[x] && prev[y] == next[y]);
            }
        }
        i += 1;
    }
    assert(srcs@.take(i as int) =~= srcs@);
    if sorted {
        assert(slot_items(order@, all_slots) == srcs@);
        return false;
    }
    // Stable insertion sort of the classified items.
    let mut out: Vec<usize> = Vec::new();
    let mut k: usize = 0;
    while k < srcs.len()
        invariant
            k <= srcs.len(),
            out.len() == k,
            forall|t: int| 0 <= t < srcs.len() ==> srcs@[t] < keys.len() && keys@[srcs@[t] as int] is Some,
            forall|t: int| 0 <= t < out.len() ==> out@[t] < keys.len() && keys@[out@[t] as int] is Some,
            sorted_by_key(key_view(keys@), out@),
            forall|kk: Seq<u8>| #[trigger] with_key(key_view(keys@), out@, kk) == with_key(key_view(keys@), srcs@.take(k as int), kk),
        decreases srcs.len() - k,
    {
        let ghost prev_out = out@;
        insert_stable(&mut out, srcs[k], keys);
        proof {
            let x = srcs@[k as int];
            assert(srcs@.take(k + 1) =~= srcs@.take(k as int).push(x));
            assert forall|kk: Seq<u8>| #[trigger] with_key(key_view(keys@), out@, kk) == with_key(key_view(keys@), srcs@.take(k + 1), kk) by {
                srcs@.take(k as int).lemma_filter_push(x, |e: usize| key_of(key_view(keys@), e) == kk);
                assert(with_key(key_view(keys@), out@, kk) == if kk == key_of(key_view(keys@), x) {
                    with_key(key_view(keys@), prev_out, kk).push(x)
                } else {
                    with_key(key_view(keys@), prev_out, kk)
                });
            }
        }
        k += 1;
    }
    assert(srcs@.take(srcs.len() as int) =~= srcs@);
    // Writes the sorted items back into the classified slots.
    let mut w: usize = 0;
    while w < slots.len()
        invariant
            w <= slots.len(),
            slots.len() == srcs.len(),
            out.len() == slots.len(),
            order.len() == o.len(),
            hi <= o.len(),
            forall|a: int| 0 <= a < slots.len() ==> lo <= #[trigger] slots@[a] < hi,
            forall|a: int, b: int| 0 <= a < b < slots.len() ==> slots@[a] < slots@[b],
            forall|a: int| 0 <= a < w ==> order@[slots@[a] as int] == out@[a],
            forall|t: int| 0 <= t < o.len() && (forall|a: int| w <= a < slots.len() ==> slots@[a] != t)
                && (forall|a: int| 0 <= a < w ==> slots@[a] != t) ==> order@[t] == o[t],
            forall|a: int| w <= a < slots.len() ==> order@[slots@[a] as int] == o[slots@[a] as int],
        decreases slots.len() - w,
    {
        order.set(slots[w], out[w]);
        w += 1;
    }
    proof {
        let final_items = slot_items(order@, all_slots);
        assert forall|a: int| 0 <= a < all_slots.len() implies #[trigger] final_items[a] == out@[a] by {
            assert(slots@.map_values(|v: usize| v as int)[a] == all_slots[a]);
        }
        assert(final_items =~= out@);
        assert forall|t: int|
            0 <= t < o.len() && !(lo <= t < hi && keys@[o[t] as int] is Some) implies order@[t] == o[t] by {
            assert forall|a: int| 0 <= a < slots.len() implies slots@[a] != t by {
                let sl = slots@[a] as int;
                assert(slots@.map_values(|v: usize| v as int)[a] == sl);
                assert(all_slots[a] == sl);
                range.lemma_filter_pred(pred, a);
            }
        }
    }
    true
}

/// Sorts every item of `order`: shorthand for [`permute_in_place`]
/// over the full slot range.
pub fn permute_full(order: &mut Vec<usize>, keys: &[Option<Vec<u8>>]) -> (changed: bool)
    requires
        forall|s: int| 0 <= s < old(order).len() ==> old(order)@[s] < keys.len(),
    ensures
        final(order).len() == old(order).len(),
        changed == !sorted_by_key(
            key_view(keys@),
            slot_items(old(order)@, keyed_slots(old(order)@, key_view(keys@), 0, old(order).len() as int)),
        ),
        forall|s: int|
            0 <= s < old(order).len() && !(keys@[old(order)@[s] as int] is Some)
                ==> final(order)@[s] == old(order)@[s],
        is_stable_sort(
            key_view(keys@),
            slot_items(final(order)@, keyed_slots(old(order)@, key_view(keys@), 0, old(order).len() as int)),
            slot_items(old(order)@, keyed_slots(old(order)@, key_view(keys@), 0, old(order).len() as int)),
        ),
{
    let n = order.len();
    permute_in_place(order, keys, 0, n)
}

/// Blocks lie in source order inside the source, each spanning
/// character boundaries.
pub open spec fn blocks_fit(src: Seq<u8>, blocks: Seq<(u32, u32)>) -> bool {
    &&& forall|i: int| 0 <= i < blocks.len() ==> #[trigger] blocks[i].0 <= blocks[i].1 <= src.len()
    &&& forall|i: int| 0 <= i < blocks.len() - 1 ==> #[trigger] blocks[i].1 <= blocks[i + 1].0
    &&& forall|i: int| 0 <= i < blocks.len() ==> is_char_boundary(src, #[trigger] blocks[i].0 as int) && is_char_boundary(
        src,
        blocks[i].1 as int,
    )
}

/// The text between block `i` and block `i + 1`: the override for slot
/// `i` when one is given, the source gap otherwise.
pub open spec fn gap_after(src: Seq<u8>, blocks: Seq<(u32, u32)>, overrides: Seq<Option<String>>, i: int) -> Seq<u8> {
    match overrides[i] {
        Some(t) => encode_utf8(t@),
        None => src.subrange(blocks[i].1 as int, blocks[i + 1].0 as int),
    }
}

/// The first `n` slots assembled: each the rendered text of the block
/// the order places there, followed by the gap after that slot unless
/// it is the last.
pub open spec fn assembled(
    src: Seq<u8>,
    blocks: Seq<(u32, u32)>,
    rendered: Seq<String>,
    order: Seq<usize>,
    overrides: Seq<Option<String>>,
    n: int,
) -> Seq<u8>
    decreases n,
{
    if n <= 0 {
        Seq::empty()
    } else {
        assembled(src, blocks, rendered, order, overrides, n - 1) + encode_utf8(rendered[order[n - 1] as int]@) + (if n
            < blocks.len() {
            gap_after(src, blocks, overrides, n - 1)
        } else {
            Seq::empty()
        })
    }
}

/// Splices each rendered block at its ordered position: slot `i` takes
/// `rendered[order[i]]`, and the text between slot `i` and slot `i + 1`
/// is `overrides[i]` when given, the source gap between the blocks
/// otherwise.
pub fn assemble_blocks(
    source: &str,
    blocks: &[(u32, u32)],
    rendered: &[String],
    order: &[usize],
    overrides: &[Option<String>],
) -> (out: String)
    requires
        blocks_fit(encode_utf8(source@), blocks@),
        order.len() == blocks.len(),
        overrides.len() == blocks.len(),
        forall|i: int| 0 <= i < order.len() ==> #[trigger] order@[i] < rendered.len(),
    ensures
        encode_utf8(out@) == assembled(encode_utf8(source@), blocks@, rendered@, order@, overrides@, blocks.len() as int),
{
    let bytes = source.as_bytes();
    let ghost src = bytes@;
    let mut out: Vec<u8> = Vec::new();
    let mut i: usize = 0;
    while i < blocks.len()
        invariant
            i <= blocks.len(),
            bytes@ == src,
            src == encode_utf8(source@),
            blocks_fit(src, blocks@),
            order.len() == blocks.len(),
            overrides.len() == blocks.len(),
            forall|k: int| 0 <= k < order.len() ==> #[trigger] order@[k] < rendered.len(),
            out@ == assembled(src, blocks@, rendered@, order@, overrides@, i as int),
            valid_utf8(out@),
        decreases blocks.len() - i,
    {
        let ghost before = out@;
        let piece = rendered[order[i]].as_str().as_bytes();
        push_byte_range(&mut out, piece, 0, piece.len());
        assert(piece@.subrange(0, piece@.len() as int) =~= piece@);
        proof {
            encode_utf8_valid_utf8(rendered@[order@[i as int] as int]@);
            valid_utf8_concat(before, piece@);
        }
        if i + 1 < blocks.len() {
            let ghost mid = out@;
            match &overrides[i] {
                Some(t) => {
                    let tb = t.as_str().as_bytes();
                    push_byte_range(&mut out, tb, 0, tb.len());
                    assert(tb@.subrange(0, tb@.len() as int) =~= tb@);
                    proof {
                        encode_utf8_valid_utf8(t@);
                        valid_utf8_concat(mid, tb@);
                    }
                },
                None => {
                    let a = blocks[i].1;
                    let b = blocks[i + 1].0;
                    assert(blocks@[i as int].1 <= blocks@[i + 1].0);
                    proof {
                        encode_utf8_valid_utf8(source@);
                        lemma_valid_subrange(src, a as int, b as int);
                        valid_utf8_concat(mid, src.subrange(a as int, b as int));
                    }
                    push_byte_range(&mut out, bytes, a as usize, b as usize);
                },
            }
        } else {
            assert(out@ =~= out@ + Seq::<u8>::empty());
        }
        i += 1;
    }
    let ghost fin = out@;
    let res = string_from_utf8(out);
    proof {
        decode_utf8_encode_utf8(fin);
    }
    res
}

/// A block's text as a rule rendered it: `None` when the block came
/// through unchanged, `Some(text)` when it rewrote itself.
pub open spec fn rendered_text(src: Seq<u8>, blocks: Seq<(u32, u32)>, rendered: Seq<Option<String>>, k: int) -> Seq<u8> {
    match rendered[k] {
        Some(t) => encode_utf8(t@),
        None => src.subrange(blocks[k].0 as int, blocks[k].1 as int),
    }
}

/// Reorders sibling blocks by their keys and re-renders the span they
/// cover: each slot takes the rendered text of the block the stable
/// sort places there, and the source gaps between blocks stay in place.
/// Returns `None` when nothing moved and no block rewrote itself, the
/// span then reading as it stands.
pub fn reorder_text(
    source: &str,
    blocks: &[(u32, u32)],
    keys: &[Option<Vec<u8>>],
    rendered: &[Option<String>],
) -> (r: Option<String>)
    requires
        blocks_fit(encode_utf8(source@), blocks@),
        keys.len() == blocks.len(),
        rendered.len() == blocks.len(),
    ensures
        blocks.len() == 0 ==> r is None,
        blocks.len() > 0 ==> {
            let n = blocks.len() as int;
            let ident = Seq::new(n as nat, |i: int| i as usize);
            let slots = keyed_slots(ident, key_view(keys@), 0, n);
            let moved = !sorted_by_key(key_view(keys@), slot_items(ident, slots));
            let rewrote = exists|k: int| 0 <= k < n && #[trigger] rendered@[k] is Some;
            &&& (!moved && !rewrote) <==> r is None
            &&& r matches Some(t) ==> exists|order: Seq<usize>|
                #![trigger is_stable_sort(key_view(keys@), slot_items(order, slots), slot_items(ident, slots))]
                order.len() == n && (forall|s: int| 0 <= s < n && !(#[trigger] keys@[s] is Some) ==> order[s] == s)
                    && is_stable_sort(key_view(keys@), slot_items(order, slots), slot_items(ident, slots))
                    && encode_utf8(t@) == assembled_rendered(
                    encode_utf8(source@),
                    blocks@,
                    rendered@,
                    order,
                    n,
                )
        },
{
    if blocks.len() == 0 {
        return None;
    }
    let n = blocks.len();
    let mut order: Vec<usize> = Vec::new();
    let mut i: usize = 0;
    while i < n
        invariant
            i <= n,
            order@ == Seq::new(i as nat, |j: int| j as usize),
        decreases n - i,
    {
        order.push(i);
        assert(order@ =~= Seq::new((i + 1) as nat, |j: int| j as usize));
        i += 1;
    }
    let ghost ident = order@;
    let moved = permute_full(&mut order, keys);
    let mut rewrote = false;
    let mut k: usize = 0;
    while k < n
        invariant
            k <= n == rendered.len(),
            rewrote == exists|j: int| 0 <= j < k && #[trigger] rendered@[j] is Some,
        decreases n - k,
    {
        if rendered[k].is_some() {
            rewrote = true;
        }
        k += 1;
    }
    if !moved && !rewrote {
        return None;
    }
    let bytes = source.as_bytes();
    let ghost src = bytes@;
    let mut texts: Vec<String> = Vec::new();
    let mut j: usize = 0;
    proof {
        encode_utf8_valid_utf8(source@);
    }
    while j < n
        invariant
            j <= n == blocks.len() == rendered.len(),
            bytes@ == src,
            src == encode_utf8(source@),
            valid_utf8(src),
            blocks_fit(src, blocks@),
            texts.len() == j,
            forall|q: int| 0 <= q < j ==> encode_utf8(#[trigger] texts@[q]@) == rendered_text(src, blocks@, rendered@, q),
        decreases n - j,
    {
        match &rendered[j] {
            Some(t) => {
                let mut c = String::new();
                crate::text::push_str(&mut c, t.as_str());
                texts.push(c);
            },
            None => {
                let (a, b) = blocks[j];
                assert(blocks@[j as int].0 <= blocks@[j as int].1 <= src.len());
                proof {
                    lemma_valid_subrange(src, a as int, b as int);
                }
                let mut piece: Vec<u8> = Vec::new();
                push_byte_range(&mut piece, bytes, a as usize, b as usize);
                assert(piece@ =~= src.subrange(a as int, b as int));
                let ghost pb = piece@;
                let c = string_from_utf8(piece);
                proof {
                    decode_utf8_encode_utf8(pb);
                }
                texts.push(c);
            },
        }
        j += 1;
    }
    let mut none_overrides: Vec<Option<String>> = Vec::new();
    let mut q: usize = 0;
    while q < n
        invariant
            q <= n,
            none_overrides.len() == q,
            forall|t: int| 0 <= t < q ==> #[trigger] none_overrides@[t] is None,
        decreases n - q,
    {
        none_overrides.push(None);
        q += 1;
    }
    proof {
        assert forall|t: int| 0 <= t < order.len() implies #[trigger] order@[t] < texts.len() by {
            lemma_order_in_range(order@, ident, keys@, t);
        }
    }
    let out = assemble_blocks(source, blocks, texts.as_slice(), order.as_slice(), none_overrides.as_slice());
    proof {
        lemma_assembled_rendered(src, blocks@, texts@, rendered@, order@, none_overrides@, n as int);
    }
    Some(out)
}

/// The blocks assembled in `order` from their rendered texts, with the
/// source gaps between them.
pub open spec fn assembled_rendered(
    src: Seq<u8>,
    blocks: Seq<(u32, u32)>,
    rendered: Seq<Option<String>>,
    order: Seq<usize>,
    n: int,
) -> Seq<u8>
    decreases n,
{
    if n <= 0 {
        Seq::empty()
    } else {
        assembled_rendered(src, blocks, rendered, order, n - 1) + rendered_text(src, blocks, rendered, order[n - 1] as int)
            + (if n < blocks.len() {
            src.subrange(blocks[n - 1].1 as int, blocks[n].0 as int)
        } else {
            Seq::empty()
        })
    }
}

proof fn lemma_assembled_rendered(
    src: Seq<u8>,
    blocks: Seq<(u32, u32)>,
    texts: Seq<String>,
    rendered: Seq<Option<String>>,
    order: Seq<usize>,
    overrides: Seq<Option<String>>,
    n: int,
)
    requires
        0 <= n <= blocks.len(),
        overrides.len() == blocks.len(),
        forall|t: int| 0 <= t < overrides.len() ==> #[trigger] overrides[t] is None,
        forall|t: int| 0 <= t < n ==> #[trigger] order[t] < texts.len(),
        forall|q: int| 0 <= q < texts.len() ==> encode_utf8(#[trigger] texts[q]@) == rendered_text(src, blocks, rendered, q),
    ensures
        assembled(src, blocks, texts, order, overrides, n) == assembled_rendered(src, blocks, rendered, order, n),
    decreases n,
{
    if n > 0 {
        lemma_assembled_rendered(src, blocks, texts, rendered, order, overrides, n - 1);
        assert(encode_utf8(texts[order[n - 1] as int]@) == rendered_text(src, blocks, rendered, order[n - 1] as int));
    }
}

/// After a stable sort of the classified slots of the identity order,
/// every slot still holds an item index below the item count.
proof fn lemma_order_in_range(order: Seq<usize>, ident: Seq<usize>, keys: Seq<Option<Vec<u8>>>, t: int)
    requires
        ident == Seq::new(ident.len(), |j: int| j as usize),
        order.len() == ident.len() == keys.len(),
        forall|s: int| 0 <= s < ident.len() && !(keys[ident[s] as int] is Some) ==> order[s] == ident[s],
        is_stable_sort(
            key_view(keys),
            slot_items(order, keyed_slots(ident, key_view(keys), 0, ident.len() as int)),
            slot_items(ident, keyed_slots(ident, key_view(keys), 0, ident.len() as int)),
        ),
        0 <= t < ident.len(),
    ensures
        order[t] < ident.len(),
{
    let n = ident.len() as int;
    let kv = key_view(keys);
    if keys[ident[t] as int] is Some {
        let range = Seq::new(n as nat, |j: int| 0 + j);
        let pred_s = |s: int| kv[ident[s] as int] is Some;
        let slots = keyed_slots(ident, kv, 0, n);
        assert(slots == range.filter(pred_s));
        assert(range[t] == t);
        assert(kv[ident[t] as int] is Some);
        range.lemma_filter_contains(pred_s, t);
        let idx = choose|idx: int| 0 <= idx < slots.len() && slots[idx] == t;
        let out = slot_items(order, slots);
        let inp = slot_items(ident, slots);
        let x = out[idx];
        assert(x == order[t]);
        let kx = key_of(kv, x);
        let pred_k = |y: usize| key_of(kv, y) == kx;
        assert(with_key(kv, out, kx) == out.filter(pred_k));
        out.lemma_filter_contains(pred_k, idx);
        assert(with_key(kv, out, kx) == with_key(kv, inp, kx));
        inp.lemma_filter_contains_rev(pred_k, x);
        let m = choose|m: int| 0 <= m < inp.len() && inp[m] == x;
        assert(slots.contains(slots[m]));
        range.lemma_filter_contains_rev(pred_s, slots[m]);
        let r = choose|r: int| 0 <= r < range.len() && range[r] == slots[m];
        assert(inp[m] == ident[slots[m]]);
    }
}


/// The comments, of `cs`, lying wholly inside `lo..hi`, in order.
pub open spec fn comments_within(cs: Seq<(u32, u32)>, lo: int, hi: int, n: int) -> Seq<(u32, u32)>
    decreases n,
{
    if n <= 0 {
        Seq::empty()
    } else {
        let r = comments_within(cs, lo, hi, n - 1);
        if lo <= cs[n - 1].0 && cs[n - 1].1 <= hi {
            r.push(cs[n - 1])
        } else {
            r
        }
    }
}

/// Walks back from the attachment point `current` through the comments
/// `cs[..k]`, last first: each own-line comment whose line ends exactly
/// at `current` moves it to that comment's line start; the first other
/// comment stops the walk.
pub open spec fn attach_back(b: Seq<u8>, cs: Seq<(u32, u32)>, k: int, current: int) -> int
    decreases k,
{
    if k <= 0 {
        current
    } else {
        let c = cs[k - 1].0 as int;
        if !is_own_line(b, c) || full_line_end(b, c) != current {
            current
        } else {
            attach_back(b, cs, k - 1, line_start(b, c))
        }
    }
}

/// Where an item starting at `item_start` begins once the own-line
/// comments directly above it (no blank line between) are attached,
/// looking no further back than `lower`.
pub open spec fn attached_start(b: Seq<u8>, comments: Seq<(u32, u32)>, item_start: int, lower: int) -> int {
    let current = line_start(b, item_start);
    if lower > current {
        item_start
    } else {
        let cs = comments_within(comments, lower, current, comments.len() as int);
        attach_back(b, cs, cs.len() as int, current)
    }
}

/// Comments lie inside the source and each starts no later than it ends.
pub open spec fn comments_fit(b: Seq<u8>, comments: Seq<(u32, u32)>) -> bool {
    forall|i: int| 0 <= i < comments.len() ==> #[trigger] comments[i].0 <= comments[i].1 <= b.len()
}

/// Returns where the item starting at `item_start` begins once the
/// comments attached above it are included; see [`attached_start`].
/// `comments` are the source's comment ranges in source order.
pub fn leading_attached_start(source: &[u8], comments: &[(u32, u32)], item_start: u32, lower: u32) -> (r: u32)
    requires
        item_start <= source.len() <= u32::MAX,
        comments_fit(source@, comments@),
    ensures
        r == attached_start(source@, comments@, item_start as int, lower as int),
{
    let current0 = line_start_of(source, item_start);
    if lower > current0 {
        return item_start;
    }
    let mut within: Vec<(u32, u32)> = Vec::new();
    let mut i: usize = 0;
    while i < comments.len()
        invariant
            i <= comments.len(),
            within@ == comments_within(comments@, lower as int, current0 as int, i as int),
        decreases comments.len() - i,
    {
        let c = comments[i];
        if lower <= c.0 && c.1 <= current0 {
            within.push(c);
        }
        i += 1;
    }
    let ghost cs = within@;
    proof {
        assert forall|m: int| 0 <= m < comments@.len() implies #[trigger] comments@[m].0 <= comments@[m].1 by {}
        assert forall|j: int| 0 <= j < cs.len() implies #[trigger] cs[j].0 <= cs[j].1 <= current0 by {
            lemma_within_bounded(comments@, lower as int, current0 as int, comments@.len() as int, j);
        }
    }
    let mut current = current0;
    let mut k = within.len();
    while k > 0
        invariant
            k <= within.len(),
            within@ == cs,
            cs == comments_within(comments@, lower as int, current0 as int, comments@.len() as int),
            current0 == line_start(source@, item_start as int),
            lower <= current0,
            current <= current0 <= item_start <= source.len() <= u32::MAX,
            forall|j: int| 0 <= j < cs.len() ==> #[trigger] cs[j].0 <= cs[j].1 <= current0,
            attach_back(source@, cs, cs.len() as int, current0 as int) == attach_back(source@, cs, k as int, current as int),
        decreases k,
    {
        let c = within[k - 1].0;
        assert(c == cs[k - 1].0);
        if !own_line(source, c) || full_line_end_of(source, c) != current {
            assert(attach_back(source@, cs, k as int, current as int) == current);
            return current;
        }
        current = line_start_of(source, c);
        k -= 1;
    }
    current
}

proof fn lemma_within_bounded(cs: Seq<(u32, u32)>, lo: int, hi: int, n: int, j: int)
    requires
        0 <= n <= cs.len(),
        0 <= j < comments_within(cs, lo, hi, n).len(),
        forall|m: int| 0 <= m < cs.len() ==> #[trigger] cs[m].0 <= cs[m].1,
    ensures
        lo <= comments_within(cs, lo, hi, n)[j].0 <= comments_within(cs, lo, hi, n)[j].1,
        comments_within(cs, lo, hi, n)[j].1 <= hi,
    decreases n,
{
    if n > 0 {
        let r = comments_within(cs, lo, hi, n - 1);
        if j < r.len() {
            lemma_within_bounded(cs, lo, hi, n - 1, j);
        }
    }
}

/// The extent of item `i`, of the source-ordered `items` inside
/// `outer`: from its attached start (bounded below by the previous
/// item's end, or the outer start) to the end of its last line (bounded
/// above by the next item's start, or the outer end).
pub open spec fn block_extent(
    b: Seq<u8>,
    comments: Seq<(u32, u32)>,
    items: Seq<(u32, u32)>,
    i: int,
    outer: (u32, u32),
) -> (int, int) {
    let lower = if i == 0 { outer.0 as int } else { items[i - 1].1 as int };
    let upper = if i + 1 < items.len() { items[i + 1].0 as int } else { outer.1 as int };
    let e = line_end(b, items[i].1 as int);
    (attached_start(b, comments, items[i].0 as int, lower), if e < upper { e } else { upper })
}

/// Returns the source extent of `items[i]`; see [`block_extent`].
pub fn block_range(
    source: &[u8],
    comments: &[(u32, u32)],
    items: &[(u32, u32)],
    i: usize,
    outer: (u32, u32),
) -> (r: (u32, u32))
    requires
        i < items.len(),
        items@[i as int].0 <= items@[i as int].1 <= source.len() <= u32::MAX,
        comments_fit(source@, comments@),
    ensures
        r.0 == block_extent(source@, comments@, items@, i as int, outer).0,
        r.1 == block_extent(source@, comments@, items@, i as int, outer).1,
{
    let item = items[i];
    let lower = if i == 0 {
        outer.0
    } else {
        items[i - 1].1
    };
    let upper = if i + 1 < items.len() {
        items[i + 1].0
    } else {
        outer.1
    };
    let start = leading_attached_start(source, comments, item.0, lower);
    let e = line_end_of(source, item.1);
    (start, if e < upper {
        e
    } else {
        upper
    })
}

/// The span from the first block's start to the last block's end.
pub fn blocks_span(blocks: &[(u32, u32)]) -> (r: (u32, u32))
    requires
        blocks.len() > 0,
    ensures
        r == (blocks@[0].0, blocks@[blocks.len() - 1].1),
{
    (blocks[0].0, blocks[blocks.len() - 1].1)
}

} // verus!
