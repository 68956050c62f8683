//! Text edits and their application. An [`Edit`] replaces the byte
//! range `start..end` of a source text with optional new content.
//! `apply_edits` splices a set of non-overlapping edits into a text,
//! the transform the pipeline runs between rules, and `narrow_edit`
//! trims a candidate replacement to its minimal divergent range.

use vstd::prelude::*;
use vstd::utf8::*;

use crate::orderer::{bytes_le, lemma_lex_le_refl, lemma_lex_le_total, lemma_lex_le_trans, lex_le};
use crate::text::{chars_of, lemma_valid_subrange, push_byte_range, string_from_chars, string_from_utf8};

verus! {

broadcast use {valid_utf8_concat, encode_utf8_valid_utf8, decode_utf8_encode_utf8, encode_utf8_decode_utf8};

/// A replacement of the source bytes `start..end` with `content`. A
/// `None` content deletes the range; an empty range inserts.
pub struct Edit {
    pub start: u32,
    pub end: u32,
    pub content: Option<String>,
}

/// The bytes an edit writes in place of its range.
pub open spec fn content_bytes(e: Edit) -> Seq<u8> {
    match e.content {
        Some(s) => encode_utf8(s@),
        None => Seq::empty(),
    }
}

impl Edit {
    /// An edit inserting `content` at `at`.
    pub fn insertion(content: String, at: u32) -> (e: Edit)
        ensures
            e.start == at && e.end == at,
            e.content == Some(content),
    {
        Edit { start: at, end: at, content: Some(content) }
    }

    /// An edit deleting the range `start..end`.
    pub fn range_deletion(start: u32, end: u32) -> (e: Edit)
        requires
            start <= end,
        ensures
            e.start == start && e.end == end && e.content is None,
    {
        Edit { start, end, content: None }
    }

    /// An edit replacing the range `start..end` with `content`.
    pub fn range_replacement(content: String, start: u32, end: u32) -> (e: Edit)
        requires
            start <= end,
        ensures
            e.start == start && e.end == end,
            e.content == Some(content),
    {
        Edit { start, end, content: Some(content) }
    }

    /// The replacement text, `None` for a deletion.
    pub fn content(&self) -> (c: Option<&str>)
        ensures
            match self.content {
                Some(s) => c is Some && c->Some_0@ == s@,
                None => c is None,
            },
    {
        match &self.content {
            Some(s) => Some(s.as_str()),
            None => None,
        }
    }
}

/// Edit order: by start, then end, then content, where a deletion
/// sorts before any content and contents compare bytewise.
pub open spec fn edit_le(a: Edit, b: Edit) -> bool {
    ||| a.start < b.start
    ||| a.start == b.start && a.end < b.end
    ||| a.start == b.start && a.end == b.end && match (a.content, b.content) {
        (None, _) => true,
        (Some(_), None) => false,
        (Some(x), Some(y)) => lex_le(encode_utf8(x@), encode_utf8(y@)),
    }
}

proof fn lemma_edit_le_total(a: Edit, b: Edit)
    ensures
        edit_le(a, b) || edit_le(b, a),
{
    if let (Some(x), Some(y)) = (a.content, b.content) {
        lemma_lex_le_total(encode_utf8(x@), encode_utf8(y@));
    }
}

proof fn lemma_edit_le_trans(a: Edit, b: Edit, c: Edit)
    requires
        edit_le(a, b),
        edit_le(b, c),
    ensures
        edit_le(a, c),
{
    if let (Some(x), Some(y), Some(z)) = (a.content, b.content, c.content) {
        if a.start == c.start && a.end == c.end {
            lemma_lex_le_trans(encode_utf8(x@), encode_utf8(y@), encode_utf8(z@));
        }
    }
}

/// Two edits touch disjoint byte ranges (an insertion at the boundary
/// of a range does not overlap it).
pub open spec fn disjoint(a: Edit, b: Edit) -> bool {
    a.end <= b.start || b.end <= a.start
}

/// `edits` can be spliced into `text`: every range lies in the text
/// with both ends on character boundaries, and no two edits overlap.
pub open spec fn edits_fit(text: Seq<u8>, edits: Seq<Edit>) -> bool {
    &&& forall|i: int|
        0 <= i < edits.len() ==> {
            &&& #[trigger] edits[i].start <= edits[i].end <= text.len()
            &&& is_char_boundary(text, edits[i].start as int)
            &&& is_char_boundary(text, edits[i].end as int)
        }
    &&& forall|i: int, j: int| 0 <= i < edits.len() && 0 <= j < edits.len() && i != j ==> disjoint(#[trigger] edits[i], #[trigger] edits[j])
}

/// The text `text` with the sorted edits `es` spliced in from byte
/// `cursor` on: the untouched span before each edit, then its content.
pub open spec fn splice(text: Seq<u8>, es: Seq<Edit>, cursor: int) -> Seq<u8>
    decreases es.len(),
{
    if es.len() == 0 {
        text.subrange(cursor, text.len() as int)
    } else {
        text.subrange(cursor, es[0].start as int) + content_bytes(es[0]) + splice(text, es.drop_first(), es[0].end as int)
    }
}

/// `p` lists every index of `0..n` exactly once.
pub open spec fn is_index_permutation(p: Seq<usize>, n: nat) -> bool {
    &&& p.len() == n
    &&& forall|i: int| 0 <= i < p.len() ==> #[trigger] p[i] < n
    &&& forall|i: int, j: int| 0 <= i < j < p.len() ==> #[trigger] p[i] != #[trigger] p[j]
}

/// The edits listed by `p`, in `p`'s order.
pub open spec fn permuted(edits: Seq<Edit>, p: Seq<usize>) -> Seq<Edit> {
    p.map_values(|i: usize| edits[i as int])
}

/// `es` is in non-decreasing edit order.
pub open spec fn sorted_edits(es: Seq<Edit>) -> bool {
    forall|i: int, j: int| 0 <= i < j < es.len() ==> edit_le(#[trigger] es[i], #[trigger] es[j])
}

fn content_le(a: &Option<String>, b: &Option<String>) -> (r: bool)
    ensures
        r == match (*a, *b) {
            (None, _) => true,
            (Some(_), None) => false,
            (Some(x), Some(y)) => lex_le(encode_utf8(x@), encode_utf8(y@)),
        },
{
    match (a, b) {
        (None, _) => true,
        (Some(_), None) => false,
        (Some(x), Some(y)) => bytes_le(x.as_str().as_bytes(), y.as_str().as_bytes()),
    }
}

fn edit_le_exec(a: &Edit, b: &Edit) -> (r: bool)
    ensures
        r == edit_le(*a, *b),
{
    a.start < b.start || (a.start == b.start && (a.end < b.end || (a.end == b.end && content_le(&a.content, &b.content))))
}

/// Sorts the indices of `edits` into edit order.
fn sorted_order(edits: &Vec<Edit>) -> (p: Vec<usize>)
    ensures
        is_index_permutation(p@, edits.len() as nat),
        sorted_edits(permuted(edits@, p@)),
{
    let mut p: Vec<usize> = Vec::new();
    let mut i: usize = 0;
    while i < edits.len()
        invariant
            i <= edits.len(),
            p.len() == i,
            forall|t: int| 0 <= t < p.len() ==> #[trigger] p@[t] < i,
            forall|a: int, b: int| 0 <= a < b < p.len() ==> #[trigger] p@[a] != #[trigger] p@[b],
            sorted_edits(permuted(edits@, p@)),
        decreases edits.len() - i,
    {
        let mut j = p.len();
        while j > 0
            invariant
                j <= p.len(),
                i < edits.len(),
                forall|t: int| 0 <= t < p.len() ==> #[trigger] p@[t] < i,
                forall|t: int| j <= t < p.len() ==> !edit_le(edits@[#[trigger] p@[t] as int], edits@[i as int]),
            ensures
                j <= p.len(),
                forall|t: int| j <= t < p.len() ==> !edit_le(edits@[#[trigger] p@[t] as int], edits@[i as int]),
                j == 0 || edit_le(edits@[p@[j - 1] as int], edits@[i as int]),
            decreases j,
        {
            if edit_le_exec(&edits[p[j - 1]], &edits[i]) {
                break;
            }
            j -= 1;
        }
        let ghost old_p = p@;
        let ghost x = edits@[i as int];
        proof {
            let olde = permuted(edits@, old_p);
            assert forall|t: int| 0 <= t < j implies edit_le(#[trigger] edits@[old_p[t] as int], x) by {
                if t < j - 1 {
                    assert(olde[t] == edits@[old_p[t] as int]);
                    assert(olde[j - 1] == edits@[old_p[j - 1] as int]);
                    lemma_edit_le_trans(edits@[old_p[t] as int], edits@[old_p[j - 1] as int], x);
                }
            }
            assert forall|t: int| j <= t < old_p.len() implies edit_le(x, #[trigger] edits@[old_p[t] as int]) by {
                lemma_edit_le_total(x, edits@[old_p[t] as int]);
            }
        }
        p.insert(j, i);
        proof {
            let np = p@;
            let ne = permuted(edits@, np);
            let olde = permuted(edits@, old_p);
            assert(np =~= old_p.take(j as int) + seq![i] + old_p.skip(j as int));
            assert forall|a: int, b: int| 0 <= a < b < ne.len() implies edit_le(#[trigger] ne[a], #[trigger] ne[b]) by {
                if b < j {
                    assert(ne[a] == olde[a] && ne[b] == olde[b]);
                } else if a < j && b == j {
                    assert(ne[a] == edits@[old_p[a] as int]);
                } else if a < j && b > j {
                    assert(ne[a] == edits@[old_p[a] as int]);
                    assert(ne[b] == edits@[old_p[b - 1] as int]);
                    lemma_edit_le_trans(ne[a], x, ne[b]);
                } else if a == j {
                    assert(ne[b] == edits@[old_p[b - 1] as int]);
                } else {
                    assert(ne[a] == olde[a - 1] && ne[b] == olde[b - 1]);
                }
            }
            assert forall|a: int, b: int| 0 <= a < b < np.len() implies #[trigger] np[a] != #[trigger] np[b] by {
                if a < j && b > j {
                    assert(np[b] == old_p[b - 1]);
                } else if a > j {
                    assert(np[a] == old_p[a - 1] && np[b] == old_p[b - 1]);
                } else if a == j {
                    assert(np[b] == old_p[b - 1]);
                }
            }
        }
        i += 1;
    }
    p
}

/// In a sorted list of pairwise-disjoint edits, each edit ends at or
/// before the start of the next.
proof fn lemma_sorted_disjoint_adjacent(a: Edit, b: Edit)
    requires
        edit_le(a, b),
        a.start <= a.end,
        b.start <= b.end,
        disjoint(a, b),
    ensures
        a.end <= b.start,
{
}

/// Splices `edits` into `text` and returns the resulting string. The
/// edits apply in edit order (start, then end, then content); the
/// untouched spans between them are copied through verbatim.
pub fn apply_edits(text: &str, edits: Vec<Edit>) -> (out: String)
    requires
        encode_utf8(text@).len() <= u32::MAX,
        edits_fit(encode_utf8(text@), edits@),
    ensures
        exists|p: Seq<usize>|
            is_index_permutation(p, edits.len() as nat) && sorted_edits(permuted(edits@, p)) && encode_utf8(out@)
                == splice(encode_utf8(text@), permuted(edits@, p), 0),
{
    let bytes = text.as_bytes();
    let ghost tb = bytes@;
    let p = sorted_order(&edits);
    let ghost es = permuted(edits@, p@);
    proof {
        is_char_boundary_start_end_of_seq(tb);
        assert forall|t: int| 0 <= t < es.len() - 1 implies es[t].end <= es[t + 1].start by {
            assert(es[t] == edits@[p@[t] as int] && es[t + 1] == edits@[p@[t + 1] as int]);
            assert(p@[t] != p@[t + 1]);
            lemma_sorted_disjoint_adjacent(es[t], es[t + 1]);
        }
    }
    let mut out: Vec<u8> = Vec::new();
    let mut cursor: usize = 0;
    let mut k: usize = 0;
    assert(es.skip(0) =~= es);
    assert(out@ + splice(tb, es, 0) =~= splice(tb, es, 0));
    while k < p.len()
        invariant
            k <= p.len(),
            p.len() == edits.len(),
            bytes@ == tb,
            tb == encode_utf8(text@),
            valid_utf8(tb),
            tb.len() <= u32::MAX,
            edits_fit(tb, edits@),
            is_index_permutation(p@, edits.len() as nat),
            es == permuted(edits@, p@),
            forall|t: int| 0 <= t < es.len() - 1 ==> es[t].end <= es[t + 1].start,
            cursor <= tb.len(),
            is_char_boundary(tb, cursor as int),
            k > 0 ==> cursor == es[k - 1].end,
            k == 0 ==> cursor == 0,
            valid_utf8(out@),
            out@ + splice(tb, es.skip(k as int), cursor as int) == splice(tb, es, 0),
        decreases p.len() - k,
    {
        let e = &edits[p[k]];
        assert(es[k as int] == edits@[p@[k as int] as int]);
        let s = e.start as usize;
        let en = e.end as usize;
        let ghost idx = p@[k as int] as int;
        assert(0 <= idx < edits.len());
        assert(edits@[idx].start <= edits@[idx].end <= tb.len());
        assert(is_char_boundary(tb, edits@[idx].start as int) && is_char_boundary(tb, edits@[idx].end as int));
        assert(s as int == edits@[idx].start);
        assert(es[k as int] == edits@[idx]);
        if k > 0 {
            assert(es[k - 1].end <= es[(k - 1) + 1].start);
            assert(cursor as int <= s);
        }
        assert(cursor as int <= s);
        assert(s <= tb.len());
        proof {
            lemma_valid_subrange(tb, cursor as int, s as int);
            assert(es.skip(k as int)[0] == es[k as int]);
            assert(es.skip(k as int).drop_first() =~= es.skip(k + 1));
        }
        let ghost before = out@;
        push_byte_range(&mut out, bytes, cursor, s);
        match &e.content {
            Some(c) => {
                let cb = c.as_str().as_bytes();
                push_byte_range(&mut out, cb, 0, cb.len());
                assert(cb@.subrange(0, cb@.len() as int) =~= cb@);
            }
            None => {}
        }
        proof {
            assert(out@ =~= before + tb.subrange(cursor as int, s as int) + content_bytes(es[k as int]));
            assert(valid_utf8(content_bytes(es[k as int])));
            valid_utf8_concat(before, tb.subrange(cursor as int, s as int));
            valid_utf8_concat(before + tb.subrange(cursor as int, s as int), content_bytes(es[k as int]));
        }
        cursor = en;
        k += 1;
    }
    proof {
        assert(es.skip(k as int) =~= Seq::<Edit>::empty());
        lemma_valid_subrange(tb, cursor as int, tb.len() as int);
    }
    push_byte_range(&mut out, bytes, cursor, bytes.len());
    let ghost final_bytes = out@;
    let res = string_from_utf8(out);
    assert(encode_utf8(res@) == final_bytes);
    res
}

/// An edit falls inside the window `rs..re`: it starts within it and
/// ends no later than its end.
pub open spec fn inside(e: Edit, rs: int, re: int) -> bool {
    rs <= e.start && e.start <= re && e.end <= re
}

/// The edits of `es[..n]` that fall inside `rs..re`, in order.
pub open spec fn inside_edits(es: Seq<Edit>, rs: int, re: int, n: int) -> Seq<Edit>
    decreases n,
{
    if n <= 0 {
        Seq::empty()
    } else if inside(es[n - 1], rs, re) {
        inside_edits(es, rs, re, n - 1).push(es[n - 1])
    } else {
        inside_edits(es, rs, re, n - 1)
    }
}

/// The bytes written by splicing the edits `ins` into `text` from byte
/// `rs` on, paired with the byte where copying resumes: for each edit,
/// the untouched span up to its start, then its content.
pub open spec fn spliced(text: Seq<u8>, ins: Seq<Edit>, rs: int) -> (Seq<u8>, int)
    decreases ins.len(),
{
    if ins.len() == 0 {
        (Seq::empty(), rs)
    } else {
        let (o, c) = spliced(text, ins.drop_last(), rs);
        (o + text.subrange(c, ins.last().start as int) + content_bytes(ins.last()), ins.last().end as int)
    }
}

/// The window `rs..re` of `text` with the edits inside it spliced in.
pub open spec fn window_text(text: Seq<u8>, es: Seq<Edit>, rs: int, re: int) -> Seq<u8> {
    let (o, c) = spliced(text, inside_edits(es, rs, re, es.len() as int), rs);
    o + text.subrange(c, re)
}

/// What splicing into the window needs: edits in start order, the
/// window and every edit inside it on character boundaries, and no two
/// edits inside it overlapping.
pub open spec fn window_fits(text: Seq<u8>, es: Seq<Edit>, rs: int, re: int) -> bool {
    &&& 0 <= rs <= re <= text.len()
    &&& is_char_boundary(text, rs) && is_char_boundary(text, re)
    &&& forall|i: int, j: int| 0 <= i < j < es.len() ==> #[trigger] es[i].start <= #[trigger] es[j].start
    &&& forall|i: int|
        0 <= i < es.len() && inside(#[trigger] es[i], rs, re) ==> es[i].start <= es[i].end && is_char_boundary(
            text,
            es[i].start as int,
        ) && is_char_boundary(text, es[i].end as int)
    &&& forall|i: int, j: int|
        0 <= i < j < es.len() && inside(#[trigger] es[i], rs, re) && inside(#[trigger] es[j], rs, re) ==> es[i].end
            <= es[j].start
}

proof fn lemma_inside_last(es: Seq<Edit>, rs: int, re: int, n: int)
    requires
        0 <= n <= es.len(),
        inside_edits(es, rs, re, n).len() > 0,
    ensures
        exists|j: int| 0 <= j < n && inside(es[j], rs, re) && #[trigger] es[j] == inside_edits(es, rs, re, n).last(),
    decreases n,
{
    if !inside(es[n - 1], rs, re) {
        lemma_inside_last(es, rs, re, n - 1);
    }
}

/// Folds the edits falling inside `rs..re` into that window of `text`.
/// `None` when no edit falls inside, the window's own text standing.
/// `edits` are in start order.
pub fn apply_inline_edits(text: &str, rs: u32, re: u32, edits: &[Edit]) -> (r: Option<String>)
    requires
        window_fits(encode_utf8(text@), edits@, rs as int, re as int),
    ensures
        r is None <==> inside_edits(edits@, rs as int, re as int, edits@.len() as int).len() == 0,
        r matches Some(t) ==> encode_utf8(t@) == window_text(encode_utf8(text@), edits@, rs as int, re as int),
{
    let bytes = text.as_bytes();
    let ghost tb = bytes@;
    let ghost es = edits@;
    let mut out: Vec<u8> = Vec::new();
    let mut cursor: u32 = rs;
    let mut any = false;
    let mut i: usize = 0;
    while i < edits.len()
        invariant
            i <= edits.len(),
            bytes@ == tb,
            tb == encode_utf8(text@),
            es == edits@,
            valid_utf8(tb),
            window_fits(tb, es, rs as int, re as int),
            any <==> inside_edits(es, rs as int, re as int, i as int).len() > 0,
            out@ == spliced(tb, inside_edits(es, rs as int, re as int, i as int), rs as int).0,
            cursor == spliced(tb, inside_edits(es, rs as int, re as int, i as int), rs as int).1,
            rs <= cursor <= re,
            is_char_boundary(tb, cursor as int),
            cursor == rs || exists|j: int| 0 <= j < i && inside(#[trigger] es[j], rs as int, re as int) && cursor == es[j].end,
            valid_utf8(out@),
        decreases edits.len() - i,
    {
        let e = &edits[i];
        let ghost prev = inside_edits(es, rs as int, re as int, i as int);
        if rs <= e.start && e.start <= re && e.end <= re {
            assert(inside(es[i as int], rs as int, re as int));
            proof {
                if cursor != rs {
                    let j = choose|j: int| 0 <= j < i && inside(#[trigger] es[j], rs as int, re as int) && cursor == es[j].end;
                    assert(es[j].end <= es[i as int].start);
                }
            }
            assert(cursor <= e.start);
            proof {
                lemma_valid_subrange(tb, cursor as int, e.start as int);
                let next = inside_edits(es, rs as int, re as int, i + 1);
                assert(next == prev.push(es[i as int]));
                assert(next.drop_last() =~= prev);
            }
            let ghost before = out@;
            push_byte_range(&mut out, bytes, cursor as usize, e.start as usize);
            match &e.content {
                Some(c) => {
                    let cb = c.as_str().as_bytes();
                    push_byte_range(&mut out, cb, 0, cb.len());
                    assert(cb@.subrange(0, cb@.len() as int) =~= cb@);
                },
                None => {},
            }
            proof {
                assert(out@ =~= before + tb.subrange(cursor as int, e.start as int) + content_bytes(es[i as int]));
                assert(valid_utf8(content_bytes(es[i as int])));
                valid_utf8_concat(before, tb.subrange(cursor as int, e.start as int));
                valid_utf8_concat(before + tb.subrange(cursor as int, e.start as int), content_bytes(es[i as int]));
            }
            cursor = e.end;
            any = true;
        } else {
            assert(!inside(es[i as int], rs as int, re as int));
        }
        i += 1;
    }
    if !any {
        return None;
    }
    proof {
        lemma_valid_subrange(tb, cursor as int, re as int);
        assert(es.len() == edits@.len());
    }
    push_byte_range(&mut out, bytes, cursor as usize, re as usize);
    let ghost final_bytes = out@;
    let res = string_from_utf8(out);
    assert(encode_utf8(res@) == final_bytes);
    Some(res)
}

/// Length of the longest common prefix of `a` and `b`.
pub open spec fn common_prefix_len(a: Seq<char>, b: Seq<char>) -> nat
    decreases a.len(),
{
    if a.len() == 0 || b.len() == 0 || a[0] != b[0] {
        0
    } else {
        1 + common_prefix_len(a.drop_first(), b.drop_first())
    }
}

/// Length of the longest common suffix of `a` and `b`.
pub open spec fn common_suffix_len(a: Seq<char>, b: Seq<char>) -> nat
    decreases a.len(),
{
    if a.len() == 0 || b.len() == 0 || a.last() != b.last() {
        0
    } else {
        1 + common_suffix_len(a.drop_last(), b.drop_last())
    }
}

fn chars_equal(t: &Vec<char>, o: &Vec<char>) -> (same: bool)
    ensures
        same == (t@ == o@),
{
    if t.len() != o.len() {
        return false;
    }
    let mut i: usize = 0;
    let mut same = true;
    while i < t.len()
        invariant
            t.len() == o.len(),
            i <= t.len(),
            same == (forall|x: int| 0 <= x < i ==> t@[x] == o@[x]),
        decreases t.len() - i,
    {
        if t[i] != o[i] {
            same = false;
        }
        i += 1;
    }
    if same {
        assert(t@ =~= o@);
    }
    same
}

fn common_prefix(t: &Vec<char>, o: &Vec<char>) -> (p: usize)
    ensures
        p == common_prefix_len(t@, o@),
        p <= t.len() && p <= o.len(),
        t@.take(p as int) == o@.take(p as int),
{
    let ghost ts = t@;
    let ghost os = o@;
    let mut p: usize = 0;
    assert(ts.skip(0) =~= ts);
    assert(os.skip(0) =~= os);
    while p < t.len() && p < o.len() && t[p] == o[p]
        invariant
            t@ == ts,
            o@ == os,
            p <= t.len(),
            p <= o.len(),
            common_prefix_len(ts, os) == p + common_prefix_len(ts.skip(p as int), os.skip(p as int)),
            forall|x: int| 0 <= x < p ==> ts[x] == os[x],
        decreases t.len() - p,
    {
        assert(ts.skip(p as int).drop_first() =~= ts.skip(p + 1));
        assert(os.skip(p as int).drop_first() =~= os.skip(p + 1));
        p += 1;
    }
    assert(ts.take(p as int) =~= os.take(p as int));
    p
}

fn common_suffix(t: &Vec<char>, o: &Vec<char>, p: usize) -> (q: usize)
    requires
        p <= t.len(),
        p <= o.len(),
    ensures
        q == common_suffix_len(t@.skip(p as int), o@.skip(p as int)),
        q <= t.len() - p && q <= o.len() - p,
        t@.subrange(t.len() - q, t.len() as int) == o@.subrange(o.len() - q, o.len() as int),
{
    let ghost ts = t@;
    let ghost os = o@;
    let ghost ta = ts.skip(p as int);
    let ghost oa = os.skip(p as int);
    let mut q: usize = 0;
    assert(ta.subrange(0, ta.len() as int) =~= ta);
    assert(oa.subrange(0, oa.len() as int) =~= oa);
    while q < t.len() - p && q < o.len() - p && t[t.len() - 1 - q] == o[o.len() - 1 - q]
        invariant
            t@ == ts,
            o@ == os,
            p <= t.len(),
            p <= o.len(),
            q <= t.len() - p,
            q <= o.len() - p,
            ta == ts.skip(p as int),
            oa == os.skip(p as int),
            common_suffix_len(ta, oa) == q + common_suffix_len(
                ta.subrange(0, ta.len() - q),
                oa.subrange(0, oa.len() - q),
            ),
            forall|x: int| ts.len() - q <= x < ts.len() ==> #[trigger] ts[x] == os[x - ts.len() + os.len()],
        decreases t.len() - q,
    {
        assert(ta.subrange(0, ta.len() - q).drop_last() =~= ta.subrange(0, ta.len() - q - 1));
        assert(oa.subrange(0, oa.len() - q).drop_last() =~= oa.subrange(0, oa.len() - q - 1));
        q += 1;
    }
    assert(ts.subrange(ts.len() - q, ts.len() as int) =~= os.subrange(os.len() - q, os.len() as int));
    q
}

fn char_range(t: &Vec<char>, a: usize, b: usize) -> (out: Vec<char>)
    requires
        a <= b <= t.len(),
    ensures
        out@ == t@.subrange(a as int, b as int),
{
    let mut out: Vec<char> = Vec::new();
    let mut k = a;
    while k < b
        invariant
            a <= k <= b <= t.len(),
            out@ == t@.subrange(a as int, k as int),
        decreases b - k,
    {
        out.push(t[k]);
        assert(t@.subrange(a as int, k + 1) =~= t@.subrange(a as int, k as int).push(t@[k as int]));
        k += 1;
    }
    out
}

/// Trims a candidate replacement `text` for the source range
/// `start..end` (whose current text is `source_slice`) to its minimal
/// divergent range, by stripping the longest common character prefix
/// and, from what remains, the longest common character suffix.
/// Returns `None` when `text` already equals `source_slice`; otherwise
/// the narrowed byte range and the replacement for it.
pub fn narrow_edit(text: String, start: u32, end: u32, source_slice: &str) -> (r: Option<(u32, u32, String)>)
    requires
        start <= end,
        end - start == encode_utf8(source_slice@).len(),
    ensures
        r is None <==> text@ == source_slice@,
        r matches Some((s, e, mid)) ==> {
            let p = common_prefix_len(text@, source_slice@);
            let q = common_suffix_len(text@.skip(p as int), source_slice@.skip(p as int));
            &&& mid@ == text@.subrange(p as int, text@.len() - q)
            &&& s == start + encode_utf8(text@.take(p as int)).len()
            &&& e == end - encode_utf8(text@.skip(text@.len() - q)).len()
            &&& s <= e
        },
{
    let t = chars_of(text.as_str());
    let o = chars_of(source_slice);
    if chars_equal(&t, &o) {
        return None;
    }
    let p = common_prefix(&t, &o);
    let q = common_suffix(&t, &o, p);
    let mid = char_range(&t, p, t.len() - q);
    let pre = char_range(&t, 0, p);
    let suf = char_range(&t, t.len() - q, t.len());
    let pre_s = string_from_chars(pre.as_slice());
    let suf_s = string_from_chars(suf.as_slice());
    let plen = pre_s.as_str().len();
    let slen = suf_s.as_str().len();
    proof {
        let ts = t@;
        let os = o@;
        let src_mid = os.subrange(p as int, os.len() - q);
        let tsuf = ts.subrange(ts.len() - q, ts.len() as int);
        assert(ts.subrange(0, p as int) =~= os.take(p as int));
        assert(ts.take(p as int) =~= ts.subrange(0, p as int));
        assert(os =~= os.take(p as int) + src_mid + tsuf);
        crate::text::lemma_encode_utf8_add(os.take(p as int) + src_mid, tsuf);
        crate::text::lemma_encode_utf8_add(os.take(p as int), src_mid);
        assert(ts.skip(ts.len() - q) =~= tsuf);
    }
    let s = start + plen as u32;
    let e = end - slen as u32;
    Some((s, e, string_from_chars(mid.as_slice())))
}

/// Narrows `text` against the current text `source_slice` of the range
/// `start..end` and shapes the result as a deletion (when nothing is
/// left to insert) or a replacement. `None` when the text already
/// matches.
pub fn narrowed_replacement(source_slice: &str, start: u32, end: u32, text: String) -> (r: Option<Edit>)
    requires
        start <= end,
        end - start == encode_utf8(source_slice@).len(),
    ensures
        r is None <==> text@ == source_slice@,
        r matches Some(ed) ==> {
            let p = common_prefix_len(text@, source_slice@);
            let q = common_suffix_len(text@.skip(p as int), source_slice@.skip(p as int));
            let mid = text@.subrange(p as int, text@.len() - q);
            &&& ed.start == start + encode_utf8(text@.take(p as int)).len()
            &&& ed.end == end - encode_utf8(text@.skip(text@.len() - q)).len()
            &&& if mid.len() == 0 { ed.content is None } else { ed.content is Some && ed.content->Some_0@ == mid }
        },
{
    match narrow_edit(text, start, end, source_slice) {
        None => None,
        Some((s, e, mid)) => {
            if mid.as_str().is_empty() {
                Some(Edit::range_deletion(s, e))
            } else {
                Some(Edit::range_replacement(mid, s, e))
            }
        }
    }
}

/// A string of `n` ASCII spaces.
pub fn spaces(n: usize) -> (s: String)
    ensures
        s@ == Seq::new(n as nat, |i: int| ' '),
{
    let mut s = String::new();
    let mut i: usize = 0;
    while i < n
        invariant
            i <= n,
            s@ == Seq::new(i as nat, |k: int| ' '),
        decreases n - i,
    {
        crate::text::push_char(&mut s, ' ');
        assert(s@ =~= Seq::new((i + 1) as nat, |k: int| ' '));
        i += 1;
    }
    s
}

/// Returns the edit making the source bytes `start..end` carry exactly
/// `n` ASCII spaces: `None` if they already do, a deletion when `n` is
/// zero, a replacement with `n` spaces otherwise.
pub fn space_padding_edit(source: &[u8], start: u32, end: u32, n: usize) -> (r: Option<Edit>)
    requires
        start <= end <= source.len(),
    ensures
        r is None <==> source@.subrange(start as int, end as int) == Seq::new(n as nat, |i: int| 32u8),
        r matches Some(ed) ==> ed.start == start && ed.end == end && if n == 0 {
            ed.content is None
        } else {
            ed.content is Some && ed.content->Some_0@ == Seq::new(n as nat, |i: int| ' ')
        },
{
    let s = start as usize;
    let e = end as usize;
    let mut all_spaces = e - s == n;
    let mut i = s;
    while i < e
        invariant
            s <= i <= e <= source.len(),
            all_spaces == (e - s == n && forall|k: int| s <= k < i ==> source@[k] == 32u8),
        decreases e - i,
    {
        if source[i] != 32u8 {
            all_spaces = false;
        }
        i += 1;
    }
    let ghost gap = source@.subrange(s as int, e as int);
    if all_spaces {
        assert(gap =~= Seq::new(n as nat, |k: int| 32u8));
        return None;
    }
    proof {
        let sp = Seq::new(n as nat, |k: int| 32u8);
        if gap == sp {
            assert(gap.len() == e - s);
            assert forall|k: int| s <= k < e implies source@[k] == 32u8 by {
                assert(gap[k - s] == source@[k]);
                assert(sp[k - s] == 32u8);
            }
            assert(false);
        }
    }
    if n == 0 {
        Some(Edit::range_deletion(start, end))
    } else {
        Some(Edit::range_replacement(spaces(n), start, end))
    }
}

proof fn lemma_common_prefix(a: Seq<char>, b: Seq<char>)
    ensures
        common_prefix_len(a, b) <= a.len(),
        common_prefix_len(a, b) <= b.len(),
        a.take(common_prefix_len(a, b) as int) == b.take(common_prefix_len(a, b) as int),
    decreases a.len(),
{
    if a.len() > 0 && b.len() > 0 && a[0] == b[0] {
        lemma_common_prefix(a.drop_first(), b.drop_first());
        let p = common_prefix_len(a, b) as int;
        assert(a.take(p) =~= seq![a[0]] + a.drop_first().take(p - 1));
        assert(b.take(p) =~= seq![b[0]] + b.drop_first().take(p - 1));
    } else {
        assert(a.take(0) =~= b.take(0));
    }
}

proof fn lemma_common_suffix(a: Seq<char>, b: Seq<char>)
    ensures
        common_suffix_len(a, b) <= a.len(),
        common_suffix_len(a, b) <= b.len(),
        a.skip(a.len() - common_suffix_len(a, b)) == b.skip(b.len() - common_suffix_len(a, b)),
    decreases a.len(),
{
    if a.len() > 0 && b.len() > 0 && a.last() == b.last() {
        lemma_common_suffix(a.drop_last(), b.drop_last());
        let q = common_suffix_len(a, b) as int;
        assert(a.skip(a.len() - q) =~= a.drop_last().skip(a.len() - q) .push(a.last()));
        assert(b.skip(b.len() - q) =~= b.drop_last().skip(b.len() - q).push(b.last()));
    } else {
        assert(a.skip(a.len() as int) =~= b.skip(b.len() as int));
    }
}

/// Narrowing loses nothing: keeping the common prefix and suffix of the
/// current text `src` and writing the narrowed replacement between them
/// reproduces the full replacement `text`, byte for byte.
pub proof fn lemma_narrowed_edit_reproduces_text(text: Seq<char>, src: Seq<char>)
    ensures
        ({
            let p = common_prefix_len(text, src);
            let q = common_suffix_len(text.skip(p as int), src.skip(p as int));
            &&& p + q <= text.len()
            &&& p + q <= src.len()
            &&& encode_utf8(src.take(p as int)) + encode_utf8(text.subrange(p as int, text.len() - q))
                + encode_utf8(src.skip(src.len() - q)) == encode_utf8(text)
        }),
{
    let p = common_prefix_len(text, src);
    lemma_common_prefix(text, src);
    let ta = text.skip(p as int);
    let sa = src.skip(p as int);
    let q = common_suffix_len(ta, sa);
    lemma_common_suffix(ta, sa);
    assert(ta.skip(ta.len() - q) =~= text.skip(text.len() - q));
    assert(sa.skip(sa.len() - q) =~= src.skip(src.len() - q));
    let mid = text.subrange(p as int, text.len() - q);
    assert(text =~= text.take(p as int) + mid + text.skip(text.len() - q));
    crate::text::lemma_encode_utf8_add(text.take(p as int) + mid, text.skip(text.len() - q));
    crate::text::lemma_encode_utf8_add(text.take(p as int), mid);
}

} // verus!
