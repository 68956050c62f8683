//! Line facts about source bytes: where the line holding an offset
//! starts and ends, where its terminator ends, and whether only Python
//! whitespace precedes the offset on its line. Lines end at `\n`, at
//! `\r\n` and at a lone `\r`.

use vstd::prelude::*;

verus! {

/// A line terminator byte.
pub open spec fn is_eol(c: u8) -> bool {
    c == 10 || c == 13
}

/// Python's inline whitespace: space, tab and form feed.
pub open spec fn is_inline_ws(c: u8) -> bool {
    c == 32 || c == 9 || c == 12
}

/// The start of the line holding offset `off`: just past the last
/// terminator byte before it, or zero.
pub open spec fn line_start(b: Seq<u8>, off: int) -> int
    decreases off,
{
    if off <= 0 {
        0
    } else if is_eol(b[off - 1]) {
        off
    } else {
        line_start(b, off - 1)
    }
}

/// The end of the line holding offset `off`, before its terminator.
pub open spec fn line_end(b: Seq<u8>, off: int) -> int
    decreases b.len() - off,
{
    if off < 0 || off >= b.len() || is_eol(b[off]) {
        off
    } else {
        line_end(b, off + 1)
    }
}

/// The end of the line holding offset `off`, past its terminator.
pub open spec fn full_line_end(b: Seq<u8>, off: int) -> int {
    let e = line_end(b, off);
    if e >= b.len() {
        e
    } else if b[e] == 13 && e + 1 < b.len() && b[e + 1] == 10 {
        e + 2
    } else {
        e + 1
    }
}

/// Only inline whitespace stands between the start of the line and
/// offset `off`.
pub open spec fn is_own_line(b: Seq<u8>, off: int) -> bool {
    forall|k: int| line_start(b, off) <= k < off ==> #[trigger] is_inline_ws(b[k])
}

pub proof fn lemma_line_start_bounds(b: Seq<u8>, off: int)
    requires
        0 <= off,
    ensures
        0 <= line_start(b, off) <= off,
        forall|k: int| line_start(b, off) <= k < off ==> !is_eol(#[trigger] b[k]),
    decreases off,
{
    if off > 0 && !is_eol(b[off - 1]) {
        lemma_line_start_bounds(b, off - 1);
    }
}

pub proof fn lemma_line_end_bounds(b: Seq<u8>, off: int)
    requires
        0 <= off <= b.len(),
    ensures
        off <= line_end(b, off) <= b.len(),
    decreases b.len() - off,
{
    if off < b.len() && !is_eol(b[off]) {
        lemma_line_end_bounds(b, off + 1);
    }
}

/// Returns the start of the line holding `off`.
pub fn line_start_of(b: &[u8], off: u32) -> (r: u32)
    requires
        off <= b.len(),
    ensures
        r == line_start(b@, off as int),
        r <= off,
{
    let mut p = off;
    while p > 0 && !(b[(p - 1) as usize] == 10 || b[(p - 1) as usize] == 13)
        invariant
            p <= off <= b.len(),
            line_start(b@, off as int) == line_start(b@, p as int),
        decreases p,
    {
        p -= 1;
    }
    p
}

/// Returns the end of the line holding `off`, before its terminator.
pub fn line_end_of(b: &[u8], off: u32) -> (r: u32)
    requires
        off <= b.len() <= u32::MAX,
    ensures
        r == line_end(b@, off as int),
        off <= r <= b.len(),
{
    let mut p = off;
    while (p as usize) < b.len() && !(b[p as usize] == 10 || b[p as usize] == 13)
        invariant
            off <= p <= b.len() <= u32::MAX,
            line_end(b@, off as int) == line_end(b@, p as int),
        decreases b.len() - p,
    {
        p += 1;
    }
    p
}

/// Returns the end of the line holding `off`, past its terminator.
pub fn full_line_end_of(b: &[u8], off: u32) -> (r: u32)
    requires
        off <= b.len() <= u32::MAX,
    ensures
        r == full_line_end(b@, off as int),
        r <= b.len(),
{
    let e = line_end_of(b, off);
    if (e as usize) >= b.len() {
        e
    } else if b[e as usize] == 13 && ((e + 1) as usize) < b.len() && b[(e + 1) as usize] == 10 {
        e + 2
    } else {
        e + 1
    }
}

/// Returns whether only inline whitespace precedes `off` on its line.
pub fn own_line(b: &[u8], off: u32) -> (r: bool)
    requires
        off <= b.len(),
    ensures
        r == is_own_line(b@, off as int),
{
    let s = line_start_of(b, off);
    let mut k = s;
    while k < off
        invariant
            s <= k <= off <= b.len(),
            s == line_start(b@, off as int),
            forall|j: int| s <= j < k ==> #[trigger] is_inline_ws(b@[j]),
        decreases off - k,
    {
        let c = b[k as usize];
        if !(c == 32 || c == 9 || c == 12) {
            assert(!is_inline_ws(b@[k as int]));
            return false;
        }
        k += 1;
    }
    true
}

} // verus!
