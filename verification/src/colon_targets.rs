//! The docstring `Args:` colon context: one alignment member per
//! `name:` entry of a Google-style argument section.

use vstd::prelude::*;
use vstd::utf8::*;

use crate::aligner::{anchored_member_chars, anchored_member_spec, Member};
use crate::docstring::is_alpha;
use crate::text::{
    char_slice, chars_of, index_at_offset, index_of_offset, is_offset, is_python_ws, lemma_next_break_ge,
    lemma_take_le, lemma_take_step, line_after, next_break, skip_python_ws, utf8_width,
};

verus! {

/// A character that may open an entry line: an ASCII letter, `_` or `*`.
pub open spec fn entry_first_ok(c: char) -> bool {
    is_alpha(c) || c == '_' || c == '*'
}

/// The first `:` at bracket depth zero from index `k` on, where `(` and
/// `[` open a bracket and `)` and `]` close one (never below zero).
pub open spec fn colon_scan(t: Seq<char>, k: int, depth: nat) -> Option<int>
    decreases t.len() - k,
{
    if 0 <= k < t.len() {
        if t[k] == '(' || t[k] == '[' {
            colon_scan(t, k + 1, depth + 1)
        } else if t[k] == ')' || t[k] == ']' {
            colon_scan(t, k + 1, if depth > 0 { (depth - 1) as nat } else { 0 })
        } else if t[k] == ':' && depth == 0 {
            Some(k)
        } else {
            colon_scan(t, k + 1, depth)
        }
    } else {
        None
    }
}

/// The character index of an entry line's top-level colon: the line
/// must open with an entry character.
pub open spec fn entry_colon_spec(t: Seq<char>) -> Option<int> {
    if t.len() > 0 && entry_first_ok(t[0]) {
        colon_scan(t, 0, 0)
    } else {
        None
    }
}

/// `colon_scan` only ever answers an index inside `k..t.len()`.
proof fn lemma_colon_scan_bounds(t: Seq<char>, k: int, depth: nat)
    requires
        0 <= k,
    ensures
        colon_scan(t, k, depth) matches Some(c) ==> k <= c < t.len(),
    decreases t.len() - k,
{
    if 0 <= k < t.len() {
        if t[k] == '(' || t[k] == '[' {
            lemma_colon_scan_bounds(t, k + 1, depth + 1);
        } else if t[k] == ')' || t[k] == ']' {
            lemma_colon_scan_bounds(t, k + 1, if depth > 0 { (depth - 1) as nat } else { 0 });
        } else if !(t[k] == ':' && depth == 0) {
            lemma_colon_scan_bounds(t, k + 1, depth);
        }
    }
}

/// `entry_colon_spec` computed over a character vector.
pub fn entry_colon_chars(t: &Vec<char>) -> (r: Option<usize>)
    ensures
        match entry_colon_spec(t@) {
            Some(c) => r == Some(c as usize),
            None => r is None,
        },
{
    if t.len() == 0 {
        return None;
    }
    let first = t[0];
    if !(('a' <= first && first <= 'z') || ('A' <= first && first <= 'Z') || first == '_' || first == '*') {
        return None;
    }
    let mut depth: usize = 0;
    let mut k: usize = 0;
    while k < t.len()
        invariant
            k <= t.len(),
            depth <= k,
            entry_colon_spec(t@) == colon_scan(t@, k as int, depth as nat),
        decreases t.len() - k,
    {
        let c = t[k];
        if c == '(' || c == '[' {
            depth += 1;
        } else if c == ')' || c == ']' {
            depth = if depth > 0 { depth - 1 } else { 0 };
        } else if c == ':' && depth == 0 {
            return Some(k);
        }
        k += 1;
    }
    None
}

/// Finds the byte offset of the `:` within a docstring entry line's
/// post-indent content. The pre-colon region may include the argument
/// name and an optional bracketed type (e.g. `x (int)`). Returns `None`
/// when the line does not look like an entry.
pub fn find_entry_colon(stripped: &str) -> (r: Option<usize>)
    requires
        encode_utf8(stripped@).len() <= u32::MAX,
    ensures
        match entry_colon_spec(stripped@) {
            Some(c) => r == Some(encode_utf8(stripped@.take(c)).len() as usize),
            None => r is None,
        },
{
    let t = chars_of(stripped);
    proof {
        lemma_colon_scan_bounds(t@, 0, 0);
    }
    match entry_colon_chars(&t) {
        Some(c) => {
            let mut i: usize = 0;
            let mut n: usize = 0;
            assert(t@.take(0) =~= Seq::<char>::empty());
            while i < c
                invariant
                    i <= c < t.len(),
                    t@ == stripped@,
                    encode_utf8(t@).len() <= u32::MAX,
                    n == encode_utf8(t@.take(i as int)).len(),
                decreases c - i,
            {
                proof {
                    lemma_take_step(t@, i as int);
                    lemma_take_le(t@, i + 1);
                }
                n = n + utf8_width(t[i]) as usize;
                i += 1;
            }
            Some(n)
        },
        None => None,
    }
}

/// An `Args:` header: `Args:` followed by nothing but whitespace.
pub open spec fn is_args_header(st: Seq<char>) -> bool {
    &&& st.len() >= 5
    &&& st[0] == 'A' && st[1] == 'r' && st[2] == 'g' && st[3] == 's' && st[4] == ':'
    &&& forall|k: int| 5 <= k < st.len() ==> is_python_ws(#[trigger] st[k])
}

/// The first `Args:` header line from line start `i` on: its
/// indentation and the start of the line after it.
pub open spec fn header_after(t: Seq<char>, i: int) -> Option<(int, int)>
    decreases t.len() - i,
{
    if 0 <= i < t.len() {
        let e = next_break(t, i);
        proof {
            lemma_next_break_ge(t, i);
        }
        let line = t.subrange(i, e);
        let ind = skip_python_ws(line, 0);
        if is_args_header(line.skip(ind)) {
            Some((ind, line_after(t, e)))
        } else {
            header_after(t, line_after(t, e))
        }
    } else {
        None
    }
}

/// The colons of the entries of an `Args:` block, as character indices
/// into `t`, from line start `i` on. The block ends at a blank line, a
/// line indented no deeper than the header (`hi`), or a line indented
/// otherwise than the first entry line: a deeper one is a continuation
/// line, and continuation lines end the block too. A line at the entry
/// indentation without a top-level colon carries no entry.
pub open spec fn arg_colons(t: Seq<char>, i: int, hi: int, expected: Option<int>) -> Seq<int>
    decreases t.len() - i,
{
    if 0 <= i < t.len() {
        let e = next_break(t, i);
        proof {
            lemma_next_break_ge(t, i);
        }
        let line = t.subrange(i, e);
        let ind = skip_python_ws(line, 0);
        let st = line.skip(ind);
        if st.len() == 0 || ind <= hi {
            Seq::empty()
        } else {
            let exp = match expected {
                Some(x) => x,
                None => ind,
            };
            if ind != exp {
                Seq::empty()
            } else {
                let here = match entry_colon_spec(st) {
                    Some(c) => seq![i + ind + c],
                    None => Seq::empty(),
                };
                here + arg_colons(t, line_after(t, e), hi, Some(exp))
            }
        }
    } else {
        Seq::empty()
    }
}

/// The colons of the `Args:` block of a docstring literal `t`.
pub open spec fn docstring_arg_colons(t: Seq<char>) -> Seq<int> {
    match header_after(t, 0) {
        Some((hi, next)) => arg_colons(t, next, hi, None),
        None => Seq::empty(),
    }
}

fn next_break_exec(t: &Vec<char>, i: usize) -> (e: usize)
    requires
        i <= t.len(),
    ensures
        e == next_break(t@, i as int),
        i <= e <= t.len(),
{
    let mut e = i;
    while e < t.len() && t[e] != '\n' && t[e] != '\r'
        invariant
            i <= e <= t.len(),
            next_break(t@, i as int) == next_break(t@, e as int),
        decreases t.len() - e,
    {
        e += 1;
    }
    e
}

fn line_after_exec(t: &Vec<char>, e: usize) -> (n: usize)
    requires
        e <= t.len(),
    ensures
        n == line_after(t@, e as int),
        e < n <= t.len() || (e == t.len() && n == e),
{
    if e >= t.len() {
        t.len()
    } else if t[e] == '\r' && e + 1 < t.len() && t[e + 1] == '\n' {
        e + 2
    } else {
        e + 1
    }
}

fn skip_ws_exec(line: &Vec<char>) -> (k: usize)
    ensures
        k == skip_python_ws(line@, 0),
        k <= line.len(),
{
    let mut k: usize = 0;
    while k < line.len() && (line[k] == ' ' || line[k] == '\t' || line[k] == '\x0c')
        invariant
            k <= line.len(),
            skip_python_ws(line@, 0) == skip_python_ws(line@, k as int),
        decreases line.len() - k,
    {
        k += 1;
    }
    k
}

fn is_args_header_exec(st: &Vec<char>) -> (r: bool)
    ensures
        r == is_args_header(st@),
{
    if !(st.len() >= 5 && st[0] == 'A' && st[1] == 'r' && st[2] == 'g' && st[3] == 's' && st[4] == ':') {
        return false;
    }
    let mut k: usize = 5;
    while k < st.len()
        invariant
            5 <= k <= st.len(),
            forall|j: int| 5 <= j < k ==> is_python_ws(#[trigger] st@[j]),
        decreases st.len() - k,
    {
        if !(st[k] == ' ' || st[k] == '\t' || st[k] == '\x0c') {
            assert(!is_python_ws(st@[k as int]));
            return false;
        }
        k += 1;
    }
    true
}

/// The colons of the `Args:` block of a docstring literal held as
/// characters; see [`docstring_arg_colons`].
pub fn docstring_arg_colons_exec(t: &Vec<char>) -> (r: Vec<usize>)
    ensures
        r@.map_values(|c: usize| c as int) == docstring_arg_colons(t@),
        forall|j: int| 0 <= j < r.len() ==> r@[j] < t.len(),
{
    let mut i: usize = 0;
    let mut header: Option<(usize, usize)> = None;
    while i < t.len()
        invariant_except_break
            header is None,
            header_after(t@, 0) == header_after(t@, i as int),
        invariant
            i <= t.len(),
        ensures
            match header {
                Some((h, n)) => header_after(t@, 0) == Some((h as int, n as int)) && n <= t.len(),
                None => header_after(t@, 0) is None,
            },
        decreases t.len() - i,
    {
        let e = next_break_exec(t, i);
        let line = char_slice(t, i, e);
        let ind = skip_ws_exec(&line);
        let st = char_slice(&line, ind, line.len());
        assert(st@ =~= line@.skip(ind as int));
        let next = line_after_exec(t, e);
        if is_args_header_exec(&st) {
            header = Some((ind, next));
            break;
        }
        i = next;
    }
    let (hi, start) = match header {
        Some(h) => h,
        None => {
            let r: Vec<usize> = Vec::new();
            assert(r@.map_values(|c: usize| c as int) =~= Seq::<int>::empty());
            return r;
        },
    };
    let mut out: Vec<usize> = Vec::new();
    let mut expected: Option<usize> = None;
    let mut i = start;
    assert(out@.map_values(|c: usize| c as int) =~= Seq::<int>::empty());
    loop
        invariant
            i <= t.len(),
            docstring_arg_colons(t@) == out@.map_values(|c: usize| c as int) + arg_colons(
                t@,
                i as int,
                hi as int,
                match expected {
                    Some(x) => Some(x as int),
                    None => None,
                },
            ),
            forall|j: int| 0 <= j < out.len() ==> out@[j] < t.len(),
        ensures
            docstring_arg_colons(t@) == out@.map_values(|c: usize| c as int),
            forall|j: int| 0 <= j < out.len() ==> out@[j] < t.len(),
        decreases t.len() - i,
    {
        if i >= t.len() {
            assert(out@.map_values(|c: usize| c as int) + Seq::<int>::empty() =~= out@.map_values(
                |c: usize| c as int,
            ));
            break;
        }
        let ghost before = out@;
        let e = next_break_exec(t, i);
        let line = char_slice(t, i, e);
        let ind = skip_ws_exec(&line);
        let st = char_slice(&line, ind, line.len());
        assert(st@ =~= line@.skip(ind as int));
        let next = line_after_exec(t, e);
        if st.len() == 0 || ind <= hi {
            assert(out@.map_values(|c: usize| c as int) + Seq::<int>::empty() =~= out@.map_values(
                |c: usize| c as int,
            ));
            break;
        }
        let exp = match expected {
            Some(x) => x,
            None => ind,
        };
        if ind != exp {
            assert(out@.map_values(|c: usize| c as int) + Seq::<int>::empty() =~= out@.map_values(
                |c: usize| c as int,
            ));
            break;
        }
        match entry_colon_chars(&st) {
            Some(c) => {
                proof {
                    lemma_colon_scan_bounds(st@, 0, 0);
                }
                out.push(i + ind + c);
                assert(out@.map_values(|c: usize| c as int) =~= before.map_values(|c: usize| c as int) + seq![
                    i + ind + c,
                ]);
            },
            None => {},
        }
        expected = Some(exp);
        i = next;
    }
    out
}

/// One alignment member per entry of the `Args:` section of the
/// docstring literal spanning bytes `lit_start..lit_end` of `source`.
/// Empty when the literal carries no `Args:` header. An entry is a line
/// of the block at the first entry line's indentation whose content
/// reaches a top-level `:`. Continuation lines, blank lines and the
/// next section header end the block; see [`arg_colons`].
pub fn docstring_args(source: &str, lit_start: u32, lit_end: u32) -> (r: Vec<Member>)
    requires
        is_offset(source@, lit_start as int),
        is_offset(source@, lit_end as int),
        lit_start <= lit_end,
        encode_utf8(source@).len() <= u32::MAX,
    ensures
        ({
            let a = index_of_offset(source@, lit_start as int);
            let z = index_of_offset(source@, lit_end as int);
            let cs = docstring_arg_colons(source@.subrange(a, z));
            &&& r@.len() == cs.len()
            &&& forall|j: int| 0 <= j < cs.len() ==> r@[j] == anchored_member_spec(source@, a + cs[j])
        }),
{
    let s = chars_of(source);
    let a = index_at_offset(&s, lit_start);
    let z = index_at_offset(&s, lit_end);
    proof {
        if z < a {
            crate::text::lemma_take_strict(s@, z as int, a as int);
        }
    }
    let t = char_slice(&s, a, z);
    let colons = docstring_arg_colons_exec(&t);
    let mut out: Vec<Member> = Vec::new();
    let mut j: usize = 0;
    while j < colons.len()
        invariant
            j <= colons.len(),
            a <= z <= s.len(),
            s@ == source@,
            t@ == s@.subrange(a as int, z as int),
            encode_utf8(s@).len() <= u32::MAX,
            colons@.map_values(|c: usize| c as int) == docstring_arg_colons(t@),
            forall|k: int| 0 <= k < colons.len() ==> colons@[k] < t.len(),
            out.len() == j,
            forall|k: int| 0 <= k < j ==> out@[k] == anchored_member_spec(s@, a + colons@[k]),
        decreases colons.len() - j,
    {
        let m = anchored_member_chars(&s, a + colons[j]);
        out.push(m);
        j += 1;
    }
    proof {
        assert forall|k: int| 0 <= k < colons.len() implies docstring_arg_colons(t@)[k] == colons@[k] by {
            assert(colons@.map_values(|c: usize| c as int)[k] == colons@[k] as int);
        }
    }
    out
}

} // verus!
