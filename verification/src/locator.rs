//! Positional facts about a source text: the line and column of an
//! offset, and the indentation of the line holding it.
//!
//! Lines end at `\n`, at `\r\n` and at a lone `\r`. Columns count
//! characters.

use vstd::prelude::*;
use vstd::utf8::*;

use crate::text::{chars_of, index_at_offset, index_of_offset, is_offset, string_from_chars};

verus! {

/// A line starts at character `k`: the text's start, or just past a
/// line feed, or just past a carriage return not followed by a line
/// feed.
pub open spec fn is_line_start(s: Seq<char>, k: int) -> bool {
    ||| k == 0
    ||| (0 < k <= s.len() && s[k - 1] == '\n')
    ||| (0 < k <= s.len() && s[k - 1] == '\r' && !(k < s.len() && s[k] == '\n'))
}

/// The number of line starts in `1..=k`: the zero-based line of
/// character `k`.
pub open spec fn line_index(s: Seq<char>, k: int) -> int
    decreases k,
{
    if k <= 0 {
        0
    } else {
        line_index(s, k - 1) + if is_line_start(s, k) { 1int } else { 0int }
    }
}

/// The last line start at or before character `k`.
pub open spec fn line_start_of(s: Seq<char>, k: int) -> int
    decreases k,
{
    if k <= 0 || is_line_start(s, k) {
        if k <= 0 { 0 } else { k }
    } else {
        line_start_of(s, k - 1)
    }
}

proof fn lemma_line_bounds(s: Seq<char>, k: int)
    requires
        0 <= k,
    ensures
        0 <= line_index(s, k) <= k,
        0 <= line_start_of(s, k) <= k,
    decreases k,
{
    if k > 0 {
        lemma_line_bounds(s, k - 1);
    }
}

fn is_line_start_exec(s: &Vec<char>, k: usize) -> (r: bool)
    requires
        k <= s.len(),
    ensures
        r == is_line_start(s@, k as int),
{
    k == 0 || s[k - 1] == '\n' || (s[k - 1] == '\r' && !(k < s.len() && s[k] == '\n'))
}

fn line_column_chars(s: &Vec<char>, k: usize) -> (r: (usize, usize))
    requires
        k <= s.len() < usize::MAX,
    ensures
        r.0 == line_index(s@, k as int) + 1,
        r.1 == k - line_start_of(s@, k as int) + 1,
        r.1 >= 1,
{
    let mut line: usize = 0;
    let mut start: usize = 0;
    let mut i: usize = 0;
    while i < k
        invariant
            i <= k <= s.len() < usize::MAX,
            line == line_index(s@, i as int),
            start == line_start_of(s@, i as int),
            line <= i,
            start <= i,
        decreases k - i,
    {
        if is_line_start_exec(s, i + 1) {
            line = line + 1;
            start = i + 1;
        }
        i += 1;
    }
    (line + 1, k - start + 1)
}

/// The one-based line and character column of byte offset `offset`.
pub fn line_column(text: &str, offset: u32) -> (r: (usize, usize))
    requires
        is_offset(text@, offset as int),
        encode_utf8(text@).len() < u32::MAX,
    ensures
        ({
            let k = index_of_offset(text@, offset as int);
            r.0 == line_index(text@, k) + 1 && r.1 == k - line_start_of(text@, k) + 1
        }),
        r.1 >= 1,
{
    let s = chars_of(text);
    let k = index_at_offset(&s, offset);
    proof {
        crate::text::lemma_encode_len_ge(s@);
    }
    line_column_chars(&s, k)
}

/// Returns the zero-indexed character column of byte offset `offset` on
/// its line.
pub fn column_of(text: &str, offset: u32) -> (c: usize)
    requires
        is_offset(text@, offset as int),
        encode_utf8(text@).len() < u32::MAX,
    ensures
        ({
            let k = index_of_offset(text@, offset as int);
            c == k - line_start_of(text@, k)
        }),
{
    let (_, col) = line_column(text, offset);
    col - 1
}

/// Python's whitespace for indentation: space, tab, form feed and
/// vertical tab.
pub open spec fn is_indent_ws(c: char) -> bool {
    c == ' ' || c == '\t' || c == '\x0c' || c == '\x0b'
}

/// The end of the indentation starting at `i`.
pub open spec fn indent_end(s: Seq<char>, i: int) -> int
    decreases s.len() - i,
{
    if 0 <= i < s.len() && is_indent_ws(s[i]) {
        indent_end(s, i + 1)
    } else {
        i
    }
}

proof fn lemma_indent_end(s: Seq<char>, i: int)
    requires
        0 <= i <= s.len(),
    ensures
        i <= indent_end(s, i) <= s.len(),
    decreases s.len() - i,
{
    if i < s.len() && is_indent_ws(s[i]) {
        lemma_indent_end(s, i + 1);
    }
}

/// Returns the leading-whitespace prefix of the line holding byte offset
/// `offset`.
pub fn line_indent(text: &str, offset: u32) -> (r: String)
    requires
        is_offset(text@, offset as int),
        encode_utf8(text@).len() <= u32::MAX,
    ensures
        ({
            let k = index_of_offset(text@, offset as int);
            let ls = line_start_of(text@, k);
            r@ == text@.subrange(ls, indent_end(text@, ls))
        }),
{
    let s = chars_of(text);
    let k = index_at_offset(&s, offset);
    let mut ls = k;
    while ls > 0 && !is_line_start_exec(&s, ls)
        invariant
            ls <= k <= s.len(),
            line_start_of(s@, k as int) == line_start_of(s@, ls as int),
        decreases ls,
    {
        ls -= 1;
    }
    let mut e = ls;
    while e < s.len() && (s[e] == ' ' || s[e] == '\t' || s[e] == '\x0c' || s[e] == '\x0b')
        invariant
            ls <= e <= s.len(),
            indent_end(s@, ls as int) == indent_end(s@, e as int),
        decreases s.len() - e,
    {
        e += 1;
    }
    let prefix = crate::text::char_slice(&s, ls, e);
    string_from_chars(prefix.as_slice())
}

/// Returns the character width of the leading-whitespace prefix of the
/// line holding byte offset `offset`; tabs and form feeds count as one
/// character each.
pub fn line_indent_width(text: &str, offset: u32) -> (n: usize)
    requires
        is_offset(text@, offset as int),
        encode_utf8(text@).len() <= u32::MAX,
    ensures
        ({
            let k = index_of_offset(text@, offset as int);
            let ls = line_start_of(text@, k);
            n == indent_end(text@, ls) - ls
        }),
{
    let indent = line_indent(text, offset);
    let cs = chars_of(indent.as_str());
    proof {
        let k = index_of_offset(text@, offset as int);
        lemma_line_bounds(text@, k);
        lemma_indent_end(text@, line_start_of(text@, k));
    }
    cs.len()
}

} // verus!
