//! Google-style docstring sections: Title-case headings, their
//! `name: description` entries, and the fence / blank / list-marker
//! line classification the docstring walkers share.
//!
//! Character classes follow the ASCII Perl classes of the section
//! grammar: a word character is an ASCII letter, digit or `_`, and
//! whitespace is ASCII space, tab, line feed, vertical tab, form feed
//! or carriage return.

use vstd::prelude::*;

use crate::text::{chars_of, string_from_chars};
use crate::trivia::{is_own_line, own_line};

verus! {

/// An ASCII word character: letter, digit or underscore.
pub open spec fn is_word(c: char) -> bool {
    ('a' <= c && c <= 'z') || ('A' <= c && c <= 'Z') || ('0' <= c && c <= '9') || c == '_'
}

/// An ASCII whitespace character.
pub open spec fn is_space(c: char) -> bool {
    c == ' ' || c == '\t' || c == '\n' || c == '\x0b' || c == '\x0c' || c == '\r'
}

/// An ASCII letter.
pub open spec fn is_alpha(c: char) -> bool {
    ('a' <= c && c <= 'z') || ('A' <= c && c <= 'Z')
}

/// An ASCII uppercase letter.
pub open spec fn is_upper(c: char) -> bool {
    'A' <= c && c <= 'Z'
}

/// An ASCII digit.
pub open spec fn is_digit(c: char) -> bool {
    '0' <= c && c <= '9'
}

/// The end of the run of word characters and dots starting at `i`.
pub open spec fn skip_word_dot(s: Seq<char>, i: int) -> int
    decreases s.len() - i,
{
    if 0 <= i < s.len() && (is_word(s[i]) || s[i] == '.') {
        skip_word_dot(s, i + 1)
    } else {
        i
    }
}

/// The end of the run of whitespace starting at `i`.
pub open spec fn skip_space(s: Seq<char>, i: int) -> int
    decreases s.len() - i,
{
    if 0 <= i < s.len() && is_space(s[i]) {
        skip_space(s, i + 1)
    } else {
        i
    }
}

/// The end of the run of letters starting at `i`.
pub open spec fn skip_alpha(s: Seq<char>, i: int) -> int
    decreases s.len() - i,
{
    if 0 <= i < s.len() && is_alpha(s[i]) {
        skip_alpha(s, i + 1)
    } else {
        i
    }
}

/// The end of the run of digits starting at `i`.
pub open spec fn skip_digit(s: Seq<char>, i: int) -> int
    decreases s.len() - i,
{
    if 0 <= i < s.len() && is_digit(s[i]) {
        skip_digit(s, i + 1)
    } else {
        i
    }
}

/// The shape of a section entry head, `name: description`: a word
/// character, more word characters or dots, optional whitespace, a
/// colon, at least one whitespace character, then a non-whitespace
/// character. `Some(c)` gives the index of that first description
/// character; `None` when the line does not have the shape.
pub open spec fn entry_col_spec(s: Seq<char>) -> Option<int> {
    if s.len() == 0 || !is_word(s[0]) {
        None
    } else {
        let a = skip_word_dot(s, 1);
        let b = skip_space(s, a);
        if b < s.len() && s[b] == ':' {
            let c = skip_space(s, b + 1);
            if c > b + 1 && c < s.len() {
                Some(c)
            } else {
                None
            }
        } else {
            None
        }
    }
}

/// The heading grammar from index `i`: a Title-case word (an uppercase
/// letter then letters), followed by `:`, or by one space and another
/// such heading.
pub open spec fn heading_from(s: Seq<char>, i: int) -> bool
    decreases s.len() - i,
{
    if 0 <= i < s.len() && is_upper(s[i]) {
        let j = skip_alpha(s, i + 1);
        proof {
            lemma_skip_alpha_ge(s, i + 1);
        }
        j < s.len() && (s[j] == ':' || (s[j] == ' ' && heading_from(s, j + 1)))
    } else {
        false
    }
}

/// `skip_alpha` never moves backwards.
pub proof fn lemma_skip_alpha_ge(s: Seq<char>, i: int)
    ensures
        skip_alpha(s, i) >= i,
    decreases s.len() - i,
{
    if 0 <= i < s.len() && is_alpha(s[i]) {
        lemma_skip_alpha_ge(s, i + 1);
    }
}

fn is_word_exec(c: char) -> (r: bool)
    ensures
        r == is_word(c),
{
    ('a' <= c && c <= 'z') || ('A' <= c && c <= 'Z') || ('0' <= c && c <= '9') || c == '_'
}

fn is_space_exec(c: char) -> (r: bool)
    ensures
        r == is_space(c),
{
    c == ' ' || c == '\t' || c == '\n' || c == '\x0b' || c == '\x0c' || c == '\r'
}

fn is_alpha_exec(c: char) -> (r: bool)
    ensures
        r == is_alpha(c),
{
    ('a' <= c && c <= 'z') || ('A' <= c && c <= 'Z')
}

fn skip_word_dot_exec(s: &Vec<char>, i: usize) -> (j: usize)
    requires
        i <= s.len(),
    ensures
        j == skip_word_dot(s@, i as int),
        i <= j <= s.len(),
{
    let mut j = i;
    while j < s.len() && (is_word_exec(s[j]) || s[j] == '.')
        invariant
            i <= j <= s.len(),
            skip_word_dot(s@, i as int) == skip_word_dot(s@, j as int),
        decreases s.len() - j,
    {
        j += 1;
    }
    j
}

fn skip_space_exec(s: &Vec<char>, i: usize) -> (j: usize)
    requires
        i <= s.len(),
    ensures
        j == skip_space(s@, i as int),
        i <= j <= s.len(),
{
    let mut j = i;
    while j < s.len() && is_space_exec(s[j])
        invariant
            i <= j <= s.len(),
            skip_space(s@, i as int) == skip_space(s@, j as int),
        decreases s.len() - j,
    {
        j += 1;
    }
    j
}

fn skip_alpha_exec(s: &Vec<char>, i: usize) -> (j: usize)
    requires
        i <= s.len(),
    ensures
        j == skip_alpha(s@, i as int),
        i <= j <= s.len(),
{
    let mut j = i;
    while j < s.len() && is_alpha_exec(s[j])
        invariant
            i <= j <= s.len(),
            skip_alpha(s@, i as int) == skip_alpha(s@, j as int),
        decreases s.len() - j,
    {
        j += 1;
    }
    j
}

/// `entry_col_spec` computed over a character vector.
pub fn entry_col_chars(s: &Vec<char>) -> (r: Option<usize>)
    ensures
        match entry_col_spec(s@) {
            Some(c) => r == Some(c as usize),
            None => r is None,
        },
{
    if s.len() == 0 || !is_word_exec(s[0]) {
        return None;
    }
    let a = skip_word_dot_exec(s, 1);
    let b = skip_space_exec(s, a);
    if b < s.len() && s[b] == ':' {
        let c = skip_space_exec(s, b + 1);
        if c > b + 1 && c < s.len() {
            Some(c)
        } else {
            None
        }
    } else {
        None
    }
}

/// Returns the description-start character column when `trimmed` has
/// the `name: description` shape of a Google-style section entry head.
/// `None` for any line that does not match. The first description
/// character must be ASCII when the line matches, as the column is
/// taken from a byte offset one short of the match end.
pub fn entry_description_col(trimmed: &str) -> (r: Option<usize>)
    requires
        entry_col_spec(trimmed@) matches Some(c) ==> (trimmed@[c] as u32) < 128,
    ensures
        match entry_col_spec(trimmed@) {
            Some(c) => r == Some(c as usize),
            None => r is None,
        },
{
    let s = chars_of(trimmed);
    entry_col_chars(&s)
}

/// `heading_from(s, 0)` computed over a character vector.
pub fn heading_chars(s: &Vec<char>) -> (r: bool)
    ensures
        r == heading_from(s@, 0),
{
    let mut i: usize = 0;
    while i < s.len() && 'A' <= s[i] && s[i] <= 'Z'
        invariant
            i <= s.len(),
            heading_from(s@, 0) == heading_from(s@, i as int),
        decreases s.len() - i,
    {
        let j = skip_alpha_exec(s, i + 1);
        assert(heading_from(s@, i as int) == (j < s.len() && (s@[j as int] == ':' || (s@[j as int] == ' '
            && heading_from(s@, j + 1)))));
        if j < s.len() && s[j] == ':' {
            return true;
        }
        if !(j < s.len() && s[j] == ' ') {
            return false;
        }
        i = j + 1;
    }
    false
}

/// True when `trimmed` opens with a Title-case word or a run of
/// space-separated Title-case words immediately followed by `:`.
/// Trailing content after the `:` is permitted.
pub fn section_heading(trimmed: &str) -> (r: bool)
    ensures
        r == heading_from(trimmed@, 0),
{
    let s = chars_of(trimmed);
    heading_chars(&s)
}

/// The entry-name prefix of an entry head held as characters.
pub fn entry_name_chars(s: &Vec<char>) -> (name: Vec<char>)
    requires
        entry_col_spec(s@) is Some,
    ensures
        name@ == s@.subrange(0, skip_word_dot(s@, 1)),
{
    let a = skip_word_dot_exec(s, 1);
    let mut out: Vec<char> = Vec::new();
    let mut k: usize = 0;
    while k < a
        invariant
            k <= a <= s.len(),
            out@ == s@.subrange(0, k as int),
        decreases a - k,
    {
        out.push(s[k]);
        assert(s@.subrange(0, k + 1) =~= s@.subrange(0, k as int).push(s@[k as int]));
        k += 1;
    }
    out
}

/// Returns the entry-name prefix of a line that has the entry-head
/// shape: its leading run of word characters and dots, before the
/// whitespace and colon that follow it.
pub fn entry_name(trimmed: &str) -> (name: String)
    requires
        entry_col_spec(trimmed@) is Some,
    ensures
        name@ == trimmed@.subrange(0, skip_word_dot(trimmed@, 1)),
{
    let s = chars_of(trimmed);
    let out = entry_name_chars(&s);
    string_from_chars(out.as_slice())
}

/// The Markdown list-marker shape: `-`, `*` or `+` followed by a space,
/// or one or more digits followed by `. `.
pub open spec fn list_marker_spec(s: Seq<char>) -> bool {
    ||| s.len() >= 2 && (s[0] == '-' || s[0] == '*' || s[0] == '+') && s[1] == ' '
    ||| {
        let d = skip_digit(s, 0);
        &&& d > 0
        &&& d + 1 < s.len()
        &&& s[d] == '.'
        &&& s[d + 1] == ' '
    }
}

/// `list_marker_spec` computed over a character vector.
pub fn list_marker_chars(s: &Vec<char>) -> (r: bool)
    ensures
        r == list_marker_spec(s@),
{
    if s.len() >= 2 && (s[0] == '-' || s[0] == '*' || s[0] == '+') && s[1] == ' ' {
        return true;
    }
    let mut d: usize = 0;
    while d < s.len() && '0' <= s[d] && s[d] <= '9'
        invariant
            d <= s.len(),
            skip_digit(s@, 0) == skip_digit(s@, d as int),
        decreases s.len() - d,
    {
        d += 1;
    }
    d > 0 && d < s.len() && s[d] == '.' && d + 1 < s.len() && s[d + 1] == ' '
}

/// True when `trimmed` opens with a Markdown list marker (`-`, `*`,
/// or `+` followed by a space) or a numeric marker (one or more digits
/// followed by `. `).
pub fn is_list_marker(trimmed: &str) -> (r: bool)
    ensures
        r == list_marker_spec(trimmed@),
{
    let s = chars_of(trimmed);
    list_marker_chars(&s)
}


/// The byte range of a docstring's body: between the opener (the
/// string prefix and three quotes) and the three-quote closer. `None`
/// for a literal that is not triple-quoted, or that shares its line
/// with earlier code.
pub open spec fn body_range_spec(
    src: Seq<u8>,
    lit_start: int,
    lit_end: int,
    prefix_len: int,
    triple_quoted: bool,
) -> Option<(int, int)> {
    if !triple_quoted || !is_own_line(src, lit_start) {
        None
    } else {
        Some((lit_start + prefix_len + 3, lit_end - 3))
    }
}

/// Returns the body range of the string literal spanning
/// `lit_start..lit_end`, whose prefix is `prefix_len` bytes; see
/// [`body_range_spec`].
pub fn triple_quoted_body(source: &[u8], lit_start: u32, lit_end: u32, prefix_len: u32, triple_quoted: bool) -> (r:
    Option<(u32, u32)>)
    requires
        lit_start <= lit_end <= source.len(),
        triple_quoted ==> lit_start + prefix_len + 6 <= lit_end,
    ensures
        r matches Some((a, b)) ==> body_range_spec(source@, lit_start as int, lit_end as int, prefix_len as int, triple_quoted) == Some((a as int, b as int)),
        r is None <==> body_range_spec(source@, lit_start as int, lit_end as int, prefix_len as int, triple_quoted) is None,
{
    if !triple_quoted || !own_line(source, lit_start) {
        return None;
    }
    Some((lit_start + prefix_len + 3, lit_end - 3))
}

/// A character that may stand in an identifier: an ASCII letter, an
/// ASCII digit or the underscore.
pub open spec fn identifier_char(c: char) -> bool {
    ||| 'a' <= c <= 'z'
    ||| 'A' <= c <= 'Z'
    ||| '0' <= c <= '9'
    ||| c == '_'
}

proof fn lemma_name_run(s: Seq<char>, n: int, i: int)
    requires
        1 <= i <= n < s.len(),
        s[n] == ':',
        forall|k: int| 1 <= k < n ==> identifier_char(#[trigger] s[k]) || s[k] == '.',
    ensures
        skip_word_dot(s, i) == n,
    decreases n - i,
{
    if i < n {
        lemma_name_run(s, n, i + 1);
    }
}

/// Any dotted identifier heads an entry: a name whose first character
/// may stand in an identifier and whose other characters may stand in
/// one or be dots, then `: ` and a description opening with a
/// non-space character, has its description start right after the
/// colon and its space, and the whole name as the entry's name.
pub proof fn lemma_identifier_heads_an_entry(name: Seq<char>, description: Seq<char>)
    requires
        name.len() > 0,
        identifier_char(name[0]),
        forall|k: int| 0 < k < name.len() ==> identifier_char(#[trigger] name[k]) || name[k] == '.',
        description.len() > 0,
        !(description[0] == ' ' || description[0] == '\t' || description[0] == '\n' || description[0] == '\x0b'
            || description[0] == '\x0c' || description[0] == '\r'),
    ensures
        entry_col_spec(name + seq![':', ' '] + description) == Some(name.len() + 2int),
        skip_word_dot(name + seq![':', ' '] + description, 1) == name.len(),
{
    let s = name + seq![':', ' '] + description;
    let n = name.len() as int;
    assert(s[n] == ':');
    assert(s[n + 1] == ' ');
    assert(s[n + 2] == description[0]);
    assert forall|k: int| 1 <= k < n implies identifier_char(#[trigger] s[k]) || s[k] == '.' by {
        assert(s[k] == name[k]);
    }
    assert(s[0] == name[0]);
    lemma_name_run(s, n, 1);
    assert(skip_space(s, n + 2) == n + 2);
    assert(skip_space(s, n + 1) == n + 2);
    assert(skip_space(s, n) == n);
}

} // verus!
