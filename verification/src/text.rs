//! Character-level helpers shared by the text-shaped rules.

use vstd::prelude::*;
use vstd::utf8::*;

verus! {

broadcast use vstd::string::axiom_spec_iter;

/// Collects the characters of `s` into a vector.
pub fn chars_of(s: &str) -> (out: Vec<char>)
    ensures
        out@ == s@,
{
    let mut out: Vec<char> = Vec::new();
    for c in it: s.chars()
        invariant
            it.seq() == s@,
            out@ == it.seq().take(it.index() as int),
    {
        out.push(c);
    }
    out
}

/// Appends `c` to `s`.
#[verifier::external_body]
pub(crate) fn push_char(s: &mut String, c: char)
    ensures
        final(s)@ == old(s)@.push(c),
{
    s.push(c);
}

/// Appends the characters of `t` to `s`.
pub fn push_str(s: &mut String, t: &str)
    ensures
        final(s)@ == old(s)@ + t@,
{
    let cs = chars_of(t);
    let mut i: usize = 0;
    while i < cs.len()
        invariant
            i <= cs.len(),
            cs@ == t@,
            s@ == old(s)@ + cs@.take(i as int),
        decreases cs.len() - i,
    {
        push_char(s, cs[i]);
        assert((old(s)@ + cs@.take(i as int)).push(cs@[i as int]) =~= old(s)@ + cs@.take(i + 1));
        i += 1;
    }
    assert(cs@.take(cs.len() as int) =~= cs@);
}

/// Builds a string holding exactly the characters of `cs`.
pub fn string_from_chars(cs: &[char]) -> (out: String)
    ensures
        out@ == cs@,
{
    let mut out = String::new();
    let mut i: usize = 0;
    while i < cs.len()
        invariant
            i <= cs.len(),
            out@ == cs@.take(i as int),
        decreases cs.len() - i,
    {
        push_char(&mut out, cs[i]);
        assert(cs@.take(i as int).push(cs@[i as int]) =~= cs@.take(i + 1));
        i += 1;
    }
    assert(cs@.take(cs.len() as int) =~= cs@);
    out
}

/// `String::from_utf8`: the string `bytes` encode when they are valid
/// UTF-8, and `None` (std's error) when they are not.
#[verifier::external_body]
pub(crate) fn utf8_string(bytes: Vec<u8>) -> (r: Option<String>)
    ensures
        r is Some <==> valid_utf8(bytes@),
        r matches Some(s) ==> s@ == decode_utf8(bytes@),
{
    String::from_utf8(bytes).ok()
}

/// Decodes bytes known to be valid UTF-8 into a string.
pub fn string_from_utf8(bytes: Vec<u8>) -> (s: String)
    requires
        valid_utf8(bytes@),
    ensures
        s@ == decode_utf8(bytes@),
{
    match utf8_string(bytes) {
        Some(s) => s,
        None => String::new(),
    }
}

/// A byte range strictly inside a valid UTF-8 sequence whose ends fall
/// on character boundaries is itself valid UTF-8.
pub proof fn lemma_valid_subrange(b: Seq<u8>, i: int, j: int)
    requires
        valid_utf8(b),
        0 <= i <= j <= b.len(),
        is_char_boundary(b, i),
        is_char_boundary(b, j),
    ensures
        valid_utf8(b.subrange(i, j)),
{
    valid_utf8_split(b, j);
    let pre = b.subrange(0, j);
    if i < j {
        is_char_boundary_iff_not_is_continuation_byte(b, i);
        is_char_boundary_iff_not_is_continuation_byte(pre, i);
    } else {
        is_char_boundary_start_end_of_seq(pre);
    }
    valid_utf8_split(pre, i);
    assert(pre.subrange(i, pre.len() as int) =~= b.subrange(i, j));
}

/// UTF-8 encoding distributes over concatenation.
pub proof fn lemma_encode_utf8_add(a: Seq<char>, b: Seq<char>)
    ensures
        encode_utf8(a + b) == encode_utf8(a) + encode_utf8(b),
    decreases a.len(),
{
    if a.len() == 0 {
        assert(a + b =~= b);
        assert(encode_utf8(a) + encode_utf8(b) =~= encode_utf8(b));
    } else {
        lemma_encode_utf8_add(a.drop_first(), b);
        assert((a + b).drop_first() =~= a.drop_first() + b);
        assert(encode_utf8(a + b) =~= encode_utf8(a) + encode_utf8(b));
    }
}

/// Appends the bytes `src[from..to]` to `out`.
pub fn push_byte_range(out: &mut Vec<u8>, src: &[u8], from: usize, to: usize)
    requires
        from <= to <= src.len(),
    ensures
        final(out)@ == old(out)@ + src@.subrange(from as int, to as int),
{
    let mut i = from;
    while i < to
        invariant
            from <= i <= to <= src.len(),
            out@ == old(out)@ + src@.subrange(from as int, i as int),
        decreases to - i,
    {
        out.push(src[i]);
        assert(src@.subrange(from as int, i + 1) =~= src@.subrange(from as int, i as int).push(src@[i as int]));
        i += 1;
    }
}

/// Python indentation: space, tab or form feed.
pub open spec fn is_python_ws(c: char) -> bool {
    c == ' ' || c == '\t' || c == '\x0c'
}

/// The end of the run of indentation characters starting at `i`.
pub open spec fn skip_python_ws(s: Seq<char>, i: int) -> int
    decreases s.len() - i,
{
    if 0 <= i < s.len() && is_python_ws(s[i]) {
        skip_python_ws(s, i + 1)
    } else {
        i
    }
}

/// A line terminator.
pub open spec fn is_newline(c: char) -> bool {
    c == '\n' || c == '\r'
}

/// The index of the first line terminator at or after `i`, or the
/// length of `s` when there is none.
pub open spec fn next_break(s: Seq<char>, i: int) -> int
    decreases s.len() - i,
{
    if 0 <= i < s.len() && !is_newline(s[i]) {
        next_break(s, i + 1)
    } else {
        i
    }
}

/// The start of the line after the terminator at `e`; `\r\n` counts as
/// one terminator.
pub open spec fn line_after(s: Seq<char>, e: int) -> int {
    if e >= s.len() {
        s.len() as int
    } else if s[e] == '\r' && e + 1 < s.len() && s[e + 1] == '\n' {
        e + 2
    } else {
        e + 1
    }
}

/// `next_break` never moves backwards.
pub proof fn lemma_next_break_ge(s: Seq<char>, i: int)
    ensures
        next_break(s, i) >= i,
        0 <= i <= s.len() ==> next_break(s, i) <= s.len(),
    decreases s.len() - i,
{
    if 0 <= i < s.len() && !is_newline(s[i]) {
        lemma_next_break_ge(s, i + 1);
    }
}

/// The byte offset of character `i` of a body whose first byte sits at
/// `base`.
pub open spec fn offset_of(s: Seq<char>, i: int, base: u32) -> u32 {
    (base + encode_utf8(s.take(i)).len()) as u32
}

/// One character encodes to between one and four bytes, by its scalar
/// value.
pub proof fn lemma_char_width(c: char)
    ensures
        1 <= encode_utf8(seq![c]).len() <= 4,
        encode_utf8(seq![c]) == encode_scalar(c as u32),
{
    char_is_scalar(c);
    assert(seq![c].drop_first() =~= Seq::<char>::empty());
    assert(encode_utf8(Seq::<char>::empty()) =~= Seq::<u8>::empty());
    assert(encode_utf8(seq![c]) =~= encode_scalar(c as u32) + encode_utf8(seq![c].drop_first()));
}

/// The number of bytes UTF-8 takes for `c`.
pub fn utf8_width(c: char) -> (n: u32)
    ensures
        n == encode_utf8(seq![c]).len(),
        1 <= n <= 4,
        (c as u32) < 128 ==> n == 1,
{
    let v = c as u32;
    proof {
        lemma_char_width(c);
    }
    if v <= 0x7f {
        1
    } else if v <= 0x7ff {
        2
    } else if v <= 0xffff {
        3
    } else {
        4
    }
}

/// Encoding one more character grows the encoded prefix by its width.
pub proof fn lemma_take_step(s: Seq<char>, k: int)
    requires
        0 <= k < s.len(),
    ensures
        encode_utf8(s.take(k + 1)).len() == encode_utf8(s.take(k)).len() + encode_utf8(seq![s[k]]).len(),
{
    assert(s.take(k + 1) =~= s.take(k) + seq![s[k]]);
    lemma_encode_utf8_add(s.take(k), seq![s[k]]);
}

/// An encoded prefix is no longer than the whole encoding.
pub proof fn lemma_take_le(s: Seq<char>, k: int)
    requires
        0 <= k <= s.len(),
    ensures
        encode_utf8(s.take(k)).len() <= encode_utf8(s).len(),
{
    assert(s =~= s.take(k) + s.skip(k));
    lemma_encode_utf8_add(s.take(k), s.skip(k));
}

/// Encoded prefixes grow strictly with the number of characters.
pub proof fn lemma_take_strict(s: Seq<char>, i: int, j: int)
    requires
        0 <= i < j <= s.len(),
    ensures
        encode_utf8(s.take(i)).len() < encode_utf8(s.take(j)).len(),
    decreases j - i,
{
    lemma_take_step(s, j - 1);
    lemma_char_width(s[j - 1]);
    if i < j - 1 {
        lemma_take_strict(s, i, j - 1);
    }
}

/// True when byte offset `off` falls between two characters of `s`.
pub open spec fn is_offset(s: Seq<char>, off: int) -> bool {
    exists|k: int| 0 <= k <= s.len() && encode_utf8(s.take(k)).len() == off
}

/// The index of the character that starts at byte offset `off`.
pub open spec fn index_of_offset(s: Seq<char>, off: int) -> int {
    choose|k: int| 0 <= k <= s.len() && encode_utf8(s.take(k)).len() == off
}

/// The byte length of the first `k` characters of `s`.
pub fn prefix_bytes(s: &Vec<char>, k: usize) -> (n: u32)
    requires
        k <= s.len(),
        encode_utf8(s@).len() <= u32::MAX,
    ensures
        n == encode_utf8(s@.take(k as int)).len(),
{
    let mut i: usize = 0;
    let mut n: u32 = 0;
    assert(s@.take(0) =~= Seq::<char>::empty());
    while i < k
        invariant
            i <= k <= s.len(),
            encode_utf8(s@).len() <= u32::MAX,
            n == encode_utf8(s@.take(i as int)).len(),
        decreases k - i,
    {
        proof {
            lemma_take_step(s@, i as int);
            lemma_take_le(s@, i + 1);
        }
        n = n + utf8_width(s[i]);
        i += 1;
    }
    n
}

/// The index of the character of `s` that starts at byte offset `off`.
pub fn index_at_offset(s: &Vec<char>, off: u32) -> (k: usize)
    requires
        is_offset(s@, off as int),
        encode_utf8(s@).len() <= u32::MAX,
    ensures
        k == index_of_offset(s@, off as int),
        k <= s.len(),
        encode_utf8(s@.take(k as int)).len() == off,
{
    let ghost target = index_of_offset(s@, off as int);
    let mut i: usize = 0;
    let mut n: u32 = 0;
    assert(s@.take(0) =~= Seq::<char>::empty());
    while n < off
        invariant
            0 <= target <= s.len(),
            encode_utf8(s@.take(target)).len() == off,
            i <= target,
            encode_utf8(s@).len() <= u32::MAX,
            n == encode_utf8(s@.take(i as int)).len(),
        decreases target - i,
    {
        proof {
            if i == target {
                assert(false);
            }
            lemma_take_step(s@, i as int);
            lemma_take_le(s@, i + 1);
            if i + 1 < target {
                lemma_take_strict(s@, i + 1, target);
            }
        }
        n = n + utf8_width(s[i]);
        i += 1;
    }
    proof {
        if i < target {
            lemma_take_strict(s@, i as int, target);
        }
    }
    i
}

/// An all-ASCII character run encodes to one byte per character, each
/// byte the character's code.
pub proof fn lemma_ascii_encode(s: Seq<char>)
    requires
        forall|k: int| 0 <= k < s.len() ==> (#[trigger] s[k] as u32) < 128,
    ensures
        encode_utf8(s).len() == s.len(),
        forall|k: int| 0 <= k < s.len() ==> encode_utf8(s)[k] as u32 == #[trigger] s[k] as u32,
    decreases s.len(),
{
    if s.len() > 0 {
        let t = s.drop_first();
        assert forall|k: int| 0 <= k < t.len() implies (#[trigger] t[k] as u32) < 128 by {
            assert(t[k] == s[k + 1]);
        }
        lemma_ascii_encode(t);
        let v = s[0] as u32;
        assert(v < 128);
        assert(((v & 0x7f) as u8) as u32 == v) by (bit_vector)
            requires
                v < 128,
        ;
        char_is_scalar(s[0]);
        assert(encode_utf8(s) == encode_scalar(v) + encode_utf8(t));
        assert forall|k: int| 0 <= k < s.len() implies encode_utf8(s)[k] as u32 == #[trigger] s[k] as u32 by {
            if k > 0 {
                assert(t[k - 1] == s[k]);
            }
        }
    }
}

/// A character run takes at least one byte per character.
pub proof fn lemma_encode_len_ge(s: Seq<char>)
    ensures
        encode_utf8(s).len() >= s.len(),
    decreases s.len(),
{
    if s.len() > 0 {
        lemma_encode_len_ge(s.drop_first());
        lemma_char_width(s[0]);
        assert(s =~= seq![s[0]] + s.drop_first());
        lemma_encode_utf8_add(seq![s[0]], s.drop_first());
    }
}

/// The characters `s[a..b]`.
pub fn char_slice(s: &Vec<char>, a: usize, b: usize) -> (out: Vec<char>)
    requires
        a <= b <= s.len(),
    ensures
        out@ == s@.subrange(a as int, b as int),
{
    let mut out: Vec<char> = Vec::new();
    let mut k = a;
    while k < b
        invariant
            a <= k <= b <= s.len(),
            out@ == s@.subrange(a as int, k as int),
        decreases b - k,
    {
        out.push(s[k]);
        assert(s@.subrange(a as int, k + 1) =~= s@.subrange(a as int, k as int).push(s@[k as int]));
        k += 1;
    }
    out
}

} // verus!
