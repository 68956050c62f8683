//! Kebab-case slug validation, the shape every registered rule id
//! takes.

use vstd::prelude::*;
use vstd::utf8::*;

use crate::text::lemma_ascii_encode;

verus! {

/// A byte a slug may hold: a lowercase ASCII letter, a digit or `-`.
pub open spec fn is_slug_byte(b: u8) -> bool {
    (97 <= b <= 122) || (48 <= b <= 57) || b == 45
}

/// A valid kebab-case slug: non-empty, only lowercase ASCII letters,
/// digits and dashes, starting and ending with a letter or digit, and
/// never holding `--`.
pub open spec fn valid_slug(s: Seq<u8>) -> bool {
    &&& s.len() > 0
    &&& s[0] != 45
    &&& s[s.len() - 1] != 45
    &&& forall|i: int| 0 <= i < s.len() ==> is_slug_byte(#[trigger] s[i])
    &&& forall|i: int| 0 <= i < s.len() - 1 ==> !(#[trigger] s[i] == 45 && s[i + 1] == 45)
}

/// A character a slug may hold: a lowercase ASCII letter, a digit or
/// `-`.
pub open spec fn is_slug_char(c: char) -> bool {
    ('a' <= c && c <= 'z') || ('0' <= c && c <= '9') || c == '-'
}

/// `valid_slug` stated over characters.
pub open spec fn valid_slug_chars(s: Seq<char>) -> bool {
    &&& s.len() > 0
    &&& s[0] != '-'
    &&& s[s.len() - 1] != '-'
    &&& forall|i: int| 0 <= i < s.len() ==> is_slug_char(#[trigger] s[i])
    &&& forall|i: int| 0 <= i < s.len() - 1 ==> !(#[trigger] s[i] == '-' && s[i + 1] == '-')
}

/// A slug that is valid character by character is valid byte by byte
/// once encoded.
pub proof fn lemma_slug_chars_bytes(s: Seq<char>)
    requires
        valid_slug_chars(s),
    ensures
        valid_slug(encode_utf8(s)),
{
    assert forall|k: int| 0 <= k < s.len() implies (#[trigger] s[k] as u32) < 128 by {
        assert(is_slug_char(s[k]));
    }
    lemma_ascii_encode(s);
    let b = encode_utf8(s);
    assert(b[0] as u32 == s[0] as u32);
    assert(b[b.len() - 1] as u32 == s[s.len() - 1] as u32);
    assert forall|i: int| 0 <= i < b.len() implies is_slug_byte(#[trigger] b[i]) by {
        assert(b[i] as u32 == s[i] as u32);
        assert(is_slug_char(s[i]));
    }
    assert forall|i: int| 0 <= i < b.len() - 1 implies !(#[trigger] b[i] == 45 && b[i + 1] == 45) by {
        assert(b[i] as u32 == s[i] as u32);
        assert(b[i + 1] as u32 == s[i + 1] as u32);
        assert(!(s[i] == '-' && s[i + 1] == '-'));
    }
}

/// Returns `true` when `bytes` is a valid kebab-case slug. Non-empty,
/// starts and ends with a lowercase ASCII letter or digit, contains
/// only lowercase ASCII letters, digits, and dashes, and has no `--`
/// substring.
pub fn is_valid_slug(bytes: &[u8]) -> (r: bool)
    ensures
        r == valid_slug(bytes@),
{
    let mut i: usize = 0;
    let mut prev_was_dash = true;
    while i < bytes.len()
        invariant
            i <= bytes.len(),
            prev_was_dash == (i == 0 || bytes@[i - 1] == 45),
            i > 0 ==> bytes@[0] != 45,
            forall|k: int| 0 <= k < i ==> is_slug_byte(#[trigger] bytes@[k]),
            forall|k: int| 0 <= k < i - 1 ==> !(#[trigger] bytes@[k] == 45 && bytes@[k + 1] == 45),
        decreases bytes.len() - i,
    {
        let b = bytes[i];
        if b == 45 {
            if prev_was_dash {
                proof {
                    if i > 0 {
                        assert(bytes@[i - 1] == 45 && bytes@[i as int] == 45);
                    }
                }
                return false;
            }
            prev_was_dash = true;
        } else if (97 <= b && b <= 122) || (48 <= b && b <= 57) {
            prev_was_dash = false;
        } else {
            assert(!is_slug_byte(bytes@[i as int]));
            return false;
        }
        i += 1;
    }
    !prev_was_dash
}

/// Byte-wise equality of two slices.
pub fn slug_bytes_equal(a: &[u8], b: &[u8]) -> (r: bool)
    ensures
        r == (a@ == b@),
{
    if a.len() != b.len() {
        return false;
    }
    let mut i: usize = 0;
    while i < a.len()
        invariant
            i <= a.len() == b.len(),
            forall|k: int| 0 <= k < i ==> a@[k] == b@[k],
        decreases a.len() - i,
    {
        if a[i] != b[i] {
            return false;
        }
        i += 1;
    }
    assert(a@ =~= b@);
    true
}

} // verus!
