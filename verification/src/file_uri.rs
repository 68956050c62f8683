//! Mapping between filesystem paths and `file://` URIs.

use vstd::prelude::*;
use vstd::utf8::*;

use crate::rule::str_eq;
use crate::text::{chars_of, push_str};

verus! {

/// A character the path encoder keeps as it is: an ASCII letter or
/// digit, or one of `-._~!$&'()*+,;=:@/` (RFC 3986 `pchar` and `/`).
pub open spec fn path_char_allowed(c: char) -> bool {
    ||| ('a' <= c && c <= 'z') || ('A' <= c && c <= 'Z') || ('0' <= c && c <= '9')
    ||| c == '-' || c == '.' || c == '_' || c == '~'
    ||| c == '!' || c == '$' || c == '&' || c == '\'' || c == '(' || c == ')' || c == '*' || c == '+' || c == ','
        || c == ';' || c == '='
    ||| c == ':' || c == '@' || c == '/'
}

/// The uppercase hex digit for `d`, below sixteen.
pub open spec fn upper_hex(d: int) -> char {
    "0123456789ABCDEF"@[d]
}

/// Each byte as `%XX` with uppercase hex digits.
pub open spec fn pct_bytes(bs: Seq<u8>) -> Seq<char>
    decreases bs.len(),
{
    if bs.len() == 0 {
        Seq::empty()
    } else {
        seq!['%', upper_hex((bs[0] / 16) as int), upper_hex((bs[0] % 16) as int)] + pct_bytes(bs.drop_first())
    }
}

/// The path percent-encoding: allowed characters kept, every byte of
/// the UTF-8 encoding of any other character percent-encoded.
pub open spec fn pct_encode_path(s: Seq<char>) -> Seq<char>
    decreases s.len(),
{
    if s.len() == 0 {
        Seq::empty()
    } else {
        (if path_char_allowed(s[0]) { seq![s[0]] } else { pct_bytes(encode_utf8(seq![s[0]])) }) + pct_encode_path(
            s.drop_first(),
        )
    }
}

/// `fluent_uri`'s `EString::<encoder::Path>::encode_str`, which keeps
/// each character the path table allows and percent-encodes the UTF-8
/// bytes of every other, with uppercase hex digits.
#[verifier::external_body]
fn encode_path(s: &str) -> (r: String)
    ensures
        r@ == pct_encode_path(s@),
{
    let mut encoded = fluent_uri::pct_enc::EString::<fluent_uri::pct_enc::encoder::Path>::new();
    encoded.encode_str::<fluent_uri::pct_enc::encoder::Path>(s);
    encoded.as_str().to_string()
}

/// A name that no platform std documents takes as absolute: empty, or
/// opening with neither a slash nor a backslash nor a `C:`-style drive
/// prefix.
pub open spec fn plainly_relative(name: Seq<char>) -> bool {
    name.len() == 0 || (name[0] != '/' && name[0] != '\\' && !drive_prefix_spec(encode_utf8(name)))
}

/// `std::path::Path::is_absolute` of `name`. On Unix a path is absolute
/// when it starts with the root `/`; on Windows when it has a prefix
/// (a drive such as `C:`, or a UNC or verbatim prefix led by two
/// backslashes) and a root. So a plainly relative name is never
/// absolute; for any other name the answer differs between platforms and
/// is not stated.
#[verifier::external_body]
fn path_is_absolute(name: &str) -> (r: bool)
    ensures
        plainly_relative(name@) ==> !r,
{
    std::path::Path::new(name).is_absolute()
}

/// The URI of a path: `file://` and the percent-encoded path for an
/// absolute path, the path itself otherwise.
pub open spec fn uri_of(name: Seq<char>, absolute: bool) -> Seq<char> {
    if absolute {
        "file://"@ + pct_encode_path(name)
    } else {
        name
    }
}

/// Renders a path whose absoluteness is `absolute` as a URI; see
/// [`uri_of`].
pub fn uri_for_path(name: &str, absolute: bool) -> (r: String)
    ensures
        r@ == uri_of(name@, absolute),
{
    let mut out = String::new();
    if absolute {
        push_str(&mut out, "file://");
        let encoded = encode_path(name);
        push_str(&mut out, encoded.as_str());
    } else {
        push_str(&mut out, name);
    }
    out
}

/// Renders an absolute source path as a percent-encoded `file://` URI,
/// passing a relative path through unchanged.
pub fn from_path(name: &str) -> (r: String)
    ensures
        r@ == uri_of(name@, true) || r@ == uri_of(name@, false),
        plainly_relative(name@) ==> r@ == name@,
{
    uri_for_path(name, path_is_absolute(name))
}

/// A `C:`-style drive prefix: an ASCII letter then `:`.
pub open spec fn drive_prefix_spec(b: Seq<u8>) -> bool {
    b.len() >= 2 && ((65 <= b[0] <= 90) || (97 <= b[0] <= 122)) && b[1] == 58
}

/// Returns `true` when `s` opens with a `C:`-style Windows drive letter.
pub fn has_drive_prefix(s: &str) -> (r: bool)
    ensures
        r == drive_prefix_spec(encode_utf8(s@)),
{
    let b = s.as_bytes();
    b.len() >= 2 && ((65 <= b[0] && b[0] <= 90) || (97 <= b[0] && b[0] <= 122)) && b[1] == 58
}

/// The local path a decoded `file://` URI path names: a Windows drive
/// arrives as `/C:/dir`, so its leading slash is dropped.
pub open spec fn local_path_spec(s: Seq<char>) -> Seq<char> {
    if s.len() > 0 && s[0] == '/' && drive_prefix_spec(encode_utf8(s.drop_first())) {
        s.drop_first()
    } else {
        s
    }
}

/// Returns the local path a decoded `file://` URI path names; see
/// [`local_path_spec`].
pub fn local_path(decoded: &str) -> (r: String)
    ensures
        r@ == local_path_spec(decoded@),
{
    let cs = chars_of(decoded);
    if cs.len() > 0 && cs[0] == '/' {
        let rest = crate::text::char_slice(&cs, 1, cs.len());
        let rest = crate::text::string_from_chars(rest.as_slice());
        assert(rest@ =~= decoded@.drop_first());
        if has_drive_prefix(rest.as_str()) {
            return rest;
        }
    }
    let mut out = String::new();
    push_str(&mut out, decoded);
    out
}

/// The scheme and the percent-encoded path that `fluent_uri::Uri::parse`
/// finds in `uri`, or `None` when `uri` is no URI.
pub uninterp spec fn uri_components(uri: Seq<char>) -> Option<(Seq<char>, Seq<char>)>;

/// `fluent_uri::Uri::parse` of `uri`, handing back the parsed URI's
/// scheme and percent-encoded path as text; `None` for a parse error.
/// What the parser accepts and splits out is named, not stated.
#[verifier::external_body]
fn parse_uri(uri: &str) -> (r: Option<(String, String)>)
    ensures
        match r {
            Some((scheme, path)) => uri_components(uri@) == Some((scheme@, path@)),
            None => uri_components(uri@) is None,
        },
{
    let parsed = fluent_uri::Uri::parse(uri).ok()?;
    Some((parsed.scheme().as_str().to_string(), parsed.path().as_str().to_string()))
}

/// The text a percent-encoded URI path decodes to, or `None` when it is
/// not valid percent-encoded path text or decodes to bytes that are not
/// UTF-8.
pub uninterp spec fn decoded_path_text(path: Seq<char>) -> Option<Seq<char>>;

/// `fluent_uri`'s percent decoding of a URI path (`EStr::new`, then
/// `decode` and `to_string`), which fails on malformed escapes and on
/// decoded bytes that are not UTF-8. The decoding itself is named, not
/// stated.
#[verifier::external_body]
fn decode_path(path: &str) -> (r: Option<String>)
    ensures
        match r {
            Some(t) => decoded_path_text(path@) == Some(t@),
            None => decoded_path_text(path@) is None,
        },
{
    let estr = fluent_uri::pct_enc::EStr::<fluent_uri::pct_enc::encoder::Path>::new(path)?;
    estr.decode().to_string().ok().map(|t| t.into_owned())
}

/// The local path a `file://` URI names: `None` for text that is no
/// URI, for any other scheme, and for a path that does not decode.
pub open spec fn to_path_spec(uri: Seq<char>) -> Option<Seq<char>> {
    match uri_components(uri) {
        None => None,
        Some((scheme, path)) => if scheme != "file"@ {
            None
        } else {
            match decoded_path_text(path) {
                None => None,
                Some(decoded) => Some(local_path_spec(decoded)),
            }
        },
    }
}

/// Turns a `file://` URI into the local path it names; see
/// [`to_path_spec`].
pub fn to_path(uri: &str) -> (r: Option<String>)
    ensures
        match r {
            Some(p) => to_path_spec(uri@) == Some(p@),
            None => to_path_spec(uri@) is None,
        },
{
    let (scheme, path) = match parse_uri(uri) {
        Some(parts) => parts,
        None => {
            return None;
        },
    };
    let decoded = decode_path(path.as_str());
    let d = match &decoded {
        Some(t) => Some(t.as_str()),
        None => None,
    };
    file_path_of(scheme.as_str(), d)
}

/// Returns the local path a decoded URI path names once a URI has been
/// split: `None` unless `scheme` is `file`; see [`local_path_spec`].
pub fn file_path_of(scheme: &str, decoded: Option<&str>) -> (r: Option<String>)
    ensures
        match r {
            Some(p) => scheme@ == "file"@ && (decoded matches Some(d) && p@ == local_path_spec(d@)),
            None => scheme@ != "file"@ || decoded is None,
        },
{
    if !str_eq(scheme, "file") {
        return None;
    }
    match decoded {
        Some(d) => Some(local_path(d)),
        None => None,
    }
}

} // verus!
