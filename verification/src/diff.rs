//! Unified-diff rendering for `format --diff`.

use vstd::prelude::*;

use crate::output::{painted, ube, ube_spec};
use crate::text::push_str;

verus! {

/// The unified diff `similar` renders between `before` and `after`,
/// diffed line by line, with the `---`/`+++` header naming `header` on
/// both sides when one is given.
pub uninterp spec fn unified_diff_of(before: Seq<char>, after: Seq<char>, header: Option<Seq<char>>) -> Seq<char>;

/// `similar::TextDiff::from_lines(before, after).unified_diff()`, with
/// `header(h, h)` set when `header` is `Some(h)`, rendered to text. The
/// text depends on the three arguments alone.
#[verifier::external_body]
fn unified_diff_text(before: &str, after: &str, header: Option<&str>) -> (s: String)
    ensures
        s@ == unified_diff_of(
            before@,
            after@,
            match header {
                Some(h) => Some(h@),
                None => None,
            },
        ),
{
    let diff = similar::TextDiff::from_lines(before, after);
    let mut unified = diff.unified_diff();
    if let Some(h) = header {
        unified.header(h, h);
    }
    format!("{}", unified)
}

/// Appends a unified diff between `before` and `after` to `out`. When
/// `decorate`, a Ube `🧵 <name>` heading line stands in for the plain
/// `---`/`+++` header, which is kept for off-TTY runs so the diff stays
/// a valid patch.
pub fn write_diff(out: &mut String, name: &str, before: &str, after: &str, decorate: bool)
    ensures
        !decorate ==> final(out)@ == old(out)@ + unified_diff_of(before@, after@, Some(name@)),
        decorate ==> exists|b: bool|
            #![trigger painted("🧵 "@ + name@, b, ube_spec())]
            final(out)@ == old(out)@ + painted("🧵 "@ + name@, b, ube_spec()) + "\n"@ + unified_diff_of(
                before@,
                after@,
                None,
            ),
{
    if decorate {
        let mut heading = String::new();
        push_str(&mut heading, "🧵 ");
        push_str(&mut heading, name);
        let painted_heading = ube(heading.as_str());
        push_str(out, painted_heading.as_str());
        push_str(out, "\n");
        let body = unified_diff_text(before, after, None);
        push_str(out, body.as_str());
        proof {
            let b = painted_heading@ == painted(heading@, true, ube_spec());
            assert(painted("🧵 "@ + name@, b, ube_spec()) == painted_heading@);
        }
    } else {
        let body = unified_diff_text(before, after, Some(name));
        push_str(out, body.as_str());
    }
}

} // verus!
