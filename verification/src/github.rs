//! GitHub workflow-command annotations: one `::warning` line per
//! diagnostic, carrying the file, the one-based start line and column,
//! and the end position when the range stays on one line.

use vstd::prelude::*;
use vstd::utf8::*;

use crate::diagnostics::Diagnostic;
use crate::locator::{line_column, line_index, line_start_of};
use crate::output::{decimal, push_decimal};
use crate::text::{index_of_offset, is_offset, push_str};

verus! {

/// The one-based line of byte offset `off`.
pub open spec fn line_at(text: Seq<char>, off: int) -> int {
    line_index(text, index_of_offset(text, off)) + 1
}

/// The one-based character column of byte offset `off`.
pub open spec fn column_at(text: Seq<char>, off: int) -> int {
    let k = index_of_offset(text, off);
    k - line_start_of(text, k) + 1
}

/// The end fields of an annotation: present only when the range starts
/// and ends on the same line.
pub open spec fn end_fields(text: Seq<char>, start: int, end: int) -> Seq<char> {
    if line_at(text, start) == line_at(text, end) {
        ",endLine="@ + decimal(line_at(text, end) as nat) + ",endColumn="@ + decimal(
            column_at(text, end) as nat,
        )
    } else {
        Seq::empty()
    }
}

/// The annotation line for a diagnostic over `start..end` with
/// `message`, in the file `name` whose text is `text`.
pub open spec fn annotation_line(
    name: Seq<char>,
    text: Seq<char>,
    start: int,
    end: int,
    message: Seq<char>,
) -> Seq<char> {
    "::warning file="@ + name + ",line="@ + decimal(line_at(text, start) as nat) + ",col="@
        + decimal(column_at(text, start) as nat) + end_fields(text, start, end) + "::"@ + message
        + seq!['\n']
}

/// Whether `d` lies inside `text`, with the text small enough for its
/// offsets.
pub open spec fn locatable(text: Seq<char>, d: Diagnostic) -> bool {
    &&& encode_utf8(text).len() < u32::MAX
    &&& is_offset(text, d.start as int)
    &&& is_offset(text, d.end as int)
}

/// Appends the annotation line of `diag` in the file `name` holding
/// `text`.
pub fn annotate(out: &mut String, name: &str, text: &str, diag: &Diagnostic)
    requires
        locatable(text@, *diag),
    ensures
        final(out)@ == old(out)@ + annotation_line(
            name@,
            text@,
            diag.start as int,
            diag.end as int,
            diag.message@,
        ),
{
    let (l, c) = line_column(text, diag.start);
    let (el, ec) = line_column(text, diag.end);
    push_str(out, "::warning file=");
    push_str(out, name);
    push_str(out, ",line=");
    push_decimal(out, l as u128);
    push_str(out, ",col=");
    push_decimal(out, c as u128);
    if l == el {
        push_str(out, ",endLine=");
        push_decimal(out, el as u128);
        push_str(out, ",endColumn=");
        push_decimal(out, ec as u128);
    }
    push_str(out, "::");
    push_str(out, diag.message.as_str());
    push_str(out, "\n");
    proof {
        reveal_strlit("\n");
        let ghost t = text@;
        let ghost s = diag.start as int;
        let ghost e = diag.end as int;
        assert(end_fields(t, s, e) == (if l == el {
            ",endLine="@ + decimal(el as nat) + ",endColumn="@ + decimal(ec as nat)
        } else {
            Seq::<char>::empty()
        }));
        assert(old(out)@ + annotation_line(name@, t, s, e, diag.message@) =~= old(out)@
            + "::warning file="@ + name@ + ",line="@ + decimal(l as nat) + ",col="@ + decimal(
            c as nat,
        ) + end_fields(t, s, e) + "::"@ + diag.message@ + "\n"@);
    }
}

/// The annotation lines of `diags`, in order, for the file `name`
/// holding `text`.
pub open spec fn annotation_lines(
    name: Seq<char>,
    text: Seq<char>,
    diags: Seq<Diagnostic>,
) -> Seq<char>
    decreases diags.len(),
{
    if diags.len() == 0 {
        Seq::empty()
    } else {
        annotation_lines(name, text, diags.drop_last()) + annotation_line(
            name,
            text,
            diags.last().start as int,
            diags.last().end as int,
            diags.last().message@,
        )
    }
}

/// Appends one annotation line per diagnostic of `diags`, in order.
pub fn annotate_all(out: &mut String, name: &str, text: &str, diags: &[Diagnostic])
    requires
        forall|i: int| 0 <= i < diags@.len() ==> locatable(text@, #[trigger] diags@[i]),
    ensures
        final(out)@ == old(out)@ + annotation_lines(name@, text@, diags@),
{
    let mut i: usize = 0;
    while i < diags.len()
        invariant
            i <= diags@.len(),
            forall|j: int| 0 <= j < diags@.len() ==> locatable(text@, #[trigger] diags@[j]),
            out@ == old(out)@ + annotation_lines(name@, text@, diags@.take(i as int)),
        decreases diags.len() - i,
    {
        annotate(out, name, text, &diags[i]);
        proof {
            let ghost next = diags@.take(i + 1);
            assert(next.drop_last() =~= diags@.take(i as int));
            assert(next.last() == diags@[i as int]);
        }
        i += 1;
    }
    assert(diags@.take(diags@.len() as int) =~= diags@);
}

} // verus!
