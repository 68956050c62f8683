//! Collapses a soft-wrapped expression back onto a single line: each
//! whitespace run that spans a line break folds to one space, while runs
//! without a break keep the source's own spacing.

use vstd::prelude::*;
use vstd::utf8::*;

use crate::text::{chars_of, lemma_take_le, lemma_take_step, push_char, utf8_width};

verus! {

/// The Unicode White_Space property (PropList.txt): tab through
/// carriage return, space, next line, no-break space, ogham space mark,
/// the en quad through hair space block, line and paragraph separators,
/// narrow no-break space, medium mathematical space and ideographic
/// space.
pub open spec fn unicode_whitespace(c: char) -> bool {
    let v = c as u32;
    ||| 0x09 <= v <= 0x0d
    ||| v == 0x20
    ||| v == 0x85
    ||| v == 0xa0
    ||| v == 0x1680
    ||| 0x2000 <= v <= 0x200a
    ||| v == 0x2028
    ||| v == 0x2029
    ||| v == 0x202f
    ||| v == 0x205f
    ||| v == 0x3000
}

/// True exactly for a character with the Unicode White_Space property,
/// the set std's `char::is_whitespace` documents.
fn is_whitespace(c: char) -> (r: bool)
    ensures
        r == unicode_whitespace(c),
{
    let v = c as u32;
    (0x09 <= v && v <= 0x0d) || v == 0x20 || v == 0x85 || v == 0xa0 || v == 0x1680 || (0x2000 <= v && v <= 0x200a)
        || v == 0x2028 || v == 0x2029 || v == 0x202f || v == 0x205f || v == 0x3000
}

/// The end of the whitespace run starting at `i`.
pub open spec fn run_end(s: Seq<char>, i: int) -> int
    decreases s.len() - i,
{
    if 0 <= i < s.len() && unicode_whitespace(s[i]) {
        run_end(s, i + 1)
    } else {
        i
    }
}

/// A whitespace run ends inside the text, past its start when it has one.
pub proof fn lemma_run_end(s: Seq<char>, i: int)
    requires
        0 <= i <= s.len(),
    ensures
        i <= run_end(s, i) <= s.len(),
        i < s.len() && unicode_whitespace(s[i]) ==> run_end(s, i) > i,
    decreases s.len() - i,
{
    if i < s.len() && unicode_whitespace(s[i]) {
        lemma_run_end(s, i + 1);
    }
}

/// The text from index `i` on with every whitespace run holding a line
/// feed folded to a single space.
pub open spec fn collapse_from(s: Seq<char>, i: int) -> Seq<char>
    decreases s.len() - i,
{
    if 0 <= i < s.len() {
        if unicode_whitespace(s[i]) {
            let j = run_end(s, i);
            proof {
                lemma_run_end(s, i);
            }
            (if s.subrange(i, j).contains('\n') { seq![' '] } else { s.subrange(i, j) }) + collapse_from(s, j)
        } else {
            seq![s[i]] + collapse_from(s, i + 1)
        }
    } else {
        Seq::empty()
    }
}

/// The maximal whitespace runs from index `i` on, as character spans.
pub open spec fn runs_from(s: Seq<char>, i: int) -> Seq<(int, int)>
    decreases s.len() - i,
{
    if 0 <= i < s.len() {
        if unicode_whitespace(s[i]) {
            let j = run_end(s, i);
            proof {
                lemma_run_end(s, i);
            }
            seq![(i, j)] + runs_from(s, j)
        } else {
            runs_from(s, i + 1)
        }
    } else {
        Seq::empty()
    }
}

fn run_end_exec(s: &Vec<char>, i: usize) -> (j: usize)
    requires
        i <= s.len(),
    ensures
        j == run_end(s@, i as int),
        i <= j <= s.len(),
{
    let mut j = i;
    while j < s.len() && is_whitespace(s[j])
        invariant
            i <= j <= s.len(),
            run_end(s@, i as int) == run_end(s@, j as int),
        decreases s.len() - j,
    {
        j += 1;
    }
    j
}

fn has_line_feed_in(s: &Vec<char>, a: usize, b: usize) -> (r: bool)
    requires
        a <= b <= s.len(),
    ensures
        r == s@.subrange(a as int, b as int).contains('\n'),
{
    let mut k = a;
    while k < b
        invariant
            a <= k <= b <= s.len(),
            forall|q: int| a <= q < k ==> s@[q] != '\n',
        decreases b - k,
    {
        if s[k] == '\n' {
            assert(s@.subrange(a as int, b as int)[k - a] == '\n');
            return true;
        }
        k += 1;
    }
    assert forall|q: int| 0 <= q < b - a implies s@.subrange(a as int, b as int)[q] != '\n' by {
        assert(s@.subrange(a as int, b as int)[q] == s@[a + q]);
    }
    false
}

/// Collapses each whitespace run that spans a line break into a single
/// space, leaving runs without a break untouched.
pub fn collapse_soft_wraps(text: &str) -> (out: String)
    ensures
        out@ == collapse_from(text@, 0),
        !out@.contains('\n'),
        !text@.contains('\n') ==> out@ == text@,
        collapse_from(out@, 0) == out@,
{
    proof {
        lemma_collapse_no_line_feed(text@, 0);
        assert(text@.subrange(0, text@.len() as int) =~= text@);
        if !text@.contains('\n') {
            lemma_collapse_keeps_unbroken(text@, 0);
        }
        let o = collapse_from(text@, 0);
        assert(o.subrange(0, o.len() as int) =~= o);
        lemma_collapse_keeps_unbroken(o, 0);
    }
    let s = chars_of(text);
    let mut out = String::new();
    let mut i: usize = 0;
    while i < s.len()
        invariant
            i <= s.len(),
            s@ == text@,
            collapse_from(s@, 0) == out@ + collapse_from(s@, i as int),
        decreases s.len() - i,
    {
        let ghost before = out@;
        if is_whitespace(s[i]) {
            let j = run_end_exec(&s, i + 1);
            assert(run_end(s@, i as int) == run_end(s@, i + 1));
            let has_break = has_line_feed_in(&s, i, j);
            if has_break {
                push_char(&mut out, ' ');
            } else {
                let mut q = i;
                while q < j
                    invariant
                        i <= q <= j <= s.len(),
                        out@ == before + s@.subrange(i as int, q as int),
                    decreases j - q,
                {
                    push_char(&mut out, s[q]);
                    assert(s@.subrange(i as int, q + 1) =~= s@.subrange(i as int, q as int).push(s@[q as int]));
                    q += 1;
                }
            }
            assert(collapse_from(s@, i as int) == (if s@.subrange(i as int, j as int).contains('\n') {
                seq![' ']
            } else {
                s@.subrange(i as int, j as int)
            }) + collapse_from(s@, j as int));
            assert(out@ + collapse_from(s@, j as int) =~= before + collapse_from(s@, i as int));
            i = j;
        } else {
            push_char(&mut out, s[i]);
            assert(out@ + collapse_from(s@, i + 1) =~= before + collapse_from(s@, i as int));
            i += 1;
        }
    }
    assert(out@ + collapse_from(s@, i as int) =~= out@);
    out
}

/// The byte span `(start, length)` of each maximal whitespace run in
/// `text`, in order.
pub fn whitespace_runs(text: &str) -> (r: Vec<(usize, usize)>)
    requires
        encode_utf8(text@).len() <= usize::MAX,
    ensures
        r@.len() == runs_from(text@, 0).len(),
        forall|k: int|
            0 <= k < r@.len() ==> {
                let (b, e) = #[trigger] runs_from(text@, 0)[k];
                &&& r@[k].0 == encode_utf8(text@.take(b)).len()
                &&& r@[k].0 + r@[k].1 == encode_utf8(text@.take(e)).len()
            },
{
    let s = chars_of(text);
    let mut out: Vec<(usize, usize)> = Vec::new();
    let ghost mut spans: Seq<(int, int)> = Seq::empty();
    let mut i: usize = 0;
    let mut pos: usize = 0;
    assert(s@.take(0) =~= Seq::<char>::empty());
    while i < s.len()
        invariant
            i <= s.len(),
            s@ == text@,
            encode_utf8(text@).len() <= usize::MAX,
            pos == encode_utf8(s@.take(i as int)).len(),
            runs_from(s@, 0) == spans + runs_from(s@, i as int),
            out@.len() == spans.len(),
            forall|k: int|
                0 <= k < out@.len() ==> {
                    let (b, e) = #[trigger] spans[k];
                    &&& out@[k].0 == encode_utf8(s@.take(b)).len()
                    &&& out@[k].0 + out@[k].1 == encode_utf8(s@.take(e)).len()
                },
        decreases s.len() - i,
    {
        proof {
            lemma_take_step(s@, i as int);
            lemma_take_le(s@, i + 1);
        }
        if is_whitespace(s[i]) {
            let start = pos;
            let mut j = i;
            let mut pj = pos;
            while j < s.len() && is_whitespace(s[j])
                invariant
                    i <= j <= s.len(),
                    encode_utf8(s@).len() <= usize::MAX,
                    pj == encode_utf8(s@.take(j as int)).len(),
                    run_end(s@, i as int) == run_end(s@, j as int),
                decreases s.len() - j,
            {
                proof {
                    lemma_take_step(s@, j as int);
                    lemma_take_le(s@, j + 1);
                }
                pj = pj + utf8_width(s[j]) as usize;
                j += 1;
            }
            proof {
                lemma_take_le(s@, j as int);
                lemma_run_end(s@, i as int);
                if i < j {
                    crate::text::lemma_take_strict(s@, i as int, j as int);
                }
            }
            let ghost old_spans = spans;
            out.push((start, pj - start));
            proof {
                spans = spans.push((i as int, j as int));
                assert(runs_from(s@, i as int) == seq![(i as int, j as int)] + runs_from(s@, j as int));
                assert(old_spans + runs_from(s@, i as int) =~= spans + runs_from(s@, j as int));
                assert forall|k: int| 0 <= k < out@.len() implies {
                    let (b, e) = #[trigger] spans[k];
                    &&& out@[k].0 == encode_utf8(s@.take(b)).len()
                    &&& out@[k].0 + out@[k].1 == encode_utf8(s@.take(e)).len()
                } by {
                    if k < old_spans.len() {
                        assert(spans[k] == old_spans[k]);
                    }
                }
            }
            i = j;
            pos = pj;
        } else {
            pos = pos + utf8_width(s[i]) as usize;
            i += 1;
        }
    }
    assert(spans + runs_from(s@, i as int) =~= spans);
    out
}


/// The shape of an expression as far as soft-wrap collapsing cares:
/// its operator nodes, and leaves that are literals (numbers, booleans,
/// `None`), dotted names, or anything else.
pub enum ExprShape {
    BinOp { left: Box<ExprShape>, right: Box<ExprShape> },
    BoolOp { values: Vec<ExprShape> },
    Compare { left: Box<ExprShape>, comparators: Vec<ExprShape> },
    UnaryOp { operand: Box<ExprShape> },
    Literal,
    DottedName,
    Other,
}

/// An expression built only from binary, boolean, comparison and unary
/// operators over dotted names and literal atoms.
pub open spec fn atom_tree(e: ExprShape) -> bool
    decreases e,
{
    match e {
        ExprShape::BinOp { left, right } => atom_tree(*left) && atom_tree(*right),
        ExprShape::BoolOp { values } => all_atom_trees(values@),
        ExprShape::Compare { left, comparators } => atom_tree(*left) && all_atom_trees(comparators@),
        ExprShape::UnaryOp { operand } => atom_tree(*operand),
        ExprShape::Literal => true,
        ExprShape::DottedName => true,
        ExprShape::Other => false,
    }
}

/// Every expression of `vs` is an operator tree over atoms.
pub open spec fn all_atom_trees(vs: Seq<ExprShape>) -> bool
    decreases vs,
{
    if vs.len() == 0 {
        true
    } else {
        atom_tree(vs[0]) && all_atom_trees(vs.subrange(1, vs.len() as int))
    }
}

/// Whether `e` is an operator tree over dotted names and literal atoms,
/// the expressions whose soft wraps collapse without respacing a token;
/// see [`atom_tree`].
pub fn is_operator_atom_tree(e: &ExprShape) -> (r: bool)
    ensures
        r == atom_tree(*e),
    decreases e,
{
    match e {
        ExprShape::BinOp { left, right } => is_operator_atom_tree(left) && is_operator_atom_tree(right),
        ExprShape::BoolOp { values } => all_operator_atom_trees(values),
        ExprShape::Compare { left, comparators } => is_operator_atom_tree(left) && all_operator_atom_trees(
            comparators,
        ),
        ExprShape::UnaryOp { operand } => is_operator_atom_tree(operand),
        ExprShape::Literal => true,
        ExprShape::DottedName => true,
        ExprShape::Other => false,
    }
}

fn all_operator_atom_trees(vs: &Vec<ExprShape>) -> (r: bool)
    ensures
        r == all_atom_trees(vs@),
    decreases vs,
{
    let mut i: usize = vs.len();
    let mut ok = true;
    while i > 0
        invariant
            i <= vs.len(),
            ok == all_atom_trees(vs@.subrange(i as int, vs@.len() as int)),
        decreases i,
    {
        i -= 1;
        assert(vs@.subrange(i as int, vs@.len() as int).subrange(1, (vs@.len() - i) as int) =~= vs@.subrange(
            i + 1,
            vs@.len() as int,
        ));
        let here = is_operator_atom_tree(&vs[i]);
        ok = here && ok;
    }
    assert(vs@.subrange(0, vs@.len() as int) =~= vs@);
    ok
}


/// A collapsed text holds no line feed: a run with one becomes a space,
/// and a line feed is itself whitespace.
pub proof fn lemma_collapse_no_line_feed(s: Seq<char>, i: int)
    requires
        0 <= i,
    ensures
        !collapse_from(s, i).contains('\n'),
    decreases s.len() - i,
{
    if 0 <= i < s.len() {
        if unicode_whitespace(s[i]) {
            let j = run_end(s, i);
            lemma_run_end(s, i);
            lemma_collapse_no_line_feed(s, j);
            let head = if s.subrange(i, j).contains('\n') { seq![' '] } else { s.subrange(i, j) };
            assert(!head.contains('\n'));
            let whole = head + collapse_from(s, j);
            assert forall|k: int| 0 <= k < whole.len() implies whole[k] != '\n' by {
                if k < head.len() {
                    assert(whole[k] == head[k]);
                } else {
                    assert(whole[k] == collapse_from(s, j)[k - head.len()]);
                }
            }
        } else {
            lemma_collapse_no_line_feed(s, i + 1);
            assert(s[i] != '\n');
            let whole = seq![s[i]] + collapse_from(s, i + 1);
            assert forall|k: int| 0 <= k < whole.len() implies whole[k] != '\n' by {
                if k > 0 {
                    assert(whole[k] == collapse_from(s, i + 1)[k - 1]);
                }
            }
        }
    }
}

/// Text with no line feed from `i` on collapses to itself.
pub proof fn lemma_collapse_keeps_unbroken(s: Seq<char>, i: int)
    requires
        0 <= i <= s.len(),
        !s.subrange(i, s.len() as int).contains('\n'),
    ensures
        collapse_from(s, i) == s.subrange(i, s.len() as int),
    decreases s.len() - i,
{
    let tail = s.subrange(i, s.len() as int);
    if i < s.len() {
        if unicode_whitespace(s[i]) {
            let j = run_end(s, i);
            lemma_run_end(s, i);
            let run = s.subrange(i, j);
            let rest = s.subrange(j, s.len() as int);
            assert forall|k: int| 0 <= k < run.len() implies #[trigger] run[k] != '\n' by {
                assert(run[k] == tail[k]);
            }
            assert forall|k: int| 0 <= k < rest.len() implies #[trigger] rest[k] != '\n' by {
                assert(rest[k] == tail[k + (j - i)]);
            }
            lemma_collapse_keeps_unbroken(s, j);
            assert(run + rest =~= tail);
        } else {
            let rest = s.subrange(i + 1, s.len() as int);
            assert forall|k: int| 0 <= k < rest.len() implies #[trigger] rest[k] != '\n' by {
                assert(rest[k] == tail[k + 1]);
            }
            lemma_collapse_keeps_unbroken(s, i + 1);
            assert(seq![s[i]] + rest =~= tail);
        }
    }
}

} // verus!
