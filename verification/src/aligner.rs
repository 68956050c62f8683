//! Padding-width math and edit emission for the rules that align a
//! shared token across a group of lines. A source-ordered run of
//! [`Member`]s splits into the contiguous groups the `max-shift` cap
//! allows; each member's gap is rewritten so the aligned token lands
//! in its group's column, one space past the widest left-hand side.

use vstd::prelude::*;
use vstd::utf8::*;

use unicode_width::UnicodeWidthStr;

use crate::config::{AlignmentConfig, MaxAlignShiftPolicy, MaxShift};
use crate::edit::{space_padding_edit, Edit};
use crate::text::{
    char_slice, chars_of, index_at_offset, index_of_offset, is_newline, is_offset, is_python_ws, offset_of,
    prefix_bytes, string_from_chars,
};

verus! {

/// One row in an alignment group. `width` is the display width of the
/// row's left-hand side; `gap_start..gap_end` is the whitespace before
/// the aligned token that the rule rewrites; `line_start` is the offset
/// of the row's line; `op_width` is the display width of the aligned
/// operator, zero for rules with a fixed-width operator.
#[derive(Clone, Copy)]
pub struct Member {
    pub gap_start: u32,
    pub gap_end: u32,
    pub line_start: u32,
    pub op_width: usize,
    pub width: usize,
}

impl Member {
    /// A copy of `self` with `op_width` set, opting the member into
    /// right-alignment of variable-width operators.
    pub fn with_op_width(self, op_width: usize) -> (m: Member)
        ensures
            m == (Member { op_width, ..self }),
    {
        Member { op_width, ..self }
    }
}

/// The display width in columns that `unicode-width` gives the
/// characters `s`.
pub uninterp spec fn display_width(s: Seq<char>) -> usize;

/// The display width of `s` by `UnicodeWidthStr::width`, which sums
/// the widths of its characters; the empty string is zero columns wide.
/// Nothing is stated of the per-character widths, which come from the
/// crate's Unicode tables.
#[verifier::external_body]
fn str_width(s: &str) -> (w: usize)
    ensures
        w == display_width(s@),
        s@.len() == 0 ==> w == 0,
{
    s.width()
}

/// The start of the line holding character `k`: just past the last
/// line terminator before it, or zero.
pub open spec fn line_start_before(s: Seq<char>, k: int) -> int
    decreases k,
{
    if k <= 0 {
        0
    } else if is_newline(s[k - 1]) {
        k
    } else {
        line_start_before(s, k - 1)
    }
}

/// The start of the run of Python whitespace that ends at `k`, not
/// reaching back past `lo`.
pub open spec fn trim_end_from(s: Seq<char>, lo: int, k: int) -> int
    decreases k - lo,
{
    if k > lo && is_python_ws(s[k - 1]) {
        trim_end_from(s, lo, k - 1)
    } else {
        k
    }
}

/// The end of the run of Python whitespace that starts at `i`, not
/// reaching past `hi`.
pub open spec fn trim_start_to(s: Seq<char>, i: int, hi: int) -> int
    decreases hi - i,
{
    if i < hi && is_python_ws(s[i]) {
        trim_start_to(s, i + 1, hi)
    } else {
        i
    }
}

/// The member anchored at character `k` of `s`: its gap is the
/// whitespace just before the anchor, its width the display width of
/// the line's text before that gap, past the line's indentation.
pub open spec fn anchored_member_spec(s: Seq<char>, k: int) -> Member {
    let ls = line_start_before(s, k);
    let ge = trim_end_from(s, ls, k);
    let cs = trim_start_to(s, ls, ge);
    Member {
        gap_start: offset_of(s, ge, 0),
        gap_end: offset_of(s, k, 0),
        line_start: offset_of(s, ls, 0),
        op_width: 0,
        width: display_width(s.subrange(cs, ge)),
    }
}

/// The member anchored at character `k` of `s`; see
/// [`anchored_member_spec`].
pub fn anchored_member_chars(s: &Vec<char>, k: usize) -> (m: Member)
    requires
        k <= s.len(),
        encode_utf8(s@).len() <= u32::MAX,
    ensures
        m == anchored_member_spec(s@, k as int),
{
    let mut ls = k;
    while ls > 0 && !(s[ls - 1] == '\n' || s[ls - 1] == '\r')
        invariant
            ls <= k <= s.len(),
            line_start_before(s@, k as int) == line_start_before(s@, ls as int),
        decreases ls,
    {
        ls -= 1;
    }
    let mut ge = k;
    while ge > ls && (s[ge - 1] == ' ' || s[ge - 1] == '\t' || s[ge - 1] == '\x0c')
        invariant
            ls <= ge <= k <= s.len(),
            trim_end_from(s@, ls as int, k as int) == trim_end_from(s@, ls as int, ge as int),
        decreases ge,
    {
        ge -= 1;
    }
    let mut cs = ls;
    while cs < ge && (s[cs] == ' ' || s[cs] == '\t' || s[cs] == '\x0c')
        invariant
            ls <= cs <= ge <= k <= s.len(),
            trim_start_to(s@, ls as int, ge as int) == trim_start_to(s@, cs as int, ge as int),
        decreases ge - cs,
    {
        cs += 1;
    }
    let lhs = char_slice(s, cs, ge);
    let lhs = string_from_chars(lhs.as_slice());
    let width = str_width(lhs.as_str());
    let gap_start = prefix_bytes(s, ge);
    let gap_end = prefix_bytes(s, k);
    let line_start = prefix_bytes(s, ls);
    Member { gap_start, gap_end, line_start, op_width: 0, width }
}

/// Builds a member whose anchor is the character at byte offset
/// `anchor` of `source`, with the gap covering the whitespace between
/// the line's last non-whitespace text and the anchor.
pub fn line_anchored_member(source: &str, anchor: u32) -> (m: Member)
    requires
        is_offset(source@, anchor as int),
        encode_utf8(source@).len() <= u32::MAX,
    ensures
        m == anchored_member_spec(source@, index_of_offset(source@, anchor as int)),
{
    let s = chars_of(source);
    let k = index_at_offset(&s, anchor);
    anchored_member_chars(&s, k)
}

/// Emission knobs shared by every alignment rule: the `max_shift` cap
/// and whether a one-row group collapses its gap to nothing.
#[derive(Clone, Copy)]
pub struct Settings {
    pub max_shift: MaxShift,
    pub strip_singleton: bool,
}

impl Settings {
    /// The settings an alignment rule starts from: the given cap, with
    /// singleton stripping off.
    pub fn aligned(max_shift: MaxShift) -> (s: Settings)
        ensures
            s.max_shift == max_shift,
            !s.strip_singleton,
    {
        Settings { max_shift, strip_singleton: false }
    }

    /// The settings an alignment config selects.
    pub fn from_config(c: &AlignmentConfig) -> (s: Settings)
        ensures
            s.max_shift == c.max_shift,
            !s.strip_singleton,
    {
        Settings::aligned(c.max_shift)
    }

    /// The gap width before the aligned token in a group of
    /// `member_count` rows: zero for a stripped singleton, one otherwise.
    pub fn suffix_len(self, member_count: usize) -> (n: usize)
        ensures
            n == (if member_count == 1 && self.strip_singleton { 0usize } else { 1usize }),
    {
        if member_count == 1 && self.strip_singleton {
            0
        } else {
            1
        }
    }

    /// A copy of `self` with singleton stripping on.
    pub fn with_singleton_strip(self) -> (s: Settings)
        ensures
            s.max_shift == self.max_shift,
            s.strip_singleton,
    {
        Settings { max_shift: self.max_shift, strip_singleton: true }
    }
}

/// The largest value of a sequence (zero when empty).
pub open spec fn seq_max(s: Seq<usize>) -> int
    decreases s.len(),
{
    if s.len() == 0 {
        0
    } else {
        let m = seq_max(s.drop_last());
        if s.last() > m { s.last() as int } else { m }
    }
}

/// The smallest value of a non-empty sequence.
pub open spec fn seq_min(s: Seq<usize>) -> int
    decreases s.len(),
{
    if s.len() <= 1 {
        if s.len() == 0 { 0 } else { s[0] as int }
    } else {
        let m = seq_min(s.drop_last());
        if (s.last() as int) < m { s.last() as int } else { m }
    }
}

/// The width spread of a run: widest minus narrowest.
pub open spec fn spread(s: Seq<usize>) -> int {
    seq_max(s) - seq_min(s)
}

/// The left-hand-side widths of a run of members.
pub open spec fn widths(ms: Seq<Member>) -> Seq<usize> {
    ms.map_values(|m: Member| m.width)
}

/// The operator widths of a run of members.
pub open spec fn op_widths(ms: Seq<Member>) -> Seq<usize> {
    ms.map_values(|m: Member| m.op_width)
}

/// `gs` cuts `0..n` into consecutive non-empty half-open ranges.
pub open spec fn is_partition(gs: Seq<(usize, usize, usize)>, n: nat) -> bool {
    &&& n == 0 <==> gs.len() == 0
    &&& gs.len() > 0 ==> gs[0].0 == 0 && gs[gs.len() - 1].1 == n
    &&& forall|g: int| 0 <= g < gs.len() ==> #[trigger] gs[g].0 < gs[g].1 <= n
    &&& forall|g: int| 0 <= g < gs.len() - 1 ==> #[trigger] gs[g].1 == gs[g + 1].0
}

/// The groups the aligner emits independently, each with its widest
/// member's width: `NoShift` leaves every row its own group,
/// `Unlimited` gathers the run into one group, and `Cap(c)` grows each
/// group while its width spread stays within `c`, cutting a fresh group
/// at the first row that would push the spread past it.
#[verifier::opaque]
pub open spec fn reading_order_groups_spec(
    ms: Seq<Member>,
    max_shift: MaxShift,
    gs: Seq<(usize, usize, usize)>,
) -> bool {
    let w = widths(ms);
    &&& is_partition(gs, ms.len())
    &&& forall|g: int| 0 <= g < gs.len() ==> #[trigger] gs[g].2 == seq_max(w.subrange(gs[g].0 as int, gs[g].1 as int))
    &&& match max_shift {
        MaxShift::NoShift => forall|g: int| 0 <= g < gs.len() ==> #[trigger] gs[g].1 == gs[g].0 + 1,
        MaxShift::Unlimited => gs.len() <= 1,
        MaxShift::Cap(c) => {
            &&& forall|g: int| 0 <= g < gs.len() ==> spread(w.subrange(#[trigger] gs[g].0 as int, gs[g].1 as int)) <= c
            &&& forall|g: int|
                0 <= g < gs.len() - 1 ==> spread(w.subrange(#[trigger] gs[g].0 as int, gs[g].1 + 1)) > c
        },
    }
}

proof fn lemma_push_max_min(s: Seq<usize>, x: usize)
    ensures
        seq_max(s.push(x)) == (if x > seq_max(s) { x as int } else { seq_max(s) }),
        s.len() == 0 ==> seq_min(s.push(x)) == x,
        s.len() > 0 ==> seq_min(s.push(x)) == (if (x as int) < seq_min(s) { x as int } else { seq_min(s) }),
{
    assert(s.push(x).drop_last() =~= s);
    if s.len() == 0 {
        reveal_with_fuel(seq_max, 2);
        reveal_with_fuel(seq_min, 2);
    }
}

proof fn lemma_subrange_push(w: Seq<usize>, a: int, b: int)
    requires
        0 <= a < b < w.len(),
    ensures
        w.subrange(a, b + 1) == w.subrange(a, b).push(w[b]),
        w.subrange(a, b + 1).drop_last() == w.subrange(a, b),
{
    assert(w.subrange(a, b + 1) =~= w.subrange(a, b).push(w[b]));
}

proof fn lemma_max_min_bounds(s: Seq<usize>)
    requires
        s.len() > 0,
    ensures
        seq_min(s) <= seq_max(s),
        forall|i: int| 0 <= i < s.len() ==> seq_min(s) <= #[trigger] s[i] <= seq_max(s),
        exists|i: int| 0 <= i < s.len() && s[i] == seq_max(s),
        exists|i: int| 0 <= i < s.len() && s[i] == seq_min(s),
    decreases s.len(),
{
    if s.len() > 1 {
        lemma_max_min_bounds(s.drop_last());
        assert forall|i: int| 0 <= i < s.len() implies seq_min(s) <= #[trigger] s[i] <= seq_max(s) by {
            if i < s.len() - 1 {
                assert(s.drop_last()[i] == s[i]);
            }
        }
        if s.last() as int > seq_max(s.drop_last()) {
            assert(s[s.len() - 1] == seq_max(s));
        } else {
            let i = choose|i: int| 0 <= i < s.drop_last().len() && s.drop_last()[i] == seq_max(s.drop_last());
            assert(s[i] == seq_max(s));
        }
        if (s.last() as int) < seq_min(s.drop_last()) {
            assert(s[s.len() - 1] == seq_min(s));
        } else {
            let i = choose|i: int| 0 <= i < s.drop_last().len() && s.drop_last()[i] == seq_min(s.drop_last());
            assert(s[i] == seq_min(s));
        }
    } else {
        assert(s =~= Seq::<usize>::empty().push(s[0]));
        lemma_push_max_min(Seq::<usize>::empty(), s[0]);
        assert(s[0] == seq_max(s));
        assert(s[0] == seq_min(s));
    }
}

/// Splits the source-ordered `members` into the contiguous groups the
/// aligner emits independently, each paired with its widest member's
/// width, as `(start, end, max_width)` index ranges.
pub fn reading_order_groups(members: &[Member], max_shift: MaxShift) -> (gs: Vec<(usize, usize, usize)>)
    requires
        max_shift.wf(),
    ensures
        reading_order_groups_spec(members@, max_shift, gs@),
{
    reveal(reading_order_groups_spec);
    let ghost w = widths(members@);
    let n = members.len();
    let mut gs: Vec<(usize, usize, usize)> = Vec::new();
    if n == 0 {
        return gs;
    }
    if let MaxShift::NoShift = max_shift {
        let mut i: usize = 0;
        while i < n
            invariant
                i <= n == members.len(),
                w == widths(members@),
                gs.len() == i,
                forall|g: int| 0 <= g < i ==> #[trigger] gs@[g] == (g as usize, (g + 1) as usize, members@[g].width),
            decreases n - i,
        {
            gs.push((i, i + 1, members[i].width));
            i += 1;
        }
        assert forall|g: int| 0 <= g < gs.len() implies #[trigger] gs@[g].2 == seq_max(
            w.subrange(gs@[g].0 as int, gs@[g].1 as int),
        ) by {
            let sub = w.subrange(g, g + 1);
            assert(sub =~= Seq::<usize>::empty().push(w[g]));
            lemma_push_max_min(Seq::<usize>::empty(), w[g]);
        }
        return gs;
    }
    let cap: usize = match max_shift {
        MaxShift::Cap(c) => c,
        _ => usize::MAX,
    };
    let mut start: usize = 0;
    let mut min_w = members[0].width;
    let mut max_w = members[0].width;
    let mut i: usize = 1;
    proof {
        let sub = w.subrange(0, 1);
        assert(sub =~= Seq::<usize>::empty().push(w[0]));
        lemma_push_max_min(Seq::<usize>::empty(), w[0]);
    }
    while i < n
        invariant
            n == members.len(),
            w == widths(members@),
            max_shift != MaxShift::NoShift,
            cap == (match max_shift { MaxShift::Cap(c) => c, _ => usize::MAX }),
            start < i <= n,
            min_w == seq_min(w.subrange(start as int, i as int)),
            max_w == seq_max(w.subrange(start as int, i as int)),
            spread(w.subrange(start as int, i as int)) <= cap,
            gs.len() == 0 ==> start == 0,
            gs.len() > 0 ==> gs@[0].0 == 0 && gs@[gs.len() - 1].1 == start,
            forall|g: int| 0 <= g < gs.len() ==> #[trigger] gs@[g].0 < gs@[g].1 <= start,
            forall|g: int| 0 <= g < gs.len() - 1 ==> #[trigger] gs@[g].1 == gs@[g + 1].0,
            forall|g: int| 0 <= g < gs.len() ==> #[trigger] gs@[g].2 == seq_max(w.subrange(gs@[g].0 as int, gs@[g].1 as int)),
            forall|g: int| 0 <= g < gs.len() ==> spread(w.subrange(#[trigger] gs@[g].0 as int, gs@[g].1 as int)) <= cap,
            forall|g: int| 0 <= g < gs.len() ==> spread(w.subrange(#[trigger] gs@[g].0 as int, gs@[g].1 + 1)) > cap,
        decreases n - i,
    {
        let wi = members[i].width;
        let lo = if wi < min_w { wi } else { min_w };
        let hi = if wi > max_w { wi } else { max_w };
        proof {
            lemma_subrange_push(w, start as int, i as int);
            lemma_max_min_bounds(w.subrange(start as int, i as int));
            lemma_push_max_min(w.subrange(start as int, i as int), w[i as int]);
        }
        if hi - lo > cap {
            assert(spread(w.subrange(start as int, i + 1)) > cap);
            gs.push((start, i, max_w));
            start = i;
            min_w = wi;
            max_w = wi;
            proof {
                let sub = w.subrange(i as int, i + 1);
                assert(sub =~= Seq::<usize>::empty().push(w[i as int]));
                lemma_push_max_min(Seq::<usize>::empty(), w[i as int]);
            }
        } else {
            min_w = lo;
            max_w = hi;
        }
        i += 1;
    }
    gs.push((start, n, max_w));
    proof {
        assert(w.subrange(0, n as int).len() == n);
        match max_shift {
            MaxShift::Unlimited => {
                if gs.len() > 1 {
                    let sub = w.subrange(gs@[0].0 as int, gs@[0].1 + 1);
                    lemma_max_min_bounds(sub);
                    assert(spread(sub) > usize::MAX);
                }
            },
            _ => {},
        }
    }
    gs
}

/// The largest operator width among `members[start..end]`.
fn max_op_width(members: &[Member], start: usize, end: usize) -> (m: usize)
    requires
        start <= end <= members.len(),
    ensures
        m == seq_max(op_widths(members@).subrange(start as int, end as int)),
{
    let ghost ow = op_widths(members@);
    let mut m: usize = 0;
    let mut i = start;
    while i < end
        invariant
            start <= i <= end <= members.len(),
            ow == op_widths(members@),
            m == seq_max(ow.subrange(start as int, i as int)),
        decreases end - i,
    {
        assert(ow.subrange(start as int, i + 1).drop_last() =~= ow.subrange(start as int, i as int));
        if members[i].op_width > m {
            m = members[i].op_width;
        }
        i += 1;
    }
    m
}

/// Widths stay small enough for the padding arithmetic: every display
/// width is bounded by the largest source a text offset can address.
pub open spec fn widths_bounded(ms: Seq<Member>) -> bool {
    forall|i: int| 0 <= i < ms.len() ==> #[trigger] ms[i].width <= 0x3fff_ffff && ms[i].op_width <= 0x3fff_ffff
}

/// The padding each member's gap is rewritten to: the group's suffix,
/// plus the distance to the group's widest left-hand side, plus the
/// distance to the group's widest operator, so every aligned token ends
/// in one column.
pub open spec fn target_padding(
    ms: Seq<Member>,
    gs: Seq<(usize, usize, usize)>,
    settings: Settings,
    pads: Seq<usize>,
) -> bool {
    &&& pads.len() == ms.len()
    &&& forall|g: int, i: int|
        #![trigger gs[g], pads[i]]
        0 <= g < gs.len() && gs[g].0 <= i < gs[g].1 ==> pads[i] == (if gs[g].1 - gs[g].0 == 1
            && settings.strip_singleton { 0int } else { 1int }) + (gs[g].2 - ms[i].width)
            + (seq_max(op_widths(ms).subrange(gs[g].0 as int, gs[g].1 as int)) - ms[i].op_width)
}

/// Appends the paddings of the group `members[start..end]`.
fn fill_group(
    members: &[Member],
    pads: &mut Vec<usize>,
    start: usize,
    end: usize,
    gmax: usize,
    gop: usize,
    suffix: usize,
)
    requires
        old(pads).len() == start,
        start <= end <= members.len(),
        suffix <= 1,
        gmax <= 0x3fff_ffff,
        gop <= 0x3fff_ffff,
        forall|t: int| start <= t < end ==> members@[t].width <= gmax && members@[t].op_width <= gop,
    ensures
        final(pads).len() == end,
        forall|t: int| 0 <= t < start ==> final(pads)@[t] == old(pads)@[t],
        forall|t: int| start <= t < end ==> #[trigger] final(pads)@[t] == suffix + (gmax - members@[t].width) + (gop - members@[t].op_width),
{
    let mut i = start;
    while i < end
        invariant
            start <= i <= end <= members.len(),
            pads.len() == i,
            suffix <= 1,
            gmax <= 0x3fff_ffff,
            gop <= 0x3fff_ffff,
            forall|t: int| start <= t < end ==> members@[t].width <= gmax && members@[t].op_width <= gop,
            forall|t: int| 0 <= t < start ==> pads@[t] == old(pads)@[t],
            forall|t: int| start <= t < i ==> #[trigger] pads@[t] == suffix + (gmax - members@[t].width) + (gop - members@[t].op_width),
        decreases end - i,
    {
        pads.push(suffix + (gmax - members[i].width) + (gop - members[i].op_width));
        i += 1;
    }
}

/// The padding a member of the group `gs[g]` is rewritten to.
pub open spec fn group_padding(ms: Seq<Member>, gs: Seq<(usize, usize, usize)>, settings: Settings, g: int, i: int) -> int {
    (if gs[g].1 - gs[g].0 == 1 && settings.strip_singleton { 0int } else { 1int }) + (gs[g].2 - ms[i].width)
        + (seq_max(op_widths(ms).subrange(gs[g].0 as int, gs[g].1 as int)) - ms[i].op_width)
}

/// Computes each member's target padding for the given settings.
pub fn target_paddings(members: &[Member], settings: Settings) -> (pads: Vec<usize>)
    requires
        settings.max_shift.wf(),
        widths_bounded(members@),
    ensures
        exists|gs: Seq<(usize, usize, usize)>|
            reading_order_groups_spec(members@, settings.max_shift, gs) && target_padding(members@, gs, settings, pads@),
{
    let gs = reading_order_groups(members, settings.max_shift);
    let ghost w = widths(members@);
    proof {
        reveal(reading_order_groups_spec);
    }
    let mut pads: Vec<usize> = Vec::new();
    let mut g: usize = 0;
    while g < gs.len()
        invariant
            reading_order_groups_spec(members@, settings.max_shift, gs@),
            is_partition(gs@, members.len() as nat),
            forall|x: int| 0 <= x < gs.len() ==> #[trigger] gs@[x].2 == seq_max(w.subrange(gs@[x].0 as int, gs@[x].1 as int)),
            w == widths(members@),
            widths_bounded(members@),
            g <= gs.len(),
            g == 0 ==> pads.len() == 0,
            g > 0 ==> pads.len() == gs@[g - 1].1,
            forall|h: int, i: int|
                #![trigger gs@[h], pads@[i]]
                0 <= h < g && gs@[h].0 <= i < gs@[h].1 ==> pads@[i] == group_padding(members@, gs@, settings, h, i),
        decreases gs.len() - g,
    {
        let (start, end, gmax) = gs[g];
        assert(gs@[g as int].0 < gs@[g as int].1 <= members.len());
        if g > 0 {
            assert(gs@[(g - 1) as int].1 == gs@[(g - 1) + 1].0);
        }
        let suffix = settings.suffix_len(end - start);
        let gop = max_op_width(members, start, end);
        proof {
            let ws = w.subrange(start as int, end as int);
            let os = op_widths(members@).subrange(start as int, end as int);
            lemma_max_min_bounds(ws);
            lemma_max_min_bounds(os);
            assert forall|t: int| start <= t < end implies members@[t].width <= gmax && members@[t].op_width <= gop by {
                assert(ws[t - start] == members@[t].width);
                assert(os[t - start] == members@[t].op_width);
            }
            let a = choose|a: int| 0 <= a < ws.len() && ws[a] == seq_max(ws);
            let b = choose|b: int| 0 <= b < os.len() && os[b] == seq_max(os);
            assert(ws[a] == members@[start + a].width);
            assert(os[b] == members@[start + b].op_width);
        }
        let ghost before = pads@;
        fill_group(members, &mut pads, start, end, gmax, gop, suffix);
        proof {
            assert forall|h: int, i: int|
                #![trigger gs@[h], pads@[i]]
                0 <= h < g + 1 && gs@[h].0 <= i < gs@[h].1 implies pads@[i] == group_padding(members@, gs@, settings, h, i) by {
                if h < g {
                    assert(gs@[h].1 <= start) by {
                        lemma_chain_le(gs@, h, g as int);
                    }
                    assert(pads@[i] == before[i]);
                }
            }
        }
        g += 1;
    }
    proof {
        assert forall|h: int, i: int|
            #![trigger gs@[h], pads@[i]]
            0 <= h < gs.len() && gs@[h].0 <= i < gs@[h].1 implies pads@[i] == (if gs@[h].1 - gs@[h].0 == 1
            && settings.strip_singleton { 0int } else { 1int }) + (gs@[h].2 - members@[i].width)
            + (seq_max(op_widths(members@).subrange(gs@[h].0 as int, gs@[h].1 as int)) - members@[i].op_width) by {
            assert(pads@[i] == group_padding(members@, gs@, settings, h, i));
        }
        if gs.len() == 0 {
            assert(members.len() == 0);
        }
    }
    pads
}

proof fn lemma_chain_le(gs: Seq<(usize, usize, usize)>, a: int, b: int)
    requires
        0 <= a < b < gs.len(),
        forall|x: int| 0 <= x < gs.len() ==> #[trigger] gs[x].0 < gs[x].1,
        forall|x: int| 0 <= x < gs.len() - 1 ==> #[trigger] gs[x].1 == gs[x + 1].0,
    ensures
        gs[a].1 <= gs[b].0,
    decreases b - a,
{
    assert(gs[a].1 == gs[a + 1].0);
    if a + 1 < b {
        lemma_chain_le(gs, a + 1, b);
        assert(gs[a + 1].0 < gs[a + 1].1);
    }
}

/// The byte text of a member's gap is already exactly `n` spaces.
pub open spec fn gap_is_spaces(src: Seq<u8>, m: Member, n: usize) -> bool {
    src.subrange(m.gap_start as int, m.gap_end as int) == Seq::new(n as nat, |i: int| 32u8)
}

/// Every member's gap lies inside the source.
pub open spec fn gaps_in(src: Seq<u8>, ms: Seq<Member>) -> bool {
    forall|i: int| 0 <= i < ms.len() ==> #[trigger] ms[i].gap_start <= ms[i].gap_end <= src.len()
}

/// The members among the first `upto` whose gap differs from its
/// target padding, in member order.
pub open spec fn needing(src: Seq<u8>, ms: Seq<Member>, pads: Seq<usize>, upto: int) -> Seq<int> {
    Seq::new(upto as nat, |i: int| i).filter(|i: int| !gap_is_spaces(src, ms[i], pads[i]))
}

/// The edit `e` rewrites member `m`'s gap to `n` spaces.
pub open spec fn pads_gap(e: Edit, m: Member, n: usize) -> bool {
    &&& e.start == m.gap_start
    &&& e.end == m.gap_end
    &&& if n == 0 {
        e.content is None
    } else {
        e.content is Some && e.content->Some_0@ == Seq::new(n as nat, |i: int| ' ')
    }
}

/// `r` rewrites, in member order, exactly the gaps that do not already
/// carry their target padding `pads`, each to that many spaces (a
/// deletion for zero).
pub open spec fn padding_edits(src: Seq<u8>, ms: Seq<Member>, pads: Seq<usize>, r: Seq<Edit>) -> bool {
    let need = needing(src, ms, pads, ms.len() as int);
    &&& r.len() == need.len()
    &&& forall|k: int| 0 <= k < r.len() ==> pads_gap(#[trigger] r[k], ms[need[k]], pads[need[k]])
}

/// Rewrites each member's gap to its padding `pads`, skipping gaps that
/// already carry exactly that many spaces.
pub fn emit_with_paddings(source: &str, members: &[Member], pads: &[usize]) -> (edits: Vec<Edit>)
    requires
        pads.len() == members.len(),
        gaps_in(encode_utf8(source@), members@),
    ensures
        padding_edits(encode_utf8(source@), members@, pads@, edits@),
{
    let bytes = source.as_bytes();
    let ghost src = encode_utf8(source@);
    let mut edits: Vec<Edit> = Vec::new();
    let mut i: usize = 0;
    while i < members.len()
        invariant
            i <= members.len(),
            pads.len() == members.len(),
            bytes@ == src,
            gaps_in(src, members@),
            edits.len() == needing(src, members@, pads@, i as int).len(),
            forall|k: int| 0 <= k < edits.len() ==> pads_gap(#[trigger] edits@[k], members@[needing(src, members@, pads@, i as int)[k]], pads@[needing(src, members@, pads@, i as int)[k]]),
        decreases members.len() - i,
    {
        let m = members[i];
        let ghost pred = |j: int| !gap_is_spaces(src, members@[j], pads@[j]);
        let ghost before = Seq::new(i as nat, |j: int| j);
        proof {
            assert(Seq::new((i + 1) as nat, |j: int| j) =~= before.push(i as int));
            before.lemma_filter_push(i as int, pred);
            assert(m.gap_start <= m.gap_end <= src.len()) by {
                assert(members@[i as int].gap_start <= members@[i as int].gap_end <= src.len());
            }
        }
        let r = space_padding_edit(bytes, m.gap_start, m.gap_end, pads[i]);
        match r {
            Some(e) => {
                edits.push(e);
            }
            None => {}
        }
        i += 1;
    }
    edits
}

/// Aligns `members` by splitting the source-ordered run into the
/// contiguous groups the cap allows and rewriting each member's gap to
/// its group's column. Gaps already at their target emit nothing.
pub fn emit_group(source: &str, members: &[Member], settings: Settings) -> (edits: Vec<Edit>)
    requires
        settings.max_shift.wf(),
        widths_bounded(members@),
        gaps_in(encode_utf8(source@), members@),
    ensures
        exists|gs: Seq<(usize, usize, usize)>, pads: Seq<usize>|
            reading_order_groups_spec(members@, settings.max_shift, gs) && target_padding(members@, gs, settings, pads)
                && padding_edits(encode_utf8(source@), members@, pads, edits@),
{
    let pads = target_paddings(members, settings);
    emit_with_paddings(source, members, pads.as_slice())
}

/// The members the drop policy keeps: those within `max_shift` of the
/// narrowest.
pub open spec fn kept_members(ms: Seq<Member>, max_shift: usize) -> Seq<Member> {
    ms.filter(kept_pred(ms, max_shift))
}

/// A member is kept when its width is within `max_shift` of the
/// narrowest of `ms`.
pub open spec fn kept_pred(ms: Seq<Member>, max_shift: usize) -> spec_fn(Member) -> bool {
    |m: Member| m.width <= seq_min(widths(ms)) + max_shift
}

/// The drop policy's paddings of the kept members: one space past the
/// widest kept left-hand side, with operators right-aligned.
pub open spec fn drop_paddings(kept: Seq<Member>, pads: Seq<usize>) -> bool {
    &&& pads.len() == kept.len()
    &&& forall|i: int| 0 <= i < kept.len() ==> #[trigger] pads[i] == 1 + (seq_max(widths(kept)) - kept[i].width) + (
        seq_max(op_widths(kept)) - kept[i].op_width)
}

/// Aligns only the members whose width sits within `max_shift` of the
/// narrowest, leaving the rest at their original spacing. A kept set of
/// fewer than two members emits nothing.
pub fn emit_drop(source: &str, members: &[Member], max_shift: usize) -> (edits: Vec<Edit>)
    requires
        members.len() > 0,
        widths_bounded(members@),
        gaps_in(encode_utf8(source@), members@),
    ensures
        kept_members(members@, max_shift).len() < 2 ==> edits@.len() == 0,
        kept_members(members@, max_shift).len() >= 2 ==> exists|pads: Seq<usize>|
            drop_paddings(kept_members(members@, max_shift), pads) && padding_edits(
                encode_utf8(source@),
                kept_members(members@, max_shift),
                pads,
                edits@,
            ),
{
    let ghost w = widths(members@);
    let mut min_w = members[0].width;
    let mut i: usize = 1;
    assert(w.subrange(0, 1).drop_last().len() == 0);
    while i < members.len()
        invariant
            1 <= i <= members.len(),
            w == widths(members@),
            min_w == seq_min(w.subrange(0, i as int)),
        decreases members.len() - i,
    {
        assert(w.subrange(0, i + 1).drop_last() =~= w.subrange(0, i as int));
        if members[i].width < min_w {
            min_w = members[i].width;
        }
        i += 1;
    }
    assert(w.subrange(0, members.len() as int) =~= w);
    let ghost pred = kept_pred(members@, max_shift);
    let mut kept: Vec<Member> = Vec::new();
    let mut k: usize = 0;
    while k < members.len()
        invariant
            k <= members.len(),
            min_w == seq_min(widths(members@)),
            widths_bounded(members@),
            pred == kept_pred(members@, max_shift),
            kept@ == members@.subrange(0, k as int).filter(pred),
        decreases members.len() - k,
    {
        let m = members[k];
        proof {
            assert(members@.subrange(0, k + 1) =~= members@.subrange(0, k as int).push(m));
            members@.subrange(0, k as int).lemma_filter_push(m, pred);
            assert(pred(m) == (m.width <= min_w + max_shift));
        }
        if (m.width as u128) <= (min_w as u128) + (max_shift as u128) {
            kept.push(m);
        }
        k += 1;
    }
    assert(members@.subrange(0, members.len() as int) =~= members@);
    if kept.len() < 2 {
        return Vec::new();
    }
    let ghost kv = kept@;
    proof {
        assert forall|t: int| 0 <= t < kv.len() implies #[trigger] kv[t].width <= 0x3fff_ffff && kv[t].op_width <= 0x3fff_ffff by {
            assert(kv.contains(kv[t])) by {
                assert(kv[t] == kv[t]);
            }
            members@.lemma_filter_contains_rev(pred, kv[t]);
            let j = choose|j: int| 0 <= j < members@.len() && members@[j] == kv[t];
            assert(members@[j].width <= 0x3fff_ffff && members@[j].op_width <= 0x3fff_ffff);
        }
    }
    let n = kept.len();
    let mut gmax: usize = 0;
    let mut j: usize = 0;
    let ghost kw = widths(kv);
    while j < n
        invariant
            j <= n == kept.len(),
            kept@ == kv,
            kw == widths(kv),
            gmax == seq_max(kw.subrange(0, j as int)),
        decreases n - j,
    {
        assert(kw.subrange(0, j + 1).drop_last() =~= kw.subrange(0, j as int));
        if kept[j].width > gmax {
            gmax = kept[j].width;
        }
        j += 1;
    }
    assert(kw.subrange(0, n as int) =~= kw);
    let gop = max_op_width(kept.as_slice(), 0, n);
    assert(op_widths(kv).subrange(0, n as int) =~= op_widths(kv));
    proof {
        lemma_max_min_bounds(kw);
        lemma_max_min_bounds(op_widths(kv));
        assert forall|t: int| 0 <= t < n implies kv[t].width <= gmax && kv[t].op_width <= gop by {
            assert(kw[t] == kv[t].width);
            assert(op_widths(kv)[t] == kv[t].op_width);
        }
        let a = choose|a: int| 0 <= a < kw.len() && kw[a] == seq_max(kw);
        let b = choose|b: int| 0 <= b < op_widths(kv).len() && op_widths(kv)[b] == seq_max(op_widths(kv));
        assert(kw[a] == kv[a].width);
        assert(op_widths(kv)[b] == kv[b].op_width);
    }
    let mut pads: Vec<usize> = Vec::new();
    fill_group(kept.as_slice(), &mut pads, 0, n, gmax, gop, 1);
    proof {
        assert forall|t: int| 0 <= t < kv.len() implies #[trigger] kv[t].gap_start <= kv[t].gap_end <= encode_utf8(source@).len() by {
            assert(kv.contains(kv[t])) by {
                assert(kv[t] == kv[t]);
            }
            members@.lemma_filter_contains_rev(pred, kv[t]);
            let j = choose|j: int| 0 <= j < members@.len() && members@[j] == kv[t];
            assert(members@[j].gap_start <= members@[j].gap_end <= encode_utf8(source@).len());
        }
    }
    let edits = emit_with_paddings(source, kept.as_slice(), pads.as_slice());
    proof {
        assert(kv == kept_members(members@, max_shift));
        assert forall|t: int| 0 <= t < kv.len() implies #[trigger] pads@[t] == 1 + (seq_max(widths(kv)) - kv[t].width)
            + (seq_max(op_widths(kv)) - kv[t].op_width) by {}
        assert(drop_paddings(kv, pads@));
    }
    edits
}

/// Aligns a group under a positive cap and an overflow policy: a group
/// whose width spread fits the cap aligns as one; otherwise `Split`
/// partitions it into the contiguous sub-groups the cap allows, and
/// `Drop` aligns only the members within the cap of the narrowest.
pub fn emit_with_policy(
    source: &str,
    members: &[Member],
    max_shift: usize,
    policy: MaxAlignShiftPolicy,
    strip_singleton: bool,
) -> (edits: Vec<Edit>)
    requires
        max_shift > 0,
        widths_bounded(members@),
        gaps_in(encode_utf8(source@), members@),
    ensures
        members@.len() == 0 ==> edits@.len() == 0,
        members@.len() > 0 && (policy == MaxAlignShiftPolicy::Split || spread(widths(members@)) <= max_shift)
            ==> exists|gs: Seq<(usize, usize, usize)>, pads: Seq<usize>|
            reading_order_groups_spec(members@, MaxShift::Cap(max_shift), gs) && target_padding(
                members@,
                gs,
                Settings { max_shift: MaxShift::Cap(max_shift), strip_singleton },
                pads,
            ) && padding_edits(encode_utf8(source@), members@, pads, edits@),
        members@.len() > 0 && policy == MaxAlignShiftPolicy::Drop && spread(widths(members@)) > max_shift ==> {
            &&& kept_members(members@, max_shift).len() < 2 ==> edits@.len() == 0
            &&& kept_members(members@, max_shift).len() >= 2 ==> exists|pads: Seq<usize>|
                drop_paddings(kept_members(members@, max_shift), pads) && padding_edits(
                    encode_utf8(source@),
                    kept_members(members@, max_shift),
                    pads,
                    edits@,
                )
        },
{
    if members.len() == 0 {
        return Vec::new();
    }
    let settings = Settings { max_shift: MaxShift::Cap(max_shift), strip_singleton };
    let ghost w = widths(members@);
    let mut min_w = members[0].width;
    let mut max_w = members[0].width;
    let mut i: usize = 1;
    assert(w.subrange(0, 1).drop_last() =~= Seq::<usize>::empty());
    assert(seq_max(w.subrange(0, 1)) == w[0]) by {
        reveal_with_fuel(seq_max, 2);
    }
    while i < members.len()
        invariant
            1 <= i <= members.len(),
            w == widths(members@),
            min_w == seq_min(w.subrange(0, i as int)),
            max_w == seq_max(w.subrange(0, i as int)),
        decreases members.len() - i,
    {
        assert(w.subrange(0, i + 1).drop_last() =~= w.subrange(0, i as int));
        if members[i].width < min_w {
            min_w = members[i].width;
        }
        if members[i].width > max_w {
            max_w = members[i].width;
        }
        i += 1;
    }
    assert(w.subrange(0, members.len() as int) =~= w);
    proof {
        lemma_max_min_bounds(w);
    }
    let fits = max_w - min_w <= max_shift;
    match policy {
        MaxAlignShiftPolicy::Drop => {
            if fits {
                emit_group(source, members, settings)
            } else {
                emit_drop(source, members, max_shift)
            }
        },
        MaxAlignShiftPolicy::Split => emit_group(source, members, settings),
    }
}

/// What run grouping needs to know of one statement of a body: its
/// key when the rule qualifies it (statements sharing a key may align
/// together), whether a skip directive holds it, whether it fits on one
/// line, and whether it is line-adjacent to, or on the line after, the
/// statement before it.
#[derive(Clone, Copy, Debug)]
pub struct RowFacts {
    pub key: Option<u64>,
    pub held: bool,
    pub single_line: bool,
    pub adjacent: bool,
    pub consecutive: bool,
}

/// The grouping state: closed groups, the open run, and the active
/// run's key, whether its last statement fits on one line, and whether
/// that statement is held.
pub struct GroupState {
    pub groups: Seq<Seq<usize>>,
    pub current: Seq<usize>,
    pub active: Option<(u64, bool, bool)>,
}

/// Closes the open run, when it holds any row.
pub open spec fn flush_spec(st: GroupState) -> GroupState {
    if st.current.len() > 0 {
        GroupState { groups: st.groups.push(st.current), current: Seq::empty(), active: st.active }
    } else {
        st
    }
}

/// One statement applied to the grouping state. An unqualified
/// statement closes the run; a held one is transparent, joining no group
/// but standing in as the run's last statement; any other extends the
/// run when it shares the active key, the run's last statement fits on
/// one line, and it follows that statement closely enough (on the next
/// line after a held statement, line-adjacent otherwise), and opens a
/// fresh run otherwise.
pub open spec fn group_step(st: GroupState, i: usize, r: RowFacts) -> GroupState {
    match r.key {
        None => GroupState { active: None, ..flush_spec(st) },
        Some(k) => if r.held {
            match st.active {
                Some((ak, _, _)) => GroupState { active: Some((ak, r.single_line, true)), ..st },
                None => st,
            }
        } else {
            let extends = st.active matches Some((ak, single, held)) && ak == k && single && (if held {
                r.consecutive
            } else {
                r.adjacent
            });
            let st1 = if extends { st } else { flush_spec(st) };
            GroupState { groups: st1.groups, current: st1.current.push(i), active: Some((k, r.single_line, false)) }
        },
    }
}

/// The grouping state after the first `n` statements.
pub open spec fn groups_upto(rows: Seq<RowFacts>, n: int) -> GroupState
    decreases n,
{
    if n <= 0 {
        GroupState { groups: Seq::empty(), current: Seq::empty(), active: None }
    } else {
        group_step(groups_upto(rows, n - 1), (n - 1) as usize, rows[n - 1])
    }
}

/// The statements that join some group: qualified and not held.
pub open spec fn member_rows(rows: Seq<RowFacts>, n: int) -> Seq<usize>
    decreases n,
{
    if n <= 0 {
        Seq::empty()
    } else if rows[n - 1].key is Some && !rows[n - 1].held {
        member_rows(rows, n - 1).push((n - 1) as usize)
    } else {
        member_rows(rows, n - 1)
    }
}

/// The rows of a run of groups, in order.
pub open spec fn flatten_groups(gs: Seq<Seq<usize>>) -> Seq<usize>
    decreases gs.len(),
{
    if gs.len() == 0 {
        Seq::empty()
    } else {
        flatten_groups(gs.drop_last()) + gs.last()
    }
}

fn flush_run(groups: &mut Vec<Vec<usize>>, current: &mut Vec<usize>)
    ensures
        ({
            let st = flush_spec(GroupState { groups: old(groups)@.map_values(|g: Vec<usize>| g@), current: old(current)@, active: None });
            &&& final(groups)@.map_values(|g: Vec<usize>| g@) == st.groups
            &&& final(current)@ == st.current
        }),
{
    if current.len() > 0 {
        let ghost before = groups@;
        let mut taken: Vec<usize> = Vec::new();
        std::mem::swap(&mut taken, current);
        groups.push(taken);
        assert(groups@.map_values(|g: Vec<usize>| g@) =~= before.map_values(|g: Vec<usize>| g@).push(old(current)@));
    }
}

/// Splits a body's statements into the runs that align together; each
/// run lists its statements' indices. See [`group_step`] for how a run
/// extends, opens and closes.
pub fn keyed_line_adjacent_groups(rows: &[RowFacts]) -> (r: Vec<Vec<usize>>)
    ensures
        r@.map_values(|g: Vec<usize>| g@) == flush_spec(groups_upto(rows@, rows@.len() as int)).groups,
{
    let mut groups: Vec<Vec<usize>> = Vec::new();
    let mut current: Vec<usize> = Vec::new();
    let mut active: Option<(u64, bool, bool)> = None;
    let mut i: usize = 0;
    assert(groups@.map_values(|g: Vec<usize>| g@) =~= Seq::<Seq<usize>>::empty());
    while i < rows.len()
        invariant
            i <= rows.len(),
            groups_upto(rows@, i as int) == (GroupState {
                groups: groups@.map_values(|g: Vec<usize>| g@),
                current: current@,
                active,
            }),
        decreases rows.len() - i,
    {
        let r = rows[i];
        match r.key {
            None => {
                flush_run(&mut groups, &mut current);
                active = None;
            },
            Some(k) => {
                if r.held {
                    match active {
                        Some((ak, _, _)) => {
                            active = Some((ak, r.single_line, true));
                        },
                        None => {},
                    }
                } else {
                    let extends = match active {
                        Some((ak, single, held)) => ak == k && single && (if held {
                            r.consecutive
                        } else {
                            r.adjacent
                        }),
                        None => false,
                    };
                    if !extends {
                        flush_run(&mut groups, &mut current);
                    }
                    current.push(i);
                    active = Some((k, r.single_line, false));
                }
            },
        }
        i += 1;
    }
    flush_run(&mut groups, &mut current);
    groups
}

/// Every statement that is qualified and not held lands in exactly one
/// group, in body order, and no group is empty.
pub proof fn lemma_groups_partition_members(rows: Seq<RowFacts>, n: int)
    requires
        0 <= n <= rows.len(),
        n <= usize::MAX,
    ensures
        flatten_groups(groups_upto(rows, n).groups) + groups_upto(rows, n).current == member_rows(rows, n),
        forall|g: int| 0 <= g < groups_upto(rows, n).groups.len() ==> #[trigger] groups_upto(rows, n).groups[g].len() > 0,
        flatten_groups(flush_spec(groups_upto(rows, n)).groups) == member_rows(rows, n),
    decreases n,
{
    if n > 0 {
        lemma_groups_partition_members(rows, n - 1);
        let st = groups_upto(rows, n - 1);
        let r = rows[n - 1];
        let fl = flush_spec(st);
        assert(flatten_groups(fl.groups) + fl.current =~= flatten_groups(st.groups) + st.current) by {
            if st.current.len() > 0 {
                assert(st.groups.push(st.current).drop_last() =~= st.groups);
                assert(flatten_groups(st.groups.push(st.current)) == flatten_groups(st.groups) + st.current);
            }
        }
        assert forall|g: int| 0 <= g < fl.groups.len() implies #[trigger] fl.groups[g].len() > 0 by {
            if st.current.len() > 0 && g == st.groups.len() {
            } else {
                assert(fl.groups[g] == st.groups[g]);
            }
        }
    }
    let st = groups_upto(rows, n);
    if st.current.len() > 0 {
        assert(st.groups.push(st.current).drop_last() =~= st.groups);
        assert(flatten_groups(st.groups.push(st.current)) == flatten_groups(st.groups) + st.current);
    } else {
        assert(flatten_groups(st.groups) + st.current =~= flatten_groups(st.groups));
    }
}

/// True when `members` form a multi-row group whose aligned tokens sit
/// on distinct source lines: at least two rows, no two neighbours on
/// one line.
pub fn is_alignment_candidate(members: &[Member]) -> (r: bool)
    ensures
        r == (members@.len() >= 2 && forall|i: int| 0 <= i < members@.len() - 1 ==> #[trigger] members@[i].line_start
            != members@[i + 1].line_start),
{
    if members.len() < 2 {
        return false;
    }
    let mut i: usize = 0;
    while i + 1 < members.len()
        invariant
            i + 1 <= members.len(),
            members.len() >= 2,
            forall|j: int| 0 <= j < i ==> #[trigger] members@[j].line_start != members@[j + 1].line_start,
        decreases members.len() - i,
    {
        if members[i].line_start == members[i + 1].line_start {
            return false;
        }
        i += 1;
    }
    true
}

/// The runs of qualified items between unqualified ones, from index `i`
/// on, with `cur` the run open so far; empty runs are dropped.
pub open spec fn split_runs(items: Seq<Option<Member>>, i: int, cur: Seq<Member>) -> Seq<Seq<Member>>
    decreases items.len() - i,
{
    if 0 <= i < items.len() {
        match items[i] {
            Some(m) => split_runs(items, i + 1, cur.push(m)),
            None => if cur.len() > 0 {
                seq![cur] + split_runs(items, i + 1, Seq::empty())
            } else {
                split_runs(items, i + 1, Seq::empty())
            },
        }
    } else if cur.len() > 0 {
        seq![cur]
    } else {
        Seq::empty()
    }
}

/// Splits source-ordered parameter members into the runs between
/// unqualified parameters: an unqualified parameter breaks the run
/// without joining either neighbour, and empty runs are dropped.
pub fn parameter_split_groups(items: &[Option<Member>]) -> (r: Vec<Vec<Member>>)
    ensures
        r@.map_values(|g: Vec<Member>| g@) == split_runs(items@, 0, Seq::empty()),
{
    let mut out: Vec<Vec<Member>> = Vec::new();
    let mut cur: Vec<Member> = Vec::new();
    let mut i: usize = 0;
    assert(out@.map_values(|g: Vec<Member>| g@) =~= Seq::<Seq<Member>>::empty());
    while i < items.len()
        invariant
            i <= items.len(),
            split_runs(items@, 0, Seq::empty()) == out@.map_values(|g: Vec<Member>| g@) + split_runs(
                items@,
                i as int,
                cur@,
            ),
        decreases items.len() - i,
    {
        let ghost before = out@.map_values(|g: Vec<Member>| g@);
        let ghost c0 = cur@;
        match items[i] {
            Some(m) => {
                cur.push(m);
                assert(split_runs(items@, i as int, c0) == split_runs(items@, i + 1, c0.push(m)));
            },
            None => {
                if cur.len() > 0 {
                    let ghost c = cur@;
                    let mut taken: Vec<Member> = Vec::new();
                    std::mem::swap(&mut taken, &mut cur);
                    out.push(taken);
                    assert(out@.map_values(|g: Vec<Member>| g@) =~= before.push(c));
                    assert(before + (seq![c] + split_runs(items@, i + 1, Seq::empty())) =~= before.push(c)
                        + split_runs(items@, i + 1, Seq::empty()));
                    assert(cur@ =~= Seq::<Member>::empty());
                } else {
                    assert(cur@ =~= Seq::<Member>::empty());
                }
            },
        }
        i += 1;
    }
    if cur.len() > 0 {
        let ghost before = out@.map_values(|g: Vec<Member>| g@);
        let ghost c = cur@;
        out.push(cur);
        assert(out@.map_values(|g: Vec<Member>| g@) =~= before + seq![c]);
    } else {
        assert(out@.map_values(|g: Vec<Member>| g@) + Seq::<Seq<Member>>::empty() =~= out@.map_values(
            |g: Vec<Member>| g@,
        ));
    }
    out
}

} // verus!
