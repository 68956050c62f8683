//! The entry-carrying Google-style sections of a docstring body: each
//! Title-case heading at the body indentation opens a section, each
//! `name: description` head four columns deeper opens an entry, and
//! the lines attached to an entry (hanging description, verbatim
//! block, list item, fenced code) extend its range.
//!
//! Lines are split at `\n`, `\r\n` and `\r`; a line's range excludes
//! its terminator. Offsets are byte offsets into the source, counted
//! from the byte offset of the body's first character.

use vstd::prelude::*;
use vstd::utf8::*;

use crate::docstring::{entry_col_chars, entry_col_spec, entry_name_chars, heading_chars, heading_from, skip_word_dot};
use crate::scan::{classify_spec, LineScan, LineScanner};
use crate::text::{
    char_slice, chars_of, is_python_ws, lemma_take_le, lemma_take_step, line_after, next_break, offset_of, skip_python_ws,
    string_from_chars, utf8_width, lemma_next_break_ge,
};

verus! {

/// One `name: description` entry inside a section. The range covers
/// the entry's head line through the last continuation line attached to
/// it, excluding the trailing newline.
pub struct SectionEntry {
    pub name: String,
    pub start: u32,
    pub end: u32,
}

impl View for SectionEntry {
    type V = (Seq<char>, u32, u32);

    open spec fn view(&self) -> (Seq<char>, u32, u32) {
        (self.name@, self.start, self.end)
    }
}

/// The views of a run of entries.
pub open spec fn entries_view(v: Seq<SectionEntry>) -> Seq<(Seq<char>, u32, u32)> {
    v.map_values(|e: SectionEntry| e@)
}

/// The views of a run of sections.
pub open spec fn sections_view(v: Seq<Vec<SectionEntry>>) -> Seq<Seq<(Seq<char>, u32, u32)>> {
    v.map_values(|s: Vec<SectionEntry>| entries_view(s@))
}

/// The walker's state: the line scanner, the entry being extended, the
/// section being collected and the sections already closed.
pub struct WalkModel {
    pub scanner: LineScanner,
    pub open_entry: Option<(Seq<char>, u32, u32)>,
    pub open_section: Option<Seq<(Seq<char>, u32, u32)>>,
    pub sections: Seq<Seq<(Seq<char>, u32, u32)>>,
}

/// The state before the first line of a body indented
/// `body_indent_chars` characters.
pub open spec fn start_model(body_indent_chars: usize) -> WalkModel {
    WalkModel {
        scanner: LineScanner { body_indent_chars, in_fence: false, list_indent: None },
        open_entry: None,
        open_section: None,
        sections: Seq::empty(),
    }
}

/// Extends the open entry, if any, to end at `end`.
pub open spec fn extend_spec(m: WalkModel, end: u32) -> WalkModel {
    match m.open_entry {
        Some(en) => WalkModel { open_entry: Some((en.0, en.1, end)), ..m },
        None => m,
    }
}

/// Moves the open entry, if any, into the open section.
pub open spec fn finish_entry_spec(m: WalkModel) -> WalkModel {
    match m.open_entry {
        Some(en) => WalkModel {
            open_entry: None,
            open_section: match m.open_section {
                Some(v) => Some(v.push(en)),
                None => None,
            },
            ..m
        },
        None => m,
    }
}

/// Closes the open section; a section holding at least one entry joins
/// the result, an empty one is dropped.
pub open spec fn finish_section_spec(m: WalkModel) -> WalkModel {
    let m1 = finish_entry_spec(m);
    match m1.open_section {
        Some(v) => WalkModel {
            open_section: None,
            sections: if v.len() > 0 { m1.sections.push(v) } else { m1.sections },
            ..m1
        },
        None => m1,
    }
}

/// A `Body` line: at the body indentation it closes the section and
/// opens a new one when it is a heading; inside a section, an entry head
/// four columns deeper opens an entry; any other line extends the open
/// entry.
pub open spec fn body_spec(m: WalkModel, t: Seq<char>, indent: usize, start: u32, end: u32) -> WalkModel {
    let bi = m.scanner.body_indent_chars;
    if indent == bi {
        let m1 = finish_section_spec(m);
        if heading_from(t, 0) {
            WalkModel { open_section: Some(Seq::empty()), ..m1 }
        } else {
            m1
        }
    } else if m.open_section is None {
        m
    } else if indent == bi + 4 && entry_col_spec(t) is Some {
        let m1 = finish_entry_spec(m);
        WalkModel { open_entry: Some((t.subrange(0, skip_word_dot(t, 1)), start, end)), ..m1 }
    } else {
        extend_spec(m, end)
    }
}

/// One line, spanning bytes `start..end`, applied to the state.
pub open spec fn step_spec(m: WalkModel, line: Seq<char>, start: u32, end: u32) -> WalkModel {
    let ind = skip_python_ws(line, 0);
    let t = line.skip(ind);
    let (sc, kind) = classify_spec(m.scanner, t, ind as usize);
    let m1 = WalkModel { scanner: sc, ..m };
    match kind {
        LineScan::Blank => m1,
        LineScan::Body => body_spec(m1, t, ind as usize, start, end),
        _ => extend_spec(m1, end),
    }
}

/// A line the walk cannot take: an entry head is examined whose first
/// description character is not ASCII, which
/// [`entry_description_col`](crate::docstring::entry_description_col)
/// does not accept.
pub open spec fn step_fails(m: WalkModel, line: Seq<char>) -> bool {
    let ind = skip_python_ws(line, 0);
    let t = line.skip(ind);
    let (sc, kind) = classify_spec(m.scanner, t, ind as usize);
    &&& kind == LineScan::Body
    &&& ind != sc.body_indent_chars
    &&& m.open_section is Some
    &&& ind == sc.body_indent_chars + 4
    &&& entry_col_spec(t) matches Some(c) && (t[c] as u32) >= 128
}

/// Applies the lines of `s` from character `i` on.
pub open spec fn walk_from(m: WalkModel, s: Seq<char>, i: int, base: u32) -> WalkModel
    decreases s.len() - i,
{
    if 0 <= i < s.len() {
        let e = next_break(s, i);
        proof {
            lemma_next_break_ge(s, i);
        }
        walk_from(step_spec(m, s.subrange(i, e), offset_of(s, i, base), offset_of(s, e, base)), s, line_after(s, e), base)
    } else {
        m
    }
}

/// True when no line of `s` from character `i` on hits `step_fails`.
pub open spec fn walk_ok(m: WalkModel, s: Seq<char>, i: int, base: u32) -> bool
    decreases s.len() - i,
{
    if 0 <= i < s.len() {
        let e = next_break(s, i);
        proof {
            lemma_next_break_ge(s, i);
        }
        !step_fails(m, s.subrange(i, e)) && walk_ok(
            step_spec(m, s.subrange(i, e), offset_of(s, i, base), offset_of(s, e, base)),
            s,
            line_after(s, e),
            base,
        )
    } else {
        true
    }
}

/// The sections of a body: empty for a body without a line feed,
/// otherwise the sections left once every line is applied and the last
/// section is closed.
pub open spec fn sections_spec(body: Seq<char>, base: u32, body_indent_chars: usize) -> Seq<Seq<(Seq<char>, u32, u32)>> {
    if !body.contains('\n') {
        Seq::empty()
    } else {
        finish_section_spec(walk_from(start_model(body_indent_chars), body, 0, base)).sections
    }
}

/// The exec state of the walker.
pub struct EntryWalker {
    pub scanner: LineScanner,
    pub open_entry: Option<SectionEntry>,
    pub open_section: Option<Vec<SectionEntry>>,
    pub sections: Vec<Vec<SectionEntry>>,
}

impl View for EntryWalker {
    type V = WalkModel;

    open spec fn view(&self) -> WalkModel {
        WalkModel {
            scanner: self.scanner,
            open_entry: match self.open_entry {
                Some(e) => Some(e@),
                None => None,
            },
            open_section: match self.open_section {
                Some(v) => Some(entries_view(v@)),
                None => None,
            },
            sections: sections_view(self.sections@),
        }
    }
}

impl EntryWalker {
    /// An entry is only ever open inside an open section.
    pub open spec fn wf(&self) -> bool {
        self.open_entry is Some ==> self.open_section is Some
    }

    /// A walker for a body indented `body_indent_chars` characters.
    pub fn new(body_indent_chars: usize) -> (w: EntryWalker)
        ensures
            w@ == start_model(body_indent_chars),
            w.wf(),
    {
        let w = EntryWalker {
            scanner: LineScanner::new(body_indent_chars),
            open_entry: None,
            open_section: None,
            sections: Vec::new(),
        };
        assert(sections_view(w.sections@) =~= Seq::empty());
        w
    }

    fn extend_open_entry(&mut self, end: u32)
        ensures
            final(self)@ == extend_spec(old(self)@, end),
            final(self).open_entry is Some == old(self).open_entry is Some,
            final(self).open_section == old(self).open_section,
    {
        if let Some(entry) = self.open_entry.as_mut() {
            entry.end = end;
        }
    }

    fn finish_entry(&mut self)
        requires
            old(self).wf(),
        ensures
            final(self)@ == finish_entry_spec(old(self)@),
            final(self).wf(),
            final(self).open_entry is None,
            final(self).open_section is Some == old(self).open_section is Some,
    {
        let taken = self.open_entry.take();
        match taken {
            Some(entry) => {
                if let Some(v) = self.open_section.as_mut() {
                    let ghost before = v@;
                    let ghost ev = entry@;
                    v.push(entry);
                    proof {
                        assert(entries_view(before.push(entry)) =~= entries_view(before).push(ev));
                    }
                }
            },
            None => {},
        }
    }

    /// Closes the open section; see [`finish_section_spec`].
    pub fn finish_section(&mut self)
        requires
            old(self).wf(),
        ensures
            final(self)@ == finish_section_spec(old(self)@),
            final(self).wf(),
    {
        self.finish_entry();
        let taken = self.open_section.take();
        match taken {
            Some(entries) => {
                if entries.len() > 0 {
                    let ghost before = self.sections@;
                    let ghost ev = entries_view(entries@);
                    self.sections.push(entries);
                    proof {
                        assert(sections_view(before.push(entries)) =~= sections_view(before).push(ev));
                    }
                }
            },
            None => {},
        }
    }

    fn consume_body(&mut self, t: &Vec<char>, indent: usize, start: u32, end: u32)
        requires
            old(self).wf(),
            !(indent != old(self).scanner.body_indent_chars && old(self).open_section is Some && indent
                == old(self).scanner.body_indent_chars + 4 && (entry_col_spec(t@) matches Some(c) && (t@[c] as u32)
                >= 128)),
        ensures
            final(self)@ == body_spec(old(self)@, t@, indent, start, end),
            final(self).wf(),
    {
        let bi = self.scanner.body_indent_chars;
        if indent == bi {
            self.finish_section();
            if heading_chars(t) {
                self.open_section = Some(Vec::new());
                assert(entries_view(Seq::<SectionEntry>::empty()) =~= Seq::empty());
            }
            return;
        }
        if self.open_section.is_none() {
            return;
        }
        if indent >= 4 && indent - 4 == bi && entry_col_chars(t).is_some() {
            self.finish_entry();
            let name = entry_name_chars(t);
            let name = string_from_chars(name.as_slice());
            self.open_entry = Some(SectionEntry { name, start, end });
            return;
        }
        self.extend_open_entry(end);
    }

    /// Applies one line, held as characters, spanning bytes
    /// `start..end`; see [`step_spec`].
    pub fn consume(&mut self, line: &Vec<char>, start: u32, end: u32)
        requires
            old(self).wf(),
            !step_fails(old(self)@, line@),
        ensures
            final(self)@ == step_spec(old(self)@, line@, start, end),
            final(self).wf(),
    {
        let mut k: usize = 0;
        while k < line.len() && (line[k] == ' ' || line[k] == '\t' || line[k] == '\x0c')
            invariant
                k <= line.len(),
                skip_python_ws(line@, 0) == skip_python_ws(line@, k as int),
            decreases line.len() - k,
        {
            k += 1;
        }
        let t = char_slice(line, k, line.len());
        assert(t@ =~= line@.skip(k as int));
        let kind = self.scanner.classify_chars(&t, k);
        match kind {
            LineScan::Blank => {},
            LineScan::Body => {
                self.consume_body(&t, k, start, end);
            },
            _ => {
                self.extend_open_entry(end);
            },
        }
    }
}

/// True when `s` holds a line feed.
fn has_line_feed(s: &Vec<char>) -> (r: bool)
    ensures
        r == s@.contains('\n'),
{
    let mut i: usize = 0;
    while i < s.len()
        invariant
            i <= s.len(),
            forall|k: int| 0 <= k < i ==> s@[k] != '\n',
        decreases s.len() - i,
    {
        if s[i] == '\n' {
            assert(s@[i as int] == '\n');
            return true;
        }
        i += 1;
    }
    false
}

/// Walks the entry-carrying sections of a docstring body and returns
/// each section's entries with source byte ranges. `body` is the text
/// between the opening and closing quotes, `body_start` the byte offset
/// of its first character, `body_indent_chars` the width of the
/// indentation of the line the docstring opens on.
///
/// The result is empty for a body without a line feed, or with no
/// section heading that holds entries.
pub fn entry_carrying_sections(body: &str, body_start: u32, body_indent_chars: usize) -> (r: Vec<Vec<SectionEntry>>)
    requires
        body_start + encode_utf8(body@).len() <= u32::MAX,
        body@.contains('\n') ==> walk_ok(start_model(body_indent_chars), body@, 0, body_start),
    ensures
        sections_view(r@) == sections_spec(body@, body_start, body_indent_chars),
{
    let s = chars_of(body);
    if !has_line_feed(&s) {
        let r: Vec<Vec<SectionEntry>> = Vec::new();
        assert(sections_view(r@) =~= Seq::empty());
        return r;
    }
    let mut w = EntryWalker::new(body_indent_chars);
    let mut i: usize = 0;
    let mut pos: u32 = body_start;
    proof {
        assert(s@.take(0) =~= Seq::<char>::empty());
    }
    while i < s.len()
        invariant
            i <= s.len(),
            s@ == body@,
            body_start + encode_utf8(body@).len() <= u32::MAX,
            pos == body_start + encode_utf8(s@.take(i as int)).len(),
            w.wf(),
            walk_ok(w@, s@, i as int, body_start),
            walk_from(start_model(body_indent_chars), s@, 0, body_start) == walk_from(w@, s@, i as int, body_start),
        decreases s.len() - i,
    {
        let mut e = i;
        let mut pe = pos;
        while e < s.len() && s[e] != '\n' && s[e] != '\r'
            invariant
                i <= e <= s.len(),
                s@ == body@,
                body_start + encode_utf8(body@).len() <= u32::MAX,
                pe == body_start + encode_utf8(s@.take(e as int)).len(),
                next_break(s@, i as int) == next_break(s@, e as int),
            decreases s.len() - e,
        {
            proof {
                lemma_take_step(s@, e as int);
                lemma_take_le(s@, e + 1);
            }
            let wdt = utf8_width(s[e]);
            pe = pe + wdt;
            e += 1;
        }
        let line = char_slice(&s, i, e);
        proof {
            lemma_take_le(s@, i as int);
            lemma_take_le(s@, e as int);
        }
        w.consume(&line, pos, pe);
        if e < s.len() {
            proof {
                lemma_take_step(s@, e as int);
                lemma_take_le(s@, e + 1);
            }
            let w1 = utf8_width(s[e]);
            if s[e] == '\r' && e + 1 < s.len() && s[e + 1] == '\n' {
                proof {
                    lemma_take_step(s@, e + 1);
                    lemma_take_le(s@, e + 2);
                }
                let w2 = utf8_width(s[e + 1]);
                pos = pe + w1 + w2;
                i = e + 2;
            } else {
                pos = pe + w1;
                i = e + 1;
            }
        } else {
            pos = pe;
            i = e;
        }
    }
    w.finish_section();
    w.sections
}

/// Every closed section holds at least one entry.
pub open spec fn sections_nonempty(m: WalkModel) -> bool {
    forall|k: int| 0 <= k < m.sections.len() ==> (#[trigger] m.sections[k]).len() > 0
}

proof fn lemma_finish_section_nonempty(m: WalkModel)
    requires
        sections_nonempty(m),
    ensures
        sections_nonempty(finish_section_spec(m)),
{
    let m1 = finish_entry_spec(m);
    assert(m1.sections == m.sections);
    if let Some(v) = m1.open_section {
        if v.len() > 0 {
            let n = m1.sections.push(v);
            assert forall|k: int| 0 <= k < n.len() implies (#[trigger] n[k]).len() > 0 by {
                if k < m1.sections.len() {
                    assert(n[k] == m1.sections[k]);
                }
            }
        }
    }
}

proof fn lemma_step_nonempty(m: WalkModel, line: Seq<char>, start: u32, end: u32)
    requires
        sections_nonempty(m),
    ensures
        sections_nonempty(step_spec(m, line, start, end)),
{
    let ind = skip_python_ws(line, 0);
    let t = line.skip(ind);
    let (sc, kind) = classify_spec(m.scanner, t, ind as usize);
    let m1 = WalkModel { scanner: sc, ..m };
    assert(sections_nonempty(m1));
    lemma_finish_section_nonempty(m1);
    assert(finish_entry_spec(m1).sections == m1.sections);
}

proof fn lemma_walk_nonempty(m: WalkModel, s: Seq<char>, i: int, base: u32)
    requires
        sections_nonempty(m),
    ensures
        sections_nonempty(walk_from(m, s, i, base)),
    decreases s.len() - i,
{
    if 0 <= i < s.len() {
        let e = next_break(s, i);
        lemma_next_break_ge(s, i);
        let m1 = step_spec(m, s.subrange(i, e), offset_of(s, i, base), offset_of(s, e, base));
        lemma_step_nonempty(m, s.subrange(i, e), offset_of(s, i, base), offset_of(s, e, base));
        lemma_walk_nonempty(m1, s, line_after(s, e), base);
    }
}

/// No section of a body is empty: a heading whose section gathers no
/// entry contributes nothing.
pub proof fn lemma_sections_nonempty(body: Seq<char>, base: u32, body_indent_chars: usize)
    ensures
        forall|k: int|
            0 <= k < sections_spec(body, base, body_indent_chars).len() ==> (#[trigger] sections_spec(
                body,
                base,
                body_indent_chars,
            )[k]).len() > 0,
{
    if body.contains('\n') {
        let m0 = start_model(body_indent_chars);
        assert(sections_nonempty(m0));
        lemma_walk_nonempty(m0, body, 0, base);
        lemma_finish_section_nonempty(walk_from(m0, body, 0, base));
    }
}

/// The sections run together, in order.
pub open spec fn joined(ss: Seq<Seq<(Seq<char>, u32, u32)>>) -> Seq<(Seq<char>, u32, u32)>
    decreases ss.len(),
{
    if ss.len() == 0 {
        Seq::empty()
    } else {
        joined(ss.drop_last()) + ss.last()
    }
}

/// Every range runs forward and ends by `p`, and each ends before any
/// later one starts.
pub open spec fn ranges_ordered(xs: Seq<(Seq<char>, u32, u32)>, p: int) -> bool {
    &&& forall|k: int| 0 <= k < xs.len() ==> (#[trigger] xs[k]).1 <= xs[k].2 <= p
    &&& forall|k: int, l: int| 0 <= k < l < xs.len() ==> (#[trigger] xs[k]).2 <= (#[trigger] xs[l]).1
}

/// Every entry the walk holds, closed sections first, then the open
/// section, then the open entry.
pub open spec fn walk_entries(m: WalkModel) -> Seq<(Seq<char>, u32, u32)> {
    joined(m.sections) + match m.open_section {
        Some(v) => v,
        None => Seq::empty(),
    } + match m.open_entry {
        Some(en) => seq![en],
        None => Seq::empty(),
    }
}

proof fn lemma_ordered_push(xs: Seq<(Seq<char>, u32, u32)>, x: (Seq<char>, u32, u32), p: int, q: int)
    requires
        ranges_ordered(xs, p),
        p <= x.1 <= x.2 <= q,
    ensures
        ranges_ordered(xs.push(x), q),
{
    let ys = xs.push(x);
    assert forall|k: int, l: int| 0 <= k < l < ys.len() implies (#[trigger] ys[k]).2 <= (#[trigger] ys[l]).1 by {
        if l < xs.len() {
            assert(ys[k] == xs[k] && ys[l] == xs[l]);
        } else {
            assert(ys[k] == xs[k]);
        }
    }
    assert forall|k: int| 0 <= k < ys.len() implies (#[trigger] ys[k]).1 <= ys[k].2 <= q by {
        if k < xs.len() {
            assert(ys[k] == xs[k]);
        }
    }
}

proof fn lemma_ordered_drop_last(xs: Seq<(Seq<char>, u32, u32)>, p: int)
    requires
        ranges_ordered(xs, p),
        xs.len() > 0,
    ensures
        ranges_ordered(xs.drop_last(), p),
{
    let ys = xs.drop_last();
    assert forall|k: int, l: int| 0 <= k < l < ys.len() implies (#[trigger] ys[k]).2 <= (#[trigger] ys[l]).1 by {
        assert(ys[k] == xs[k] && ys[l] == xs[l]);
    }
    assert forall|k: int| 0 <= k < ys.len() implies (#[trigger] ys[k]).1 <= ys[k].2 <= p by {
        assert(ys[k] == xs[k]);
    }
}

proof fn lemma_ordered_raise(xs: Seq<(Seq<char>, u32, u32)>, p: int, q: int)
    requires
        ranges_ordered(xs, p),
        p <= q,
    ensures
        ranges_ordered(xs, q),
{
}

proof fn lemma_finish_entry_ordered(m: WalkModel, p: int)
    requires
        ranges_ordered(walk_entries(m), p),
    ensures
        ranges_ordered(walk_entries(finish_entry_spec(m)), p),
{
    let m1 = finish_entry_spec(m);
    if let Some(en) = m.open_entry {
        match m.open_section {
            Some(v) => {
                assert(walk_entries(m1) =~= walk_entries(m));
            },
            None => {
                assert(walk_entries(m1) =~= walk_entries(m).drop_last());
                lemma_ordered_drop_last(walk_entries(m), p);
            },
        }
    }
}

proof fn lemma_finish_section_ordered(m: WalkModel, p: int)
    requires
        ranges_ordered(walk_entries(m), p),
    ensures
        ranges_ordered(walk_entries(finish_section_spec(m)), p),
{
    lemma_finish_entry_ordered(m, p);
    let m1 = finish_entry_spec(m);
    if let Some(v) = m1.open_section {
        let m2 = finish_section_spec(m);
        if v.len() > 0 {
            assert(m1.sections.push(v).drop_last() =~= m1.sections);
            assert(walk_entries(m2) =~= walk_entries(m1));
        } else {
            assert(walk_entries(m2) =~= walk_entries(m1));
        }
    }
}

proof fn lemma_extend_ordered(m: WalkModel, p: int, end: u32)
    requires
        ranges_ordered(walk_entries(m), p),
        p <= end,
    ensures
        ranges_ordered(walk_entries(extend_spec(m, end)), end as int),
{
    let xs = walk_entries(m);
    if let Some(en) = m.open_entry {
        let ys = walk_entries(extend_spec(m, end));
        assert(ys =~= xs.drop_last().push((en.0, en.1, end)));
        lemma_ordered_drop_last(xs, p);
        assert(xs.last() == en);
        if xs.len() > 1 {
            assert(xs[xs.len() - 2].2 <= xs[xs.len() - 1].1);
        }
        assert forall|k: int| 0 <= k < xs.len() - 1 implies (#[trigger] xs.drop_last()[k]).2 <= en.1 by {
            assert(xs.drop_last()[k] == xs[k]);
            assert(xs[k].2 <= xs[xs.len() - 1].1);
        }
        let zs = xs.drop_last().push((en.0, en.1, end));
        assert forall|k: int, l: int| 0 <= k < l < zs.len() implies (#[trigger] zs[k]).2 <= (#[trigger] zs[l]).1 by {
            if l < zs.len() - 1 {
                assert(zs[k] == xs[k] && zs[l] == xs[l]);
            } else {
                assert(zs[k] == xs.drop_last()[k]);
            }
        }
        assert forall|k: int| 0 <= k < zs.len() implies (#[trigger] zs[k]).1 <= zs[k].2 <= end by {
            if k < zs.len() - 1 {
                assert(zs[k] == xs[k]);
            }
        }
    } else {
        lemma_ordered_raise(xs, p, end as int);
    }
}

proof fn lemma_step_ordered(m: WalkModel, line: Seq<char>, p: int, start: u32, end: u32)
    requires
        ranges_ordered(walk_entries(m), p),
        p <= start <= end,
    ensures
        ranges_ordered(walk_entries(step_spec(m, line, start, end)), end as int),
{
    let ind = skip_python_ws(line, 0);
    let t = line.skip(ind);
    let (sc, kind) = classify_spec(m.scanner, t, ind as usize);
    let m1 = WalkModel { scanner: sc, ..m };
    assert(walk_entries(m1) == walk_entries(m));
    match kind {
        LineScan::Blank => {
            lemma_ordered_raise(walk_entries(m), p, end as int);
        },
        LineScan::Body => {
            let bi = m1.scanner.body_indent_chars;
            let indent = ind as usize;
            if indent == bi {
                lemma_finish_section_ordered(m1, p);
                let m2 = finish_section_spec(m1);
                assert(m2.open_entry is None);
                lemma_ordered_raise(walk_entries(m2), p, end as int);
                if heading_from(t, 0) {
                    let m3 = WalkModel { open_section: Some(Seq::empty()), ..m2 };
                    assert(walk_entries(m3) =~= walk_entries(m2));
                }
            } else if m1.open_section is None {
                lemma_ordered_raise(walk_entries(m1), p, end as int);
            } else if indent == bi + 4 && entry_col_spec(t) is Some {
                lemma_finish_entry_ordered(m1, p);
                let m2 = finish_entry_spec(m1);
                let x = (t.subrange(0, skip_word_dot(t, 1)), start, end);
                let m3 = WalkModel { open_entry: Some(x), ..m2 };
                assert(walk_entries(m3) =~= walk_entries(m2).push(x));
                lemma_ordered_push(walk_entries(m2), x, p, end as int);
            } else {
                lemma_extend_ordered(m1, p, end);
            }
        },
        _ => {
            lemma_extend_ordered(m1, p, end);
        },
    }
}

/// Byte offsets grow with the character index, and stay within the
/// text.
pub proof fn lemma_offset_mono(s: Seq<char>, i: int, j: int, base: u32)
    requires
        0 <= i <= j <= s.len(),
        base + encode_utf8(s).len() <= u32::MAX,
    ensures
        offset_of(s, i, base) <= offset_of(s, j, base) <= base + encode_utf8(s).len(),
        offset_of(s, i, base) == base + encode_utf8(s.take(i)).len(),
{
    lemma_take_le(s, i);
    lemma_take_le(s, j);
    if i < j {
        crate::text::lemma_take_strict(s, i, j);
    }
}

proof fn lemma_walk_ordered(m: WalkModel, s: Seq<char>, i: int, base: u32, p: int)
    requires
        0 <= i <= s.len(),
        base + encode_utf8(s).len() <= u32::MAX,
        ranges_ordered(walk_entries(m), p),
        p <= offset_of(s, i, base),
    ensures
        ranges_ordered(walk_entries(walk_from(m, s, i, base)), base + encode_utf8(s).len()),
    decreases s.len() - i,
{
    lemma_offset_mono(s, i, s.len() as int, base);
    if i < s.len() {
        let e = next_break(s, i);
        lemma_next_break_ge(s, i);
        let n = line_after(s, e);
        lemma_offset_mono(s, i, e, base);
        lemma_offset_mono(s, e, n, base);
        let m1 = step_spec(m, s.subrange(i, e), offset_of(s, i, base), offset_of(s, e, base));
        lemma_step_ordered(m, s.subrange(i, e), p, offset_of(s, i, base), offset_of(s, e, base));
        lemma_walk_ordered(m1, s, n, base, offset_of(s, e, base) as int);
    } else {
        assert(s.take(s.len() as int) =~= s);
        lemma_ordered_raise(walk_entries(m), p, base + encode_utf8(s).len());
    }
}

/// The entries of a body's sections, section after section, come in
/// source order: each range runs forward, ends before the next entry
/// starts, and lies within the body.
pub proof fn lemma_section_ranges_ordered(body: Seq<char>, base: u32, body_indent_chars: usize)
    requires
        base + encode_utf8(body).len() <= u32::MAX,
    ensures
        ranges_ordered(joined(sections_spec(body, base, body_indent_chars)), base + encode_utf8(body).len()),
{
    if body.contains('\n') {
        let m0 = start_model(body_indent_chars);
        assert(walk_entries(m0) =~= Seq::empty());
        assert(body.take(0) =~= Seq::<char>::empty());
        lemma_walk_ordered(m0, body, 0, base, base as int);
        let w = walk_from(m0, body, 0, base);
        lemma_finish_section_ordered(w, base + encode_utf8(body).len());
        let f = finish_section_spec(w);
        assert(walk_entries(f) =~= joined(f.sections));
    }
}

} // verus!
