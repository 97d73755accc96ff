//! Headings and sections of a markdown document.
//!
//! The markdown grammar itself is CommonMark as `pulldown_cmark` reads it: the
//! library takes that crate's event stream and derives from it the headings,
//! their line numbers, their hierarchical indices (`#1.2.3`), parents and the
//! line where each section ends.

use vstd::prelude::*;
use crate::text::{
    contains, contains_chars, find_char, first_index_of, has_prefix, lines_of, slice_chars,
    starts_with, text_lines, trim_start, trim_start_chars,
    append_chars, chars_of, dec, join, join_range_into, push_decimal, push_repeat, repeat_char,
    string_of, vv, trim, trim_chars, trim_start_char, trim_start_char_chars, eq_str_chars,
    lemma_trim_start_char_len,
};
use pulldown_cmark::{Event, Parser, Tag, TagEnd};
use vstd::string::StringSliceAdditionalSpecFns;

verus! {

broadcast use vstd::string::group_string_axioms;

// ---------------------------------------------------------------------------
// Events of the markdown parse
// ---------------------------------------------------------------------------

/// The part of a `pulldown_cmark` event that heading extraction reads.
pub enum MdEvent {
    /// Start of a heading: its level (1 to 6) and the byte offset where it starts.
    HeadingStart { level: u8, offset: usize },
    /// End of a heading.
    HeadingEnd,
    /// A text node.
    Text(String),
    /// An inline code node.
    Code(String),
    /// A soft line break.
    SoftBreak,
    /// A hard line break.
    HardBreak,
    /// Any other event.
    Other,
}

/// An event as a plain value.
pub enum MdEventView {
    HeadingStart { level: u8, offset: nat },
    HeadingEnd,
    Text(Seq<char>),
    Code(Seq<char>),
    SoftBreak,
    HardBreak,
    Other,
}

impl View for MdEvent {
    type V = MdEventView;

    open spec fn view(&self) -> MdEventView {
        match self {
            MdEvent::HeadingStart { level, offset } => MdEventView::HeadingStart {
                level: *level,
                offset: *offset as nat,
            },
            MdEvent::HeadingEnd => MdEventView::HeadingEnd,
            MdEvent::Text(t) => MdEventView::Text(t@),
            MdEvent::Code(t) => MdEventView::Code(t@),
            MdEvent::SoftBreak => MdEventView::SoftBreak,
            MdEvent::HardBreak => MdEventView::HardBreak,
            MdEvent::Other => MdEventView::Other,
        }
    }
}

/// The views of a sequence of events.
pub open spec fn events_view(v: Seq<MdEvent>) -> Seq<MdEventView> {
    v.map_values(|e: MdEvent| e@)
}

/// The event stream that `pulldown_cmark` produces for a text (with default
/// options), reduced to `MdEventView`.
pub uninterp spec fn cmark_events(content: Seq<char>) -> Seq<MdEventView>;

/// Runs `pulldown_cmark::Parser::new(content).into_offset_iter()` and reduces
/// each event to an `MdEvent`.
///
/// Trusted: the events are `cmark_events(content@)`, and a heading level is
/// one of the six `HeadingLevel` variants, whose discriminants are 1 to 6.
#[verifier::external_body]
fn markdown_events(content: &str) -> (r: Vec<MdEvent>)
    ensures
        events_view(r@) == cmark_events(content@),
        forall|i: int|
            0 <= i < r.len() ==> (#[trigger] r@[i] matches MdEvent::HeadingStart { level, .. } ==> 1
                <= level <= 6),
{
    let mut out = Vec::new();
    for (ev, range) in Parser::new(content).into_offset_iter() {
        out.push(match ev {
            Event::Start(Tag::Heading { level, .. }) => MdEvent::HeadingStart { level: level as u8, offset: range.start },
            Event::End(TagEnd::Heading(_)) => MdEvent::HeadingEnd,
            Event::Text(t) => MdEvent::Text(t.to_string()),
            Event::Code(t) => MdEvent::Code(t.to_string()),
            Event::SoftBreak => MdEvent::SoftBreak,
            Event::HardBreak => MdEvent::HardBreak,
            _ => MdEvent::Other,
        });
    }
    out
}

// ---------------------------------------------------------------------------
// Sections
// ---------------------------------------------------------------------------

/// A section: a heading and the lines up to the next heading of the same or
/// a higher level.
#[derive(Debug, Clone, PartialEq)]
pub struct Section {
    /// Hierarchical index such as "#1", "#1.1", "#1.1.1".
    pub index: String,
    /// Heading level (1 to 6).
    pub level: u8,
    /// Heading text without markdown formatting.
    pub title: String,
    /// 1-based line where the heading starts.
    pub start_line: usize,
    /// Last line of the section (the line before the next heading of the
    /// same or a higher level, or the last line of the document).
    pub end_line: usize,
    /// 0-based position of the heading in the document.
    pub ordinal: usize,
    /// Index of the enclosing section, if there is one.
    pub parent_index: Option<String>,
}

/// A section as a plain value.
pub struct SectionView {
    pub index: Seq<char>,
    pub level: u8,
    pub title: Seq<char>,
    pub start_line: nat,
    pub end_line: nat,
    pub ordinal: nat,
    pub parent_index: Option<Seq<char>>,
}

/// The view of an optional string.
pub open spec fn opt_view(o: Option<String>) -> Option<Seq<char>> {
    match o {
        Some(s) => Some(s@),
        None => None,
    }
}

impl View for Section {
    type V = SectionView;

    open spec fn view(&self) -> SectionView {
        SectionView {
            index: self.index@,
            level: self.level,
            title: self.title@,
            start_line: self.start_line as nat,
            end_line: self.end_line as nat,
            ordinal: self.ordinal as nat,
            parent_index: opt_view(self.parent_index),
        }
    }
}

/// The views of a sequence of sections.
pub open spec fn sections_view(v: Seq<Section>) -> Seq<SectionView> {
    v.map_values(|s: Section| s@)
}

impl Section {
    /// Creates a section from its parts.
    pub fn new(
        index: String,
        level: u8,
        title: String,
        start_line: usize,
        end_line: usize,
        ordinal: usize,
        parent_index: Option<String>,
    ) -> (s: Self)
        ensures
            s.index == index,
            s.level == level,
            s.title == title,
            s.start_line == start_line,
            s.end_line == end_line,
            s.ordinal == ordinal,
            s.parent_index == parent_index,
    {
        Section { index, level, title, start_line, end_line, ordinal, parent_index }
    }

    /// The number of lines after the heading line (0 when `end_line` is
    /// not after `start_line`).
    pub fn content_line_count(&self) -> (n: usize)
        ensures
            n == if self.end_line >= self.start_line {
                self.end_line - self.start_line
            } else {
                0
            },
    {
        self.end_line.saturating_sub(self.start_line)
    }

    /// Whether `line` lies within the section (inclusive bounds).
    pub fn contains_line(&self, line: usize) -> (b: bool)
        ensures
            b == (self.start_line <= line && line <= self.end_line),
    {
        line >= self.start_line && line <= self.end_line
    }

    /// The section written as `index ### title (Lstart-Lend)`.
    pub fn display(&self) -> (r: String)
        ensures
            r@ == section_display(self@),
    {
        let mut out: Vec<char> = Vec::new();
        append_chars(&mut out, &chars_of(self.index.as_str()));
        out.push(' ');
        push_repeat(&mut out, '#', self.level as usize);
        out.push(' ');
        append_chars(&mut out, &chars_of(self.title.as_str()));
        out.push(' ');
        out.push('(');
        out.push('L');
        push_decimal(&mut out, self.start_line);
        out.push('-');
        out.push('L');
        push_decimal(&mut out, self.end_line);
        out.push(')');
        assert(out@ =~= section_display(self@));
        string_of(&out)
    }
}

/// `index ### title (Lstart-Lend)`.
pub open spec fn section_display(s: SectionView) -> Seq<char> {
    s.index + seq![' '] + repeat_char('#', s.level as nat) + seq![' '] + s.title + seq![' ', '(', 'L']
        + dec(s.start_line) + seq!['-', 'L'] + dec(s.end_line) + seq![')']
}

/// A parsed markdown document.
#[derive(Debug, Clone, PartialEq)]
pub struct ParsedDocument {
    /// All sections of the document, in order of appearance.
    pub sections: Vec<Section>,
    /// Whether the document starts with YAML frontmatter.
    pub has_frontmatter: bool,
    /// Number of lines of the document.
    pub total_lines: usize,
}

} // verus!

verus! {

// ---------------------------------------------------------------------------
// Line numbers of byte offsets
// ---------------------------------------------------------------------------

/// The byte offsets where lines start: 0, and one past every `\n` byte.
pub open spec fn line_starts(b: Seq<u8>) -> Seq<usize>
    decreases b.len(),
{
    if b.len() == 0 {
        seq![0usize]
    } else {
        let p = line_starts(b.drop_last());
        if b.last() == 10u8 {
            p.push(b.len() as usize)
        } else {
            p
        }
    }
}

/// Number of `\n` bytes among the first `pos` bytes of `b`.
pub open spec fn newlines_before(b: Seq<u8>, pos: int) -> nat
    decreases pos,
{
    if pos <= 0 {
        0
    } else if pos > b.len() {
        newlines_before(b, b.len() as int)
    } else {
        newlines_before(b, pos - 1) + if b[pos - 1] == 10u8 {
            1nat
        } else {
            0nat
        }
    }
}

/// Number of entries of `s` that are at most `pos`.
pub open spec fn count_le(s: Seq<usize>, pos: int) -> nat
    decreases s.len(),
{
    if s.len() == 0 {
        0
    } else {
        count_le(s.drop_last(), pos) + if s.last() <= pos {
            1nat
        } else {
            0nat
        }
    }
}

/// The 1-based line of byte `pos` given a table of line starts.
pub open spec fn line_of(lookup: Seq<usize>, pos: int) -> nat {
    if count_le(lookup, pos) == 0 {
        1
    } else {
        count_le(lookup, pos)
    }
}

/// Strictly increasing.
pub open spec fn strictly_sorted(s: Seq<usize>) -> bool {
    forall|i: int, j: int| 0 <= i < j < s.len() ==> s[i] < s[j]
}

proof fn lemma_line_starts_props(b: Seq<u8>)
    requires
        b.len() <= usize::MAX,
    ensures
        line_starts(b).len() >= 1,
        line_starts(b)[0] == 0,
        strictly_sorted(line_starts(b)),
        forall|i: int| 0 <= i < line_starts(b).len() ==> line_starts(b)[i] <= b.len(),
        forall|pos: int|
            0 <= pos ==> #[trigger] count_le(line_starts(b), pos) == 1 + newlines_before(b, pos),
    decreases b.len(),
{
    if b.len() == 0 {
        assert forall|pos: int| 0 <= pos implies #[trigger] count_le(line_starts(b), pos) == 1
            + newlines_before(b, pos) by {
            assert(seq![0usize].drop_last() =~= Seq::<usize>::empty());
            assert(line_starts(b) == seq![0usize]);
            assert(count_le(Seq::<usize>::empty(), pos) == 0);
            assert(count_le(seq![0usize], pos) == 1);
            if pos > 0 {
                assert(newlines_before(b, pos) == newlines_before(b, 0));
            }
        }
    } else {
        let p = line_starts(b.drop_last());
        lemma_line_starts_props(b.drop_last());
        assert forall|pos: int| 0 <= pos implies #[trigger] count_le(line_starts(b), pos) == 1
            + newlines_before(b, pos) by {
            lemma_newlines_prefix(b, pos);
            assert(count_le(p, pos) == 1 + newlines_before(b.drop_last(), pos));
            if b.last() == 10u8 {
                assert(line_starts(b) == p.push(b.len() as usize));
                assert(line_starts(b).drop_last() =~= p);
                assert(count_le(line_starts(b), pos) == count_le(p, pos) + if b.len() <= pos {
                    1nat
                } else {
                    0nat
                });
            } else {
                assert(line_starts(b) == p);
            }
        }
    }
}

/// Counting newlines in a prefix of `b` only reads that prefix.
proof fn lemma_newlines_prefix(b: Seq<u8>, pos: int)
    requires
        b.len() > 0,
        0 <= pos,
    ensures
        newlines_before(b, pos) == newlines_before(b.drop_last(), pos) + if pos >= b.len()
            && b.last() == 10u8 {
            1nat
        } else {
            0nat
        },
    decreases pos,
{
    if pos > b.len() {
        lemma_newlines_prefix(b, b.len() as int);
        lemma_newlines_cap(b.drop_last(), pos);
    } else if pos > 0 {
        lemma_newlines_prefix(b, pos - 1);
        if pos == b.len() {
            lemma_newlines_cap(b.drop_last(), pos);
        }
    }
}

proof fn lemma_newlines_cap(b: Seq<u8>, pos: int)
    requires
        pos >= b.len(),
    ensures
        newlines_before(b, pos) == newlines_before(b, b.len() as int),
{
}

proof fn lemma_count_le_split(s: Seq<usize>, pos: int, lo: int)
    requires
        0 <= lo <= s.len(),
        forall|j: int| 0 <= j < lo ==> s[j] <= pos,
        forall|j: int| lo <= j < s.len() ==> s[j] > pos,
    ensures
        count_le(s, pos) == lo,
    decreases s.len(),
{
    if s.len() > 0 {
        if lo == s.len() {
            lemma_count_le_split(s.drop_last(), pos, lo - 1);
        } else {
            lemma_count_le_split(s.drop_last(), pos, lo);
        }
    }
}

/// The table of line starts of a text, from its bytes.
fn build_line_lookup(content: &str) -> (r: Vec<usize>)
    ensures
        r@ == line_starts(content.spec_bytes()),
{
    let b = content.as_bytes();
    let mut lookup: Vec<usize> = vec![0];
    let mut i: usize = 0;
    assert(b@.take(0) =~= Seq::<u8>::empty());
    while i < b.len()
        invariant
            i <= b@.len(),
            b@ == content.spec_bytes(),
            lookup@ == line_starts(b@.take(i as int)),
        decreases b.len() - i,
    {
        assert(b@.take(i + 1).drop_last() =~= b@.take(i as int));
        if b[i] == 10u8 {
            lookup.push(i + 1);
        }
        i += 1;
    }
    assert(b@.take(b.len() as int) =~= b@);
    lookup
}

/// The 1-based line of a byte position (binary search over the line starts).
fn get_line_number(lookup: &Vec<usize>, byte_pos: usize) -> (n: usize)
    requires
        strictly_sorted(lookup@),
    ensures
        n == line_of(lookup@, byte_pos as int),
{
    let mut lo: usize = 0;
    let mut hi: usize = lookup.len();
    while lo < hi
        invariant
            lo <= hi <= lookup.len(),
            strictly_sorted(lookup@),
            forall|j: int| 0 <= j < lo ==> lookup@[j] <= byte_pos,
            forall|j: int| hi <= j < lookup.len() ==> lookup@[j] > byte_pos,
        decreases hi - lo,
    {
        let mid = lo + (hi - lo) / 2;
        if lookup[mid] <= byte_pos {
            lo = mid + 1;
        } else {
            hi = mid;
        }
    }
    proof { lemma_count_le_split(lookup@, byte_pos as int, lo as int); }
    if lo == 0 {
        1
    } else {
        lo
    }
}

} // verus!

verus! {

// ---------------------------------------------------------------------------
// Headings from the event stream
// ---------------------------------------------------------------------------

/// A heading found in the event stream, with its byte offset.
pub struct HeadingAt {
    pub level: u8,
    pub title: Seq<char>,
    pub offset: nat,
}

/// A heading with its 1-based line.
pub struct HeaderLine {
    pub level: u8,
    pub title: Seq<char>,
    pub start_line: nat,
}

/// State of the scan over events: the open heading (level and offset), the
/// title collected for it so far, and the headings completed.
pub struct ScanState {
    pub open: Option<(u8, nat)>,
    pub title: Seq<char>,
    pub done: Seq<HeadingAt>,
}

/// One step of the scan: a heading start opens a heading with an empty
/// title; text and inline code inside it extend the title, a line break
/// adds a space; a heading end completes the open heading.
pub open spec fn scan_step(st: ScanState, e: MdEventView) -> ScanState {
    match e {
        MdEventView::HeadingStart { level, offset } => ScanState {
            open: Some((level, offset)),
            title: Seq::empty(),
            done: st.done,
        },
        MdEventView::HeadingEnd => ScanState {
            open: None,
            title: st.title,
            done: match st.open {
                Some((l, o)) => st.done.push(HeadingAt { level: l, title: st.title, offset: o }),
                None => st.done,
            },
        },
        MdEventView::Text(t) => if st.open is Some {
            ScanState { title: st.title + t, ..st }
        } else {
            st
        },
        MdEventView::Code(t) => if st.open is Some {
            ScanState { title: st.title + t, ..st }
        } else {
            st
        },
        MdEventView::SoftBreak => if st.open is Some {
            ScanState { title: st.title.push(' '), ..st }
        } else {
            st
        },
        MdEventView::HardBreak => if st.open is Some {
            ScanState { title: st.title.push(' '), ..st }
        } else {
            st
        },
        MdEventView::Other => st,
    }
}

/// The scan state after all of `events`.
pub open spec fn scan_events(events: Seq<MdEventView>) -> ScanState
    decreases events.len(),
{
    if events.len() == 0 {
        ScanState { open: None, title: Seq::empty(), done: Seq::empty() }
    } else {
        scan_step(scan_events(events.drop_last()), events.last())
    }
}

/// The headings of an event stream with their lines.
pub open spec fn headings_with_lines(events: Seq<MdEventView>, lookup: Seq<usize>) -> Seq<HeaderLine> {
    let hs = scan_events(events).done;
    Seq::new(
        hs.len(),
        |i: int|
            HeaderLine {
                level: hs[i].level,
                title: hs[i].title,
                start_line: line_of(lookup, hs[i].offset as int),
            },
    )
}

/// Every heading start in the stream has a level from 1 to 6.
pub open spec fn levels_ok(events: Seq<MdEventView>) -> bool {
    forall|i: int|
        0 <= i < events.len() ==> (#[trigger] events[i] matches MdEventView::HeadingStart {
            level,
            ..
        } ==> 1 <= level <= 6)
}

proof fn lemma_scan_levels(events: Seq<MdEventView>)
    requires
        levels_ok(events),
    ensures
        forall|i: int|
            0 <= i < scan_events(events).done.len() ==> 1 <= #[trigger] scan_events(
                events,
            ).done[i].level <= 6,
        scan_events(events).open matches Some((l, o)) ==> 1 <= l <= 6,
    decreases events.len(),
{
    if events.len() > 0 {
        assert(levels_ok(events.drop_last())) by {
            assert forall|i: int| 0 <= i < events.drop_last().len() implies (
            #[trigger] events.drop_last()[i] matches MdEventView::HeadingStart { level, .. } ==> 1
                <= level <= 6) by {
                assert(events.drop_last()[i] == events[i]);
            }
        }
        lemma_scan_levels(events.drop_last());
        assert(events[events.len() - 1] == events.last());
    }
}

/// A heading during extraction.
struct HeaderInfo {
    level: u8,
    title: Vec<char>,
    start_line: usize,
}

spec fn header_view(h: HeaderInfo) -> HeaderLine {
    HeaderLine { level: h.level, title: h.title@, start_line: h.start_line as nat }
}

spec fn headers_view(v: Seq<HeaderInfo>) -> Seq<HeaderLine> {
    v.map_values(|h: HeaderInfo| header_view(h))
}

/// Collects the headings of the event stream with their lines.
fn extract_headers(events: &Vec<MdEvent>, line_lookup: &Vec<usize>) -> (r: Vec<HeaderInfo>)
    requires
        strictly_sorted(line_lookup@),
    ensures
        headers_view(r@) == headings_with_lines(events_view(events@), line_lookup@),
{
    let ghost ev = events_view(events@);
    let mut headers: Vec<HeaderInfo> = Vec::new();
    let mut current: Option<(u8, usize)> = None;
    let mut title: Vec<char> = Vec::new();
    let mut i: usize = 0;
    assert(ev.take(0) =~= Seq::<MdEventView>::empty());
    while i < events.len()
        invariant
            i <= events.len(),
            ev == events_view(events@),
            strictly_sorted(line_lookup@),
            ({
                let st = scan_events(ev.take(i as int));
                &&& title@ == st.title
                &&& match current {
                    Some((l, o)) => st.open == Some((l, o as nat)),
                    None => st.open is None,
                }
                &&& headers_view(headers@) == headings_with_lines(ev.take(i as int), line_lookup@)
            }),
        decreases events.len() - i,
    {
        let ghost prev = ev.take(i as int);
        assert(ev.take(i + 1).drop_last() =~= prev);
        assert(ev.take(i + 1).last() == events@[i as int]@);
        let ghost st = scan_events(prev);
        match &events[i] {
            MdEvent::HeadingStart { level, offset } => {
                current = Some((*level, *offset));
                title = Vec::new();
            },
            MdEvent::HeadingEnd => {
                if let Some((level, offset)) = current {
                    let start_line = get_line_number(line_lookup, offset);
                    let ghost old_h = headers_view(headers@);
                    let h = HeaderInfo { level, title: title.clone(), start_line };
                    let ghost hv = header_view(h);
                    headers.push(h);
                    assert(headers_view(headers@) =~= old_h.push(hv));
                    assert(headings_with_lines(ev.take(i + 1), line_lookup@) =~= old_h.push(hv));
                } else {
                    assert(headings_with_lines(ev.take(i + 1), line_lookup@) =~= headings_with_lines(
                        prev,
                        line_lookup@,
                    ));
                }
                current = None;
            },
            MdEvent::Text(t) => {
                if current.is_some() {
                    append_chars(&mut title, &chars_of(t.as_str()));
                }
                assert(headings_with_lines(ev.take(i + 1), line_lookup@) =~= headings_with_lines(
                    prev,
                    line_lookup@,
                ));
            },
            MdEvent::Code(t) => {
                if current.is_some() {
                    append_chars(&mut title, &chars_of(t.as_str()));
                }
                assert(headings_with_lines(ev.take(i + 1), line_lookup@) =~= headings_with_lines(
                    prev,
                    line_lookup@,
                ));
            },
            MdEvent::SoftBreak => {
                if current.is_some() {
                    title.push(' ');
                }
                assert(headings_with_lines(ev.take(i + 1), line_lookup@) =~= headings_with_lines(
                    prev,
                    line_lookup@,
                ));
            },
            MdEvent::HardBreak => {
                if current.is_some() {
                    title.push(' ');
                }
                assert(headings_with_lines(ev.take(i + 1), line_lookup@) =~= headings_with_lines(
                    prev,
                    line_lookup@,
                ));
            },
            MdEvent::Other => {
                assert(headings_with_lines(ev.take(i + 1), line_lookup@) =~= headings_with_lines(
                    prev,
                    line_lookup@,
                ));
            },
        }
        i += 1;
    }
    assert(ev.take(events.len() as int) =~= ev);
    headers
}

} // verus!

verus! {

// ---------------------------------------------------------------------------
// Section indices, parents and ends
// ---------------------------------------------------------------------------

/// The position of heading `k`'s parent: the nearest earlier heading of a
/// smaller level (see `parent_from`).
pub open spec fn parent_of(hs: Seq<HeaderLine>, k: int) -> Option<int> {
    parent_from(hs, hs[k].level, k - 1)
}

/// How many of the headings before position `i` have the parent `par`.
pub open spec fn children_before(hs: Seq<HeaderLine>, par: Option<int>, i: int) -> nat
    decreases i,
{
    if i <= 0 {
        0
    } else {
        children_before(hs, par, i - 1) + if parent_of(hs, i - 1) == par {
            1nat
        } else {
            0nat
        }
    }
}

/// The number of heading `k` among the headings with the same parent,
/// counted from 1.
pub open spec fn sibling_number(hs: Seq<HeaderLine>, k: int) -> nat {
    children_before(hs, parent_of(hs, k), k + 1)
}

/// The numbers on the way from the top of the outline down to heading `k`:
/// its parent's numbers, then its own number among its parent's children.
pub open spec fn index_path(hs: Seq<HeaderLine>, k: int) -> Seq<nat>
    decreases k,
{
    if k < 0 {
        Seq::empty()
    } else {
        match parent_of(hs, k) {
            Some(p) => if 0 <= p < k {
                index_path(hs, p).push(sibling_number(hs, k))
            } else {
                seq![sibling_number(hs, k)]
            },
            None => seq![sibling_number(hs, k)],
        }
    }
}

/// The decimal forms of some numbers.
pub open spec fn decimals(ns: Seq<nat>) -> Seq<Seq<char>> {
    ns.map_values(|n: nat| dec(n))
}

/// The index of heading `k`: `#` and its outline numbers joined with dots
/// (`#1`, `#1.2`): a heading is numbered among the headings that share its
/// parent, whatever levels lie between them.
pub open spec fn index_label(hs: Seq<HeaderLine>, k: int) -> Seq<char> {
    seq!['#'] + join(decimals(index_path(hs, k)), seq!['.'])
}

/// The nearest heading at or before `j` whose level is below `lvl`.
pub open spec fn parent_from(hs: Seq<HeaderLine>, lvl: u8, j: int) -> Option<int>
    decreases j + 1,
{
    if j < 0 {
        None
    } else if hs[j].level < lvl {
        Some(j)
    } else {
        parent_from(hs, lvl, j - 1)
    }
}

/// The first heading at or after `i` whose level is `lvl` or higher (a
/// smaller number).
pub open spec fn closer_from(hs: Seq<HeaderLine>, lvl: u8, i: int) -> Option<int>
    decreases hs.len() - i,
{
    if i < 0 || i >= hs.len() {
        None
    } else if hs[i].level <= lvl {
        Some(i)
    } else {
        closer_from(hs, lvl, i + 1)
    }
}

/// The last line of the section of heading `k`.
pub open spec fn end_line_of(hs: Seq<HeaderLine>, k: int, total_lines: nat) -> nat {
    match closer_from(hs, hs[k].level, k + 1) {
        Some(i) => (hs[i].start_line - 1) as nat,
        None => total_lines,
    }
}

/// The section of heading `k`.
pub open spec fn section_of(hs: Seq<HeaderLine>, k: int, total_lines: nat) -> SectionView {
    SectionView {
        index: index_label(hs, k),
        level: hs[k].level,
        title: hs[k].title,
        start_line: hs[k].start_line,
        end_line: end_line_of(hs, k, total_lines),
        ordinal: k as nat,
        parent_index: match parent_from(hs, hs[k].level, k - 1) {
            Some(j) => Some(index_label(hs, j)),
            None => None,
        },
    }
}

/// The sections of a list of headings.
pub open spec fn sections_of(hs: Seq<HeaderLine>, total_lines: nat) -> Seq<SectionView> {
    Seq::new(hs.len(), |k: int| section_of(hs, k, total_lines))
}

/// Levels from 1 to 6 and lines from 1.
pub open spec fn headers_ok(hs: Seq<HeaderLine>) -> bool {
    forall|i: int| 0 <= i < hs.len() ==> 1 <= #[trigger] hs[i].level <= 6 && hs[i].start_line >= 1
}

/// A sequence of `usize` as naturals.
pub open spec fn nat_seq(v: Seq<usize>) -> Seq<nat> {
    v.map_values(|x: usize| x as nat)
}

/// The index of a heading numbered `n` under the parent with index
/// `parent` (none at the top).
fn child_index(parent: Option<&String>, n: usize) -> (r: String)
    ensures
        r@ == match parent {
            Some(p) => p@ + seq!['.'] + dec(n as nat),
            None => seq!['#'] + dec(n as nat),
        },
{
    let mut out: Vec<char> = Vec::new();
    match parent {
        Some(p) => {
            crate::text::push_str(&mut out, p.as_str());
            out.push('.');
        },
        None => {
            out.push('#');
        },
    }
    push_decimal(&mut out, n);
    string_of(&out)
}

/// The position of the nearest earlier section whose level is below `level`.
fn find_parent(sections: &Vec<Section>, level: u8, Ghost(hs): Ghost<Seq<HeaderLine>>, Ghost(total): Ghost<nat>) -> (r:
    Option<usize>)
    requires
        sections.len() < hs.len(),
        sections_view(sections@) == sections_of(hs, total).take(sections.len() as int),
    ensures
        match r {
            Some(j) => parent_from(hs, level, sections.len() - 1) == Some(j as int),
            None => parent_from(hs, level, sections.len() - 1) is None,
        },
{
    let mut j = sections.len();
    while j > 0
        invariant
            j <= sections.len() < hs.len(),
            sections_view(sections@) == sections_of(hs, total).take(sections.len() as int),
            parent_from(hs, level, sections.len() - 1) == parent_from(hs, level, j - 1),
        decreases j,
    {
        let ghost sv = sections_view(sections@);
        assert(sv[j - 1] == sections@[j - 1]@);
        assert(sv[j - 1] == sections_of(hs, total).take(sections.len() as int)[j - 1]);
        assert(sections@[j - 1]@ == sections_of(hs, total)[j - 1]);
        if sections[j - 1].level < level {
            return Some(j - 1);
        }
        j -= 1;
    }
    None
}

/// The last line of the section of heading `k`.
fn find_end(headers: &Vec<HeaderInfo>, k: usize, level: u8, total_lines: usize) -> (r: usize)
    requires
        k < headers.len(),
        headers_ok(headers_view(headers@)),
    ensures
        r == match closer_from(headers_view(headers@), level, k + 1) {
            Some(i) => (headers_view(headers@)[i].start_line - 1) as nat,
            None => total_lines as nat,
        },
{
    let ghost hs = headers_view(headers@);
    let mut m = k + 1;
    while m < headers.len()
        invariant
            k < m <= headers.len(),
            hs == headers_view(headers@),
            headers_ok(hs),
            closer_from(hs, level, k + 1) == closer_from(hs, level, m as int),
        decreases headers.len() - m,
    {
        assert(hs[m as int] == header_view(headers@[m as int]));
        if headers[m].level <= level {
            assert(hs[m as int].start_line >= 1);
            return headers[m].start_line - 1;
        }
        m += 1;
    }
    total_lines
}

/// Builds the sections from the headings.
fn build_sections(headers: &Vec<HeaderInfo>, total_lines: usize) -> (r: Vec<Section>)
    requires
        headers_ok(headers_view(headers@)),
    ensures
        sections_view(r@) == sections_of(headers_view(headers@), total_lines as nat),
        forall|i: int, j: int| 0 <= i < j < r.len() ==> (#[trigger] r@[i]).index@ != (#[trigger] r@[j]).index@,
{
    let ghost hs = headers_view(headers@);
    let mut sections: Vec<Section> = Vec::new();
    let mut child_counts: Vec<usize> = Vec::new();
    let mut top_count: usize = 0;
    let mut k: usize = 0;
    while k < headers.len()
        invariant
            hs == headers_view(headers@),
            headers_ok(hs),
            k <= headers.len(),
            sections.len() == k,
            child_counts.len() == k,
            forall|j: int| 0 <= j < k ==> #[trigger] child_counts@[j] == children_before(hs, Some(j), k as int),
            top_count == children_before(hs, None, k as int),
            sections_view(sections@) == sections_of(hs, total_lines as nat).take(k as int),
        decreases headers.len() - k,
    {
        let header = &headers[k];
        assert(hs[k as int] == header_view(*header));
        let level = header.level;
        assert(hs[k as int].level == level);
        assert(1 <= hs[k as int].level <= 6);
        let parent = find_parent(&sections, level, Ghost(hs), Ghost(total_lines as nat));
        proof {
            lemma_parent_from_range(hs, level, k - 1);
            lemma_children_before_bound(hs, parent_of(hs, k as int), k as int);
            lemma_children_before_bound(hs, None, k as int);
        }
        let ghost par: Option<int> = match parent {
            Some(j) => Some(j as int),
            None => None,
        };
        assert(par == parent_of(hs, k as int));
        let ghost old_counts = child_counts@;
        let n: usize = match parent {
            Some(j) => {
                let c = child_counts[j] + 1;
                child_counts.set(j, c);
                c
            },
            None => {
                top_count = top_count + 1;
                top_count
            },
        };
        assert(n == sibling_number(hs, k as int));
        child_counts.push(0);
        let (index, parent_index) = match parent {
            Some(j) => {
                let ghost sv = sections_view(sections@);
                assert(sv[j as int] == sections@[j as int]@);
                assert(sections@[j as int]@ == sections_of(hs, total_lines as nat)[j as int]);
                let pi = sections[j].index.clone();
                (child_index(Some(&pi), n), Some(pi))
            },
            None => (child_index(None, n), None),
        };
        proof {
            lemma_label_step(hs, k as int);
        }
        let end_line = find_end(headers, k, level, total_lines);
        let ghost old_s = sections_view(sections@);
        let sec = Section {
            index,
            level,
            title: string_of(&header.title),
            start_line: header.start_line,
            end_line,
            ordinal: k,
            parent_index,
        };
        let ghost sv = sec@;
        sections.push(sec);
        assert(sections_view(sections@) =~= old_s.push(sv));
        proof {
            assert forall|j: int| 0 <= j < k + 1 implies #[trigger] child_counts@[j] == children_before(
                hs,
                Some(j),
                k + 1,
            ) by {
                if j < k {
                    assert(child_counts@[j] == if par == Some(j) {
                        old_counts[j] + 1
                    } else {
                        old_counts[j] as int
                    });
                } else {
                    lemma_no_children_yet(hs, k as int, k + 1);
                }
            }
        }
        k += 1;
    }
    proof {
        assert forall|i: int, j: int| 0 <= i < j < sections.len() implies (#[trigger] sections@[i]).index@
            != (#[trigger] sections@[j]).index@ by {
            sections_have_distinct_indices(hs, i, j);
            assert(sections_view(sections@)[i] == sections@[i]@);
            assert(sections_view(sections@)[j] == sections@[j]@);
        }
    }
    sections
}

/// Counts of children stay within the number of headings counted.
proof fn lemma_children_before_bound(hs: Seq<HeaderLine>, par: Option<int>, i: int)
    requires
        0 <= i,
    ensures
        children_before(hs, par, i) <= i,
    decreases i,
{
    if i > 0 {
        lemma_children_before_bound(hs, par, i - 1);
    }
}

/// No heading before position `i` (at most `k + 1`) has heading `k` as its parent.
proof fn lemma_no_children_yet(hs: Seq<HeaderLine>, k: int, i: int)
    requires
        0 <= i <= k + 1,
        k < hs.len(),
    ensures
        children_before(hs, Some(k), i) == 0,
    decreases i,
{
    if i > 0 {
        lemma_no_children_yet(hs, k, i - 1);
        lemma_parent_from_range(hs, hs[i - 1].level, i - 2);
    }
}

/// A heading's index is its parent's index, a dot and its number; at the top,
/// `#` and its number.
proof fn lemma_label_step(hs: Seq<HeaderLine>, k: int)
    requires
        0 <= k < hs.len(),
    ensures
        index_label(hs, k) == match parent_of(hs, k) {
            Some(p) => index_label(hs, p) + seq!['.'] + dec(sibling_number(hs, k)),
            None => seq!['#'] + dec(sibling_number(hs, k)),
        },
{
    lemma_parent_from_range(hs, hs[k].level, k - 1);
    match parent_of(hs, k) {
        Some(p) => {
            lemma_path_nonempty(hs, p);
            let pp = index_path(hs, p);
            assert(decimals(pp.push(sibling_number(hs, k))) =~= decimals(pp).push(dec(sibling_number(hs, k))));
            assert(decimals(pp.push(sibling_number(hs, k))).drop_last() =~= decimals(pp));
        },
        None => {
            assert(decimals(seq![sibling_number(hs, k)]) =~= seq![dec(sibling_number(hs, k))]);
        },
    }
}

/// Outline paths are never empty.
proof fn lemma_path_nonempty(hs: Seq<HeaderLine>, k: int)
    requires
        0 <= k,
    ensures
        index_path(hs, k).len() > 0,
    decreases k,
{
    match parent_of(hs, k) {
        Some(p) => if 0 <= p < k {
            lemma_path_nonempty(hs, p);
        },
        None => {},
    }
}

} // verus!

verus! {

// ---------------------------------------------------------------------------
// The document
// ---------------------------------------------------------------------------

/// A parsed document as a plain value.
pub struct DocumentView {
    pub sections: Seq<SectionView>,
    pub has_frontmatter: bool,
    pub total_lines: nat,
}

impl View for ParsedDocument {
    type V = DocumentView;

    open spec fn view(&self) -> DocumentView {
        DocumentView {
            sections: sections_view(self.sections@),
            has_frontmatter: self.has_frontmatter,
            total_lines: self.total_lines as nat,
        }
    }
}

/// `---`
pub open spec fn three_dashes() -> Seq<char> {
    seq!['-', '-', '-']
}

/// Whether a text starts (after leading whitespace) with a `---` line that a
/// later `---` line closes.
pub open spec fn detect_frontmatter_spec(s: Seq<char>) -> bool {
    let t = trim_start(s);
    starts_with(t, three_dashes()) && {
        let a = t.subrange(3, t.len() as int);
        match first_index_of(a, '\n') {
            Some(i) => {
                let rest = a.subrange(i + 1, a.len() as int);
                starts_with(rest, three_dashes()) || contains(rest, seq!['\n', '-', '-', '-'])
            },
            None => false,
        }
    }
}

/// The document that an event stream describes for the text `s` with bytes `b`.
pub open spec fn document_of(s: Seq<char>, b: Seq<u8>, events: Seq<MdEventView>) -> DocumentView {
    DocumentView {
        sections: sections_of(headings_with_lines(events, line_starts(b)), text_lines(s).len()),
        has_frontmatter: detect_frontmatter_spec(s),
        total_lines: text_lines(s).len(),
    }
}

/// The characters `---`.
pub fn dashes_chars() -> (r: Vec<char>)
    ensures
        r@ == three_dashes(),
{
    let mut r: Vec<char> = Vec::new();
    r.push('-');
    r.push('-');
    r.push('-');
    assert(r@ =~= three_dashes());
    r
}

/// Whether the content has YAML frontmatter (see `detect_frontmatter_spec`).
fn detect_frontmatter(content: &str) -> (b: bool)
    ensures
        b == detect_frontmatter_spec(content@),
{
    let s = chars_of(content);
    let t = trim_start_chars(&s);
    let d = dashes_chars();
    if !has_prefix(&t, &d) {
        return false;
    }
    let a = slice_chars(&t, 3, t.len());
    match find_char(&a, '\n') {
        Some(i) => {
            let rest = slice_chars(&a, i + 1, a.len());
            let mut nd: Vec<char> = Vec::new();
            nd.push('\n');
            nd.push('-');
            nd.push('-');
            nd.push('-');
            assert(nd@ =~= seq!['\n', '-', '-', '-']);
            has_prefix(&rest, &d) || contains_chars(&rest, &nd)
        },
        None => false,
    }
}

/// The document described by the events for `content`: its sections, whether
/// it has frontmatter, and its number of lines.
pub fn document_from_events(content: &str, events: &Vec<MdEvent>) -> (doc: ParsedDocument)
    requires
        levels_ok(events_view(events@)),
    ensures
        doc@ == document_of(content@, content.spec_bytes(), events_view(events@)),
        forall|i: int, j: int|
            0 <= i < j < doc.sections.len() ==> (#[trigger] doc.sections@[i]).index@ != (
            #[trigger] doc.sections@[j]).index@,
{
    let chars = chars_of(content);
    let total_lines = lines_of(&chars).len();
    let has_frontmatter = detect_frontmatter(content);
    let line_lookup = build_line_lookup(content);
    let bytes = content.as_bytes();
    let nbytes = bytes.len();
    proof {
        lemma_line_starts_props(content.spec_bytes());
        lemma_scan_levels(events_view(events@));
    }
    let headers = extract_headers(events, &line_lookup);
    let sections = build_sections(&headers, total_lines);
    ParsedDocument { sections, has_frontmatter, total_lines }
}

/// Parses a markdown document into its sections.
pub fn parse_document(content: &str) -> (doc: ParsedDocument)
    ensures
        doc@ == document_of(content@, content.spec_bytes(), cmark_events(content@)),
        sections_well_formed(doc@.sections),
        sections_nest_when_ordered(doc@.sections, doc@.total_lines),
        doc@.total_lines == text_lines(content@).len(),
        forall|i: int, j: int|
            0 <= i < j < doc.sections.len() ==> (#[trigger] doc.sections@[i]).index@ != (
            #[trigger] doc.sections@[j]).index@,
{
    let events = markdown_events(content);
    proof {
        assert(levels_ok(events_view(events@))) by {
            assert forall|i: int| 0 <= i < events_view(events@).len() implies (
            #[trigger] events_view(events@)[i] matches MdEventView::HeadingStart { level, .. } ==> 1 <= level <= 6) by {
                assert(events_view(events@)[i] == events@[i]@);
            }
        }
        document_sections_are_well_formed(content@, content.spec_bytes(), cmark_events(content@));
    }
    document_from_events(content, &events)
}

} // verus!

verus! {

// ---------------------------------------------------------------------------
// Finding a section by address
// ---------------------------------------------------------------------------

/// The first position at or after `i` whose section answers `q`.
pub open spec fn first_answer_from(s: Seq<SectionView>, q: AddressQuery, i: int) -> Option<int>
    decreases s.len() - i,
{
    if i < 0 || i >= s.len() {
        None
    } else if answers(q, s[i]) {
        Some(i)
    } else {
        first_answer_from(s, q, i + 1)
    }
}

/// What an address asks for: a heading of a level with a title (`## Title`),
/// an index (`#1.2`), or a title alone.
pub enum AddressQuery {
    LevelTitle(u8, Seq<char>),
    Index(Seq<char>),
    Title(Seq<char>),
}

/// How `find_section_by_address` reads an address.
pub open spec fn address_query(addr: Seq<char>) -> AddressQuery {
    let t = trim(addr);
    if starts_with(t, seq!['#']) {
        let after = trim_start_char(t, '#');
        if starts_with(after, seq![' ']) {
            AddressQuery::LevelTitle(((t.len() - after.len()) % 256) as u8, trim(after))
        } else {
            AddressQuery::Index(t)
        }
    } else {
        AddressQuery::Title(t)
    }
}

/// Whether a section answers a query.
pub open spec fn answers(q: AddressQuery, s: SectionView) -> bool {
    match q {
        AddressQuery::LevelTitle(l, t) => s.level == l && s.title == t,
        AddressQuery::Index(ix) => s.index == ix,
        AddressQuery::Title(t) => s.title == t,
    }
}

/// Finds the first section that an address names: `## Title` (level and
/// title), `#1.2` (index), or a bare title.
pub fn find_section_by_address<'a>(doc: &'a ParsedDocument, addr: &str) -> (r: Option<&'a Section>)
    ensures
        r == match first_answer_from(sections_view(doc.sections@), address_query(addr@), 0) {
            Some(k) => Some(&doc.sections@[k]),
            None => None,
        },
{
    let ghost q = address_query(addr@);
    let a = chars_of(addr);
    let t = trim_chars(&a);
    let mut hash: Vec<char> = Vec::new();
    hash.push('#');
    let mut space: Vec<char> = Vec::new();
    space.push(' ');
    assert(hash@ =~= seq!['#']);
    assert(space@ =~= seq![' ']);
    let mut level: u8 = 0;
    let mut title: Vec<char> = Vec::new();
    let mut kind: u8 = 2;
    if has_prefix(&t, &hash) {
        let after = trim_start_char_chars(&t, '#');
        proof { lemma_trim_start_char_len(t@, '#'); }
        if has_prefix(&after, &space) {
            level = ((t.len() - after.len()) % 256) as u8;
            title = trim_chars(&after);
            kind = 0;
        } else {
            title = t;
            kind = 1;
        }
    } else {
        title = t;
    }
    let ghost tv = title@;
    assert(q == match kind {
        0 => AddressQuery::LevelTitle(level, tv),
        1 => AddressQuery::Index(tv),
        _ => AddressQuery::Title(tv),
    });
    let mut i: usize = 0;
    while i < doc.sections.len()
        invariant
            i <= doc.sections.len(),
            q == match kind {
                0 => AddressQuery::LevelTitle(level, tv),
                1 => AddressQuery::Index(tv),
                _ => AddressQuery::Title(tv),
            },
            title@ == tv,
            q == address_query(addr@),
            first_answer_from(sections_view(doc.sections@), q, 0) == first_answer_from(
                sections_view(doc.sections@),
                q,
                i as int,
            ),
        decreases doc.sections.len() - i,
    {
        let s = &doc.sections[i];
        let ghost sv = sections_view(doc.sections@);
        assert(sv[i as int] == s@);
        let hit = if kind == 0 {
            s.level == level && eq_str_chars(s.title.as_str(), &title)
        } else if kind == 1 {
            eq_str_chars(s.index.as_str(), &title)
        } else {
            eq_str_chars(s.title.as_str(), &title)
        };
        assert(hit == answers(q, sv[i as int]));
        if hit {
            assert(first_answer_from(sv, q, i as int) == Some(i as int));
            assert(*s == doc.sections@[i as int]);
            return Some(s);
        }
        i += 1;
    }
    None
}

// ---------------------------------------------------------------------------
// Laws of section indices
// ---------------------------------------------------------------------------

/// Whether two heading lists have the same levels, one for one.
pub open spec fn same_levels(hs1: Seq<HeaderLine>, hs2: Seq<HeaderLine>) -> bool {
    hs1.len() == hs2.len() && forall|i: int| 0 <= i < hs1.len() ==> (#[trigger] hs1[i]).level == hs2[i].level
}

proof fn lemma_parents_same_levels(hs1: Seq<HeaderLine>, hs2: Seq<HeaderLine>, k: int)
    requires
        same_levels(hs1, hs2),
        0 <= k < hs1.len(),
    ensures
        parent_of(hs1, k) == parent_of(hs2, k),
{
    assert(hs1[k].level == hs2[k].level);
    lemma_parent_same_levels(hs1, hs2, hs1[k].level, k - 1);
}

proof fn lemma_children_same_levels(hs1: Seq<HeaderLine>, hs2: Seq<HeaderLine>, par: Option<int>, i: int)
    requires
        same_levels(hs1, hs2),
        i <= hs1.len(),
    ensures
        children_before(hs1, par, i) == children_before(hs2, par, i),
    decreases i,
{
    if i > 0 {
        lemma_children_same_levels(hs1, hs2, par, i - 1);
        lemma_parents_same_levels(hs1, hs2, i - 1);
    }
}

proof fn lemma_path_same_levels(hs1: Seq<HeaderLine>, hs2: Seq<HeaderLine>, k: int)
    requires
        same_levels(hs1, hs2),
        0 <= k < hs1.len(),
    ensures
        index_path(hs1, k) == index_path(hs2, k),
    decreases k,
{
    lemma_parents_same_levels(hs1, hs2, k);
    lemma_children_same_levels(hs1, hs2, parent_of(hs1, k), k + 1);
    match parent_of(hs1, k) {
        Some(p) => if 0 <= p < k {
            lemma_path_same_levels(hs1, hs2, p);
        },
        None => {},
    }
}

/// Section indices follow from the order and levels of the headings alone,
/// not from their titles or lines: heading lists with the same levels give
/// the same index, and the same parent index, to each section.
pub proof fn indices_depend_on_levels_only(hs1: Seq<HeaderLine>, hs2: Seq<HeaderLine>, k: int, total1: nat, total2: nat)
    requires
        same_levels(hs1, hs2),
        0 <= k < hs1.len(),
    ensures
        index_label(hs1, k) == index_label(hs2, k),
        sections_of(hs1, total1)[k].index == sections_of(hs2, total2)[k].index,
        sections_of(hs1, total1)[k].parent_index == sections_of(hs2, total2)[k].parent_index,
{
    lemma_path_same_levels(hs1, hs2, k);
    assert(hs1[k].level == hs2[k].level);
    lemma_parent_same_levels(hs1, hs2, hs1[k].level, k - 1);
    if let Some(j) = parent_from(hs1, hs1[k].level, k - 1) {
        lemma_parent_from_range(hs1, hs1[k].level, k - 1);
        lemma_path_same_levels(hs1, hs2, j);
    }
}

proof fn lemma_parent_same_levels(hs1: Seq<HeaderLine>, hs2: Seq<HeaderLine>, lvl: u8, j: int)
    requires
        same_levels(hs1, hs2),
        j < hs1.len(),
    ensures
        parent_from(hs1, lvl, j) == parent_from(hs2, lvl, j),
    decreases j + 1,
{
    if j >= 0 {
        assert(hs1[j].level == hs2[j].level);
        lemma_parent_same_levels(hs1, hs2, lvl, j - 1);
    }
}

proof fn lemma_parent_from_range(hs: Seq<HeaderLine>, lvl: u8, j: int)
    ensures
        parent_from(hs, lvl, j) matches Some(i) ==> 0 <= i <= j,
    decreases j + 1,
{
    if j >= 0 {
        lemma_parent_from_range(hs, lvl, j - 1);
    }
}


/// Among the headings with one parent, a later one has a larger number.
proof fn lemma_sibling_numbers_grow(hs: Seq<HeaderLine>, a: int, b: int)
    requires
        0 <= a < b < hs.len(),
        parent_of(hs, a) == parent_of(hs, b),
    ensures
        sibling_number(hs, a) < sibling_number(hs, b),
{
    lemma_children_monotone(hs, parent_of(hs, a), a + 1, b);
}

proof fn lemma_children_monotone(hs: Seq<HeaderLine>, par: Option<int>, i: int, j: int)
    requires
        0 <= i <= j,
    ensures
        children_before(hs, par, i) <= children_before(hs, par, j),
    decreases j - i,
{
    if i < j {
        lemma_children_monotone(hs, par, i, j - 1);
    }
}

/// Two headings with the same outline numbers are the same heading.
proof fn lemma_paths_differ(hs: Seq<HeaderLine>, a: int, b: int)
    requires
        0 <= a < hs.len(),
        0 <= b < hs.len(),
        a != b,
    ensures
        index_path(hs, a) != index_path(hs, b),
    decreases a + b,
{
    lemma_parent_from_range(hs, hs[a].level, a - 1);
    lemma_parent_from_range(hs, hs[b].level, b - 1);
    let pa = index_path(hs, a);
    let pb = index_path(hs, b);
    if pa == pb {
        match (parent_of(hs, a), parent_of(hs, b)) {
            (None, None) => {
                assert(pa.last() == sibling_number(hs, a));
                if a < b {
                    lemma_sibling_numbers_grow(hs, a, b);
                } else {
                    lemma_sibling_numbers_grow(hs, b, a);
                }
            },
            (Some(x), Some(y)) => {
                assert(pa.drop_last() =~= index_path(hs, x));
                assert(pb.drop_last() =~= index_path(hs, y));
                if x != y {
                    lemma_paths_differ(hs, x, y);
                }
                assert(pa.last() == sibling_number(hs, a));
                assert(pb.last() == sibling_number(hs, b));
                if a < b {
                    lemma_sibling_numbers_grow(hs, a, b);
                } else {
                    lemma_sibling_numbers_grow(hs, b, a);
                }
            },
            (Some(x), None) => {
                lemma_path_nonempty(hs, x);
                assert(pa.len() == index_path(hs, x).len() + 1);
            },
            (None, Some(y)) => {
                lemma_path_nonempty(hs, y);
                assert(pb.len() == index_path(hs, y).len() + 1);
            },
        }
    }
}

/// Every section of a document gets an index of its own, whatever its
/// headings' titles and levels: two sections never share one.
pub proof fn sections_have_distinct_indices(hs: Seq<HeaderLine>, a: int, b: int)
    requires
        0 <= a < b < hs.len(),
    ensures
        index_label(hs, a) != index_label(hs, b),
{
    let da = decimals(index_path(hs, a));
    let db = decimals(index_path(hs, b));
    lemma_paths_differ(hs, a, b);
    lemma_path_nonempty(hs, a);
    lemma_path_nonempty(hs, b);
    if index_label(hs, a) == index_label(hs, b) {
        lemma_decimals_free(index_path(hs, a));
        lemma_decimals_free(index_path(hs, b));
        assert((seq!['#'] + join(da, seq!['.'])).drop_first() =~= join(da, seq!['.']));
        assert((seq!['#'] + join(db, seq!['.'])).drop_first() =~= join(db, seq!['.']));
        crate::text::lemma_split_join(da, '.');
        crate::text::lemma_split_join(db, '.');
        assert(da == db);
        assert(index_path(hs, a) =~= index_path(hs, b)) by {
            assert forall|i: int| 0 <= i < index_path(hs, a).len() implies index_path(hs, a)[i] == index_path(hs, b)[i] by {
                assert(da[i] == db[i]);
                crate::text::lemma_dec_digits(index_path(hs, a)[i]);
                crate::text::lemma_dec_digits(index_path(hs, b)[i]);
            }
        }
    }
}

/// What `parent_from` finds: the nearest heading at or before `j` whose
/// level is below `lvl`, every heading after it up to `j` being of level
/// `lvl` or more.
proof fn lemma_parent_from_found(hs: Seq<HeaderLine>, lvl: u8, j: int)
    requires
        j < hs.len(),
    ensures
        match parent_from(hs, lvl, j) {
            Some(p) => 0 <= p <= j && hs[p].level < lvl && forall|i: int| p < i <= j ==> #[trigger] hs[i].level
                >= lvl,
            None => forall|i: int| 0 <= i <= j ==> #[trigger] hs[i].level >= lvl,
        },
    decreases j + 1,
{
    if j >= 0 && hs[j].level >= lvl {
        lemma_parent_from_found(hs, lvl, j - 1);
    }
}

/// What `closer_from` finds: the first heading at or after `i` whose level
/// is `lvl` or less, every heading before it from `i` on being of a greater
/// level.
proof fn lemma_closer_from_found(hs: Seq<HeaderLine>, lvl: u8, i: int)
    requires
        0 <= i,
    ensures
        match closer_from(hs, lvl, i) {
            Some(c) => i <= c < hs.len() && hs[c].level <= lvl && forall|m: int| i <= m < c ==> #[trigger] hs[m].level
                > lvl,
            None => forall|m: int| i <= m < hs.len() ==> #[trigger] hs[m].level > lvl,
        },
    decreases hs.len() - i,
{
    if i < hs.len() && hs[i].level > lvl {
        lemma_closer_from_found(hs, lvl, i + 1);
    }
}

/// In a document whose headings stand on increasing lines within the text,
/// each section runs from its heading to a line at or after it and within
/// the text; a section's parent is an earlier section of a smaller level
/// that begins before it and ends at or after its end, so that its lines
/// lie within its parent's.
pub proof fn sections_nest_in_parents(hs: Seq<HeaderLine>, total: nat, k: int)
    requires
        0 <= k < hs.len(),
        forall|i: int, j: int| 0 <= i < j < hs.len() ==> #[trigger] hs[i].start_line < #[trigger] hs[j].start_line,
        forall|i: int| 0 <= i < hs.len() ==> 1 <= #[trigger] hs[i].start_line <= total,
    ensures
        ({
            let s = sections_of(hs, total)[k];
            &&& s.start_line == hs[k].start_line
            &&& s.start_line <= s.end_line <= total
            &&& match parent_from(hs, hs[k].level, k - 1) {
                Some(p) => {
                    let ps = sections_of(hs, total)[p];
                    &&& 0 <= p < k
                    &&& s.parent_index == Some(ps.index)
                    &&& ps.level < s.level
                    &&& ps.start_line < s.start_line
                    &&& s.end_line <= ps.end_line
                },
                None => s.parent_index is None,
            }
        }),
{
    let lvl = hs[k].level;
    lemma_closer_from_found(hs, lvl, k + 1);
    match closer_from(hs, lvl, k + 1) {
        Some(c) => {
            assert(hs[k].start_line < hs[c].start_line);
        },
        None => {},
    }
    lemma_parent_from_found(hs, lvl, k - 1);
    match parent_from(hs, lvl, k - 1) {
        Some(p) => {
            let pl = hs[p].level;
            assert(hs[p].start_line < hs[k].start_line);
            lemma_closer_from_found(hs, pl, p + 1);
            match closer_from(hs, pl, p + 1) {
                Some(c) => {
                    // The heading that closes the parent comes after this one.
                    if c <= k {
                        if c < k {
                            assert(hs[c].level >= lvl);
                        }
                        assert(false);
                    }
                    // So it closes this section too, at or after the heading
                    // that does.
                    match closer_from(hs, lvl, k + 1) {
                        Some(c2) => {
                            if c2 > c {
                                assert(hs[c].level > lvl);
                                assert(false);
                            }
                            if c2 < c {
                                assert(hs[c2].start_line < hs[c].start_line);
                            }
                        },
                        None => {
                            assert(hs[c].level > lvl);
                            assert(false);
                        },
                    }
                },
                None => {},
            }
        },
        None => {},
    }
}

/// Decimal forms hold no dot.
proof fn lemma_decimals_free(ns: Seq<nat>)
    ensures
        forall|i: int| 0 <= i < decimals(ns).len() ==> !(#[trigger] decimals(ns)[i]).contains('.'),
{
    let d = decimals(ns);
    assert forall|i: int| 0 <= i < d.len() implies !(#[trigger] d[i]).contains('.') by {
        crate::text::lemma_dec_digits(ns[i]);
        if d[i].contains('.') {
            let x = choose|x: int| 0 <= x < d[i].len() && d[i][x] == '.';
            assert('0' <= dec(ns[i])[x] <= '9');
        }
    }
}

/// The shape of a list of sections: each knows its place, has a level from
/// 1 to 6 and starts at a line from 1; its parent is the index of the
/// nearest earlier section of a smaller level, and it has none when no
/// earlier section has a smaller level.
pub open spec fn sections_well_formed(secs: Seq<SectionView>) -> bool {
    forall|i: int|
        0 <= i < secs.len() ==> {
            &&& (#[trigger] secs[i]).ordinal == i
            &&& 1 <= secs[i].level <= 6
            &&& secs[i].start_line >= 1
            &&& match secs[i].parent_index {
                None => forall|j: int| 0 <= j < i ==> secs[j].level >= secs[i].level,
                Some(x) => exists|j: int|
                    0 <= j < i && secs[j].level < secs[i].level && secs[j].index == x && forall|m: int|
                        j < m < i ==> secs[m].level >= secs[i].level,
            }
        }
}

/// Sections whose headings stand on increasing lines within a text of
/// `total` lines each end at or after their start, within the text, and lie
/// within their parent: a section's parent begins before it and ends at or
/// after its end.
pub open spec fn sections_nest_when_ordered(secs: Seq<SectionView>, total: nat) -> bool {
    (forall|i: int, j: int| 0 <= i < j < secs.len() ==> #[trigger] secs[i].start_line < #[trigger] secs[j].start_line)
        && (forall|i: int| 0 <= i < secs.len() ==> #[trigger] secs[i].start_line <= total) ==> forall|i: int|
        0 <= i < secs.len() ==> {
            &&& (#[trigger] secs[i]).start_line <= secs[i].end_line <= total
            &&& forall|j: int|
                0 <= j < i && secs[i].parent_index == Some(secs[j].index) ==> secs[j].start_line
                    < secs[i].start_line && secs[i].end_line <= secs[j].end_line
        }
}

/// The sections of any event stream whose heading levels are 1 to 6 are well
/// formed (see `sections_well_formed`), and nest within their parents when
/// their headings stand on increasing lines within the text.
pub proof fn document_sections_are_well_formed(s: Seq<char>, b: Seq<u8>, events: Seq<MdEventView>)
    requires
        levels_ok(events),
    ensures
        sections_well_formed(document_of(s, b, events).sections),
        sections_nest_when_ordered(document_of(s, b, events).sections, document_of(s, b, events).total_lines),
        document_of(s, b, events).total_lines == text_lines(s).len(),
{
    let hs = headings_with_lines(events, line_starts(b));
    let total = text_lines(s).len();
    let secs = document_of(s, b, events).sections;
    lemma_scan_levels(events);
    assert(secs == sections_of(hs, total));
    assert forall|i: int| 0 <= i < secs.len() implies {
        &&& (#[trigger] secs[i]).ordinal == i
        &&& 1 <= secs[i].level <= 6
        &&& secs[i].start_line >= 1
        &&& match secs[i].parent_index {
            None => forall|j: int| 0 <= j < i ==> secs[j].level >= secs[i].level,
            Some(x) => exists|j: int|
                0 <= j < i && secs[j].level < secs[i].level && secs[j].index == x && forall|m: int|
                    j < m < i ==> secs[m].level >= secs[i].level,
        }
    } by {
        assert(hs[i].level == scan_events(events).done[i].level);
        lemma_parent_from_found(hs, hs[i].level, i - 1);
        match parent_from(hs, hs[i].level, i - 1) {
            Some(p) => {
                assert(secs[p].level == hs[p].level);
                assert forall|m: int| p < m < i implies secs[m].level >= secs[i].level by {
                    assert(secs[m].level == hs[m].level);
                }
            },
            None => {
                assert forall|j: int| 0 <= j < i implies secs[j].level >= secs[i].level by {
                    assert(secs[j].level == hs[j].level);
                }
            },
        }
    }
    if (forall|i: int, j: int| 0 <= i < j < secs.len() ==> #[trigger] secs[i].start_line < #[trigger] secs[j].start_line)
        && (forall|i: int| 0 <= i < secs.len() ==> #[trigger] secs[i].start_line <= total) {
        assert forall|i: int, j: int| 0 <= i < j < hs.len() implies #[trigger] hs[i].start_line
            < #[trigger] hs[j].start_line by {
            assert(secs[i].start_line < secs[j].start_line);
        }
        assert forall|i: int| 0 <= i < hs.len() implies 1 <= #[trigger] hs[i].start_line <= total by {
            assert(secs[i].start_line <= total);
        }
        assert forall|i: int| 0 <= i < secs.len() implies {
            &&& (#[trigger] secs[i]).start_line <= secs[i].end_line <= total
            &&& forall|j: int|
                0 <= j < i && secs[i].parent_index == Some(secs[j].index) ==> secs[j].start_line
                    < secs[i].start_line && secs[i].end_line <= secs[j].end_line
        } by {
            sections_nest_in_parents(hs, total, i);
            assert forall|j: int|
                0 <= j < i && secs[i].parent_index == Some(secs[j].index) implies secs[j].start_line
                    < secs[i].start_line && secs[i].end_line <= secs[j].end_line by {
                lemma_parent_from_found(hs, hs[i].level, i - 1);
                match parent_from(hs, hs[i].level, i - 1) {
                    Some(p) => {
                        if p != j {
                            if p < j {
                                sections_have_distinct_indices(hs, p, j);
                            } else {
                                sections_have_distinct_indices(hs, j, p);
                            }
                        }
                    },
                    None => {},
                }
            }
        }
    }
}

} // verus!
