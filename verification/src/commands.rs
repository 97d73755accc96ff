//! What the commands compute, apart from reading files and printing:
//! paging, the table of contents, file figures, the text a read shows,
//! link listings and the graph's plain-text forms.

use vstd::prelude::*;
use vstd::string::StringSliceAdditionalSpecFns;
use crate::links::{Link, LinkKind, links_view, links_of_lines, parse_links, LinkView};
use crate::markdown::{ParsedDocument, Section, SectionView, parse_document, sections_view, document_of, cmark_events};
use crate::output::{FileStats, LinkStats, ReadResult, pad_right};
use crate::section::{
    SectionAddress, SectionError, parse_section_address, read_section_content, read_section_lines,
    resolve_section_address, text_result_view, parse_address, resolve_target, read_lines_spec,
    SectionErrorView, AddressView,
};
use crate::text::{
    append_chars, chars_of, dec, matches_at, occurs_at, push_decimal, push_repeat, push_str,
    repeat_char, string_of, text_lines, lines_of, vv,
};

verus! {

broadcast use vstd::string::group_string_axioms;

// ---------------------------------------------------------------------------
// Paging
// ---------------------------------------------------------------------------

/// The positions a page covers: `offset` items skipped, then at most
/// `limit` taken, within `total` items.
pub open spec fn page_spec(total: nat, offset: nat, limit: nat) -> (nat, nat) {
    let start = if offset < total {
        offset
    } else {
        total
    };
    let end = if start + limit < total {
        start + limit
    } else {
        total
    };
    (start, end)
}

/// The first and one-past-last positions of a page.
pub fn page_bounds(total: usize, offset: usize, limit: usize) -> (r: (usize, usize))
    ensures
        r.0 as nat == page_spec(total as nat, offset as nat, limit as nat).0,
        r.1 as nat == page_spec(total as nat, offset as nat, limit as nat).1,
        r.0 <= r.1 <= total,
{
    let start = if offset < total {
        offset
    } else {
        total
    };
    let end = if limit < total - start {
        start + limit
    } else {
        total
    };
    (start, end)
}

// ---------------------------------------------------------------------------
// Table of contents
// ---------------------------------------------------------------------------

/// Positions of the sections no deeper than `depth` (all when no depth).
pub open spec fn toc_positions(secs: Seq<SectionView>, depth: Option<u8>, i: int) -> Seq<usize>
    decreases secs.len() - i,
{
    if i < 0 || i >= secs.len() {
        Seq::empty()
    } else {
        let rest = toc_positions(secs, depth, i + 1);
        match depth {
            Some(d) => if secs[i].level <= d {
                seq![i as usize] + rest
            } else {
                rest
            },
            None => seq![i as usize] + rest,
        }
    }
}

/// The sections shown in a table of contents, by position.
pub fn toc_sections(sections: &[Section], depth: Option<u8>) -> (r: Vec<usize>)
    ensures
        r@ == toc_positions(sections_view(sections@), depth, 0),
{
    let ghost secs = sections_view(sections@);
    let mut out: Vec<usize> = Vec::new();
    let mut i: usize = 0;
    while i < sections.len()
        invariant
            i <= sections.len(),
            secs == sections_view(sections@),
            out@ + toc_positions(secs, depth, i as int) == toc_positions(secs, depth, 0),
        decreases sections.len() - i,
    {
        let keep = match depth {
            Some(d) => sections[i].level <= d,
            None => true,
        };
        let ghost before = out@;
        if keep {
            out.push(i);
            assert(out@ + toc_positions(secs, depth, i + 1) =~= before + toc_positions(secs, depth, i as int));
        }
        i += 1;
    }
    assert(out@ + toc_positions(secs, depth, i as int) =~= out@);
    out
}

/// A table of contents line: two spaces per level below the first (none
/// when flat), the index padded to 8 characters, a space, the heading (one
/// `#` per level, a space, the title) padded to 40, a space, and `(Lline)`.
pub open spec fn toc_line_text(s: SectionView, flat: bool) -> Seq<char> {
    let indent: nat = if flat || s.level == 0 {
        0
    } else {
        (2 * (s.level - 1)) as nat
    };
    repeat_char(' ', indent) + pad_right(s.index, 8) + " "@ + pad_right(
        repeat_char('#', s.level as nat) + seq![' '] + s.title,
        40,
    ) + " (L"@ + dec(
        s.start_line,
    ) + ")"@
}

/// Appends `s` padded with spaces to `w` characters.
fn push_padded(out: &mut Vec<char>, s: &str, w: usize)
    ensures
        final(out)@ == old(out)@ + pad_right(s@, w as nat),
{
    let c = chars_of(s);
    append_chars(out, &c);
    if c.len() < w {
        push_repeat(out, ' ', w - c.len());
    }
    proof {
        if c@.len() >= w {
            assert(pad_right(c@, w as nat) == c@);
        }
    }
}

/// One line of the plain-text table of contents.
pub fn toc_line(s: &Section, flat: bool) -> (r: String)
    ensures
        r@ == toc_line_text(s@, flat),
{
    let mut out: Vec<char> = Vec::new();
    if !flat && s.level > 0 {
        let n: usize = (s.level - 1) as usize;
        push_repeat(&mut out, ' ', n);
        push_repeat(&mut out, ' ', n);
        assert(repeat_char(' ', n as nat) + repeat_char(' ', n as nat) =~= repeat_char(' ', (2 * n) as nat));
    }
    push_padded(&mut out, s.index.as_str(), 8);
    push_str(&mut out, " ");
    let mut heading: Vec<char> = Vec::new();
    push_repeat(&mut heading, '#', s.level as usize);
    heading.push(' ');
    push_str(&mut heading, s.title.as_str());
    assert(heading@ =~= repeat_char('#', s@.level as nat) + seq![' '] + s@.title);
    let hs = string_of(&heading);
    push_padded(&mut out, hs.as_str(), 40);
    push_str(&mut out, " (L");
    push_decimal(&mut out, s.start_line);
    push_str(&mut out, ")");
    assert(out@ =~= toc_line_text(s@, flat));
    string_of(&out)
}

// ---------------------------------------------------------------------------
// File figures
// ---------------------------------------------------------------------------

/// Number of non-overlapping occurrences of `p` in `s` from `i` on, found
/// left to right.
pub open spec fn count_from(s: Seq<char>, p: Seq<char>, i: int) -> nat
    decreases s.len() - i,
{
    if i < 0 || i >= s.len() || p.len() == 0 {
        0
    } else if occurs_at(s, p, i) {
        1 + count_from(s, p, i + p.len())
    } else {
        count_from(s, p, i + 1)
    }
}

/// Number of non-overlapping occurrences of a non-empty pattern.
pub fn count_occurrences(s: &Vec<char>, p: &Vec<char>) -> (n: usize)
    requires
        p.len() > 0,
    ensures
        n == count_from(s@, p@, 0),
{
    let mut n: usize = 0;
    let mut i: usize = 0;
    while i < s.len()
        invariant
            i <= s.len() + p.len(),
            p.len() > 0,
            n <= i,
            n + count_from(s@, p@, i as int) == count_from(s@, p@, 0),
        decreases s.len() - i,
    {
        if matches_at(s, p, i) {
            n += 1;
            i += p.len();
        } else {
            i += 1;
        }
    }
    n
}

/// Number of links of each form.
pub open spec fn count_kind(ls: Seq<LinkView>, k: LinkKind) -> nat
    decreases ls.len(),
{
    if ls.len() == 0 {
        0
    } else {
        count_kind(ls.drop_last(), k) + if ls.last().link_type == k {
            1nat
        } else {
            0nat
        }
    }
}

/// Counts the links of one form.
fn count_links(links: &Vec<Link>, k: LinkKind) -> (n: usize)
    ensures
        n == count_kind(links_view(links@), k),
        n <= links.len(),
{
    let ghost lv = links_view(links@);
    let mut n: usize = 0;
    let mut i: usize = 0;
    assert(lv.take(0) =~= Seq::<LinkView>::empty());
    while i < links.len()
        invariant
            i <= links.len(),
            lv == links_view(links@),
            n <= i,
            n == count_kind(lv.take(i as int), k),
        decreases links.len() - i,
    {
        assert(lv.take(i + 1).drop_last() =~= lv.take(i as int));
        assert(lv[i as int] == links@[i as int]@);
        if links[i].link_type == k {
            n += 1;
        }
        i += 1;
    }
    assert(lv.take(links.len() as int) =~= lv);
    n
}

/// Three backticks.
pub open spec fn fence() -> Seq<char> {
    seq!['`', '`', '`']
}

/// The figures `read --stats` shows for a file.
pub fn file_stats(file: String, content: &str) -> (r: FileStats)
    ensures
        r.file == file,
        r.bytes == content.spec_bytes().len(),
        r.lines == text_lines(content@).len(),
        r.sections == document_of(content@, content.spec_bytes(), cmark_events(content@)).sections.len(),
        r.code_blocks == count_from(content@, fence(), 0) / 2,
        r.has_frontmatter == document_of(content@, content.spec_bytes(), cmark_events(content@)).has_frontmatter,
        r.links matches Some(l) && l.wiki == Some(
            count_kind(links_of_lines(text_lines(content@), 0), LinkKind::Wiki) as usize,
        ) && l.markdown == Some(count_kind(links_of_lines(text_lines(content@), 0), LinkKind::Markdown) as usize)
            && l.total == Some(
            (count_kind(links_of_lines(text_lines(content@), 0), LinkKind::Wiki) + count_kind(
                links_of_lines(text_lines(content@), 0),
                LinkKind::Markdown,
            )) as usize,
        ),
{
    let doc = parse_document(content);
    let links = parse_links(content);
    let c = chars_of(content);
    let mut f: Vec<char> = Vec::new();
    push_str(&mut f, "```");
    assert(f@ =~= fence()) by {
        reveal_strlit("```");
    }
    let fences = count_occurrences(&c, &f);
    let wiki = count_links(&links, LinkKind::Wiki);
    let md = count_links(&links, LinkKind::Markdown);
    proof { lemma_count_kinds(links_view(links@)); }
    let lines = lines_of(&c);
    FileStats {
        file,
        bytes: content.as_bytes().len(),
        lines: lines.len(),
        sections: doc.sections.len(),
        code_blocks: fences / 2,
        has_frontmatter: doc.has_frontmatter,
        links: Some(LinkStats { wiki: Some(wiki), markdown: Some(md), total: Some(wiki + md) }),
    }
}

proof fn lemma_count_kinds(ls: Seq<LinkView>)
    ensures
        count_kind(ls, LinkKind::Wiki) + count_kind(ls, LinkKind::Markdown) == ls.len(),
    decreases ls.len(),
{
    if ls.len() > 0 {
        lemma_count_kinds(ls.drop_last());
    }
}

// ---------------------------------------------------------------------------
// What `read` shows
// ---------------------------------------------------------------------------

/// The number of bytes of a character in UTF-8.
pub open spec fn char_width(c: char) -> nat {
    let u = c as u32;
    if u <= 0x7f {
        1
    } else if u <= 0x7ff {
        2
    } else if u <= 0xffff {
        3
    } else {
        4
    }
}

/// The number of bytes of a text in UTF-8.
pub open spec fn utf8_size(s: Seq<char>) -> nat {
    vstd::utf8::encode_utf8(s).len()
}

/// One more character adds its width to the UTF-8 size.
proof fn lemma_utf8_push(s: Seq<char>, c: char)
    ensures
        utf8_size(s.push(c)) == utf8_size(s) + char_width(c),
    decreases s.len(),
{
    broadcast use vstd::utf8::char_is_scalar;
    if s.len() == 0 {
        assert(seq![c].drop_first() =~= Seq::<char>::empty());
        assert(s.push(c) =~= seq![c]);
        assert(vstd::utf8::is_scalar(c as u32));
        assert(vstd::utf8::encode_utf8(Seq::<char>::empty()) =~= Seq::<u8>::empty());
        assert(vstd::utf8::encode_utf8(seq![c]) == vstd::utf8::encode_scalar(c as u32)
            + vstd::utf8::encode_utf8(seq![c].drop_first()));
        assert(utf8_size(s) == 0);
    } else {
        let t = s.push(c);
        assert(t.drop_first() =~= s.drop_first().push(c));
        assert(t[0] == s[0]);
        lemma_utf8_push(s.drop_first(), c);
        assert(vstd::utf8::encode_utf8(t) == vstd::utf8::encode_scalar(t[0] as u32)
            + vstd::utf8::encode_utf8(t.drop_first()));
        assert(vstd::utf8::encode_utf8(s) == vstd::utf8::encode_scalar(s[0] as u32)
            + vstd::utf8::encode_utf8(s.drop_first()));
    }
}

/// The width of a character.
fn width_of(c: char) -> (w: usize)
    ensures
        w == char_width(c),
{
    let u = c as u32;
    if u <= 0x7f {
        1
    } else if u <= 0x7ff {
        2
    } else if u <= 0xffff {
        3
    } else {
        4
    }
}

/// A text cut to a byte budget: when the text has more than `budget` bytes,
/// its longest prefix, ending on a character boundary, that fits in
/// `budget` bytes; otherwise the text itself. The flag tells whether it was
/// cut.
pub fn truncate_text(text: &str, budget: usize) -> (r: (String, bool))
    ensures
        r.1 == (text.spec_bytes().len() > budget),
        !r.1 ==> r.0@ == text@,
        r.1 ==> {
            &&& r.0@ == text@.take(r.0@.len() as int)
            &&& utf8_size(r.0@) <= budget
            &&& (r.0@.len() < text@.len() ==> utf8_size(text@.take(r.0@.len() as int + 1)) > budget)
        },
{
    if text.as_bytes().len() > budget {
        let c = chars_of(text);
        let mut used: usize = 0;
        let mut n: usize = 0;
        let mut full = false;
        assert(c@.take(0) =~= Seq::<char>::empty());
        while n < c.len() && !full
            invariant
                n <= c.len(),
                c@ == text@,
                used == utf8_size(c@.take(n as int)),
                used <= budget,
                full ==> n < c.len() && utf8_size(c@.take(n + 1)) > budget,
            decreases c.len() - n + (if full { 0int } else { 1int }),
        {
            let w = width_of(c[n]);
            proof {
                lemma_utf8_push(c@.take(n as int), c@[n as int]);
                assert(c@.take(n + 1) =~= c@.take(n as int).push(c@[n as int]));
            }
            if w > budget - used {
                full = true;
            } else {
                used = used + w;
                n += 1;
            }
        }
        let t = crate::text::slice_chars(&c, 0, n);
        assert(t@ =~= text@.take(n as int));
        (string_of(&t), true)
    } else {
        let c = chars_of(text);
        (string_of(&c), false)
    }
}

/// What `read` hands back for a file: the text shown, the section it came
/// from (its address and lines) when one was found, and, when the text was
/// cut, the bytes shown and in all and the line to go on from, one past the
/// lines shown.
pub fn read_result(
    file: String,
    content: &str,
    shown: &str,
    truncated: bool,
    section: Option<(String, usize, usize)>,
) -> (r: ReadResult)
    requires
        text_lines(shown@).len() < usize::MAX,
    ensures
        r.content@ == shown@,
        r.meta.file == file,
        match section {
            Some((a, s, e)) => r.meta.section == Some(a) && r.meta.start_line == Some(s) && r.meta.end_line == Some(
                e,
            ),
            None => r.meta.section is None && r.meta.start_line is None && r.meta.end_line is None,
        },
        truncated ==> {
            &&& r.meta.truncated == Some(true)
            &&& r.meta.bytes_shown == Some(shown.spec_bytes().len() as usize)
            &&& r.meta.bytes_total == Some(content.spec_bytes().len() as usize)
            &&& r.meta.next_line == Some((text_lines(shown@).len() + 1) as usize)
        },
        !truncated ==> {
            &&& r.meta.truncated is None
            &&& r.meta.bytes_shown is None
            &&& r.meta.bytes_total is None
            &&& r.meta.next_line is None
        },
{
    let shown_bytes = shown.as_bytes().len();
    let total_bytes = content.as_bytes().len();
    let sc = chars_of(shown);
    let lines = lines_of(&sc).len();
    let mut r = ReadResult::new(file, string_of(&sc));
    if let Some((a, s, e)) = section {
        r = r.with_section(a, s, e);
    }
    if truncated {
        r = r.with_truncation(shown_bytes, total_bytes, lines + 1);
    }
    r
}

/// The text an address selects: a line range is read directly, any other
/// address through the section it resolves to.
pub open spec fn read_target_spec(content: Seq<char>, secs: Seq<SectionView>, addr: Seq<char>) -> Result<
    Seq<char>,
    SectionErrorView,
> {
    match parse_address(addr) {
        Err(e) => Err(e),
        Ok(a) => match a {
            AddressView::LineRange(s, e) => read_lines_spec(content, s, e),
            _ => match resolve_target(a, secs) {
                Err(e) => Err(e),
                Ok(k) => read_lines_spec(content, secs[k].start_line, secs[k].end_line),
            },
        },
    }
}

/// The text an address selects in a document.
pub fn read_target(content: &str, doc: &ParsedDocument, addr: &str) -> (r: Result<String, SectionError>)
    ensures
        text_result_view(r) == read_target_spec(content@, sections_view(doc.sections@), addr@),
{
    let a = match parse_section_address(addr) {
        Ok(a) => a,
        Err(e) => {
            return Err(e);
        },
    };
    match &a {
        SectionAddress::LineRange(s, e) => read_section_lines(content, *s, *e),
        _ => {
            let sl = doc.sections.as_slice();
            assert(sl@ == doc.sections@);
            match resolve_section_address(&a, sl) {
                Ok(target) => {
                    proof {
                        let k = resolve_target(a@, sections_view(doc.sections@))->Ok_0;
                        assert(sections_view(doc.sections@)[k] == doc.sections@[k]@);
                    }
                    read_section_content(content, target)
                },
                Err(e) => Err(e),
            }
        },
    }
}


// ---------------------------------------------------------------------------
// Summaries
// ---------------------------------------------------------------------------

/// The plain-text block of a section summary: `title (Lline, index)`, up
/// to `n` lines of the preview each indented by two spaces, and `  ...`,
/// each line ended by a newline, then an empty line.
pub open spec fn summary_block_text(p: crate::section::PreviewView, n: nat) -> Seq<char> {
    p.title + " (L"@ + dec(p.line) + ", "@ + p.index + ")\n"@ + indented_lines(
        text_lines(p.preview).take(if n < text_lines(p.preview).len() { n as int } else { text_lines(p.preview).len() as int }),
    ) + "  ...\n\n"@
}

/// Lines each indented by two spaces and ended by a newline.
pub open spec fn indented_lines(ls: Seq<Seq<char>>) -> Seq<char>
    decreases ls.len(),
{
    if ls.len() == 0 {
        Seq::empty()
    } else {
        indented_lines(ls.drop_last()) + "  "@ + ls.last() + "\n"@
    }
}

/// The plain-text block of one section summary.
pub fn summary_block(p: &crate::section::SectionPreview, n: usize) -> (r: String)
    ensures
        r@ == summary_block_text(p@, n as nat),
{
    let mut out: Vec<char> = Vec::new();
    push_str(&mut out, p.title.as_str());
    push_str(&mut out, " (L");
    push_decimal(&mut out, p.line);
    push_str(&mut out, ", ");
    push_str(&mut out, p.index.as_str());
    push_str(&mut out, ")\n");
    let ghost head = out@;
    let pc = chars_of(p.preview.as_str());
    let ls = lines_of(&pc);
    let ghost lv = vv(ls@);
    let m = if n < ls.len() {
        n
    } else {
        ls.len()
    };
    let mut i: usize = 0;
    assert(lv.take(0) =~= Seq::<Seq<char>>::empty());
    while i < m
        invariant
            i <= m <= ls.len(),
            lv == vv(ls@),
            out@ == head + indented_lines(lv.take(i as int)),
        decreases m - i,
    {
        assert(lv.take(i + 1).drop_last() =~= lv.take(i as int));
        assert(lv[i as int] == ls@[i as int]@);
        push_str(&mut out, "  ");
        append_chars(&mut out, &ls[i]);
        push_str(&mut out, "\n");
        i += 1;
    }
    push_str(&mut out, "  ...\n\n");
    string_of(&out)
}

// ---------------------------------------------------------------------------
// Link listings
// ---------------------------------------------------------------------------

/// The name of a link form.
pub open spec fn kind_name(k: LinkKind) -> Seq<char> {
    match k {
        LinkKind::Wiki => "wiki"@,
        LinkKind::Markdown => "markdown"@,
    }
}

/// The name of a link form: `wiki` or `markdown`.
pub fn link_type_name(k: LinkKind) -> (r: String)
    ensures
        r@ == kind_name(k),
{
    let mut out: Vec<char> = Vec::new();
    match k {
        LinkKind::Wiki => push_str(&mut out, "wiki"),
        LinkKind::Markdown => push_str(&mut out, "markdown"),
    }
    string_of(&out)
}

/// Whether a link passes a form filter (no filter, or `All`, passes all).
pub open spec fn kind_passes(k: LinkKind, filter: Option<crate::cli::LinkType>) -> bool {
    match filter {
        Some(crate::cli::LinkType::Wiki) => k == LinkKind::Wiki,
        Some(crate::cli::LinkType::Markdown) => k == LinkKind::Markdown,
        _ => true,
    }
}

/// Positions of the links that pass a form filter.
pub open spec fn kind_positions(ls: Seq<LinkView>, filter: Option<crate::cli::LinkType>, i: int) -> Seq<usize>
    decreases ls.len() - i,
{
    if i < 0 || i >= ls.len() {
        Seq::empty()
    } else if kind_passes(ls[i].link_type, filter) {
        seq![i as usize] + kind_positions(ls, filter, i + 1)
    } else {
        kind_positions(ls, filter, i + 1)
    }
}

/// The links of the chosen form, by position.
pub fn filter_links(links: &Vec<Link>, filter: &Option<crate::cli::LinkType>) -> (r: Vec<usize>)
    ensures
        r@ == kind_positions(links_view(links@), *filter, 0),
{
    let ghost lv = links_view(links@);
    let mut out: Vec<usize> = Vec::new();
    let mut i: usize = 0;
    while i < links.len()
        invariant
            i <= links.len(),
            lv == links_view(links@),
            out@ + kind_positions(lv, *filter, i as int) == kind_positions(lv, *filter, 0),
        decreases links.len() - i,
    {
        assert(lv[i as int] == links@[i as int]@);
        let pass = match filter {
            Some(crate::cli::LinkType::Wiki) => links[i].link_type == LinkKind::Wiki,
            Some(crate::cli::LinkType::Markdown) => links[i].link_type == LinkKind::Markdown,
            _ => true,
        };
        let ghost before = out@;
        if pass {
            out.push(i);
            assert(out@ + kind_positions(lv, *filter, i + 1) =~= before + kind_positions(lv, *filter, i as int));
        }
        i += 1;
    }
    assert(out@ + kind_positions(lv, *filter, i as int) =~= out@);
    out
}

/// `file > target form Lline`, the target being the link's path if it has
/// one, else the target as written.
pub open spec fn link_line_text(file: Seq<char>, l: LinkView) -> Seq<char> {
    let target = match l.target_path {
        Some(p) => p,
        None => l.target_raw,
    };
    file + " > "@ + target + " "@ + kind_name(l.link_type) + " L"@ + dec(l.source_line)
}

/// One line of the plain-text link listing.
pub fn link_line(file: &str, l: &Link) -> (r: String)
    ensures
        r@ == link_line_text(file@, l@),
{
    let mut out: Vec<char> = Vec::new();
    push_str(&mut out, file);
    push_str(&mut out, " > ");
    match &l.target_path {
        Some(p) => push_str(&mut out, p.as_str()),
        None => push_str(&mut out, l.target_raw.as_str()),
    }
    push_str(&mut out, " ");
    let t = link_type_name(l.link_type);
    push_str(&mut out, t.as_str());
    push_str(&mut out, " L");
    push_decimal(&mut out, l.source_line);
    string_of(&out)
}

/// Positions of the links whose target (its path if it has one, else the
/// target as written) contains `name`.
pub open spec fn backlink_positions(ls: Seq<LinkView>, name: Seq<char>, i: int) -> Seq<usize>
    decreases ls.len() - i,
{
    if i < 0 || i >= ls.len() {
        Seq::empty()
    } else {
        let target = match ls[i].target_path {
            Some(p) => p,
            None => ls[i].target_raw,
        };
        if crate::text::contains(target, name) {
            seq![i as usize] + backlink_positions(ls, name, i + 1)
        } else {
            backlink_positions(ls, name, i + 1)
        }
    }
}

/// The target a backlink is looked for in: the link's path, else the
/// target as written.
spec fn link_target(l: LinkView) -> Seq<char> {
    match l.target_path {
        Some(p) => p,
        None => l.target_raw,
    }
}

/// The positions listed from `i` on are positions from `i` on, and each
/// link whose target holds the name at `d` is listed.
proof fn lemma_backlinks_from(ls: Seq<LinkView>, name: Seq<char>, i: int)
    requires
        0 <= i,
        ls.len() <= usize::MAX + 1,
    ensures
        forall|x: int|
            0 <= x < backlink_positions(ls, name, i).len() ==> i <= #[trigger] backlink_positions(ls, name, i)[x]
                < ls.len() && crate::text::contains(link_target(ls[backlink_positions(ls, name, i)[x] as int]), name),
        forall|k: int|
            i <= k < ls.len() && crate::text::contains(link_target(ls[k]), name) ==> backlink_positions(
                ls,
                name,
                i,
            ).contains(k as usize),
    decreases ls.len() - i,
{
    if i < ls.len() {
        lemma_backlinks_from(ls, name, i + 1);
        let rest = backlink_positions(ls, name, i + 1);
        let r = backlink_positions(ls, name, i);
        if crate::text::contains(link_target(ls[i]), name) {
            assert(r == seq![i as usize] + rest);
            assert forall|x: int| 0 <= x < r.len() implies i <= #[trigger] r[x] < ls.len()
                && crate::text::contains(link_target(ls[r[x] as int]), name) by {
                if x > 0 {
                    assert(r[x] == rest[x - 1]);
                }
            }
            assert forall|k: int|
                i <= k < ls.len() && crate::text::contains(link_target(ls[k]), name) implies r.contains(
                k as usize,
            ) by {
                if k == i {
                    assert(r[0] == i as usize);
                } else {
                    let y = choose|y: int| 0 <= y < rest.len() && rest[y] == k as usize;
                    assert(r[y + 1] == rest[y]);
                }
            }
        } else {
            assert(r == rest);
        }
    }
}

/// The backlinks of a name are exactly the links whose target holds the
/// name anywhere: a link whose target is `d`, the name and `e` is listed,
/// whatever `d` and `e` are, and every listed position is a link whose
/// target holds the name somewhere.
pub proof fn backlinks_are_links_naming_the_file(ls: Seq<LinkView>, name: Seq<char>, k: int, d: Seq<char>, e: Seq<char>)
    requires
        0 <= k < ls.len(),
        ls.len() <= usize::MAX,
    ensures
        (match ls[k].target_path {
            Some(p) => p,
            None => ls[k].target_raw,
        }) == d + name + e ==> backlink_positions(ls, name, 0).contains(k as usize),
        forall|x: int|
            0 <= x < backlink_positions(ls, name, 0).len() ==> exists|a: Seq<char>, b: Seq<char>|
                (match ls[#[trigger] backlink_positions(ls, name, 0)[x] as int].target_path {
                    Some(p) => p,
                    None => ls[backlink_positions(ls, name, 0)[x] as int].target_raw,
                }) == a + name + b,
{
    lemma_backlinks_from(ls, name, 0);
    let t = link_target(ls[k]);
    if t == d + name + e {
        assert(crate::text::occurs_at(t, name, d.len() as int)) by {
            assert(t.subrange(d.len() as int, (d.len() + name.len()) as int) =~= name);
        }
    }
    let r = backlink_positions(ls, name, 0);
    assert forall|x: int| 0 <= x < r.len() implies exists|a: Seq<char>, b: Seq<char>|
        (match ls[#[trigger] r[x] as int].target_path {
            Some(p) => p,
            None => ls[r[x] as int].target_raw,
        }) == a + name + b by {
        let tx = link_target(ls[r[x] as int]);
        assert(crate::text::contains(tx, name));
        let i = choose|i: int| crate::text::occurs_at(tx, name, i);
        let a = tx.subrange(0, i);
        let b = tx.subrange(i + name.len(), tx.len() as int);
        assert(tx =~= a + name + b);
    }
}

/// The links of a file that point at a file name.
pub fn backlinks_in(links: &Vec<Link>, name: &str) -> (r: Vec<usize>)
    ensures
        r@ == backlink_positions(links_view(links@), name@, 0),
{
    let ghost lv = links_view(links@);
    let nm = chars_of(name);
    let mut out: Vec<usize> = Vec::new();
    let mut i: usize = 0;
    while i < links.len()
        invariant
            i <= links.len(),
            lv == links_view(links@),
            nm@ == name@,
            out@ + backlink_positions(lv, name@, i as int) == backlink_positions(lv, name@, 0),
        decreases links.len() - i,
    {
        assert(lv[i as int] == links@[i as int]@);
        let target = match &links[i].target_path {
            Some(p) => chars_of(p.as_str()),
            None => chars_of(links[i].target_raw.as_str()),
        };
        let ghost before = out@;
        if crate::text::contains_chars(&target, &nm) {
            out.push(i);
            assert(out@ + backlink_positions(lv, name@, i + 1) =~= before + backlink_positions(lv, name@, i as int));
        }
        i += 1;
    }
    assert(out@ + backlink_positions(lv, name@, i as int) =~= out@);
    out
}


// ---------------------------------------------------------------------------
// The graph in plain text
// ---------------------------------------------------------------------------

/// `from > to form Lline`
pub open spec fn edge_line_text(e: crate::links::EdgeView) -> Seq<char> {
    e.from + " > "@ + e.to + " "@ + kind_name(e.link_type) + " L"@ + dec(e.line)
}

/// One line of the plain-text edge list.
pub fn edge_line(e: &crate::links::GraphEdge) -> (r: String)
    ensures
        r@ == edge_line_text(e@),
{
    let mut out: Vec<char> = Vec::new();
    push_str(&mut out, e.from.as_str());
    push_str(&mut out, " > ");
    push_str(&mut out, e.to.as_str());
    push_str(&mut out, " ");
    let t = link_type_name(e.link_type);
    push_str(&mut out, t.as_str());
    push_str(&mut out, " L");
    push_decimal(&mut out, e.line);
    string_of(&out)
}

/// All `from > to` pairs of the graph, node by node.
pub open spec fn adjacency_pairs(ns: Seq<crate::links::NodeView>) -> Seq<Seq<char>>
    decreases ns.len(),
{
    if ns.len() == 0 {
        Seq::empty()
    } else {
        adjacency_pairs(ns.drop_last()) + ns.last().outgoing.map_values(|t: Seq<char>| ns.last().path + " > "@ + t)
    }
}

/// The lines of the plain-text adjacency listing in positions
/// `offset..offset + limit`, and the number of lines in all.
pub fn adjacency_lines(nodes: &Vec<crate::links::GraphNode>, offset: usize, limit: usize) -> (r: (Vec<String>, usize))
    ensures
        r.1 == adjacency_pairs(crate::links::nodes_view(nodes@)).len(),
        r.0.deep_view() == adjacency_pairs(crate::links::nodes_view(nodes@)).subrange(
            page_spec(r.1 as nat, offset as nat, limit as nat).0 as int,
            page_spec(r.1 as nat, offset as nat, limit as nat).1 as int,
        ),
{
    let ghost nv = crate::links::nodes_view(nodes@);
    let mut all: Vec<Vec<char>> = Vec::new();
    let mut k: usize = 0;
    assert(nv.take(0) =~= Seq::<crate::links::NodeView>::empty());
    while k < nodes.len()
        invariant
            k <= nodes.len(),
            nv == crate::links::nodes_view(nodes@),
            vv(all@) == adjacency_pairs(nv.take(k as int)),
        decreases nodes.len() - k,
    {
        let node = &nodes[k];
        assert(nv[k as int] == node@);
        assert(nv.take(k + 1).drop_last() =~= nv.take(k as int));
        let ghost base = adjacency_pairs(nv.take(k as int));
        let ghost outs = node@.outgoing.map_values(|t: Seq<char>| node@.path + " > "@ + t);
        let mut j: usize = 0;
        assert(outs.take(0) =~= Seq::<Seq<char>>::empty());
        assert(base + outs.take(0) =~= base);
        while j < node.outgoing.len()
            invariant
                j <= node.outgoing.len(),
                node@ == nv[k as int],
                outs == node@.outgoing.map_values(|t: Seq<char>| node@.path + " > "@ + t),
                vv(all@) == base + outs.take(j as int),
            decreases node.outgoing.len() - j,
        {
            let mut line: Vec<char> = Vec::new();
            push_str(&mut line, node.path.as_str());
            push_str(&mut line, " > ");
            push_str(&mut line, node.outgoing[j].as_str());
            assert(node@.outgoing[j as int] == node.outgoing@[j as int]@);
            assert(line@ == outs[j as int]);
            let ghost before = vv(all@);
            all.push(line);
            assert(vv(all@) =~= before.push(outs[j as int]));
            assert(base + outs.take(j + 1) =~= (base + outs.take(j as int)).push(outs[j as int]));
            j += 1;
        }
        assert(outs.take(node.outgoing.len() as int) =~= outs);
        k += 1;
    }
    assert(nv.take(nodes.len() as int) =~= nv);
    let (start, end) = page_bounds(all.len(), offset, limit);
    let mut page: Vec<String> = Vec::new();
    let mut i = start;
    while i < end
        invariant
            start <= i <= end <= all.len(),
            page.deep_view() =~= vv(all@).subrange(start as int, i as int),
        decreases end - i,
    {
        let ghost before = page.deep_view();
        page.push(string_of(&all[i]));
        assert(page.deep_view() =~= before.push(vv(all@)[i as int]));
        i += 1;
    }
    (page, all.len())
}

/// The plain-text lines of the graph figures: counts, then the most linked
/// and most linking files where there are any.
pub open spec fn stats_lines_text(s: crate::links::StatsView) -> Seq<Seq<char>> {
    let a = seq!["nodes: "@ + dec(s.nodes) + ", edges: "@ + dec(s.edges) + ", orphans: "@ + dec(s.orphans)];
    let b = match s.most_linked {
        Some((p, c)) => a.push("most linked: "@ + p + " ("@ + dec(c) + " in)"@),
        None => a,
    };
    match s.most_linking {
        Some((p, c)) => b.push("most linking: "@ + p + " ("@ + dec(c) + " out)"@),
        None => b,
    }
}

/// The plain-text lines of the graph figures.
pub fn stats_lines(s: &crate::links::GraphStats) -> (r: Vec<String>)
    ensures
        r.deep_view() == stats_lines_text(s@),
{
    let mut out: Vec<String> = Vec::new();
    let mut a: Vec<char> = Vec::new();
    push_str(&mut a, "nodes: ");
    push_decimal(&mut a, s.nodes);
    push_str(&mut a, ", edges: ");
    push_decimal(&mut a, s.edges);
    push_str(&mut a, ", orphans: ");
    push_decimal(&mut a, s.orphans);
    out.push(string_of(&a));
    let ghost v1 = out.deep_view();
    assert(v1 =~= seq![a@]);
    if let Some((p, c)) = &s.most_linked {
        let mut b: Vec<char> = Vec::new();
        push_str(&mut b, "most linked: ");
        push_str(&mut b, p.as_str());
        push_str(&mut b, " (");
        push_decimal(&mut b, *c);
        push_str(&mut b, " in)");
        let ghost before = out.deep_view();
        out.push(string_of(&b));
        assert(out.deep_view() =~= before.push(b@));
    }
    if let Some((p, c)) = &s.most_linking {
        let mut b: Vec<char> = Vec::new();
        push_str(&mut b, "most linking: ");
        push_str(&mut b, p.as_str());
        push_str(&mut b, " (");
        push_decimal(&mut b, *c);
        push_str(&mut b, " out)");
        let ghost before = out.deep_view();
        out.push(string_of(&b));
        assert(out.deep_view() =~= before.push(b@));
    }
    out
}


// ---------------------------------------------------------------------------
// Plain search over lines
// ---------------------------------------------------------------------------

/// The lowercase form of a text, as `str::to_lowercase` gives it.
pub uninterp spec fn lowercase_of(s: Seq<char>) -> Seq<char>;

/// Lowercases a text.
///
/// Trusted: `str::to_lowercase`, a function of its input alone (the Unicode
/// lowercase mapping); the contract names its result and says nothing more.
#[verifier::external_body]
pub(crate) fn to_lower(s: &str) -> (r: String)
    ensures
        r@ == lowercase_of(s@),
{
    s.to_lowercase()
}

/// A line that matches a search.
pub struct LineHit {
    /// 1-based line number.
    pub line: usize,
    /// Index of the first section holding the line.
    pub section_index: Option<String>,
    /// Title of that section.
    pub section_title: Option<String>,
    /// The line with up to `context` lines before and after it.
    pub snippet: String,
}

/// A hit as plain values.
pub struct HitView {
    pub line: nat,
    pub section_index: Option<Seq<char>>,
    pub section_title: Option<Seq<char>>,
    pub snippet: Seq<char>,
}

impl View for LineHit {
    type V = HitView;

    open spec fn view(&self) -> HitView {
        HitView {
            line: self.line as nat,
            section_index: crate::links::ostr(self.section_index),
            section_title: crate::links::ostr(self.section_title),
            snippet: self.snippet@,
        }
    }
}

/// The views of a sequence of hits.
pub open spec fn hits_view(v: Seq<LineHit>) -> Seq<HitView> {
    v.map_values(|h: LineHit| h@)
}

/// The first section (from position `j`) whose lines hold line `n`.
pub open spec fn section_holding(secs: Seq<SectionView>, n: nat, j: int) -> Option<SectionView>
    decreases secs.len() - j,
{
    if j < 0 || j >= secs.len() {
        None
    } else if secs[j].start_line <= n && secs[j].end_line >= n {
        Some(secs[j])
    } else {
        section_holding(secs, n, j + 1)
    }
}

/// The hit for line `i` (0-based) of `ls`.
pub open spec fn hit_at(ls: Seq<Seq<char>>, i: int, secs: Seq<SectionView>, ctx: nat) -> HitView {
    let n = (i + 1) as nat;
    let start = if i >= ctx { i - ctx } else { 0 };
    let end = if i + ctx + 1 < ls.len() { i + ctx + 1 } else { ls.len() as int };
    let sec = section_holding(secs, n, 0);
    HitView {
        line: n,
        section_index: match sec {
            Some(s) => Some(s.index),
            None => None,
        },
        section_title: match sec {
            Some(s) => Some(s.title),
            None => None,
        },
        snippet: crate::text::join(ls.subrange(start, end), seq!['\n']),
    }
}

/// The hits for lines `i..`, a line being a hit where `matching` says so.
pub open spec fn hits_from(ls: Seq<Seq<char>>, matching: Seq<bool>, secs: Seq<SectionView>, ctx: nat, i: int) -> Seq<
    HitView,
>
    decreases ls.len() - i,
{
    if i < 0 || i >= ls.len() {
        Seq::empty()
    } else if i < matching.len() && matching[i] {
        seq![hit_at(ls, i, secs, ctx)] + hits_from(ls, matching, secs, ctx, i + 1)
    } else {
        hits_from(ls, matching, secs, ctx, i + 1)
    }
}

/// `section_holding` from `i` finds the first section from `i` holding the line.
proof fn lemma_section_holding(secs: Seq<SectionView>, n: nat, i: int)
    requires
        0 <= i,
    ensures
        forall|j: int|
            i <= j < secs.len() && secs[j].start_line <= n <= secs[j].end_line && (forall|m: int|
                i <= m < j ==> !((#[trigger] secs[m]).start_line <= n <= secs[m].end_line)) ==> section_holding(secs, n, i)
                == Some(secs[j]),
        (forall|j: int| i <= j < secs.len() ==> !((#[trigger] secs[j]).start_line <= n <= secs[j].end_line)) ==> section_holding(
            secs,
            n,
            i,
        ) is None,
    decreases secs.len() - i,
{
    if i < secs.len() {
        lemma_section_holding(secs, n, i + 1);
    }
}

/// Each hit from line `i` on is the hit of some line from `i` on.
proof fn lemma_hits_are_hits_at(ls: Seq<Seq<char>>, matching: Seq<bool>, secs: Seq<SectionView>, ctx: nat, i: int)
    requires
        0 <= i,
    ensures
        forall|x: int|
            0 <= x < hits_from(ls, matching, secs, ctx, i).len() ==> exists|y: int|
                i <= y < ls.len() && #[trigger] hits_from(ls, matching, secs, ctx, i)[x] == hit_at(ls, y, secs, ctx),
    decreases ls.len() - i,
{
    if i < ls.len() {
        lemma_hits_are_hits_at(ls, matching, secs, ctx, i + 1);
        let rest = hits_from(ls, matching, secs, ctx, i + 1);
        let h = hits_from(ls, matching, secs, ctx, i);
        if i < matching.len() && matching[i] {
            assert(h == seq![hit_at(ls, i, secs, ctx)] + rest);
            assert forall|x: int| 0 <= x < h.len() implies exists|y: int|
                i <= y < ls.len() && #[trigger] h[x] == hit_at(ls, y, secs, ctx) by {
                if x == 0 {
                    assert(h[0] == hit_at(ls, i, secs, ctx));
                } else {
                    assert(h[x] == rest[x - 1]);
                }
            }
        }
    }
}

/// A hit names the section that holds its line: its line is one of the
/// text's lines, and when some section's lines hold it, the hit carries the
/// index and title of the first such section; when none does, it carries
/// neither. In particular a hit on a heading line names that heading's
/// section (or an earlier one holding the line).
pub proof fn hits_name_the_section_holding_their_line(
    ls: Seq<Seq<char>>,
    matching: Seq<bool>,
    secs: Seq<SectionView>,
    ctx: nat,
)
    ensures
        forall|x: int, j: int|
            0 <= x < hits_from(ls, matching, secs, ctx, 0).len() && 0 <= j < secs.len() && secs[j].start_line
                <= hits_from(ls, matching, secs, ctx, 0)[x].line <= secs[j].end_line && (forall|m: int|
                0 <= m < j ==> !((#[trigger] secs[m]).start_line <= hits_from(ls, matching, secs, ctx, 0)[x].line
                    <= secs[m].end_line)) ==> #[trigger] hits_from(ls, matching, secs, ctx, 0)[x].section_index
                == Some(#[trigger] secs[j].index) && hits_from(ls, matching, secs, ctx, 0)[x].section_title == Some(
                secs[j].title,
            ),
        forall|x: int|
            0 <= x < hits_from(ls, matching, secs, ctx, 0).len() ==> 1 <= (#[trigger] hits_from(
                ls,
                matching,
                secs,
                ctx,
                0,
            )[x]).line <= ls.len() && ((forall|j: int|
                0 <= j < secs.len() ==> !((#[trigger] secs[j]).start_line <= hits_from(ls, matching, secs, ctx, 0)[x].line
                    <= secs[j].end_line)) ==> hits_from(ls, matching, secs, ctx, 0)[x].section_index is None
                && hits_from(ls, matching, secs, ctx, 0)[x].section_title is None),
{
    let hs = hits_from(ls, matching, secs, ctx, 0);
    lemma_hits_are_hits_at(ls, matching, secs, ctx, 0);
    assert forall|x: int, j: int|
        0 <= x < hs.len() && 0 <= j < secs.len() && secs[j].start_line <= hs[x].line <= secs[j].end_line && (forall|
            m: int,
        | 0 <= m < j ==> !((#[trigger] secs[m]).start_line <= hs[x].line <= secs[m].end_line)) implies #[trigger] hs[x].section_index
        == Some(#[trigger] secs[j].index) && hs[x].section_title == Some(secs[j].title) by {
        let y = choose|y: int| 0 <= y < ls.len() && hs[x] == hit_at(ls, y, secs, ctx);
        lemma_section_holding(secs, (y + 1) as nat, 0);
    }
    assert forall|x: int| 0 <= x < hs.len() implies 1 <= (#[trigger] hs[x]).line <= ls.len() && ((forall|j: int|
        0 <= j < secs.len() ==> !((#[trigger] secs[j]).start_line <= hs[x].line <= secs[j].end_line)) ==> hs[x].section_index is None
        && hs[x].section_title is None) by {
        let y = choose|y: int| 0 <= y < ls.len() && hs[x] == hit_at(ls, y, secs, ctx);
        lemma_section_holding(secs, (y + 1) as nat, 0);
    }
}

/// The first section holding a line.
fn find_holding(sections: &[Section], n: usize) -> (r: Option<&Section>)
    ensures
        match section_holding(sections_view(sections@), n as nat, 0) {
            Some(s) => r matches Some(x) && x@ == s,
            None => r is None,
        },
{
    let ghost secs = sections_view(sections@);
    let mut j: usize = 0;
    while j < sections.len()
        invariant
            j <= sections.len(),
            secs == sections_view(sections@),
            section_holding(secs, n as nat, 0) == section_holding(secs, n as nat, j as int),
        decreases sections.len() - j,
    {
        assert(secs[j as int] == sections@[j as int]@);
        if sections[j].start_line <= n && sections[j].end_line >= n {
            return Some(&sections[j]);
        }
        j += 1;
    }
    None
}

/// The hits of a search, given for each line whether it matches.
pub fn hits_for_lines(lines: &Vec<Vec<char>>, matching: &Vec<bool>, sections: &[Section], context: usize) -> (r: Vec<
    LineHit,
>)
    requires
        context + lines.len() < usize::MAX,
    ensures
        hits_view(r@) == hits_from(vv(lines@), matching@, sections_view(sections@), context as nat, 0),
{
    let ghost ls = vv(lines@);
    let ghost secs = sections_view(sections@);
    let mut out: Vec<LineHit> = Vec::new();
    let mut nl: Vec<char> = Vec::new();
    nl.push('\n');
    assert(nl@ =~= seq!['\n']);
    let mut i: usize = 0;
    while i < lines.len()
        invariant
            i <= lines.len(),
            context + lines.len() < usize::MAX,
            ls == vv(lines@),
            secs == sections_view(sections@),
            nl@ == seq!['\n'],
            hits_view(out@) + hits_from(ls, matching@, secs, context as nat, i as int) == hits_from(
                ls,
                matching@,
                secs,
                context as nat,
                0,
            ),
        decreases lines.len() - i,
    {
        let ghost before = hits_view(out@);
        if i < matching.len() && matching[i] {
            let n = i + 1;
            let start = if i >= context {
                i - context
            } else {
                0
            };
            let end = if i + context + 1 < lines.len() {
                i + context + 1
            } else {
                lines.len()
            };
            let snippet = crate::text::join_chars(lines, start, end, &nl);
            let sec = find_holding(sections, n);
            let (si, st) = match sec {
                Some(s) => (Some(s.index.clone()), Some(s.title.clone())),
                None => (None, None),
            };
            let h = LineHit { line: n, section_index: si, section_title: st, snippet: string_of(&snippet) };
            assert(h@ == hit_at(ls, i as int, secs, context as nat));
            out.push(h);
            assert(hits_view(out@) =~= before.push(h@));
            assert(before.push(h@) + hits_from(ls, matching@, secs, context as nat, i + 1) =~= before + hits_from(
                ls,
                matching@,
                secs,
                context as nat,
                i as int,
            ));
        }
        i += 1;
    }
    assert(hits_view(out@) + hits_from(ls, matching@, secs, context as nat, i as int) =~= hits_view(out@));
    out
}

/// Whether each line holds the query, both lowercased.
pub open spec fn line_matches(ls: Seq<Seq<char>>, query: Seq<char>) -> Seq<bool> {
    ls.map_values(|l: Seq<char>| crate::text::contains(lowercase_of(l), lowercase_of(query)))
}

/// The lines of a text that hold a query, ignoring case, each with its
/// section and `context` lines around it.
pub fn search_content(content: &str, query: &str, context: usize) -> (r: Vec<LineHit>)
    requires
        context + text_lines(content@).len() < usize::MAX,
    ensures
        hits_view(r@) == hits_from(
            text_lines(content@),
            line_matches(text_lines(content@), query@),
            document_of(content@, content.spec_bytes(), cmark_events(content@)).sections,
            context as nat,
            0,
        ),
{
    let doc = parse_document(content);
    let q = to_lower(query);
    let qc = chars_of(q.as_str());
    let c = chars_of(content);
    let lines = lines_of(&c);
    let ghost ls = vv(lines@);
    let mut matching: Vec<bool> = Vec::new();
    let mut i: usize = 0;
    while i < lines.len()
        invariant
            i <= lines.len(),
            ls == vv(lines@),
            qc@ == lowercase_of(query@),
            matching@ =~= line_matches(ls, query@).take(i as int),
        decreases lines.len() - i,
    {
        let line = string_of(&lines[i]);
        let low = to_lower(line.as_str());
        let lc = chars_of(low.as_str());
        assert(ls[i as int] == lines@[i as int]@);
        matching.push(crate::text::contains_chars(&lc, &qc));
        i += 1;
    }
    assert(line_matches(ls, query@).take(lines.len() as int) =~= line_matches(ls, query@));
    hits_for_lines(&lines, &matching, doc.sections.as_slice(), context)
}

/// Number of matches of a pattern as `str::matches` counts them: the
/// non-overlapping occurrences, or for an empty pattern one per position
/// between characters.
pub open spec fn match_count(s: Seq<char>, p: Seq<char>) -> nat {
    if p.len() == 0 {
        s.len() + 1
    } else {
        count_from(s, p, 0)
    }
}

/// How often a query occurs in a text, ignoring case (at most
/// `usize::MAX`).
pub fn count_matches(content: &str, query: &str) -> (n: usize)
    ensures
        n == if match_count(lowercase_of(content@), lowercase_of(query@)) <= usize::MAX {
            match_count(lowercase_of(content@), lowercase_of(query@))
        } else {
            usize::MAX as nat
        },
{
    let low = to_lower(content);
    let q = to_lower(query);
    let lc = chars_of(low.as_str());
    let qc = chars_of(q.as_str());
    if qc.len() == 0 {
        if lc.len() < usize::MAX {
            lc.len() + 1
        } else {
            usize::MAX
        }
    } else {
        count_occurrences(&lc, &qc)
    }
}


// ---------------------------------------------------------------------------
// Frontmatter listings
// ---------------------------------------------------------------------------

/// Counts of values, in the order first seen, after counting `vs`.
pub open spec fn tally(vs: Seq<Seq<char>>) -> Seq<(Seq<char>, nat)>
    decreases vs.len(),
{
    if vs.len() == 0 {
        Seq::empty()
    } else {
        let acc = tally(vs.drop_last());
        let v = vs.last();
        match tally_position(acc, v, 0) {
            Some(k) => acc.update(k, (v, acc[k].1 + 1)),
            None => acc.push((v, 1nat)),
        }
    }
}

/// The position of a value among the counts.
pub open spec fn tally_position(acc: Seq<(Seq<char>, nat)>, v: Seq<char>, i: int) -> Option<int>
    decreases acc.len() - i,
{
    if i < 0 || i >= acc.len() {
        None
    } else if acc[i].0 == v {
        Some(i)
    } else {
        tally_position(acc, v, i + 1)
    }
}

/// The plain values of counts.
pub open spec fn counts_view(v: Seq<(String, usize)>) -> Seq<(Seq<char>, nat)> {
    v.map_values(|e: (String, usize)| (e.0@, e.1 as nat))
}

proof fn lemma_tally_bound(vs: Seq<Seq<char>>)
    ensures
        forall|k: int| 0 <= k < tally(vs).len() ==> tally(vs)[k].1 <= vs.len(),
    decreases vs.len(),
{
    if vs.len() > 0 {
        lemma_tally_bound(vs.drop_last());
        let acc = tally(vs.drop_last());
        let v = vs.last();
        match tally_position(acc, v, 0) {
            Some(k) => {
                lemma_tally_position_bound(acc, v, 0);
                assert forall|j: int| 0 <= j < tally(vs).len() implies tally(vs)[j].1 <= vs.len() by {
                    if j != k {
                        assert(tally(vs)[j] == acc[j]);
                    }
                }
            },
            None => {
                assert forall|j: int| 0 <= j < tally(vs).len() implies tally(vs)[j].1 <= vs.len() by {
                    if j < acc.len() {
                        assert(tally(vs)[j] == acc[j]);
                    }
                }
            },
        }
    }
}

proof fn lemma_tally_position_bound(acc: Seq<(Seq<char>, nat)>, v: Seq<char>, i: int)
    requires
        0 <= i,
    ensures
        tally_position(acc, v, i) matches Some(k) ==> i <= k < acc.len(),
    decreases acc.len() - i,
{
    if i < acc.len() && acc[i].0 != v {
        lemma_tally_position_bound(acc, v, i + 1);
    }
}

/// How often each value occurs, in the order first seen.
pub fn count_values(values: &Vec<String>) -> (r: Vec<(String, usize)>)
    ensures
        counts_view(r@) == tally(values.deep_view()),
{
    let ghost vs = values.deep_view();
    let mut out: Vec<(String, usize)> = Vec::new();
    let mut i: usize = 0;
    assert(counts_view(out@) =~= tally(vs.take(0)));
    while i < values.len()
        invariant
            i <= values.len(),
            vs == values.deep_view(),
            counts_view(out@) == tally(vs.take(i as int)),
        decreases values.len() - i,
    {
        let ghost acc = counts_view(out@);
        assert(vs.take(i + 1).drop_last() =~= vs.take(i as int));
        assert(vs.take(i + 1).last() == vs[i as int]);
        assert(vs[i as int] == values@[i as int]@);
        proof { lemma_tally_bound(vs.take(i as int)); }
        let v = chars_of(values[i].as_str());
        let mut p: usize = 0;
        loop
            invariant
                p <= out.len(),
                acc == counts_view(out@),
                v@ == vs[i as int],
                tally_position(acc, v@, 0) == tally_position(acc, v@, p as int),
            ensures
                p <= out.len(),
                acc == counts_view(out@),
                tally_position(acc, v@, 0) == if p < out.len() {
                    Some(p as int)
                } else {
                    None
                },
            decreases out.len() - p,
        {
            if p >= out.len() {
                break;
            }
            if crate::text::eq_str_chars(out[p].0.as_str(), &v) {
                break;
            }
            p += 1;
        }
        if p < out.len() {
            assert(acc[p as int].1 <= i);
            let n = out[p].1 + 1;
            out.set(p, (values[i].clone(), n));
            assert(counts_view(out@) =~= acc.update(p as int, (v@, acc[p as int].1 + 1)));
        } else {
            out.push((values[i].clone(), 1));
            assert(counts_view(out@) =~= acc.push((v@, 1nat)));
        }
        i += 1;
    }
    assert(vs.take(values.len() as int) =~= vs);
    out
}

/// Positions of the fields shown for a file: all of them, or those with
/// the asked-for key.
pub open spec fn shown_fields(fs: Seq<crate::frontmatter::FieldView>, key: Option<Seq<char>>, i: int) -> Seq<usize>
    decreases fs.len() - i,
{
    if i < 0 || i >= fs.len() {
        Seq::empty()
    } else {
        let rest = shown_fields(fs, key, i + 1);
        match key {
            Some(k) => if fs[i].key == k {
                seq![i as usize] + rest
            } else {
                rest
            },
            None => seq![i as usize] + rest,
        }
    }
}

/// The fields shown for a file, by position.
pub fn select_fields(data: &crate::frontmatter::FrontmatterData, key: Option<&str>) -> (r: Vec<usize>)
    ensures
        r@ == shown_fields(
            crate::frontmatter::fields_view(data.fields@),
            match key {
                Some(k) => Some(k@),
                None => None,
            },
            0,
        ),
{
    let ghost fs = crate::frontmatter::fields_view(data.fields@);
    let ghost kv = match key {
        Some(k) => Some(k@),
        None => None::<Seq<char>>,
    };
    let kc = match key {
        Some(k) => Some(chars_of(k)),
        None => None,
    };
    let mut out: Vec<usize> = Vec::new();
    let mut i: usize = 0;
    while i < data.fields.len()
        invariant
            i <= data.fields.len(),
            fs == crate::frontmatter::fields_view(data.fields@),
            match kc {
                Some(c) => kv == Some(c@),
                None => kv is None,
            },
            out@ + shown_fields(fs, kv, i as int) == shown_fields(fs, kv, 0),
        decreases data.fields.len() - i,
    {
        assert(fs[i as int] == data.fields@[i as int]@);
        let keep = match &kc {
            Some(c) => crate::text::eq_str_chars(data.fields[i].key.as_str(), c),
            None => true,
        };
        let ghost before = out@;
        if keep {
            out.push(i);
            assert(out@ + shown_fields(fs, kv, i + 1) =~= before + shown_fields(fs, kv, i as int));
        }
        i += 1;
    }
    assert(out@ + shown_fields(fs, kv, i as int) =~= out@);
    out
}

/// The fields listed for a document (only `field` when one is asked for),
/// from position `i`, each read back from its JSON text (null when that
/// fails).
pub open spec fn entry_fields(
    fs: Seq<crate::frontmatter::FieldView>,
    field: Option<Seq<char>>,
    i: int,
) -> Seq<(Seq<char>, crate::frontmatter::JsonValue)>
    decreases fs.len() - i,
{
    if i < 0 || i >= fs.len() {
        Seq::empty()
    } else {
        let rest = entry_fields(fs, field, i + 1);
        if field is None || field == Some(fs[i].key) {
            let v = match crate::frontmatter::json_parse_of(fs[i].value_json) {
                Some(v) => v,
                None => crate::frontmatter::JsonValue::Null,
            };
            seq![(fs[i].key, v)] + rest
        } else {
            rest
        }
    }
}

/// The view of an optional text argument.
pub open spec fn opt_arg(o: Option<&str>) -> Option<Seq<char>> {
    match o {
        Some(t) => Some(t@),
        None => None,
    }
}

/// The entry listed for a document's frontmatter: its fields (only `field`
/// when one is asked for); nothing when the asked-for field is missing.
pub fn frontmatter_entry(file: String, data: &crate::frontmatter::FrontmatterData, field: Option<&str>) -> (r: Option<
    crate::output::FrontmatterEntry,
>)
    ensures
        ({
            let fs = entry_fields(crate::frontmatter::fields_view(data.fields@), opt_arg(field), 0);
            if fs.len() > 0 || field is None {
                r matches Some(e) && e.file@ == file@ && crate::links::node_fields_view(e.fields@) == fs
            } else {
                r is None
            }
        }),
{
    let ghost fv = crate::frontmatter::fields_view(data.fields@);
    let ghost want = opt_arg(field);
    let key = match field {
        Some(k) => Some(chars_of(k)),
        None => None,
    };
    let mut out: Vec<(String, crate::frontmatter::JsonValue)> = Vec::new();
    let mut i: usize = 0;
    while i < data.fields.len()
        invariant
            i <= data.fields.len(),
            fv == crate::frontmatter::fields_view(data.fields@),
            fv.len() == data.fields.len(),
            want == opt_arg(field),
            match key {
                Some(k) => want == Some(k@),
                None => want is None,
            },
            crate::links::node_fields_view(out@) + entry_fields(fv, want, i as int) == entry_fields(fv, want, 0),
        decreases data.fields.len() - i,
    {
        let ghost before = crate::links::node_fields_view(out@);
        assert(fv[i as int] == data.fields@[i as int]@);
        let keep = match &key {
            Some(k) => crate::text::eq_str_chars(data.fields[i].key.as_str(), k),
            None => true,
        };
        if keep {
            let v = match crate::frontmatter::parse_json(data.fields[i].value_json.as_str()) {
                Some(v) => v,
                None => crate::frontmatter::JsonValue::Null,
            };
            out.push((data.fields[i].key.clone(), v));
        }
        assert(crate::links::node_fields_view(out@) + entry_fields(fv, want, i + 1) =~= before + entry_fields(
            fv,
            want,
            i as int,
        ));
        i += 1;
    }
    assert(crate::links::node_fields_view(out@) + entry_fields(fv, want, i as int) =~= crate::links::node_fields_view(
        out@,
    ));
    if out.len() > 0 || field.is_none() {
        Some(crate::output::FrontmatterEntry { file, fields: out })
    } else {
        None
    }
}

/// The facet values of texts `i..`: for each text with frontmatter, the
/// strings its field `key` holds.
pub open spec fn facet_values(texts: Seq<Seq<char>>, key: Seq<char>, i: int) -> Seq<Seq<char>>
    decreases texts.len() - i,
{
    if i < 0 || i >= texts.len() {
        Seq::empty()
    } else {
        (match crate::frontmatter::field_values_spec(texts[i], key) {
            Some(v) => v,
            None => Seq::empty(),
        }) + facet_values(texts, key, i + 1)
    }
}

/// Number of texts (from `i`) that have frontmatter.
pub open spec fn with_frontmatter(texts: Seq<Seq<char>>, i: int) -> nat
    decreases texts.len() - i,
{
    if i < 0 || i >= texts.len() {
        0
    } else {
        (if crate::frontmatter::parsed_frontmatter(texts[i]) is Some {
            1nat
        } else {
            0nat
        }) + with_frontmatter(texts, i + 1)
    }
}

/// The facets of a field over documents: how often each string value
/// occurs (in the order first seen), and how many documents have
/// frontmatter.
pub fn facet_tally(texts: &[String], key: &str) -> (r: (Vec<(String, usize)>, usize))
    ensures
        counts_view(r.0@) == tally(facet_values(texts.deep_view(), key@, 0)),
        r.1 as nat == with_frontmatter(texts.deep_view(), 0),
{
    let ghost tv = texts.deep_view();
    let mut values: Vec<String> = Vec::new();
    let mut n: usize = 0;
    let mut i: usize = 0;
    while i < texts.len()
        invariant
            i <= texts.len(),
            tv == texts.deep_view(),
            tv.len() == texts.len(),
            n <= i,
            values.deep_view() + facet_values(tv, key@, i as int) == facet_values(tv, key@, 0),
            n + with_frontmatter(tv, i as int) == with_frontmatter(tv, 0),
        decreases texts.len() - i,
    {
        let ghost before = values.deep_view();
        assert(tv[i as int] == texts@[i as int]@);
        if crate::frontmatter::parse_frontmatter(texts[i].as_str()).is_some() {
            n += 1;
        }
        match crate::frontmatter::field_string_values(texts[i].as_str(), key) {
            Some(vs) => {
                let mut j: usize = 0;
                while j < vs.len()
                    invariant
                        j <= vs.len(),
                        values.deep_view() == before + vs.deep_view().take(j as int),
                    decreases vs.len() - j,
                {
                    let ghost b2 = values.deep_view();
                    values.push(vs[j].clone());
                    assert(values.deep_view() =~= b2.push(vs@[j as int]@));
                    assert(vs.deep_view()[j as int] == vs@[j as int]@);
                    assert(vs.deep_view().take(j + 1) =~= vs.deep_view().take(j as int).push(vs@[j as int]@));
                    assert(values.deep_view() =~= before + vs.deep_view().take(j + 1));
                    j += 1;
                }
                assert(vs.deep_view().take(vs.len() as int) =~= vs.deep_view());
            },
            None => {
                assert(values.deep_view() =~= before + Seq::<Seq<char>>::empty());
            },
        }
        assert(values.deep_view() + facet_values(tv, key@, i + 1) =~= before + facet_values(tv, key@, i as int));
        i += 1;
    }
    assert(values.deep_view() + facet_values(tv, key@, i as int) =~= values.deep_view());
    (count_values(&values), n)
}

// ---------------------------------------------------------------------------
// Orphans
// ---------------------------------------------------------------------------

/// Positions (from `i`) of the nodes no link reaches.
pub open spec fn orphan_positions(ns: Seq<crate::links::NodeView>, i: int) -> Seq<usize>
    decreases ns.len() - i,
{
    if i < 0 || i >= ns.len() {
        Seq::empty()
    } else if ns[i].incoming.len() == 0 {
        seq![i as usize] + orphan_positions(ns, i + 1)
    } else {
        orphan_positions(ns, i + 1)
    }
}

/// The nodes of a graph that no link reaches, by position.
pub fn orphan_nodes(nodes: &Vec<crate::links::GraphNode>) -> (r: Vec<usize>)
    ensures
        r@ == orphan_positions(crate::links::nodes_view(nodes@), 0),
{
    let ghost ns = crate::links::nodes_view(nodes@);
    let mut out: Vec<usize> = Vec::new();
    let mut i: usize = 0;
    while i < nodes.len()
        invariant
            i <= nodes.len(),
            ns == crate::links::nodes_view(nodes@),
            out@ + orphan_positions(ns, i as int) == orphan_positions(ns, 0),
        decreases nodes.len() - i,
    {
        let ghost before = out@;
        assert(ns[i as int] == nodes@[i as int]@);
        if nodes[i].incoming.len() == 0 {
            out.push(i);
            assert(out@ + orphan_positions(ns, i + 1) =~= before + orphan_positions(ns, i as int));
        }
        i += 1;
    }
    assert(out@ + orphan_positions(ns, i as int) =~= out@);
    out
}

/// `path (0 in, n out)`
pub open spec fn orphan_line_text(n: crate::links::NodeView) -> Seq<char> {
    n.path + " (0 in, "@ + dec(n.outgoing.len()) + " out)"@
}

/// One line of the plain-text orphan listing.
pub fn orphan_line(n: &crate::links::GraphNode) -> (r: String)
    ensures
        r@ == orphan_line_text(n@),
{
    let mut out: Vec<char> = Vec::new();
    push_str(&mut out, n.path.as_str());
    push_str(&mut out, " (0 in, ");
    push_decimal(&mut out, n.outgoing.len());
    push_str(&mut out, " out)");
    assert(out@ =~= orphan_line_text(n@));
    string_of(&out)
}

/// `n files, m orphans`
pub fn orphans_header(files: usize, orphans: usize) -> (r: String)
    ensures
        r@ == dec(files as nat) + " files, "@ + dec(orphans as nat) + " orphans"@,
{
    let mut out: Vec<char> = Vec::new();
    push_decimal(&mut out, files);
    push_str(&mut out, " files, ");
    push_decimal(&mut out, orphans);
    push_str(&mut out, " orphans");
    string_of(&out)
}

// ---------------------------------------------------------------------------
// Error messages
// ---------------------------------------------------------------------------

/// The message of an error, as the command line reports it.
pub open spec fn error_text(e: SectionErrorView) -> Seq<char> {
    match e {
        crate::section::SectionErrorView::EmptyAddress => "Section address cannot be empty"@,
        crate::section::SectionErrorView::InvalidAddress(a) => "Invalid section address format: '"@ + a
            + "'. Expected: #1.1, ## Title > ### Subtitle, or L10-L25"@,
        crate::section::SectionErrorView::ZeroStartLine => "Line numbers are 1-based, got start=0"@,
        crate::section::SectionErrorView::ZeroEndLine => "Line numbers are 1-based, got end=0"@,
        crate::section::SectionErrorView::ReversedRange(s, e) => "Start line ("@ + dec(s) + ") cannot be greater than end line ("@
            + dec(e) + ")"@,
        crate::section::SectionErrorView::StartBeyondEnd(s, n) => "Start line "@ + dec(s) + " exceeds file length ("@ + dec(n)
            + " lines)"@,
        crate::section::SectionErrorView::InvalidStartLine(s, n) => "Invalid section start line: "@ + dec(s) + " (file has "@
            + dec(n) + " lines)"@,
        crate::section::SectionErrorView::ContentHasHeading(l, t) => "Content must not contain headings (line "@ + dec(l)
            + ": \""@ + t + "\"). Use section-add to create new sections."@,
        crate::section::SectionErrorView::PositionBeyondEnd(p, n) => "Position line "@ + dec(p) + " exceeds file length ("@
            + dec(n) + " lines)"@,
        crate::section::SectionErrorView::IndexNotFound(i) => "Section #"@ + i + " not found"@,
        crate::section::SectionErrorView::PathNotFound(p) => "Section path '"@ + crate::text::join(p, " > "@) + "' not found"@,
        crate::section::SectionErrorView::RangeNotFound(s, e) => "No section found for line range L"@ + dec(s) + "-L"@ + dec(e),
    }
}

impl crate::section::SectionError {
    /// The message of the error (see `error_text`).
    pub fn message(&self) -> (r: String)
        ensures
            r@ == error_text(self@),
    {
        let mut out: Vec<char> = Vec::new();
        match self {
            crate::section::SectionError::EmptyAddress => push_str(&mut out, "Section address cannot be empty"),
            crate::section::SectionError::InvalidAddress(a) => {
                push_str(&mut out, "Invalid section address format: '");
                push_str(&mut out, a.as_str());
                push_str(&mut out, "'. Expected: #1.1, ## Title > ### Subtitle, or L10-L25");
            },
            crate::section::SectionError::ZeroStartLine => push_str(&mut out, "Line numbers are 1-based, got start=0"),
            crate::section::SectionError::ZeroEndLine => push_str(&mut out, "Line numbers are 1-based, got end=0"),
            crate::section::SectionError::ReversedRange(s, e) => {
                push_str(&mut out, "Start line (");
                push_decimal(&mut out, *s);
                push_str(&mut out, ") cannot be greater than end line (");
                push_decimal(&mut out, *e);
                push_str(&mut out, ")");
            },
            crate::section::SectionError::StartBeyondEnd(s, n) => {
                push_str(&mut out, "Start line ");
                push_decimal(&mut out, *s);
                push_str(&mut out, " exceeds file length (");
                push_decimal(&mut out, *n);
                push_str(&mut out, " lines)");
            },
            crate::section::SectionError::InvalidStartLine(s, n) => {
                push_str(&mut out, "Invalid section start line: ");
                push_decimal(&mut out, *s);
                push_str(&mut out, " (file has ");
                push_decimal(&mut out, *n);
                push_str(&mut out, " lines)");
            },
            crate::section::SectionError::ContentHasHeading(l, t) => {
                push_str(&mut out, "Content must not contain headings (line ");
                push_decimal(&mut out, *l);
                push_str(&mut out, ": \"");
                push_str(&mut out, t.as_str());
                push_str(&mut out, "\"). Use section-add to create new sections.");
            },
            crate::section::SectionError::PositionBeyondEnd(p, n) => {
                push_str(&mut out, "Position line ");
                push_decimal(&mut out, *p);
                push_str(&mut out, " exceeds file length (");
                push_decimal(&mut out, *n);
                push_str(&mut out, " lines)");
            },
            crate::section::SectionError::IndexNotFound(i) => {
                push_str(&mut out, "Section #");
                push_str(&mut out, i.as_str());
                push_str(&mut out, " not found");
            },
            crate::section::SectionError::PathNotFound(p) => {
                push_str(&mut out, "Section path '");
                let mut parts: Vec<Vec<char>> = Vec::new();
                let mut i: usize = 0;
                while i < p.len()
                    invariant
                        i <= p.len(),
                        vv(parts@) == p.deep_view().take(i as int),
                    decreases p.len() - i,
                {
                    let ghost before = vv(parts@);
                    parts.push(chars_of(p[i].as_str()));
                    assert(p.deep_view()[i as int] == p@[i as int]@);
                    assert(vv(parts@) =~= before.push(p@[i as int]@));
                    assert(vv(parts@) =~= p.deep_view().take(i + 1));
                    i += 1;
                }
                assert(p.deep_view().take(p.len() as int) =~= p.deep_view());
                let mut sep: Vec<char> = Vec::new();
                push_str(&mut sep, " > ");
                crate::text::join_range_into(&mut out, &parts, 0, parts.len(), &sep);
                assert(vv(parts@).subrange(0, parts.len() as int) =~= vv(parts@));
                push_str(&mut out, "' not found");
            },
            crate::section::SectionError::RangeNotFound(s, e) => {
                push_str(&mut out, "No section found for line range L");
                push_decimal(&mut out, *s);
                push_str(&mut out, "-L");
                push_decimal(&mut out, *e);
            },
        }
        assert(out@ =~= error_text(self@));
        string_of(&out)
    }
}

// ---------------------------------------------------------------------------
// Laws of paging
// ---------------------------------------------------------------------------

/// Pages follow on from one another: a page holds at most `limit` items
/// within the list, the next page (at `offset + returned`) starts where
/// this one ends, and more follow exactly when this page ends before the
/// end of the list.
pub proof fn pages_follow_on(total: nat, offset: nat, limit: nat)
    ensures
        ({
            let (start, end) = page_spec(total, offset, limit);
            let returned = (end - start) as nat;
            &&& start <= end <= total
            &&& returned <= limit
            &&& offset <= total ==> start == offset
            &&& offset <= total ==> page_spec(total, offset + returned, limit).0 == end
            &&& offset <= total ==> (offset + returned < total <==> end < total)
        }),
{
}

} // verus!
