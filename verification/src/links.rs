//! Links between markdown files and the graph they form.
//!
//! Two link forms are read: wiki links (`[[Page]]`, `[[Page#anchor|text]]`)
//! and markdown links (`[text](path#anchor)`); a markdown link right after
//! `!` is an image and is skipped.

use vstd::prelude::*;
use crate::text::{
    chars_of, contains, contains_chars, ends_with, find_char, has_prefix, has_suffix, join,
    join_chars, lines_of, occurs_at, slice_chars, split_char, split_on, starts_with, string_of,
    text_lines, vv, first_index_of, append_chars, lex_lt, lex_less, lemma_lex_total,
    lemma_lex_transitive, strings_of,
};
use crate::frontmatter::{
    FieldView, FrontmatterData, JsonValue, field_string_values, field_values_spec, fields_view, json_parse_of,
    opt_texts, parse_json, parsed_frontmatter,
};

verus! {

broadcast use vstd::string::group_string_axioms;

// ---------------------------------------------------------------------------
// Links
// ---------------------------------------------------------------------------

/// The form a link was written in.
#[derive(Debug, Clone, Copy, PartialEq, Eq, Structural)]
pub enum LinkKind {
    /// `[[Page]]`
    Wiki,
    /// `[text](url)`
    Markdown,
}

/// A link found in markdown text.
#[derive(Debug, Clone)]
pub struct Link {
    /// 1-based line of the link.
    pub source_line: usize,
    /// The target as written.
    pub target_raw: String,
    /// The target without its anchor, if not empty.
    pub target_path: Option<String>,
    /// The part after `#`, if not empty.
    pub target_anchor: Option<String>,
    /// The form of the link.
    pub link_type: LinkKind,
    /// The text shown for the link.
    pub display_text: Option<String>,
}

/// A link as a plain value.
pub struct LinkView {
    pub source_line: nat,
    pub target_raw: Seq<char>,
    pub target_path: Option<Seq<char>>,
    pub target_anchor: Option<Seq<char>>,
    pub link_type: LinkKind,
    pub display_text: Option<Seq<char>>,
}

/// The view of an optional string.
pub open spec fn ostr(o: Option<String>) -> Option<Seq<char>> {
    match o {
        Some(s) => Some(s@),
        None => None,
    }
}

impl View for Link {
    type V = LinkView;

    open spec fn view(&self) -> LinkView {
        LinkView {
            source_line: self.source_line as nat,
            target_raw: self.target_raw@,
            target_path: ostr(self.target_path),
            target_anchor: ostr(self.target_anchor),
            link_type: self.link_type,
            display_text: ostr(self.display_text),
        }
    }
}

/// The views of a sequence of links.
pub open spec fn links_view(v: Seq<Link>) -> Seq<LinkView> {
    v.map_values(|l: Link| l@)
}

/// `Some(s)` unless `s` is empty.
pub open spec fn non_empty(s: Seq<char>) -> Option<Seq<char>> {
    if s.len() == 0 {
        None
    } else {
        Some(s)
    }
}

/// A target split at its first `#` into path and anchor, each kept only if
/// not empty.
pub open spec fn split_anchor(t: Seq<char>) -> (Option<Seq<char>>, Option<Seq<char>>) {
    match first_index_of(t, '#') {
        Some(i) => (non_empty(t.take(i)), non_empty(t.skip(i + 1))),
        None => (non_empty(t), None),
    }
}

/// The parts of a wiki target: path, anchor (from the text before the first
/// `|`) and display text (the text between the first and a second `|`).
pub open spec fn wiki_target(t: Seq<char>) -> (Option<Seq<char>>, Option<Seq<char>>, Option<Seq<char>>) {
    let parts = split_char(t, '|');
    let (p, a) = split_anchor(parts[0]);
    (p, a, if parts.len() > 1 { Some(parts[1]) } else { None })
}

/// Number of characters from `i` on before the first `c` (or the end).
pub open spec fn run_not(l: Seq<char>, i: int, c: char) -> nat
    decreases l.len() - i,
{
    if 0 <= i < l.len() && l[i] != c {
        1 + run_not(l, i + 1, c)
    } else {
        0
    }
}

/// Where a wiki link starting at `p` ends (exclusive): `[[`, at least one
/// character other than `]`, then `]]`.
pub open spec fn wiki_end(l: Seq<char>, p: int) -> Option<int> {
    if 0 <= p && p + 1 < l.len() && l[p] == '[' && l[p + 1] == '[' {
        let q = p + 2 + run_not(l, p + 2, ']');
        if q > p + 2 && q + 1 < l.len() && l[q] == ']' && l[q + 1] == ']' {
            Some(q + 2)
        } else {
            None
        }
    } else {
        None
    }
}

/// The `]` that closes the text of a markdown link starting at `p`.
pub open spec fn md_text_end(l: Seq<char>, p: int) -> int {
    p + 1 + run_not(l, p + 1, ']')
}

/// The `)` that closes the target of a markdown link starting at `p`.
pub open spec fn md_target_end(l: Seq<char>, p: int) -> int {
    let q = md_text_end(l, p);
    q + 2 + run_not(l, q + 2, ')')
}

/// Whether a markdown link starts at `p`: `[`, any characters other than
/// `]`, `](`, at least one character other than `)`, then `)`.
pub open spec fn md_at(l: Seq<char>, p: int) -> bool {
    let q = md_text_end(l, p);
    let e = md_target_end(l, p);
    &&& 0 <= p < l.len()
    &&& l[p] == '['
    &&& q + 1 < l.len()
    &&& l[q] == ']'
    &&& l[q + 1] == '('
    &&& e > q + 2
    &&& e < l.len()
    &&& l[e] == ')'
}

/// The link a wiki match `[[t]]` gives on line `n`.
pub open spec fn wiki_link(n: nat, t: Seq<char>) -> LinkView {
    let (p, a, d) = wiki_target(t);
    LinkView {
        source_line: n,
        target_raw: t,
        target_path: p,
        target_anchor: a,
        link_type: LinkKind::Wiki,
        display_text: d,
    }
}

/// The link a markdown match `[d](t)` gives on line `n`.
pub open spec fn md_link(n: nat, d: Seq<char>, t: Seq<char>) -> LinkView {
    let (p, a) = split_anchor(t);
    LinkView {
        source_line: n,
        target_raw: t,
        target_path: p,
        target_anchor: a,
        link_type: LinkKind::Markdown,
        display_text: Some(d),
    }
}

/// Wiki links of line `l` (numbered `n`) from position `p` on, leftmost
/// first, each search going on after the previous match.
pub open spec fn wiki_links_from(l: Seq<char>, p: int, n: nat) -> Seq<LinkView>
    decreases l.len() - p,
{
    if p < 0 || p >= l.len() {
        Seq::empty()
    } else {
        match wiki_end(l, p) {
            Some(e) => seq![wiki_link(n, l.subrange(p + 2, e - 2))] + wiki_links_from(l, e, n),
            None => wiki_links_from(l, p + 1, n),
        }
    }
}

/// Markdown links of line `l` from position `p` on, leftmost first; a match
/// right after `!` is an image and gives no link.
pub open spec fn md_links_from(l: Seq<char>, p: int, n: nat) -> Seq<LinkView>
    decreases l.len() - p,
{
    if p < 0 || p >= l.len() {
        Seq::empty()
    } else if md_at(l, p) {
        let q = md_text_end(l, p);
        let e = md_target_end(l, p);
        let rest = md_links_from(l, e + 1, n);
        if p > 0 && l[p - 1] == '!' {
            rest
        } else {
            seq![md_link(n, l.subrange(p + 1, q), l.subrange(q + 2, e))] + rest
        }
    } else {
        md_links_from(l, p + 1, n)
    }
}

/// The links of lines `i..` of a text: per line, its wiki links, then its
/// markdown links.
pub open spec fn links_of_lines(ls: Seq<Seq<char>>, i: int) -> Seq<LinkView>
    decreases ls.len() - i,
{
    if i < 0 || i >= ls.len() {
        Seq::empty()
    } else {
        wiki_links_from(ls[i], 0, (i + 1) as nat) + md_links_from(ls[i], 0, (i + 1) as nat)
            + links_of_lines(ls, i + 1)
    }
}

proof fn lemma_run_not_bound(l: Seq<char>, i: int, c: char)
    requires
        0 <= i,
    ensures
        i + run_not(l, i, c) <= if i <= l.len() { l.len() as int } else { i },
        i + run_not(l, i, c) < l.len() ==> l[i + run_not(l, i, c)] == c,
        forall|j: int| i <= j < i + run_not(l, i, c) ==> l[j] != c,
    decreases l.len() - i,
{
    if 0 <= i < l.len() && l[i] != c {
        lemma_run_not_bound(l, i + 1, c);
    }
}

/// Number of characters from `i` on before the first `c` (or the end).
fn run_not_at(l: &Vec<char>, i: usize, c: char) -> (n: usize)
    requires
        i <= l.len(),
    ensures
        n == run_not(l@, i as int, c),
        i + n <= l.len(),
{
    let mut j = i;
    while j < l.len() && l[j] != c
        invariant
            i <= j <= l.len(),
            run_not(l@, i as int, c) == (j - i) + run_not(l@, j as int, c),
        decreases l.len() - j,
    {
        j += 1;
    }
    j - i
}

/// A string holding `l[a..b]`.
fn piece(l: &Vec<char>, a: usize, b: usize) -> (r: String)
    requires
        a <= b <= l.len(),
    ensures
        r@ == l@.subrange(a as int, b as int),
{
    string_of(&slice_chars(l, a, b))
}

/// `Some(piece)` unless the piece is empty.
fn non_empty_piece(l: &Vec<char>, a: usize, b: usize) -> (r: Option<String>)
    requires
        a <= b <= l.len(),
    ensures
        ostr(r) == non_empty(l@.subrange(a as int, b as int)),
{
    if a == b {
        None
    } else {
        Some(piece(l, a, b))
    }
}

/// Splits a target at its first `#`.
fn split_anchor_of(t: &Vec<char>) -> (r: (Option<String>, Option<String>))
    ensures
        (ostr(r.0), ostr(r.1)) == split_anchor(t@),
{
    match find_char(t, '#') {
        Some(i) => {
            let p = non_empty_piece(t, 0, i);
            let a = non_empty_piece(t, i + 1, t.len());
            assert(t@.subrange(0, i as int) =~= t@.take(i as int));
            assert(t@.subrange(i + 1, t.len() as int) =~= t@.skip(i + 1));
            (p, a)
        },
        None => {
            let p = non_empty_piece(t, 0, t.len());
            assert(t@.subrange(0, t.len() as int) =~= t@);
            (p, None)
        },
    }
}

/// Parses the target of a wiki link.
fn parse_wiki_link_target(t: &Vec<char>) -> (r: (Option<String>, Option<String>, Option<String>))
    ensures
        (ostr(r.0), ostr(r.1), ostr(r.2)) == wiki_target(t@),
{
    let parts = split_on(t, '|');
    proof { crate::text::lemma_split_char_nonempty(t@, '|'); }
    let (p, a) = split_anchor_of(&parts[0]);
    let d = if parts.len() > 1 {
        Some(string_of(&parts[1]))
    } else {
        None
    };
    assert(vv(parts@)[0] == parts@[0]@);
    proof {
        if parts.len() > 1 {
            assert(vv(parts@)[1] == parts@[1]@);
        }
    }
    (p, a, d)
}

/// Parses the target of a markdown link.
fn parse_markdown_link_target(t: &Vec<char>) -> (r: (Option<String>, Option<String>))
    ensures
        (ostr(r.0), ostr(r.1)) == split_anchor(t@),
{
    split_anchor_of(t)
}

/// Where a wiki link starting at `p` ends.
fn wiki_end_at(l: &Vec<char>, p: usize) -> (r: Option<usize>)
    requires
        p < l.len(),
    ensures
        r == match wiki_end(l@, p as int) {
            Some(e) => Some(e as usize),
            None => None::<usize>,
        },
        r matches Some(e) ==> p + 5 <= e <= l.len(),
{
    if p + 1 < l.len() && l[p] == '[' && l[p + 1] == '[' {
        let n = run_not_at(l, p + 2, ']');
        let q = p + 2 + n;
        if n > 0 && q < l.len() && q + 1 < l.len() && l[q] == ']' && l[q + 1] == ']' {
            Some(q + 2)
        } else {
            None
        }
    } else {
        None
    }
}

/// The ends of a markdown link starting at `p`: its `]` and its `)`.
fn md_at_pos(l: &Vec<char>, p: usize) -> (r: Option<(usize, usize)>)
    requires
        p < l.len(),
    ensures
        r is Some <==> md_at(l@, p as int),
        r matches Some((q, e)) ==> q == md_text_end(l@, p as int) && e == md_target_end(l@, p as int)
            && p < q && q + 2 < e && e < l.len(),
{
    if l[p] != '[' {
        return None;
    }
    let n1 = run_not_at(l, p + 1, ']');
    let q = p + 1 + n1;
    if !(q < l.len() && q + 1 < l.len() && l[q] == ']' && l[q + 1] == '(') {
        return None;
    }
    let n2 = run_not_at(l, q + 2, ')');
    let e = q + 2 + n2;
    if n2 > 0 && e < l.len() && l[e] == ')' {
        Some((q, e))
    } else {
        None
    }
}

/// Appends the wiki links of one line.
fn push_wiki_links(out: &mut Vec<Link>, l: &Vec<char>, n: usize)
    ensures
        links_view(final(out)@) == links_view(old(out)@) + wiki_links_from(l@, 0, n as nat),
{
    let ghost start = links_view(out@);
    let mut p: usize = 0;
    while p < l.len()
        invariant
            p <= l.len(),
            links_view(out@) + wiki_links_from(l@, p as int, n as nat) == start + wiki_links_from(
                l@,
                0,
                n as nat,
            ),
        decreases l.len() - p,
    {
        match wiki_end_at(l, p) {
            Some(e) => {
                let t = slice_chars(l, p + 2, e - 2);
                let (tp, ta, td) = parse_wiki_link_target(&t);
                let link = Link {
                    source_line: n,
                    target_raw: string_of(&t),
                    target_path: tp,
                    target_anchor: ta,
                    link_type: LinkKind::Wiki,
                    display_text: td,
                };
                let ghost before = links_view(out@);
                out.push(link);
                assert(links_view(out@) =~= before.push(link@));
                assert(link@ == wiki_link(n as nat, l@.subrange(p + 2, e - 2)));
                assert(before.push(link@) + wiki_links_from(l@, e as int, n as nat) =~= before + (
                seq![link@] + wiki_links_from(l@, e as int, n as nat)));
                p = e;
            },
            None => {
                p += 1;
            },
        }
    }
    assert(links_view(out@) + wiki_links_from(l@, p as int, n as nat) =~= links_view(out@));
}

proof fn lemma_md_step(l: Seq<char>, p: int, n: nat)
    requires
        0 <= p < l.len(),
    ensures
        md_at(l, p) && !(p > 0 && l[p - 1] == '!') ==> md_links_from(l, p, n) == seq![
            md_link(n, l.subrange(p + 1, md_text_end(l, p)), l.subrange(md_text_end(l, p) + 2, md_target_end(l, p))),
        ] + md_links_from(l, md_target_end(l, p) + 1, n),
        md_at(l, p) && p > 0 && l[p - 1] == '!' ==> md_links_from(l, p, n) == md_links_from(
            l,
            md_target_end(l, p) + 1,
            n,
        ),
        !md_at(l, p) ==> md_links_from(l, p, n) == md_links_from(l, p + 1, n),
{
}

/// Appends the markdown links of one line, images left out.
fn push_md_links(out: &mut Vec<Link>, l: &Vec<char>, n: usize)
    ensures
        links_view(final(out)@) == links_view(old(out)@) + md_links_from(l@, 0, n as nat),
{
    let ghost start = links_view(out@);
    let mut p: usize = 0;
    while p < l.len()
        invariant
            p <= l.len(),
            links_view(out@) + md_links_from(l@, p as int, n as nat) == start + md_links_from(
                l@,
                0,
                n as nat,
            ),
        decreases l.len() - p,
    {
        proof { lemma_md_step(l@, p as int, n as nat); }
        match md_at_pos(l, p) {
            Some((q, e)) => {
                if !(p > 0 && l[p - 1] == '!') {
                    let d = slice_chars(l, p + 1, q);
                    let t = slice_chars(l, q + 2, e);
                    let (tp, ta) = parse_markdown_link_target(&t);
                    let link = Link {
                        source_line: n,
                        target_raw: string_of(&t),
                        target_path: tp,
                        target_anchor: ta,
                        link_type: LinkKind::Markdown,
                        display_text: Some(string_of(&d)),
                    };
                    let ghost before = links_view(out@);
                    out.push(link);
                    assert(links_view(out@) =~= before.push(link@));
                    assert(link@ == md_link(
                        n as nat,
                        l@.subrange(p + 1, q as int),
                        l@.subrange(q + 2, e as int),
                    ));
                    assert(before.push(link@) + md_links_from(l@, e + 1, n as nat) =~= before + (
                    seq![link@] + md_links_from(l@, e + 1, n as nat)));
                }
                p = e + 1;
            },
            None => {
                p += 1;
            },
        }
    }
    assert(links_view(out@) + md_links_from(l@, p as int, n as nat) =~= links_view(out@));
}

/// All links of a markdown text, line by line: on each line its wiki links
/// first, then its markdown links; image links are left out.
pub fn parse_links(content: &str) -> (r: Vec<Link>)
    ensures
        links_view(r@) == links_of_lines(text_lines(content@), 0),
{
    let c = chars_of(content);
    let lines = lines_of(&c);
    let ghost ls = text_lines(content@);
    let mut out: Vec<Link> = Vec::new();
    let mut i: usize = 0;
    while i < lines.len()
        invariant
            i <= lines.len(),
            vv(lines@) == ls,
            links_view(out@) + links_of_lines(ls, i as int) == links_of_lines(ls, 0),
        decreases lines.len() - i,
    {
        let ghost before = links_view(out@);
        assert(ls[i as int] == lines@[i as int]@);
        push_wiki_links(&mut out, &lines[i], i + 1);
        push_md_links(&mut out, &lines[i], i + 1);
        assert(before + links_of_lines(ls, i as int) =~= links_view(out@) + links_of_lines(
            ls,
            i + 1,
        ));
        i += 1;
    }
    assert(links_view(out@) + links_of_lines(ls, i as int) =~= links_view(out@));
    out
}


// ---------------------------------------------------------------------------
// Resolving link targets to files
// ---------------------------------------------------------------------------

/// Path parts with `.` and empty parts dropped and `..` taking back the part
/// before it (if any).
pub open spec fn norm_parts(parts: Seq<Seq<char>>) -> Seq<Seq<char>>
    decreases parts.len(),
{
    if parts.len() == 0 {
        Seq::empty()
    } else {
        let acc = norm_parts(parts.drop_last());
        let part = parts.last();
        if part.len() == 0 || part == seq!['.'] {
            acc
        } else if part == seq!['.', '.'] {
            if acc.len() > 0 {
                acc.drop_last()
            } else {
                acc
            }
        } else {
            acc.push(part)
        }
    }
}

/// A path with `.` and `..` resolved, as an absolute path.
pub open spec fn normalize(path: Seq<char>) -> Seq<char> {
    let r = norm_parts(split_char(path, '/'));
    if r.len() == 0 {
        seq!['/']
    } else {
        seq!['/'] + join(r, seq!['/'])
    }
}

/// The last position of `c` in `s`.
pub open spec fn last_index_of(s: Seq<char>, c: char) -> Option<int> {
    if exists|i: int| 0 <= i < s.len() && s[i] == c {
        Some(choose|i: int| 0 <= i < s.len() && s[i] == c && forall|j: int| i < j < s.len() ==> s[j] != c)
    } else {
        None
    }
}

/// `.md`
pub open spec fn md_ext() -> Seq<char> {
    seq!['.', 'm', 'd']
}

/// Whether a path's last segment is `p`: the path is `p` or ends with `/`
/// and `p`.
pub open spec fn last_segment_is(k: Seq<char>, p: Seq<char>) -> bool {
    k == p || ends_with(k, seq!['/'] + p)
}

/// Whether a known file carries a file name as a whole path segment: its
/// last segment is the name, the name and `/`, or the name and `.md`.
pub open spec fn has_name(k: Seq<char>, name: Seq<char>) -> bool {
    last_segment_is(k, name) || last_segment_is(k, name + seq!['/']) || last_segment_is(k, name + md_ext())
}

/// The first known file (from position `i`) that carries a file name.
pub open spec fn first_with_name(known: Seq<Seq<char>>, name: Seq<char>, i: int) -> Option<Seq<char>>
    decreases known.len() - i,
{
    if i < 0 || i >= known.len() {
        None
    } else if has_name(known[i], name) {
        Some(known[i])
    } else {
        first_with_name(known, name, i + 1)
    }
}

/// The file a link target names, as seen from `source` among `known`:
/// an absolute target that is known; else (not a URL) the target joined to
/// the source's directory (`./` and `../` resolved), that path without or
/// with `.md`, and last any known file that carries the target's file name.
pub open spec fn resolve_target_path(target: Option<Seq<char>>, source: Seq<char>, known: Seq<Seq<char>>) -> Option<
    Seq<char>,
> {
    match target {
        None => None,
        Some(tp) => if starts_with(tp, seq!['/']) {
            if known.contains(tp) {
                Some(tp)
            } else {
                None
            }
        } else if contains(tp, seq![':', '/', '/']) {
            None
        } else {
            match last_index_of(source, '/') {
                None => None,
                Some(d) => {
                    let joined = source.take(d) + seq!['/'] + tp;
                    let full = if starts_with(tp, seq!['.', '/']) || starts_with(tp, seq!['.', '.', '/']) {
                        normalize(joined)
                    } else {
                        joined
                    };
                    let without = if ends_with(full, md_ext()) {
                        full.take(full.len() - 3)
                    } else {
                        full
                    };
                    if known.contains(full) {
                        Some(full)
                    } else if without != full && known.contains(without) {
                        Some(without)
                    } else if known.contains(full + md_ext()) {
                        Some(full + md_ext())
                    } else {
                        first_with_name(known, split_char(tp, '/').last(), 0)
                    }
                },
            }
        },
    }
}

/// The position of the last `c` in `s`, if any.
pub(crate) fn find_last_char(s: &Vec<char>, c: char) -> (r: Option<usize>)
    ensures
        r matches Some(i) ==> last_index_of(s@, c) == Some(i as int) && i < s.len(),
        r is None ==> last_index_of(s@, c) is None,
{
    let mut i = s.len();
    while i > 0
        invariant
            i <= s.len(),
            forall|j: int| i <= j < s.len() ==> s@[j] != c,
        decreases i,
    {
        if s[i - 1] == c {
            proof {
                let k = choose|k: int| 0 <= k < s@.len() && s@[k] == c && forall|j: int| k < j < s@.len() ==> s@[j] != c;
                assert(k == i - 1) by {
                    if k < i - 1 {
                        assert(s@[i - 1] == c);
                    }
                }
            }
            return Some(i - 1);
        }
        i -= 1;
    }
    None
}

/// Characters of a short literal.
fn lit2(a: char, b: char) -> (r: Vec<char>)
    ensures
        r@ == seq![a, b],
{
    let mut r: Vec<char> = Vec::new();
    r.push(a);
    r.push(b);
    assert(r@ =~= seq![a, b]);
    r
}

/// Characters of a short literal.
fn lit3(a: char, b: char, c: char) -> (r: Vec<char>)
    ensures
        r@ == seq![a, b, c],
{
    let mut r: Vec<char> = Vec::new();
    r.push(a);
    r.push(b);
    r.push(c);
    assert(r@ =~= seq![a, b, c]);
    r
}

/// Whether `x` is one of the known files.
pub(crate) fn is_known(known: &[String], x: &Vec<char>) -> (b: bool)
    ensures
        b == known.deep_view().contains(x@),
{
    let ghost kv = known.deep_view();
    let mut i: usize = 0;
    while i < known.len()
        invariant
            i <= known.len(),
            kv == known.deep_view(),
            kv.len() == known.len(),
            forall|j: int| 0 <= j < i ==> kv[j] != x@,
        decreases known.len() - i,
    {
        assert(kv[i as int] == known@[i as int]@);
        if crate::text::eq_str_chars(known[i].as_str(), x) {
            return true;
        }
        i += 1;
    }
    false
}

proof fn lemma_norm_parts_step(parts: Seq<Seq<char>>, i: int)
    requires
        0 <= i < parts.len(),
    ensures
        norm_parts(parts.take(i + 1)) == ({
            let acc = norm_parts(parts.take(i));
            let part = parts[i];
            if part.len() == 0 || part == seq!['.'] {
                acc
            } else if part == seq!['.', '.'] {
                if acc.len() > 0 {
                    acc.drop_last()
                } else {
                    acc
                }
            } else {
                acc.push(part)
            }
        }),
{
    assert(parts.take(i + 1).drop_last() =~= parts.take(i));
}

/// A path with `.` and `..` resolved, as an absolute path.
fn normalize_path(path: &Vec<char>) -> (r: Vec<char>)
    ensures
        r@ == normalize(path@),
{
    let parts = split_on(path, '/');
    let ghost pv = vv(parts@);
    let dot = lit2('.', '.');
    let mut result: Vec<Vec<char>> = Vec::new();
    let mut i: usize = 0;
    assert(pv.take(0) =~= Seq::<Seq<char>>::empty());
    while i < parts.len()
        invariant
            i <= parts.len(),
            pv == vv(parts@),
            pv == split_char(path@, '/'),
            dot@ == seq!['.', '.'],
            vv(result@) == norm_parts(pv.take(i as int)),
        decreases parts.len() - i,
    {
        proof { lemma_norm_parts_step(pv, i as int); }
        let part = &parts[i];
        assert(pv[i as int] == part@);
        if part.len() == 0 || (part.len() == 1 && part[0] == '.') {
            proof {
                if part.len() == 1 {
                    assert(part@ =~= seq!['.']);
                }
            }
        } else if same_dots(part, &dot) {
            if result.len() > 0 {
                let ghost before = vv(result@);
                result.pop();
                assert(vv(result@) =~= before.drop_last());
            }
        } else {
            proof {
                if part@ == seq!['.'] {
                    assert(part@.len() == 1 && part@[0] == '.');
                }
            }
            let ghost before = vv(result@);
            result.push(part.clone());
            assert(vv(result@) =~= before.push(part@));
        }
        i += 1;
    }
    assert(pv.take(parts.len() as int) =~= pv);
    let mut out: Vec<char> = Vec::new();
    out.push('/');
    if result.len() > 0 {
        let mut sep: Vec<char> = Vec::new();
        sep.push('/');
        let j = join_chars(&result, 0, result.len(), &sep);
        append_chars(&mut out, &j);
        assert(vv(result@).subrange(0, result.len() as int) =~= vv(result@));
        assert(sep@ =~= seq!['/']);
        assert(out@ =~= seq!['/'] + join(vv(result@), seq!['/']));
    } else {
        assert(out@ =~= seq!['/']);
    }
    out
}

/// Whether a path part is `..`.
fn same_dots(part: &Vec<char>, dot: &Vec<char>) -> (b: bool)
    ensures
        b == (part@ == dot@),
{
    crate::text::same_chars(part, dot)
}

proof fn lemma_first_with_name_in(known: Seq<Seq<char>>, name: Seq<char>, i: int)
    requires
        0 <= i,
    ensures
        first_with_name(known, name, i) matches Some(k) ==> known.contains(k),
    decreases known.len() - i,
{
    if i < known.len() {
        if has_name(known[i], name) {
            assert(known[i] == known[i]);
        } else {
            lemma_first_with_name_in(known, name, i + 1);
        }
    }
}

/// Whether a path's last segment is `p` (`sp` being `/` and `p`).
fn segment_at_end(k: &Vec<char>, p: &Vec<char>, sp: &Vec<char>) -> (b: bool)
    requires
        sp@ == seq!['/'] + p@,
    ensures
        b == last_segment_is(k@, p@),
{
    crate::text::same_chars(k, p) || has_suffix(k, sp)
}

/// The first known file that carries a file name.
fn find_by_name(known: &[String], name: &Vec<char>) -> (r: Option<String>)
    ensures
        ostr(r) == first_with_name(known.deep_view(), name@, 0),
{
    let ghost kv = known.deep_view();
    let mut with_slash = name.clone();
    with_slash.push('/');
    let mut with_md = name.clone();
    with_md.push('.');
    with_md.push('m');
    with_md.push('d');
    assert(with_slash@ =~= name@ + seq!['/']);
    assert(with_md@ =~= name@ + md_ext());
    let mut s_name: Vec<char> = Vec::new();
    s_name.push('/');
    append_chars(&mut s_name, name);
    let mut s_slash: Vec<char> = Vec::new();
    s_slash.push('/');
    append_chars(&mut s_slash, &with_slash);
    let mut s_md: Vec<char> = Vec::new();
    s_md.push('/');
    append_chars(&mut s_md, &with_md);
    assert(s_name@ =~= seq!['/'] + name@);
    assert(s_slash@ =~= seq!['/'] + with_slash@);
    assert(s_md@ =~= seq!['/'] + with_md@);
    let mut i: usize = 0;
    while i < known.len()
        invariant
            i <= known.len(),
            kv == known.deep_view(),
            kv.len() == known.len(),
            with_slash@ == name@ + seq!['/'],
            with_md@ == name@ + md_ext(),
            s_name@ == seq!['/'] + name@,
            s_slash@ == seq!['/'] + with_slash@,
            s_md@ == seq!['/'] + with_md@,
            first_with_name(kv, name@, 0) == first_with_name(kv, name@, i as int),
        decreases known.len() - i,
    {
        assert(kv[i as int] == known@[i as int]@);
        let k = chars_of(known[i].as_str());
        if segment_at_end(&k, name, &s_name) || segment_at_end(&k, &with_slash, &s_slash) || segment_at_end(
            &k,
            &with_md,
            &s_md,
        ) {
            return Some(known[i].clone());
        }
        i += 1;
    }
    None
}

/// Resolves a link to one of the known files, as seen from the file that
/// holds it (see `resolve_target_path`).
pub fn resolve_link_path(link: &Link, source_file: &str, known_files: &[String]) -> (r: Option<String>)
    ensures
        ostr(r) == resolve_target_path(link@.target_path, source_file@, known_files.deep_view()),
{
    let ghost known = known_files.deep_view();
    let tps = match &link.target_path {
        Some(t) => t,
        None => {
            return None;
        },
    };
    let tp = chars_of(tps.as_str());
    let mut slash: Vec<char> = Vec::new();
    slash.push('/');
    assert(slash@ =~= seq!['/']);
    if has_prefix(&tp, &slash) {
        if is_known(known_files, &tp) {
            return Some(string_of(&tp));
        }
        return None;
    }
    let url = lit3(':', '/', '/');
    if contains_chars(&tp, &url) {
        return None;
    }
    let src = chars_of(source_file);
    let d = match find_last_char(&src, '/') {
        Some(d) => d,
        None => {
            return None;
        },
    };
    let mut joined = slice_chars(&src, 0, d);
    joined.push('/');
    append_chars(&mut joined, &tp);
    assert(joined@ =~= src@.take(d as int) + seq!['/'] + tp@);
    assert(last_index_of(src@, '/') == Some(d as int));
    let ghost jv = src@.take(d as int) + seq!['/'] + tp@;
    let ghost full_s = if starts_with(tp@, seq!['.', '/']) || starts_with(tp@, seq!['.', '.', '/']) {
        normalize(jv)
    } else {
        jv
    };
    let dot_slash = lit2('.', '/');
    let dot_dot_slash = lit3('.', '.', '/');
    let relative = has_prefix(&tp, &dot_slash) || has_prefix(&tp, &dot_dot_slash);
    let full = if relative {
        normalize_path(&joined)
    } else {
        joined
    };
    assert(full@ == full_s);
    if is_known(known_files, &full) {
        return Some(string_of(&full));
    }
    let md = lit3('.', 'm', 'd');
    assert(md@ =~= md_ext());
    if has_suffix(&full, &md) {
        let without = slice_chars(&full, 0, full.len() - 3);
        assert(without@ =~= full@.take(full.len() - 3));
        if is_known(known_files, &without) {
            proof {
                assert(without@.len() != full@.len());
            }
            return Some(string_of(&without));
        }
    }
    let mut with_ext = full.clone();
    append_chars(&mut with_ext, &md);
    if is_known(known_files, &with_ext) {
        return Some(string_of(&with_ext));
    }
    let parts = split_on(&tp, '/');
    proof { crate::text::lemma_split_char_nonempty(tp@, '/'); }
    let name = &parts[parts.len() - 1];
    assert(vv(parts@)[parts.len() - 1] == name@);
    find_by_name(known_files, name)
}


// ---------------------------------------------------------------------------
// The link graph
// ---------------------------------------------------------------------------

/// A file of the graph and its neighbours.
#[derive(Debug, Clone)]
pub struct GraphNode {
    /// The file's path.
    pub path: String,
    /// Files this one links to, each once, in the order first linked.
    pub outgoing: Vec<String>,
    /// Files that link to this one, each once, in the order first seen.
    pub incoming: Vec<String>,
}

/// A graph node as a plain value.
pub struct NodeView {
    pub path: Seq<char>,
    pub outgoing: Seq<Seq<char>>,
    pub incoming: Seq<Seq<char>>,
}

impl View for GraphNode {
    type V = NodeView;

    open spec fn view(&self) -> NodeView {
        NodeView { path: self.path@, outgoing: self.outgoing.deep_view(), incoming: self.incoming.deep_view() }
    }
}

/// The views of a sequence of nodes.
pub open spec fn nodes_view(v: Seq<GraphNode>) -> Seq<NodeView> {
    v.map_values(|n: GraphNode| n@)
}

/// A resolved link between two files.
#[derive(Debug, Clone)]
pub struct GraphEdge {
    /// The file holding the link.
    pub from: String,
    /// The file the link resolves to.
    pub to: String,
    /// The form of the link.
    pub link_type: LinkKind,
    /// The line of the link.
    pub line: usize,
}

/// An edge as a plain value.
pub struct EdgeView {
    pub from: Seq<char>,
    pub to: Seq<char>,
    pub link_type: LinkKind,
    pub line: nat,
}

impl View for GraphEdge {
    type V = EdgeView;

    open spec fn view(&self) -> EdgeView {
        EdgeView { from: self.from@, to: self.to@, link_type: self.link_type, line: self.line as nat }
    }
}

/// The views of a sequence of edges.
pub open spec fn edges_view(v: Seq<GraphEdge>) -> Seq<EdgeView> {
    v.map_values(|e: GraphEdge| e@)
}

/// The paths of the files, in order.
pub open spec fn file_paths(files: Seq<(String, Vec<Link>)>) -> Seq<Seq<char>> {
    files.map_values(|f: (String, Vec<Link>)| f.0@)
}

/// The edges given by links `j..` of a file: one per link that resolves.
pub open spec fn link_edges(path: Seq<char>, links: Seq<LinkView>, known: Seq<Seq<char>>, j: int) -> Seq<EdgeView>
    decreases links.len() - j,
{
    if j < 0 || j >= links.len() {
        Seq::empty()
    } else {
        let rest = link_edges(path, links, known, j + 1);
        match resolve_target_path(links[j].target_path, path, known) {
            Some(t) => seq![EdgeView { from: path, to: t, link_type: links[j].link_type, line: links[j].source_line }]
                + rest,
            None => rest,
        }
    }
}

/// The edges of files `i..`, in file order, then link order.
pub open spec fn edges_from(files: Seq<(String, Vec<Link>)>, known: Seq<Seq<char>>, i: int) -> Seq<EdgeView>
    decreases files.len() - i,
{
    if i < 0 || i >= files.len() {
        Seq::empty()
    } else {
        link_edges(files[i].0@, links_view(files[i].1@), known, 0) + edges_from(files, known, i + 1)
    }
}

/// All edges between the given files: each link resolved among the files.
pub open spec fn edges_of(files: Seq<(String, Vec<Link>)>) -> Seq<EdgeView> {
    edges_from(files, file_paths(files), 0)
}

/// The targets of edges leaving `p`, each once, in the order first seen.
pub open spec fn targets_of(es: Seq<EdgeView>, p: Seq<char>) -> Seq<Seq<char>>
    decreases es.len(),
{
    if es.len() == 0 {
        Seq::empty()
    } else {
        let acc = targets_of(es.drop_last(), p);
        let e = es.last();
        if e.from == p && !acc.contains(e.to) {
            acc.push(e.to)
        } else {
            acc
        }
    }
}

/// The sources of edges reaching `p`, each once, in the order first seen.
pub open spec fn sources_of(es: Seq<EdgeView>, p: Seq<char>) -> Seq<Seq<char>>
    decreases es.len(),
{
    if es.len() == 0 {
        Seq::empty()
    } else {
        let acc = sources_of(es.drop_last(), p);
        let e = es.last();
        if e.to == p && !acc.contains(e.from) {
            acc.push(e.from)
        } else {
            acc
        }
    }
}

/// Whether a sequence of paths is in strictly increasing order.
pub open spec fn strictly_ordered(ps: Seq<Seq<char>>) -> bool {
    forall|i: int, j: int| 0 <= i < j < ps.len() ==> lex_lt(ps[i], ps[j])
}

/// Appends the edges of one file's links.
fn push_link_edges(out: &mut Vec<GraphEdge>, path: &String, links: &Vec<Link>, known: &[String])
    ensures
        edges_view(final(out)@) == edges_view(old(out)@) + link_edges(
            path@,
            links_view(links@),
            known.deep_view(),
            0,
        ),
{
    let ghost start = edges_view(out@);
    let ghost lv = links_view(links@);
    let mut j: usize = 0;
    while j < links.len()
        invariant
            j <= links.len(),
            lv == links_view(links@),
            edges_view(out@) + link_edges(path@, lv, known.deep_view(), j as int) == start
                + link_edges(path@, lv, known.deep_view(), 0),
        decreases links.len() - j,
    {
        let link = &links[j];
        assert(lv[j as int] == link@);
        let ghost before = edges_view(out@);
        match resolve_link_path(link, path.as_str(), known) {
            Some(t) => {
                let e = GraphEdge { from: path.clone(), to: t, link_type: link.link_type, line: link.source_line };
                out.push(e);
                assert(edges_view(out@) =~= before.push(e@));
                assert(before.push(e@) + link_edges(path@, lv, known.deep_view(), j + 1) =~= before
                    + link_edges(path@, lv, known.deep_view(), j as int));
            },
            None => {},
        }
        j += 1;
    }
    assert(edges_view(out@) + link_edges(path@, lv, known.deep_view(), j as int) =~= edges_view(out@));
}

/// The paths of the files, as strings.
fn paths_of(files: &[(String, Vec<Link>)]) -> (r: Vec<String>)
    ensures
        r.deep_view() == file_paths(files@),
{
    let mut r: Vec<String> = Vec::new();
    let mut i: usize = 0;
    while i < files.len()
        invariant
            i <= files.len(),
            r.deep_view() =~= file_paths(files@).take(i as int),
        decreases files.len() - i,
    {
        let ghost before = r.deep_view();
        let p = files[i].0.clone();
        r.push(p);
        assert(r.deep_view() =~= before.push(files@[i as int].0@));
        i += 1;
    }
    r
}

/// Every resolved link between the given files, in file order and then link
/// order, with its form and line.
pub fn collect_edges(files_with_links: &[(String, Vec<Link>)]) -> (r: Vec<GraphEdge>)
    ensures
        edges_view(r@) == edges_of(files_with_links@),
{
    let known = paths_of(files_with_links);
    let ghost kv = file_paths(files_with_links@);
    let mut out: Vec<GraphEdge> = Vec::new();
    let mut i: usize = 0;
    while i < files_with_links.len()
        invariant
            i <= files_with_links.len(),
            known.deep_view() == kv,
            kv == file_paths(files_with_links@),
            edges_view(out@) + edges_from(files_with_links@, kv, i as int) == edges_of(files_with_links@),
        decreases files_with_links.len() - i,
    {
        let ghost before = edges_view(out@);
        push_link_edges(&mut out, &files_with_links[i].0, &files_with_links[i].1, known.as_slice());
        assert(before + edges_from(files_with_links@, kv, i as int) =~= edges_view(out@) + edges_from(
            files_with_links@,
            kv,
            i + 1,
        ));
        i += 1;
    }
    assert(edges_view(out@) + edges_from(files_with_links@, kv, i as int) =~= edges_view(out@));
    out
}

/// Appends `x` unless it is already there.
fn push_new(acc: &mut Vec<Vec<char>>, x: &Vec<char>)
    ensures
        vv(final(acc)@) == if vv(old(acc)@).contains(x@) {
            vv(old(acc)@)
        } else {
            vv(old(acc)@).push(x@)
        },
{
    let ghost a = vv(acc@);
    let mut k: usize = 0;
    while k < acc.len()
        invariant
            k <= acc.len(),
            a == vv(acc@),
            forall|j: int| 0 <= j < k ==> a[j] != x@,
        decreases acc.len() - k,
    {
        if crate::text::same_chars(&acc[k], x) {
            assert(a[k as int] == x@);
            return;
        }
        k += 1;
    }
    acc.push(x.clone());
    assert(vv(acc@) =~= a.push(x@));
}

/// The targets of the edges leaving `p`, each once.
fn targets_from(edges: &Vec<GraphEdge>, p: &Vec<char>) -> (r: Vec<String>)
    ensures
        r.deep_view() == targets_of(edges_view(edges@), p@),
{
    let ghost ev = edges_view(edges@);
    let mut acc: Vec<Vec<char>> = Vec::new();
    let mut j: usize = 0;
    assert(ev.take(0) =~= Seq::<EdgeView>::empty());
    while j < edges.len()
        invariant
            j <= edges.len(),
            ev == edges_view(edges@),
            vv(acc@) == targets_of(ev.take(j as int), p@),
        decreases edges.len() - j,
    {
        assert(ev.take(j + 1).drop_last() =~= ev.take(j as int));
        assert(ev[j as int] == edges@[j as int]@);
        let from = chars_of(edges[j].from.as_str());
        if crate::text::same_chars(&from, p) {
            let to = chars_of(edges[j].to.as_str());
            push_new(&mut acc, &to);
        }
        j += 1;
    }
    assert(ev.take(edges.len() as int) =~= ev);
    strings_of(&acc)
}

/// The sources of the edges reaching `p`, each once.
fn sources_from(edges: &Vec<GraphEdge>, p: &Vec<char>) -> (r: Vec<String>)
    ensures
        r.deep_view() == sources_of(edges_view(edges@), p@),
{
    let ghost ev = edges_view(edges@);
    let mut acc: Vec<Vec<char>> = Vec::new();
    let mut j: usize = 0;
    assert(ev.take(0) =~= Seq::<EdgeView>::empty());
    while j < edges.len()
        invariant
            j <= edges.len(),
            ev == edges_view(edges@),
            vv(acc@) == sources_of(ev.take(j as int), p@),
        decreases edges.len() - j,
    {
        assert(ev.take(j + 1).drop_last() =~= ev.take(j as int));
        assert(ev[j as int] == edges@[j as int]@);
        let to = chars_of(edges[j].to.as_str());
        if crate::text::same_chars(&to, p) {
            let from = chars_of(edges[j].from.as_str());
            push_new(&mut acc, &from);
        }
        j += 1;
    }
    assert(ev.take(edges.len() as int) =~= ev);
    strings_of(&acc)
}

/// Puts `x` into an ordered vector of distinct paths, unless it is there.
fn insert_ordered(v: &mut Vec<Vec<char>>, x: &Vec<char>)
    requires
        strictly_ordered(vv(old(v)@)),
    ensures
        strictly_ordered(vv(final(v)@)),
        forall|y: Seq<char>| vv(final(v)@).contains(y) <==> (vv(old(v)@).contains(y) || y == x@),
{
    let ghost a = vv(v@);
    let mut i: usize = 0;
    while i < v.len() && lex_less(&v[i], x)
        invariant
            i <= v.len(),
            a == vv(v@),
            strictly_ordered(a),
            forall|j: int| 0 <= j < i ==> lex_lt(a[j], x@),
        decreases v.len() - i,
    {
        i += 1;
    }
    if i < v.len() && crate::text::same_chars(&v[i], x) {
        assert(a[i as int] == x@);
        return;
    }
    proof {
        if i < v.len() {
            lemma_lex_total(a[i as int], x@);
        }
    }
    v.insert(i, x.clone());
    let ghost b = vv(v@);
    assert(b =~= a.insert(i as int, x@));
    assert forall|p: int, q: int| 0 <= p < q < b.len() implies lex_lt(b[p], b[q]) by {
        if q < i {
        } else if p < i && q == i {
        } else if p < i && q > i {
            assert(b[q] == a[q - 1]);
            if q - 1 > i {
                lemma_lex_transitive(x@, a[i as int], a[q - 1]);
            }
            lemma_lex_transitive(a[p], x@, a[q - 1]);
        } else if p == i {
            assert(b[q] == a[q - 1]);
            if q - 1 > i {
                lemma_lex_transitive(x@, a[i as int], a[q - 1]);
            }
        } else {
            assert(b[p] == a[p - 1] && b[q] == a[q - 1]);
        }
    }
    assert forall|y: Seq<char>| b.contains(y) <==> (a.contains(y) || y == x@) by {
        if b.contains(y) {
            let k = choose|k: int| 0 <= k < b.len() && b[k] == y;
            if k < i {
                assert(a[k] == y);
            } else if k > i {
                assert(a[k - 1] == y);
            }
        }
        if a.contains(y) {
            let k = choose|k: int| 0 <= k < a.len() && a[k] == y;
            if k < i {
                assert(b[k] == y);
            } else {
                assert(b[k + 1] == y);
            }
        }
        if y == x@ {
            assert(b[i as int] == y);
        }
    }
}

/// The paths of the graph nodes, in order.
pub open spec fn node_paths(ns: Seq<NodeView>) -> Seq<Seq<char>> {
    ns.map_values(|n: NodeView| n.path)
}

/// Builds the link graph: one node per distinct file path, ordered by path;
/// each node lists the files it links to and the files linking to it, each
/// once, in the order the links come.
pub fn build_graph(files_with_links: &[(String, Vec<Link>)]) -> (r: Vec<GraphNode>)
    ensures
        strictly_ordered(node_paths(nodes_view(r@))),
        forall|p: Seq<char>| node_paths(nodes_view(r@)).contains(p) <==> file_paths(files_with_links@).contains(p),
        forall|k: int| 0 <= k < r.len() ==> (#[trigger] r@[k])@.outgoing == targets_of(
            edges_of(files_with_links@),
            r@[k]@.path,
        ) && r@[k]@.incoming == sources_of(edges_of(files_with_links@), r@[k]@.path),
{
    let edges = collect_edges(files_with_links);
    let ghost fp = file_paths(files_with_links@);
    let mut paths: Vec<Vec<char>> = Vec::new();
    let mut i: usize = 0;
    while i < files_with_links.len()
        invariant
            i <= files_with_links.len(),
            fp == file_paths(files_with_links@),
            strictly_ordered(vv(paths@)),
            forall|p: Seq<char>| vv(paths@).contains(p) <==> fp.take(i as int).contains(p),
        decreases files_with_links.len() - i,
    {
        let p = chars_of(files_with_links[i].0.as_str());
        let ghost old_paths = vv(paths@);
        insert_ordered(&mut paths, &p);
        assert(fp[i as int] == p@);
        assert forall|q: Seq<char>| fp.take(i + 1).contains(q) <==> (fp.take(i as int).contains(q) || q == p@) by {
            let t = fp.take(i + 1);
            let u = fp.take(i as int);
            assert(t =~= u.push(p@));
            if t.contains(q) {
                let k = choose|k: int| 0 <= k < t.len() && t[k] == q;
                if k < i {
                    assert(u[k] == q);
                }
            }
            if u.contains(q) {
                let k = choose|k: int| 0 <= k < u.len() && u[k] == q;
                assert(t[k] == q);
            }
            if q == p@ {
                assert(t[i as int] == q);
            }
        }
        assert forall|q: Seq<char>| vv(paths@).contains(q) <==> fp.take(i + 1).contains(q) by {
            assert(vv(paths@).contains(q) <==> (old_paths.contains(q) || q == p@));
            assert(old_paths.contains(q) <==> fp.take(i as int).contains(q));
            assert(fp.take(i + 1).contains(q) <==> (fp.take(i as int).contains(q) || q == p@));
        }
        i += 1;
    }
    assert(fp.take(files_with_links.len() as int) =~= fp);
    let mut nodes: Vec<GraphNode> = Vec::new();
    let mut k: usize = 0;
    while k < paths.len()
        invariant
            k <= paths.len(),
            edges_view(edges@) == edges_of(files_with_links@),
            nodes.len() == k,
            forall|j: int| 0 <= j < k ==> (#[trigger] nodes@[j])@.path == vv(paths@)[j],
            forall|j: int| 0 <= j < k ==> (#[trigger] nodes@[j])@.outgoing == targets_of(
                edges_of(files_with_links@),
                nodes@[j]@.path,
            ) && nodes@[j]@.incoming == sources_of(edges_of(files_with_links@), nodes@[j]@.path),
        decreases paths.len() - k,
    {
        let out = targets_from(&edges, &paths[k]);
        let inc = sources_from(&edges, &paths[k]);
        let node = GraphNode { path: string_of(&paths[k]), outgoing: out, incoming: inc };
        nodes.push(node);
        k += 1;
    }
    assert(node_paths(nodes_view(nodes@)) =~= vv(paths@));
    nodes
}


/// Figures about a link graph.
#[derive(Debug, Clone)]
pub struct GraphStats {
    /// Number of nodes.
    pub nodes: usize,
    /// Number of edges (outgoing entries over all nodes).
    pub edges: usize,
    /// Nodes with neither incoming nor outgoing links.
    pub orphans: usize,
    /// The node with the most incoming links, and their number.
    pub most_linked: Option<(String, usize)>,
    /// The node with the most outgoing links, and their number.
    pub most_linking: Option<(String, usize)>,
}

/// Figures about a graph as plain values.
pub struct StatsView {
    pub nodes: nat,
    pub edges: nat,
    pub orphans: nat,
    pub most_linked: Option<(Seq<char>, nat)>,
    pub most_linking: Option<(Seq<char>, nat)>,
}

/// The view of an optional path and count.
pub open spec fn best_view(b: Option<(String, usize)>) -> Option<(Seq<char>, nat)> {
    match b {
        Some((p, n)) => Some((p@, n as nat)),
        None => None,
    }
}

impl View for GraphStats {
    type V = StatsView;

    open spec fn view(&self) -> StatsView {
        StatsView {
            nodes: self.nodes as nat,
            edges: self.edges as nat,
            orphans: self.orphans as nat,
            most_linked: best_view(self.most_linked),
            most_linking: best_view(self.most_linking),
        }
    }
}

/// Sum of the outgoing counts.
pub open spec fn total_out(ns: Seq<NodeView>) -> nat
    decreases ns.len(),
{
    if ns.len() == 0 {
        0
    } else {
        total_out(ns.drop_last()) + ns.last().outgoing.len()
    }
}

/// Number of nodes with no links in or out.
pub open spec fn orphan_count(ns: Seq<NodeView>) -> nat
    decreases ns.len(),
{
    if ns.len() == 0 {
        0
    } else {
        orphan_count(ns.drop_last()) + if ns.last().incoming.len() == 0 && ns.last().outgoing.len() == 0 {
            1nat
        } else {
            0nat
        }
    }
}

/// Of the nodes with a positive count, the last one with the largest count
/// (incoming links if `incoming`, else outgoing), and that count.
pub open spec fn most_by(ns: Seq<NodeView>, incoming: bool) -> Option<(Seq<char>, nat)>
    decreases ns.len(),
{
    if ns.len() == 0 {
        None
    } else {
        let b = most_by(ns.drop_last(), incoming);
        let n = ns.last();
        let k = if incoming {
            n.incoming.len()
        } else {
            n.outgoing.len()
        };
        if k == 0 {
            b
        } else {
            match b {
                None => Some((n.path, k)),
                Some((p, bk)) => if k >= bk {
                    Some((n.path, k))
                } else {
                    b
                },
            }
        }
    }
}

/// Figures about a link graph: counts of nodes, edges and orphans, and the
/// most linked and most linking nodes (the last of equals wins).
pub fn compute_graph_stats(nodes: &[GraphNode]) -> (r: GraphStats)
    requires
        total_out(nodes_view(nodes@)) <= usize::MAX,
    ensures
        r@ == (StatsView {
            nodes: nodes.len() as nat,
            edges: total_out(nodes_view(nodes@)),
            orphans: orphan_count(nodes_view(nodes@)),
            most_linked: most_by(nodes_view(nodes@), true),
            most_linking: most_by(nodes_view(nodes@), false),
        }),
{
    let ghost nv = nodes_view(nodes@);
    let mut edges: usize = 0;
    let mut orphans: usize = 0;
    let mut most_linked: Option<(String, usize)> = None;
    let mut most_linking: Option<(String, usize)> = None;
    let mut i: usize = 0;
    assert(nv.take(0) =~= Seq::<NodeView>::empty());
    while i < nodes.len()
        invariant
            i <= nodes.len(),
            nv == nodes_view(nodes@),
            total_out(nv) <= usize::MAX,
            edges == total_out(nv.take(i as int)),
            orphans == orphan_count(nv.take(i as int)),
            orphans <= i,
            best_view(most_linked) == most_by(nv.take(i as int), true),
            best_view(most_linking) == most_by(nv.take(i as int), false),
        decreases nodes.len() - i,
    {
        let ghost t = nv.take(i + 1);
        assert(t.drop_last() =~= nv.take(i as int));
        assert(t.last() == nodes@[i as int]@);
        proof { lemma_total_out_prefix(nv, i + 1); }
        let n = &nodes[i];
        edges = edges + n.outgoing.len();
        if n.incoming.len() == 0 && n.outgoing.len() == 0 {
            orphans = orphans + 1;
        }
        let ni = n.incoming.len();
        if ni > 0 {
            let replace = match &most_linked {
                None => true,
                Some((_, bk)) => ni >= *bk,
            };
            if replace {
                most_linked = Some((n.path.clone(), ni));
            }
        }
        let no = n.outgoing.len();
        if no > 0 {
            let replace = match &most_linking {
                None => true,
                Some((_, bk)) => no >= *bk,
            };
            if replace {
                most_linking = Some((n.path.clone(), no));
            }
        }
        i += 1;
    }
    assert(nv.take(nodes.len() as int) =~= nv);
    GraphStats { nodes: nodes.len(), edges, orphans, most_linked, most_linking }
}

proof fn lemma_total_out_prefix(ns: Seq<NodeView>, i: int)
    requires
        0 <= i <= ns.len(),
    ensures
        total_out(ns.take(i)) <= total_out(ns),
    decreases ns.len() - i,
{
    if i < ns.len() {
        lemma_total_out_prefix(ns, i + 1);
        assert(ns.take(i + 1).drop_last() =~= ns.take(i));
    } else {
        assert(ns.take(i) =~= ns);
    }
}


// ---------------------------------------------------------------------------
// Graphs over frontmatter values
// ---------------------------------------------------------------------------

/// An edge between two files of a frontmatter graph.
#[derive(Debug, Clone)]
pub struct FrontmatterEdge {
    pub source: String,
    pub target: String,
    /// The value the two files share ("shared" relation); nothing for a
    /// file naming another ("ref" relation).
    pub value: Option<String>,
}

/// Figures of a frontmatter graph.
#[derive(Debug, Clone)]
pub struct FrontmatterGraphMeta {
    pub nodes: usize,
    pub edges: usize,
    pub field: String,
    pub relation: String,
}

/// An edge as plain values.
pub struct FmEdgeView {
    pub source: Seq<char>,
    pub target: Seq<char>,
    pub value: Option<Seq<char>>,
}

impl View for FrontmatterEdge {
    type V = FmEdgeView;

    open spec fn view(&self) -> FmEdgeView {
        FmEdgeView { source: self.source@, target: self.target@, value: ostr(self.value) }
    }
}

/// The views of a sequence of edges.
pub open spec fn fm_edges_view(v: Seq<FrontmatterEdge>) -> Seq<FmEdgeView> {
    v.map_values(|e: FrontmatterEdge| e@)
}

/// `s` with every trailing copy of `p` removed (`str::trim_end_matches`).
pub open spec fn trim_suffix_all(s: Seq<char>, p: Seq<char>) -> Seq<char>
    decreases s.len(),
{
    if p.len() > 0 && ends_with(s, p) {
        trim_suffix_all(s.take(s.len() - p.len()), p)
    } else {
        s
    }
}

/// The part of a path after its last `/` (all of it when it has none).
pub open spec fn base_name(s: Seq<char>) -> Seq<char> {
    match last_index_of(s, '/') {
        Some(i) => s.skip(i + 1),
        None => s,
    }
}

/// The first file (from position `i`) for which `ok` holds.
pub open spec fn first_file(files: Seq<Seq<char>>, i: int, ok: spec_fn(Seq<char>) -> bool) -> Option<Seq<char>>
    decreases files.len() - i,
{
    if i < 0 || i >= files.len() {
        None
    } else if ok(files[i]) {
        Some(files[i])
    } else {
        first_file(files, i + 1, ok)
    }
}

/// Tests on a known file against a reference, in the order tried.
pub open spec fn is_exact(r: Seq<char>) -> spec_fn(Seq<char>) -> bool {
    |f: Seq<char>| f == r
}

/// The file without trailing `.md` is the reference without them.
pub open spec fn same_stem(r: Seq<char>) -> spec_fn(Seq<char>) -> bool {
    |f: Seq<char>| trim_suffix_all(f, md_ext()) == trim_suffix_all(r, md_ext())
}

/// The file is the reference without trailing `.md`, plus `.md`.
pub open spec fn with_md(r: Seq<char>) -> spec_fn(Seq<char>) -> bool {
    |f: Seq<char>| f == trim_suffix_all(r, md_ext()) + md_ext()
}

/// The file's name without trailing `.md` is the reference's.
pub open spec fn same_base(r: Seq<char>) -> spec_fn(Seq<char>) -> bool {
    |f: Seq<char>| trim_suffix_all(base_name(f), md_ext()) == trim_suffix_all(base_name(r), md_ext())
}

/// The file a frontmatter value names: the same path, the same path up to
/// `.md` endings, or else the same file name up to `.md` endings.
pub open spec fn resolve_reference(r: Seq<char>, files: Seq<Seq<char>>) -> Option<Seq<char>> {
    match first_file(files, 0, is_exact(r)) {
        Some(f) => Some(f),
        None => match first_file(files, 0, same_stem(r)) {
            Some(f) => Some(f),
            None => match first_file(files, 0, with_md(r)) {
                Some(f) => Some(f),
                None => first_file(files, 0, same_base(r)),
            },
        },
    }
}

/// `s` with every trailing `.md` removed.
fn trim_md(s: &Vec<char>) -> (r: Vec<char>)
    ensures
        r@ == trim_suffix_all(s@, md_ext()),
{
    let md = lit3('.', 'm', 'd');
    let mut n = s.len();
    let ghost target = trim_suffix_all(s@, md_ext());
    assert(s@.take(n as int) =~= s@);
    while n >= 3 && s[n - 3] == '.' && s[n - 2] == 'm' && s[n - 1] == 'd'
        invariant
            n <= s.len(),
            md@ == md_ext(),
            trim_suffix_all(s@.take(n as int), md_ext()) == target,
        decreases n,
    {
        let ghost t = s@.take(n as int);
        assert(t.subrange(t.len() - 3, t.len() as int) =~= md_ext());
        assert(t.take(t.len() - 3) =~= s@.take(n - 3));
        n -= 3;
    }
    let ghost t = s@.take(n as int);
    proof {
        if ends_with(t, md_ext()) {
            assert(t[t.len() - 3] == t.subrange(t.len() - 3, t.len() as int)[0]);
            assert(t[t.len() - 2] == t.subrange(t.len() - 3, t.len() as int)[1]);
            assert(t[t.len() - 1] == t.subrange(t.len() - 3, t.len() as int)[2]);
        }
    }
    slice_chars(s, 0, n)
}

/// The part of a path after its last `/`.
fn base_of(s: &Vec<char>) -> (r: Vec<char>)
    ensures
        r@ == base_name(s@),
{
    match find_last_char(s, '/') {
        Some(i) => {
            let r = slice_chars(s, i + 1, s.len());
            assert(r@ =~= s@.skip(i + 1));
            r
        },
        None => s.clone(),
    }
}

/// The test tried in pass `mode` of reference resolution.
pub open spec fn pass_test(mode: u8, r: Seq<char>) -> spec_fn(Seq<char>) -> bool {
    if mode == 0 {
        is_exact(r)
    } else if mode == 1 {
        same_stem(r)
    } else if mode == 2 {
        with_md(r)
    } else {
        same_base(r)
    }
}

/// The first known file passing the test of pass `mode`.
fn first_passing(
    known_files: &[String],
    mode: u8,
    rc: &Vec<char>,
    stem: &Vec<char>,
    with_ext: &Vec<char>,
    base: &Vec<char>,
) -> (r: Option<String>)
    requires
        stem@ == trim_suffix_all(rc@, md_ext()),
        with_ext@ == trim_suffix_all(rc@, md_ext()) + md_ext(),
        base@ == trim_suffix_all(base_name(rc@), md_ext()),
    ensures
        ostr(r) == first_file(known_files.deep_view(), 0, pass_test(mode, rc@)),
{
    let ghost files = known_files.deep_view();
    let ghost ok = pass_test(mode, rc@);
    let mut i: usize = 0;
    while i < known_files.len()
        invariant
            i <= known_files.len(),
            files == known_files.deep_view(),
            files.len() == known_files.len(),
            stem@ == trim_suffix_all(rc@, md_ext()),
            with_ext@ == trim_suffix_all(rc@, md_ext()) + md_ext(),
            base@ == trim_suffix_all(base_name(rc@), md_ext()),
            ok == pass_test(mode, rc@),
            first_file(files, 0, ok) == first_file(files, i as int, ok),
        decreases known_files.len() - i,
    {
        assert(files[i as int] == known_files@[i as int]@);
        let f = chars_of(known_files[i].as_str());
        let hit = if mode == 0 {
            crate::text::same_chars(&f, rc)
        } else if mode == 1 {
            crate::text::same_chars(&trim_md(&f), stem)
        } else if mode == 2 {
            crate::text::same_chars(&f, with_ext)
        } else {
            crate::text::same_chars(&trim_md(&base_of(&f)), base)
        };
        assert(hit == ok(files[i as int]));
        if hit {
            return Some(known_files[i].clone());
        }
        i += 1;
    }
    None
}

/// Resolves a frontmatter value to one of the known files (see
/// `resolve_reference`).
pub fn resolve_file_reference(reference: &str, known_files: &[String]) -> (r: Option<String>)
    ensures
        ostr(r) == resolve_reference(reference@, known_files.deep_view()),
{
    let rc = chars_of(reference);
    let stem = trim_md(&rc);
    let mut with_ext = stem.clone();
    append_chars(&mut with_ext, &lit3('.', 'm', 'd'));
    assert(with_ext@ =~= trim_suffix_all(rc@, md_ext()) + md_ext());
    let base = trim_md(&base_of(&rc));
    let a = first_passing(known_files, 0, &rc, &stem, &with_ext, &base);
    if a.is_some() {
        return a;
    }
    let b = first_passing(known_files, 1, &rc, &stem, &with_ext, &base);
    if b.is_some() {
        return b;
    }
    let c = first_passing(known_files, 2, &rc, &stem, &with_ext, &base);
    if c.is_some() {
        return c;
    }
    first_passing(known_files, 3, &rc, &stem, &with_ext, &base)
}

/// Each value a file lists, paired with the file, file by file.
pub open spec fn occurrences(fv: Seq<(Seq<char>, Seq<Seq<char>>)>) -> Seq<(Seq<char>, Seq<char>)>
    decreases fv.len(),
{
    if fv.len() == 0 {
        Seq::empty()
    } else {
        occurrences(fv.drop_last()) + fv.last().1.map_values(|v: Seq<char>| (fv.last().0, v))
    }
}

/// The position of the group of a value.
pub open spec fn group_of(gs: Seq<(Seq<char>, Seq<Seq<char>>)>, v: Seq<char>, i: int) -> Option<int>
    decreases gs.len() - i,
{
    if i < 0 || i >= gs.len() {
        None
    } else if gs[i].0 == v {
        Some(i)
    } else {
        group_of(gs, v, i + 1)
    }
}

/// Adds one occurrence of a value in a file to the groups.
pub open spec fn add_occurrence(gs: Seq<(Seq<char>, Seq<Seq<char>>)>, f: Seq<char>, v: Seq<char>) -> Seq<
    (Seq<char>, Seq<Seq<char>>),
> {
    match group_of(gs, v, 0) {
        Some(k) => gs.update(k, (v, gs[k].1.push(f))),
        None => gs.push((v, seq![f])),
    }
}

/// The values in the order first seen, each with the files listing it
/// (a file once per listing).
pub open spec fn value_groups(occ: Seq<(Seq<char>, Seq<char>)>) -> Seq<(Seq<char>, Seq<Seq<char>>)>
    decreases occ.len(),
{
    if occ.len() == 0 {
        Seq::empty()
    } else {
        add_occurrence(value_groups(occ.drop_last()), occ.last().0, occ.last().1)
    }
}

/// The pairs `(l[i], l[j])`, `i < j`, taken in order from `(i, j)` on
/// and added to `acc` unless the pair or its reverse is there already.
pub open spec fn pair_scan(l: Seq<Seq<char>>, i: int, j: int, acc: Seq<(Seq<char>, Seq<char>)>) -> Seq<
    (Seq<char>, Seq<char>),
>
    decreases l.len() - i, l.len() - j,
{
    if i < 0 || i >= l.len() {
        acc
    } else if j >= l.len() || j <= i {
        pair_scan(l, i + 1, i + 2, acc)
    } else {
        let p = (l[i], l[j]);
        let acc2 = if acc.contains(p) || acc.contains((p.1, p.0)) {
            acc
        } else {
            acc.push(p)
        };
        pair_scan(l, i, j + 1, acc2)
    }
}

/// The "shared" edges of groups `i..`: for each value, each pair of files
/// listing it, once per pair in either direction.
pub open spec fn shared_edges(gs: Seq<(Seq<char>, Seq<Seq<char>>)>, i: int) -> Seq<FmEdgeView>
    decreases gs.len() - i,
{
    if i < 0 || i >= gs.len() {
        Seq::empty()
    } else {
        pair_scan(gs[i].1, 0, 1, Seq::empty()).map_values(
            |p: (Seq<char>, Seq<char>)| FmEdgeView { source: p.0, target: p.1, value: Some(gs[i].0) },
        ) + shared_edges(gs, i + 1)
    }
}

/// The "ref" edges of occurrences `i..`: a file to each other known file
/// that one of its values names.
pub open spec fn ref_edges(occ: Seq<(Seq<char>, Seq<char>)>, files: Seq<Seq<char>>, i: int) -> Seq<FmEdgeView>
    decreases occ.len() - i,
{
    if i < 0 || i >= occ.len() {
        Seq::empty()
    } else {
        let rest = ref_edges(occ, files, i + 1);
        match resolve_reference(occ[i].1, files) {
            Some(t) => if files.contains(t) && t != occ[i].0 {
                seq![FmEdgeView { source: occ[i].0, target: t, value: None }] + rest
            } else {
                rest
            },
            None => rest,
        }
    }
}

/// The edges of a frontmatter graph for a relation: "shared" links files
/// listing a common value, "ref" links a file to the files its values
/// name, any other relation gives no edges.
pub open spec fn frontmatter_edges_spec(fv: Seq<(Seq<char>, Seq<Seq<char>>)>, files: Seq<Seq<char>>, relation: Seq<char>) -> Seq<
    FmEdgeView,
> {
    if relation == "shared"@ {
        shared_edges(value_groups(occurrences(fv)), 0)
    } else if relation == "ref"@ {
        ref_edges(occurrences(fv), files, 0)
    } else {
        Seq::empty()
    }
}

} // verus!

verus! {

/// The plain values of files with the values they list.
pub open spec fn file_values_view(v: Seq<(String, Vec<String>)>) -> Seq<(Seq<char>, Seq<Seq<char>>)> {
    v.map_values(|e: (String, Vec<String>)| (e.0@, e.1.deep_view()))
}

/// The plain values of character-vector pairs.
pub open spec fn pairs_view(v: Seq<(Vec<char>, Vec<char>)>) -> Seq<(Seq<char>, Seq<char>)> {
    v.map_values(|p: (Vec<char>, Vec<char>)| (p.0@, p.1@))
}

/// The plain values of groups.
pub open spec fn groups_view(v: Seq<(Vec<char>, Vec<Vec<char>>)>) -> Seq<(Seq<char>, Seq<Seq<char>>)> {
    v.map_values(|g: (Vec<char>, Vec<Vec<char>>)| (g.0@, vv(g.1@)))
}

/// Each value listed, paired with its file.
fn occurrences_of(file_values: &[(String, Vec<String>)]) -> (r: Vec<(Vec<char>, Vec<char>)>)
    ensures
        pairs_view(r@) == occurrences(file_values_view(file_values@)),
{
    let ghost fv = file_values_view(file_values@);
    let mut out: Vec<(Vec<char>, Vec<char>)> = Vec::new();
    let mut i: usize = 0;
    assert(fv.take(0) =~= Seq::<(Seq<char>, Seq<Seq<char>>)>::empty());
    assert(pairs_view(out@) =~= occurrences(fv.take(0)));
    while i < file_values.len()
        invariant
            i <= file_values.len(),
            fv == file_values_view(file_values@),
            pairs_view(out@) == occurrences(fv.take(i as int)),
        decreases file_values.len() - i,
    {
        let f = chars_of(file_values[i].0.as_str());
        let vals = &file_values[i].1;
        assert(fv[i as int] == (file_values@[i as int].0@, vals.deep_view()));
        let ghost base = pairs_view(out@);
        let ghost mapped = fv[i as int].1.map_values(|v: Seq<char>| (fv[i as int].0, v));
        let mut j: usize = 0;
        assert(base + mapped.take(0) =~= base);
        while j < vals.len()
            invariant
                j <= vals.len(),
                f@ == fv[i as int].0,
                fv[i as int].1 == vals.deep_view(),
                mapped == fv[i as int].1.map_values(|v: Seq<char>| (fv[i as int].0, v)),
                pairs_view(out@) == base + mapped.take(j as int),
            decreases vals.len() - j,
        {
            let ghost before = pairs_view(out@);
            assert(vals.deep_view()[j as int] == vals@[j as int]@);
            out.push((f.clone(), chars_of(vals[j].as_str())));
            assert(pairs_view(out@) =~= before.push(mapped[j as int]));
            assert(base + mapped.take(j + 1) =~= (base + mapped.take(j as int)).push(mapped[j as int]));
            j += 1;
        }
        assert(mapped.take(vals.len() as int) =~= mapped);
        assert(fv.take(i + 1).drop_last() =~= fv.take(i as int));
        i += 1;
    }
    assert(fv.take(file_values.len() as int) =~= fv);
    out
}

/// Groups the occurrences by value (see `value_groups`).
fn groups_of(occ: &Vec<(Vec<char>, Vec<char>)>) -> (r: Vec<(Vec<char>, Vec<Vec<char>>)>)
    ensures
        groups_view(r@) == value_groups(pairs_view(occ@)),
{
    let ghost ov = pairs_view(occ@);
    let mut gs: Vec<(Vec<char>, Vec<Vec<char>>)> = Vec::new();
    let mut k: usize = 0;
    assert(groups_view(gs@) =~= value_groups(ov.take(0)));
    while k < occ.len()
        invariant
            k <= occ.len(),
            ov == pairs_view(occ@),
            groups_view(gs@) == value_groups(ov.take(k as int)),
        decreases occ.len() - k,
    {
        let ghost g0 = groups_view(gs@);
        assert(ov.take(k + 1).drop_last() =~= ov.take(k as int));
        assert(ov.take(k + 1).last() == ov[k as int]);
        let f = &occ[k].0;
        let v = &occ[k].1;
        let mut p: usize = 0;
        loop
            invariant
                p <= gs.len(),
                g0 == groups_view(gs@),
                group_of(g0, v@, 0) == group_of(g0, v@, p as int),
            ensures
                p <= gs.len(),
                g0 == groups_view(gs@),
                group_of(g0, v@, 0) == if p < gs.len() {
                    Some(p as int)
                } else {
                    None
                },
            decreases gs.len() - p,
        {
            if p >= gs.len() {
                break;
            }
            if crate::text::same_chars(&gs[p].0, v) {
                break;
            }
            p += 1;
        }
        if p < gs.len() {
            let mut entry = gs[p].1.clone();
            assert(vv(entry@) == vv(gs@[p as int].1@)) by {
                assert(vv(entry@) =~= vv(gs@[p as int].1@));
            }
            let ghost old_files = vv(entry@);
            entry.push(f.clone());
            assert(vv(entry@) =~= old_files.push(f@));
            let key = v.clone();
            gs.set(p, (key, entry));
            assert(groups_view(gs@) =~= g0.update(p as int, (v@, g0[p as int].1.push(f@))));
        } else {
            let mut files: Vec<Vec<char>> = Vec::new();
            files.push(f.clone());
            assert(vv(files@) =~= seq![f@]);
            gs.push((v.clone(), files));
            assert(groups_view(gs@) =~= g0.push((v@, seq![f@])));
        }
        k += 1;
    }
    assert(ov.take(occ.len() as int) =~= ov);
    gs
}

} // verus!

verus! {

/// Whether a pair or its reverse is among the pairs.
fn has_pair(acc: &Vec<(Vec<char>, Vec<char>)>, a: &Vec<char>, b: &Vec<char>) -> (r: bool)
    ensures
        r == (pairs_view(acc@).contains((a@, b@)) || pairs_view(acc@).contains((b@, a@))),
{
    let ghost pv = pairs_view(acc@);
    let mut k: usize = 0;
    while k < acc.len()
        invariant
            k <= acc.len(),
            pv == pairs_view(acc@),
            forall|x: int| 0 <= x < k ==> pv[x] != (a@, b@) && pv[x] != (b@, a@),
        decreases acc.len() - k,
    {
        let same = crate::text::same_chars(&acc[k].0, a) && crate::text::same_chars(&acc[k].1, b);
        let rev = crate::text::same_chars(&acc[k].0, b) && crate::text::same_chars(&acc[k].1, a);
        if same || rev {
            assert(pv[k as int] == (acc@[k as int].0@, acc@[k as int].1@));
            return true;
        }
        k += 1;
    }
    false
}

/// The pairs of a group's files, each once in either direction.
fn scan_pairs(l: &Vec<Vec<char>>) -> (r: Vec<(Vec<char>, Vec<char>)>)
    ensures
        pairs_view(r@) == pair_scan(vv(l@), 0, 1, Seq::empty()),
{
    let ghost lv = vv(l@);
    let mut acc: Vec<(Vec<char>, Vec<char>)> = Vec::new();
    let mut i: usize = 0;
    assert(pairs_view(acc@) =~= Seq::<(Seq<char>, Seq<char>)>::empty());
    while i < l.len()
        invariant
            i <= l.len(),
            lv == vv(l@),
            pair_scan(lv, i as int, i + 1, pairs_view(acc@)) == pair_scan(lv, 0, 1, Seq::empty()),
        decreases l.len() - i,
    {
        let mut j = i + 1;
        while j < l.len()
            invariant
                i < l.len(),
                i + 1 <= j <= l.len(),
                lv == vv(l@),
                pair_scan(lv, i as int, j as int, pairs_view(acc@)) == pair_scan(lv, 0, 1, Seq::empty()),
            decreases l.len() - j,
        {
            let ghost a0 = pairs_view(acc@);
            if !has_pair(&acc, &l[i], &l[j]) {
                acc.push((l[i].clone(), l[j].clone()));
                assert(pairs_view(acc@) =~= a0.push((lv[i as int], lv[j as int])));
            }
            j += 1;
        }
        i += 1;
    }
    acc
}

/// Appends the "shared" edges of one value.
fn push_group_edges(out: &mut Vec<FrontmatterEdge>, value: &Vec<char>, l: &Vec<Vec<char>>)
    ensures
        fm_edges_view(final(out)@) == fm_edges_view(old(out)@) + pair_scan(vv(l@), 0, 1, Seq::empty()).map_values(
            |p: (Seq<char>, Seq<char>)| FmEdgeView { source: p.0, target: p.1, value: Some(value@) },
        ),
{
    let pairs = scan_pairs(l);
    let ghost mapped = pair_scan(vv(l@), 0, 1, Seq::empty()).map_values(
        |p: (Seq<char>, Seq<char>)| FmEdgeView { source: p.0, target: p.1, value: Some(value@) },
    );
    let ghost base = fm_edges_view(out@);
    let mut k: usize = 0;
    assert(base + mapped.take(0) =~= base);
    while k < pairs.len()
        invariant
            k <= pairs.len(),
            pairs_view(pairs@) == pair_scan(vv(l@), 0, 1, Seq::empty()),
            mapped == pair_scan(vv(l@), 0, 1, Seq::empty()).map_values(
                |p: (Seq<char>, Seq<char>)| FmEdgeView { source: p.0, target: p.1, value: Some(value@) },
            ),
            fm_edges_view(out@) == base + mapped.take(k as int),
        decreases pairs.len() - k,
    {
        let e = FrontmatterEdge {
            source: string_of(&pairs[k].0),
            target: string_of(&pairs[k].1),
            value: Some(string_of(value)),
        };
        assert(pairs_view(pairs@)[k as int] == (pairs@[k as int].0@, pairs@[k as int].1@));
        let ghost before = fm_edges_view(out@);
        out.push(e);
        assert(fm_edges_view(out@) =~= before.push(mapped[k as int]));
        assert(base + mapped.take(k + 1) =~= (base + mapped.take(k as int)).push(mapped[k as int]));
        k += 1;
    }
    assert(mapped.take(pairs.len() as int) =~= mapped);
}

/// The edges of a frontmatter graph (see `frontmatter_edges_spec`), from
/// the values each file lists and the known files.
pub fn frontmatter_edges(file_values: &[(String, Vec<String>)], files: &[String], relation: &str) -> (r: Vec<
    FrontmatterEdge,
>)
    ensures
        fm_edges_view(r@) == frontmatter_edges_spec(file_values_view(file_values@), files.deep_view(), relation@),
{
    let rel = chars_of(relation);
    let mut out: Vec<FrontmatterEdge> = Vec::new();
    let mut shared: Vec<char> = Vec::new();
    crate::text::push_str(&mut shared, "shared");
    let mut refs: Vec<char> = Vec::new();
    crate::text::push_str(&mut refs, "ref");
    let occ = occurrences_of(file_values);
    let ghost ov = pairs_view(occ@);
    if crate::text::same_chars(&rel, &shared) {
        let gs = groups_of(&occ);
        let ghost gv = groups_view(gs@);
        let mut i: usize = 0;
        assert(fm_edges_view(out@) + shared_edges(gv, 0) =~= shared_edges(gv, 0));
        while i < gs.len()
            invariant
                i <= gs.len(),
                gv == groups_view(gs@),
                fm_edges_view(out@) + shared_edges(gv, i as int) == shared_edges(gv, 0),
            decreases gs.len() - i,
        {
            let ghost before = fm_edges_view(out@);
            assert(gv[i as int] == (gs@[i as int].0@, vv(gs@[i as int].1@)));
            push_group_edges(&mut out, &gs[i].0, &gs[i].1);
            assert(fm_edges_view(out@) + shared_edges(gv, i + 1) =~= before + shared_edges(gv, i as int));
            i += 1;
        }
        assert(fm_edges_view(out@) + shared_edges(gv, i as int) =~= fm_edges_view(out@));
    } else if crate::text::same_chars(&rel, &refs) {
        let mut i: usize = 0;
        assert(fm_edges_view(out@) + ref_edges(ov, files.deep_view(), 0) =~= ref_edges(ov, files.deep_view(), 0));
        while i < occ.len()
            invariant
                i <= occ.len(),
                ov == pairs_view(occ@),
                fm_edges_view(out@) + ref_edges(ov, files.deep_view(), i as int) == ref_edges(ov, files.deep_view(), 0),
            decreases occ.len() - i,
        {
            let ghost before = fm_edges_view(out@);
            assert(ov[i as int] == (occ@[i as int].0@, occ@[i as int].1@));
            let target = string_of(&occ[i].1);
            match resolve_file_reference(target.as_str(), files) {
                Some(t) => {
                    let tc = chars_of(t.as_str());
                    if is_known(files, &tc) && !crate::text::same_chars(&tc, &occ[i].0) {
                        let e = FrontmatterEdge { source: string_of(&occ[i].0), target: t, value: None };
                        out.push(e);
                        assert(fm_edges_view(out@) + ref_edges(ov, files.deep_view(), i + 1) =~= before + ref_edges(
                            ov,
                            files.deep_view(),
                            i as int,
                        ));
                    }
                },
                None => {},
            }
            i += 1;
        }
        assert(fm_edges_view(out@) + ref_edges(ov, files.deep_view(), i as int) =~= fm_edges_view(out@));
    }
    proof {
        if relation@ == "shared"@ {
            assert(rel@ == shared@);
        }
    }
    out
}

// ---------------------------------------------------------------------------
// The frontmatter graph of a set of files
// ---------------------------------------------------------------------------

/// A node of a frontmatter graph: a file and the fields it carries, each
/// read back from its JSON text, ordered by key.
pub struct FrontmatterNode {
    /// The file's path.
    pub id: String,
    pub fields: Vec<(String, JsonValue)>,
}

/// A graph of files linked through a frontmatter field.
pub struct FrontmatterGraph {
    pub meta: FrontmatterGraphMeta,
    /// One node per file, in the order given.
    pub nodes: Vec<FrontmatterNode>,
    pub edges: Vec<FrontmatterEdge>,
}

/// Files as plain values: each path with its text, when it could be read.
pub open spec fn read_files_view(files: Seq<(String, Option<String>)>) -> Seq<(Seq<char>, Option<Seq<char>>)> {
    files.map_values(
        |f: (String, Option<String>)|
            (
                f.0@,
                match f.1 {
                    Some(c) => Some(c@),
                    None => None,
                },
            ),
    )
}

/// The paths of the files.
pub open spec fn read_paths(fs: Seq<(Seq<char>, Option<Seq<char>>)>) -> Seq<Seq<char>> {
    fs.map_values(|f: (Seq<char>, Option<Seq<char>>)| f.0)
}

/// The strings of `field` that file `p` lists, taken from its last copy at
/// or before `j` that was read and lists them.
pub open spec fn values_of_path(fs: Seq<(Seq<char>, Option<Seq<char>>)>, field: Seq<char>, p: Seq<char>, j: int) -> Option<
    Seq<Seq<char>>,
>
    decreases j + 1,
{
    if j < 0 || j >= fs.len() {
        None
    } else {
        let here = if fs[j].0 == p {
            match fs[j].1 {
                Some(c) => field_values_spec(c, field),
                None => None,
            }
        } else {
            None
        };
        match here {
            Some(v) => Some(v),
            None => values_of_path(fs, field, p, j - 1),
        }
    }
}

/// Whether the file at `i` is the first with its path.
pub open spec fn first_copy(fs: Seq<(Seq<char>, Option<Seq<char>>)>, i: int) -> bool {
    forall|k: int| 0 <= k < i ==> (#[trigger] fs[k]).0 != fs[i].0
}

/// Each path (from position `i`, in the order first seen) that lists
/// strings of `field`, with those strings.
pub open spec fn graph_values_from(fs: Seq<(Seq<char>, Option<Seq<char>>)>, field: Seq<char>, i: int) -> Seq<
    (Seq<char>, Seq<Seq<char>>),
>
    decreases fs.len() - i,
{
    if i < 0 || i >= fs.len() {
        Seq::empty()
    } else {
        let rest = graph_values_from(fs, field, i + 1);
        if first_copy(fs, i) {
            match values_of_path(fs, field, fs[i].0, fs.len() - 1) {
                Some(v) => seq![(fs[i].0, v)] + rest,
                None => rest,
            }
        } else {
            rest
        }
    }
}

/// The text of the last copy of path `p` at or before `j` that was read.
pub open spec fn last_text_of(fs: Seq<(Seq<char>, Option<Seq<char>>)>, p: Seq<char>, j: int) -> Option<Seq<char>>
    decreases j + 1,
{
    if j < 0 || j >= fs.len() {
        None
    } else if fs[j].0 == p && fs[j].1 is Some {
        fs[j].1
    } else {
        last_text_of(fs, p, j - 1)
    }
}

/// The fields (from position `i`) a node carries: those asked for (all
/// when none are), whose JSON text reads back.
pub open spec fn carried_fields(flds: Seq<FieldView>, wanted: Seq<Seq<char>>, i: int) -> Seq<(Seq<char>, JsonValue)>
    decreases flds.len() - i,
{
    if i < 0 || i >= flds.len() {
        Seq::empty()
    } else {
        let rest = carried_fields(flds, wanted, i + 1);
        if wanted.len() == 0 || wanted.contains(flds[i].key) {
            match json_parse_of(flds[i].value_json) {
                Some(v) => seq![(flds[i].key, v)] + rest,
                None => rest,
            }
        } else {
            rest
        }
    }
}

/// The fields the node of path `p` carries, from the frontmatter of the
/// last copy of the file that was read.
pub open spec fn node_fields_of(fs: Seq<(Seq<char>, Option<Seq<char>>)>, p: Seq<char>, wanted: Seq<Seq<char>>) -> Seq<
    (Seq<char>, JsonValue),
> {
    match last_text_of(fs, p, fs.len() - 1) {
        Some(c) => match parsed_frontmatter(c) {
            Some((flds, _)) => carried_fields(flds, wanted, 0),
            None => Seq::empty(),
        },
        None => Seq::empty(),
    }
}

/// The plain values of a node's fields.
pub open spec fn node_fields_view(v: Seq<(String, JsonValue)>) -> Seq<(Seq<char>, JsonValue)> {
    v.map_values(|f: (String, JsonValue)| (f.0@, f.1))
}

/// The strings of `field` that path `p` lists (see `values_of_path`).
fn values_of_path_at(files: &[(String, Option<String>)], field: &str, p: &String) -> (r: Option<Vec<String>>)
    ensures
        opt_texts(r) == values_of_path(read_files_view(files@), field@, p@, files.len() - 1),
{
    let ghost fs = read_files_view(files@);
    let mut j = files.len();
    while j > 0
        invariant
            j <= files.len(),
            fs == read_files_view(files@),
            fs.len() == files.len(),
            values_of_path(fs, field@, p@, files.len() - 1) == values_of_path(fs, field@, p@, j - 1),
        decreases j,
    {
        assert(fs[j - 1] == (files@[j - 1].0@, match files@[j - 1].1 {
            Some(c) => Some(c@),
            None => None::<Seq<char>>,
        }));
        if crate::text::eq_str_chars(files[j - 1].0.as_str(), &chars_of(p.as_str())) {
            match &files[j - 1].1 {
                Some(c) => {
                    let v = field_string_values(c.as_str(), field);
                    if v.is_some() {
                        return v;
                    }
                },
                None => {},
            }
        }
        j -= 1;
    }
    None
}

/// Whether the file at `i` is the first with its path.
fn is_first_copy(files: &[(String, Option<String>)], i: usize) -> (b: bool)
    requires
        i < files.len(),
    ensures
        b == first_copy(read_files_view(files@), i as int),
{
    let ghost fs = read_files_view(files@);
    let pc = chars_of(files[i].0.as_str());
    let mut k: usize = 0;
    while k < i
        invariant
            k <= i < files.len(),
            fs == read_files_view(files@),
            pc@ == fs[i as int].0,
            forall|m: int| 0 <= m < k ==> (#[trigger] fs[m]).0 != fs[i as int].0,
        decreases i - k,
    {
        assert(fs[k as int].0 == files@[k as int].0@);
        if crate::text::eq_str_chars(files[k].0.as_str(), &pc) {
            return false;
        }
        k += 1;
    }
    true
}

/// Each path (in the order first seen) that lists strings of `field`.
fn graph_values(files: &[(String, Option<String>)], field: &str) -> (r: Vec<(String, Vec<String>)>)
    ensures
        file_values_view(r@) == graph_values_from(read_files_view(files@), field@, 0),
{
    let ghost fs = read_files_view(files@);
    let mut out: Vec<(String, Vec<String>)> = Vec::new();
    let mut i: usize = 0;
    while i < files.len()
        invariant
            i <= files.len(),
            fs == read_files_view(files@),
            fs.len() == files.len(),
            file_values_view(out@) + graph_values_from(fs, field@, i as int) == graph_values_from(fs, field@, 0),
        decreases files.len() - i,
    {
        let ghost before = file_values_view(out@);
        assert(fs[i as int].0 == files@[i as int].0@);
        if is_first_copy(files, i) {
            match values_of_path_at(files, field, &files[i].0) {
                Some(v) => {
                    out.push((files[i].0.clone(), v));
                    assert(file_values_view(out@) =~= before.push((fs[i as int].0, v.deep_view())));
                },
                None => {},
            }
        }
        assert(file_values_view(out@) + graph_values_from(fs, field@, i + 1) =~= before + graph_values_from(
            fs,
            field@,
            i as int,
        ));
        i += 1;
    }
    assert(file_values_view(out@) + graph_values_from(fs, field@, i as int) =~= file_values_view(out@));
    out
}

/// The text of the last copy of a path that was read.
fn last_text_at<'a>(files: &'a [(String, Option<String>)], p: &String) -> (r: Option<&'a String>)
    ensures
        match r {
            Some(c) => last_text_of(read_files_view(files@), p@, files.len() - 1) == Some(c@),
            None => last_text_of(read_files_view(files@), p@, files.len() - 1) is None,
        },
{
    let ghost fs = read_files_view(files@);
    let pc = chars_of(p.as_str());
    let mut j = files.len();
    while j > 0
        invariant
            j <= files.len(),
            fs == read_files_view(files@),
            fs.len() == files.len(),
            pc@ == p@,
            last_text_of(fs, p@, files.len() - 1) == last_text_of(fs, p@, j - 1),
        decreases j,
    {
        assert(fs[j - 1] == (files@[j - 1].0@, match files@[j - 1].1 {
            Some(c) => Some(c@),
            None => None::<Seq<char>>,
        }));
        if crate::text::eq_str_chars(files[j - 1].0.as_str(), &pc) {
            match &files[j - 1].1 {
                Some(c) => {
                    return Some(c);
                },
                None => {},
            }
        }
        j -= 1;
    }
    None
}

/// The fields a node carries (see `carried_fields`).
fn carried_fields_of(data: &FrontmatterData, wanted: &[String]) -> (r: Vec<(String, JsonValue)>)
    ensures
        node_fields_view(r@) == carried_fields(fields_view(data.fields@), wanted.deep_view(), 0),
{
    let ghost flds = fields_view(data.fields@);
    let mut out: Vec<(String, JsonValue)> = Vec::new();
    let mut i: usize = 0;
    while i < data.fields.len()
        invariant
            i <= data.fields.len(),
            flds == fields_view(data.fields@),
            flds.len() == data.fields.len(),
            node_fields_view(out@) + carried_fields(flds, wanted.deep_view(), i as int) == carried_fields(
                flds,
                wanted.deep_view(),
                0,
            ),
        decreases data.fields.len() - i,
    {
        let ghost before = node_fields_view(out@);
        assert(flds[i as int] == data.fields@[i as int]@);
        let k = chars_of(data.fields[i].key.as_str());
        if wanted.len() == 0 || is_known(wanted, &k) {
            match parse_json(data.fields[i].value_json.as_str()) {
                Some(v) => {
                    out.push((data.fields[i].key.clone(), v));
                    assert(node_fields_view(out@) =~= before.push((flds[i as int].key, v)));
                },
                None => {},
            }
        }
        assert(node_fields_view(out@) + carried_fields(flds, wanted.deep_view(), i + 1) =~= before + carried_fields(
            flds,
            wanted.deep_view(),
            i as int,
        ));
        i += 1;
    }
    assert(node_fields_view(out@) + carried_fields(flds, wanted.deep_view(), i as int) =~= node_fields_view(out@));
    out
}

/// The node of one file.
fn node_for(files: &[(String, Option<String>)], i: usize, wanted: &[String]) -> (r: FrontmatterNode)
    requires
        i < files.len(),
    ensures
        r.id@ == read_files_view(files@)[i as int].0,
        node_fields_view(r.fields@) == node_fields_of(
            read_files_view(files@),
            read_files_view(files@)[i as int].0,
            wanted.deep_view(),
        ),
{
    let ghost fs = read_files_view(files@);
    let p = &files[i].0;
    let fields = match last_text_at(files, p) {
        Some(c) => match crate::frontmatter::parse_frontmatter(c.as_str()) {
            Some(d) => carried_fields_of(&d, wanted),
            None => Vec::new(),
        },
        None => Vec::new(),
    };
    assert(node_fields_view(fields@) =~= node_fields_of(fs, fs[i as int].0, wanted.deep_view()));
    FrontmatterNode { id: p.clone(), fields }
}

/// The paths of the files, in order.
fn read_paths_of(files: &[(String, Option<String>)]) -> (r: Vec<String>)
    ensures
        r.deep_view() == read_paths(read_files_view(files@)),
{
    let mut out: Vec<String> = Vec::new();
    let mut i: usize = 0;
    while i < files.len()
        invariant
            i <= files.len(),
            out.deep_view() == read_paths(read_files_view(files@)).take(i as int),
        decreases files.len() - i,
    {
        let ghost before = out.deep_view();
        out.push(files[i].0.clone());
        assert(read_paths(read_files_view(files@))[i as int] == files@[i as int].0@);
        assert(out.deep_view() =~= before.push(files@[i as int].0@));
        assert(out.deep_view() =~= read_paths(read_files_view(files@)).take(i + 1));
        i += 1;
    }
    assert(read_paths(read_files_view(files@)).take(i as int) =~= read_paths(read_files_view(files@)));
    out
}

/// Builds the graph of files linked through a frontmatter field: one node
/// per file (with the fields asked for, all when none are), and the edges
/// of the relation ("shared" values or "ref" references, see
/// `frontmatter_edges`) between the paths that list strings of the field.
/// Each file comes with its text, when it could be read; a path given more
/// than once is read from its last copy.
pub fn build_frontmatter_graph(
    files: &[(String, Option<String>)],
    field: &str,
    relation: &str,
    include_fields: &[String],
) -> (r: FrontmatterGraph)
    ensures
        r.nodes.len() == files.len(),
        forall|i: int|
            0 <= i < files.len() ==> (#[trigger] r.nodes@[i]).id@ == read_files_view(files@)[i].0 && node_fields_view(
                r.nodes@[i].fields@,
            ) == node_fields_of(read_files_view(files@), read_files_view(files@)[i].0, include_fields.deep_view()),
        fm_edges_view(r.edges@) == frontmatter_edges_spec(
            graph_values_from(read_files_view(files@), field@, 0),
            read_paths(read_files_view(files@)),
            relation@,
        ),
        r.meta.nodes == files.len(),
        r.meta.edges == r.edges.len(),
        r.meta.field@ == field@,
        r.meta.relation@ == relation@,
{
    let values = graph_values(files, field);
    let paths = read_paths_of(files);
    let edges = frontmatter_edges(&values, &paths, relation);
    let mut nodes: Vec<FrontmatterNode> = Vec::new();
    let mut i: usize = 0;
    while i < files.len()
        invariant
            i <= files.len(),
            nodes.len() == i,
            forall|k: int|
                0 <= k < i ==> (#[trigger] nodes@[k]).id@ == read_files_view(files@)[k].0 && node_fields_view(
                    nodes@[k].fields@,
                ) == node_fields_of(read_files_view(files@), read_files_view(files@)[k].0, include_fields.deep_view()),
        decreases files.len() - i,
    {
        let n = node_for(files, i, include_fields);
        nodes.push(n);
        i += 1;
    }
    let meta = FrontmatterGraphMeta {
        nodes: nodes.len(),
        edges: edges.len(),
        field: string_of(&chars_of(field)),
        relation: string_of(&chars_of(relation)),
    };
    FrontmatterGraph { meta, nodes, edges }
}

// ---------------------------------------------------------------------------
// Laws of the link graph
// ---------------------------------------------------------------------------

/// Whether some edge of the list goes from `p` to `q`.
pub open spec fn has_edge(es: Seq<EdgeView>, p: Seq<char>, q: Seq<char>) -> bool {
    exists|i: int| 0 <= i < es.len() && (#[trigger] es[i]).from == p && es[i].to == q
}

proof fn lemma_has_edge_last(es: Seq<EdgeView>, p: Seq<char>, q: Seq<char>)
    requires
        es.len() > 0,
    ensures
        has_edge(es, p, q) <==> (has_edge(es.drop_last(), p, q) || (es.last().from == p && es.last().to == q)),
{
    let d = es.drop_last();
    if has_edge(es, p, q) {
        let i = choose|i: int| 0 <= i < es.len() && (#[trigger] es[i]).from == p && es[i].to == q;
        if i < es.len() - 1 {
            assert(d[i] == es[i]);
        }
    }
    if has_edge(d, p, q) {
        let i = choose|i: int| 0 <= i < d.len() && (#[trigger] d[i]).from == p && d[i].to == q;
        assert(es[i] == d[i]);
    }
    if es.last().from == p && es.last().to == q {
        assert(es[es.len() - 1] == es.last());
    }
}

proof fn lemma_targets_of_edges(es: Seq<EdgeView>, p: Seq<char>, q: Seq<char>)
    ensures
        targets_of(es, p).contains(q) <==> has_edge(es, p, q),
    decreases es.len(),
{
    if es.len() > 0 {
        lemma_targets_of_edges(es.drop_last(), p, q);
        lemma_has_edge_last(es, p, q);
        let acc = targets_of(es.drop_last(), p);
        let e = es.last();
        if e.from == p && !acc.contains(e.to) {
            assert(acc.push(e.to)[acc.len() as int] == e.to);
            assert(acc.push(e.to).contains(q) <==> (acc.contains(q) || q == e.to)) by {
                if acc.push(e.to).contains(q) {
                    let k = choose|k: int| 0 <= k < acc.len() + 1 && acc.push(e.to)[k] == q;
                    if k < acc.len() {
                        assert(acc[k] == q);
                    }
                }
                if acc.contains(q) {
                    let k = choose|k: int| 0 <= k < acc.len() && acc[k] == q;
                    assert(acc.push(e.to)[k] == q);
                }
            }
        }
    }
}

proof fn lemma_sources_of_edges(es: Seq<EdgeView>, p: Seq<char>, q: Seq<char>)
    ensures
        sources_of(es, q).contains(p) <==> has_edge(es, p, q),
    decreases es.len(),
{
    if es.len() > 0 {
        lemma_sources_of_edges(es.drop_last(), p, q);
        lemma_has_edge_last(es, p, q);
        let acc = sources_of(es.drop_last(), q);
        let e = es.last();
        if e.to == q && !acc.contains(e.from) {
            assert(acc.push(e.from)[acc.len() as int] == e.from);
            assert(acc.push(e.from).contains(p) <==> (acc.contains(p) || p == e.from)) by {
                if acc.push(e.from).contains(p) {
                    let k = choose|k: int| 0 <= k < acc.len() + 1 && acc.push(e.from)[k] == p;
                    if k < acc.len() {
                        assert(acc[k] == p);
                    }
                }
                if acc.contains(p) {
                    let k = choose|k: int| 0 <= k < acc.len() && acc[k] == p;
                    assert(acc.push(e.from)[k] == p);
                }
            }
        }
    }
}

/// A path segment that names a directory or file: not empty, without `/`,
/// and neither `.` nor `..`.
pub open spec fn plain_segment(x: Seq<char>) -> bool {
    x.len() > 0 && !x.contains('/') && x != seq!['.'] && x != seq!['.', '.']
}

/// Plain segments after an empty one normalize to themselves.
proof fn lemma_norm_plain(dirs: Seq<Seq<char>>)
    requires
        forall|i: int| 0 <= i < dirs.len() ==> plain_segment(#[trigger] dirs[i]),
    ensures
        norm_parts(seq![Seq::<char>::empty()] + dirs) == dirs,
    decreases dirs.len(),
{
    let q = seq![Seq::<char>::empty()] + dirs;
    if dirs.len() == 0 {
        assert(q =~= seq![Seq::<char>::empty()]);
        assert(q.drop_last() =~= Seq::<Seq<char>>::empty());
        assert(q.last() == Seq::<char>::empty());
        assert(norm_parts(q.drop_last()) == Seq::<Seq<char>>::empty());
        assert(dirs =~= Seq::<Seq<char>>::empty());
    } else {
        let d = dirs.drop_last();
        assert forall|i: int| 0 <= i < d.len() implies plain_segment(#[trigger] d[i]) by {
            assert(d[i] == dirs[i]);
        }
        lemma_norm_plain(d);
        assert(q.drop_last() =~= seq![Seq::<char>::empty()] + d);
        assert(q.last() == dirs.last());
        assert(dirs.last() == dirs[dirs.len() - 1]);
        assert(plain_segment(dirs[dirs.len() - 1]));
        assert(norm_parts(q) == norm_parts(q.drop_last()).push(q.last()));
        assert(d.push(dirs.last()) =~= dirs);
    }
}

/// A relative link target starting with `../` or `./` resolves to the
/// source's directory with the target joined on and the dot segments
/// resolved, whenever that path is a known file: from `/a/b/s.md`, the
/// target `../x.md` names `/a/x.md` and `./x.md` names `/a/b/x.md`.
pub proof fn relative_targets_resolve_through_dot_segments(
    dirs: Seq<Seq<char>>,
    f: Seq<char>,
    x: Seq<char>,
    up: bool,
    known: Seq<Seq<char>>,
)
    requires
        dirs.len() > 0,
        forall|i: int| 0 <= i < dirs.len() ==> plain_segment(#[trigger] dirs[i]),
        !f.contains('/'),
        plain_segment(x),
    ensures
        ({
            let source = seq!['/'] + join(dirs, seq!['/']) + seq!['/'] + f;
            let target = if up {
                seq!['.', '.', '/'] + x
            } else {
                seq!['.', '/'] + x
            };
            let expected = seq!['/'] + join(
                if up {
                    dirs.drop_last().push(x)
                } else {
                    dirs.push(x)
                },
                seq!['/'],
            );
            known.contains(expected) ==> resolve_target_path(Some(target), source, known) == Some(expected)
        }),
{
    let dd = join(dirs, seq!['/']);
    let source = seq!['/'] + dd + seq!['/'] + f;
    let m: Seq<char> = if up {
        seq!['.', '.']
    } else {
        seq!['.']
    };
    let target = m + seq!['/'] + x;
    assert(target == if up {
        seq!['.', '.', '/'] + x
    } else {
        seq!['.', '/'] + x
    });
    let norm = if up {
        dirs.drop_last().push(x)
    } else {
        dirs.push(x)
    };
    let expected = seq!['/'] + join(norm, seq!['/']);
    if known.contains(expected) {
        // The source's directory ends at its last `/`.
        let pos: int = 1 + dd.len() as int;
        assert(source[pos] == '/');
        assert forall|j: int| pos < j < source.len() implies source[j] != '/' by {
            assert(source[j] == f[j - pos - 1]);
            if source[j] == '/' {
                assert(f.contains('/'));
            }
        }
        let li = choose|i: int| 0 <= i < source.len() && source[i] == '/' && forall|j: int|
            i < j < source.len() ==> source[j] != '/';
        assert(last_index_of(source, '/') == Some(li));
        assert(li == pos) by {
            if li < pos {
                assert(source[pos] != '/');
            }
            if li > pos {
                assert(source[li] != '/');
            }
        }
        assert(source.take(pos) =~= seq!['/'] + dd);
        // The target is relative and no URL.
        assert(!starts_with(target, seq!['/'])) by {
            assert(target[0] == '.');
            if starts_with(target, seq!['/']) {
                assert(target.subrange(0, 1)[0] == target[0]);
            }
        }
        assert forall|k: int| 0 <= k < target.len() && target[k] == '/' implies k == m.len() by {
            if k > m.len() {
                assert(x[k - m.len() - 1] == '/');
                assert(x.contains('/'));
            }
        }
        assert(!contains(target, seq![':', '/', '/'])) by {
            if contains(target, seq![':', '/', '/']) {
                let i = choose|i: int| occurs_at(target, seq![':', '/', '/'], i);
                assert(target.subrange(i, i + 3)[1] == '/');
                assert(target.subrange(i, i + 3)[2] == '/');
                assert(target[i + 1] == '/');
                assert(target[i + 2] == '/');
            }
        }
        assert(starts_with(target, seq!['.', '/']) || starts_with(target, seq!['.', '.', '/'])) by {
            if up {
                assert(target.subrange(0, 3) =~= seq!['.', '.', '/']);
            } else {
                assert(target.subrange(0, 2) =~= seq!['.', '/']);
            }
        }
        let joined = source.take(pos) + seq!['/'] + target;
        // Its parts.
        let e = seq![Seq::<char>::empty()];
        let parts = (e + dirs).push(m).push(x);
        crate::text::lemma_join_append(e, dirs, seq!['/']);
        assert(join(e, seq!['/']) == Seq::<char>::empty());
        assert(join(seq![m, x], seq!['/']) == m + seq!['/'] + x) by {
            assert(seq![m, x].drop_last() =~= seq![m]);
            assert(join(seq![m], seq!['/']) == m);
        }
        crate::text::lemma_join_append(e + dirs, seq![m, x], seq!['/']);
        assert(parts =~= (e + dirs) + seq![m, x]);
        assert(join(parts, seq!['/']) =~= joined);
        assert forall|i: int| 0 <= i < parts.len() implies !(#[trigger] parts[i]).contains('/') by {
            if i == 0 {
                assert(parts[0] =~= Seq::<char>::empty());
            } else if i <= dirs.len() {
                assert(parts[i] == dirs[i - 1]);
            } else if i == dirs.len() + 1 {
                assert(parts[i] == m);
            } else {
                assert(parts[i] == x);
            }
        }
        crate::text::lemma_split_join(parts, '/');
        // Resolved.
        lemma_norm_plain(dirs);
        assert(parts.drop_last() == (e + dirs).push(m));
        assert(parts.last() == x);
        assert((e + dirs).push(m).drop_last() == e + dirs);
        assert((e + dirs).push(m).last() == m);
        assert(x != seq!['.'] && x != seq!['.', '.']);
        if up {
            assert(m != seq!['.']) by {
                assert(m.len() != 1);
            }
            assert(norm_parts((e + dirs).push(m)) == dirs.drop_last());
        } else {
            assert(norm_parts((e + dirs).push(m)) == dirs);
        }
        assert(norm_parts(parts) == norm);
        assert(normalize(joined) == expected);
    }
}

/// An absolute link target names itself: it resolves to itself when it is a
/// known file, and to nothing otherwise.
pub proof fn absolute_targets_resolve_to_themselves(t: Seq<char>, source: Seq<char>, known: Seq<Seq<char>>)
    requires
        t.len() > 0,
        t[0] == '/',
    ensures
        resolve_target_path(Some(t), source, known) == if known.contains(t) {
            Some(t)
        } else {
            None::<Seq<char>>
        },
{
    assert(t.subrange(0, 1) =~= seq!['/']);
}

/// A plain file name as a link target is looked for beside the source
/// file first: from `/a/b/s.md`, the target `x.md` names `/a/b/x.md` when
/// that is a known file.
pub proof fn plain_targets_resolve_beside_the_source(
    dirs: Seq<Seq<char>>,
    f: Seq<char>,
    x: Seq<char>,
    known: Seq<Seq<char>>,
)
    requires
        dirs.len() > 0,
        !f.contains('/'),
        plain_segment(x),
    ensures
        ({
            let source = seq!['/'] + join(dirs, seq!['/']) + seq!['/'] + f;
            let expected = seq!['/'] + join(dirs, seq!['/']) + seq!['/'] + x;
            known.contains(expected) ==> resolve_target_path(Some(x), source, known) == Some(expected)
        }),
{
    let dd = join(dirs, seq!['/']);
    let source = seq!['/'] + dd + seq!['/'] + f;
    let expected = seq!['/'] + dd + seq!['/'] + x;
    if known.contains(expected) {
        let pos: int = 1 + dd.len() as int;
        assert(source[pos] == '/');
        assert forall|j: int| pos < j < source.len() implies source[j] != '/' by {
            assert(source[j] == f[j - pos - 1]);
            if source[j] == '/' {
                assert(f.contains('/'));
            }
        }
        let li = choose|i: int| 0 <= i < source.len() && source[i] == '/' && forall|j: int|
            i < j < source.len() ==> source[j] != '/';
        assert(last_index_of(source, '/') == Some(li));
        assert(li == pos) by {
            if li < pos {
                assert(source[pos] != '/');
            }
            if li > pos {
                assert(source[li] != '/');
            }
        }
        assert(source.take(pos) =~= seq!['/'] + dd);
        assert(!starts_with(x, seq!['/'])) by {
            if starts_with(x, seq!['/']) {
                assert(x.subrange(0, 1)[0] == x[0]);
                assert(x.contains('/'));
            }
        }
        assert(!contains(x, seq![':', '/', '/'])) by {
            if contains(x, seq![':', '/', '/']) {
                let i = choose|i: int| occurs_at(x, seq![':', '/', '/'], i);
                assert(x.subrange(i, i + 3)[1] == x[i + 1]);
                assert(x.contains('/'));
            }
        }
        assert(!starts_with(x, seq!['.', '/'])) by {
            if starts_with(x, seq!['.', '/']) {
                assert(x.subrange(0, 2)[1] == x[1]);
                assert(x.contains('/'));
            }
        }
        assert(!starts_with(x, seq!['.', '.', '/'])) by {
            if starts_with(x, seq!['.', '.', '/']) {
                assert(x.subrange(0, 3)[2] == x[2]);
                assert(x.contains('/'));
            }
        }
        assert(source.take(pos) + seq!['/'] + x == expected);
    }
}

/// What `first_with_name` finds is a known file that carries the name.
proof fn lemma_first_with_name_found(known: Seq<Seq<char>>, name: Seq<char>, i: int)
    ensures
        first_with_name(known, name, i) matches Some(k) ==> known.contains(k) && has_name(k, name),
    decreases known.len() - i,
{
    if 0 <= i < known.len() {
        if has_name(known[i], name) {
            assert(known[i] == known[i]);
        } else {
            lemma_first_with_name_found(known, name, i + 1);
        }
    }
}

/// A link resolves only to one of the known files.
pub proof fn links_resolve_to_known_files(target: Option<Seq<char>>, source: Seq<char>, known: Seq<Seq<char>>)
    ensures
        resolve_target_path(target, source, known) matches Some(p) ==> known.contains(p),
{
    if let Some(tp) = target {
        lemma_first_with_name_found(known, split_char(tp, '/').last(), 0);
    }
}

/// Links in the graph are seen from both ends: a file lists `q` among its
/// outgoing links exactly when `q` lists that file among its incoming links,
/// and both hold exactly when some link of the file resolves to `q`.
pub proof fn graph_links_are_mutual(files: Seq<(String, Vec<Link>)>, p: Seq<char>, q: Seq<char>)
    ensures
        targets_of(edges_of(files), p).contains(q) <==> sources_of(edges_of(files), q).contains(p),
        targets_of(edges_of(files), p).contains(q) <==> has_edge(edges_of(files), p, q),
{
    lemma_targets_of_edges(edges_of(files), p, q);
    lemma_sources_of_edges(edges_of(files), p, q);
}

proof fn lemma_resolved_is_known(target: Option<Seq<char>>, source: Seq<char>, known: Seq<Seq<char>>)
    ensures
        resolve_target_path(target, source, known) matches Some(k) ==> known.contains(k),
{
    if let Some(tp) = target {
        lemma_first_with_name_in(known, split_char(tp, '/').last(), 0);
    }
}

proof fn lemma_link_edges_ends(path: Seq<char>, links: Seq<LinkView>, known: Seq<Seq<char>>, j: int)
    requires
        0 <= j,
    ensures
        forall|k: int|
            0 <= k < link_edges(path, links, known, j).len() ==> (#[trigger] link_edges(path, links, known, j)[k]).from
                == path && known.contains(link_edges(path, links, known, j)[k].to),
    decreases links.len() - j,
{
    if j < links.len() {
        lemma_link_edges_ends(path, links, known, j + 1);
        lemma_resolved_is_known(links[j].target_path, path, known);
        let rest = link_edges(path, links, known, j + 1);
        let all = link_edges(path, links, known, j);
        assert forall|k: int| 0 <= k < all.len() implies (#[trigger] all[k]).from == path && known.contains(
            all[k].to,
        ) by {
            match resolve_target_path(links[j].target_path, path, known) {
                Some(t) => {
                    if k > 0 {
                        assert(all[k] == rest[k - 1]);
                    }
                },
                None => {
                    assert(all[k] == rest[k]);
                },
            }
        }
    }
}

proof fn lemma_edges_from_ends(files: Seq<(String, Vec<Link>)>, known: Seq<Seq<char>>, i: int)
    requires
        0 <= i,
    ensures
        forall|k: int|
            0 <= k < edges_from(files, known, i).len() ==> file_paths(files).contains(
                (#[trigger] edges_from(files, known, i)[k]).from,
            ) && known.contains(edges_from(files, known, i)[k].to),
    decreases files.len() - i,
{
    if i < files.len() {
        lemma_edges_from_ends(files, known, i + 1);
        let here = link_edges(files[i].0@, links_view(files[i].1@), known, 0);
        lemma_link_edges_ends(files[i].0@, links_view(files[i].1@), known, 0);
        let rest = edges_from(files, known, i + 1);
        let all = edges_from(files, known, i);
        assert(file_paths(files)[i] == files[i].0@);
        assert forall|k: int| 0 <= k < all.len() implies file_paths(files).contains((#[trigger] all[k]).from)
            && known.contains(all[k].to) by {
            if k < here.len() {
                assert(all[k] == here[k]);
            } else {
                assert(all[k] == rest[k - here.len()]);
            }
        }
    }
}

/// The graph holds only the given files: every file a node links to, and
/// every file that links to a node, is itself one of the files.
pub proof fn graph_edges_stay_among_files(files: Seq<(String, Vec<Link>)>, p: Seq<char>, q: Seq<char>)
    ensures
        targets_of(edges_of(files), p).contains(q) ==> file_paths(files).contains(q),
        sources_of(edges_of(files), q).contains(p) ==> file_paths(files).contains(p),
{
    let es = edges_of(files);
    lemma_targets_of_edges(es, p, q);
    lemma_sources_of_edges(es, p, q);
    lemma_edges_from_ends(files, file_paths(files), 0);
    if has_edge(es, p, q) {
        let i = choose|i: int| 0 <= i < es.len() && (#[trigger] es[i]).from == p && es[i].to == q;
        assert(file_paths(files).contains(es[i].from));
    }
}

proof fn lemma_targets_distinct(es: Seq<EdgeView>, p: Seq<char>)
    ensures
        targets_of(es, p).no_duplicates(),
    decreases es.len(),
{
    if es.len() > 0 {
        lemma_targets_distinct(es.drop_last(), p);
        let acc = targets_of(es.drop_last(), p);
        let e = es.last();
        if e.from == p && !acc.contains(e.to) {
            let r = acc.push(e.to);
            assert forall|i: int, j: int| 0 <= i < r.len() && 0 <= j < r.len() && i != j implies r[i] != r[j] by {
                if i < acc.len() && j < acc.len() {
                    assert(r[i] == acc[i] && r[j] == acc[j]);
                } else if i < acc.len() {
                    assert(r[i] == acc[i]);
                } else {
                    assert(r[j] == acc[j]);
                }
            }
        }
    }
}

proof fn lemma_sources_distinct(es: Seq<EdgeView>, q: Seq<char>)
    ensures
        sources_of(es, q).no_duplicates(),
    decreases es.len(),
{
    if es.len() > 0 {
        lemma_sources_distinct(es.drop_last(), q);
        let acc = sources_of(es.drop_last(), q);
        let e = es.last();
        if e.to == q && !acc.contains(e.from) {
            let r = acc.push(e.from);
            assert forall|i: int, j: int| 0 <= i < r.len() && 0 <= j < r.len() && i != j implies r[i] != r[j] by {
                if i < acc.len() && j < acc.len() {
                    assert(r[i] == acc[i] && r[j] == acc[j]);
                } else if i < acc.len() {
                    assert(r[i] == acc[i]);
                } else {
                    assert(r[j] == acc[j]);
                }
            }
        }
    }
}

/// A node lists each neighbour once, however many links lead there.
pub proof fn graph_neighbours_listed_once(files: Seq<(String, Vec<Link>)>, p: Seq<char>)
    ensures
        targets_of(edges_of(files), p).no_duplicates(),
        sources_of(edges_of(files), p).no_duplicates(),
{
    lemma_targets_distinct(edges_of(files), p);
    lemma_sources_distinct(edges_of(files), p);
}

/// How many links a node has in one direction.
pub open spec fn link_count(n: NodeView, incoming: bool) -> nat {
    if incoming {
        n.incoming.len()
    } else {
        n.outgoing.len()
    }
}

/// The node chosen as most linked (or most linking) has the largest count of
/// all, a positive one, and no later node has as many; there is none exactly
/// when no node has a link in that direction.
pub proof fn most_linked_is_largest(ns: Seq<NodeView>, incoming: bool)
    ensures
        most_by(ns, incoming) is None <==> forall|j: int| 0 <= j < ns.len() ==> link_count(#[trigger] ns[j], incoming)
            == 0,
        most_by(ns, incoming) matches Some((p, k)) ==> exists|i: int|
            0 <= i < ns.len() && (#[trigger] ns[i]).path == p && link_count(ns[i], incoming) == k && k > 0
                && (forall|j: int| 0 <= j < ns.len() ==> link_count(#[trigger] ns[j], incoming) <= k) && (forall|j: int|
                i < j < ns.len() ==> link_count(#[trigger] ns[j], incoming) < k),
    decreases ns.len(),
{
    if ns.len() > 0 {
        let d = ns.drop_last();
        most_linked_is_largest(d, incoming);
        let n = ns.last();
        let last = ns.len() - 1;
        assert(ns[last] == n);
        assert forall|j: int| 0 <= j < d.len() implies d[j] == ns[j] by {}
        let k = link_count(n, incoming);
        match most_by(d, incoming) {
            None => {
                if k == 0 {
                    assert forall|j: int| 0 <= j < ns.len() implies link_count(#[trigger] ns[j], incoming) == 0 by {
                        if j < last {
                            assert(d[j] == ns[j]);
                        }
                    }
                } else {
                    assert forall|j: int| 0 <= j < ns.len() implies link_count(#[trigger] ns[j], incoming) <= k by {
                        if j < last {
                            assert(d[j] == ns[j]);
                        }
                    }
                    assert(link_count(ns[last], incoming) > 0);
                }
            },
            Some((bp, bk)) => {
                let i = choose|i: int|
                    0 <= i < d.len() && (#[trigger] d[i]).path == bp && link_count(d[i], incoming) == bk && bk > 0
                        && (forall|j: int| 0 <= j < d.len() ==> link_count(#[trigger] d[j], incoming) <= bk) && (
                    forall|j: int| i < j < d.len() ==> link_count(#[trigger] d[j], incoming) < bk);
                assert(d[i] == ns[i]);
                assert(link_count(d[i], incoming) > 0);
                if k > 0 && k >= bk {
                    assert forall|j: int| 0 <= j < ns.len() implies link_count(#[trigger] ns[j], incoming) <= k by {
                        if j < last {
                            assert(d[j] == ns[j]);
                        }
                    }
                    assert(exists|i: int|
                        0 <= i < ns.len() && (#[trigger] ns[i]).path == n.path && link_count(ns[i], incoming) == k
                            && k > 0 && (forall|j: int| 0 <= j < ns.len() ==> link_count(#[trigger] ns[j], incoming) <= k)
                            && (forall|j: int| i < j < ns.len() ==> link_count(#[trigger] ns[j], incoming) < k)) by {
                        assert(ns[last].path == n.path);
                    }
                } else {
                    assert forall|j: int| 0 <= j < ns.len() implies link_count(#[trigger] ns[j], incoming) <= bk by {
                        if j < last {
                            assert(d[j] == ns[j]);
                        }
                    }
                    assert forall|j: int| i < j < ns.len() implies link_count(#[trigger] ns[j], incoming) < bk by {
                        if j < last {
                            assert(d[j] == ns[j]);
                        }
                    }
                    assert(ns[i].path == bp);
                }
                assert(link_count(ns[i], incoming) > 0);
            },
        }
    }
}

} // verus!
