//! Editing whole documents: renumbering numbered headings.
//!
//! A numbered heading is a line `#{1,6} <number> <title>`, the number being
//! digits with dot-separated groups (`2`, `1.3`, `4.1.2`); other lines are
//! kept as they are.

use vstd::prelude::*;
use vstd::string::StringSliceAdditionalSpecFns;
use crate::markdown::{cmark_events, document_of, parse_document, sections_view, Section, SectionView};
use crate::section::{
    SectionError, SectionErrorView, delete_section, delete_spec, digit_run, digit_run_at, insert_section,
    insert_spec, parse_address, parse_section_address, decimal_char, replace_content_spec, replace_section_content,
    resolve_section_address, resolve_target, text_result_view,
};
use crate::text::{
    chars_of, dec, ends_with, starts_with, is_whitespace, is_ws, join, join_chars, lines_of, push_decimal,
    push_repeat, repeat_char, string_of, text_lines, vv, append_chars, split_char,
};

verus! {

broadcast use vstd::string::group_string_axioms;

/// Number of whitespace characters from `i` on.
pub open spec fn ws_run(l: Seq<char>, i: int) -> nat
    decreases l.len() - i,
{
    if 0 <= i < l.len() && is_ws(l[i]) {
        1 + ws_run(l, i + 1)
    } else {
        0
    }
}

/// Number of `#` characters from `i` on.
pub open spec fn hash_run(l: Seq<char>, i: int) -> nat
    decreases l.len() - i,
{
    if 0 <= i < l.len() && l[i] == '#' {
        1 + hash_run(l, i + 1)
    } else {
        0
    }
}

/// Number of `\d` digits from `i` on.
pub open spec fn dec_run(l: Seq<char>, i: int) -> nat {
    if 0 <= i <= l.len() {
        digit_run(l.subrange(i, l.len() as int))
    } else {
        0
    }
}

/// Length of the `(\.\d+)*` groups from `i` on.
pub open spec fn dotted_len(l: Seq<char>, i: int) -> nat
    decreases l.len() - i,
{
    if 0 <= i < l.len() && l[i] == '.' && dec_run(l, i + 1) > 0 && i + 1 + dec_run(l, i + 1) <= l.len() {
        1 + dec_run(l, i + 1) + dotted_len(l, i + 1 + dec_run(l, i + 1))
    } else {
        0
    }
}

/// Length of a number `\d+(\.\d+)*` starting at `i` (0 if none).
pub open spec fn number_len(l: Seq<char>, i: int) -> nat {
    if dec_run(l, i) > 0 {
        dec_run(l, i) + dotted_len(l, i + dec_run(l, i))
    } else {
        0
    }
}

/// The level and title of a numbered heading line: 1 to 6 `#`, whitespace,
/// a number, whitespace, and a title of at least one character (when the
/// line ends in whitespace after the number, its last character).
pub open spec fn numbered_heading(l: Seq<char>) -> Option<(nat, Seq<char>)> {
    let h = hash_run(l, 0);
    if h < 1 || h > 6 || h >= l.len() || !is_ws(l[h as int]) {
        None
    } else {
        let q: int = (h + ws_run(l, h as int)) as int;
        let d = number_len(l, q);
        let r: int = q + d;
        if d == 0 || r >= l.len() || !is_ws(l[r]) {
            None
        } else {
            let w = ws_run(l, r);
            let s: int = r + w;
            if s < l.len() {
                Some((h, l.subrange(s, l.len() as int)))
            } else if w >= 2 {
                Some((h, l.subrange(l.len() - 1, l.len() as int)))
            } else {
                None
            }
        }
    }
}

/// The counters after a heading of level `lv`: that level one more, the
/// deeper ones back to 0.
pub open spec fn bump(c: Seq<nat>, lv: nat) -> Seq<nat> {
    Seq::new(7, |k: int| if k < lv { c[k] } else if k == lv { c[k] + 1 } else { 0 })
}

/// The non-zero counters of levels `k..=lv`, in decimal.
pub open spec fn number_parts(c: Seq<nat>, lv: nat, k: int) -> Seq<Seq<char>>
    decreases lv + 1 - k,
{
    if k < 1 || k > lv {
        Seq::empty()
    } else if c[k] > 0 {
        seq![dec(c[k])] + number_parts(c, lv, k + 1)
    } else {
        number_parts(c, lv, k + 1)
    }
}

/// The new number of a heading of level `lv`.
pub open spec fn number_text(c: Seq<nat>, lv: nat) -> Seq<char> {
    join(number_parts(c, lv, 1), seq!['.'])
}

/// Lines `i..` renumbered, the counters standing at `c`.
pub open spec fn renum_from(ls: Seq<Seq<char>>, i: int, c: Seq<nat>) -> Seq<Seq<char>>
    decreases ls.len() - i,
{
    if i < 0 || i >= ls.len() {
        Seq::empty()
    } else {
        match numbered_heading(ls[i]) {
            Some((lv, t)) => {
                let c2 = bump(c, lv);
                seq![repeat_char('#', lv) + seq![' '] + number_text(c2, lv) + seq![' '] + t] + renum_from(
                    ls,
                    i + 1,
                    c2,
                )
            },
            None => seq![ls[i]] + renum_from(ls, i + 1, c),
        }
    }
}

/// All counters at 0.
pub open spec fn zero_counters() -> Seq<nat> {
    Seq::new(7, |k: int| 0nat)
}

/// A text with its numbered headings renumbered in order: each level counts
/// up from 1 and restarts under a new heading of a higher level, and a
/// heading's number lists the non-zero counts down to its level.
pub open spec fn renum_spec(content: Seq<char>) -> Seq<char> {
    join(renum_from(text_lines(content), 0, zero_counters()), seq!['\n']) + if ends_with(content, seq!['\n']) {
        seq!['\n']
    } else {
        Seq::<char>::empty()
    }
}

/// Number of whitespace characters from `i` on.
pub(crate) fn ws_run_at(l: &Vec<char>, i: usize) -> (n: usize)
    requires
        i <= l.len(),
    ensures
        n == ws_run(l@, i as int),
        i + n <= l.len(),
{
    let mut j = i;
    while j < l.len() && is_whitespace(l[j])
        invariant
            i <= j <= l.len(),
            ws_run(l@, i as int) == (j - i) + ws_run(l@, j as int),
        decreases l.len() - j,
    {
        j += 1;
    }
    j - i
}

/// Number of `#` characters from the start.
fn hash_run_at(l: &Vec<char>) -> (n: usize)
    ensures
        n == hash_run(l@, 0),
        n <= l.len(),
{
    let mut j: usize = 0;
    while j < l.len() && l[j] == '#'
        invariant
            j <= l.len(),
            hash_run(l@, 0) == j + hash_run(l@, j as int),
        decreases l.len() - j,
    {
        j += 1;
    }
    j
}

/// Length of a number starting at `i`.
fn number_len_at(l: &Vec<char>, i: usize) -> (n: usize)
    requires
        i <= l.len(),
    ensures
        n == number_len(l@, i as int),
        i + n <= l.len(),
{
    let d = digit_run_at(l, i);
    if d == 0 {
        return 0;
    }
    let mut p = i + d;
    while p < l.len() && l[p] == '.' && digit_run_at(l, p + 1) > 0
        invariant
            i + d <= p <= l.len(),
            d == dec_run(l@, i as int),
            number_len(l@, i as int) == (p - i) + dotted_len(l@, p as int),
        decreases l.len() - p,
    {
        let e = digit_run_at(l, p + 1);
        p = p + 1 + e;
    }
    p - i
}

/// The level and the start of the title of a numbered heading.
fn numbered_heading_at(l: &Vec<char>) -> (r: Option<(usize, usize)>)
    ensures
        match numbered_heading(l@) {
            Some((lv, t)) => r matches Some((rl, s)) && rl == lv && s <= l.len() && l@.subrange(
                s as int,
                l.len() as int,
            ) == t,
            None => r is None,
        },
{
    let h = hash_run_at(l);
    if h < 1 || h > 6 || h >= l.len() || !is_whitespace(l[h]) {
        return None;
    }
    let q = h + ws_run_at(l, h);
    let d = number_len_at(l, q);
    let r = q + d;
    if d == 0 || r >= l.len() || !is_whitespace(l[r]) {
        return None;
    }
    let w = ws_run_at(l, r);
    let s = r + w;
    if s < l.len() {
        Some((h, s))
    } else if w >= 2 {
        Some((h, l.len() - 1))
    } else {
        None
    }
}

/// The counters as numbers.
pub open spec fn counters_view(c: Seq<usize>) -> Seq<nat> {
    c.map_values(|x: usize| x as nat)
}

/// Counts a heading of level `lv`.
fn bump_counters(counters: &mut Vec<usize>, lv: usize, Ghost(bound): Ghost<nat>)
    requires
        1 <= lv <= 6,
        old(counters)@.len() == 7,
        forall|k: int| 0 <= k < 7 ==> old(counters)@[k] <= bound,
        bound < usize::MAX,
    ensures
        final(counters)@.len() == 7,
        counters_view(final(counters)@) == bump(counters_view(old(counters)@), lv as nat),
        forall|k: int| 0 <= k < 7 ==> final(counters)@[k] <= bound + 1,
{
    let ghost c0 = counters_view(counters@);
    let ghost c2 = bump(c0, lv as nat);
    let bumped = counters[lv] + 1;
    counters.set(lv, bumped);
    let mut k = lv + 1;
    while k < 7
        invariant
            c2 == bump(c0, lv as nat),
            lv + 1 <= k <= 7,
            1 <= lv <= 6,
            counters@.len() == 7,
            forall|j: int| 0 <= j < k ==> counters@[j] as nat == c2[j],
            forall|j: int| 0 <= j < 7 ==> counters@[j] <= bound + 1,
        decreases 7 - k,
    {
        counters.set(k, 0);
        k += 1;
    }
    assert(counters_view(counters@) =~= c2);
}

/// The new number of a heading of level `lv`.
fn number_chars(counters: &Vec<usize>, lv: usize) -> (r: Vec<char>)
    requires
        1 <= lv <= 6,
        counters@.len() == 7,
    ensures
        r@ == number_text(counters_view(counters@), lv as nat),
{
    let ghost c = counters_view(counters@);
    let mut parts: Vec<Vec<char>> = Vec::new();
    let mut k: usize = 1;
    while k <= lv
        invariant
            1 <= k <= lv + 1,
            lv <= 6,
            counters@.len() == 7,
            c == counters_view(counters@),
            vv(parts@) + number_parts(c, lv as nat, k as int) == number_parts(c, lv as nat, 1),
        decreases lv + 1 - k,
    {
        if counters[k] > 0 {
            let mut d: Vec<char> = Vec::new();
            push_decimal(&mut d, counters[k]);
            let ghost before = vv(parts@);
            parts.push(d);
            assert(vv(parts@) =~= before.push(dec(c[k as int])));
            assert(before.push(dec(c[k as int])) + number_parts(c, lv as nat, k + 1) =~= before + number_parts(
                c,
                lv as nat,
                k as int,
            ));
        }
        k += 1;
    }
    assert(vv(parts@) + number_parts(c, lv as nat, k as int) =~= vv(parts@));
    let mut dot: Vec<char> = Vec::new();
    dot.push('.');
    assert(dot@ =~= seq!['.']);
    let r = join_chars(&parts, 0, parts.len(), &dot);
    assert(vv(parts@).subrange(0, parts.len() as int) =~= vv(parts@));
    r
}

/// Renumbers the numbered headings of a text (see `renum_spec`).
pub fn renum_content(content: &str) -> (r: String)
    ensures
        r@ == renum_spec(content@),
{
    let c = chars_of(content);
    let lines = lines_of(&c);
    let ghost ls = text_lines(content@);
    let mut counters: Vec<usize> = Vec::new();
    let mut z: usize = 0;
    while z < 7
        invariant
            z <= 7,
            counters@.len() == z,
            forall|k: int| 0 <= k < z ==> counters@[k] == 0,
        decreases 7 - z,
    {
        counters.push(0);
        z += 1;
    }
    assert(counters_view(counters@) =~= zero_counters());
    let mut out: Vec<Vec<char>> = Vec::new();
    let mut i: usize = 0;
    while i < lines.len()
        invariant
            i <= lines.len(),
            vv(lines@) == ls,
            counters@.len() == 7,
            forall|k: int| 0 <= k < 7 ==> counters@[k] <= i,
            vv(out@) + renum_from(ls, i as int, counters_view(counters@)) == renum_from(ls, 0, zero_counters()),
        decreases lines.len() - i,
    {
        let ghost cv = counters_view(counters@);
        let line = &lines[i];
        assert(ls[i as int] == line@);
        let ghost before = vv(out@);
        match numbered_heading_at(line) {
            Some((lv, s)) => {
                bump_counters(&mut counters, lv, Ghost(i as nat));
                let mut text: Vec<char> = Vec::new();
                push_repeat(&mut text, '#', lv);
                text.push(' ');
                let num = number_chars(&counters, lv);
                append_chars(&mut text, &num);
                text.push(' ');
                let title = crate::text::slice_chars(line, s, line.len());
                append_chars(&mut text, &title);
                let ghost tv = text@;
                assert(tv =~= repeat_char('#', lv as nat) + seq![' '] + number_text(bump(cv, lv as nat), lv as nat)
                    + seq![' '] + line@.subrange(s as int, line.len() as int));
                out.push(text);
                assert(vv(out@) =~= before.push(tv));
                assert(before.push(tv) + renum_from(ls, i + 1, counters_view(counters@)) =~= before + renum_from(
                    ls,
                    i as int,
                    cv,
                ));
            },
            None => {
                let copy = line.clone();
                out.push(copy);
                assert(vv(out@) =~= before.push(line@));
                assert(before.push(line@) + renum_from(ls, i + 1, cv) =~= before + renum_from(ls, i as int, cv));
            },
        }
        i += 1;
    }
    assert(vv(out@) + renum_from(ls, i as int, counters_view(counters@)) =~= vv(out@));
    let mut nl: Vec<char> = Vec::new();
    nl.push('\n');
    assert(nl@ =~= seq!['\n']);
    let mut res = join_chars(&out, 0, out.len(), &nl);
    assert(vv(out@).subrange(0, out.len() as int) =~= vv(out@));
    let ends = c.len() > 0 && c[c.len() - 1] == '\n';
    proof {
        if ends {
            assert(c@.subrange(c@.len() - 1, c@.len() as int) =~= seq!['\n']);
        }
        if ends_with(c@, seq!['\n']) {
            assert(c@[c@.len() - 1] == c@.subrange(c@.len() - 1, c@.len() as int)[0]);
        }
    }
    if ends {
        res.push('\n');
    }
    let ghost body = join(renum_from(ls, 0, zero_counters()), seq!['\n']);
    assert(res@ =~= body + if ends_with(content@, seq!['\n']) {
        seq!['\n']
    } else {
        Seq::<char>::empty()
    });
    string_of(&res)
}

// ---------------------------------------------------------------------------
// Editing sections
// ---------------------------------------------------------------------------

/// The sections of a text, as parsing finds them.
pub open spec fn text_sections(content: Seq<char>) -> Seq<SectionView> {
    document_of(content, vstd::utf8::encode_utf8(content), cmark_events(content)).sections
}

/// The section an address picks in a text, or why none.
pub open spec fn addressed_section(content: Seq<char>, addr: Seq<char>) -> Result<SectionView, SectionErrorView> {
    match parse_address(addr) {
        Err(e) => Err(e),
        Ok(a) => match resolve_target(a, text_sections(content)) {
            Err(e) => Err(e),
            Ok(k) => Ok(text_sections(content)[k]),
        },
    }
}

/// The section an address picks in a parsed text.
fn find_addressed<'a>(content: &str, sections: &'a Vec<Section>, addr: &str) -> (r: Result<&'a Section, SectionError>)
    requires
        sections_view(sections@) == text_sections(content@),
    ensures
        match addressed_section(content@, addr@) {
            Ok(s) => r matches Ok(t) && t@ == s,
            Err(e) => r matches Err(x) && x@ == e,
        },
{
    let a = parse_section_address(addr)?;
    let sl = sections.as_slice();
    assert(sl@ == sections@);
    let t = resolve_section_address(&a, sl);
    proof {
        if let Ok(k) = resolve_target(a@, sections_view(sections@)) {
            assert(sections_view(sections@)[k] == sections@[k]@);
        }
    }
    t
}

/// A text with the body of the addressed section replaced.
pub open spec fn section_set_spec(content: Seq<char>, addr: Seq<char>, new: Seq<char>) -> Result<Seq<char>, SectionErrorView> {
    match addressed_section(content, addr) {
        Err(e) => Err(e),
        Ok(s) => replace_content_spec(content, s, new),
    }
}

/// Replaces the body of the addressed section of a text (see
/// `section_set_spec`).
pub fn section_set(content: &str, section_addr: &str, new_content: &str) -> (r: Result<String, SectionError>)
    ensures
        text_result_view(r) == section_set_spec(content@, section_addr@, new_content@),
{
    let doc = parse_document(content);
    let target = find_addressed(content, &doc.sections, section_addr)?;
    replace_section_content(content, target, new_content)
}

/// A text with the addressed section removed.
pub open spec fn section_delete_spec(content: Seq<char>, addr: Seq<char>) -> Result<Seq<char>, SectionErrorView> {
    match addressed_section(content, addr) {
        Err(e) => Err(e),
        Ok(s) => delete_spec(content, s),
    }
}

/// Removes the addressed section of a text (see `section_delete_spec`).
pub fn section_delete(content: &str, section_addr: &str) -> (r: Result<String, SectionError>)
    ensures
        text_result_view(r) == section_delete_spec(content@, section_addr@),
{
    let doc = parse_document(content);
    let target = find_addressed(content, &doc.sections, section_addr)?;
    delete_section(content, target)
}

/// Why a section could not be added.
#[derive(Debug)]
pub enum EditError {
    /// An address or the insertion failed.
    Section(SectionError),
    /// The heading level is not between 1 and 6.
    LevelOutOfRange(u8),
}

/// An edit error as a plain value.
pub enum EditErrorView {
    Section(SectionErrorView),
    LevelOutOfRange(u8),
}

impl View for EditError {
    type V = EditErrorView;

    open spec fn view(&self) -> EditErrorView {
        match self {
            EditError::Section(e) => EditErrorView::Section(e@),
            EditError::LevelOutOfRange(l) => EditErrorView::LevelOutOfRange(*l),
        }
    }
}

/// The view of an edit's outcome.
pub open spec fn edit_result_view(r: Result<String, EditError>) -> Result<Seq<char>, EditErrorView> {
    match r {
        Ok(s) => Ok(s@),
        Err(e) => Err(e@),
    }
}

/// The heading of a new section: the title as it is when it starts with
/// `#`, else `level` marks, a space and the title.
pub open spec fn new_heading(title: Seq<char>, level: u8) -> Seq<char> {
    if crate::text::starts_with(title, seq!['#']) {
        title
    } else {
        repeat_char('#', level as nat) + seq![' '] + title
    }
}

/// The view of an optional address.
pub open spec fn opt_addr(o: Option<&str>) -> Option<Seq<char>> {
    match o {
        Some(a) => Some(a@),
        None => None,
    }
}

/// The line after which a new section goes: the end of the section
/// `after` picks, else the line before the section `before` picks, else the
/// end of the text.
pub open spec fn add_position(content: Seq<char>, after: Option<Seq<char>>, before: Option<Seq<char>>) -> Result<
    nat,
    SectionErrorView,
> {
    match after {
        Some(a) => match addressed_section(content, a) {
            Ok(s) => Ok(s.end_line),
            Err(e) => Err(e),
        },
        None => match before {
            Some(b) => match addressed_section(content, b) {
                Ok(s) => Ok(if s.start_line > 0 { (s.start_line - 1) as nat } else { 0 }),
                Err(e) => Err(e),
            },
            None => Ok(document_of(content, vstd::utf8::encode_utf8(content), cmark_events(content)).total_lines),
        },
    }
}

/// A text with a new section added (level 2 unless given; see
/// `add_position` and `insert_spec`).
pub open spec fn section_add_spec(
    content: Seq<char>,
    title: Seq<char>,
    body: Seq<char>,
    after: Option<Seq<char>>,
    before: Option<Seq<char>>,
    level: Option<u8>,
) -> Result<Seq<char>, EditErrorView> {
    let lv: u8 = match level {
        Some(l) => l,
        None => 2,
    };
    if !(1 <= lv <= 6) {
        Err(EditErrorView::LevelOutOfRange(lv))
    } else {
        match add_position(content, after, before) {
            Err(e) => Err(EditErrorView::Section(e)),
            Ok(pos) => match insert_spec(content, pos, new_heading(title, lv), body) {
                Ok(t) => Ok(t),
                Err(e) => Err(EditErrorView::Section(e)),
            },
        }
    }
}

/// Adds a new section to a text (see `section_add_spec`).
pub fn section_add(
    content: &str,
    title: &str,
    body: &str,
    after: Option<&str>,
    before: Option<&str>,
    level: Option<u8>,
) -> (r: Result<String, EditError>)
    ensures
        edit_result_view(r) == section_add_spec(content@, title@, body@, opt_addr(after), opt_addr(before), level),
{
    let doc = parse_document(content);
    let lv: u8 = match level {
        Some(l) => l,
        None => 2,
    };
    if !(1 <= lv && lv <= 6) {
        return Err(EditError::LevelOutOfRange(lv));
    }
    let tc = chars_of(title);
    let mut heading: Vec<char> = Vec::new();
    if tc.len() > 0 && tc[0] == '#' {
        assert(title@.subrange(0, 1) =~= seq!['#']);
        append_chars(&mut heading, &tc);
    } else {
        if tc.len() > 0 {
            assert(title@.subrange(0, 1)[0] != '#');
        }
        push_repeat(&mut heading, '#', lv as usize);
        heading.push(' ');
        append_chars(&mut heading, &tc);
    }
    assert(heading@ =~= new_heading(title@, lv));
    let position = match after {
        Some(a) => match find_addressed(content, &doc.sections, a) {
            Ok(t) => t.end_line,
            Err(e) => {
                return Err(EditError::Section(e));
            },
        },
        None => match before {
            Some(b) => match find_addressed(content, &doc.sections, b) {
                Ok(t) => t.start_line.saturating_sub(1),
                Err(e) => {
                    return Err(EditError::Section(e));
                },
            },
            None => doc.total_lines,
        },
    };
    match insert_section(content, position, string_of(&heading).as_str(), body) {
        Ok(t) => Ok(t),
        Err(e) => Err(EditError::Section(e)),
    }
}

/// The lines a comparison of two texts shows, line by line: for each
/// position where they differ, the old line with `-` and the new line with
/// `+` (each only when not empty).
pub open spec fn diff_from(b: Seq<Seq<char>>, a: Seq<Seq<char>>, i: int) -> Seq<Seq<char>>
    decreases (if b.len() > a.len() { b.len() } else { a.len() }) - i,
{
    let n = if b.len() > a.len() {
        b.len()
    } else {
        a.len()
    };
    if i < 0 || i >= n {
        Seq::empty()
    } else {
        let x = if i < b.len() {
            b[i]
        } else {
            Seq::empty()
        };
        let y = if i < a.len() {
            a[i]
        } else {
            Seq::empty()
        };
        (if x != y {
            (if x.len() > 0 {
                seq![seq!['-'] + x]
            } else {
                Seq::empty()
            }) + (if y.len() > 0 {
                seq![seq!['+'] + y]
            } else {
                Seq::empty()
            })
        } else {
            Seq::empty()
        }) + diff_from(b, a, i + 1)
    }
}

/// The lines a comparison of two texts shows (see `diff_from`).
pub fn diff_lines(before: &str, after: &str) -> (r: Vec<String>)
    ensures
        r.deep_view() == diff_from(text_lines(before@), text_lines(after@), 0),
{
    let bl = lines_of(&chars_of(before));
    let al = lines_of(&chars_of(after));
    let ghost b = text_lines(before@);
    let ghost a = text_lines(after@);
    let n = if bl.len() > al.len() {
        bl.len()
    } else {
        al.len()
    };
    let mut out: Vec<String> = Vec::new();
    let mut i: usize = 0;
    while i < n
        invariant
            i <= n,
            n == (if bl.len() > al.len() { bl.len() } else { al.len() }),
            vv(bl@) == b,
            vv(al@) == a,
            out.deep_view() + diff_from(b, a, i as int) == diff_from(b, a, 0),
        decreases n - i,
    {
        let ghost before_out = out.deep_view();
        let x: Vec<char> = if i < bl.len() {
            bl[i].clone()
        } else {
            Vec::new()
        };
        let y: Vec<char> = if i < al.len() {
            al[i].clone()
        } else {
            Vec::new()
        };
        proof {
            if i < bl.len() {
                assert(vv(bl@)[i as int] == bl@[i as int]@);
            }
            if i < al.len() {
                assert(vv(al@)[i as int] == al@[i as int]@);
            }
        }
        let ghost xs = if (i as int) < b.len() { b[i as int] } else { Seq::<char>::empty() };
        let ghost ys = if (i as int) < a.len() { a[i as int] } else { Seq::<char>::empty() };
        assert(x@ =~= xs);
        assert(y@ =~= ys);
        if !crate::text::same_chars(&x, &y) {
            if x.len() > 0 {
                let mut l: Vec<char> = Vec::new();
                l.push('-');
                append_chars(&mut l, &x);
                out.push(string_of(&l));
            }
            if y.len() > 0 {
                let mut l: Vec<char> = Vec::new();
                l.push('+');
                append_chars(&mut l, &y);
                out.push(string_of(&l));
            }
        }
        assert(out.deep_view() + diff_from(b, a, i + 1) =~= before_out + diff_from(b, a, i as int));
        i += 1;
    }
    assert(out.deep_view() + diff_from(b, a, i as int) =~= out.deep_view());
    out
}

// ---------------------------------------------------------------------------
// Laws of renumbering
// ---------------------------------------------------------------------------

/// Renumbering from any counters keeps the number of lines, keeps every
/// line that is no numbered heading as it is, and keeps each numbered
/// heading's level and title: only the number between them changes.
pub proof fn renumbering_keeps_lines(ls: Seq<Seq<char>>, i: int, c: Seq<nat>)
    requires
        0 <= i <= ls.len(),
    ensures
        renum_from(ls, i, c).len() == ls.len() - i,
        forall|j: int|
            i <= j < ls.len() ==> match numbered_heading(ls[j]) {
                None => (#[trigger] renum_from(ls, i, c)[j - i]) == ls[j],
                Some((lv, t)) => starts_with(renum_from(ls, i, c)[j - i], repeat_char('#', lv) + seq![' '])
                    && ends_with(renum_from(ls, i, c)[j - i], seq![' '] + t),
            },
    decreases ls.len() - i,
{
    if i < ls.len() {
        let c2 = match numbered_heading(ls[i]) {
            Some((lv, t)) => bump(c, lv),
            None => c,
        };
        renumbering_keeps_lines(ls, i + 1, c2);
        let r = renum_from(ls, i, c);
        let rest = renum_from(ls, i + 1, c2);
        assert forall|j: int| i <= j < ls.len() implies match numbered_heading(ls[j]) {
            None => (#[trigger] renum_from(ls, i, c)[j - i]) == ls[j],
            Some((lv, t)) => starts_with(renum_from(ls, i, c)[j - i], repeat_char('#', lv) + seq![' '])
                && ends_with(renum_from(ls, i, c)[j - i], seq![' '] + t),
        } by {
            if j > i {
                assert(r[j - i] == rest[j - (i + 1)]);
            } else {
                match numbered_heading(ls[i]) {
                    Some((lv, t)) => {
                        let h = repeat_char('#', lv) + seq![' '];
                        let n = number_text(bump(c, lv), lv);
                        let x = h + n + (seq![' '] + t);
                        assert(r[0] =~= x);
                        assert(x.subrange(0, h.len() as int) =~= h);
                        assert(x.subrange(x.len() - (t.len() + 1), x.len() as int) =~= seq![' '] + t);
                    },
                    None => {},
                }
            }
        }
    }
}

/// Digits only.
spec fn all_digits(d: Seq<char>) -> bool {
    forall|i: int| 0 <= i < d.len() ==> '0' <= #[trigger] d[i] <= '9'
}

/// Digits, then a character that is no digit: the run of digits is the
/// digits.
proof fn lemma_digit_run_stops(d: Seq<char>, rest: Seq<char>)
    requires
        all_digits(d),
        rest.len() > 0,
        !decimal_char(rest[0]),
    ensures
        digit_run(d + rest) == d.len(),
    decreases d.len(),
{
    if d.len() == 0 {
        assert(d + rest =~= rest);
    } else {
        assert((d + rest)[0] == d[0]);
        assert('0' <= d[0] <= '9');
        assert((d + rest).drop_first() =~= d.drop_first() + rest);
        assert(all_digits(d.drop_first())) by {
            assert forall|i: int| 0 <= i < d.drop_first().len() implies '0' <= #[trigger] d.drop_first()[i] <= '9' by {
                assert(d.drop_first()[i] == d[i + 1]);
            }
        }
        lemma_digit_run_stops(d.drop_first(), rest);
    }
}

/// The groups `k..` of a number, each after a dot.
spec fn dot_groups(parts: Seq<Seq<char>>, k: int) -> Seq<char>
    decreases parts.len() - k,
{
    if k < 0 || k >= parts.len() {
        Seq::empty()
    } else {
        seq!['.'] + parts[k] + dot_groups(parts, k + 1)
    }
}

/// Dot groups of all but the last part, then the last one.
proof fn lemma_dot_groups_last(parts: Seq<Seq<char>>, k: int)
    requires
        1 <= k <= parts.len() - 1,
    ensures
        dot_groups(parts, k) == dot_groups(parts.drop_last(), k) + seq!['.'] + parts.last(),
    decreases parts.len() - k,
{
    let d = parts.drop_last();
    if k == parts.len() - 1 {
        assert(dot_groups(parts, k + 1) =~= Seq::<char>::empty());
        assert(dot_groups(d, k) =~= Seq::<char>::empty());
        assert(parts[k] == parts.last());
    } else {
        lemma_dot_groups_last(parts, k + 1);
        assert(d[k] == parts[k]);
    }
}

/// Parts joined with dots: the first part, then the others each after a dot.
proof fn lemma_join_dot_groups(parts: Seq<Seq<char>>)
    requires
        parts.len() > 0,
    ensures
        join(parts, seq!['.']) == parts[0] + dot_groups(parts, 1),
    decreases parts.len(),
{
    if parts.len() == 1 {
        assert(dot_groups(parts, 1) =~= Seq::<char>::empty());
        assert(parts[0] + Seq::<char>::empty() =~= parts[0]);
    } else {
        let d = parts.drop_last();
        lemma_join_dot_groups(d);
        assert(d[0] == parts[0]);
        if parts.len() == 2 {
            assert(dot_groups(d, 1) =~= Seq::<char>::empty());
            assert(dot_groups(parts, 2) =~= Seq::<char>::empty());
            assert(parts[1] == parts.last());
        } else {
            lemma_dot_groups_last(parts, 1);
        }
    }
}

/// Groups of digits after dots, in a line, followed by a space: `dotted_len`
/// reads all of them.
proof fn lemma_dotted_reads(l: Seq<char>, i: int, parts: Seq<Seq<char>>, k: int)
    requires
        0 <= k <= parts.len(),
        forall|j: int| 0 <= j < parts.len() ==> all_digits(#[trigger] parts[j]) && parts[j].len() > 0,
        0 <= i,
        i + dot_groups(parts, k).len() < l.len(),
        l.subrange(i, i + dot_groups(parts, k).len()) == dot_groups(parts, k),
        l[i + dot_groups(parts, k).len()] == ' ',
    ensures
        dotted_len(l, i) == dot_groups(parts, k).len(),
    decreases parts.len() - k,
{
    let g = dot_groups(parts, k);
    if k >= parts.len() {
        assert(g.len() == 0);
        assert(l[i] == ' ');
    } else {
        let pk = parts[k];
        let rest = dot_groups(parts, k + 1);
        assert(g == seq!['.'] + pk + rest);
        assert(l[i] == g[0]);
        let tail = l.subrange(i + 1, l.len() as int);
        assert forall|x: int| 0 <= x < pk.len() implies l[i + 1 + x] == pk[x] by {
            assert(l.subrange(i, i + g.len())[1 + x] == g[1 + x]);
            assert(g[1 + x] == pk[x]);
        }
        assert(tail =~= pk + l.subrange(i + 1 + pk.len(), l.len() as int));
        let after = l.subrange(i + 1 + pk.len(), l.len() as int);
        assert(after[0] == l[i + 1 + pk.len()]);
        assert(l[i + 1 + pk.len()] == '.' || l[i + 1 + pk.len()] == ' ') by {
            if rest.len() > 0 {
                assert(rest[0] == '.');
                assert(l.subrange(i, i + g.len())[(1 + pk.len()) as int] == g[(1 + pk.len()) as int]);
            }
        }
        lemma_digit_run_stops(pk, after);
        assert(dec_run(l, i + 1) == pk.len());
        assert(l.subrange(i + 1 + pk.len(), i + 1 + pk.len() + rest.len()) =~= rest) by {
            assert forall|x: int| 0 <= x < rest.len() implies l.subrange(i + 1 + pk.len(), i + 1 + pk.len() + rest.len())[x] == rest[x] by {
                assert(l.subrange(i, i + g.len())[1 + pk.len() + x] == g[1 + pk.len() + x]);
                assert(g[1 + pk.len() + x] == rest[x]);
            }
        }
        lemma_dotted_reads(l, i + 1 + pk.len(), parts, k + 1);
    }
}

/// The parts of a heading number are decimal forms, and there is one when
/// the heading's own level has counted.
proof fn lemma_number_parts(c: Seq<nat>, lv: nat, k: int)
    ensures
        forall|j: int| 0 <= j < number_parts(c, lv, k).len() ==> all_digits(#[trigger] number_parts(c, lv, k)[j])
            && number_parts(c, lv, k)[j].len() > 0,
        1 <= k <= lv && c[lv as int] > 0 ==> number_parts(c, lv, k).len() > 0,
    decreases lv + 1 - k,
{
    let ps = number_parts(c, lv, k);
    if 1 <= k <= lv {
        lemma_number_parts(c, lv, k + 1);
        let rest = number_parts(c, lv, k + 1);
        if c[k] > 0 {
            crate::text::lemma_dec_digits(c[k]);
            assert forall|j: int| 0 <= j < ps.len() implies all_digits(#[trigger] ps[j]) && ps[j].len() > 0 by {
                if j == 0 {
                    assert(ps[0] == dec(c[k]));
                } else {
                    assert(ps[j] == rest[j - 1]);
                }
            }
        }
    }
}

/// A run of whitespace stops at a character that is not whitespace, or at
/// the end.
proof fn lemma_ws_run_stops(l: Seq<char>, i: int)
    requires
        0 <= i,
    ensures
        i + ws_run(l, i) <= l.len() || ws_run(l, i) == 0,
        i + ws_run(l, i) < l.len() ==> !is_ws(l[i + ws_run(l, i)]),
        forall|j: int| i <= j < i + ws_run(l, i) ==> is_ws(#[trigger] l[j]),
    decreases l.len() - i,
{
    if 0 <= i < l.len() && is_ws(l[i]) {
        lemma_ws_run_stops(l, i + 1);
    }
}

/// `#` repeated up to position `lv`, then a space: the run of `#` from `j`.
proof fn lemma_hash_run_reads(l: Seq<char>, lv: nat, j: int)
    requires
        0 <= j <= lv < l.len(),
        forall|x: int| 0 <= x < lv ==> #[trigger] l[x] == '#',
        l[lv as int] == ' ',
    ensures
        hash_run(l, j) == lv - j,
    decreases lv - j,
{
    if j < lv {
        lemma_hash_run_reads(l, lv, j + 1);
    }
}

/// A renumbered heading line reads back as a numbered heading of the same
/// level and title.
proof fn lemma_heading_reads_back(lv: nat, c: Seq<nat>, t: Seq<char>)
    requires
        1 <= lv <= 6,
        c[lv as int] > 0,
        t.len() > 0,
        !is_ws(t[0]) || t.len() == 1,
    ensures
        numbered_heading(repeat_char('#', lv) + seq![' '] + number_text(c, lv) + seq![' '] + t) == Some((lv, t)),
{
    let n = number_text(c, lv);
    let parts = number_parts(c, lv, 1);
    lemma_number_parts(c, lv, 1);
    lemma_join_dot_groups(parts);
    let g = dot_groups(parts, 1);
    let p0 = parts[0];
    assert(n == p0 + g);
    let l = repeat_char('#', lv) + seq![' '] + n + seq![' '] + t;
    let q: int = lv as int + 1;
    let r: int = q + n.len();
    let pl: int = p0.len() as int;
    assert(l.len() == r + 1 + t.len());
    // The hashes.
    assert forall|x: int| 0 <= x < lv implies #[trigger] l[x] == '#' by {}
    assert(l[lv as int] == ' ');
    lemma_hash_run_reads(l, lv, 0);
    // One space before the number.
    assert(all_digits(p0));
    assert(p0.len() > 0);
    assert(l[q as int] == p0[0]);
    assert(!is_ws(l[q as int]));
    assert(ws_run(l, q as int) == 0);
    assert(ws_run(l, lv as int) == 1);
    // The number.
    assert forall|x: int| 0 <= x < n.len() implies l[q + x] == #[trigger] n[x] by {}
    let tail = l.subrange(q as int, l.len() as int);
    let after = l.subrange(q + pl, l.len() as int);
    assert(tail =~= p0 + after) by {
        assert forall|x: int| 0 <= x < p0.len() implies tail[x] == p0[x] by {
            assert(n[x] == p0[x]);
        }
    }
    assert(after[0] == l[q + pl]);
    assert(l[q + pl] == '.' || l[q + pl] == ' ') by {
        if g.len() > 0 {
            assert(g[0] == '.');
            assert(n[pl] == g[0]);
        }
    }
    lemma_digit_run_stops(p0, after);
    assert(dec_run(l, q as int) == p0.len());
    assert(l.subrange(q + pl, q + pl + g.len()) =~= g) by {
        assert forall|x: int| 0 <= x < g.len() implies l.subrange(q + pl, q + pl + g.len())[x] == g[x] by {
            assert(n[pl + x] == g[x]);
        }
    }
    assert(l[r] == ' ');
    lemma_dotted_reads(l, q + pl, parts, 1);
    assert(number_len(l, q as int) == n.len());
    // The space and the title.
    lemma_ws_run_stops(l, r);
    assert(l[r + 1] == t[0]);
    if !is_ws(t[0]) {
        assert(ws_run(l, r + 1) == 0);
        assert(ws_run(l, r) == 1);
        assert(l.subrange(r + 1, l.len() as int) =~= t);
    } else {
        assert(ws_run(l, r + 1) == 1 + ws_run(l, r + 2));
        assert(ws_run(l, r + 2) == 0);
        assert(ws_run(l, r) == 2);
        assert(l.subrange(l.len() - 1, l.len() as int) =~= t);
    }
}

/// The title of a numbered heading is not empty, and begins with a
/// character that is not whitespace unless it is that one character.
proof fn lemma_numbered_title(l: Seq<char>)
    ensures
        numbered_heading(l) matches Some((lv, t)) ==> 1 <= lv <= 6 && t.len() > 0 && (!is_ws(t[0]) || t.len()
            == 1),
{
    if let Some((lv, t)) = numbered_heading(l) {
        let h = hash_run(l, 0);
        let q: int = (h + ws_run(l, h as int)) as int;
        let r: int = q + number_len(l, q);
        lemma_ws_run_stops(l, r);
        let s: int = r + ws_run(l, r);
        if s < l.len() {
            assert(t[0] == l[s]);
        }
    }
}

/// Renumbering from a later position of lines with one more line in front
/// is renumbering the lines without it.
proof fn lemma_renum_shift(x: Seq<char>, ys: Seq<Seq<char>>, j: int, c: Seq<nat>)
    requires
        0 <= j,
    ensures
        renum_from(seq![x] + ys, j + 1, c) == renum_from(ys, j, c),
    decreases ys.len() - j,
{
    let s = seq![x] + ys;
    if j < ys.len() {
        assert(s[j + 1] == ys[j]);
        match numbered_heading(ys[j]) {
            Some((lv, t)) => lemma_renum_shift(x, ys, j + 1, bump(c, lv)),
            None => lemma_renum_shift(x, ys, j + 1, c),
        }
    }
}

/// Renumbering renumbered lines changes nothing: each renumbered heading
/// reads back with its level and title, so the counts come out the same.
pub proof fn renumbering_twice_changes_nothing(ls: Seq<Seq<char>>, i: int, c: Seq<nat>)
    requires
        0 <= i <= ls.len(),
    ensures
        renum_from(renum_from(ls, i, c), 0, c) == renum_from(ls, i, c),
    decreases ls.len() - i,
{
    let r = renum_from(ls, i, c);
    if i < ls.len() {
        lemma_numbered_title(ls[i]);
        match numbered_heading(ls[i]) {
            Some((lv, t)) => {
                let c2 = bump(c, lv);
                let x = repeat_char('#', lv) + seq![' '] + number_text(c2, lv) + seq![' '] + t;
                let rest = renum_from(ls, i + 1, c2);
                assert(r == seq![x] + rest);
                assert(c2[lv as int] == c[lv as int] + 1);
                lemma_heading_reads_back(lv, c2, t);
                assert(r[0] == x);
                renumbering_twice_changes_nothing(ls, i + 1, c2);
                lemma_renum_shift(x, rest, 0, c2);
                assert(renum_from(r, 0, c) == seq![x] + renum_from(r, 1, c2));
            },
            None => {
                let x = ls[i];
                let rest = renum_from(ls, i + 1, c);
                assert(r == seq![x] + rest);
                assert(r[0] == x);
                renumbering_twice_changes_nothing(ls, i + 1, c);
                lemma_renum_shift(x, rest, 0, c);
                assert(renum_from(r, 0, c) == seq![x] + renum_from(r, 1, c));
            },
        }
    } else {
        assert(r =~= Seq::<Seq<char>>::empty());
    }
}

/// Parts of digits joined with dots hold only digits and dots.
proof fn lemma_dotted_chars(parts: Seq<Seq<char>>)
    requires
        forall|j: int| 0 <= j < parts.len() ==> all_digits(#[trigger] parts[j]),
    ensures
        forall|x: int| 0 <= x < join(parts, seq!['.']).len() ==> #[trigger] join(parts, seq!['.'])[x] == '.' || (
        '0' <= join(parts, seq!['.'])[x] <= '9'),
    decreases parts.len(),
{
    let jn = join(parts, seq!['.']);
    if parts.len() == 1 {
        assert(jn == parts[0]);
        assert(all_digits(parts[0]));
    } else if parts.len() > 1 {
        let d = parts.drop_last();
        assert forall|j: int| 0 <= j < d.len() implies all_digits(#[trigger] d[j]) by {
            assert(d[j] == parts[j]);
        }
        lemma_dotted_chars(d);
        let jd = join(d, seq!['.']);
        assert(jn == jd + seq!['.'] + parts.last());
        assert(parts.last() == parts[parts.len() - 1]);
        assert(all_digits(parts.last()));
        assert forall|x: int| 0 <= x < jn.len() implies #[trigger] jn[x] == '.' || ('0' <= jn[x] <= '9') by {
            if x < jd.len() {
                assert(jn[x] == jd[x]);
            } else if x > jd.len() {
                assert(jn[x] == parts.last()[x - jd.len() - 1]);
            }
        }
    }
}

/// Renumbering brings in no character but `#`, spaces, digits and dots.
proof fn lemma_renum_free(ls: Seq<Seq<char>>, i: int, c: Seq<nat>, ch: char)
    requires
        0 <= i <= ls.len(),
        ch != '#' && ch != ' ' && ch != '.' && !('0' <= ch <= '9'),
        forall|j: int| 0 <= j < ls.len() ==> !(#[trigger] ls[j]).contains(ch),
    ensures
        forall|j: int| 0 <= j < renum_from(ls, i, c).len() ==> !(#[trigger] renum_from(ls, i, c)[j]).contains(ch),
    decreases ls.len() - i,
{
    let r = renum_from(ls, i, c);
    if i < ls.len() {
        assert(!ls[i].contains(ch));
        match numbered_heading(ls[i]) {
            Some((lv, t)) => {
                let c2 = bump(c, lv);
                lemma_renum_free(ls, i + 1, c2, ch);
                let n = number_text(c2, lv);
                lemma_number_parts(c2, lv, 1);
                lemma_dotted_chars(number_parts(c2, lv, 1));
                let x = repeat_char('#', lv) + seq![' '] + n + seq![' '] + t;
                assert(!t.contains(ch)) by {
                    let l = ls[i];
                    let h = hash_run(l, 0);
                    let q: int = (h + ws_run(l, h as int)) as int;
                    let rr: int = q + number_len(l, q);
                    let st: int = rr + ws_run(l, rr);
                    if t.contains(ch) {
                        let k = choose|k: int| 0 <= k < t.len() && t[k] == ch;
                        if st < l.len() {
                            assert(t == l.subrange(st, l.len() as int));
                            assert(l[st + k] == ch);
                        } else {
                            assert(t == l.subrange(l.len() - 1, l.len() as int));
                            assert(l[l.len() - 1] == ch);
                        }
                    }
                }
                assert(!x.contains(ch)) by {
                    if x.contains(ch) {
                        let k = choose|k: int| 0 <= k < x.len() && x[k] == ch;
                        if k >= lv + 2 + n.len() {
                            assert(t[k - lv - 2 - n.len()] == ch);
                        } else if lv + 1 <= k < lv + 1 + n.len() {
                            assert(n[k - lv - 1] == ch);
                        }
                    }
                }
                let rest = renum_from(ls, i + 1, c2);
                assert(r == seq![x] + rest);
                assert forall|j: int| 0 <= j < r.len() implies !(#[trigger] r[j]).contains(ch) by {
                    if j > 0 {
                        assert(r[j] == rest[j - 1]);
                    }
                }
            },
            None => {
                lemma_renum_free(ls, i + 1, c, ch);
                let rest = renum_from(ls, i + 1, c);
                assert(r == seq![ls[i]] + rest);
                assert forall|j: int| 0 <= j < r.len() implies !(#[trigger] r[j]).contains(ch) by {
                    if j > 0 {
                        assert(r[j] == rest[j - 1]);
                    }
                }
            },
        }
    }
}

/// The lines of a renumbered text, for a text without carriage returns,
/// are its lines renumbered, and it ends in a newline when the text does.
#[verifier::spinoff_prover]
proof fn lemma_renum_text_lines(content: Seq<char>)
    requires
        !content.contains('\r'),
    ensures
        text_lines(renum_spec(content)) == renum_from(text_lines(content), 0, zero_counters()),
        ends_with(renum_spec(content), seq!['\n']) == ends_with(content, seq!['\n']),
{
    let p = split_char(content, '\n');
    let ls = text_lines(content);
    let z = zero_counters();
    let r = renum_from(ls, 0, z);
    let y = renum_spec(content);
    crate::text::lemma_split_char_nonempty(content, '\n');
    crate::text::lemma_split_pieces_free(content, '\n');
    crate::text::lemma_split_pieces_without(content, '\n', '\r');
    // The lines of the text are its pieces.
    assert forall|j: int| 0 <= j < ls.len() implies !(#[trigger] ls[j]).contains('\n') && !ls[j].contains('\r')
        && ls[j] == p[j] by {
        assert(!p[j].contains('\r'));
        if p[j].len() > 0 {
            assert(p[j].contains(p[j].last()));
        }
    }
    renumbering_keeps_lines(ls, 0, z);
    lemma_renum_free(ls, 0, z, '\n');
    lemma_renum_free(ls, 0, z, '\r');
    renumbering_twice_changes_nothing(ls, 0, z);
    assert(seq!['\n'].len() == 1);
    if content.len() == 0 {
        assert(ls.len() == 0);
        assert(r.len() == 0);
        assert(!ends_with(content, seq!['\n']));
        assert(y =~= Seq::<char>::empty());
        assert(y == content);
    } else if content.last() == '\n' {
        assert(ends_with(content, seq!['\n'])) by {
            assert(content.subrange(content.len() - 1, content.len() as int) =~= seq!['\n']);
        }
        crate::text::lemma_split_char_nonempty(content.drop_last(), '\n');
        assert(p.len() >= 2);
        assert(r.len() >= 1);
        assert(y == join(r, seq!['\n']) + seq!['\n']);
        crate::text::lemma_split_joined_then(r, Seq::<char>::empty(), '\n');
        assert(y =~= join(r, seq!['\n']) + seq!['\n'] + Seq::<char>::empty());
        let py = split_char(y, '\n');
        assert(py =~= r + seq![Seq::<char>::empty()]);
        assert(y.last() == '\n');
        assert(text_lines(y) =~= r) by {
            assert forall|j: int| 0 <= j < r.len() implies crate::text::strip_cr(#[trigger] py[j]) == r[j] by {
                assert(py[j] == r[j]);
                assert(!r[j].contains('\r'));
                if r[j].len() > 0 {
                    assert(r[j].contains(r[j].last()));
                }
            }
        }
        assert(ends_with(y, seq!['\n'])) by {
            assert(y.subrange(y.len() - 1, y.len() as int) =~= seq!['\n']);
        }
    } else {
        assert(!ends_with(content, seq!['\n'])) by {
            if ends_with(content, seq!['\n']) {
                assert(content.subrange(content.len() - 1, content.len() as int)[0] == content.last());
            }
        }
        assert(ls.len() == p.len());
        assert(y == join(r, seq!['\n']) + Seq::<char>::empty());
        assert(y =~= join(r, seq!['\n']));
        // The last line is not empty.
        let k = r.len() - 1;
        assert(r[k].len() > 0) by {
            let d = content.drop_last();
            crate::text::lemma_split_char_nonempty(d, '\n');
            let pd = split_char(d, '\n');
            assert(p == pd.update(pd.len() - 1, pd.last().push(content.last())));
            assert(p[k].len() > 0);
            match numbered_heading(ls[k]) {
                Some((lv, t)) => {
                    lemma_numbered_title(ls[k]);
                    assert(starts_with(renum_from(ls, 0, z)[k - 0], repeat_char('#', lv) + seq![' ']));
                    assert(repeat_char('#', lv) + seq![' '] == (repeat_char('#', lv) + seq![' ']));
                    assert((repeat_char('#', lv) + seq![' ']).len() >= 1);
                },
                None => {
                    assert(renum_from(ls, 0, z)[k - 0] == ls[k]);
                    assert(ls[k] == p[k]);
                },
            }
        }
        crate::text::lemma_split_join(r, '\n');
        let lastc = r[k].last();
        assert(r[k].contains(lastc));
        assert(r[k] == r.last());
        if r.len() > 1 {
            assert(join(r, seq!['\n']) == join(r.drop_last(), seq!['\n']) + seq!['\n'] + r.last());
        } else {
            assert(join(r, seq!['\n']) == r[0]);
        }
        assert(y.last() == lastc);
        assert(y.last() != '\n');
        assert(text_lines(y) =~= r) by {
            let py = split_char(y, '\n');
            assert forall|j: int| 0 <= j < r.len() implies (if j < py.len() - 1 {
                crate::text::strip_cr(#[trigger] py[j])
            } else {
                py[j]
            }) == r[j] by {
                assert(!r[j].contains('\r'));
                if r[j].len() > 0 {
                    assert(r[j].contains(r[j].last()));
                }
            }
        }
        assert(!ends_with(y, seq!['\n'])) by {
            if ends_with(y, seq!['\n']) {
                assert(y.subrange(y.len() - 1, y.len() as int)[0] == y.last());
            }
        }
    }
}

/// Renumbering keeps the lines of a text without carriage returns: as many
/// lines, every line that is no numbered heading as it was at its place, and
/// each numbered heading with its level and title, only its number changed.
pub proof fn renumbering_keeps_text_lines(content: Seq<char>)
    requires
        !content.contains('\r'),
    ensures
        ({
            let ls = text_lines(content);
            let rs = text_lines(renum_spec(content));
            &&& rs.len() == ls.len()
            &&& forall|j: int|
                0 <= j < ls.len() ==> match numbered_heading(ls[j]) {
                    None => #[trigger] rs[j] == ls[j],
                    Some((lv, t)) => starts_with(rs[j], repeat_char('#', lv) + seq![' ']) && ends_with(
                        rs[j],
                        seq![' '] + t,
                    ),
                }
        }),
{
    let ls = text_lines(content);
    lemma_renum_text_lines(content);
    renumbering_keeps_lines(ls, 0, zero_counters());
    let rs = text_lines(renum_spec(content));
    assert forall|j: int| 0 <= j < ls.len() implies match numbered_heading(ls[j]) {
        None => #[trigger] rs[j] == ls[j],
        Some((lv, t)) => starts_with(rs[j], repeat_char('#', lv) + seq![' ']) && ends_with(rs[j], seq![' '] + t),
    } by {
        assert(rs[j] == renum_from(ls, 0, zero_counters())[j - 0]);
    }
}

/// Renumbering a renumbered text changes nothing, for a text without
/// carriage returns (lines ending in several of them lose one each time
/// they are read as lines).
pub proof fn renumbering_text_twice_changes_nothing(content: Seq<char>)
    requires
        !content.contains('\r'),
    ensures
        renum_spec(renum_spec(content)) == renum_spec(content),
{
    let ls = text_lines(content);
    let z = zero_counters();
    lemma_renum_text_lines(content);
    renumbering_twice_changes_nothing(ls, 0, z);
}

/// Adding a section after section `a` puts it after the last line of `a`:
/// the old text's lines up to the end of `a` (heading and all of its body)
/// begin the new text unchanged, and the next line is the new heading (the
/// title as it is when it starts with `#`, else the level's marks, a space
/// and the title), for a title on one line.
pub proof fn adding_after_keeps_the_section_whole(
    content: Seq<char>,
    title: Seq<char>,
    body: Seq<char>,
    a: Seq<char>,
    level: Option<u8>,
)
    requires
        !title.contains('\n'),
    ensures
        section_add_spec(content, title, body, Some(a), None, level) matches Ok(r) ==> (addressed_section(
            content,
            a,
        ) matches Ok(s) && {
            let old_lines = split_char(content, '\n');
            let new_lines = split_char(r, '\n');
            let lv: u8 = match level {
                Some(l) => l,
                None => 2,
            };
            &&& s.end_line < new_lines.len()
            &&& new_lines.take(s.end_line as int) == old_lines.take(s.end_line as int)
            &&& new_lines[s.end_line as int] == if crate::text::starts_with(title, seq!['#']) {
                title
            } else {
                repeat_char('#', lv as nat) + seq![' '] + title
            }
        }),
{
    if let Ok(r) = section_add_spec(content, title, body, Some(a), None, level) {
        let lv: u8 = match level {
            Some(l) => l,
            None => 2,
        };
        let s = addressed_section(content, a)->Ok_0;
        let pos = s.end_line;
        let h = new_heading(title, lv);
        let lines = split_char(content, '\n');
        assert(insert_spec(content, pos, h, body) == Ok::<Seq<char>, SectionErrorView>(r));
        assert(pos <= lines.len());
        assert(!h.contains('\n')) by {
            if h.contains('\n') {
                let k = choose|k: int| 0 <= k < h.len() && h[k] == '\n';
                if !crate::text::starts_with(title, seq!['#']) {
                    if k > lv {
                        assert(title[k - lv - 1] == '\n');
                    }
                }
                assert(title.contains('\n'));
            }
        }
        assert(crate::text::starts_with(h, seq!['#'])) by {
            if !crate::text::starts_with(title, seq!['#']) {
                assert(h[0] == '#');
                assert(h.subrange(0, 1) =~= seq!['#']);
            }
        }
        assert(crate::section::heading_of(h) == h);
        crate::section::inserting_keeps_surroundings(content, pos, h, body);
        let sl = crate::section::section_lines(h, body);
        let tail = if pos < lines.len() {
            lines.subrange(pos as int, lines.len() as int)
        } else {
            seq![Seq::<char>::empty()]
        };
        let nl = split_char(r, '\n');
        assert(nl == lines.take(pos as int) + sl + tail);
        assert(sl[0] == h);
        assert(nl[pos as int] == sl[0]);
        assert(nl.take(pos as int) =~= lines.take(pos as int));
    }
}

/// Adding a section before section `b` puts it right above `b`'s heading:
/// the old text's lines before that heading begin the new text unchanged,
/// the next line is the new heading, and the old text's lines from `b`'s
/// heading on end the new text unchanged, for a title on one line.
pub proof fn adding_before_puts_the_section_above(
    content: Seq<char>,
    title: Seq<char>,
    body: Seq<char>,
    b: Seq<char>,
    level: Option<u8>,
)
    requires
        !title.contains('\n'),
    ensures
        section_add_spec(content, title, body, None, Some(b), level) matches Ok(r) ==> (addressed_section(
            content,
            b,
        ) matches Ok(s) && {
            let old_lines = split_char(content, '\n');
            let new_lines = split_char(r, '\n');
            let p: int = if s.start_line > 0 { s.start_line - 1 } else { 0 };
            let lv: u8 = match level {
                Some(l) => l,
                None => 2,
            };
            &&& p < new_lines.len()
            &&& new_lines.take(p) == old_lines.take(p)
            &&& new_lines[p] == if crate::text::starts_with(title, seq!['#']) {
                title
            } else {
                repeat_char('#', lv as nat) + seq![' '] + title
            }
            &&& p < old_lines.len() ==> new_lines.subrange(
                new_lines.len() - (old_lines.len() - p),
                new_lines.len() as int,
            ) == old_lines.subrange(p, old_lines.len() as int)
        }),
{
    if let Ok(r) = section_add_spec(content, title, body, None, Some(b), level) {
        let lv: u8 = match level {
            Some(l) => l,
            None => 2,
        };
        let s = addressed_section(content, b)->Ok_0;
        let pos: nat = if s.start_line > 0 { (s.start_line - 1) as nat } else { 0 };
        let h = new_heading(title, lv);
        let lines = split_char(content, '\n');
        assert(insert_spec(content, pos, h, body) == Ok::<Seq<char>, SectionErrorView>(r));
        assert(pos <= lines.len());
        assert(!h.contains('\n')) by {
            if h.contains('\n') {
                let k = choose|k: int| 0 <= k < h.len() && h[k] == '\n';
                if !crate::text::starts_with(title, seq!['#']) {
                    if k > lv {
                        assert(title[k - lv - 1] == '\n');
                    }
                }
                assert(title.contains('\n'));
            }
        }
        assert(crate::text::starts_with(h, seq!['#'])) by {
            if !crate::text::starts_with(title, seq!['#']) {
                assert(h[0] == '#');
                assert(h.subrange(0, 1) =~= seq!['#']);
            }
        }
        assert(crate::section::heading_of(h) == h);
        crate::section::inserting_keeps_surroundings(content, pos, h, body);
        let sl = crate::section::section_lines(h, body);
        let tail = if pos < lines.len() {
            lines.subrange(pos as int, lines.len() as int)
        } else {
            seq![Seq::<char>::empty()]
        };
        let nl = split_char(r, '\n');
        assert(nl == lines.take(pos as int) + sl + tail);
        assert(sl[0] == h);
        assert(nl[pos as int] == sl[0]);
        assert(nl.take(pos as int) =~= lines.take(pos as int));
        if pos < lines.len() {
            assert(nl.subrange(nl.len() - (lines.len() - pos), nl.len() as int) =~= tail);
        }
    }
}

} // verus!
