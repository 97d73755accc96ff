//! Section addresses, and reading and editing sections of a document.
//!
//! Addresses come in three forms: a TOC index (`#1.1`, `1.2.3`), a header
//! path (`## Parent > ### Child`, `Parent > Child`), and a line range
//! (`L10-L25`, `10-25`, `L10`).

use vstd::prelude::*;
use crate::markdown::{Section, SectionView, opt_view, sections_view};
use crate::text::{
    append_chars, chars_of, dec_value, digit_value, is_ascii_digit, is_ws, join,
    join_range_into, occurs_at, slice_chars, split_char, split_on, starts_with, string_of,
    text_lines, lines_of, trim, trim_chars, trim_start, trim_start_char, trim_start_char_chars, vv,
    matches_at, join_chars, has_prefix, has_suffix, contains, contains_chars, is_whitespace,
    trim_start_chars, ends_with, eq_str_chars, strings_of, dec, push_decimal, lemma_join_cut,
    lemma_join_split, lemma_split_char_nonempty, lemma_join_append, lemma_split_join, lemma_split_pieces_free,
    lemma_split_joined_then,
};

verus! {

broadcast use vstd::string::group_string_axioms;

// ---------------------------------------------------------------------------
// Errors
// ---------------------------------------------------------------------------

/// Why a section operation failed.
#[derive(Debug, Clone, PartialEq, Eq)]
pub enum SectionError {
    /// The address is empty.
    EmptyAddress,
    /// The address matches none of the three forms.
    InvalidAddress(String),
    /// A line range starts at line 0.
    ZeroStartLine,
    /// A line range ends at line 0.
    ZeroEndLine,
    /// A line range starts after it ends (start, end).
    ReversedRange(usize, usize),
    /// A line range starts past the end of the text (start, line count).
    StartBeyondEnd(usize, usize),
    /// A section's start line is 0 or past the end of the text (start, line count).
    InvalidStartLine(usize, usize),
    /// New section content holds a heading (1-based line, its text).
    ContentHasHeading(usize, String),
    /// An insert position is past the end of the text (position, line count).
    PositionBeyondEnd(usize, usize),
    /// No section has this index.
    IndexNotFound(String),
    /// No section has this header path.
    PathNotFound(Vec<String>),
    /// No section overlaps this line range.
    RangeNotFound(usize, usize),
}

/// An error as a plain value.
pub enum SectionErrorView {
    EmptyAddress,
    InvalidAddress(Seq<char>),
    ZeroStartLine,
    ZeroEndLine,
    ReversedRange(nat, nat),
    StartBeyondEnd(nat, nat),
    InvalidStartLine(nat, nat),
    ContentHasHeading(nat, Seq<char>),
    PositionBeyondEnd(nat, nat),
    IndexNotFound(Seq<char>),
    PathNotFound(Seq<Seq<char>>),
    RangeNotFound(nat, nat),
}

impl View for SectionError {
    type V = SectionErrorView;

    open spec fn view(&self) -> SectionErrorView {
        match self {
            SectionError::EmptyAddress => SectionErrorView::EmptyAddress,
            SectionError::InvalidAddress(a) => SectionErrorView::InvalidAddress(a@),
            SectionError::ZeroStartLine => SectionErrorView::ZeroStartLine,
            SectionError::ZeroEndLine => SectionErrorView::ZeroEndLine,
            SectionError::ReversedRange(s, e) => SectionErrorView::ReversedRange(*s as nat, *e as nat),
            SectionError::StartBeyondEnd(s, n) => SectionErrorView::StartBeyondEnd(*s as nat, *n as nat),
            SectionError::InvalidStartLine(s, n) => SectionErrorView::InvalidStartLine(
                *s as nat,
                *n as nat,
            ),
            SectionError::ContentHasHeading(l, t) => SectionErrorView::ContentHasHeading(*l as nat, t@),
            SectionError::PositionBeyondEnd(p, n) => SectionErrorView::PositionBeyondEnd(
                *p as nat,
                *n as nat,
            ),
            SectionError::IndexNotFound(i) => SectionErrorView::IndexNotFound(i@),
            SectionError::PathNotFound(p) => SectionErrorView::PathNotFound(p.deep_view()),
            SectionError::RangeNotFound(s, e) => SectionErrorView::RangeNotFound(*s as nat, *e as nat),
        }
    }
}

// ---------------------------------------------------------------------------
// Addresses
// ---------------------------------------------------------------------------

/// A parsed section address.
#[derive(Debug, Clone, PartialEq, Eq)]
pub enum SectionAddress {
    /// TOC index such as "#1.1".
    Index(String),
    /// Header path such as ["Parent", "Child"].
    HeaderPath(Vec<String>),
    /// Line range, 1-based and inclusive.
    LineRange(usize, usize),
}

/// An address as a plain value.
pub enum AddressView {
    Index(Seq<char>),
    HeaderPath(Seq<Seq<char>>),
    LineRange(nat, nat),
}

impl View for SectionAddress {
    type V = AddressView;

    open spec fn view(&self) -> AddressView {
        match self {
            SectionAddress::Index(i) => AddressView::Index(i@),
            SectionAddress::HeaderPath(p) => AddressView::HeaderPath(p.deep_view()),
            SectionAddress::LineRange(s, e) => AddressView::LineRange(*s as nat, *e as nat),
        }
    }
}

impl SectionAddress {
    /// Whether this is a line range.
    pub fn is_line_range(&self) -> (b: bool)
        ensures
            b == (self@ is LineRange),
    {
        match self {
            SectionAddress::LineRange(_, _) => true,
            _ => false,
        }
    }

    /// Whether this is a TOC index.
    pub fn is_index(&self) -> (b: bool)
        ensures
            b == (self@ is Index),
    {
        match self {
            SectionAddress::Index(_) => true,
            _ => false,
        }
    }

    /// Whether this is a header path.
    pub fn is_header_path(&self) -> (b: bool)
        ensures
            b == (self@ is HeaderPath),
    {
        match self {
            SectionAddress::HeaderPath(_) => true,
            _ => false,
        }
    }
}

/// Whether `c` is a decimal digit as the `regex` crate's `\d` matches it
/// (Unicode general category Nd).
pub uninterp spec fn regex_decimal(c: char) -> bool;

/// Whether `c` is a `\d` digit: among ASCII characters exactly `0` to `9`
/// (the ASCII members of `\p{Nd}`), otherwise as `regex_decimal` says.
pub open spec fn decimal_char(c: char) -> bool {
    if (c as u32) < 128 {
        is_ascii_digit(c)
    } else {
        regex_decimal(c)
    }
}

/// Tests one character against the `regex` pattern `^\d$`.
///
/// Trusted: the answer is `decimal_char(c)`: the `regex` documentation
/// defines `\d` as `\p{Nd}`, whose ASCII members are the digits `0` to `9`;
/// of other characters the contract names the answer and says nothing more.
#[verifier::external_body]
pub(crate) fn is_decimal_char(c: char) -> (b: bool)
    ensures
        (c as u32) < 128 ==> b == is_ascii_digit(c),
        (c as u32) >= 128 ==> b == regex_decimal(c),
{
    let mut buf = [0u8; 4];
    regex::Regex::new(r"^\d$").unwrap().is_match(c.encode_utf8(&mut buf))
}


/// All characters of `s` are `\d` digits.
pub open spec fn all_decimal(s: Seq<char>) -> bool {
    forall|i: int| 0 <= i < s.len() ==> decimal_char(#[trigger] s[i])
}

/// All characters of `s` are ASCII digits.
pub open spec fn all_ascii_digits(s: Seq<char>) -> bool {
    forall|i: int| 0 <= i < s.len() ==> is_ascii_digit(#[trigger] s[i])
}

/// The number that `str::parse::<usize>` reads from a run of `\d` digits:
/// defined when every digit is ASCII and the value fits in a `usize`.
pub open spec fn parse_digits(s: Seq<char>) -> Option<nat> {
    if s.len() > 0 && all_ascii_digits(s) && dec_value(s) <= usize::MAX {
        Some(dec_value(s))
    } else {
        None
    }
}

/// Length of the run of `\d` digits at the start of `s`.
pub open spec fn digit_run(s: Seq<char>) -> nat
    decreases s.len(),
{
    if s.len() > 0 && decimal_char(s[0]) {
        1 + digit_run(s.drop_first())
    } else {
        0
    }
}

/// `s` without one leading `L`.
pub open spec fn skip_l(s: Seq<char>) -> Seq<char> {
    if s.len() > 0 && s[0] == 'L' {
        s.drop_first()
    } else {
        s
    }
}

/// The two digit runs of `L?(\d+)-L?(\d+)` when it matches all of `t`.
pub open spec fn range_parts(t: Seq<char>) -> Option<(Seq<char>, Seq<char>)> {
    let a = skip_l(t);
    let n = digit_run(a) as int;
    if n > 0 && n < a.len() && a[n] == '-' {
        let b = skip_l(a.subrange(n + 1, a.len() as int));
        if b.len() > 0 && all_decimal(b) {
            Some((a.subrange(0, n), b))
        } else {
            None
        }
    } else {
        None
    }
}

/// The digit run of `L?(\d+)` when it matches all of `t`.
pub open spec fn single_part(t: Seq<char>) -> Option<Seq<char>> {
    let a = skip_l(t);
    if a.len() > 0 && all_decimal(a) {
        Some(a)
    } else {
        None
    }
}

/// The numbers of a line range, checked: both at least 1, the start not
/// after the end.
pub open spec fn checked_range(s: nat, e: nat) -> Result<(nat, nat), SectionErrorView> {
    if s == 0 {
        Err(SectionErrorView::ZeroStartLine)
    } else if e == 0 {
        Err(SectionErrorView::ZeroEndLine)
    } else if s > e {
        Err(SectionErrorView::ReversedRange(s, e))
    } else {
        Ok((s, e))
    }
}

/// What an address of the line-range form denotes: nothing when it does not
/// have that form or a number of it is not a `usize` (the address is then
/// read another way); else the range, or why it is invalid (a line 0, a
/// start after the end).
pub open spec fn line_range_spec(t: Seq<char>) -> Option<Result<(nat, nat), SectionErrorView>> {
    match range_parts(t) {
        Some((a, b)) => match (parse_digits(a), parse_digits(b)) {
            (Some(s), Some(e)) => Some(checked_range(s, e)),
            _ => None,
        },
        None => match single_part(t) {
            Some(a) => match parse_digits(a) {
                Some(v) => Some(checked_range(v, v)),
                None => None,
            },
            None => None,
        },
    }
}

} // verus!

verus! {

proof fn lemma_digit_run_from(s: Seq<char>, i: int)
    requires
        0 <= i <= s.len(),
        forall|j: int| 0 <= j < i ==> decimal_char(#[trigger] s[j]),
    ensures
        digit_run(s) == i + digit_run(s.subrange(i, s.len() as int)),
    decreases i,
{
    if i > 0 {
        assert(s.drop_first().subrange(i - 1, s.drop_first().len() as int) =~= s.subrange(i, s.len() as int));
        lemma_digit_run_from(s.drop_first(), i - 1);
    } else {
        assert(s.subrange(0, s.len() as int) =~= s);
    }
}

proof fn lemma_digit_run_bound(s: Seq<char>)
    ensures
        digit_run(s) <= s.len(),
        forall|j: int| 0 <= j < digit_run(s) ==> decimal_char(#[trigger] s[j]),
        digit_run(s) < s.len() ==> !decimal_char(s[digit_run(s) as int]),
    decreases s.len(),
{
    if s.len() > 0 && decimal_char(s[0]) {
        lemma_digit_run_bound(s.drop_first());
        assert forall|j: int| 0 <= j < digit_run(s) implies decimal_char(#[trigger] s[j]) by {
            if j > 0 {
                assert(s[j] == s.drop_first()[j - 1]);
            }
        }
        if digit_run(s) < s.len() {
            assert(s[digit_run(s) as int] == s.drop_first()[digit_run(s.drop_first()) as int]);
        }
    }
}

/// Length of the run of `\d` digits in `s` starting at `from`.
pub(crate) fn digit_run_at(s: &Vec<char>, from: usize) -> (n: usize)
    requires
        from <= s.len(),
    ensures
        n == digit_run(s@.subrange(from as int, s.len() as int)),
        from + n <= s.len(),
{
    let ghost t = s@.subrange(from as int, s.len() as int);
    let mut i = from;
    while i < s.len() && is_decimal_char(s[i])
        invariant
            from <= i <= s.len(),
            t == s@.subrange(from as int, s.len() as int),
            forall|j: int| 0 <= j < i - from ==> decimal_char(#[trigger] t[j]),
        decreases s.len() - i,
    {
        assert(t[i - from] == s@[i as int]);
        i += 1;
    }
    proof {
        lemma_digit_run_from(t, i - from);
        let r = t.subrange(i - from, t.len() as int);
        if r.len() > 0 {
            assert(r[0] == s@[i as int]);
        }
    }
    i - from
}

/// Whether every character of `s` is a `\d` digit.
fn all_decimal_chars(s: &Vec<char>) -> (b: bool)
    ensures
        b == all_decimal(s@),
{
    let n = digit_run_at(s, 0);
    proof {
        assert(s@.subrange(0, s.len() as int) =~= s@);
        lemma_digit_run_bound(s@);
    }
    n == s.len()
}

/// A prefix of a digit run has no larger value.
pub proof fn lemma_dec_value_prefix(s: Seq<char>, i: int)
    requires
        0 <= i <= s.len(),
    ensures
        dec_value(s.take(i)) <= dec_value(s),
    decreases s.len() - i,
{
    if i < s.len() {
        lemma_dec_value_prefix(s.drop_last(), i);
        assert(s.drop_last().take(i) =~= s.take(i));
    } else {
        assert(s.take(i) =~= s);
    }
}

/// Reads a run of digits as `str::parse::<usize>` does.
fn parse_usize_digits(s: &Vec<char>) -> (r: Option<usize>)
    ensures
        match parse_digits(s@) {
            Some(v) => r == Some(v as usize),
            None => r is None,
        },
{
    if s.len() == 0 {
        return None;
    }
    let mut acc: usize = 0;
    let mut i: usize = 0;
    assert(s@.take(0) =~= Seq::<char>::empty());
    while i < s.len()
        invariant
            i <= s.len(),
            s.len() > 0,
            acc as nat == dec_value(s@.take(i as int)),
            all_ascii_digits(s@.take(i as int)),
        decreases s.len() - i,
    {
        let c = s[i];
        if !('0' <= c && c <= '9') {
            assert(!all_ascii_digits(s@)) by {
                assert(!is_ascii_digit(s@[i as int]));
            }
            return None;
        }
        let d = (c as u32 - '0' as u32) as usize;
        assert(s@.take(i + 1).drop_last() =~= s@.take(i as int));
        assert(s@.take(i + 1).last() == c);
        assert(d as nat == digit_value(c));
        if acc > (usize::MAX - d) / 10 {
            proof {
                assert(acc * 10 + d > usize::MAX) by (nonlinear_arith)
                    requires
                        acc > (usize::MAX - d) / 10,
                        d <= 9,
                ;
                lemma_dec_value_prefix(s@, i + 1);
            }
            return None;
        }
        proof {
            assert(acc * 10 + d <= usize::MAX) by (nonlinear_arith)
                requires
                    acc <= (usize::MAX - d) / 10,
                    d <= 9,
            ;
        }
        acc = acc * 10 + d;
        assert(all_ascii_digits(s@.take(i + 1))) by {
            assert forall|j: int| 0 <= j < i + 1 implies is_ascii_digit(#[trigger] s@.take(i + 1)[j]) by {
                if j < i {
                    assert(s@.take(i + 1)[j] == s@.take(i as int)[j]);
                }
            }
        }
        i += 1;
    }
    assert(s@.take(s.len() as int) =~= s@);
    Some(acc)
}

/// The characters of `s` from `from` on, without one leading `L`.
fn skip_l_from(s: &Vec<char>, from: usize) -> (r: usize)
    requires
        from <= s.len(),
    ensures
        from <= r <= s.len(),
        s@.subrange(r as int, s.len() as int) == skip_l(s@.subrange(from as int, s.len() as int)),
{
    if from < s.len() && s[from] == 'L' {
        assert(s@.subrange(from + 1, s.len() as int) =~= s@.subrange(from as int, s.len() as int).drop_first());
        from + 1
    } else {
        from
    }
}

/// The result of `line_range_spec` as returned.
pub open spec fn range_result_view(r: Option<Result<(usize, usize), SectionError>>) -> Option<
    Result<(nat, nat), SectionErrorView>,
> {
    match r {
        Some(Ok((s, e))) => Some(Ok((s as nat, e as nat))),
        Some(Err(x)) => Some(Err(x@)),
        None => None,
    }
}

/// Checks the numbers of a line range.
fn check_range(s: usize, e: usize) -> (r: Result<(usize, usize), SectionError>)
    ensures
        match r {
            Ok((a, b)) => checked_range(s as nat, e as nat) == Ok::<(nat, nat), SectionErrorView>((a as nat, b as nat)),
            Err(x) => checked_range(s as nat, e as nat) == Err::<(nat, nat), SectionErrorView>(x@),
        },
{
    if s == 0 {
        Err(SectionError::ZeroStartLine)
    } else if e == 0 {
        Err(SectionError::ZeroEndLine)
    } else if s > e {
        Err(SectionError::ReversedRange(s, e))
    } else {
        Ok((s, e))
    }
}

/// Reads `L?(\d+)-L?(\d+)` or `L?(\d+)` as a line range.
fn try_parse_line_range(t: &Vec<char>) -> (r: Option<Result<(usize, usize), SectionError>>)
    ensures
        range_result_view(r) == line_range_spec(t@),
{
    let a0 = skip_l_from(t, 0);
    assert(t@.subrange(0, t.len() as int) =~= t@);
    let ghost a = skip_l(t@);
    let n = digit_run_at(t, a0);
    proof { lemma_digit_run_bound(a); }
    if n > 0 && a0 + n < t.len() && t[a0 + n] == '-' {
        assert(a[n as int] == t@[a0 + n]);
        let b0 = skip_l_from(t, a0 + n + 1);
        assert(t@.subrange(a0 + n + 1, t.len() as int) =~= a.subrange(n + 1, a.len() as int));
        let ghost b = t@.subrange(b0 as int, t.len() as int);
        let bv = slice_chars(t, b0, t.len());
        let all_b = all_decimal_chars(&bv);
        if bv.len() > 0 && all_b {
            let av = slice_chars(t, a0, a0 + n);
            assert(av@ =~= a.subrange(0, n as int));
            let s = parse_usize_digits(&av);
            let e = parse_usize_digits(&bv);
            match (s, e) {
                (Some(s), Some(e)) => Some(check_range(s, e)),
                _ => None,
            }
        } else {
            let ghost rp = range_parts(t@);
            assert(rp is None);
            single_line(t, a0)
        }
    } else {
        single_line(t, a0)
    }
}

/// Reads `L?(\d+)` as a one-line range (the `L` already skipped up to `a0`).
fn single_line(t: &Vec<char>, a0: usize) -> (r: Option<Result<(usize, usize), SectionError>>)
    requires
        a0 <= t.len(),
        t@.subrange(a0 as int, t.len() as int) == skip_l(t@),
    ensures
        range_result_view(r) == match single_part(t@) {
            Some(a) => match parse_digits(a) {
                Some(v) => Some(checked_range(v, v)),
                None => None,
            },
            None => None,
        },
{
    let av = slice_chars(t, a0, t.len());
    if av.len() > 0 && all_decimal_chars(&av) {
        match parse_usize_digits(&av) {
            Some(v) => Some(check_range(v, v)),
            None => None,
        }
    } else {
        None
    }
}

} // verus!

verus! {

/// Whether `st` has the form `\d+(\.\d+)*`.
pub open spec fn index_form(st: Seq<char>) -> bool {
    let segs = split_char(st, '.');
    forall|i: int| 0 <= i < segs.len() ==> #[trigger] segs[i].len() > 0 && all_decimal(segs[i])
}

/// Whether some dot-separated segment of `st` has a leading zero.
pub open spec fn has_leading_zero(st: Seq<char>) -> bool {
    let segs = split_char(st, '.');
    exists|i: int| 0 <= i < segs.len() && #[trigger] segs[i].len() > 1 && segs[i][0] == '0'
}

/// The TOC index an address denotes (`#1.2` or `1.2`), with its `#`.
pub open spec fn index_spec(t: Seq<char>) -> Option<Seq<char>> {
    let st = trim_start_char(t, '#');
    if index_form(st) && !has_leading_zero(st) {
        Some(seq!['#'] + st)
    } else {
        None
    }
}

/// The title a header path component names: without surrounding
/// whitespace and leading `#` marks.
pub open spec fn path_title(part: Seq<char>) -> Seq<char> {
    trim(trim_start_char(trim(part), '#'))
}

/// ` > `
pub open spec fn path_sep() -> Seq<char> {
    seq![' ', '>', ' ']
}

/// The header path an address denotes, if no component is empty.
pub open spec fn header_path_spec(t: Seq<char>) -> Option<Seq<Seq<char>>> {
    let parts = crate::text::split_str(t, path_sep());
    if forall|i: int| 0 <= i < parts.len() ==> #[trigger] path_title(parts[i]).len() > 0 {
        Some(parts.map_values(|p: Seq<char>| path_title(p)))
    } else {
        None
    }
}

/// How an address string is read: trimmed, then tried as a line range (one
/// with a line 0 or a start after its end is an error; one whose numbers are
/// too large for a `usize` is read another way), as an index, and as a
/// header path, in that order.
pub open spec fn parse_address(a: Seq<char>) -> Result<AddressView, SectionErrorView> {
    let t = trim(a);
    if t.len() == 0 {
        Err(SectionErrorView::EmptyAddress)
    } else {
        match line_range_spec(t) {
            Some(Ok((s, e))) => Ok(AddressView::LineRange(s, e)),
            Some(Err(x)) => Err(x),
            None => match index_spec(t) {
                Some(ix) => Ok(AddressView::Index(ix)),
                None => match header_path_spec(t) {
                    Some(p) => Ok(AddressView::HeaderPath(p)),
                    None => Err(SectionErrorView::InvalidAddress(t)),
                },
            },
        }
    }
}

/// Reads `#1.2.3` or `1.2.3` as an index.
fn try_parse_index(t: &Vec<char>) -> (r: Option<Vec<char>>)
    ensures
        match index_spec(t@) {
            Some(ix) => r matches Some(v) && v@ == ix,
            None => r is None,
        },
{
    let st = trim_start_char_chars(t, '#');
    let segs = split_on(&st, '.');
    let mut i: usize = 0;
    while i < segs.len()
        invariant
            i <= segs.len(),
            vv(segs@) == split_char(st@, '.'),
            st@ == trim_start_char(t@, '#'),
            forall|j: int| 0 <= j < i ==> #[trigger] vv(segs@)[j].len() > 0 && all_decimal(vv(segs@)[j]),
        decreases segs.len() - i,
    {
        assert(vv(segs@)[i as int] == segs@[i as int]@);
        if segs[i].len() == 0 || !all_decimal_chars(&segs[i]) {
            assert(!(split_char(st@, '.')[i as int].len() > 0 && all_decimal(
                split_char(st@, '.')[i as int],
            )));
            return None;
        }
        i += 1;
    }
    let mut k: usize = 0;
    while k < segs.len()
        invariant
            k <= segs.len(),
            vv(segs@) == split_char(st@, '.'),
            st@ == trim_start_char(t@, '#'),
            index_form(st@),
            forall|j: int| 0 <= j < k ==> !(#[trigger] vv(segs@)[j].len() > 1 && vv(segs@)[j][0] == '0'),
        decreases segs.len() - k,
    {
        assert(vv(segs@)[k as int] == segs@[k as int]@);
        if segs[k].len() > 1 && segs[k][0] == '0' {
            assert(split_char(st@, '.')[k as int].len() > 1 && split_char(st@, '.')[k as int][0]
                == '0');
            assert(has_leading_zero(st@));
            return None;
        }
        k += 1;
    }
    let mut r: Vec<char> = Vec::new();
    r.push('#');
    append_chars(&mut r, &st);
    assert(r@ =~= seq!['#'] + st@);
    Some(r)
}

/// Reads `## Parent > ### Child` as a header path.
fn try_parse_header_path(t: &Vec<char>) -> (r: Option<Vec<Vec<char>>>)
    ensures
        match header_path_spec(t@) {
            Some(p) => r matches Some(v) && vv(v@) == p,
            None => r is None,
        },
{
    let mut sep: Vec<char> = Vec::new();
    sep.push(' ');
    sep.push('>');
    sep.push(' ');
    assert(sep@ =~= path_sep());
    let parts = crate::text::split_on_str(t, &sep);
    let ghost pv = vv(parts@);
    let mut result: Vec<Vec<char>> = Vec::new();
    let mut i: usize = 0;
    while i < parts.len()
        invariant
            i <= parts.len(),
            pv == vv(parts@),
            pv == crate::text::split_str(t@, path_sep()),
            vv(result@) == pv.take(i as int).map_values(|p: Seq<char>| path_title(p)),
            forall|j: int| 0 <= j < i ==> #[trigger] path_title(pv[j]).len() > 0,
        decreases parts.len() - i,
    {
        let part = trim_chars(&parts[i]);
        let stripped = trim_start_char_chars(&part, '#');
        let title = trim_chars(&stripped);
        assert(title@ == path_title(pv[i as int]));
        if title.len() == 0 {
            return None;
        }
        let ghost old_r = vv(result@);
        let ghost tv = title@;
        result.push(title);
        assert(vv(result@) =~= old_r.push(tv));
        assert(pv.take(i + 1).map_values(|p: Seq<char>| path_title(p)) =~= pv.take(i as int).map_values(
            |p: Seq<char>| path_title(p),
        ).push(tv));
        i += 1;
    }
    assert(pv.take(parts.len() as int) =~= pv);
    Some(result)
}

/// Parses a section address: a line range (`L10-L25`, `10-25`, `L10`), an
/// index (`#1.1`, `1.1`), or a header path (`## A > ### B`, `A > B`).
pub fn parse_section_address(addr: &str) -> (r: Result<SectionAddress, SectionError>)
    ensures
        match r {
            Ok(a) => parse_address(addr@) == Ok::<AddressView, SectionErrorView>(a@),
            Err(e) => parse_address(addr@) == Err::<AddressView, SectionErrorView>(e@),
        },
{
    let a = chars_of(addr);
    let t = trim_chars(&a);
    if t.len() == 0 {
        return Err(SectionError::EmptyAddress);
    }
    match try_parse_line_range(&t) {
        Some(Ok((s, e))) => {
            return Ok(SectionAddress::LineRange(s, e));
        },
        Some(Err(x)) => {
            return Err(x);
        },
        None => {},
    }
    if let Some(ix) = try_parse_index(&t) {
        return Ok(SectionAddress::Index(string_of(&ix)));
    }
    if let Some(p) = try_parse_header_path(&t) {
        return Ok(SectionAddress::HeaderPath(strings_of(&p)));
    }
    Err(SectionError::InvalidAddress(string_of(&t)))
}

} // verus!

verus! {

// ---------------------------------------------------------------------------
// Reading
// ---------------------------------------------------------------------------

/// `\n`
pub open spec fn nl() -> Seq<char> {
    seq!['\n']
}

/// The smaller of two naturals.
pub open spec fn min_nat(a: nat, b: nat) -> nat {
    if a <= b {
        a
    } else {
        b
    }
}

/// Lines `start..=end` (1-based) of `content`, split at `\n` and joined back;
/// `end` is cut to the last line.
pub open spec fn read_lines_spec(content: Seq<char>, start: nat, end: nat) -> Result<
    Seq<char>,
    SectionErrorView,
> {
    let lines = split_char(content, '\n');
    if start == 0 {
        Err(SectionErrorView::ZeroStartLine)
    } else if end == 0 {
        Err(SectionErrorView::ZeroEndLine)
    } else if start > end {
        Err(SectionErrorView::ReversedRange(start, end))
    } else if start > lines.len() {
        Err(SectionErrorView::StartBeyondEnd(start, lines.len()))
    } else {
        Ok(join(lines.subrange(start - 1, min_nat(end, lines.len()) as int), nl()))
    }
}

/// The view of a `Result<String, SectionError>`.
pub open spec fn text_result_view(r: Result<String, SectionError>) -> Result<Seq<char>, SectionErrorView> {
    match r {
        Ok(s) => Ok(s@),
        Err(e) => Err(e@),
    }
}

/// `\n` as a character vector.
pub fn nl_chars() -> (r: Vec<char>)
    ensures
        r@ == nl(),
{
    let mut r: Vec<char> = Vec::new();
    r.push('\n');
    assert(r@ =~= nl());
    r
}

/// Reads lines `start..=end` (1-based, inclusive) of `content`.
pub fn read_section_lines(content: &str, start: usize, end: usize) -> (r: Result<String, SectionError>)
    ensures
        text_result_view(r) == read_lines_spec(content@, start as nat, end as nat),
{
    if start == 0 {
        return Err(SectionError::ZeroStartLine);
    }
    if end == 0 {
        return Err(SectionError::ZeroEndLine);
    }
    if start > end {
        return Err(SectionError::ReversedRange(start, end));
    }
    let c = chars_of(content);
    let lines = split_on(&c, '\n');
    if start > lines.len() {
        return Err(SectionError::StartBeyondEnd(start, lines.len()));
    }
    let end_idx = if end < lines.len() {
        end
    } else {
        lines.len()
    };
    let r = join_chars(&lines, start - 1, end_idx, &nl_chars());
    Ok(string_of(&r))
}

/// Reads a whole section, heading line included.
pub fn read_section_content(content: &str, section: &Section) -> (r: Result<String, SectionError>)
    ensures
        text_result_view(r) == read_lines_spec(
            content@,
            section.start_line as nat,
            section.end_line as nat,
        ),
{
    read_section_lines(content, section.start_line, section.end_line)
}

/// A section's first lines, for a summary.
#[derive(Debug, Clone, PartialEq, Eq)]
pub struct SectionPreview {
    /// TOC index such as "#1.1".
    pub index: String,
    /// Section title.
    pub title: String,
    /// Line where the section starts.
    pub line: usize,
    /// The first lines of the section.
    pub preview: String,
}

/// A preview as a plain value.
pub struct PreviewView {
    pub index: Seq<char>,
    pub title: Seq<char>,
    pub line: nat,
    pub preview: Seq<char>,
}

impl View for SectionPreview {
    type V = PreviewView;

    open spec fn view(&self) -> PreviewView {
        PreviewView { index: self.index@, title: self.title@, line: self.line as nat, preview: self.preview@ }
    }
}

impl SectionPreview {
    /// Creates a preview from its parts.
    pub fn new(index: String, title: String, line: usize, preview: String) -> (p: Self)
        ensures
            p.index == index,
            p.title == title,
            p.line == line,
            p.preview == preview,
    {
        SectionPreview { index, title, line, preview }
    }
}

/// `a - b`, or 0 when `b > a`.
pub open spec fn sat_sub(a: nat, b: nat) -> nat {
    if a >= b {
        (a - b) as nat
    } else {
        0
    }
}

/// The preview of a section: up to `n` lines after its heading line, not
/// past the section's last line nor the text's end.
pub open spec fn preview_of(lines: Seq<Seq<char>>, s: SectionView, n: nat) -> Seq<char> {
    let start_idx = s.start_line;
    let end_idx = min_nat(min_nat(s.start_line + n, s.end_line), lines.len());
    if start_idx < end_idx {
        join(lines.subrange(start_idx as int, end_idx as int), nl())
    } else {
        Seq::empty()
    }
}

/// The previews of sections.
pub open spec fn previews_of(content: Seq<char>, secs: Seq<SectionView>, n: nat) -> Seq<PreviewView> {
    Seq::new(
        secs.len(),
        |i: int|
            PreviewView {
                index: secs[i].index,
                title: secs[i].title,
                line: secs[i].start_line,
                preview: preview_of(split_char(content, '\n'), secs[i], n),
            },
    )
}

/// The views of previews.
pub open spec fn previews_view(v: Seq<SectionPreview>) -> Seq<PreviewView> {
    v.map_values(|p: SectionPreview| p@)
}

/// Previews of the given sections: each holds the first `preview_lines`
/// lines after its heading.
pub fn read_summary(content: &str, sections: &Vec<Section>, preview_lines: usize) -> (r: Result<
    Vec<SectionPreview>,
    SectionError,
>)
    requires
        forall|i: int|
            0 <= i < sections.len() ==> #[trigger] sections@[i].start_line + preview_lines
                <= usize::MAX,
    ensures
        r matches Ok(v) && previews_view(v@) == previews_of(
            content@,
            sections_view(sections@),
            preview_lines as nat,
        ),
{
    let c = chars_of(content);
    let lines = split_on(&c, '\n');
    let ghost secs = sections_view(sections@);
    let mut previews: Vec<SectionPreview> = Vec::new();
    let mut i: usize = 0;
    while i < sections.len()
        invariant
            i <= sections.len(),
            secs == sections_view(sections@),
            vv(lines@) == split_char(content@, '\n'),
            forall|j: int|
                0 <= j < sections.len() ==> #[trigger] sections@[j].start_line + preview_lines
                    <= usize::MAX,
            previews_view(previews@) == previews_of(content@, secs, preview_lines as nat).take(
                i as int,
            ),
        decreases sections.len() - i,
    {
        let section = &sections[i];
        assert(secs[i as int] == section@);
        let start_idx = section.start_line;
        let sum = section.start_line + preview_lines;
        let content_end = if sum < section.end_line {
            sum
        } else {
            section.end_line
        };
        let end_idx = if content_end < lines.len() {
            content_end
        } else {
            lines.len()
        };
        let preview_text = if start_idx < end_idx {
            let p = join_chars(&lines, start_idx, end_idx, &nl_chars());
            string_of(&p)
        } else {
            String::new()
        };
        let ghost old_p = previews_view(previews@);
        let pv = SectionPreview::new(
            section.index.clone(),
            section.title.clone(),
            section.start_line,
            preview_text,
        );
        let ghost pvv = pv@;
        previews.push(pv);
        assert(previews_view(previews@) =~= old_p.push(pvv));
        assert(previews_of(content@, secs, preview_lines as nat).take(i + 1) =~= previews_of(
            content@,
            secs,
            preview_lines as nat,
        ).take(i as int).push(pvv));
        i += 1;
    }
    assert(previews_of(content@, secs, preview_lines as nat).take(sections.len() as int)
        =~= previews_of(content@, secs, preview_lines as nat));
    Ok(previews)
}

} // verus!

verus! {

// ---------------------------------------------------------------------------
// Editing
// ---------------------------------------------------------------------------

/// The first `k` lines, each followed by its newline (nothing when `k` is 0).
pub open spec fn leading_lines(lines: Seq<Seq<char>>, k: int) -> Seq<char> {
    if k > 0 {
        join(lines.take(k), nl()) + nl()
    } else {
        Seq::empty()
    }
}

/// Number of leading `#` marks.
pub open spec fn leading_hashes(t: Seq<char>) -> nat {
    (t.len() - trim_start_char(t, '#').len()) as nat
}

/// Whether a line of new content reads as a markdown heading: after
/// leading whitespace it starts with `#`, holds a space, and begins with at
/// most six `#` marks.
pub open spec fn looks_like_heading(line: Seq<char>) -> bool {
    let t = trim_start(line);
    starts_with(t, seq!['#']) && contains(t, seq![' ']) && leading_hashes(t) <= 6
}

/// The first line at or after `i` that reads as a heading.
pub open spec fn first_heading_line(ls: Seq<Seq<char>>, i: int) -> Option<int>
    decreases ls.len() - i,
{
    if i < 0 || i >= ls.len() {
        None
    } else if looks_like_heading(ls[i]) {
        Some(i)
    } else {
        first_heading_line(ls, i + 1)
    }
}

/// The lines of `content` after the section, joined.
pub open spec fn after_part(lines: Seq<Seq<char>>, end_line: nat) -> Seq<char> {
    let ce = min_nat(end_line, lines.len());
    if ce < lines.len() {
        join(lines.subrange(ce as int, lines.len() as int), nl())
    } else {
        Seq::empty()
    }
}

/// New content, and a newline after it when it lacks one and more text follows.
pub open spec fn content_then(new: Seq<char>, after: Seq<char>) -> Seq<char> {
    new + if !ends_with(new, nl()) && after.len() > 0 {
        nl()
    } else {
        Seq::<char>::empty()
    }
}

/// The text with the body of a section replaced: every line up to and
/// including the heading line stays, the lines after it up to the end of
/// the section become `new`, and the lines after the section follow.
pub open spec fn replace_content_spec(content: Seq<char>, s: SectionView, new: Seq<char>) -> Result<
    Seq<char>,
    SectionErrorView,
> {
    let lines = split_char(content, '\n');
    if s.start_line == 0 || s.start_line > lines.len() {
        Err(SectionErrorView::InvalidStartLine(s.start_line, lines.len()))
    } else {
        let after = after_part(lines, s.end_line);
        match first_heading_line(text_lines(new), 0) {
            Some(i) => Err(SectionErrorView::ContentHasHeading((i + 1) as nat, text_lines(new)[i])),
            None => Ok(leading_lines(lines, s.start_line as int) + (if new.len() > 0 {
                content_then(new, after)
            } else {
                Seq::empty()
            }) + after),
        }
    }
}

/// The text with a whole section (heading and body) replaced by `new`: the
/// lines before the section stay, `new` takes the section's place, and the
/// lines after the section follow.
pub open spec fn replace_full_spec(content: Seq<char>, s: SectionView, new: Seq<char>) -> Result<
    Seq<char>,
    SectionErrorView,
> {
    let lines = split_char(content, '\n');
    if s.start_line == 0 || s.start_line > lines.len() {
        Err(SectionErrorView::InvalidStartLine(s.start_line, lines.len()))
    } else {
        let after = after_part(lines, s.end_line);
        Ok(leading_lines(lines, s.start_line - 1) + content_then(new, after) + after)
    }
}

/// Whether a line reads as a heading (see `looks_like_heading`).
fn is_heading_like(line: &Vec<char>) -> (b: bool)
    ensures
        b == looks_like_heading(line@),
{
    let t = trim_start_chars(line);
    let mut hash: Vec<char> = Vec::new();
    hash.push('#');
    let mut space: Vec<char> = Vec::new();
    space.push(' ');
    assert(hash@ =~= seq!['#']);
    assert(space@ =~= seq![' ']);
    if has_prefix(&t, &hash) && contains_chars(&t, &space) {
        let rest = trim_start_char_chars(&t, '#');
        proof { crate::text::lemma_trim_start_char_len(t@, '#'); }
        t.len() - rest.len() <= 6
    } else {
        false
    }
}

/// The first line of `new_content` that reads as a heading.
fn find_heading_line(new_content: &str) -> (r: Option<(usize, Vec<char>)>)
    ensures
        match first_heading_line(text_lines(new_content@), 0) {
            Some(i) => r matches Some((k, l)) && k == i && l@ == text_lines(new_content@)[i],
            None => r is None,
        },
        r matches Some((k, l)) ==> k < usize::MAX,
{
    let c = chars_of(new_content);
    let ls = lines_of(&c);
    let mut i: usize = 0;
    while i < ls.len()
        invariant
            i <= ls.len(),
            vv(ls@) == text_lines(new_content@),
            first_heading_line(vv(ls@), 0) == first_heading_line(vv(ls@), i as int),
        decreases ls.len() - i,
    {
        assert(vv(ls@)[i as int] == ls@[i as int]@);
        if is_heading_like(&ls[i]) {
            return Some((i, ls[i].clone()));
        }
        i += 1;
    }
    None
}

/// The characters of the lines after a section.
fn lines_after(lines: &Vec<Vec<char>>, end_line: usize) -> (r: Vec<char>)
    ensures
        r@ == after_part(vv(lines@), end_line as nat),
{
    let nlc = nl_chars();
    let ce = if end_line < lines.len() {
        end_line
    } else {
        lines.len()
    };
    if ce < lines.len() {
        join_chars(lines, ce, lines.len(), &nlc)
    } else {
        Vec::new()
    }
}

/// Appends the first `k` lines, each followed by its newline.
fn push_leading_lines(out: &mut Vec<char>, lines: &Vec<Vec<char>>, k: usize)
    requires
        k <= lines.len(),
    ensures
        final(out)@ == old(out)@ + leading_lines(vv(lines@), k as int),
{
    if k > 0 {
        let nlc = nl_chars();
        join_range_into(out, lines, 0, k, &nlc);
        assert(vv(lines@).subrange(0, k as int) =~= vv(lines@).take(k as int));
        out.push('\n');
        assert(final(out)@ =~= old(out)@ + leading_lines(vv(lines@), k as int));
    } else {
        assert(old(out)@ + leading_lines(vv(lines@), k as int) =~= old(out)@);
    }
}

/// Appends new content, and a newline when it lacks one and `after` is not empty.
fn push_content_then(out: &mut Vec<char>, new: &Vec<char>, after: &Vec<char>)
    ensures
        final(out)@ == old(out)@ + content_then(new@, after@),
{
    append_chars(out, new);
    let nlc = nl_chars();
    if !has_suffix(new, &nlc) && after.len() > 0 {
        out.push('\n');
    }
    assert(final(out)@ =~= old(out)@ + content_then(new@, after@));
}

/// Replaces the body of a section (the heading line is kept).
pub fn replace_section_content(content: &str, section: &Section, new_content: &str) -> (r: Result<
    String,
    SectionError,
>)
    ensures
        text_result_view(r) == replace_content_spec(content@, section@, new_content@),
{
    let c = chars_of(content);
    let lines = split_on(&c, '\n');
    if section.start_line == 0 || section.start_line > lines.len() {
        return Err(SectionError::InvalidStartLine(section.start_line, lines.len()));
    }
    let after = lines_after(&lines, section.end_line);
    if let Some((i, line)) = find_heading_line(new_content) {
        return Err(SectionError::ContentHasHeading(i + 1, string_of(&line)));
    }
    let new = chars_of(new_content);
    let mut result: Vec<char> = Vec::new();
    push_leading_lines(&mut result, &lines, section.start_line);
    if new.len() > 0 {
        push_content_then(&mut result, &new, &after);
    }
    append_chars(&mut result, &after);
    let ghost expected = leading_lines(vv(lines@), section.start_line as int) + (if new@.len() > 0 {
        content_then(new@, after@)
    } else {
        Seq::<char>::empty()
    }) + after@;
    assert(result@ =~= expected);
    Ok(string_of(&result))
}

/// Replaces a whole section, heading included, with new text.
pub fn replace_section_full(content: &str, section: &Section, new_content: &str) -> (r: Result<
    String,
    SectionError,
>)
    ensures
        text_result_view(r) == replace_full_spec(content@, section@, new_content@),
{
    let c = chars_of(content);
    let lines = split_on(&c, '\n');
    if section.start_line == 0 || section.start_line > lines.len() {
        return Err(SectionError::InvalidStartLine(section.start_line, lines.len()));
    }
    let after = lines_after(&lines, section.end_line);
    let new = chars_of(new_content);
    let mut result: Vec<char> = Vec::new();
    push_leading_lines(&mut result, &lines, section.start_line - 1);
    push_content_then(&mut result, &new, &after);
    append_chars(&mut result, &after);
    assert(result@ =~= leading_lines(vv(lines@), section.start_line - 1) + content_then(new@, after@) + after@);
    Ok(string_of(&result))
}

} // verus!

verus! {

/// `## ` and the title, unless the title already starts with `#`.
pub open spec fn heading_of(title: Seq<char>) -> Seq<char> {
    if starts_with(title, seq!['#']) {
        title
    } else {
        seq!['#', '#', ' '] + title
    }
}

/// The body of a new section: nothing when it is empty, else the body with
/// a final newline.
pub open spec fn body_block(body: Seq<char>) -> Seq<char> {
    if body.len() > 0 {
        body + if !ends_with(body, nl()) {
            nl()
        } else {
            Seq::<char>::empty()
        }
    } else {
        Seq::<char>::empty()
    }
}

/// The text of a new section: its heading line, then its body.
pub open spec fn new_section_text(title: Seq<char>, body: Seq<char>) -> Seq<char> {
    heading_of(title) + nl() + body_block(body)
}

/// The text with a new section inserted after line `pos` (0 = at the
/// start): the first `pos` lines, each with its newline, the new section,
/// then the remaining lines.
pub open spec fn insert_spec(content: Seq<char>, pos: nat, title: Seq<char>, body: Seq<char>) -> Result<
    Seq<char>,
    SectionErrorView,
> {
    let lines = split_char(content, '\n');
    if pos > lines.len() {
        Err(SectionErrorView::PositionBeyondEnd(pos, lines.len()))
    } else {
        Ok(
            (if pos > 0 {
                join(lines.take(pos as int), nl()) + nl()
            } else {
                Seq::<char>::empty()
            }) + new_section_text(title, body) + join(lines.subrange(pos as int, lines.len() as int), nl()),
        )
    }
}

/// Inserts a new section after line `position_line` (0 = start of file).
pub fn insert_section(content: &str, position_line: usize, title: &str, body: &str) -> (r: Result<
    String,
    SectionError,
>)
    ensures
        text_result_view(r) == insert_spec(content@, position_line as nat, title@, body@),
{
    let c = chars_of(content);
    let lines = split_on(&c, '\n');
    if position_line > lines.len() {
        return Err(SectionError::PositionBeyondEnd(position_line, lines.len()));
    }
    let ghost lv = vv(lines@);
    let t = chars_of(title);
    let b = chars_of(body);
    let nlc = nl_chars();
    let mut hash: Vec<char> = Vec::new();
    hash.push('#');
    assert(hash@ =~= seq!['#']);
    let mut result: Vec<char> = Vec::new();
    if position_line > 0 {
        join_range_into(&mut result, &lines, 0, position_line, &nlc);
        assert(lv.subrange(0, position_line as int) =~= lv.take(position_line as int));
        result.push('\n');
    }
    let ghost r1 = result@;
    if !has_prefix(&t, &hash) {
        result.push('#');
        result.push('#');
        result.push(' ');
    }
    append_chars(&mut result, &t);
    result.push('\n');
    if b.len() > 0 {
        append_chars(&mut result, &b);
        if !has_suffix(&b, &nlc) {
            result.push('\n');
        }
    }
    assert(result@ =~= r1 + new_section_text(t@, b@));
    join_range_into(&mut result, &lines, position_line, lines.len(), &nlc);
    assert(r1 =~= if position_line > 0 {
        join(lv.take(position_line as int), nl()) + nl()
    } else {
        Seq::<char>::empty()
    });
    assert(result@ =~= r1 + new_section_text(t@, b@) + join(lv.subrange(position_line as int, lv.len() as int), nl()));
    Ok(string_of(&result))
}

/// `s` with trailing newlines reduced to one while it ends in two.
pub open spec fn collapse_newlines(s: Seq<char>) -> Seq<char>
    decreases s.len(),
{
    if s.len() >= 2 && s.last() == '\n' && s[s.len() - 2] == '\n' {
        collapse_newlines(s.drop_last())
    } else {
        s
    }
}

/// Number of blank lines at or after position `i` before the first non-blank one.
pub open spec fn blank_run(ls: Seq<Seq<char>>, i: int) -> nat
    decreases ls.len() - i,
{
    if 0 <= i < ls.len() && trim(ls[i]).len() == 0 {
        1 + blank_run(ls, i + 1)
    } else {
        0
    }
}

/// The text with a section removed, heading included: the lines before the
/// section less the empty lines at their end, each with its newline; one
/// blank line; then the lines after the section from the first one that is
/// not blank. With no line after the section, the lines before it stay as
/// they are; with none before it, the text starts at the lines after it;
/// when the lines before it are all empty, two or more of them leave one
/// newline.
pub open spec fn delete_spec(content: Seq<char>, s: SectionView) -> Result<Seq<char>, SectionErrorView> {
    let lines = split_char(content, '\n');
    if s.start_line == 0 || s.start_line > lines.len() {
        Err(SectionErrorView::InvalidStartLine(s.start_line, lines.len()))
    } else {
        let b = lines.take(s.start_line - 1);
        let ei = min_nat(s.end_line, lines.len());
        let after = if ei < lines.len() {
            lines.subrange(ei as int, lines.len() as int)
        } else {
            Seq::<Seq<char>>::empty()
        };
        let ac = after.subrange(blank_run(after, 0) as int, after.len() as int);
        let p = without_trailing_empty(b);
        Ok(
            if b.len() == 0 {
                join(ac, nl())
            } else if after.len() == 0 {
                join(b, nl())
            } else {
                let head = if p.len() > 0 {
                    join(p, nl()) + nl()
                } else if b.len() >= 2 {
                    nl()
                } else {
                    Seq::<char>::empty()
                };
                if ac.len() > 0 {
                    head + (if head.len() > 0 {
                        nl()
                    } else {
                        Seq::<char>::empty()
                    }) + join(ac, nl())
                } else {
                    head
                }
            },
        )
    }
}

/// The steps of a deletion, as `delete_section` takes them (see
/// `delete_spec` for what they come to).
spec fn delete_steps(content: Seq<char>, s: SectionView) -> Result<Seq<char>, SectionErrorView> {
    let lines = split_char(content, '\n');
    if s.start_line == 0 || s.start_line > lines.len() {
        Err(SectionErrorView::InvalidStartLine(s.start_line, lines.len()))
    } else {
        let si = s.start_line - 1;
        let ei = min_nat(s.end_line, lines.len());
        let before = lines.take(si);
        let after = if ei < lines.len() {
            lines.subrange(ei as int, lines.len() as int)
        } else {
            Seq::<Seq<char>>::empty()
        };
        let r1 = if before.len() > 0 {
            let j = join(before, nl());
            if after.len() > 0 {
                let j2 = collapse_newlines(j);
                if j2.len() > 0 && !ends_with(j2, nl()) {
                    j2 + nl()
                } else {
                    j2
                }
            } else {
                j
            }
        } else {
            Seq::<char>::empty()
        };
        Ok(
            if after.len() > 0 {
                let skip = blank_run(after, 0);
                let ac = after.subrange(skip as int, after.len() as int);
                if ac.len() > 0 {
                    let r2 = if r1.len() > 0 && !ends_with(r1, nl()) {
                        r1 + nl()
                    } else {
                        r1
                    };
                    let r3 = if r2.len() > 0 {
                        r2 + nl()
                    } else {
                        r2
                    };
                    r3 + join(ac, nl())
                } else {
                    r1
                }
            } else {
                r1
            },
        )
    }
}

proof fn lemma_blank_run_bound(ls: Seq<Seq<char>>, i: int)
    requires
        0 <= i <= ls.len(),
    ensures
        i + blank_run(ls, i) <= ls.len(),
    decreases ls.len() - i,
{
    if i < ls.len() && trim(ls[i]).len() == 0 {
        lemma_blank_run_bound(ls, i + 1);
    }
}

/// Removes a section, heading included.
pub fn delete_section(content: &str, section: &Section) -> (r: Result<String, SectionError>)
    ensures
        text_result_view(r) == delete_spec(content@, section@),
{
    proof {
        lemma_delete_steps(content@, section@);
    }
    let c = chars_of(content);
    let lines = split_on(&c, '\n');
    if section.start_line == 0 || section.start_line > lines.len() {
        return Err(SectionError::InvalidStartLine(section.start_line, lines.len()));
    }
    let ghost lv = vv(lines@);
    let nlc = nl_chars();
    let start_idx = section.start_line - 1;
    let end_idx = if section.end_line < lines.len() {
        section.end_line
    } else {
        lines.len()
    };
    let has_after = end_idx < lines.len();
    let ghost before_s = lv.take(start_idx as int);
    let ghost after_s = if end_idx < lines.len() {
        lv.subrange(end_idx as int, lv.len() as int)
    } else {
        Seq::<Seq<char>>::empty()
    };
    let ghost r1_s = if before_s.len() > 0 {
        let j = join(before_s, nl());
        if after_s.len() > 0 {
            let j2 = collapse_newlines(j);
            if j2.len() > 0 && !ends_with(j2, nl()) {
                j2 + nl()
            } else {
                j2
            }
        } else {
            j
        }
    } else {
        Seq::<char>::empty()
    };
    let mut result: Vec<char> = Vec::new();
    if start_idx > 0 {
        result = join_chars(&lines, 0, start_idx, &nlc);
        assert(lv.subrange(0, start_idx as int) =~= lv.take(start_idx as int));
        if has_after {
            let ghost j = result@;
            while result.len() >= 2 && result[result.len() - 1] == '\n' && result[result.len() - 2]
                == '\n'
                invariant
                    collapse_newlines(result@) == collapse_newlines(j),
                decreases result.len(),
            {
                assert(result@.drop_last() =~= result@.subrange(0, result.len() - 1));
                result.pop();
            }
            assert(collapse_newlines(result@) == result@);
            let ghost j2 = result@;
            if result.len() > 0 && !has_suffix(&result, &nlc) {
                result.push('\n');
                assert(result@ =~= j2 + nl());
            }
        }
    }
    assert(result@ =~= r1_s);
    let ghost r1 = result@;
    if has_after {
        let mut skip: usize = end_idx;
        while skip < lines.len() && trim_chars(&lines[skip]).len() == 0
            invariant
                end_idx <= skip <= lines.len(),
                lv == vv(lines@),
                blank_run(lv.subrange(end_idx as int, lv.len() as int), 0) == (skip - end_idx) + blank_run(
                    lv.subrange(end_idx as int, lv.len() as int),
                    skip - end_idx,
                ),
            decreases lines.len() - skip,
        {
            assert(lv.subrange(end_idx as int, lv.len() as int)[skip - end_idx] == lv[skip as int]);
            skip += 1;
        }
        let ghost after = lv.subrange(end_idx as int, lv.len() as int);
        proof {
            if skip < lines.len() {
                assert(after[skip - end_idx] == lv[skip as int]);
            }
            assert(blank_run(after, skip - end_idx) == 0);
            assert(after.subrange((skip - end_idx) as int, after.len() as int) =~= lv.subrange(
                skip as int,
                lv.len() as int,
            ));
        }
        assert(after_s == after);
        let ghost ac = after_s.subrange(blank_run(after_s, 0) as int, after_s.len() as int);
        assert(ac =~= lv.subrange(skip as int, lv.len() as int));
        if skip < lines.len() {
            if result.len() > 0 && !has_suffix(&result, &nlc) {
                result.push('\n');
                assert(result@ =~= r1 + nl());
            }
            let ghost r2 = result@;
            if result.len() > 0 {
                result.push('\n');
                assert(result@ =~= r2 + nl());
            }
            let ghost r3 = result@;
            join_range_into(&mut result, &lines, skip, lines.len(), &nlc);
            assert(result@ == r3 + join(lv.subrange(skip as int, lv.len() as int), nl()));
            assert(ac.len() > 0);
        } else {
            assert(ac.len() == 0);
        }
    } else {
        assert(after_s.len() == 0);
    }
    assert(lv == split_char(content@, '\n'));
    Ok(string_of(&result))
}


// ---------------------------------------------------------------------------
// Finding sections
// ---------------------------------------------------------------------------

/// Position of the first section at or after `i` whose index is `ix`.
pub open spec fn first_with_index(secs: Seq<SectionView>, ix: Seq<char>, i: int) -> Option<int>
    decreases secs.len() - i,
{
    if i < 0 || i >= secs.len() {
        None
    } else if secs[i].index == ix {
        Some(i)
    } else {
        first_with_index(secs, ix, i + 1)
    }
}

/// Finds the first section with the given index.
pub fn find_section_by_index<'a>(sections: &'a [Section], index: &str) -> (r: Option<&'a Section>)
    ensures
        r == match first_with_index(sections_view(sections@), index@, 0) {
            Some(k) => Some(&sections@[k]),
            None => None,
        },
{
    let ghost secs = sections_view(sections@);
    let ix = chars_of(index);
    let mut i: usize = 0;
    while i < sections.len()
        invariant
            i <= sections.len(),
            secs == sections_view(sections@),
            ix@ == index@,
            first_with_index(secs, index@, 0) == first_with_index(secs, index@, i as int),
        decreases sections.len() - i,
    {
        if eq_str_chars(sections[i].index.as_str(), &ix) {
            return Some(&sections[i]);
        }
        i += 1;
    }
    None
}

/// Whether a section can stand for one step of a header path: its trimmed
/// title is the trimmed step, its level is deeper than `level`, and, after the
/// first step, it lies within the section matched by the step before (it is
/// a descendant of that section: it starts after that section's heading and
/// not after that section's last line).
pub open spec fn path_step_ok(s: SectionView, step: Seq<char>, level: u8, parent: Option<SectionView>) -> bool {
    &&& trim(s.title) == trim(step)
    &&& s.level > level
    &&& match parent {
        Some(p) => p.start_line < s.start_line && s.start_line <= p.end_line,
        None => true,
    }
}

/// Position of the first section at or after `i` that can stand for a step.
pub open spec fn first_path_step(
    secs: Seq<SectionView>,
    step: Seq<char>,
    level: u8,
    parent: Option<SectionView>,
    i: int,
) -> Option<int>
    decreases secs.len() - i,
{
    if i < 0 || i >= secs.len() {
        None
    } else if path_step_ok(secs[i], step, level, parent) {
        Some(i)
    } else {
        first_path_step(secs, step, level, parent, i + 1)
    }
}

/// Follows a header path from step `k`, the last match being at `at` (if any).
pub open spec fn walk_path(secs: Seq<SectionView>, path: Seq<Seq<char>>, k: int, at: Option<int>) -> Option<int>
    decreases path.len() - k,
{
    if k < 0 || k >= path.len() {
        at
    } else {
        let level: u8 = match at {
            Some(j) => secs[j].level,
            None => 0,
        };
        let parent = match at {
            Some(j) => Some(secs[j]),
            None => None,
        };
        match first_path_step(secs, path[k], level, parent, 0) {
            Some(j) => walk_path(secs, path, k + 1, Some(j)),
            None => None,
        }
    }
}

/// Position of the section that a header path names.
pub open spec fn header_path_target(secs: Seq<SectionView>, path: Seq<Seq<char>>) -> Option<int> {
    if path.len() == 0 {
        None
    } else {
        walk_path(secs, path, 0, None)
    }
}

proof fn lemma_first_path_step_bound(
    secs: Seq<SectionView>,
    step: Seq<char>,
    level: u8,
    parent: Option<SectionView>,
    i: int,
)
    ensures
        match first_path_step(secs, step, level, parent, i) {
            Some(j) => i <= j < secs.len() && path_step_ok(secs[j], step, level, parent),
            None => true,
        },
    decreases secs.len() - i,
{
    if 0 <= i < secs.len() && !path_step_ok(secs[i], step, level, parent) {
        lemma_first_path_step_bound(secs, step, level, parent, i + 1);
    }
}

proof fn lemma_walk_path_bound(secs: Seq<SectionView>, path: Seq<Seq<char>>, k: int, at: Option<int>)
    requires
        match at {
            Some(j) => 0 <= j < secs.len(),
            None => true,
        },
    ensures
        match walk_path(secs, path, k, at) {
            Some(j) => 0 <= j < secs.len(),
            None => true,
        },
    decreases path.len() - k,
{
    if 0 <= k < path.len() {
        let level: u8 = match at {
            Some(j) => secs[j].level,
            None => 0,
        };
        let parent = match at {
            Some(j) => Some(secs[j]),
            None => None,
        };
        lemma_first_path_step_bound(secs, path[k], level, parent, 0);
        match first_path_step(secs, path[k], level, parent, 0) {
            Some(j) => lemma_walk_path_bound(secs, path, k + 1, Some(j)),
            None => {},
        }
    }
}

/// The trimmed characters of a string.
fn trimmed(s: &str) -> (r: Vec<char>)
    ensures
        r@ == trim(s@),
{
    let c = chars_of(s);
    trim_chars(&c)
}

/// Position of the first section that can stand for a path step.
fn find_path_step(
    sections: &[Section],
    step: &Vec<char>,
    level: u8,
    parent_span: Option<(usize, usize)>,
    Ghost(raw_step): Ghost<Seq<char>>,
    Ghost(parent): Ghost<Option<SectionView>>,
) -> (r: Option<usize>)
    requires
        step@ == trim(raw_step),
        match parent {
            Some(p) => parent_span == Some((p.start_line as usize, p.end_line as usize)) && p.start_line
                <= usize::MAX && p.end_line <= usize::MAX,
            None => parent_span.is_none(),
        },
    ensures
        r == match first_path_step(sections_view(sections@), raw_step, level, parent, 0) {
            Some(j) => Some(j as usize),
            None => None::<usize>,
        },
{
    let ghost secs = sections_view(sections@);
    let mut i: usize = 0;
    while i < sections.len()
        invariant
            i <= sections.len(),
            secs == sections_view(sections@),
            step@ == trim(raw_step),
            match parent {
                Some(p) => parent_span == Some((p.start_line as usize, p.end_line as usize)) && p.start_line
                    <= usize::MAX && p.end_line <= usize::MAX,
                None => parent_span.is_none(),
            },
            first_path_step(secs, raw_step, level, parent, 0) == first_path_step(
                secs,
                raw_step,
                level,
                parent,
                i as int,
            ),
        decreases sections.len() - i,
    {
        let s = &sections[i];
        let t = trimmed(s.title.as_str());
        let parent_ok = match parent_span {
            Some((a, b)) => a < s.start_line && s.start_line <= b,
            None => true,
        };
        let same = t.len() == step.len() && matches_at(&t, step, 0);
        proof {
            if same {
                assert(t@.subrange(0, step@.len() as int) =~= t@);
            }
            if !same && t@ == step@ {
                assert(t@.subrange(0, step@.len() as int) =~= step@);
            }
        }
        if same && s.level > level && parent_ok {
            return Some(i);
        }
        i += 1;
    }
    None
}

/// Finds a section by its header path: each step names a section by its
/// title, deeper than the step before and a descendant of it.
#[verifier::spinoff_prover]
#[verifier::rlimit(40)]
pub fn find_section_by_header_path<'a>(sections: &'a [Section], path: &[String]) -> (r: Option<
    &'a Section,
>)
    ensures
        r == match header_path_target(sections_view(sections@), path.deep_view()) {
            Some(k) => Some(&sections@[k]),
            None => None,
        },
{
    let ghost secs = sections_view(sections@);
    let ghost pv = path.deep_view();
    if path.len() == 0 {
        return None;
    }
    let mut at: Option<usize> = None;
    let mut k: usize = 0;
    while k < path.len()
        invariant
            0 < path.len(),
            k <= path.len(),
            secs == sections_view(sections@),
            pv == path.deep_view(),
            pv.len() == path.len(),
            match at {
                Some(j) => j < sections.len(),
                None => k == 0,
            },
            header_path_target(secs, pv) == walk_path(
                secs,
                pv,
                k as int,
                match at {
                    Some(j) => Some(j as int),
                    None => None,
                },
            ),
        decreases path.len() - k,
    {
        let ghost at_i: Option<int> = match at {
            Some(j) => Some(j as int),
            None => None,
        };
        let level: u8 = match at {
            Some(j) => sections[j].level,
            None => 0,
        };
        let parent_span: Option<(usize, usize)> = match at {
            Some(j) => Some((sections[j].start_line, sections[j].end_line)),
            None => None,
        };
        let ghost parent: Option<SectionView> = match at {
            Some(j) => Some(secs[j as int]),
            None => None,
        };
        let step = trimmed(path[k].as_str());
        assert(pv[k as int] == path@[k as int]@);
        let found = find_path_step(sections, &step, level, parent_span, Ghost(pv[k as int]), Ghost(parent));
        proof {
            lemma_first_path_step_bound(secs, pv[k as int], level, parent, 0);
        }
        match found {
            Some(j) => {
                at = Some(j);
            },
            None => {
                return None;
            },
        }
        k += 1;
    }
    match at {
        Some(j) => Some(&sections[j]),
        None => None,
    }
}


/// Whether a section overlaps a line range: the range starts inside it, ends
/// inside it, or holds it.
pub open spec fn overlaps(s: SectionView, start: nat, end: nat) -> bool {
    ||| (start >= s.start_line && start < s.end_line)
    ||| (end >= s.start_line && end <= s.end_line)
    ||| (s.start_line >= start && s.end_line <= end)
}

/// Position of the first section at or after `i` that overlaps a line range.
pub open spec fn first_overlapping(secs: Seq<SectionView>, start: nat, end: nat, i: int) -> Option<int>
    decreases secs.len() - i,
{
    if i < 0 || i >= secs.len() {
        None
    } else if overlaps(secs[i], start, end) {
        Some(i)
    } else {
        first_overlapping(secs, start, end, i + 1)
    }
}

/// Position of the section an address names, or why there is none.
pub open spec fn resolve_target(a: AddressView, secs: Seq<SectionView>) -> Result<int, SectionErrorView> {
    match a {
        AddressView::Index(ix) => match first_with_index(secs, ix, 0) {
            Some(k) => Ok(k),
            None => Err(SectionErrorView::IndexNotFound(ix)),
        },
        AddressView::HeaderPath(p) => match header_path_target(secs, p) {
            Some(k) => Ok(k),
            None => Err(SectionErrorView::PathNotFound(p)),
        },
        AddressView::LineRange(start, end) => match first_overlapping(secs, start, end, 0) {
            Some(k) => Ok(k),
            None => Err(SectionErrorView::RangeNotFound(start, end)),
        },
    }
}

fn find_overlapping(sections: &[Section], start: usize, end: usize) -> (r: Option<usize>)
    ensures
        r == match first_overlapping(sections_view(sections@), start as nat, end as nat, 0) {
            Some(j) => Some(j as usize),
            None => None::<usize>,
        },
{
    let ghost secs = sections_view(sections@);
    let mut i: usize = 0;
    while i < sections.len()
        invariant
            i <= sections.len(),
            secs == sections_view(sections@),
            first_overlapping(secs, start as nat, end as nat, 0) == first_overlapping(
                secs,
                start as nat,
                end as nat,
                i as int,
            ),
        decreases sections.len() - i,
    {
        let s = &sections[i];
        if (start >= s.start_line && start < s.end_line) || (end >= s.start_line && end
            <= s.end_line) || (s.start_line >= start && s.end_line <= end) {
            return Some(i);
        }
        i += 1;
    }
    None
}

/// Resolves an address against the sections of a document.
pub fn resolve_section_address<'a>(address: &SectionAddress, sections: &'a [Section]) -> (r: Result<
    &'a Section,
    SectionError,
>)
    ensures
        match resolve_target(address@, sections_view(sections@)) {
            Ok(k) => 0 <= k < sections.len() && r == Ok::<&Section, SectionError>(&sections@[k]),
            Err(e) => r.is_err() && r->Err_0@ == e,
        },
{
    proof {
        lemma_resolve_target_bound(address@, sections_view(sections@));
    }
    proof {
        broadcast use vstd::std_specs::vec::vec_clone_deep_view_proof;
    }
    match address {
        SectionAddress::Index(index) => match find_section_by_index(sections, index.as_str()) {
            Some(s) => Ok(s),
            None => Err(SectionError::IndexNotFound(index.clone())),
        },
        SectionAddress::HeaderPath(path) => match find_section_by_header_path(sections, path.as_slice()) {
            Some(s) => Ok(s),
            None => {
                let p = path.clone();
                assert(p.deep_view() =~= path.deep_view());
                Err(SectionError::PathNotFound(p))
            },
        },
        SectionAddress::LineRange(start, end) => match find_overlapping(sections, *start, *end) {
            Some(j) => {
                proof {
                    let secs = sections_view(sections@);
                    lemma_first_overlapping_bound(secs, *start as nat, *end as nat, 0);
                }
                Ok(&sections[j])
            },
            None => Err(SectionError::RangeNotFound(*start, *end)),
        },
    }
}

proof fn lemma_first_with_index_bound(secs: Seq<SectionView>, ix: Seq<char>, i: int)
    requires
        0 <= i,
    ensures
        first_with_index(secs, ix, i) matches Some(j) ==> i <= j < secs.len(),
    decreases secs.len() - i,
{
    if i < secs.len() && secs[i].index != ix {
        lemma_first_with_index_bound(secs, ix, i + 1);
    }
}

proof fn lemma_resolve_target_bound(a: AddressView, secs: Seq<SectionView>)
    ensures
        resolve_target(a, secs) matches Ok(k) ==> 0 <= k < secs.len(),
{
    match a {
        AddressView::Index(ix) => lemma_first_with_index_bound(secs, ix, 0),
        AddressView::HeaderPath(p) => {
            if p.len() > 0 {
                lemma_walk_path_bound(secs, p, 0, None);
            }
        },
        AddressView::LineRange(s, e) => lemma_first_overlapping_bound(secs, s, e, 0),
    }
}

proof fn lemma_first_overlapping_bound(secs: Seq<SectionView>, start: nat, end: nat, i: int)
    ensures
        match first_overlapping(secs, start, end, i) {
            Some(j) => i <= j < secs.len() && overlaps(secs[j], start, end),
            None => true,
        },
    decreases secs.len() - i,
{
    if 0 <= i < secs.len() && !overlaps(secs[i], start, end) {
        lemma_first_overlapping_bound(secs, start, end, i + 1);
    }
}

/// How an address reads: `#1.1`, `A > B`, `L10-L25`.
pub open spec fn address_text(a: AddressView) -> Seq<char> {
    match a {
        AddressView::Index(ix) => ix,
        AddressView::HeaderPath(p) => join(p, seq![' ', '>', ' ']),
        AddressView::LineRange(s, e) => seq!['L'] + dec(s) + seq!['-', 'L'] + dec(e),
    }
}

impl SectionAddress {
    /// The address as text: the index itself, the path steps joined by
    /// ` > `, or `L<start>-L<end>`.
    pub fn display(&self) -> (r: String)
        ensures
            r@ == address_text(self@),
    {
        let mut out: Vec<char> = Vec::new();
        match self {
            SectionAddress::Index(ix) => {
                out = chars_of(ix.as_str());
            },
            SectionAddress::HeaderPath(p) => {
                let mut parts: Vec<Vec<char>> = Vec::new();
                let mut i: usize = 0;
                while i < p.len()
                    invariant
                        i <= p.len(),
                        parts.len() == i,
                        vv(parts@) =~= p.deep_view().take(i as int),
                    decreases p.len() - i,
                {
                    assert(p.deep_view()[i as int] == p@[i as int]@);
                    parts.push(chars_of(p[i].as_str()));
                    assert(vv(parts@) =~= p.deep_view().take(i + 1));
                    i += 1;
                }
                let mut sep: Vec<char> = Vec::new();
                sep.push(' ');
                sep.push('>');
                sep.push(' ');
                assert(sep@ =~= seq![' ', '>', ' ']);
                out = join_chars(&parts, 0, parts.len(), &sep);
                assert(vv(parts@).subrange(0, parts.len() as int) =~= p.deep_view());
            },
            SectionAddress::LineRange(s, e) => {
                out.push('L');
                push_decimal(&mut out, *s);
                out.push('-');
                out.push('L');
                push_decimal(&mut out, *e);
                assert(out@ =~= seq!['L'] + dec(*s as nat) + seq!['-', 'L'] + dec(*e as nat));
            },
        }
        string_of(&out)
    }
}

/// A trimmed text starts and ends with no whitespace.
proof fn lemma_trimmed_ends(a: Seq<char>)
    ensures
        trim(a).len() > 0 ==> !is_ws(trim(a)[0]) && !is_ws(trim(a).last()),
{
    lemma_trim_start_first(a);
    lemma_trim_end_prefix(trim_start(a));
}

proof fn lemma_trim_start_first(s: Seq<char>)
    ensures
        trim_start(s).len() > 0 ==> !is_ws(trim_start(s)[0]),
    decreases s.len(),
{
    if s.len() > 0 && is_ws(s[0]) {
        lemma_trim_start_first(s.drop_first());
    }
}

proof fn lemma_trim_end_prefix(s: Seq<char>)
    ensures
        crate::text::trim_end(s).len() <= s.len(),
        crate::text::trim_end(s) == s.subrange(0, crate::text::trim_end(s).len() as int),
        crate::text::trim_end(s).len() > 0 ==> !is_ws(crate::text::trim_end(s).last()),
    decreases s.len(),
{
    if s.len() > 0 && is_ws(s.last()) {
        lemma_trim_end_prefix(s.drop_last());
        let k = crate::text::trim_end(s.drop_last()).len() as int;
        assert(s.drop_last().subrange(0, k) =~= s.subrange(0, k));
    } else {
        assert(s.subrange(0, s.len() as int) =~= s);
    }
}

/// A text that starts and ends with no whitespace is its own trim.
proof fn lemma_trim_same(x: Seq<char>)
    requires
        x.len() > 0,
        !is_ws(x[0]),
        !is_ws(x.last()),
    ensures
        trim(x) == x,
{
    assert(trim_start(x) == x);
    assert(crate::text::trim_end(x) == x);
}

/// Trimming leading copies of `c` leaves a text that does not start with `c`.
proof fn lemma_trim_start_char_first(s: Seq<char>, c: char)
    ensures
        trim_start_char(s, c).len() > 0 ==> trim_start_char(s, c)[0] != c,
    decreases s.len(),
{
    if s.len() > 0 && s[0] == c {
        lemma_trim_start_char_first(s.drop_first(), c);
    }
}

/// A valid line range (lines from 1, start not after end, numbers within
/// `usize`) reads back from its display `L<start>-L<end>` as itself.
#[verifier::spinoff_prover]
#[verifier::rlimit(40)]
pub proof fn line_range_reads_back(s: nat, e: nat)
    requires
        1 <= s <= e <= usize::MAX,
    ensures
        parse_address(address_text(AddressView::LineRange(s, e))) == Ok::<AddressView, SectionErrorView>(
            AddressView::LineRange(s, e),
        ),
{
    let ds = dec(s);
    let de = dec(e);
    crate::text::lemma_dec_digits(s);
    crate::text::lemma_dec_digits(e);
    let t = seq!['L'] + ds + seq!['-', 'L'] + de;
    assert(address_text(AddressView::LineRange(s, e)) == t);
    assert(t[0] == 'L');
    assert(t.last() == de[de.len() - 1]);
    lemma_trim_same(t);
    let a = ds + seq!['-', 'L'] + de;
    assert(t.drop_first() =~= a);
    assert(skip_l(t) == a);
    assert forall|j: int| 0 <= j < ds.len() implies decimal_char(#[trigger] a[j]) by {
        assert(a[j] == ds[j]);
    }
    lemma_digit_run_from(a, ds.len() as int);
    let rest = a.subrange(ds.len() as int, a.len() as int);
    assert(rest[0] == '-');
    assert(digit_run(rest) == 0);
    assert(a[ds.len() as int] == '-');
    assert(a.subrange(ds.len() as int + 1, a.len() as int) =~= seq!['L'] + de);
    assert((seq!['L'] + de).drop_first() =~= de);
    assert(skip_l(seq!['L'] + de) == de);
    assert(a.subrange(0, ds.len() as int) =~= ds);
    assert(all_decimal(de));
    assert(range_parts(t) == Some((ds, de)));
    assert(all_ascii_digits(ds));
    assert(all_ascii_digits(de));
    assert(parse_digits(ds) == Some(s));
    assert(parse_digits(de) == Some(e));
}

/// An index address, as read from any text, reads back from its display
/// (the index itself) as the same address.
#[verifier::spinoff_prover]
#[verifier::rlimit(40)]
pub proof fn index_address_reads_back(a: Seq<char>)
    ensures
        parse_address(a) matches Ok(AddressView::Index(ix)) ==> parse_address(address_text(AddressView::Index(ix)))
            == Ok::<AddressView, SectionErrorView>(AddressView::Index(ix)),
{
    let t = trim(a);
    if t.len() > 0 && line_range_spec(t) is None {
        if let Some(ix) = index_spec(t) {
            let st = trim_start_char(t, '#');
            if st.len() == 0 {
                assert(split_char(st, '.') =~= seq![Seq::<char>::empty()]);
                assert(split_char(st, '.')[0].len() > 0);
            }
            crate::text::lemma_trim_start_char_len(t, '#');
            lemma_trimmed_ends(a);
            assert(st.last() == t.last()) by {
                assert(st[st.len() - 1] == t.subrange(t.len() - st.len(), t.len() as int)[st.len() - 1]);
            }
            lemma_trim_start_char_first(t, '#');
            assert(ix == seq!['#'] + st);
            assert(ix[0] == '#');
            assert(ix.last() == st.last());
            lemma_trim_same(ix);
            assert(address_text(AddressView::Index(ix)) == ix);
            assert(skip_l(ix) == ix);
            assert(!decimal_char('#'));
            assert(digit_run(ix) == 0);
            assert(!all_decimal(ix)) by {
                assert(!decimal_char(ix[0]));
            }
            assert(range_parts(ix) is None);
            assert(single_part(ix) is None);
            assert(ix.drop_first() =~= st);
            assert(trim_start_char(ix, '#') == trim_start_char(st, '#'));
            assert(trim_start_char(st, '#') == st);
        }
    }
}



// ---------------------------------------------------------------------------
// Laws of editing
// ---------------------------------------------------------------------------

proof fn lemma_prefix_of_sum(x: Seq<char>, y: Seq<char>)
    ensures
        starts_with(x + y, x),
        ends_with(x + y, y),
{
    assert((x + y).subrange(0, x.len() as int) =~= x);
    assert((x + y).subrange((x + y).len() - y.len(), (x + y).len() as int) =~= y);
}

/// The text around a section, as its own lines give it: the lines before
/// the section begin the text, the lines after it end the text.
proof fn lemma_text_frame(content: Seq<char>, start: nat, end: nat)
    requires
        1 <= start <= split_char(content, '\n').len(),
    ensures
        starts_with(content, leading_lines(split_char(content, '\n'), start - 1)),
        ends_with(content, after_part(split_char(content, '\n'), end)),
{
    let lines = split_char(content, '\n');
    lemma_join_split(content, '\n');
    assert(seq!['\n'] == nl());
    let k = start - 1;
    let b = join(lines.take(k as int), nl());
    assert(content.subrange(0, 0) =~= Seq::<char>::empty());
    if k > 0 {
        lemma_join_cut(lines, k, nl());
        assert(content == (b + nl()) + join(lines.subrange(k, lines.len() as int), nl()));
        lemma_prefix_of_sum(b + nl(), join(lines.subrange(k, lines.len() as int), nl()));
    } else {
        assert(lines.take(0) =~= Seq::<Seq<char>>::empty());
        assert(content.subrange(0, 0) =~= Seq::<char>::empty());
    }
    let ce = min_nat(end, lines.len());
    let a = after_part(lines, end);
    if ce < lines.len() {
        if ce > 0 {
            lemma_join_cut(lines, ce as int, nl());
            assert(content == (join(lines.take(ce as int), nl()) + nl()) + a);
            lemma_prefix_of_sum(join(lines.take(ce as int), nl()) + nl(), a);
        } else {
            assert(lines.subrange(0, lines.len() as int) =~= lines);
            assert(content.subrange(0, content.len() as int) =~= content);
        }
    } else {
        assert(content.subrange(content.len() as int, content.len() as int) =~= Seq::<char>::empty());
    }
}

/// The first `k` lines of a text, each with its newline, then anything:
/// the first `k` lines of the result are those of the text.
proof fn lemma_leading_lines_kept(content: Seq<char>, k: int, rest: Seq<char>)
    requires
        0 <= k <= split_char(content, '\n').len(),
    ensures
        split_char(leading_lines(split_char(content, '\n'), k) + rest, '\n').take(k) == split_char(
            content,
            '\n',
        ).take(k),
{
    let lines = split_char(content, '\n');
    if k > 0 {
        let t = lines.take(k);
        lemma_split_pieces_free(content, '\n');
        assert forall|i: int| 0 <= i < t.len() implies !(#[trigger] t[i]).contains('\n') by {
            assert(t[i] == lines[i]);
        }
        assert(seq!['\n'] == nl());
        lemma_split_joined_then(t, rest, '\n');
        assert(leading_lines(lines, k) + rest =~= join(t, seq!['\n']) + seq!['\n'] + rest);
        assert((t + split_char(rest, '\n')).take(k) =~= t);
    } else {
        assert(lines.take(0) =~= Seq::<Seq<char>>::empty());
        assert(split_char(leading_lines(lines, k) + rest, '\n').take(0) =~= Seq::<Seq<char>>::empty());
    }
}

/// Replacing a section keeps the rest of the text as it was: every line
/// before the section (and, when only the body is replaced, the heading
/// line) stays in place, the new text stands in the text, and the lines
/// after the section end both the old and the new text.
pub proof fn replacing_keeps_surroundings(content: Seq<char>, s: SectionView, new: Seq<char>)
    ensures
        replace_content_spec(content, s, new) matches Ok(r) ==> {
            let lines = split_char(content, '\n');
            let a = after_part(lines, s.end_line);
            &&& split_char(r, '\n').take(s.start_line as int) == lines.take(s.start_line as int)
            &&& contains(r, new)
            &&& ends_with(content, a) && ends_with(r, a)
        },
        replace_full_spec(content, s, new) matches Ok(r) ==> {
            let lines = split_char(content, '\n');
            let a = after_part(lines, s.end_line);
            &&& split_char(r, '\n').take(s.start_line - 1) == lines.take(s.start_line - 1)
            &&& contains(r, new)
            &&& ends_with(content, a) && ends_with(r, a)
        },
{
    let lines = split_char(content, '\n');
    if 1 <= s.start_line <= lines.len() {
        lemma_text_frame(content, s.start_line, s.end_line);
        let a = after_part(lines, s.end_line);
        if let Ok(r) = replace_content_spec(content, s, new) {
            let l = leading_lines(lines, s.start_line as int);
            let mid = if new.len() > 0 {
                content_then(new, a)
            } else {
                Seq::empty()
            };
            assert(r == l + (mid + a));
            lemma_leading_lines_kept(content, s.start_line as int, mid + a);
            assert(r == (l + mid) + a);
            lemma_prefix_of_sum(l + mid, a);
            if new.len() > 0 {
                assert(occurs_at(r, new, l.len() as int)) by {
                    assert(r.subrange(l.len() as int, (l.len() + new.len()) as int) =~= new);
                }
            } else {
                assert(occurs_at(r, new, 0)) by {
                    assert(r.subrange(0, 0) =~= new);
                }
            }
        }
        let l = leading_lines(lines, s.start_line - 1);
        let ct = content_then(new, a);
        let r = l + ct + a;
        assert(r == l + (ct + a));
        lemma_leading_lines_kept(content, s.start_line - 1, ct + a);
        lemma_prefix_of_sum(l + ct, a);
        assert(occurs_at(r, new, l.len() as int)) by {
            assert(r.subrange(l.len() as int, (l.len() + new.len()) as int) =~= new);
        }
    }
}

proof fn lemma_starts_trans(x: Seq<char>, y: Seq<char>, z: Seq<char>)
    requires
        starts_with(x, y),
        starts_with(y, z),
    ensures
        starts_with(x, z),
{
    assert(x.subrange(0, z.len() as int) =~= y.subrange(0, z.len() as int));
}

proof fn lemma_ends_trans(x: Seq<char>, y: Seq<char>, z: Seq<char>)
    requires
        ends_with(x, y),
        ends_with(y, z),
    ensures
        ends_with(x, z),
{
    assert(x.subrange(x.len() - z.len(), x.len() as int) =~= y.subrange(y.len() - z.len(), y.len() as int));
}

proof fn lemma_collapse_prefix(s: Seq<char>)
    ensures
        starts_with(s, collapse_newlines(s)),
    decreases s.len(),
{
    if s.len() >= 2 && s.last() == '\n' && s[s.len() - 2] == '\n' {
        lemma_collapse_prefix(s.drop_last());
        assert(starts_with(s, s.drop_last())) by {
            assert(s.subrange(0, s.len() - 1) =~= s.drop_last());
        }
        lemma_starts_trans(s, s.drop_last(), collapse_newlines(s.drop_last()));
    } else {
        assert(s.subrange(0, s.len() as int) =~= s);
    }
}

/// The lines after a section, from the first one that is not blank, joined.
pub open spec fn kept_after(lines: Seq<Seq<char>>, end: nat) -> Seq<char> {
    let ei = min_nat(end, lines.len());
    let after = if ei < lines.len() {
        lines.subrange(ei as int, lines.len() as int)
    } else {
        Seq::<Seq<char>>::empty()
    };
    join(after.subrange(blank_run(after, 0) as int, after.len() as int), nl())
}

/// Deleting a section leaves the rest of the text as it was, but for blank
/// lines at the gap: the lines before the section (less trailing blank
/// lines) begin both the old and the new text, and the lines after it (from
/// the first one that is not blank) end both.
pub proof fn deleting_keeps_surroundings(content: Seq<char>, s: SectionView)
    ensures
        delete_spec(content, s) matches Ok(r) ==> {
            let lines = split_char(content, '\n');
            let b = collapse_newlines(join(lines.take(s.start_line - 1), nl()));
            let a = kept_after(lines, s.end_line);
            &&& starts_with(content, b) && starts_with(r, b)
            &&& ends_with(content, a) && ends_with(r, a)
        },
{
    let lines = split_char(content, '\n');
    if 1 <= s.start_line <= lines.len() {
        let si = s.start_line - 1;
        let ei = min_nat(s.end_line, lines.len());
        let before = lines.take(si);
        let j = join(before, nl());
        let b = collapse_newlines(j);
        let after = if ei < lines.len() {
            lines.subrange(ei as int, lines.len() as int)
        } else {
            Seq::<Seq<char>>::empty()
        };
        let skip = blank_run(after, 0);
        lemma_blank_run_bound(after, 0);
        let ac = after.subrange(skip as int, after.len() as int);
        let a = join(ac, nl());
        lemma_text_frame(content, s.start_line, s.end_line);
        lemma_collapse_prefix(j);
        // The text begins with the lines before the section.
        if si > 0 {
            assert(leading_lines(lines, s.start_line - 1) == j + nl());
            lemma_prefix_of_sum(j, nl());
            lemma_starts_trans(content, j + nl(), j);
        } else {
            assert(before =~= Seq::<Seq<char>>::empty());
            assert(content.subrange(0, 0) =~= j);
        }
        lemma_starts_trans(content, j, b);
        // The text ends with the lines after the section.
        assert(after_part(lines, s.end_line) == join(after, nl()));
        if ac.len() > 0 && skip > 0 {
            lemma_join_cut(after, skip as int, nl());
            lemma_prefix_of_sum(join(after.take(skip as int), nl()) + nl(), a);
        } else if ac.len() > 0 {
            assert(ac =~= after);
            assert(a.subrange(0, a.len() as int) =~= a);
        } else {
            assert(ac =~= Seq::<Seq<char>>::empty());
            assert(join(after, nl()).subrange(join(after, nl()).len() as int, join(after, nl()).len() as int) =~= a);
        }
        assert(ends_with(join(after, nl()), a));
        lemma_ends_trans(content, join(after, nl()), a);
        // The new text.
        lemma_delete_steps(content, s);
        let r = delete_steps(content, s)->Ok_0;
        let r1 = if before.len() > 0 {
            if after.len() > 0 {
                let j2 = collapse_newlines(j);
                if j2.len() > 0 && !ends_with(j2, nl()) {
                    j2 + nl()
                } else {
                    j2
                }
            } else {
                j
            }
        } else {
            Seq::<char>::empty()
        };
        if before.len() > 0 {
            if after.len() > 0 {
                lemma_prefix_of_sum(b, nl());
                assert(b.subrange(0, b.len() as int) =~= b);
            }
        } else {
            assert(j =~= Seq::<char>::empty());
            assert(b == j);
            assert(r1.subrange(0, 0) =~= b);
        }
        assert(starts_with(r1, b));
        if after.len() > 0 && ac.len() > 0 {
            let r2 = if r1.len() > 0 && !ends_with(r1, nl()) {
                r1 + nl()
            } else {
                r1
            };
            let r3 = if r2.len() > 0 {
                r2 + nl()
            } else {
                r2
            };
            assert(r == r3 + a);
            lemma_prefix_of_sum(r3, a);
            lemma_prefix_of_sum(r1, nl());
            lemma_prefix_of_sum(r2, nl());
            assert(r1.subrange(0, r1.len() as int) =~= r1);
            assert(r2.subrange(0, r2.len() as int) =~= r2);
            assert(starts_with(r3, r1)) by {
                if r2.len() > 0 {
                    lemma_starts_trans(r3, r2, r1);
                }
            }
            lemma_starts_trans(r3 + a, r3, r1);
            lemma_starts_trans(r, r1, b);
        } else {
            assert(r == r1);
            assert(a =~= Seq::<char>::empty()) by {
                if after.len() == 0 {
                    assert(ac =~= Seq::<Seq<char>>::empty());
                }
            }
            assert(r.subrange(r.len() as int, r.len() as int) =~= a);
        }
    }
}

/// The lines without the empty lines at their end.
pub open spec fn without_trailing_empty(ls: Seq<Seq<char>>) -> Seq<Seq<char>>
    decreases ls.len(),
{
    if ls.len() > 0 && ls.last().len() == 0 {
        without_trailing_empty(ls.drop_last())
    } else {
        ls
    }
}

/// Lines less their empty lines at the end are a prefix of them, ending in
/// a line that is not empty (when any is left), and only empty lines follow.
proof fn lemma_trailing_empty_facts(b: Seq<Seq<char>>)
    ensures
        without_trailing_empty(b).len() <= b.len(),
        b.take(without_trailing_empty(b).len() as int) == without_trailing_empty(b),
        without_trailing_empty(b).len() > 0 ==> without_trailing_empty(b).last().len() > 0,
        forall|i: int| without_trailing_empty(b).len() <= i < b.len() ==> (#[trigger] b[i]).len() == 0,
    decreases b.len(),
{
    if b.len() > 0 && b.last().len() == 0 {
        let d = b.drop_last();
        lemma_trailing_empty_facts(d);
        let w = without_trailing_empty(d);
        assert(b.take(w.len() as int) =~= d.take(w.len() as int));
        assert forall|i: int| w.len() <= i < b.len() implies (#[trigger] b[i]).len() == 0 by {
            if i < d.len() {
                assert(b[i] == d[i]);
            } else {
                assert(b[i] == b.last());
            }
        }
    } else {
        assert(b.take(b.len() as int) =~= b);
    }
}

/// The last character of joined lines free of newlines, the last of them
/// not empty: not a newline.
proof fn lemma_join_ends_in_line(b: Seq<Seq<char>>)
    requires
        b.len() > 0,
        b.last().len() > 0,
        !b.last().contains('\n'),
    ensures
        join(b, nl()).len() > 0,
        join(b, nl()).last() == b.last().last(),
        join(b, nl()).last() != '\n',
{
    let lastc = b.last().last();
    assert(b.last()[b.last().len() - 1] == lastc);
    if b.len() > 1 {
        assert(join(b, nl()) == join(b.drop_last(), nl()) + nl() + b.last());
    } else {
        assert(join(b, nl()) == b[0]);
        assert(b[0] == b.last());
    }
}

/// Joined lines free of newlines, with the runs of newlines at the end
/// collapsed: the lines less their empty ones at the end, and one newline
/// for the empty lines dropped.
proof fn lemma_collapse_trailing_empty(b: Seq<Seq<char>>)
    requires
        forall|i: int| 0 <= i < b.len() ==> !(#[trigger] b[i]).contains('\n'),
        without_trailing_empty(b).len() > 0,
    ensures
        collapse_newlines(join(b, nl())) == join(without_trailing_empty(b), nl()) + if without_trailing_empty(b).len()
            < b.len() {
            nl()
        } else {
            Seq::<char>::empty()
        },
    decreases b.len(),
{
    let w = without_trailing_empty(b);
    lemma_trailing_empty_facts(b);
    let jb = join(b, nl());
    if b.len() > 0 && b.last().len() == 0 {
        let d = b.drop_last();
        assert(w == without_trailing_empty(d));
        lemma_trailing_empty_facts(d);
        assert(d.len() > 0);
        let jd = join(d, nl());
        assert(jb == jd + nl() + b.last());
        assert(b.last() =~= Seq::<char>::empty());
        assert(jb =~= jd + nl());
        if d.last().len() == 0 {
            // Two empty lines at the end: one newline goes.
            let dd = d.drop_last();
            assert(w == without_trailing_empty(dd));
            lemma_trailing_empty_facts(dd);
            assert(dd.len() > 0);
            assert(jd == join(dd, nl()) + nl() + d.last());
            assert(jd =~= join(dd, nl()) + nl());
            assert(jb.last() == '\n');
            assert(jb[jb.len() - 2] == '\n');
            assert(jb.drop_last() =~= jd);
            assert forall|i: int| 0 <= i < d.len() implies !(#[trigger] d[i]).contains('\n') by {
                assert(d[i] == b[i]);
            }
            lemma_collapse_trailing_empty(d);
            assert(w.len() < d.len()) by {
                if w.len() == d.len() {
                    assert(w =~= d.take(d.len() as int));
                }
            }
        } else {
            // One empty line at the end: nothing collapses.
            assert(w =~= d);
            assert(d[d.len() - 1] == d.last());
            lemma_join_ends_in_line(d);
            assert(jb[jb.len() - 2] == jd.last());
        }
    } else {
        assert(w == b);
        assert(b.len() > 0);
        assert(b[b.len() - 1] == b.last());
        lemma_join_ends_in_line(b);
        assert(jb + Seq::<char>::empty() =~= jb);
    }
}

/// Empty lines joined, with the runs of newlines at the end collapsed: one
/// newline for two or more lines, nothing for one.
proof fn lemma_collapse_all_empty(b: Seq<Seq<char>>)
    requires
        b.len() >= 1,
        forall|i: int| 0 <= i < b.len() ==> (#[trigger] b[i]).len() == 0,
    ensures
        collapse_newlines(join(b, nl())) == if b.len() >= 2 {
            nl()
        } else {
            Seq::<char>::empty()
        },
    decreases b.len(),
{
    let jb = join(b, nl());
    if b.len() == 1 {
        assert(jb == b[0]);
        assert(b[0] =~= Seq::<char>::empty());
    } else {
        let d = b.drop_last();
        assert forall|i: int| 0 <= i < d.len() implies (#[trigger] d[i]).len() == 0 by {
            assert(d[i] == b[i]);
        }
        assert(b.last() == b[b.len() - 1]);
        assert(jb == join(d, nl()) + nl() + b.last());
        assert(b.last() =~= Seq::<char>::empty());
        if b.len() == 2 {
            assert(join(d, nl()) == d[0]);
            assert(d[0] =~= Seq::<char>::empty());
            assert(jb =~= nl());
        } else {
            let dd = d.drop_last();
            assert(d.last() == d[d.len() - 1]);
            assert(join(d, nl()) == join(dd, nl()) + nl() + d.last());
            assert(d.last() =~= Seq::<char>::empty());
            assert(jb =~= join(dd, nl()) + nl() + nl());
            assert(jb.drop_last() =~= join(d, nl()));
            lemma_collapse_all_empty(d);
        }
    }
}

/// The steps `delete_section` takes come to `delete_spec`.
proof fn lemma_delete_steps(content: Seq<char>, s: SectionView)
    ensures
        delete_spec(content, s) == delete_steps(content, s),
{
    let lines = split_char(content, '\n');
    if 1 <= s.start_line <= lines.len() {
        let si = s.start_line - 1;
        let ei = min_nat(s.end_line, lines.len());
        let b = lines.take(si);
        let after = if ei < lines.len() {
            lines.subrange(ei as int, lines.len() as int)
        } else {
            Seq::<Seq<char>>::empty()
        };
        lemma_blank_run_bound(after, 0);
        let ac = after.subrange(blank_run(after, 0) as int, after.len() as int);
        let p = without_trailing_empty(b);
        let j = join(b, nl());
        if b.len() == 0 {
            assert(j =~= Seq::<char>::empty());
            assert(Seq::<char>::empty() + join(ac, nl()) =~= join(ac, nl()));
            if after.len() == 0 {
                assert(ac =~= Seq::<Seq<char>>::empty());
            }
        } else if after.len() > 0 {
            lemma_split_pieces_free(content, '\n');
            assert forall|i: int| 0 <= i < b.len() implies !(#[trigger] b[i]).contains('\n') by {
                assert(b[i] == lines[i]);
            }
            lemma_trailing_empty_facts(b);
            let head = if p.len() > 0 {
                join(p, nl()) + nl()
            } else if b.len() >= 2 {
                nl()
            } else {
                Seq::<char>::empty()
            };
            let j2 = collapse_newlines(j);
            let r1 = if j2.len() > 0 && !ends_with(j2, nl()) {
                j2 + nl()
            } else {
                j2
            };
            if p.len() > 0 {
                lemma_collapse_trailing_empty(b);
                assert(p[p.len() - 1] == p.last());
                assert(b[p.len() - 1] == p[p.len() - 1]);
                lemma_join_ends_in_line(p);
                if p.len() < b.len() {
                    assert(ends_with(j2, nl())) by {
                        assert(j2.subrange(j2.len() - 1, j2.len() as int) =~= nl());
                    }
                } else {
                    assert(j2 =~= join(p, nl()));
                    assert(!ends_with(j2, nl())) by {
                        if ends_with(j2, nl()) {
                            assert(j2.subrange(j2.len() - 1, j2.len() as int)[0] == j2.last());
                        }
                    }
                }
                assert(r1 == head);
            } else {
                assert forall|i: int| 0 <= i < b.len() implies (#[trigger] b[i]).len() == 0 by {}
                lemma_collapse_all_empty(b);
                if b.len() >= 2 {
                    assert(ends_with(j2, nl())) by {
                        assert(j2.subrange(0, 1) =~= nl());
                    }
                }
                assert(r1 == head);
            }
            assert(head.len() > 0 ==> ends_with(head, nl())) by {
                if head.len() > 0 {
                    assert(head.subrange(head.len() - 1, head.len() as int) =~= nl());
                }
            }
        }
    }
}

/// Deleting a section from between other lines leaves the lines before it
/// (less the empty lines at their end), one blank line, and the lines after
/// it (from the first one that is not blank): no other line changes.
pub proof fn deleting_keeps_lines(content: Seq<char>, s: SectionView)
    ensures
        delete_spec(content, s) matches Ok(r) ==> {
            let lines = split_char(content, '\n');
            let ei = min_nat(s.end_line, lines.len());
            let p = without_trailing_empty(lines.take(s.start_line - 1));
            let after = if ei < lines.len() {
                lines.subrange(ei as int, lines.len() as int)
            } else {
                Seq::<Seq<char>>::empty()
            };
            let ac = after.subrange(blank_run(after, 0) as int, after.len() as int);
            p.len() > 0 && ac.len() > 0 ==> split_char(r, '\n') == p + seq![Seq::<char>::empty()] + ac
        },
{
    let lines = split_char(content, '\n');
    if 1 <= s.start_line <= lines.len() {
        let si = s.start_line - 1;
        let ei = min_nat(s.end_line, lines.len());
        let before = lines.take(si);
        let p = without_trailing_empty(before);
        let after = if ei < lines.len() {
            lines.subrange(ei as int, lines.len() as int)
        } else {
            Seq::<Seq<char>>::empty()
        };
        lemma_blank_run_bound(after, 0);
        let ac = after.subrange(blank_run(after, 0) as int, after.len() as int);
        if p.len() > 0 && ac.len() > 0 {
            lemma_split_pieces_free(content, '\n');
            assert forall|i: int| 0 <= i < before.len() implies !(#[trigger] before[i]).contains('\n') by {
                assert(before[i] == lines[i]);
            }
            lemma_trailing_empty_facts(before);
            lemma_collapse_trailing_empty(before);
            assert(before.len() > 0);
            let j = join(before, nl());
            let jp = join(p, nl());
            let j2 = collapse_newlines(j);
            // The lines before, with one newline.
            let r1 = jp + nl();
            assert(p.last().len() > 0);
            assert(p[p.len() - 1] == p.last());
            assert(before[p.len() - 1] == p[p.len() - 1]);
            lemma_join_ends_in_line(p);
            if p.len() < before.len() {
                assert(j2 == jp + nl());
                assert(ends_with(j2, nl())) by {
                    assert(j2.subrange(j2.len() - 1, j2.len() as int) =~= nl());
                }
            } else {
                assert(j2 =~= jp);
                assert(!ends_with(j2, nl())) by {
                    if ends_with(j2, nl()) {
                        assert(j2.subrange(j2.len() - 1, j2.len() as int)[0] == j2.last());
                    }
                }
            }
            assert(ends_with(r1, nl())) by {
                assert(r1.subrange(r1.len() - 1, r1.len() as int) =~= nl());
            }
            lemma_delete_steps(content, s);
            let r = delete_steps(content, s)->Ok_0;
            assert(r == r1 + nl() + join(ac, nl()));
            // As lines.
            let parts = p + seq![Seq::<char>::empty()] + ac;
            crate::text::lemma_join_append(p, seq![Seq::<char>::empty()], nl());
            crate::text::lemma_join_append(p + seq![Seq::<char>::empty()], ac, nl());
            assert(join(seq![Seq::<char>::empty()], nl()) == Seq::<char>::empty());
            assert(r =~= join(parts, nl()));
            assert forall|i: int| 0 <= i < parts.len() implies !(#[trigger] parts[i]).contains('\n') by {
                if i < p.len() {
                    assert(parts[i] == p[i]);
                    assert(p[i] == before[i]);
                } else if i == p.len() {
                    assert(parts[i] =~= Seq::<char>::empty());
                } else {
                    let k = i - p.len() - 1;
                    assert(parts[i] == ac[k]);
                    assert(ac[k] == lines[ei + blank_run(after, 0) + k]);
                }
            }
            assert(seq!['\n'] == nl());
            crate::text::lemma_split_join(parts, '\n');
        }
    }
}

/// The lines of a new section: its heading, then the lines of its body (a
/// final newline of the body ends its last line).
pub open spec fn section_lines(title: Seq<char>, body: Seq<char>) -> Seq<Seq<char>> {
    seq![heading_of(title)] + if body.len() == 0 {
        Seq::<Seq<char>>::empty()
    } else {
        split_char(
            if ends_with(body, nl()) {
                body.drop_last()
            } else {
                body
            },
            '\n',
        )
    }
}

/// Inserting a section keeps every line of the text, in order: the lines up
/// to the insert position, then the new section's lines (when the title
/// holds no newline), then the remaining lines (or, at the very end, the
/// empty line after the section's final newline). So the text before the
/// insert position begins both the old and the new text, the text after it
/// ends both, and the new section's text stands in between.
pub proof fn inserting_keeps_surroundings(content: Seq<char>, pos: nat, title: Seq<char>, body: Seq<char>)
    ensures
        insert_spec(content, pos, title, body) matches Ok(r) ==> {
            let lines = split_char(content, '\n');
            let b = join(lines.take(pos as int), nl());
            let a = join(lines.subrange(pos as int, lines.len() as int), nl());
            &&& starts_with(content, b) && starts_with(r, b)
            &&& ends_with(content, a) && ends_with(r, a)
            &&& contains(r, new_section_text(title, body))
            &&& (!title.contains('\n') ==> split_char(r, '\n') == lines.take(pos as int) + section_lines(title, body) + (
                if pos < lines.len() {
                    lines.subrange(pos as int, lines.len() as int)
                } else {
                    seq![Seq::<char>::empty()]
                }))
        },
{
    let lines = split_char(content, '\n');
    if pos <= lines.len() {
        lemma_join_split(content, '\n');
        assert(seq!['\n'] == nl());
        lemma_split_char_nonempty(content, '\n');
        let b = join(lines.take(pos as int), nl());
        let a = join(lines.subrange(pos as int, lines.len() as int), nl());
        // The old text.
        if 0 < pos < lines.len() {
            lemma_join_cut(lines, pos as int, nl());
            assert(content == (b + nl()) + a);
            lemma_prefix_of_sum(b + nl(), a);
            lemma_prefix_of_sum(b, nl());
            lemma_starts_trans(content, b + nl(), b);
        } else if pos == 0 {
            assert(lines.take(0) =~= Seq::<Seq<char>>::empty());
            assert(lines.subrange(0, lines.len() as int) =~= lines);
            assert(content.subrange(0, 0) =~= b);
            assert(content.subrange(0, content.len() as int) =~= content);
        } else {
            assert(lines.take(pos as int) =~= lines);
            assert(lines.subrange(pos as int, lines.len() as int) =~= Seq::<Seq<char>>::empty());
            assert(content.subrange(0, content.len() as int) =~= content);
            assert(content.subrange(content.len() as int, content.len() as int) =~= a);
        }
        // The new text.
        let ns = new_section_text(title, body);
        let p = if pos > 0 {
            b + nl()
        } else {
            Seq::<char>::empty()
        };
        let r = insert_spec(content, pos, title, body)->Ok_0;
        assert(r == p + ns + a);
        if pos > 0 {
            lemma_prefix_of_sum(b, nl());
        } else {
            assert(b =~= Seq::<char>::empty());
            assert(p.subrange(0, 0) =~= b);
        }
        lemma_prefix_of_sum(p, ns);
        lemma_prefix_of_sum(p + ns, a);
        lemma_starts_trans(r, p + ns, p);
        lemma_starts_trans(r, p, b);
        assert(crate::text::occurs_at(r, ns, p.len() as int)) by {
            assert(r.subrange(p.len() as int, (p.len() + ns.len()) as int) =~= ns);
        }
        assert(r.subrange(r.len() - a.len(), r.len() as int) =~= a);
        // The lines.
        if !title.contains('\n') {
            lemma_insert_lines(content, pos, title, body);
        }
    }
}

/// The lines of an insertion (see `inserting_keeps_surroundings`).
proof fn lemma_insert_lines(content: Seq<char>, pos: nat, title: Seq<char>, body: Seq<char>)
    requires
        pos <= split_char(content, '\n').len(),
        !title.contains('\n'),
    ensures
        split_char(insert_spec(content, pos, title, body)->Ok_0, '\n') == split_char(content, '\n').take(pos as int)
            + section_lines(title, body) + (if pos < split_char(content, '\n').len() {
            split_char(content, '\n').subrange(pos as int, split_char(content, '\n').len() as int)
        } else {
            seq![Seq::<char>::empty()]
        }),
{
    let lines = split_char(content, '\n');
    let x = lines.take(pos as int);
    let sl = section_lines(title, body);
    let z = if pos < lines.len() {
        lines.subrange(pos as int, lines.len() as int)
    } else {
        seq![Seq::<char>::empty()]
    };
    let h = heading_of(title);
    let r = insert_spec(content, pos, title, body)->Ok_0;
    assert(seq!['\n'] == nl());
    lemma_split_pieces_free(content, '\n');
    // The heading holds no newline.
    assert(!h.contains('\n')) by {
        if h.contains('\n') {
            let j = choose|j: int| 0 <= j < h.len() && h[j] == '\n';
            if !starts_with(title, seq!['#']) {
                assert(h == seq!['#', '#', ' '] + title);
                if j >= 3 {
                    assert(title[j - 3] == '\n');
                }
            } else {
                assert(title[j] == '\n');
            }
        }
    }
    // The section's lines joined, and a newline, are the section's text.
    if body.len() == 0 {
        assert(sl =~= seq![h]);
        assert(join(sl, nl()) == h);
    } else {
        let stripped = if ends_with(body, nl()) {
            body.drop_last()
        } else {
            body
        };
        let bl = split_char(stripped, '\n');
        lemma_split_char_nonempty(stripped, '\n');
        lemma_join_split(stripped, '\n');
        lemma_split_pieces_free(stripped, '\n');
        lemma_join_append(seq![h], bl, nl());
        assert(join(seq![h], nl()) == h);
        assert(sl =~= seq![h] + bl);
        assert(body_block(body) == stripped + nl()) by {
            if ends_with(body, nl()) {
                assert(body.subrange(body.len() - 1, body.len() as int) == nl());
                assert(body =~= body.drop_last() + nl());
            }
        }
    }
    assert(join(sl, nl()) + nl() =~= new_section_text(title, body));
    // The rest.
    let a = join(lines.subrange(pos as int, lines.len() as int), nl());
    assert(join(z, nl()) == a) by {
        if pos >= lines.len() {
            assert(lines.subrange(pos as int, lines.len() as int) =~= Seq::<Seq<char>>::empty());
            assert(join(z, nl()) == z[0]);
        }
    }
    lemma_join_append(sl, z, nl());
    let parts = x + (sl + z);
    if pos > 0 {
        lemma_join_append(x, sl + z, nl());
        assert(r =~= join(parts, nl()));
    } else {
        assert(x =~= Seq::<Seq<char>>::empty());
        assert(parts =~= sl + z);
        assert(r =~= join(parts, nl()));
    }
    assert forall|i: int| 0 <= i < parts.len() implies !(#[trigger] parts[i]).contains('\n') by {
        if i < x.len() {
            assert(parts[i] == lines[i]);
        } else if i < x.len() + sl.len() {
            let k = i - x.len();
            assert(parts[i] == sl[k]);
            if k == 0 {
                assert(sl[0] == h);
            } else {
                let stripped = if ends_with(body, nl()) {
                    body.drop_last()
                } else {
                    body
                };
                lemma_split_pieces_free(stripped, '\n');
                assert(sl[k] == split_char(stripped, '\n')[k - 1]);
            }
        } else {
            let k = i - x.len() - sl.len();
            assert(parts[i] == z[k]);
            if pos < lines.len() {
                assert(z[k] == lines[pos + k]);
            } else {
                assert(z[k] =~= Seq::<char>::empty());
            }
        }
    }
    lemma_split_join(parts, '\n');
    assert(parts =~= x + sl + z);
}

/// Reading from the first line to (or past) the last line gives back the
/// whole text.
pub proof fn reading_all_lines_gives_text(content: Seq<char>, end: nat)
    requires
        end >= split_char(content, '\n').len(),
    ensures
        read_lines_spec(content, 1, end) == Ok::<Seq<char>, SectionErrorView>(content),
{
    let lines = split_char(content, '\n');
    lemma_split_char_nonempty(content, '\n');
    lemma_join_split(content, '\n');
    assert(seq!['\n'] == nl());
    assert(lines.subrange(0, lines.len() as int) =~= lines);
}

} // verus!
