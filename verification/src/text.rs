//! Character-level text model shared by the other modules.

use vstd::prelude::*;

verus! {

broadcast use vstd::string::group_string_axioms;

/// Appends one character to a string.
///
/// Trusted: `String::push`, which std documents as appending the given char
/// to the end of the string.
#[verifier::external_body]
pub(crate) fn push_char(s: &mut String, c: char)
    ensures
        final(s)@ == old(s)@.push(c),
{
    s.push(c);
}

/// The characters of a string slice, in order.
pub fn chars_of(s: &str) -> (r: Vec<char>)
    ensures
        r@ == s@,
{
    let mut r: Vec<char> = Vec::new();
    for c in it: s.chars()
        invariant
            r@ == it.seq().take(it.index() as int),
    {
        r.push(c);
    }
    r
}

/// A string holding the given characters.
pub fn string_of(v: &Vec<char>) -> (r: String)
    ensures
        r@ == v@,
{
    let mut r = String::new();
    let mut i: usize = 0;
    while i < v.len()
        invariant
            i <= v.len(),
            r@ == v@.take(i as int),
        decreases v.len() - i,
    {
        push_char(&mut r, v[i]);
        assert(v@.take(i as int).push(v@[i as int]) =~= v@.take(i + 1));
        i += 1;
    }
    assert(v@.take(v.len() as int) =~= v@);
    r
}

} // verus!

verus! {

/// The character sequences held by a vector of character vectors.
pub open spec fn vv(v: Seq<Vec<char>>) -> Seq<Seq<char>> {
    v.map_values(|x: Vec<char>| x@)
}

// ---------------------------------------------------------------------------
// Splitting on a character
// ---------------------------------------------------------------------------

/// The pieces of `s` between occurrences of `c` (as `str::split` with a char).
pub open spec fn split_char(s: Seq<char>, c: char) -> Seq<Seq<char>>
    decreases s.len(),
{
    if s.len() == 0 {
        seq![Seq::<char>::empty()]
    } else {
        let p = split_char(s.drop_last(), c);
        if s.last() == c {
            p.push(Seq::<char>::empty())
        } else {
            p.update(p.len() - 1, p.last().push(s.last()))
        }
    }
}

pub proof fn lemma_split_char_nonempty(s: Seq<char>, c: char)
    ensures
        split_char(s, c).len() >= 1,
    decreases s.len(),
{
    if s.len() > 0 {
        lemma_split_char_nonempty(s.drop_last(), c);
    }
}

/// Splits `s` at every occurrence of `c`.
pub fn split_on(s: &Vec<char>, c: char) -> (r: Vec<Vec<char>>)
    ensures
        vv(r@) == split_char(s@, c),
{
    let mut parts: Vec<Vec<char>> = Vec::new();
    let mut cur: Vec<char> = Vec::new();
    let mut i: usize = 0;
    assert(s@.take(0) =~= Seq::<char>::empty());
    assert(vv(parts@).push(cur@) =~= split_char(s@.take(0), c));
    while i < s.len()
        invariant
            i <= s.len(),
            vv(parts@).push(cur@) == split_char(s@.take(i as int), c),
        decreases s.len() - i,
    {
        let ghost prev = s@.take(i as int);
        let ch = s[i];
        assert(s@.take(i + 1).drop_last() =~= prev);
        assert(s@.take(i + 1).last() == ch);
        proof { lemma_split_char_nonempty(prev, c); }
        if ch == c {
            let ghost old_parts = vv(parts@);
            let done = cur;
            let ghost dv = done@;
            parts.push(done);
            assert(vv(parts@) =~= old_parts.push(dv));
            cur = Vec::new();
            assert(vv(parts@).push(cur@) =~= split_char(prev, c).push(Seq::<char>::empty()));
        } else {
            let ghost old_parts = vv(parts@);
            cur.push(ch);
            assert(vv(parts@) == old_parts);
            assert(vv(parts@).push(cur@) =~= split_char(prev, c).update(
                split_char(prev, c).len() - 1,
                split_char(prev, c).last().push(ch),
            ));
        }
        i += 1;
    }
    assert(s@.take(s.len() as int) =~= s@);
    let ghost old_parts = vv(parts@);
    let ghost cv = cur@;
    parts.push(cur);
    assert(vv(parts@) =~= old_parts.push(cv));
    parts
}

// ---------------------------------------------------------------------------
// Joining
// ---------------------------------------------------------------------------

/// The pieces concatenated with `sep` between consecutive pieces.
pub open spec fn join(parts: Seq<Seq<char>>, sep: Seq<char>) -> Seq<char>
    decreases parts.len(),
{
    if parts.len() == 0 {
        Seq::<char>::empty()
    } else if parts.len() == 1 {
        parts[0]
    } else {
        join(parts.drop_last(), sep) + sep + parts.last()
    }
}

/// Appends to `out` the pieces `parts[start..end]` joined with `sep`.
pub fn join_range_into(
    out: &mut Vec<char>,
    parts: &Vec<Vec<char>>,
    start: usize,
    end: usize,
    sep: &Vec<char>,
)
    requires
        start <= end <= parts.len(),
    ensures
        final(out)@ == old(out)@ + join(vv(parts@).subrange(start as int, end as int), sep@),
{
    let ghost base = out@;
    let mut i = start;
    assert(vv(parts@).subrange(start as int, start as int) =~= Seq::<Seq<char>>::empty());
    while i < end
        invariant
            start <= i <= end <= parts.len(),
            out@ == base + join(vv(parts@).subrange(start as int, i as int), sep@),
        decreases end - i,
    {
        let ghost before = out@;
        let ghost pv = vv(parts@);
        if i > start {
            append_chars(out, sep);
        }
        append_chars(out, &parts[i]);
        assert(pv.subrange(start as int, i + 1).drop_last() =~= pv.subrange(start as int, i as int));
        assert(pv.subrange(start as int, i + 1).last() == parts[i as int]@);
        if i == start {
            assert(pv.subrange(start as int, i + 1) =~= seq![pv[i as int]]);
        }
        i += 1;
    }
}

/// Pieces joined with `sep`, as a new character vector.
pub fn join_chars(parts: &Vec<Vec<char>>, start: usize, end: usize, sep: &Vec<char>) -> (r: Vec<char>)
    requires
        start <= end <= parts.len(),
    ensures
        r@ == join(vv(parts@).subrange(start as int, end as int), sep@),
{
    let mut r: Vec<char> = Vec::new();
    join_range_into(&mut r, parts, start, end, sep);
    assert(r@ =~= join(vv(parts@).subrange(start as int, end as int), sep@));
    r
}

/// Appends all of `src` to `out`.
pub fn append_chars(out: &mut Vec<char>, src: &Vec<char>)
    ensures
        final(out)@ == old(out)@ + src@,
{
    let mut i: usize = 0;
    let ghost base = out@;
    while i < src.len()
        invariant
            i <= src.len(),
            out@ == base + src@.take(i as int),
        decreases src.len() - i,
    {
        out.push(src[i]);
        assert(src@.take(i + 1) =~= src@.take(i as int).push(src@[i as int]));
        i += 1;
    }
    assert(src@.take(src.len() as int) =~= src@);
}

/// Joining two runs of pieces one after the other puts the separator
/// between their joins.
pub proof fn lemma_join_append(a: Seq<Seq<char>>, b: Seq<Seq<char>>, sep: Seq<char>)
    requires
        a.len() > 0,
        b.len() > 0,
    ensures
        join(a + b, sep) == join(a, sep) + sep + join(b, sep),
    decreases b.len(),
{
    let ab = a + b;
    if b.len() == 1 {
        assert(ab.drop_last() =~= a);
        assert(ab.last() == b[0]);
    } else {
        lemma_join_append(a, b.drop_last(), sep);
        assert(ab.drop_last() =~= a + b.drop_last());
        assert(ab.last() == b.last());
        assert(join(a + b, sep) =~= join(a, sep) + sep + join(b, sep));
    }
}

/// The join of the pieces, cut after the `k`-th piece.
pub proof fn lemma_join_cut(parts: Seq<Seq<char>>, k: int, sep: Seq<char>)
    requires
        0 < k < parts.len(),
    ensures
        join(parts, sep) == join(parts.take(k), sep) + sep + join(parts.subrange(k, parts.len() as int), sep),
{
    assert(parts =~= parts.take(k) + parts.subrange(k, parts.len() as int));
    lemma_join_append(parts.take(k), parts.subrange(k, parts.len() as int), sep);
}

/// Splitting a text that holds no `c` gives the text as the one piece.
proof fn lemma_split_without(t: Seq<char>, c: char)
    requires
        !t.contains(c),
    ensures
        split_char(t, c) == seq![t],
    decreases t.len(),
{
    if t.len() == 0 {
        assert(t =~= Seq::<char>::empty());
    } else {
        let d = t.drop_last();
        assert(!d.contains(c)) by {
            if d.contains(c) {
                let i = choose|i: int| 0 <= i < d.len() && d[i] == c;
                assert(t[i] == c);
            }
        }
        lemma_split_without(d, c);
        assert(t[t.len() - 1] == t.last());
        assert(d.push(t.last()) =~= t);
        assert(seq![d].update(0, d.push(t.last())) =~= seq![t]);
    }
}

/// Splitting `s`, `c` and a piece without `c`: the pieces of `s`, then that piece.
proof fn lemma_split_after(s: Seq<char>, t: Seq<char>, c: char)
    requires
        !t.contains(c),
    ensures
        split_char(s + seq![c] + t, c) == split_char(s, c).push(t),
    decreases t.len(),
{
    let w = s + seq![c] + t;
    if t.len() == 0 {
        assert(t =~= Seq::<char>::empty());
        assert(w =~= s.push(c));
        assert(w.drop_last() =~= s);
    } else {
        let d = t.drop_last();
        assert(!d.contains(c)) by {
            if d.contains(c) {
                let i = choose|i: int| 0 <= i < d.len() && d[i] == c;
                assert(t[i] == c);
            }
        }
        lemma_split_after(s, d, c);
        assert(w.drop_last() =~= s + seq![c] + d);
        assert(w.last() == t.last());
        assert(t[t.len() - 1] == t.last());
        let p = split_char(s, c).push(d);
        assert(d.push(t.last()) =~= t);
        assert(p.update(p.len() - 1, p.last().push(t.last())) =~= split_char(s, c).push(t));
    }
}

/// The pieces of a split hold no separator.
pub proof fn lemma_split_pieces_free(s: Seq<char>, c: char)
    ensures
        forall|i: int| 0 <= i < split_char(s, c).len() ==> !(#[trigger] split_char(s, c)[i]).contains(c),
    decreases s.len(),
{
    if s.len() > 0 {
        lemma_split_pieces_free(s.drop_last(), c);
        lemma_split_char_nonempty(s.drop_last(), c);
        let p = split_char(s.drop_last(), c);
        let w = split_char(s, c);
        if s.last() == c {
            assert forall|i: int| 0 <= i < w.len() implies !(#[trigger] w[i]).contains(c) by {
                if i < p.len() {
                    assert(w[i] == p[i]);
                } else {
                    assert(w[i] =~= Seq::<char>::empty());
                }
            }
        } else {
            let q = p.last().push(s.last());
            assert(!q.contains(c)) by {
                if q.contains(c) {
                    let j = choose|j: int| 0 <= j < q.len() && q[j] == c;
                    if j < p.last().len() {
                        assert(p[p.len() - 1][j] == c);
                        assert(p[p.len() - 1].contains(c));
                    }
                }
            }
            assert forall|i: int| 0 <= i < w.len() implies !(#[trigger] w[i]).contains(c) by {
                if i < p.len() - 1 {
                    assert(w[i] == p[i]);
                } else {
                    assert(w[i] == q);
                }
            }
        }
    } else {
        let w = split_char(s, c);
        assert forall|i: int| 0 <= i < w.len() implies !(#[trigger] w[i]).contains(c) by {
            assert(w[i] =~= Seq::<char>::empty());
        }
    }
}

/// The pieces of a split hold no character that the text does not hold.
pub proof fn lemma_split_pieces_without(s: Seq<char>, c: char, ch: char)
    requires
        !s.contains(ch),
    ensures
        forall|i: int| 0 <= i < split_char(s, c).len() ==> !(#[trigger] split_char(s, c)[i]).contains(ch),
    decreases s.len(),
{
    let w = split_char(s, c);
    if s.len() > 0 {
        let d = s.drop_last();
        assert(!d.contains(ch)) by {
            if d.contains(ch) {
                let k = choose|k: int| 0 <= k < d.len() && d[k] == ch;
                assert(s[k] == ch);
            }
        }
        lemma_split_pieces_without(d, c, ch);
        lemma_split_char_nonempty(d, c);
        let p = split_char(d, c);
        assert(s.last() == s[s.len() - 1]);
        if s.last() == c {
            assert forall|i: int| 0 <= i < w.len() implies !(#[trigger] w[i]).contains(ch) by {
                if i < p.len() {
                    assert(w[i] == p[i]);
                } else {
                    assert(w[i] =~= Seq::<char>::empty());
                }
            }
        } else {
            let q = p.last().push(s.last());
            assert(!q.contains(ch)) by {
                if q.contains(ch) {
                    let j = choose|j: int| 0 <= j < q.len() && q[j] == ch;
                    if j < p.last().len() {
                        assert(p[p.len() - 1][j] == ch);
                        assert(p[p.len() - 1].contains(ch));
                    }
                }
            }
            assert forall|i: int| 0 <= i < w.len() implies !(#[trigger] w[i]).contains(ch) by {
                if i < p.len() - 1 {
                    assert(w[i] == p[i]);
                } else {
                    assert(w[i] == q);
                }
            }
        }
    } else {
        assert forall|i: int| 0 <= i < w.len() implies !(#[trigger] w[i]).contains(ch) by {
            assert(w[i] =~= Seq::<char>::empty());
        }
    }
}

/// Joined pieces that hold no `c`, split at `c`, give the pieces back.
pub proof fn lemma_split_join(parts: Seq<Seq<char>>, c: char)
    requires
        parts.len() > 0,
        forall|i: int| 0 <= i < parts.len() ==> !(#[trigger] parts[i]).contains(c),
    ensures
        split_char(join(parts, seq![c]), c) == parts,
    decreases parts.len(),
{
    if parts.len() == 1 {
        lemma_split_without(parts[0], c);
        assert(seq![parts[0]] =~= parts);
    } else {
        let d = parts.drop_last();
        assert forall|i: int| 0 <= i < d.len() implies !(#[trigger] d[i]).contains(c) by {
            assert(d[i] == parts[i]);
        }
        lemma_split_join(d, c);
        assert(parts[parts.len() - 1] == parts.last());
        lemma_split_after(join(d, seq![c]), parts.last(), c);
        assert(d.push(parts.last()) =~= parts);
    }
}

/// Joined pieces that hold no `c`, then `c` and more text, split at `c`:
/// the pieces, then the pieces of the rest.
pub proof fn lemma_split_joined_then(parts: Seq<Seq<char>>, rest: Seq<char>, c: char)
    requires
        parts.len() > 0,
        forall|i: int| 0 <= i < parts.len() ==> !(#[trigger] parts[i]).contains(c),
    ensures
        split_char(join(parts, seq![c]) + seq![c] + rest, c) == parts + split_char(rest, c),
    decreases rest.len(),
{
    let j = join(parts, seq![c]);
    let w = j + seq![c] + rest;
    if rest.len() == 0 {
        lemma_split_join(parts, c);
        assert(!rest.contains(c));
        lemma_split_after(j, rest, c);
        assert(parts.push(Seq::<char>::empty()) =~= parts + seq![Seq::<char>::empty()]);
    } else {
        let d = rest.drop_last();
        lemma_split_joined_then(parts, d, c);
        assert(w.drop_last() =~= j + seq![c] + d);
        assert(w.last() == rest.last());
        lemma_split_char_nonempty(d, c);
        let p = split_char(d, c);
        let q = parts + p;
        if rest.last() == c {
            assert(q.push(Seq::<char>::empty()) =~= parts + p.push(Seq::<char>::empty()));
        } else {
            assert(q.last() == p.last());
            assert(q.update(q.len() - 1, q.last().push(rest.last())) =~= parts + p.update(
                p.len() - 1,
                p.last().push(rest.last()),
            ));
        }
    }
}

/// A digit's character gives the digit back.
proof fn lemma_digit_char_value(d: nat)
    requires
        d < 10,
    ensures
        digit_value(digit_char(d)) == d,
        '0' <= digit_char(d) <= '9',
{
}

/// Decimal forms are digits only, and read back as the number.
pub proof fn lemma_dec_digits(n: nat)
    ensures
        dec_value(dec(n)) == n,
        dec(n).len() > 0,
        forall|i: int| 0 <= i < dec(n).len() ==> '0' <= #[trigger] dec(n)[i] <= '9',
    decreases n,
{
    if n < 10 {
        lemma_digit_char_value(n);
        assert(seq![digit_char(n)].drop_last() =~= Seq::<char>::empty());
        assert(dec_value(Seq::<char>::empty()) == 0);
        assert(seq![digit_char(n)].last() == digit_char(n));
        assert(dec_value(dec(n)) == 0 * 10 + digit_value(digit_char(n)));
    } else {
        lemma_dec_digits(n / 10);
        lemma_digit_char_value(n % 10);
        let p = dec(n / 10);
        assert(p.push(digit_char(n % 10)).drop_last() =~= p);
        assert(dec_value(dec(n)) == dec_value(p) * 10 + digit_value(digit_char(n % 10)));
        assert((n / 10) * 10 + n % 10 == n);
        assert forall|i: int| 0 <= i < dec(n).len() implies '0' <= #[trigger] dec(n)[i] <= '9' by {
            if i < p.len() {
                assert(dec(n)[i] == p[i]);
            }
        }
    }
}

/// Joining the pieces of a split with the separator gives back the text.
pub proof fn lemma_join_split(s: Seq<char>, c: char)
    ensures
        join(split_char(s, c), seq![c]) == s,
    decreases s.len(),
{
    if s.len() > 0 {
        let p = split_char(s.drop_last(), c);
        lemma_join_split(s.drop_last(), c);
        lemma_split_char_nonempty(s.drop_last(), c);
        if s.last() == c {
            assert(p.push(Seq::<char>::empty()).drop_last() =~= p);
            assert(s =~= s.drop_last() + seq![c] + Seq::<char>::empty());
        } else {
            let q = p.update(p.len() - 1, p.last().push(s.last()));
            if p.len() == 1 {
                assert(s =~= p[0].push(s.last()));
            } else {
                assert(q.drop_last() =~= p.drop_last());
                let j = join(p.drop_last(), seq![c]);
                assert(join(p, seq![c]) == j + seq![c] + p.last());
                assert(s =~= s.drop_last().push(s.last()));
                assert((j + seq![c] + p.last()).push(s.last()) =~= j + seq![c] + p.last().push(s.last()));
            }
        }
    }
}

} // verus!

verus! {

// ---------------------------------------------------------------------------
// Lines (as `str::lines`)
// ---------------------------------------------------------------------------

/// A piece with one trailing carriage return removed, if it has one.
pub open spec fn strip_cr(x: Seq<char>) -> Seq<char> {
    if x.len() > 0 && x.last() == '\r' {
        x.drop_last()
    } else {
        x
    }
}

/// The lines of `s` as `str::lines` yields them: split at `\n`, a final
/// empty piece after a trailing `\n` dropped, and `\r` removed before each
/// `\n` that ends a line.
pub open spec fn text_lines(s: Seq<char>) -> Seq<Seq<char>> {
    let p = split_char(s, '\n');
    let n: int = if s.len() == 0 {
        0
    } else if s.last() == '\n' {
        p.len() - 1
    } else {
        p.len() as int
    };
    Seq::new(n as nat, |i: int| if i < p.len() - 1 { strip_cr(p[i]) } else { p[i] })
}

/// The lines of a text (see `text_lines`).
pub fn lines_of(s: &Vec<char>) -> (r: Vec<Vec<char>>)
    ensures
        vv(r@) == text_lines(s@),
{
    let p = split_on(s, '\n');
    proof { lemma_split_char_nonempty(s@, '\n'); }
    let n: usize = if s.len() == 0 {
        0
    } else if s[s.len() - 1] == '\n' {
        p.len() - 1
    } else {
        p.len()
    };
    let mut r: Vec<Vec<char>> = Vec::new();
    let mut i: usize = 0;
    while i < n
        invariant
            n <= p.len(),
            i <= n,
            vv(p@) == split_char(s@, '\n'),
            p.len() >= 1,
            n == text_lines(s@).len(),
            vv(r@) == text_lines(s@).take(i as int),
        decreases n - i,
    {
        let piece = &p[i];
        let mut line: Vec<char> = piece.clone();
        assert(line@ == piece@);
        if i + 1 < p.len() && line.len() > 0 && line[line.len() - 1] == '\r' {
            line.pop();
        }
        let ghost old_r = vv(r@);
        let ghost lv = line@;
        r.push(line);
        assert(vv(r@) =~= old_r.push(lv));
        assert(text_lines(s@).take(i + 1) =~= text_lines(s@).take(i as int).push(text_lines(s@)[i as int]));
        i += 1;
    }
    assert(text_lines(s@).take(n as int) =~= text_lines(s@));
    r
}

// ---------------------------------------------------------------------------
// Whitespace and trimming
// ---------------------------------------------------------------------------

/// Unicode `White_Space`, the set `char::is_whitespace` tests for.
pub open spec fn is_ws(c: char) -> bool {
    let u = c as u32;
    u == 0x20 || (0x09 <= u <= 0x0d) || u == 0x85 || u == 0xa0 || u == 0x1680 || (0x2000 <= u
        <= 0x200a) || u == 0x2028 || u == 0x2029 || u == 0x202f || u == 0x205f || u == 0x3000
}

/// Whether `c` is whitespace (see `is_ws`).
pub fn is_whitespace(c: char) -> (b: bool)
    ensures
        b == is_ws(c),
{
    let u = c as u32;
    u == 0x20 || (0x09 <= u && u <= 0x0d) || u == 0x85 || u == 0xa0 || u == 0x1680 || (0x2000 <= u
        && u <= 0x200a) || u == 0x2028 || u == 0x2029 || u == 0x202f || u == 0x205f || u == 0x3000
}

/// `s` without leading whitespace (`str::trim_start`).
pub open spec fn trim_start(s: Seq<char>) -> Seq<char>
    decreases s.len(),
{
    if s.len() > 0 && is_ws(s[0]) {
        trim_start(s.drop_first())
    } else {
        s
    }
}

/// `s` without trailing whitespace (`str::trim_end`).
pub open spec fn trim_end(s: Seq<char>) -> Seq<char>
    decreases s.len(),
{
    if s.len() > 0 && is_ws(s.last()) {
        trim_end(s.drop_last())
    } else {
        s
    }
}

/// `s` without leading and trailing whitespace (`str::trim`).
pub open spec fn trim(s: Seq<char>) -> Seq<char> {
    trim_end(trim_start(s))
}

/// `s` without leading copies of `c` (`str::trim_start_matches` with a char).
pub open spec fn trim_start_char(s: Seq<char>, c: char) -> Seq<char>
    decreases s.len(),
{
    if s.len() > 0 && s[0] == c {
        trim_start_char(s.drop_first(), c)
    } else {
        s
    }
}

/// `s` without trailing copies of `c` (`str::trim_end_matches` with a char).
pub open spec fn trim_end_char(s: Seq<char>, c: char) -> Seq<char>
    decreases s.len(),
{
    if s.len() > 0 && s.last() == c {
        trim_end_char(s.drop_last(), c)
    } else {
        s
    }
}

proof fn lemma_trim_start_from(s: Seq<char>, i: int)
    requires
        0 <= i <= s.len(),
        forall|j: int| 0 <= j < i ==> is_ws(#[trigger] s[j]),
    ensures
        trim_start(s) == trim_start(s.subrange(i, s.len() as int)),
    decreases i,
{
    if i > 0 {
        assert(s.drop_first().subrange(i - 1, s.drop_first().len() as int) =~= s.subrange(i, s.len() as int));
        lemma_trim_start_from(s.drop_first(), i - 1);
    } else {
        assert(s.subrange(0, s.len() as int) =~= s);
    }
}

proof fn lemma_trim_end_upto(s: Seq<char>, i: int)
    requires
        0 <= i <= s.len(),
        forall|j: int| i <= j < s.len() ==> is_ws(#[trigger] s[j]),
    ensures
        trim_end(s) == trim_end(s.subrange(0, i)),
    decreases s.len() - i,
{
    if i < s.len() {
        assert(s.drop_last().subrange(0, i) =~= s.subrange(0, i));
        lemma_trim_end_upto(s.drop_last(), i);
    } else {
        assert(s.subrange(0, i) =~= s);
    }
}

proof fn lemma_trim_start_char_from(s: Seq<char>, c: char, i: int)
    requires
        0 <= i <= s.len(),
        forall|j: int| 0 <= j < i ==> #[trigger] s[j] == c,
    ensures
        trim_start_char(s, c) == trim_start_char(s.subrange(i, s.len() as int), c),
    decreases i,
{
    if i > 0 {
        assert(s.drop_first().subrange(i - 1, s.drop_first().len() as int) =~= s.subrange(i, s.len() as int));
        lemma_trim_start_char_from(s.drop_first(), c, i - 1);
    } else {
        assert(s.subrange(0, s.len() as int) =~= s);
    }
}

proof fn lemma_trim_end_char_upto(s: Seq<char>, c: char, i: int)
    requires
        0 <= i <= s.len(),
        forall|j: int| i <= j < s.len() ==> #[trigger] s[j] == c,
    ensures
        trim_end_char(s, c) == trim_end_char(s.subrange(0, i), c),
    decreases s.len() - i,
{
    if i < s.len() {
        assert(s.drop_last().subrange(0, i) =~= s.subrange(0, i));
        lemma_trim_end_char_upto(s.drop_last(), c, i - 0);
    } else {
        assert(s.subrange(0, i) =~= s);
    }
}

/// The characters `s[start..end]` as a new vector.
pub fn slice_chars(s: &Vec<char>, start: usize, end: usize) -> (r: Vec<char>)
    requires
        start <= end <= s.len(),
    ensures
        r@ == s@.subrange(start as int, end as int),
{
    let mut r: Vec<char> = Vec::new();
    let mut i = start;
    while i < end
        invariant
            start <= i <= end <= s.len(),
            r@ == s@.subrange(start as int, i as int),
        decreases end - i,
    {
        r.push(s[i]);
        assert(s@.subrange(start as int, i + 1) =~= s@.subrange(start as int, i as int).push(s@[i as int]));
        i += 1;
    }
    r
}

/// `s` with leading whitespace removed.
pub fn trim_start_chars(s: &Vec<char>) -> (r: Vec<char>)
    ensures
        r@ == trim_start(s@),
{
    let mut i: usize = 0;
    while i < s.len() && is_whitespace(s[i])
        invariant
            i <= s.len(),
            forall|j: int| 0 <= j < i ==> is_ws(#[trigger] s@[j]),
        decreases s.len() - i,
    {
        i += 1;
    }
    proof {
        lemma_trim_start_from(s@, i as int);
        let t = s@.subrange(i as int, s@.len() as int);
        if t.len() > 0 {
            assert(t[0] == s@[i as int]);
        }
    }
    slice_chars(s, i, s.len())
}

/// `s` with trailing whitespace removed.
pub fn trim_end_chars(s: &Vec<char>) -> (r: Vec<char>)
    ensures
        r@ == trim_end(s@),
{
    let mut i: usize = s.len();
    while i > 0 && is_whitespace(s[i - 1])
        invariant
            i <= s.len(),
            forall|j: int| i <= j < s.len() ==> is_ws(#[trigger] s@[j]),
        decreases i,
    {
        i -= 1;
    }
    proof {
        lemma_trim_end_upto(s@, i as int);
        let t = s@.subrange(0, i as int);
        if t.len() > 0 {
            assert(t.last() == s@[i - 1]);
        }
    }
    slice_chars(s, 0, i)
}

/// `s` with leading and trailing whitespace removed.
pub fn trim_chars(s: &Vec<char>) -> (r: Vec<char>)
    ensures
        r@ == trim(s@),
{
    let t = trim_start_chars(s);
    trim_end_chars(&t)
}

/// `s` with leading copies of `c` removed.
pub fn trim_start_char_chars(s: &Vec<char>, c: char) -> (r: Vec<char>)
    ensures
        r@ == trim_start_char(s@, c),
{
    let mut i: usize = 0;
    while i < s.len() && s[i] == c
        invariant
            i <= s.len(),
            forall|j: int| 0 <= j < i ==> #[trigger] s@[j] == c,
        decreases s.len() - i,
    {
        i += 1;
    }
    proof {
        lemma_trim_start_char_from(s@, c, i as int);
        let t = s@.subrange(i as int, s@.len() as int);
        if t.len() > 0 {
            assert(t[0] == s@[i as int]);
        }
    }
    slice_chars(s, i, s.len())
}

/// `s` with trailing copies of `c` removed.
pub fn trim_end_char_chars(s: &Vec<char>, c: char) -> (r: Vec<char>)
    ensures
        r@ == trim_end_char(s@, c),
{
    let mut i: usize = s.len();
    while i > 0 && s[i - 1] == c
        invariant
            i <= s.len(),
            forall|j: int| i <= j < s.len() ==> #[trigger] s@[j] == c,
        decreases i,
    {
        i -= 1;
    }
    proof {
        lemma_trim_end_char_upto(s@, c, i as int);
        let t = s@.subrange(0, i as int);
        if t.len() > 0 {
            assert(t.last() == s@[i - 1]);
        }
    }
    slice_chars(s, 0, i)
}

// ---------------------------------------------------------------------------
// Prefixes, suffixes and searching
// ---------------------------------------------------------------------------

/// Whether `s` begins with `p`.
pub open spec fn starts_with(s: Seq<char>, p: Seq<char>) -> bool {
    p.len() <= s.len() && s.subrange(0, p.len() as int) == p
}

/// Whether `s` ends with `p`.
pub open spec fn ends_with(s: Seq<char>, p: Seq<char>) -> bool {
    p.len() <= s.len() && s.subrange(s.len() - p.len(), s.len() as int) == p
}

/// Whether `p` occurs in `s` at position `i`.
pub open spec fn occurs_at(s: Seq<char>, p: Seq<char>, i: int) -> bool {
    0 <= i && i + p.len() <= s.len() && s.subrange(i, i + p.len()) == p
}

/// Whether `p` occurs anywhere in `s` (`str::contains`).
pub open spec fn contains(s: Seq<char>, p: Seq<char>) -> bool {
    exists|i: int| occurs_at(s, p, i)
}

/// Whether `s` has `p` at position `i`.
pub fn matches_at(s: &Vec<char>, p: &Vec<char>, i: usize) -> (b: bool)
    ensures
        b == occurs_at(s@, p@, i as int),
{
    if i > s.len() || p.len() > s.len() - i {
        return false;
    }
    let mut k: usize = 0;
    while k < p.len()
        invariant
            i + p.len() <= s.len(),
            k <= p.len(),
            forall|j: int| 0 <= j < k ==> s@[i + j] == p@[j],
        decreases p.len() - k,
    {
        if s[i + k] != p[k] {
            assert(s@.subrange(i as int, i + p.len())[k as int] != p@[k as int]);
            return false;
        }
        k += 1;
    }
    assert(s@.subrange(i as int, i + p.len()) =~= p@);
    true
}

/// Whether `s` begins with `p`.
pub fn has_prefix(s: &Vec<char>, p: &Vec<char>) -> (b: bool)
    ensures
        b == starts_with(s@, p@),
{
    matches_at(s, p, 0)
}

/// Whether `s` ends with `p`.
pub fn has_suffix(s: &Vec<char>, p: &Vec<char>) -> (b: bool)
    ensures
        b == ends_with(s@, p@),
{
    if p.len() > s.len() {
        false
    } else {
        matches_at(s, p, s.len() - p.len())
    }
}

/// The first position at or after `from` where `p` occurs in `s`.
pub fn find_from(s: &Vec<char>, p: &Vec<char>, from: usize) -> (r: Option<usize>)
    ensures
        r matches Some(i) ==> from <= i && occurs_at(s@, p@, i as int) && forall|j: int|
            from <= j < i ==> !occurs_at(s@, p@, j),
        r is None ==> forall|j: int| from <= j ==> !occurs_at(s@, p@, j),
{
    let mut i = from;
    while i < s.len()
        invariant
            from <= i,
            forall|j: int| from <= j < i ==> !occurs_at(s@, p@, j),
        decreases s.len() - i,
    {
        if matches_at(s, p, i) {
            return Some(i);
        }
        i += 1;
    }
    if i == s.len() && matches_at(s, p, i) {
        return Some(i);
    }
    assert forall|j: int| from <= j implies !occurs_at(s@, p@, j) by {
        if j > i {
            assert(j > s.len());
        }
    }
    None
}

/// Whether `p` occurs in `s`.
pub fn contains_chars(s: &Vec<char>, p: &Vec<char>) -> (b: bool)
    ensures
        b == contains(s@, p@),
{
    match find_from(s, p, 0) {
        Some(i) => true,
        None => {
            assert forall|j: int| !occurs_at(s@, p@, j) by {
                if j >= 0 {
                }
            }
            false
        },
    }
}

/// The first position of `c` in `s`.
pub open spec fn first_index_of(s: Seq<char>, c: char) -> Option<int> {
    if exists|i: int| 0 <= i < s.len() && s[i] == c {
        Some(choose|i: int| 0 <= i < s.len() && s[i] == c && forall|j: int| 0 <= j < i ==> s[j] != c)
    } else {
        None
    }
}

/// The position of the first `c` in `s`, if any.
pub fn find_char(s: &Vec<char>, c: char) -> (r: Option<usize>)
    ensures
        r matches Some(i) ==> first_index_of(s@, c) == Some(i as int) && i < s.len() && s@[i as int]
            == c && forall|j: int| 0 <= j < i ==> s@[j] != c,
        r is None ==> first_index_of(s@, c) is None && forall|j: int| 0 <= j < s.len() ==> s@[j] != c,
{
    let mut i: usize = 0;
    while i < s.len()
        invariant
            i <= s.len(),
            forall|j: int| 0 <= j < i ==> s@[j] != c,
        decreases s.len() - i,
    {
        if s[i] == c {
            proof {
                let k = choose|k: int| 0 <= k < s@.len() && s@[k] == c && forall|j: int| 0 <= j < k ==> s@[j] != c;
                assert(k == i) by {
                    if k < i {
                    } else if k > i {
                        assert(s@[i as int] != c);
                    }
                }
            }
            return Some(i);
        }
        i += 1;
    }
    None
}

} // verus!

verus! {

// ---------------------------------------------------------------------------
// Decimal numbers
// ---------------------------------------------------------------------------

/// The ASCII digit for `d` (0 to 9).
pub open spec fn digit_char(d: nat) -> char {
    if d == 0 {
        '0'
    } else if d == 1 {
        '1'
    } else if d == 2 {
        '2'
    } else if d == 3 {
        '3'
    } else if d == 4 {
        '4'
    } else if d == 5 {
        '5'
    } else if d == 6 {
        '6'
    } else if d == 7 {
        '7'
    } else if d == 8 {
        '8'
    } else {
        '9'
    }
}

/// The decimal representation of `n`, as `to_string` writes it.
pub open spec fn dec(n: nat) -> Seq<char>
    decreases n,
{
    if n < 10 {
        seq![digit_char(n)]
    } else {
        dec(n / 10).push(digit_char(n % 10))
    }
}

pub(crate) fn digit(d: usize) -> (c: char)
    requires
        d < 10,
    ensures
        c == digit_char(d as nat),
{
    if d == 0 {
        '0'
    } else if d == 1 {
        '1'
    } else if d == 2 {
        '2'
    } else if d == 3 {
        '3'
    } else if d == 4 {
        '4'
    } else if d == 5 {
        '5'
    } else if d == 6 {
        '6'
    } else if d == 7 {
        '7'
    } else if d == 8 {
        '8'
    } else {
        '9'
    }
}

/// Appends the decimal representation of `n` to `out`.
pub fn push_decimal(out: &mut Vec<char>, n: usize)
    ensures
        final(out)@ == old(out)@ + dec(n as nat),
    decreases n,
{
    if n >= 10 {
        push_decimal(out, n / 10);
        let ghost mid = out@;
        out.push(digit(n % 10));
        assert(out@ =~= old(out)@ + dec(n as nat));
    } else {
        out.push(digit(n));
        assert(out@ =~= old(out)@ + dec(n as nat));
    }
}

/// Appends the decimal representation of a 64-bit `n` to `out`.
pub fn push_decimal_u64(out: &mut Vec<char>, n: u64)
    ensures
        final(out)@ == old(out)@ + dec(n as nat),
    decreases n,
{
    if n >= 10 {
        push_decimal_u64(out, n / 10);
        out.push(digit((n % 10) as usize));
        assert(out@ =~= old(out)@ + dec(n as nat));
    } else {
        out.push(digit(n as usize));
        assert(out@ =~= old(out)@ + dec(n as nat));
    }
}

/// Whether `c` is one of `0` to `9`.
pub open spec fn is_ascii_digit(c: char) -> bool {
    '0' <= c && c <= '9'
}

/// The value of an ASCII digit.
pub open spec fn digit_value(c: char) -> nat {
    (c as u32 - '0' as u32) as nat
}

/// The value of a string of ASCII digits read in base ten.
pub open spec fn dec_value(s: Seq<char>) -> nat
    decreases s.len(),
{
    if s.len() == 0 {
        0
    } else {
        dec_value(s.drop_last()) * 10 + digit_value(s.last())
    }
}

/// `n` copies of `c`.
pub open spec fn repeat_char(c: char, n: nat) -> Seq<char> {
    Seq::new(n, |i: int| c)
}

/// Appends `n` copies of `c` to `out`.
pub fn push_repeat(out: &mut Vec<char>, c: char, n: usize)
    ensures
        final(out)@ == old(out)@ + repeat_char(c, n as nat),
{
    let ghost base = out@;
    let mut i: usize = 0;
    while i < n
        invariant
            i <= n,
            out@ == base + repeat_char(c, i as nat),
        decreases n - i,
    {
        out.push(c);
        assert(base + repeat_char(c, (i + 1) as nat) =~= (base + repeat_char(c, i as nat)).push(c));
        i += 1;
    }
}

} // verus!

verus! {

/// Whether a string holds exactly the given characters.
pub fn eq_str_chars(s: &str, v: &Vec<char>) -> (b: bool)
    ensures
        b == (s@ == v@),
{
    let c = chars_of(s);
    let same_len = c.len() == v.len();
    let r = same_len && matches_at(&c, v, 0);
    proof {
        if r {
            assert(c@.subrange(0, v@.len() as int) =~= c@);
        }
        if !r && c@ == v@ {
            assert(c@.subrange(0, v@.len() as int) =~= v@);
        }
    }
    r
}

/// Trimming leading copies of a character keeps a suffix.
pub proof fn lemma_trim_start_char_len(s: Seq<char>, c: char)
    ensures
        trim_start_char(s, c).len() <= s.len(),
        s.subrange(s.len() - trim_start_char(s, c).len(), s.len() as int) == trim_start_char(s, c),
    decreases s.len(),
{
    if s.len() > 0 && s[0] == c {
        lemma_trim_start_char_len(s.drop_first(), c);
        assert(s.drop_first().subrange(
            s.drop_first().len() - trim_start_char(s.drop_first(), c).len(),
            s.drop_first().len() as int,
        ) =~= s.subrange(s.len() - trim_start_char(s, c).len(), s.len() as int));
    } else {
        assert(s.subrange(0, s.len() as int) =~= s);
    }
}

} // verus!

verus! {

/// Pieces of `s` between non-overlapping occurrences of `p`, scanning from
/// position `i` with the current piece starting at `start`.
pub open spec fn split_str_from(s: Seq<char>, p: Seq<char>, i: int, start: int) -> Seq<Seq<char>>
    decreases s.len() - i,
{
    if p.len() == 0 || i < 0 || i + p.len() > s.len() {
        seq![s.subrange(start, s.len() as int)]
    } else if occurs_at(s, p, i) {
        seq![s.subrange(start, i)] + split_str_from(s, p, i + p.len(), i + p.len())
    } else {
        split_str_from(s, p, i + 1, start)
    }
}

/// The pieces of `s` between non-overlapping occurrences of `p`, found from
/// left to right (`str::split` with a string pattern).
pub open spec fn split_str(s: Seq<char>, p: Seq<char>) -> Seq<Seq<char>> {
    split_str_from(s, p, 0, 0)
}

/// Splits `s` at non-overlapping occurrences of `p`.
pub fn split_on_str(s: &Vec<char>, p: &Vec<char>) -> (r: Vec<Vec<char>>)
    requires
        p.len() > 0,
    ensures
        vv(r@) == split_str(s@, p@),
{
    let mut parts: Vec<Vec<char>> = Vec::new();
    let mut i: usize = 0;
    let mut start: usize = 0;
    assert(vv(parts@) =~= Seq::<Seq<char>>::empty());
    assert(vv(parts@) + split_str_from(s@, p@, 0, 0) =~= split_str(s@, p@));
    while i <= s.len() && p.len() <= s.len() - i
        invariant
            start <= i,
            start <= s.len(),
            p.len() > 0,
            vv(parts@) + split_str_from(s@, p@, i as int, start as int) == split_str(s@, p@),
        decreases s.len() - i,
    {
        if matches_at(s, p, i) {
            let piece = slice_chars(s, start, i);
            let ghost old_parts = vv(parts@);
            let ghost pv = piece@;
            parts.push(piece);
            assert(vv(parts@) =~= old_parts.push(pv));
            assert(old_parts + split_str_from(s@, p@, i as int, start as int) =~= old_parts.push(pv)
                + split_str_from(s@, p@, i + p.len(), i + p.len()));
            i = i + p.len();
            start = i;
        } else {
            i = i + 1;
        }
    }
    let last = slice_chars(s, start, s.len());
    let ghost old_parts = vv(parts@);
    let ghost lv = last@;
    parts.push(last);
    assert(vv(parts@) =~= old_parts.push(lv));
    assert(old_parts + split_str_from(s@, p@, i as int, start as int) =~= old_parts.push(lv));
    parts
}

} // verus!

verus! {

// ---------------------------------------------------------------------------
// Lexicographic order (the order of `str`'s `Ord`: UTF-8 bytes compare as
// code points do)
// ---------------------------------------------------------------------------

/// Whether `a` comes strictly before `b`, character by character.
pub open spec fn lex_lt(a: Seq<char>, b: Seq<char>) -> bool
    decreases a.len(),
{
    if a.len() == 0 {
        b.len() > 0
    } else if b.len() == 0 {
        false
    } else if a[0] != b[0] {
        (a[0] as int) < (b[0] as int)
    } else {
        lex_lt(a.drop_first(), b.drop_first())
    }
}

/// Nothing comes before itself.
pub proof fn lemma_lex_irreflexive(a: Seq<char>)
    ensures
        !lex_lt(a, a),
    decreases a.len(),
{
    if a.len() > 0 {
        lemma_lex_irreflexive(a.drop_first());
    }
}

/// The order is transitive.
pub proof fn lemma_lex_transitive(a: Seq<char>, b: Seq<char>, c: Seq<char>)
    requires
        lex_lt(a, b),
        lex_lt(b, c),
    ensures
        lex_lt(a, c),
    decreases a.len(),
{
    if a.len() > 0 && b.len() > 0 && c.len() > 0 && a[0] == b[0] && b[0] == c[0] {
        lemma_lex_transitive(a.drop_first(), b.drop_first(), c.drop_first());
    }
}

/// Two different sequences are ordered one way or the other, never both.
pub proof fn lemma_lex_total(a: Seq<char>, b: Seq<char>)
    ensures
        a != b ==> (lex_lt(a, b) || lex_lt(b, a)),
        !(lex_lt(a, b) && lex_lt(b, a)),
    decreases a.len(),
{
    if a.len() > 0 && b.len() > 0 {
        if a[0] == b[0] {
            lemma_lex_total(a.drop_first(), b.drop_first());
            if a != b {
                assert(a.drop_first() != b.drop_first()) by {
                    if a.drop_first() == b.drop_first() {
                        assert(a =~= seq![a[0]] + a.drop_first());
                        assert(b =~= seq![b[0]] + b.drop_first());
                    }
                }
            }
        } else {
            assert((a[0] as int) != (b[0] as int));
        }
    } else if a.len() == 0 && b.len() == 0 {
        assert(a =~= b);
    }
}

/// Whether `a` comes strictly before `b`.
pub fn lex_less(a: &Vec<char>, b: &Vec<char>) -> (r: bool)
    ensures
        r == lex_lt(a@, b@),
{
    let mut i: usize = 0;
    assert(a@.skip(0) =~= a@);
    assert(b@.skip(0) =~= b@);
    while i < a.len() && i < b.len() && a[i] == b[i]
        invariant
            i <= a.len(),
            i <= b.len(),
            lex_lt(a@, b@) == lex_lt(a@.skip(i as int), b@.skip(i as int)),
        decreases a.len() - i,
    {
        assert(a@.skip(i as int).drop_first() =~= a@.skip(i + 1));
        assert(b@.skip(i as int).drop_first() =~= b@.skip(i + 1));
        i += 1;
    }
    if i == a.len() {
        i < b.len()
    } else if i == b.len() {
        false
    } else {
        a[i] < b[i]
    }
}

/// Whether `a` and `b` hold the same characters.
pub fn same_chars(a: &Vec<char>, b: &Vec<char>) -> (r: bool)
    ensures
        r == (a@ == b@),
{
    let r = a.len() == b.len() && matches_at(a, b, 0);
    proof {
        if r {
            assert(a@.subrange(0, b@.len() as int) =~= a@);
        }
        if !r && a@ == b@ {
            assert(a@.subrange(0, b@.len() as int) =~= b@);
        }
    }
    r
}


/// A vector of strings from character vectors.
pub fn strings_of(v: &Vec<Vec<char>>) -> (r: Vec<String>)
    ensures
        r.deep_view() == vv(v@),
{
    let mut r: Vec<String> = Vec::new();
    let mut i: usize = 0;
    while i < v.len()
        invariant
            i <= v.len(),
            r.deep_view() == vv(v@).take(i as int),
        decreases v.len() - i,
    {
        let ghost old_r = r.deep_view();
        let s = string_of(&v[i]);
        let ghost sv = s@;
        r.push(s);
        assert(r.deep_view() =~= old_r.push(sv));
        assert(vv(v@).take(i + 1) =~= vv(v@).take(i as int).push(sv));
        i += 1;
    }
    assert(vv(v@).take(v.len() as int) =~= vv(v@));
    r
}


/// Appends the characters of a string slice.
pub fn push_str(out: &mut Vec<char>, s: &str)
    ensures
        final(out)@ == old(out)@ + s@,
{
    let c = chars_of(s);
    append_chars(out, &c);
}

} // verus!

verus! {

/// Whether `a` comes before `b` or equals it.
pub open spec fn lex_le(a: Seq<char>, b: Seq<char>) -> bool {
    a == b || lex_lt(a, b)
}

/// `lex_le` as a relation.
pub open spec fn lex_order() -> spec_fn(Seq<char>, Seq<char>) -> bool {
    |a: Seq<char>, b: Seq<char>| lex_le(a, b)
}

/// `lex_le` is a total order.
pub proof fn lemma_lex_order_total()
    ensures
        vstd::relations::total_ordering(lex_order()),
{
    assert forall|x: Seq<char>| #[trigger] lex_order()(x, x) by {}
    assert forall|x: Seq<char>, y: Seq<char>| #[trigger] lex_order()(x, y) && #[trigger] lex_order()(y, x) implies x
        == y by {
        lemma_lex_total(x, y);
    }
    assert forall|x: Seq<char>, y: Seq<char>, z: Seq<char>| #[trigger] lex_order()(x, y) && #[trigger] lex_order()(
        y,
        z,
    ) implies lex_order()(x, z) by {
        if x != y && y != z {
            lemma_lex_transitive(x, y, z);
        }
    }
    assert forall|x: Seq<char>, y: Seq<char>| #[trigger] lex_order()(x, y) || #[trigger] lex_order()(y, x) by {
        lemma_lex_total(x, y);
    }
}

/// The character sequences sorted by `lex_le`.
pub fn sort_chars(v: Vec<Vec<char>>) -> (r: Vec<Vec<char>>)
    ensures
        vv(r@) == vv(v@).sort_by(lex_order()),
{
    let mut out: Vec<Vec<char>> = Vec::new();
    let mut i: usize = 0;
    assert(vv(out@) =~= vv(v@).take(0));
    while i < v.len()
        invariant
            i <= v.len(),
            vstd::relations::sorted_by(vv(out@), lex_order()),
            vv(out@).to_multiset() == vv(v@).take(i as int).to_multiset(),
        decreases v.len() - i,
    {
        let x = &v[i];
        let ghost a = vv(out@);
        let mut k: usize = 0;
        while k < out.len() && !lex_less(x, &out[k])
            invariant
                k <= out.len(),
                a == vv(out@),
                forall|j: int| 0 <= j < k ==> lex_le(a[j], x@),
            decreases out.len() - k,
        {
            proof { lemma_lex_total(x@, a[k as int]); }
            k += 1;
        }
        out.insert(k, x.clone());
        let ghost b = vv(out@);
        assert(b =~= a.insert(k as int, x@));
        assert forall|p: int, q: int| 0 <= p < q < b.len() implies #[trigger] lex_order()(b[p], b[q]) by {
            if q < k {
                assert(lex_order()(a[p], a[q]));
            } else if q == k {
                assert(lex_le(a[p], x@));
            } else if p == k {
                assert(b[q] == a[q - 1]);
                assert(lex_lt(x@, a[k as int]));
                if q - 1 > k {
                    assert(lex_order()(a[k as int], a[q - 1]));
                    if a[k as int] != a[q - 1] {
                        lemma_lex_transitive(x@, a[k as int], a[q - 1]);
                    }
                }
            } else if p < k {
                assert(b[q] == a[q - 1]);
                assert(lex_order()(a[p], a[q - 1]));
            } else {
                assert(b[p] == a[p - 1] && b[q] == a[q - 1]);
                assert(lex_order()(a[p - 1], a[q - 1]));
            }
        }
        proof {
            vstd::seq_lib::to_multiset_insert(a, k as int, x@);
            assert(vv(v@).take(i + 1) =~= vv(v@).take(i as int).push(x@));
            vstd::seq_lib::to_multiset_build(vv(v@).take(i as int), x@);
        }
        i += 1;
    }
    proof {
        assert(vv(v@).take(v.len() as int) =~= vv(v@));
        lemma_lex_order_total();
        vv(v@).lemma_sort_by_ensures(lex_order());
        vstd::seq_lib::lemma_sorted_unique(vv(out@), vv(v@).sort_by(lex_order()), lex_order());
    }
    out
}

} // verus!
