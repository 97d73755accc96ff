//! Filter expressions over frontmatter fields: `field OP value`, the
//! operator one of `==`, `!=`, `contains`, `>`, `<`, and the value quoted
//! (`"text"`) or a single word.

use vstd::prelude::*;
use crate::frontmatter::{FrontmatterData, FrontmatterField, JsonValue, first_with_key, get_field, json_parse_of, parse_json};
use crate::manipulate::{ws_run, ws_run_at};
use crate::text::{
    chars_of, contains, contains_chars, dec_value, digit_value, is_ascii_digit, is_whitespace, is_ws,
    lex_less, lex_lt, matches_at, occurs_at, slice_chars, string_of, trim, trim_chars,
};
use crate::section::all_ascii_digits;

verus! {

broadcast use vstd::string::group_string_axioms;

/// Whether `c` is a word character as the `regex` crate's `\w` matches it
/// (Unicode alphabetic, digit, mark, connector punctuation, join control).
pub uninterp spec fn regex_word(c: char) -> bool;

/// Whether `c` is a `\w` character: among ASCII characters exactly the
/// letters, the digits and `_`, otherwise as `regex_word` says.
pub open spec fn word_char(c: char) -> bool {
    if (c as u32) < 128 {
        'a' <= c <= 'z' || 'A' <= c <= 'Z' || '0' <= c <= '9' || c == '_'
    } else {
        regex_word(c)
    }
}

/// Tests one character against the `regex` pattern `^\w$`.
///
/// Trusted: the answer is `word_char(c)`: the `regex` documentation defines
/// `\w` by Unicode classes whose ASCII members are the letters, the digits
/// and `_`; of other characters the contract names the answer and says
/// nothing more.
#[verifier::external_body]
fn is_word_char(c: char) -> (b: bool)
    ensures
        (c as u32) < 128 ==> b == ('a' <= c <= 'z' || 'A' <= c <= 'Z' || '0' <= c <= '9' || c == '_'),
        (c as u32) >= 128 ==> b == regex_word(c),
{
    let mut buf = [0u8; 4];
    regex::Regex::new(r"^\w$").unwrap().is_match(c.encode_utf8(&mut buf))
}


/// Number of word characters from `i` on.
pub open spec fn word_run(l: Seq<char>, i: int) -> nat
    decreases l.len() - i,
{
    if 0 <= i < l.len() && word_char(l[i]) {
        1 + word_run(l, i + 1)
    } else {
        0
    }
}

/// Number of non-whitespace characters from `i` on.
pub open spec fn nonws_run(l: Seq<char>, i: int) -> nat
    decreases l.len() - i,
{
    if 0 <= i < l.len() && !is_ws(l[i]) {
        1 + nonws_run(l, i + 1)
    } else {
        0
    }
}

/// Number of characters other than `"` from `i` on.
pub open spec fn unquote_run(l: Seq<char>, i: int) -> nat
    decreases l.len() - i,
{
    if 0 <= i < l.len() && l[i] != '"' {
        1 + unquote_run(l, i + 1)
    } else {
        0
    }
}

/// Where the value of `field OP value` starts, and the field, when the text
/// starts (after whitespace) with a word, whitespace, the operator and
/// optional whitespace.
pub open spec fn head_match(t: Seq<char>, op: Seq<char>) -> Option<(int, Seq<char>)> {
    let p0 = ws_run(t, 0) as int;
    let w = word_run(t, p0);
    let p1 = p0 + w;
    let s1 = ws_run(t, p1);
    let p2 = p1 + s1;
    if w == 0 || s1 == 0 || !occurs_at(t, op, p2) {
        None
    } else {
        let p3 = p2 + op.len();
        Some((p3 + ws_run(t, p3), t.subrange(p0, p1)))
    }
}

/// The field and value of `field OP "value"` (nothing but whitespace after
/// the closing quote).
pub open spec fn quoted_match(t: Seq<char>, op: Seq<char>) -> Option<(Seq<char>, Seq<char>)> {
    match head_match(t, op) {
        Some((p, f)) => if p < t.len() && t[p] == '"' {
            let close = p + 1 + unquote_run(t, p + 1);
            if close < t.len() && close + 1 + ws_run(t, close + 1) == t.len() {
                Some((f, t.subrange(p + 1, close)))
            } else {
                None
            }
        } else {
            None
        },
        None => None,
    }
}

/// The field and value of `field OP value`, the value one run of
/// non-whitespace characters.
pub open spec fn plain_match(t: Seq<char>, op: Seq<char>) -> Option<(Seq<char>, Seq<char>)> {
    match head_match(t, op) {
        Some((p, f)) => {
            let v = nonws_run(t, p);
            if v > 0 && p + v + ws_run(t, p + v) == t.len() {
                Some((f, t.subrange(p, p + v)))
            } else {
                None
            }
        },
        None => None,
    }
}

/// The operators, in the order they are tried.
pub open spec fn operators() -> Seq<Seq<char>> {
    seq!["=="@, "!="@, "contains"@, ">"@, "<"@]
}

/// The parts of a trimmed filter expression, trying operators from `k` on,
/// each first with a quoted value, then with a plain one.
pub open spec fn parse_from(t: Seq<char>, k: int) -> Option<(Seq<char>, Seq<char>, Seq<char>)>
    decreases 5 - k,
{
    if k < 0 || k >= 5 {
        None
    } else {
        let op = operators()[k];
        match quoted_match(t, op) {
            Some((f, v)) => Some((f, op, v)),
            None => match plain_match(t, op) {
                Some((f, v)) => Some((f, op, v)),
                None => parse_from(t, k + 1),
            },
        }
    }
}

/// The field, operator and value of a filter expression.
pub open spec fn parse_filter(expr: Seq<char>) -> Option<(Seq<char>, Seq<char>, Seq<char>)> {
    parse_from(trim(expr), 0)
}

/// A parsed filter expression.
pub struct FilterExpression {
    pub field: String,
    pub operator: String,
    pub value: String,
}

/// Number of word characters from `i` on.
fn word_run_at(l: &Vec<char>, i: usize) -> (n: usize)
    requires
        i <= l.len(),
    ensures
        n == word_run(l@, i as int),
        i + n <= l.len(),
{
    let mut j = i;
    while j < l.len() && is_word_char(l[j])
        invariant
            i <= j <= l.len(),
            word_run(l@, i as int) == (j - i) + word_run(l@, j as int),
        decreases l.len() - j,
    {
        j += 1;
    }
    j - i
}

/// Number of non-whitespace characters from `i` on.
fn nonws_run_at(l: &Vec<char>, i: usize) -> (n: usize)
    requires
        i <= l.len(),
    ensures
        n == nonws_run(l@, i as int),
        i + n <= l.len(),
{
    let mut j = i;
    while j < l.len() && !is_whitespace(l[j])
        invariant
            i <= j <= l.len(),
            nonws_run(l@, i as int) == (j - i) + nonws_run(l@, j as int),
        decreases l.len() - j,
    {
        j += 1;
    }
    j - i
}

/// Number of characters other than `"` from `i` on.
fn unquote_run_at(l: &Vec<char>, i: usize) -> (n: usize)
    requires
        i <= l.len(),
    ensures
        n == unquote_run(l@, i as int),
        i + n <= l.len(),
{
    let mut j = i;
    while j < l.len() && l[j] != '"'
        invariant
            i <= j <= l.len(),
            unquote_run(l@, i as int) == (j - i) + unquote_run(l@, j as int),
        decreases l.len() - j,
    {
        j += 1;
    }
    j - i
}

/// Where the value starts, and where the field lies.
fn head_at(t: &Vec<char>, op: &Vec<char>) -> (r: Option<(usize, usize, usize)>)
    ensures
        match head_match(t@, op@) {
            Some((p, f)) => r matches Some((rp, a, b)) && rp == p && a <= b <= t.len() && rp <= t.len()
                && t@.subrange(a as int, b as int) == f,
            None => r is None,
        },
{
    let p0 = ws_run_at(t, 0);
    let w = word_run_at(t, p0);
    let p1 = p0 + w;
    let s1 = ws_run_at(t, p1);
    let p2 = p1 + s1;
    if w == 0 || s1 == 0 || !matches_at(t, op, p2) {
        return None;
    }
    let p3 = p2 + op.len();
    let p = p3 + ws_run_at(t, p3);
    Some((p, p0, p1))
}

/// The parts of `field OP "value"`.
fn quoted_at(t: &Vec<char>, op: &Vec<char>) -> (r: Option<(Vec<char>, Vec<char>)>)
    ensures
        match quoted_match(t@, op@) {
            Some((f, v)) => r matches Some((rf, rv)) && rf@ == f && rv@ == v,
            None => r is None,
        },
{
    match head_at(t, op) {
        Some((p, a, b)) => {
            if p < t.len() && t[p] == '"' {
                let close = p + 1 + unquote_run_at(t, p + 1);
                if close < t.len() && close + 1 + ws_run_at(t, close + 1) == t.len() {
                    return Some((slice_chars(t, a, b), slice_chars(t, p + 1, close)));
                }
            }
            None
        },
        None => None,
    }
}

/// The parts of `field OP value`.
fn plain_at(t: &Vec<char>, op: &Vec<char>) -> (r: Option<(Vec<char>, Vec<char>)>)
    ensures
        match plain_match(t@, op@) {
            Some((f, v)) => r matches Some((rf, rv)) && rf@ == f && rv@ == v,
            None => r is None,
        },
{
    match head_at(t, op) {
        Some((p, a, b)) => {
            let v = nonws_run_at(t, p);
            if v > 0 && p + v + ws_run_at(t, p + v) == t.len() {
                return Some((slice_chars(t, a, b), slice_chars(t, p, p + v)));
            }
            None
        },
        None => None,
    }
}

/// The characters of operator `k`.
fn operator_chars(k: usize) -> (r: Vec<char>)
    requires
        k < 5,
    ensures
        r@ == operators()[k as int],
{
    let mut r: Vec<char> = Vec::new();
    if k == 0 {
        crate::text::push_str(&mut r, "==");
    } else if k == 1 {
        crate::text::push_str(&mut r, "!=");
    } else if k == 2 {
        crate::text::push_str(&mut r, "contains");
    } else if k == 3 {
        crate::text::push_str(&mut r, ">");
    } else {
        crate::text::push_str(&mut r, "<");
    }
    assert(r@ =~= operators()[k as int]);
    r
}

/// Parses a filter expression: operators are tried in the order `==`,
/// `!=`, `contains`, `>`, `<`, each first with a quoted value, then with a
/// single-word value.
pub fn parse_filter_expression(expr: &str) -> (r: Option<FilterExpression>)
    ensures
        match parse_filter(expr@) {
            Some((f, o, v)) => r matches Some(e) && e.field@ == f && e.operator@ == o && e.value@ == v,
            None => r is None,
        },
{
    let t = trim_chars(&chars_of(expr));
    let mut k: usize = 0;
    while k < 5
        invariant
            k <= 5,
            t@ == trim(expr@),
            parse_filter(expr@) == parse_from(t@, k as int),
        decreases 5 - k,
    {
        let op = operator_chars(k);
        match quoted_at(&t, &op) {
            Some((f, v)) => {
                return Some(FilterExpression { field: string_of(&f), operator: string_of(&op), value: string_of(&v) });
            },
            None => {},
        }
        match plain_at(&t, &op) {
            Some((f, v)) => {
                return Some(FilterExpression { field: string_of(&f), operator: string_of(&op), value: string_of(&v) });
            },
            None => {},
        }
        k += 1;
    }
    None
}


// ---------------------------------------------------------------------------
// Evaluating a filter against a field
// ---------------------------------------------------------------------------

/// The number `str::parse::<i64>` reads: an optional sign, then at least
/// one ASCII digit, the value within the range of `i64`.
pub open spec fn parse_i64_spec(t: Seq<char>) -> Option<int> {
    let neg = t.len() > 0 && t[0] == '-';
    let d = if t.len() > 0 && (t[0] == '-' || t[0] == '+') {
        t.drop_first()
    } else {
        t
    };
    if d.len() > 0 && all_ascii_digits(d) {
        let v = dec_value(d);
        if neg {
            if v <= 0x8000000000000000 {
                Some(-v)
            } else {
                None
            }
        } else if v <= 0x7fffffffffffffff {
            Some(v as int)
        } else {
            None
        }
    } else {
        None
    }
}

/// The boolean `str::parse::<bool>` reads: exactly `true` or `false`.
pub open spec fn parse_bool_spec(t: Seq<char>) -> Option<bool> {
    if t == "true"@ {
        Some(true)
    } else if t == "false"@ {
        Some(false)
    } else {
        None
    }
}

/// A JSON number as an `i64`, when it is an integer in that range.
pub open spec fn as_i64(v: JsonValue) -> Option<int> {
    match v {
        JsonValue::Int(i) => Some(i as int),
        JsonValue::UInt(u) => if u <= 0x7fffffffffffffff {
            Some(u as int)
        } else {
            None
        },
        _ => None,
    }
}

/// Whether a JSON value is a number.
pub open spec fn is_number(v: JsonValue) -> bool {
    v is Int || v is UInt || v is Float
}

/// The outcome of a filter: decided, or a comparison of the field's number
/// with the value read as a floating-point number, which is left to the
/// caller.
#[derive(Debug, PartialEq, Eq, Structural)]
pub enum FilterVerdict {
    Holds(bool),
    /// The number equals the value read as a float.
    FloatEq,
    /// The number differs from the value read as a float (or the value is
    /// no float).
    FloatNe,
    /// The number is above the value read as a float.
    FloatGt,
    /// The number is below the value read as a float.
    FloatLt,
}

/// `==` of a field value and a filter value.
pub open spec fn equals_verdict(v: JsonValue, target: Seq<char>) -> FilterVerdict {
    match v {
        JsonValue::Str(s) => FilterVerdict::Holds(s@ == target),
        JsonValue::Int(_) | JsonValue::UInt(_) | JsonValue::Float(_) => match parse_i64_spec(target) {
            Some(i) => FilterVerdict::Holds(as_i64(v) == Some(i)),
            None => FilterVerdict::FloatEq,
        },
        JsonValue::Bool(b) => match parse_bool_spec(target) {
            Some(p) => FilterVerdict::Holds(b == p),
            None => FilterVerdict::Holds(false),
        },
        _ => FilterVerdict::Holds(false),
    }
}

/// Whether a value is the string `t`.
pub open spec fn is_string(v: JsonValue, t: Seq<char>) -> bool {
    v matches JsonValue::Str(x) && x@ == t
}

/// Whether an array holds a string equal to `target`.
pub open spec fn has_string(a: Seq<JsonValue>, target: Seq<char>) -> bool {
    exists|i: int| 0 <= i < a.len() && is_string(#[trigger] a[i], target)
}

/// `contains` of a field value and a filter value.
pub open spec fn contains_verdict(v: JsonValue, target: Seq<char>) -> bool {
    match v {
        JsonValue::Str(s) => contains(s@, target),
        JsonValue::Array(a) => has_string(a@, target),
        _ => false,
    }
}

/// `>` (or `<` when `less`) of a field value of the given type and a filter
/// value: integers compared as integers, other numbers left to the caller,
/// strings compared lexicographically.
pub open spec fn order_verdict(v: JsonValue, target: Seq<char>, vtype: Seq<char>, less: bool) -> FilterVerdict {
    if vtype == "number"@ {
        match (as_i64(v), parse_i64_spec(target)) {
            (Some(n), Some(t)) => FilterVerdict::Holds(if less {
                n < t
            } else {
                n > t
            }),
            _ => if is_number(v) {
                if less {
                    FilterVerdict::FloatLt
                } else {
                    FilterVerdict::FloatGt
                }
            } else {
                FilterVerdict::Holds(false)
            },
        }
    } else if vtype == "string"@ {
        match v {
            JsonValue::Str(s) => FilterVerdict::Holds(if less {
                lex_lt(s@, target)
            } else {
                lex_lt(target, s@)
            }),
            _ => FilterVerdict::Holds(false),
        }
    } else {
        FilterVerdict::Holds(false)
    }
}

/// The outcome of a parsed filter for a field whose value is `v`.
pub open spec fn filter_verdict(op: Seq<char>, target: Seq<char>, vtype: Seq<char>, v: JsonValue) -> FilterVerdict {
    if op == "=="@ {
        equals_verdict(v, target)
    } else if op == "!="@ {
        match equals_verdict(v, target) {
            FilterVerdict::Holds(b) => FilterVerdict::Holds(!b),
            _ => FilterVerdict::FloatNe,
        }
    } else if op == "contains"@ {
        FilterVerdict::Holds(contains_verdict(v, target))
    } else if op == ">"@ {
        order_verdict(v, target, vtype, false)
    } else if op == "<"@ {
        order_verdict(v, target, vtype, true)
    } else {
        FilterVerdict::Holds(false)
    }
}

/// Reads a run of ASCII digits whose value is at most `limit`.
fn digits_upto(d: &Vec<char>, limit: u64) -> (r: Option<u64>)
    ensures
        match r {
            Some(v) => d@.len() > 0 && all_ascii_digits(d@) && v == dec_value(d@) && v <= limit,
            None => !(d@.len() > 0 && all_ascii_digits(d@) && dec_value(d@) <= limit),
        },
{
    if d.len() == 0 {
        return None;
    }
    let mut acc: u64 = 0;
    let mut i: usize = 0;
    assert(d@.take(0) =~= Seq::<char>::empty());
    while i < d.len()
        invariant
            i <= d.len(),
            d.len() > 0,
            acc as nat == dec_value(d@.take(i as int)),
            acc <= limit,
            all_ascii_digits(d@.take(i as int)),
        decreases d.len() - i,
    {
        let c = d[i];
        if !('0' <= c && c <= '9') {
            assert(!all_ascii_digits(d@)) by {
                assert(!is_ascii_digit(d@[i as int]));
            }
            return None;
        }
        let x = (c as u32 - '0' as u32) as u64;
        assert(d@.take(i + 1).drop_last() =~= d@.take(i as int));
        assert(d@.take(i + 1).last() == c);
        assert(x as nat == digit_value(c));
        if x > limit || acc > (limit - x) / 10 {
            proof {
                if x <= limit {
                    assert(acc * 10 + x > limit) by (nonlinear_arith)
                        requires
                            acc > (limit - x) / 10,
                            x <= 9,
                            x <= limit,
                    ;
                }
                crate::section::lemma_dec_value_prefix(d@, i + 1);
                if all_ascii_digits(d@) {
                    assert(dec_value(d@.take(i + 1)) == acc * 10 + x);
                    assert(dec_value(d@.take(i + 1)) >= x);
                }
            }
            return None;
        }
        proof {
            assert(acc * 10 + x <= limit) by (nonlinear_arith)
                requires
                    acc <= (limit - x) / 10,
                    x <= 9,
                    x <= limit,
            ;
        }
        acc = acc * 10 + x;
        assert(all_ascii_digits(d@.take(i + 1))) by {
            assert forall|j: int| 0 <= j < i + 1 implies is_ascii_digit(#[trigger] d@.take(i + 1)[j]) by {
                if j < i {
                    assert(d@.take(i + 1)[j] == d@.take(i as int)[j]);
                }
            }
        }
        i += 1;
    }
    assert(d@.take(d.len() as int) =~= d@);
    Some(acc)
}

/// Reads a decimal `i64` as `str::parse::<i64>` does.
pub fn parse_i64(t: &Vec<char>) -> (r: Option<i64>)
    ensures
        match parse_i64_spec(t@) {
            Some(v) => r == Some(v as i64),
            None => r is None,
        },
{
    let neg = t.len() > 0 && t[0] == '-';
    let signed = t.len() > 0 && (t[0] == '-' || t[0] == '+');
    let d = if signed {
        slice_chars(t, 1, t.len())
    } else {
        slice_chars(t, 0, t.len())
    };
    assert(d@ =~= if signed {
        t@.drop_first()
    } else {
        t@
    });
    if neg {
        match digits_upto(&d, 0x8000000000000000) {
            Some(v) => {
                let r: i64 = (-(v as i128)) as i64;
                Some(r)
            },
            None => None,
        }
    } else {
        match digits_upto(&d, 0x7fffffffffffffff) {
            Some(v) => Some(v as i64),
            None => None,
        }
    }
}

/// Decides `==` of a field value and a filter value.
fn equals_at(v: &JsonValue, target: &Vec<char>) -> (r: FilterVerdict)
    ensures
        r == equals_verdict(*v, target@),
{
    match v {
        JsonValue::Str(s) => FilterVerdict::Holds(crate::text::eq_str_chars(s.as_str(), target)),
        JsonValue::Int(_) | JsonValue::UInt(_) | JsonValue::Float(_) => match parse_i64(target) {
            Some(i) => {
                let same = match v {
                    JsonValue::Int(n) => *n == i,
                    JsonValue::UInt(u) => *u <= 0x7fffffffffffffff && (*u as i64) == i,
                    _ => false,
                };
                FilterVerdict::Holds(same)
            },
            None => FilterVerdict::FloatEq,
        },
        JsonValue::Bool(b) => {
            let mut tr: Vec<char> = Vec::new();
            crate::text::push_str(&mut tr, "true");
            let mut fa: Vec<char> = Vec::new();
            crate::text::push_str(&mut fa, "false");
            assert(tr@ =~= "true"@);
            assert(fa@ =~= "false"@);
            if crate::text::same_chars(target, &tr) {
                FilterVerdict::Holds(*b)
            } else if crate::text::same_chars(target, &fa) {
                FilterVerdict::Holds(!*b)
            } else {
                FilterVerdict::Holds(false)
            }
        },
        _ => FilterVerdict::Holds(false),
    }
}

/// Decides `contains` of a field value and a filter value.
fn contains_at(v: &JsonValue, target: &Vec<char>) -> (r: bool)
    ensures
        r == contains_verdict(*v, target@),
{
    match v {
        JsonValue::Str(s) => contains_chars(&chars_of(s.as_str()), target),
        JsonValue::Array(a) => {
            let mut i: usize = 0;
            while i < a.len()
                invariant
                    i <= a.len(),
                    *v == JsonValue::Array(*a),
                    forall|j: int| 0 <= j < i ==> !is_string(#[trigger] a@[j], target@),
                decreases a.len() - i,
            {
                match &a[i] {
                    JsonValue::Str(x) => {
                        if crate::text::eq_str_chars(x.as_str(), target) {
                            assert(is_string(a@[i as int], target@));
                            assert(has_string(a@, target@));
                            return true;
                        }
                    },
                    _ => {},
                }
                i += 1;
            }
            false
        },
        _ => false,
    }
}

/// Decides `>` or `<` of a field value and a filter value.
fn order_at(v: &JsonValue, target: &Vec<char>, vtype: &str, less: bool) -> (r: FilterVerdict)
    ensures
        r == order_verdict(*v, target@, vtype@, less),
{
    let ty = chars_of(vtype);
    let mut num: Vec<char> = Vec::new();
    crate::text::push_str(&mut num, "number");
    let mut st: Vec<char> = Vec::new();
    crate::text::push_str(&mut st, "string");
    assert(num@ =~= "number"@);
    assert(st@ =~= "string"@);
    if crate::text::same_chars(&ty, &num) {
        let n: Option<i64> = match v {
            JsonValue::Int(n) => Some(*n),
            JsonValue::UInt(u) => if *u <= 0x7fffffffffffffff {
                Some(*u as i64)
            } else {
                None
            },
            _ => None,
        };
        match (n, parse_i64(target)) {
            (Some(n), Some(t)) => FilterVerdict::Holds(if less {
                n < t
            } else {
                n > t
            }),
            _ => {
                let numeric = match v {
                    JsonValue::Int(_) | JsonValue::UInt(_) | JsonValue::Float(_) => true,
                    _ => false,
                };
                if numeric {
                    if less {
                        FilterVerdict::FloatLt
                    } else {
                        FilterVerdict::FloatGt
                    }
                } else {
                    FilterVerdict::Holds(false)
                }
            },
        }
    } else if crate::text::same_chars(&ty, &st) {
        match v {
            JsonValue::Str(s) => {
                let sc = chars_of(s.as_str());
                FilterVerdict::Holds(if less {
                    lex_less(&sc, target)
                } else {
                    lex_less(target, &sc)
                })
            },
            _ => FilterVerdict::Holds(false),
        }
    } else {
        FilterVerdict::Holds(false)
    }
}

/// The outcome of a filter for a field whose value (read back from its
/// JSON text) is `value` (see `filter_verdict`).
pub fn evaluate_filter(expr: &FilterExpression, field: &FrontmatterField, value: &JsonValue) -> (r: FilterVerdict)
    ensures
        r == filter_verdict(expr.operator@, expr.value@, field.value_type@, *value),
{
    let op = chars_of(expr.operator.as_str());
    let target = chars_of(expr.value.as_str());
    let k0 = operator_chars(0);
    let k1 = operator_chars(1);
    let k2 = operator_chars(2);
    let k3 = operator_chars(3);
    let k4 = operator_chars(4);
    if crate::text::same_chars(&op, &k0) {
        equals_at(value, &target)
    } else if crate::text::same_chars(&op, &k1) {
        match equals_at(value, &target) {
            FilterVerdict::Holds(b) => FilterVerdict::Holds(!b),
            _ => FilterVerdict::FloatNe,
        }
    } else if crate::text::same_chars(&op, &k2) {
        FilterVerdict::Holds(contains_at(value, &target))
    } else if crate::text::same_chars(&op, &k3) {
        order_at(value, &target, field.value_type.as_str(), false)
    } else if crate::text::same_chars(&op, &k4) {
        order_at(value, &target, field.value_type.as_str(), true)
    } else {
        FilterVerdict::Holds(false)
    }
}

/// The outcome of a filter expression on a document's frontmatter: it does
/// not hold when the expression does not parse, the field is missing, or its
/// value is no JSON; otherwise as `filter_verdict` says.
pub open spec fn filter_outcome_spec(fields: Seq<FrontmatterField>, expr: Seq<char>) -> FilterVerdict {
    match parse_filter(expr) {
        None => FilterVerdict::Holds(false),
        Some((f, op, target)) => match first_with_key(fields, f, 0) {
            None => FilterVerdict::Holds(false),
            Some(k) => match json_parse_of(fields[k].value_json@) {
                None => FilterVerdict::Holds(false),
                Some(v) => filter_verdict(op, target, fields[k].value_type@, v),
            },
        },
    }
}

/// Evaluates a filter expression on a document's frontmatter, up to the
/// comparisons of floating-point numbers, which are handed back.
pub fn filter_outcome(data: &FrontmatterData, filter_expr: &str) -> (r: FilterVerdict)
    ensures
        r == filter_outcome_spec(data.fields@, filter_expr@),
{
    let parsed = match parse_filter_expression(filter_expr) {
        Some(p) => p,
        None => {
            return FilterVerdict::Holds(false);
        },
    };
    let field = match get_field(data, parsed.field.as_str()) {
        Some(f) => f,
        None => {
            return FilterVerdict::Holds(false);
        },
    };
    let value = match parse_json(field.value_json.as_str()) {
        Some(v) => v,
        None => {
            return FilterVerdict::Holds(false);
        },
    };
    evaluate_filter(&parsed, field, &value)
}

/// A boolean field compared with `true` or `false`: `==` holds exactly when
/// the field's value is the boolean written, `!=` exactly when it is not.
pub proof fn boolean_fields_compare_by_value(b: bool, p: bool, vtype: Seq<char>)
    ensures
        filter_verdict("=="@, if p { "true"@ } else { "false"@ }, vtype, JsonValue::Bool(b)) == FilterVerdict::Holds(
            b == p,
        ),
        filter_verdict("!="@, if p { "true"@ } else { "false"@ }, vtype, JsonValue::Bool(b)) == FilterVerdict::Holds(
            b != p,
        ),
{
    reveal_strlit("==");
    reveal_strlit("!=");
    reveal_strlit("true");
    reveal_strlit("false");
    assert("!="@ != "=="@) by {
        assert("!="@[0] != "=="@[0]);
    }
    assert("false"@ != "true"@) by {
        assert("false"@.len() != "true"@.len());
    }
}

/// A text field compared with a value: `==` holds exactly when the text is
/// the value, `!=` exactly when it is not.
pub proof fn text_fields_compare_by_text(x: String, t: Seq<char>, vtype: Seq<char>)
    ensures
        filter_verdict("=="@, t, vtype, JsonValue::Str(x)) == FilterVerdict::Holds(x@ == t),
        filter_verdict("!="@, t, vtype, JsonValue::Str(x)) == FilterVerdict::Holds(x@ != t),
{
    reveal_strlit("==");
    reveal_strlit("!=");
    assert("!="@ != "=="@) by {
        assert("!="@[0] != "=="@[0]);
    }
}

} // verus!
