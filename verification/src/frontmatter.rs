//! YAML frontmatter: finding it, and looking up its fields.
//!
//! Frontmatter is the block at the very start of a document between a line
//! `---` and the next line `---` (each trimmed).

use vstd::prelude::*;
use crate::text::{
    append_chars, chars_of, dec, eq_str_chars, join, join_chars, lex_less, lex_lt, lines_of, push_decimal,
    push_decimal_u64, push_str, starts_with, string_of, text_lines, trim, trim_chars, vv,
};

verus! {

broadcast use vstd::string::group_string_axioms;

/// One frontmatter field.
#[derive(Debug, Clone, PartialEq)]
pub struct FrontmatterField {
    /// The key.
    pub key: String,
    /// The value as JSON text.
    pub value_json: String,
    /// "string", "number", "boolean", "array", "object", "null" or "tagged".
    pub value_type: String,
    /// The value as readable text.
    pub value_text: Option<String>,
}

/// The fields of a document's frontmatter, ordered by key, and its YAML.
#[derive(Debug, Clone, PartialEq)]
pub struct FrontmatterData {
    /// The fields, ordered by key.
    pub fields: Vec<FrontmatterField>,
    /// The YAML between the delimiters.
    pub raw_yaml: String,
}

/// Three dashes.
pub open spec fn dashes() -> Seq<char> {
    seq!['-', '-', '-']
}

/// The first line at or after `i` that is `---` once trimmed.
pub open spec fn first_delimiter(ls: Seq<Seq<char>>, i: int) -> Option<int>
    decreases ls.len() - i,
{
    if i < 0 || i >= ls.len() {
        None
    } else if trim(ls[i]) == dashes() {
        Some(i)
    } else {
        first_delimiter(ls, i + 1)
    }
}

/// The frontmatter of a text: the lines between an opening `---` (the text
/// starts with it and its first line is `---` once trimmed) and the next
/// line that is `---` once trimmed, joined by newlines; with the 1-based
/// number of the line after the closing delimiter.
pub open spec fn frontmatter_raw(content: Seq<char>) -> Option<(Seq<char>, nat)> {
    let ls = text_lines(content);
    if !starts_with(content, dashes()) || ls.len() == 0 || trim(ls[0]) != dashes() {
        None
    } else {
        match first_delimiter(ls, 1) {
            Some(i) => Some((join(ls.subrange(1, i), seq!['\n']), (i + 1) as nat)),
            None => None,
        }
    }
}

proof fn lemma_first_delimiter_bound(ls: Seq<Seq<char>>, i: int)
    requires
        0 <= i,
    ensures
        first_delimiter(ls, i) matches Some(k) ==> i <= k < ls.len(),
    decreases ls.len() - i,
{
    if i < ls.len() && trim(ls[i]) != dashes() {
        lemma_first_delimiter_bound(ls, i + 1);
    }
}

/// Whether a line is `---` once trimmed.
fn is_delimiter(line: &Vec<char>) -> (b: bool)
    ensures
        b == (trim(line@) == dashes()),
{
    let t = trim_chars(line);
    let r = t.len() == 3 && t[0] == '-' && t[1] == '-' && t[2] == '-';
    proof {
        if r {
            assert(t@ =~= dashes());
        }
    }
    r
}

/// Finds the frontmatter of a text: its YAML and the 1-based line after
/// the closing `---`.
pub fn extract_frontmatter_raw(content: &str) -> (r: Option<(String, usize)>)
    ensures
        match frontmatter_raw(content@) {
            Some((y, n)) => r matches Some((ry, rn)) && ry@ == y && rn == n,
            None => r is None,
        },
{
    let c = chars_of(content);
    let starts = c.len() >= 3 && c[0] == '-' && c[1] == '-' && c[2] == '-';
    proof {
        if starts {
            assert(c@.subrange(0, 3) =~= dashes());
        }
        if starts_with(c@, dashes()) {
            assert(c@[0] == c@.subrange(0, 3)[0]);
            assert(c@[1] == c@.subrange(0, 3)[1]);
            assert(c@[2] == c@.subrange(0, 3)[2]);
        }
    }
    if !starts {
        return None;
    }
    assert(starts_with(content@, dashes()));
    let lines = lines_of(&c);
    let ghost ls = text_lines(content@);
    if lines.len() == 0 {
        return None;
    }
    assert(ls[0] == lines@[0]@);
    if !is_delimiter(&lines[0]) {
        return None;
    }
    let mut i: usize = 1;
    while i < lines.len()
        invariant
            1 <= i <= lines.len(),
            vv(lines@) == ls,
            ls == text_lines(content@),
            starts_with(content@, dashes()),
            trim(ls[0]) == dashes(),
            first_delimiter(ls, 1) == first_delimiter(ls, i as int),
        decreases lines.len() - i,
    {
        assert(ls[i as int] == lines@[i as int]@);
        if is_delimiter(&lines[i]) {
            let mut nl: Vec<char> = Vec::new();
            nl.push('\n');
            assert(nl@ =~= seq!['\n']);
            let y = join_chars(&lines, 1, i, &nl);
            assert(first_delimiter(ls, i as int) == Some(i as int));
            assert(y@ == join(ls.subrange(1, i as int), seq!['\n']));
            return Some((string_of(&y), i + 1));
        }
        i += 1;
    }
    None
}

/// A field as a plain value.
pub struct FieldView {
    pub key: Seq<char>,
    pub value_json: Seq<char>,
    pub value_type: Seq<char>,
    pub value_text: Option<Seq<char>>,
}

impl View for FrontmatterField {
    type V = FieldView;

    open spec fn view(&self) -> FieldView {
        FieldView {
            key: self.key@,
            value_json: self.value_json@,
            value_type: self.value_type@,
            value_text: match self.value_text {
                Some(t) => Some(t@),
                None => None,
            },
        }
    }
}

/// The position of the first field at or after `i` with the given key.
pub open spec fn first_with_key(fields: Seq<FrontmatterField>, key: Seq<char>, i: int) -> Option<int>
    decreases fields.len() - i,
{
    if i < 0 || i >= fields.len() {
        None
    } else if fields[i].key@ == key {
        Some(i)
    } else {
        first_with_key(fields, key, i + 1)
    }
}

/// The first field with the given key.
pub fn get_field<'a>(data: &'a FrontmatterData, key: &str) -> (r: Option<&'a FrontmatterField>)
    ensures
        r == match first_with_key(data.fields@, key@, 0) {
            Some(k) => Some(&data.fields@[k]),
            None => None,
        },
{
    let k = chars_of(key);
    let mut i: usize = 0;
    while i < data.fields.len()
        invariant
            i <= data.fields.len(),
            k@ == key@,
            first_with_key(data.fields@, key@, 0) == first_with_key(data.fields@, key@, i as int),
        decreases data.fields.len() - i,
    {
        if eq_str_chars(data.fields[i].key.as_str(), &k) {
            return Some(&data.fields[i]);
        }
        i += 1;
    }
    None
}

} // verus!

verus! {

// ---------------------------------------------------------------------------
// YAML values and their JSON form
// ---------------------------------------------------------------------------

/// A YAML value as the frontmatter logic reads it.
pub enum YamlValue {
    Null,
    Bool(bool),
    /// An integer that fits in an `i64`.
    Int(i64),
    /// A larger non-negative integer.
    UInt(u64),
    /// A floating-point number: its JSON text (nothing when it is not
    /// finite: JSON has no such numbers and writes `null`), and its YAML text
    /// (`.nan`, `.inf` and `-.inf` included).
    Float(Option<String>, String),
    Str(String),
    Sequence(Vec<YamlValue>),
    /// Entries in document order.
    Mapping(Vec<(YamlValue, YamlValue)>),
    /// A tagged value (`!tag value`): the tag, with its `!`, and the value.
    Tagged(String, Box<YamlValue>),
}

/// An integer in decimal.
pub open spec fn int_text(i: i64) -> Seq<char> {
    if i < 0 {
        "-"@ + dec((-(i as int)) as nat)
    } else {
        dec(i as nat)
    }
}

/// The two lowercase hexadecimal digits of a byte.
pub open spec fn hex2(b: nat) -> Seq<char> {
    seq![crate::index::hex_char(b / 16), crate::index::hex_char(b % 16)]
}

/// One character inside a JSON string: quote, backslash and control
/// characters escaped, everything else as it is.
pub open spec fn esc_char(c: char) -> Seq<char> {
    if c == '"' {
        "\\\""@
    } else if c == '\\' {
        "\\\\"@
    } else if c == '\u{8}' {
        "\\b"@
    } else if c == '\u{c}' {
        "\\f"@
    } else if c == '\n' {
        "\\n"@
    } else if c == '\r' {
        "\\r"@
    } else if c == '\t' {
        "\\t"@
    } else if (c as u32) < 0x20 {
        "\\u00"@ + hex2(c as nat)
    } else {
        seq![c]
    }
}

/// The characters of a JSON string body.
pub open spec fn escaped(s: Seq<char>) -> Seq<char>
    decreases s.len(),
{
    if s.len() == 0 {
        Seq::empty()
    } else {
        escaped(s.drop_last()) + esc_char(s.last())
    }
}

/// A JSON string literal.
pub open spec fn quoted(s: Seq<char>) -> Seq<char> {
    "\""@ + escaped(s) + "\""@
}

/// The key of a map entry, when it is a string.
pub open spec fn map_key(e: (YamlValue, YamlValue)) -> Option<Seq<char>> {
    match e.0 {
        YamlValue::Str(k) => Some(k@),
        _ => None,
    }
}

/// The string key of entry `j` (empty when it has none).
pub open spec fn key_at(m: Seq<(YamlValue, YamlValue)>, j: int) -> Seq<char> {
    match map_key(m[j]) {
        Some(k) => k,
        None => Seq::empty(),
    }
}

/// The first position (from `i`) in `acc` whose key is not below `k`.
pub open spec fn key_slot(m: Seq<(YamlValue, YamlValue)>, acc: Seq<int>, k: Seq<char>, i: int) -> int
    decreases acc.len() - i,
{
    if i < 0 || i >= acc.len() {
        acc.len() as int
    } else if lex_lt(key_at(m, acc[i]), k) {
        key_slot(m, acc, k, i + 1)
    } else {
        i
    }
}

/// The string-keyed entries among the first `n`, as a JSON object holds
/// them: ordered by key, a later entry replacing an earlier one with the
/// same key.
pub open spec fn key_order(m: Seq<(YamlValue, YamlValue)>, n: int) -> Seq<int>
    decreases n,
{
    if n <= 0 || n > m.len() {
        Seq::empty()
    } else {
        let acc = key_order(m, n - 1);
        match map_key(m[n - 1]) {
            Some(k) => {
                let p = key_slot(m, acc, k, 0);
                if p < acc.len() && key_at(m, acc[p]) == k {
                    acc.update(p, n - 1)
                } else {
                    acc.insert(p, n - 1)
                }
            },
            None => acc,
        }
    }
}

/// The compact JSON text of a YAML value once converted to JSON: tagged
/// values and non-finite numbers become `null`, maps keep only their
/// string keys, in key order.
pub open spec fn yaml_json(y: YamlValue) -> Seq<char>
    decreases y, 0int,
{
    match y {
        YamlValue::Null => "null"@,
        YamlValue::Bool(b) => if b {
            "true"@
        } else {
            "false"@
        },
        YamlValue::Int(i) => int_text(i),
        YamlValue::UInt(u) => dec(u as nat),
        YamlValue::Float(t, _) => match t {
            Some(x) => x@,
            None => "null"@,
        },
        YamlValue::Str(s) => quoted(s@),
        YamlValue::Sequence(v) => "["@ + items_json(v@, 0) + "]"@,
        YamlValue::Mapping(m) => "{"@ + entries_json(m@, key_order(m@, m@.len() as int), 0) + "}"@,
        YamlValue::Tagged(..) => "null"@,
    }
}

/// Items `i..` of a JSON array, comma-separated.
pub open spec fn items_json(v: Seq<YamlValue>, i: int) -> Seq<char>
    decreases v, v.len() - i,
{
    if i < 0 || i >= v.len() {
        Seq::empty()
    } else {
        (if i > 0 {
            ","@
        } else {
            Seq::empty()
        }) + yaml_json(v[i]) + items_json(v, i + 1)
    }
}

/// Entries `i..` (by the positions in `idx`) of a JSON object,
/// comma-separated.
pub open spec fn entries_json(m: Seq<(YamlValue, YamlValue)>, idx: Seq<int>, i: int) -> Seq<char>
    decreases m, idx.len() - i,
{
    if i < 0 || i >= idx.len() {
        Seq::empty()
    } else if 0 <= idx[i] < m.len() {
        (if i > 0 {
            ","@
        } else {
            Seq::empty()
        }) + quoted(key_at(m, idx[i])) + ":"@ + yaml_json(m[idx[i]].1) + entries_json(m, idx, i + 1)
    } else {
        entries_json(m, idx, i + 1)
    }
}


/// A JSON string literal for `s`.
///
/// Trusted: `serde_json::to_string` on a `str`. It writes the string
/// between double quotes, escaping by its table: quote and backslash with a
/// backslash; backspace, tab, newline, form feed and carriage return as
/// `\b \t \n \f \r`; other characters below U+0020 as `\u00` and two
/// lowercase hexadecimal digits; everything else as it is. Serializing a
/// `str` does not fail.
#[verifier::external_body]
fn json_quote(s: &str) -> (r: String)
    ensures
        r@ == quoted(s@),
{
    serde_json::to_string(s).unwrap_or_default()
}

/// Appends a JSON string literal.
fn push_quoted(out: &mut Vec<char>, s: &str)
    ensures
        final(out)@ == old(out)@ + quoted(s@),
{
    let q = json_quote(s);
    push_str(out, q.as_str());
}

/// Appends an integer in decimal.
fn push_int(out: &mut Vec<char>, i: i64)
    ensures
        final(out)@ == old(out)@ + int_text(i),
{
    if i < 0 {
        push_str(out, "-");
        let u: u64 = (-(i as i128)) as u64;
        push_decimal_u64(out, u);
        assert(out@ =~= old(out)@ + int_text(i));
    } else {
        push_decimal_u64(out, i as u64);
    }
}

/// The positions as integers.
pub open spec fn ints(s: Seq<usize>) -> Seq<int> {
    s.map_values(|x: usize| x as int)
}

/// The string key of a map entry (empty when it has none).
fn entry_key(e: &(YamlValue, YamlValue)) -> (r: Vec<char>)
    ensures
        r@ == match map_key(*e) {
            Some(k) => k,
            None => Seq::<char>::empty(),
        },
{
    match &e.0 {
        YamlValue::Str(k) => chars_of(k.as_str()),
        _ => Vec::new(),
    }
}

/// The positions of a map's string-keyed entries in JSON object order.
fn key_order_of(m: &Vec<(YamlValue, YamlValue)>) -> (r: Vec<usize>)
    ensures
        ints(r@) == key_order(m@, m@.len() as int),
        forall|i: int| 0 <= i < r@.len() ==> r@[i] < m@.len(),
{
    let mut acc: Vec<usize> = Vec::new();
    let mut n: usize = 0;
    assert(ints(acc@) =~= key_order(m@, 0));
    while n < m.len()
        invariant
            n <= m.len(),
            ints(acc@) == key_order(m@, n as int),
            forall|i: int| 0 <= i < acc@.len() ==> acc@[i] < n,
        decreases m.len() - n,
    {
        let ghost a = ints(acc@);
        let is_str = match &m[n].0 {
            YamlValue::Str(_) => true,
            _ => false,
        };
        if is_str {
            let k = entry_key(&m[n]);
            let ghost kv = k@;
            let mut p: usize = 0;
            loop
                invariant
                    p <= acc.len(),
                    a == ints(acc@),
                    k@ == kv,
                    forall|i: int| 0 <= i < acc@.len() ==> acc@[i] < n,
                    n < m.len(),
                    key_slot(m@, a, kv, 0) == key_slot(m@, a, kv, p as int),
                ensures
                    p <= acc.len(),
                    a == ints(acc@),
                    key_slot(m@, a, kv, 0) == p as int,
                decreases acc.len() - p,
            {
                if p >= acc.len() {
                    break;
                }
                assert(a[p as int] == acc@[p as int] as int);
                let kp = entry_key(&m[acc[p]]);
                if !lex_less(&kp, &k) {
                    break;
                }
                p += 1;
            }
            assert(key_slot(m@, a, kv, 0) == p as int);
            let same = p < acc.len() && crate::text::same_chars(&entry_key(&m[acc[p]]), &k);
            if same {
                acc.set(p, n);
                assert(ints(acc@) =~= a.update(p as int, n as int));
            } else {
                acc.insert(p, n);
                assert(ints(acc@) =~= a.insert(p as int, n as int));
            }
        }
        assert(key_order(m@, n + 1) == if map_key(m@[n as int]) is Some {
            if key_slot(m@, a, key_at(m@, n as int), 0) < a.len() && key_at(m@, a[key_slot(m@, a, key_at(m@, n as int), 0)]) == key_at(m@, n as int) {
                a.update(key_slot(m@, a, key_at(m@, n as int), 0), n as int)
            } else {
                a.insert(key_slot(m@, a, key_at(m@, n as int), 0), n as int)
            }
        } else {
            a
        });
        n += 1;
    }
    acc
}

/// Appends the JSON text of a YAML value (see `yaml_json`).
pub fn push_yaml_json(out: &mut Vec<char>, y: &YamlValue)
    ensures
        final(out)@ == old(out)@ + yaml_json(*y),
    decreases y,
{
    match y {
        YamlValue::Null => push_str(out, "null"),
        YamlValue::Bool(b) => if *b {
            push_str(out, "true")
        } else {
            push_str(out, "false")
        },
        YamlValue::Int(i) => push_int(out, *i),
        YamlValue::UInt(u) => push_decimal_u64(out, *u),
        YamlValue::Float(t, _) => match t {
            Some(x) => push_str(out, x.as_str()),
            None => push_str(out, "null"),
        },
        YamlValue::Str(s) => push_quoted(out, s.as_str()),
        YamlValue::Sequence(v) => {
            push_str(out, "[");
            let ghost base = out@;
            let mut i: usize = 0;
            while i < v.len()
                invariant
                    i <= v.len(),
                    *y == YamlValue::Sequence(*v),
                    out@ + items_json(v@, i as int) == base + items_json(v@, 0),
                decreases v.len() - i,
            {
                let ghost before = out@;
                if i > 0 {
                    push_str(out, ",");
                }
                assert(decreases_to!(*y => v[i as int])) by {
                    assert(decreases_to!(*y => y->Sequence_0));
                    assert(decreases_to!(*v => v@));
                    assert(decreases_to!(v@ => v@[i as int]));
                }
                push_yaml_json(out, &v[i]);
                assert(out@ + items_json(v@, i + 1) =~= before + items_json(v@, i as int));
                i += 1;
            }
            assert(out@ + items_json(v@, i as int) =~= out@);
            push_str(out, "]");
            assert(out@ =~= old(out)@ + yaml_json(*y));
        },
        YamlValue::Mapping(m) => {
            push_str(out, "{");
            let idx = key_order_of(m);
            let ghost iv = ints(idx@);
            let ghost base = out@;
            let mut i: usize = 0;
            while i < idx.len()
                invariant
                    i <= idx.len(),
                    *y == YamlValue::Mapping(*m),
                    iv == ints(idx@),
                    iv.len() == idx.len(),
                    forall|j: int| 0 <= j < idx@.len() ==> idx@[j] < m@.len(),
                    out@ + entries_json(m@, iv, i as int) == base + entries_json(m@, iv, 0),
                decreases idx.len() - i,
            {
                let ghost before = out@;
                let j = idx[i];
                assert(iv[i as int] == j as int);
                if i > 0 {
                    push_str(out, ",");
                }
                let k = entry_key(&m[j]);
                push_quoted(out, string_of(&k).as_str());
                push_str(out, ":");
                assert(decreases_to!(*y => m[j as int].1)) by {
                    assert(decreases_to!(*y => y->Mapping_0));
                    assert(decreases_to!(*m => m@));
                    assert(decreases_to!(m@ => m@[j as int]));
                    assert(decreases_to!(m@[j as int] => m@[j as int].1));
                }
                push_yaml_json(out, &m[j].1);
                assert(out@ + entries_json(m@, iv, i + 1) =~= before + entries_json(m@, iv, i as int));
                i += 1;
            }
            assert(out@ + entries_json(m@, iv, i as int) =~= out@);
            push_str(out, "}");
            assert(out@ =~= old(out)@ + yaml_json(*y));
        },
        YamlValue::Tagged(..) => push_str(out, "null"),
    }
}


/// The type name of a YAML value.
pub open spec fn yaml_type(y: YamlValue) -> Seq<char> {
    match y {
        YamlValue::Null => "null"@,
        YamlValue::Bool(_) => "boolean"@,
        YamlValue::Int(_) => "number"@,
        YamlValue::UInt(_) => "number"@,
        YamlValue::Float(_, _) => "number"@,
        YamlValue::Str(_) => "string"@,
        YamlValue::Sequence(_) => "array"@,
        YamlValue::Mapping(_) => "object"@,
        YamlValue::Tagged(..) => "tagged"@,
    }
}

/// The strings among a sequence's items, in order.
pub open spec fn str_items(v: Seq<YamlValue>) -> Seq<Seq<char>>
    decreases v.len(),
{
    if v.len() == 0 {
        Seq::empty()
    } else {
        let acc = str_items(v.drop_last());
        match v.last() {
            YamlValue::Str(s) => acc.push(s@),
            _ => acc,
        }
    }
}

/// The keys at the given positions of a map.
pub open spec fn keys_at(m: Seq<(YamlValue, YamlValue)>, idx: Seq<int>) -> Seq<Seq<char>> {
    idx.map_values(|j: int| key_at(m, j))
}

/// The readable text of a value once converted to JSON: a string as it is,
/// a number or boolean as written, `null`, the strings of an array joined
/// by `, ` (or `[N items]` when it holds none), an object's keys in braces.
pub open spec fn yaml_text(y: YamlValue) -> Seq<char> {
    match y {
        YamlValue::Str(s) => s@,
        YamlValue::Int(i) => int_text(i),
        YamlValue::UInt(u) => dec(u as nat),
        YamlValue::Float(t, _) => match t {
            Some(x) => x@,
            None => "null"@,
        },
        YamlValue::Bool(b) => if b {
            "true"@
        } else {
            "false"@
        },
        YamlValue::Sequence(v) => if str_items(v@).len() > 0 {
            join(str_items(v@), ", "@)
        } else {
            "["@ + dec(v@.len()) + " items]"@
        },
        YamlValue::Mapping(m) => "{"@ + join(keys_at(m@, key_order(m@, m@.len() as int)), ", "@) + "}"@,
        _ => "null"@,
    }
}

/// The field a map entry gives.
pub open spec fn field_of(k: Seq<char>, v: YamlValue) -> FieldView {
    FieldView { key: k, value_json: yaml_json(v), value_type: yaml_type(v), value_text: Some(yaml_text(v)) }
}

/// The fields of the first `n` entries of a map, string keys only, in order.
pub open spec fn fields_in_order(m: Seq<(YamlValue, YamlValue)>, n: int) -> Seq<FieldView>
    decreases n,
{
    if n <= 0 || n > m.len() {
        Seq::empty()
    } else {
        let acc = fields_in_order(m, n - 1);
        match m[n - 1].0 {
            YamlValue::Str(k) => acc.push(field_of(k@, m[n - 1].1)),
            _ => acc,
        }
    }
}

/// Where a field with key `k` goes in a list ordered by key: after every
/// field whose key is not above `k`.
pub open spec fn field_slot(fs: Seq<FieldView>, k: Seq<char>, i: int) -> int
    decreases fs.len() - i,
{
    if i < 0 || i >= fs.len() {
        fs.len() as int
    } else if lex_lt(k, fs[i].key) {
        i
    } else {
        field_slot(fs, k, i + 1)
    }
}

/// Fields ordered by key, fields with equal keys kept in their order (a
/// stable sort).
pub open spec fn sort_fields(fs: Seq<FieldView>) -> Seq<FieldView>
    decreases fs.len(),
{
    if fs.len() == 0 {
        Seq::empty()
    } else {
        let acc = sort_fields(fs.drop_last());
        acc.insert(field_slot(acc, fs.last().key, 0), fs.last())
    }
}

/// The views of a sequence of fields.
pub open spec fn fields_view(v: Seq<FrontmatterField>) -> Seq<FieldView> {
    v.map_values(|f: FrontmatterField| f@)
}

/// The frontmatter a parsed YAML value gives: for a map, the fields of its
/// string-keyed entries ordered by key; nothing for any other value.
pub open spec fn frontmatter_of(raw: Seq<char>, y: YamlValue) -> Option<(Seq<FieldView>, Seq<char>)> {
    match y {
        YamlValue::Mapping(m) => Some((sort_fields(fields_in_order(m@, m@.len() as int)), raw)),
        _ => None,
    }
}

/// The JSON text of a YAML value: strings quoted and escaped, sequences as
/// arrays, mappings as objects with their string keys in sorted order (the
/// last of equal keys kept), tagged values and non-finite numbers as `null`.
pub fn yaml_to_json(y: &YamlValue) -> (r: String)
    ensures
        r@ == yaml_json(*y),
{
    let mut out: Vec<char> = Vec::new();
    push_yaml_json(&mut out, y);
    string_of(&out)
}

/// The type name of a YAML value: "null", "boolean", "number", "string",
/// "array", "object" or "tagged".
pub fn value_type_of(y: &YamlValue) -> (r: String)
    ensures
        r@ == yaml_type(*y),
{
    let mut out: Vec<char> = Vec::new();
    match y {
        YamlValue::Null => push_str(&mut out, "null"),
        YamlValue::Bool(_) => push_str(&mut out, "boolean"),
        YamlValue::Int(_) => push_str(&mut out, "number"),
        YamlValue::UInt(_) => push_str(&mut out, "number"),
        YamlValue::Float(_, _) => push_str(&mut out, "number"),
        YamlValue::Str(_) => push_str(&mut out, "string"),
        YamlValue::Sequence(_) => push_str(&mut out, "array"),
        YamlValue::Mapping(_) => push_str(&mut out, "object"),
        YamlValue::Tagged(..) => push_str(&mut out, "tagged"),
    }
    string_of(&out)
}

/// The readable text of a YAML value (see `yaml_text`).
fn value_text(y: &YamlValue) -> (r: String)
    ensures
        r@ == yaml_text(*y),
{
    let mut out: Vec<char> = Vec::new();
    match y {
        YamlValue::Str(s) => push_str(&mut out, s.as_str()),
        YamlValue::Int(i) => push_int(&mut out, *i),
        YamlValue::UInt(u) => push_decimal_u64(&mut out, *u),
        YamlValue::Float(t, _) => match t {
            Some(x) => push_str(&mut out, x.as_str()),
            None => push_str(&mut out, "null"),
        },
        YamlValue::Bool(b) => if *b {
            push_str(&mut out, "true")
        } else {
            push_str(&mut out, "false")
        },
        YamlValue::Sequence(v) => {
            let mut strs: Vec<Vec<char>> = Vec::new();
            let mut i: usize = 0;
            assert(v@.take(0) =~= Seq::<YamlValue>::empty());
            while i < v.len()
                invariant
                    i <= v.len(),
                    vv(strs@) == str_items(v@.take(i as int)),
                decreases v.len() - i,
            {
                assert(v@.take(i + 1).drop_last() =~= v@.take(i as int));
                assert(v@.take(i + 1).last() == v@[i as int]);
                match &v[i] {
                    YamlValue::Str(x) => {
                        let ghost before = vv(strs@);
                        strs.push(chars_of(x.as_str()));
                        assert(vv(strs@) =~= before.push(x@));
                    },
                    _ => {},
                }
                i += 1;
            }
            assert(v@.take(v.len() as int) =~= v@);
            if strs.len() > 0 {
                let mut sep: Vec<char> = Vec::new();
                push_str(&mut sep, ", ");
                assert(sep@ =~= ", "@);
                let j = join_chars(&strs, 0, strs.len(), &sep);
                assert(vv(strs@).subrange(0, strs.len() as int) =~= vv(strs@));
                append_chars(&mut out, &j);
            } else {
                push_str(&mut out, "[");
                push_decimal(&mut out, v.len());
                push_str(&mut out, " items]");
            }
        },
        YamlValue::Mapping(m) => {
            let idx = key_order_of(m);
            let mut keys: Vec<Vec<char>> = Vec::new();
            let mut i: usize = 0;
            while i < idx.len()
                invariant
                    i <= idx.len(),
                    forall|j: int| 0 <= j < idx@.len() ==> idx@[j] < m@.len(),
                    vv(keys@) =~= keys_at(m@, ints(idx@)).take(i as int),
                decreases idx.len() - i,
            {
                let ghost before = vv(keys@);
                keys.push(entry_key(&m[idx[i]]));
                assert(vv(keys@) =~= before.push(keys_at(m@, ints(idx@))[i as int]));
                i += 1;
            }
            assert(keys_at(m@, ints(idx@)).take(idx.len() as int) =~= keys_at(m@, ints(idx@)));
            let mut sep: Vec<char> = Vec::new();
            push_str(&mut sep, ", ");
            assert(sep@ =~= ", "@);
            let j = join_chars(&keys, 0, keys.len(), &sep);
            assert(vv(keys@).subrange(0, keys.len() as int) =~= vv(keys@));
            push_str(&mut out, "{");
            append_chars(&mut out, &j);
            push_str(&mut out, "}");
        },
        _ => push_str(&mut out, "null"),
    }
    string_of(&out)
}

/// The fields of a parsed frontmatter mapping ordered by key, with the YAML
/// they came from (see `frontmatter_of`); nothing unless the value is a map.
pub fn frontmatter_from_yaml(raw_yaml: String, yaml: &YamlValue) -> (r: Option<FrontmatterData>)
    ensures
        match frontmatter_of(raw_yaml@, *yaml) {
            Some((fs, raw)) => r matches Some(d) && fields_view(d.fields@) == fs && d.raw_yaml@ == raw,
            None => r is None,
        },
{
    let m = match yaml {
        YamlValue::Mapping(m) => m,
        _ => {
            return None;
        },
    };
    let mut fields: Vec<FrontmatterField> = Vec::new();
    let mut n: usize = 0;
    assert(fields_view(fields@) =~= sort_fields(fields_in_order(m@, 0)));
    while n < m.len()
        invariant
            n <= m.len(),
            fields_view(fields@) == sort_fields(fields_in_order(m@, n as int)),
        decreases m.len() - n,
    {
        let ghost acc = fields_view(fields@);
        match &m[n].0 {
            YamlValue::Str(k) => {
                let v = &m[n].1;
                let mut j: Vec<char> = Vec::new();
                push_yaml_json(&mut j, v);
                let f = FrontmatterField {
                    key: k.clone(),
                    value_json: string_of(&j),
                    value_type: value_type_of(v),
                    value_text: Some(value_text(v)),
                };
                let ghost fv = f@;
                assert(fv == field_of(k@, m@[n as int].1));
                let kc = chars_of(k.as_str());
                let mut p: usize = 0;
                loop
                    invariant
                        p <= fields.len(),
                        acc == fields_view(fields@),
                        kc@ == fv.key,
                        field_slot(acc, fv.key, 0) == field_slot(acc, fv.key, p as int),
                    ensures
                        p <= fields.len(),
                        acc == fields_view(fields@),
                        field_slot(acc, fv.key, 0) == p as int,
                    decreases fields.len() - p,
                {
                    if p >= fields.len() {
                        break;
                    }
                    assert(acc[p as int] == fields@[p as int]@);
                    let fk = chars_of(fields[p].key.as_str());
                    if lex_less(&kc, &fk) {
                        break;
                    }
                    p += 1;
                }
                fields.insert(p, f);
                assert(fields_view(fields@) =~= acc.insert(p as int, fv));
                let ghost prev = fields_in_order(m@, n as int);
                assert(fields_in_order(m@, n + 1) == prev.push(fv));
                assert(prev.push(fv).drop_last() =~= prev);
            },
            _ => {},
        }
        n += 1;
    }
    Some(FrontmatterData { fields, raw_yaml })
}


// ---------------------------------------------------------------------------
// JSON values read back from fields
// ---------------------------------------------------------------------------

/// A JSON value as the logic reads it.
pub enum JsonValue {
    Null,
    Bool(bool),
    Int(i64),
    UInt(u64),
    /// A floating-point number, as its JSON text.
    Float(String),
    Str(String),
    Array(Vec<JsonValue>),
    /// Members in key order.
    Object(Vec<(String, JsonValue)>),
}

/// The strings a value holds: itself if a string, the string items if an
/// array, none otherwise.
pub open spec fn string_values(v: JsonValue) -> Seq<Seq<char>> {
    match v {
        JsonValue::Str(s) => seq![s@],
        JsonValue::Array(a) => json_strings(a@),
        _ => Seq::empty(),
    }
}

/// The string items of an array, in order.
pub open spec fn json_strings(a: Seq<JsonValue>) -> Seq<Seq<char>>
    decreases a.len(),
{
    if a.len() == 0 {
        Seq::empty()
    } else {
        let acc = json_strings(a.drop_last());
        match a.last() {
            JsonValue::Str(s) => acc.push(s@),
            _ => acc,
        }
    }
}

/// The strings a value holds (see `string_values`).
pub fn extract_string_values(value: &JsonValue) -> (r: Vec<String>)
    ensures
        r.deep_view() == string_values(*value),
{
    match value {
        JsonValue::Str(s) => {
            let mut r: Vec<String> = Vec::new();
            r.push(s.clone());
            assert(r.deep_view() =~= seq![s@]);
            r
        },
        JsonValue::Array(a) => {
            let mut r: Vec<String> = Vec::new();
            let mut i: usize = 0;
            assert(a@.take(0) =~= Seq::<JsonValue>::empty());
            while i < a.len()
                invariant
                    i <= a.len(),
                    r.deep_view() == json_strings(a@.take(i as int)),
                decreases a.len() - i,
            {
                assert(a@.take(i + 1).drop_last() =~= a@.take(i as int));
                assert(a@.take(i + 1).last() == a@[i as int]);
                match &a[i] {
                    JsonValue::Str(s) => {
                        let ghost before = r.deep_view();
                        r.push(s.clone());
                        assert(r.deep_view() =~= before.push(s@));
                    },
                    _ => {},
                }
                i += 1;
            }
            assert(a@.take(a.len() as int) =~= a@);
            r
        },
        _ => {
            let r: Vec<String> = Vec::new();
            assert(r.deep_view() =~= Seq::<Seq<char>>::empty());
            r
        },
    }
}

/// The compact JSON text of a value (as `serde_json` writes it).
pub open spec fn json_text(v: JsonValue) -> Seq<char>
    decreases v, 0int,
{
    match v {
        JsonValue::Null => "null"@,
        JsonValue::Bool(b) => if b {
            "true"@
        } else {
            "false"@
        },
        JsonValue::Int(i) => int_text(i),
        JsonValue::UInt(u) => dec(u as nat),
        JsonValue::Float(t) => t@,
        JsonValue::Str(s) => quoted(s@),
        JsonValue::Array(a) => "["@ + json_items(a@, 0) + "]"@,
        JsonValue::Object(o) => "{"@ + json_members(o@, 0) + "}"@,
    }
}

/// Items `i..` of a JSON array, comma-separated.
pub open spec fn json_items(a: Seq<JsonValue>, i: int) -> Seq<char>
    decreases a, a.len() - i,
{
    if i < 0 || i >= a.len() {
        Seq::empty()
    } else {
        (if i > 0 {
            ","@
        } else {
            Seq::empty()
        }) + json_text(a[i]) + json_items(a, i + 1)
    }
}

/// Members `i..` of a JSON object, comma-separated.
pub open spec fn json_members(o: Seq<(String, JsonValue)>, i: int) -> Seq<char>
    decreases o, o.len() - i,
{
    if i < 0 || i >= o.len() {
        Seq::empty()
    } else {
        (if i > 0 {
            ","@
        } else {
            Seq::empty()
        }) + quoted(o[i].0@) + ":"@ + json_text(o[i].1) + json_members(o, i + 1)
    }
}

/// Appends the compact JSON text of a value.
pub fn push_json_text(out: &mut Vec<char>, v: &JsonValue)
    ensures
        final(out)@ == old(out)@ + json_text(*v),
    decreases v,
{
    match v {
        JsonValue::Null => push_str(out, "null"),
        JsonValue::Bool(b) => if *b {
            push_str(out, "true")
        } else {
            push_str(out, "false")
        },
        JsonValue::Int(i) => push_int(out, *i),
        JsonValue::UInt(u) => push_decimal_u64(out, *u),
        JsonValue::Float(t) => push_str(out, t.as_str()),
        JsonValue::Str(s) => push_quoted(out, s.as_str()),
        JsonValue::Array(a) => {
            push_str(out, "[");
            let ghost base = out@;
            let mut i: usize = 0;
            while i < a.len()
                invariant
                    i <= a.len(),
                    *v == JsonValue::Array(*a),
                    out@ + json_items(a@, i as int) == base + json_items(a@, 0),
                decreases a.len() - i,
            {
                let ghost before = out@;
                if i > 0 {
                    push_str(out, ",");
                }
                assert(decreases_to!(*v => a[i as int])) by {
                    assert(decreases_to!(*v => v->Array_0));
                    assert(decreases_to!(*a => a@));
                    assert(decreases_to!(a@ => a@[i as int]));
                }
                push_json_text(out, &a[i]);
                assert(out@ + json_items(a@, i + 1) =~= before + json_items(a@, i as int));
                i += 1;
            }
            assert(out@ + json_items(a@, i as int) =~= out@);
            push_str(out, "]");
            assert(out@ =~= old(out)@ + json_text(*v));
        },
        JsonValue::Object(o) => {
            push_str(out, "{");
            let ghost base = out@;
            let mut i: usize = 0;
            while i < o.len()
                invariant
                    i <= o.len(),
                    *v == JsonValue::Object(*o),
                    out@ + json_members(o@, i as int) == base + json_members(o@, 0),
                decreases o.len() - i,
            {
                let ghost before = out@;
                if i > 0 {
                    push_str(out, ",");
                }
                push_quoted(out, o[i].0.as_str());
                push_str(out, ":");
                assert(decreases_to!(*v => o[i as int].1)) by {
                    assert(decreases_to!(*v => v->Object_0));
                    assert(decreases_to!(*o => o@));
                    assert(decreases_to!(o@ => o@[i as int]));
                    assert(decreases_to!(o@[i as int] => o@[i as int].1));
                }
                push_json_text(out, &o[i].1);
                assert(out@ + json_members(o@, i + 1) =~= before + json_members(o@, i as int));
                i += 1;
            }
            assert(out@ + json_members(o@, i as int) =~= out@);
            push_str(out, "}");
            assert(out@ =~= old(out)@ + json_text(*v));
        },
    }
}

// ---------------------------------------------------------------------------
// Reading YAML and JSON text
// ---------------------------------------------------------------------------

#[verifier::external_type_specification]
#[verifier::external_body]
pub struct OutsideYamlValue(serde_yaml::Value);

#[verifier::external_type_specification]
#[verifier::external_body]
pub struct OutsideJsonValue(serde_json::Value);

#[verifier::external_type_specification]
#[verifier::external_body]
pub struct OutsideYamlNumber(serde_yaml::Number);

#[verifier::external_type_specification]
#[verifier::external_body]
pub struct OutsideYamlMapping(serde_yaml::Mapping);

/// Carries a YAML number over into the library's form: as `i64` when it
/// fits, else as `u64`, else (a floating-point number) as the JSON text
/// `serde_json` writes for it (nothing when it writes none) and the YAML
/// text `serde_yaml::Number` displays.
#[verifier::external_body]
fn yaml_number_from(n: serde_yaml::Number) -> YamlValue {
    match (n.as_i64(), n.as_u64(), serde_json::to_value(&n)) {
        (Some(i), _, _) => YamlValue::Int(i),
        (None, Some(u), _) => YamlValue::UInt(u),
        (None, None, Ok(serde_json::Value::Number(j))) => YamlValue::Float(Some(j.to_string()), n.to_string()),
        _ => YamlValue::Float(None, n.to_string()),
    }
}

/// Carries a parsed `serde_yaml::Value` over into the library's form,
/// variant by variant (numbers by `yaml_number_from`, a tag as it
/// displays).
#[verifier::external_body]
fn yaml_value_from(v: serde_yaml::Value) -> YamlValue {
    match v {
        serde_yaml::Value::Null => YamlValue::Null,
        serde_yaml::Value::Bool(b) => YamlValue::Bool(b),
        serde_yaml::Value::Number(n) => yaml_number_from(n),
        serde_yaml::Value::String(s) => YamlValue::Str(s),
        serde_yaml::Value::Sequence(q) => YamlValue::Sequence(q.into_iter().map(yaml_value_from).collect()),
        serde_yaml::Value::Mapping(m) => YamlValue::Mapping(m.into_iter().map(|(k, x)| (yaml_value_from(k), yaml_value_from(x))).collect()),
        serde_yaml::Value::Tagged(t) => YamlValue::Tagged(t.tag.to_string(), Box::new(yaml_value_from(t.value))),
    }
}

/// The value a YAML text parses to, if it is YAML.
pub uninterp spec fn yaml_parse_of(text: Seq<char>) -> Option<YamlValue>;

/// Parses YAML text.
///
/// Trusted: `serde_yaml::from_str` into a `serde_yaml::Value`, carried over
/// by `yaml_value_from`. Its result depends on the text alone; the contract
/// names it, and states that each tag comes with its `!` (as
/// `serde_yaml::value::Tag` displays it), so is never empty.
#[verifier::external_body]
fn parse_yaml(text: &str) -> (r: Option<YamlValue>)
    ensures
        r == yaml_parse_of(text@),
        r matches Some(y) ==> tags_ok(yaml_view(y)),
{
    serde_yaml::from_str::<serde_yaml::Value>(text).ok().map(yaml_value_from)
}

/// Carries a parsed `serde_json::Value` over into the library's form: an
/// integer as `i64` when it fits, else as `u64`, any other number as its
/// text.
#[verifier::external_body]
fn json_value_from(v: serde_json::Value) -> JsonValue {
    match v {
        serde_json::Value::Null => JsonValue::Null,
        serde_json::Value::Bool(b) => JsonValue::Bool(b),
        serde_json::Value::Number(n) => match (n.as_i64(), n.as_u64()) {
            (Some(i), _) => JsonValue::Int(i),
            (None, Some(u)) => JsonValue::UInt(u),
            _ => JsonValue::Float(n.to_string()),
        },
        serde_json::Value::String(s) => JsonValue::Str(s),
        serde_json::Value::Array(a) => JsonValue::Array(a.into_iter().map(json_value_from).collect()),
        serde_json::Value::Object(o) => JsonValue::Object(o.into_iter().map(|(k, x)| (k, json_value_from(x))).collect()),
    }
}

/// The value a JSON text parses to, if it is JSON.
pub uninterp spec fn json_parse_of(text: Seq<char>) -> Option<JsonValue>;

/// Parses JSON text.
///
/// Trusted: `serde_json::from_str` into a `serde_json::Value`, carried over
/// by `json_value_from`. Its result depends on the text alone; the contract
/// names it and says nothing of what it is.
#[verifier::external_body]
pub(crate) fn parse_json(text: &str) -> (r: Option<JsonValue>)
    ensures
        r == json_parse_of(text@),
{
    serde_json::from_str::<serde_json::Value>(text).ok().map(json_value_from)
}

/// The frontmatter of a text: its YAML block, parsed, as fields ordered by
/// key; nothing when there is no block, it is not YAML, or not a map.
pub open spec fn parsed_frontmatter(content: Seq<char>) -> Option<(Seq<FieldView>, Seq<char>)> {
    match frontmatter_raw(content) {
        None => None,
        Some((raw, _)) => match yaml_parse_of(raw) {
            None => None,
            Some(y) => frontmatter_of(raw, y),
        },
    }
}

/// Reads the frontmatter of a document (see `parsed_frontmatter`).
pub fn parse_frontmatter(content: &str) -> (r: Option<FrontmatterData>)
    ensures
        match parsed_frontmatter(content@) {
            Some((fs, raw)) => r matches Some(d) && fields_view(d.fields@) == fs && d.raw_yaml@ == raw,
            None => r is None,
        },
{
    let (raw, _end) = match extract_frontmatter_raw(content) {
        Some(x) => x,
        None => {
            return None;
        },
    };
    let y = match parse_yaml(raw.as_str()) {
        Some(y) => y,
        None => {
            return None;
        },
    };
    frontmatter_from_yaml(raw, &y)
}

/// The position of the first field (from `i`) with the given key.
pub open spec fn first_field_with_key(fs: Seq<FieldView>, key: Seq<char>, i: int) -> Option<int>
    decreases fs.len() - i,
{
    if i < 0 || i >= fs.len() {
        None
    } else if fs[i].key == key {
        Some(i)
    } else {
        first_field_with_key(fs, key, i + 1)
    }
}

proof fn lemma_first_key_views(fields: Seq<FrontmatterField>, key: Seq<char>, i: int)
    ensures
        first_with_key(fields, key, i) == first_field_with_key(fields_view(fields), key, i),
        first_with_key(fields, key, i) matches Some(k) ==> i <= k < fields.len(),
    decreases fields.len() - i,
{
    if 0 <= i < fields.len() {
        assert(fields_view(fields)[i] == fields[i]@);
        lemma_first_key_views(fields, key, i + 1);
    }
}

/// The strings a field of a document's frontmatter holds (a string, or the
/// strings of an array); nothing when there is no frontmatter, no such
/// field, or its value is no JSON.
pub open spec fn field_values_spec(content: Seq<char>, field: Seq<char>) -> Option<Seq<Seq<char>>> {
    match parsed_frontmatter(content) {
        None => None,
        Some((fs, _)) => match first_field_with_key(fs, field, 0) {
            None => None,
            Some(k) => match json_parse_of(fs[k].value_json) {
                None => None,
                Some(v) => Some(string_values(v)),
            },
        },
    }
}

/// The view of an optional list of texts.
pub open spec fn opt_texts(o: Option<Vec<String>>) -> Option<Seq<Seq<char>>> {
    match o {
        Some(v) => Some(v.deep_view()),
        None => None,
    }
}

/// The strings a frontmatter field holds (see `field_values_spec`).
pub fn field_string_values(content: &str, field: &str) -> (r: Option<Vec<String>>)
    ensures
        opt_texts(r) == field_values_spec(content@, field@),
{
    let data = match parse_frontmatter(content) {
        Some(d) => d,
        None => {
            return None;
        },
    };
    proof {
        lemma_first_key_views(data.fields@, field@, 0);
    }
    let f = match get_field(&data, field) {
        Some(f) => f,
        None => {
            return None;
        },
    };
    proof {
        let k = first_with_key(data.fields@, field@, 0)->Some_0;
        assert(fields_view(data.fields@)[k] == data.fields@[k]@);
    }
    let v = match parse_json(f.value_json.as_str()) {
        Some(v) => v,
        None => {
            return None;
        },
    };
    Some(extract_string_values(&v))
}

// ---------------------------------------------------------------------------
// Setting a field
// ---------------------------------------------------------------------------

/// What setting a field in a YAML map gives: the map written back as YAML,
/// or why not.
pub enum YamlEdit {
    /// The map with the field set, as YAML text.
    Written(String),
    /// The existing YAML is not a map.
    NotAMap,
    /// The map could not be written as YAML.
    Unwritable,
}

/// A YAML edit as a plain value.
pub enum YamlEditView {
    Written(Seq<char>),
    NotAMap,
    Unwritable,
}

impl View for YamlEdit {
    type V = YamlEditView;

    open spec fn view(&self) -> YamlEditView {
        match self {
            YamlEdit::Written(y) => YamlEditView::Written(y@),
            YamlEdit::NotAMap => YamlEditView::NotAMap,
            YamlEdit::Unwritable => YamlEditView::Unwritable,
        }
    }
}

/// The view of an optional text.
pub open spec fn opt_text(o: Option<&str>) -> Option<Seq<char>> {
    match o {
        Some(t) => Some(t@),
        None => None,
    }
}

/// A YAML value as a plain value.
pub enum YamlView {
    Null,
    Bool(bool),
    Int(i64),
    UInt(u64),
    Float(Option<Seq<char>>, Seq<char>),
    Str(Seq<char>),
    Sequence(Seq<YamlView>),
    Mapping(Seq<(YamlView, YamlView)>),
    Tagged(Seq<char>, Box<YamlView>),
}

/// The plain value of a YAML value.
pub open spec fn yaml_view(y: YamlValue) -> YamlView
    decreases y, 0int,
{
    match y {
        YamlValue::Null => YamlView::Null,
        YamlValue::Bool(b) => YamlView::Bool(b),
        YamlValue::Int(i) => YamlView::Int(i),
        YamlValue::UInt(u) => YamlView::UInt(u),
        YamlValue::Float(j, t) => YamlView::Float(
            match j {
                Some(x) => Some(x@),
                None => None,
            },
            t@,
        ),
        YamlValue::Str(s) => YamlView::Str(s@),
        YamlValue::Sequence(v) => YamlView::Sequence(items_view(v@, 0)),
        YamlValue::Mapping(m) => YamlView::Mapping(pairs_view(m@, 0)),
        YamlValue::Tagged(t, b) => YamlView::Tagged(t@, Box::new(yaml_view(*b))),
    }
}

/// The plain values of items `i..`.
pub open spec fn items_view(v: Seq<YamlValue>, i: int) -> Seq<YamlView>
    decreases v, v.len() - i,
{
    if i < 0 || i >= v.len() {
        Seq::empty()
    } else {
        seq![yaml_view(v[i])] + items_view(v, i + 1)
    }
}

/// The plain values of map entries `i..`.
pub open spec fn pairs_view(m: Seq<(YamlValue, YamlValue)>, i: int) -> Seq<(YamlView, YamlView)>
    decreases m, m.len() - i,
{
    if i < 0 || i >= m.len() {
        Seq::empty()
    } else {
        seq![(yaml_view(m[i].0), yaml_view(m[i].1))] + pairs_view(m, i + 1)
    }
}

/// Entry by entry, the plain values of map entries.
proof fn lemma_pairs_view(m: Seq<(YamlValue, YamlValue)>, i: int)
    requires
        0 <= i <= m.len(),
    ensures
        pairs_view(m, i).len() == m.len() - i,
        forall|j: int|
            0 <= j < m.len() - i ==> #[trigger] pairs_view(m, i)[j] == (yaml_view(m[i + j].0), yaml_view(
                m[i + j].1,
            )),
    decreases m.len() - i,
{
    if i < m.len() {
        lemma_pairs_view(m, i + 1);
        assert forall|j: int| 0 <= j < m.len() - i implies #[trigger] pairs_view(m, i)[j] == (yaml_view(
            m[i + j].0,
        ), yaml_view(m[i + j].1)) by {
            if j > 0 {
                assert(pairs_view(m, i)[j] == pairs_view(m, i + 1)[j - 1]);
            }
        }
    }
}

/// Whether every tag in a value is a non-empty text.
pub open spec fn tags_ok(y: YamlView) -> bool
    decreases y, 0int,
{
    match y {
        YamlView::Sequence(v) => items_tags_ok(v, 0),
        YamlView::Mapping(m) => pairs_tags_ok(m, 0),
        YamlView::Tagged(t, b) => t.len() > 0 && tags_ok(*b),
        _ => true,
    }
}

/// Whether every tag in items `i..` is a non-empty text.
pub open spec fn items_tags_ok(v: Seq<YamlView>, i: int) -> bool
    decreases v, v.len() - i,
{
    i < 0 || i >= v.len() || (tags_ok(v[i]) && items_tags_ok(v, i + 1))
}

/// Whether every tag in map entries `i..` is a non-empty text.
pub open spec fn pairs_tags_ok(m: Seq<(YamlView, YamlView)>, i: int) -> bool
    decreases m, m.len() - i,
{
    i < 0 || i >= m.len() || (tags_ok(m[i].0) && tags_ok(m[i].1) && pairs_tags_ok(m, i + 1))
}

/// Whether every tag in map entries is a non-empty text (entry by entry).
pub open spec fn entries_tags_ok(m: Seq<(YamlView, YamlView)>) -> bool {
    forall|j: int| 0 <= j < m.len() ==> tags_ok(#[trigger] m[j].0) && tags_ok(m[j].1)
}

proof fn lemma_pairs_tags_ok(m: Seq<(YamlView, YamlView)>, i: int)
    requires
        0 <= i <= m.len(),
        forall|j: int| i <= j < m.len() ==> tags_ok(#[trigger] m[j].0) && tags_ok(m[j].1),
    ensures
        pairs_tags_ok(m, i),
    decreases m.len() - i,
{
    if i < m.len() {
        lemma_pairs_tags_ok(m, i + 1);
    }
}

proof fn lemma_pairs_tags_each(m: Seq<(YamlView, YamlView)>, i: int)
    requires
        0 <= i <= m.len(),
        pairs_tags_ok(m, i),
    ensures
        forall|j: int| i <= j < m.len() ==> tags_ok(#[trigger] m[j].0) && tags_ok(m[j].1),
    decreases m.len() - i,
{
    if i < m.len() {
        lemma_pairs_tags_each(m, i + 1);
        assert forall|j: int| i <= j < m.len() implies tags_ok(#[trigger] m[j].0) && tags_ok(m[j].1) by {
            if j > i {
            }
        }
    }
}

/// The entries a YAML text holds as a map, if it parses as one.
pub uninterp spec fn yaml_map_parse_of(text: Seq<char>) -> Option<Seq<(YamlView, YamlView)>>;

/// Parses YAML text as a map.
///
/// Trusted: `serde_yaml::from_str` into a `serde_yaml::Mapping` (an empty
/// text or `null` gives an empty map), its entries carried over by
/// `yaml_value_from`. Its result depends on the text alone; the contract
/// names it, and states that each tag comes with its `!` (as
/// `serde_yaml::value::Tag` displays it), so is never empty.
#[verifier::external_body]
fn parse_yaml_map(text: &str) -> (r: Option<Vec<(YamlValue, YamlValue)>>)
    ensures
        match r {
            Some(m) => yaml_map_parse_of(text@) == Some(pairs_view(m@, 0)) && pairs_tags_ok(pairs_view(m@, 0), 0),
            None => yaml_map_parse_of(text@) is None,
        },
{
    serde_yaml::from_str::<serde_yaml::Mapping>(text).ok().map(
        |m| m.into_iter().map(|(k, v)| (yaml_value_from(k), yaml_value_from(v))).collect(),
    )
}

/// Carries a value of the library's form back into a `serde_yaml::Value`,
/// variant by variant (a float from its YAML text, a tagged value and map
/// entries by the helpers below).
#[verifier::external_body]
fn yaml_value_into(v: &YamlValue) -> serde_yaml::Value {
    match v {
        YamlValue::Null => serde_yaml::Value::Null,
        YamlValue::Bool(b) => serde_yaml::Value::Bool(*b),
        YamlValue::Int(i) => serde_yaml::Value::Number((*i).into()),
        YamlValue::UInt(u) => serde_yaml::Value::Number((*u).into()),
        YamlValue::Float(_, t) => t.parse::<serde_yaml::Number>().map_or(serde_yaml::Value::Null, serde_yaml::Value::Number),
        YamlValue::Str(s) => serde_yaml::Value::String(s.clone()),
        YamlValue::Sequence(q) => serde_yaml::Value::Sequence(q.iter().map(yaml_value_into).collect()),
        YamlValue::Mapping(m) => serde_yaml::Value::Mapping(yaml_pairs_into(m)),
        YamlValue::Tagged(t, x) => yaml_tagged_into(t, x),
    }
}

/// Carries a tagged value back: `serde_yaml::value::Tag::new` of the tag
/// (which must not be empty) and the value.
#[verifier::external_body]
fn yaml_tagged_into(t: &String, x: &YamlValue) -> serde_yaml::Value
    requires
        t@.len() > 0,
{
    let tag = serde_yaml::value::Tag::new(t.clone());
    serde_yaml::Value::Tagged(Box::new(serde_yaml::value::TaggedValue { tag, value: yaml_value_into(x) }))
}

/// Carries map entries back into a `serde_yaml::Mapping`, in order.
#[verifier::external_body]
fn yaml_pairs_into(m: &Vec<(YamlValue, YamlValue)>) -> serde_yaml::Mapping {
    m.iter().map(|(k, x)| (yaml_value_into(k), yaml_value_into(x))).collect()
}

/// The YAML text of a map with the given entries, if it can be written.
pub uninterp spec fn yaml_map_text_of(entries: Seq<(YamlView, YamlView)>) -> Option<Seq<char>>;

/// Writes a map as YAML text.
///
/// Trusted: `serde_yaml::to_string` of the `serde_yaml::Mapping` collected
/// from the entries (carried over by `yaml_value_into`). Its result depends
/// on the entries alone; the contract names it. It asks for non-empty tags,
/// which `serde_yaml::value::Tag::new` demands.
#[verifier::external_body]
fn write_yaml_map(entries: &Vec<(YamlValue, YamlValue)>) -> (r: Option<String>)
    requires
        pairs_tags_ok(pairs_view(entries@, 0), 0),
    ensures
        match r {
            Some(t) => yaml_map_text_of(pairs_view(entries@, 0)) == Some(t@),
            None => yaml_map_text_of(pairs_view(entries@, 0)) is None,
        },
{
    serde_yaml::to_string(&yaml_pairs_into(entries)).ok()
}

/// The value a field is set to: the text read as YAML, or, when it is no
/// YAML, the text as a string.
pub open spec fn value_view(value: Seq<char>) -> YamlView {
    match yaml_parse_of(value) {
        Some(y) => yaml_view(y),
        None => YamlView::Str(value),
    }
}

/// The position of the first entry (from `i`) whose key is the string `key`.
pub open spec fn key_position(m: Seq<(YamlView, YamlView)>, key: Seq<char>, i: int) -> Option<int>
    decreases m.len() - i,
{
    if i < 0 || i >= m.len() {
        None
    } else if m[i].0 == YamlView::Str(key) {
        Some(i)
    } else {
        key_position(m, key, i + 1)
    }
}

proof fn lemma_key_position_range(m: Seq<(YamlView, YamlView)>, key: Seq<char>, i: int)
    requires
        0 <= i,
    ensures
        key_position(m, key, i) matches Some(j) ==> i <= j < m.len(),
    decreases m.len() - i,
{
    if i < m.len() {
        lemma_key_position_range(m, key, i + 1);
    }
}

/// A map with `key` set to `v`, as `serde_yaml::Mapping::insert` sets it:
/// an entry with that key keeps its place and takes the new value; else
/// the entry goes last.
pub open spec fn map_insert_view(m: Seq<(YamlView, YamlView)>, key: Seq<char>, v: YamlView) -> Seq<(YamlView, YamlView)> {
    match key_position(m, key, 0) {
        Some(i) => m.update(i, (m[i].0, v)),
        None => m.push((YamlView::Str(key), v)),
    }
}

/// What setting `key` to `value` in the map that `raw` holds gives: the
/// value is the text read as YAML, or the text as a string when it is no
/// YAML; the map is `raw` read as a map, or a new empty map when there is
/// no `raw`; the result is the map with the field set, written as YAML.
pub open spec fn yaml_edit_spec(raw: Option<Seq<char>>, key: Seq<char>, value: Seq<char>) -> YamlEditView {
    let m = match raw {
        None => Some(Seq::<(YamlView, YamlView)>::empty()),
        Some(r) => yaml_map_parse_of(r),
    };
    match m {
        None => YamlEditView::NotAMap,
        Some(m) => match yaml_map_text_of(map_insert_view(m, key, value_view(value))) {
            Some(t) => YamlEditView::Written(t),
            None => YamlEditView::Unwritable,
        },
    }
}

/// Sets `key` in map entries, as `serde_yaml::Mapping::insert` does (see
/// `map_insert_view`).
fn map_insert(entries: &mut Vec<(YamlValue, YamlValue)>, key: &str, v: YamlValue)
    ensures
        pairs_view(final(entries)@, 0) == map_insert_view(pairs_view(old(entries)@, 0), key@, yaml_view(v)),
{
    let ghost m0 = pairs_view(entries@, 0);
    proof { lemma_pairs_view(entries@, 0); }
    let kc = chars_of(key);
    let mut i: usize = 0;
    while i < entries.len()
        invariant
            i <= entries.len(),
            m0 == pairs_view(entries@, 0),
            m0 == pairs_view(old(entries)@, 0),
            m0.len() == entries.len(),
            forall|j: int| 0 <= j < entries.len() ==> #[trigger] m0[j] == (yaml_view(entries@[j].0), yaml_view(entries@[j].1)),
            kc@ == key@,
            key_position(m0, key@, 0) == key_position(m0, key@, i as int),
        decreases entries.len() - i,
    {
        let same = match &entries[i].0 {
            YamlValue::Str(s) => crate::text::eq_str_chars(s.as_str(), &kc),
            _ => false,
        };
        assert(m0[i as int] == (yaml_view(entries@[i as int].0), yaml_view(entries@[i as int].1)));
        if same {
            assert(m0[i as int].0 == YamlView::Str(key@));
            assert(key_position(m0, key@, i as int) == Some(i as int));
            let ghost e0 = entries@;
            let (k, _old) = entries.remove(i);
            assert(k == e0[i as int].0);
            let ghost vw = yaml_view(v);
            entries.insert(i, (k, v));
            proof {
                assert(entries@ =~= e0.update(i as int, (e0[i as int].0, v)));
                lemma_pairs_view(entries@, 0);
                let m1 = pairs_view(entries@, 0);
                assert forall|j: int| 0 <= j < m1.len() implies #[trigger] m1[j] == m0.update(
                    i as int,
                    (m0[i as int].0, vw),
                )[j] by {
                    if j != i {
                        assert(entries@[j] == e0[j]);
                    }
                }
                assert(m1 =~= m0.update(i as int, (m0[i as int].0, vw)));
            }
            return;
        }
        assert(m0[i as int].0 != YamlView::Str(key@));
        i += 1;
    }
    let ghost vv_ = yaml_view(v);
    entries.push((YamlValue::Str(key.to_string()), v));
    proof {
        lemma_pairs_view(entries@, 0);
        assert(pairs_view(entries@, 0) =~= m0.push((YamlView::Str(key@), vv_)));
    }
}

/// Sets a field in the map that `raw` holds (a new map when there is none)
/// and writes the map back as YAML (see `yaml_edit_spec`).
fn yaml_with_field(raw: Option<&str>, key: &str, value: &str) -> (r: YamlEdit)
    ensures
        r@ == yaml_edit_spec(opt_text(raw), key@, value@),
{
    let v = match parse_yaml(value) {
        Some(y) => y,
        None => YamlValue::Str(value.to_string()),
    };
    let mut m: Vec<(YamlValue, YamlValue)> = match raw {
        None => Vec::new(),
        Some(r) => match parse_yaml_map(r) {
            Some(m) => m,
            None => {
                return YamlEdit::NotAMap;
            },
        },
    };
    proof {
        lemma_pairs_view(m@, 0);
        if raw is None {
            assert(pairs_view(m@, 0) =~= Seq::<(YamlView, YamlView)>::empty());
        } else {
            lemma_pairs_tags_each(pairs_view(m@, 0), 0);
        }
    }
    let ghost vv_ = yaml_view(v);
    assert(vv_ == value_view(value@));
    assert(tags_ok(vv_));
    let ghost m0 = pairs_view(m@, 0);
    map_insert(&mut m, key, v);
    proof {
        let m1 = pairs_view(m@, 0);
        assert(m1 == map_insert_view(m0, key@, vv_));
        if raw is None {
            assert(m0.len() == 0);
        }
        assert(forall|j: int| 0 <= j < m0.len() ==> tags_ok(#[trigger] m0[j].0) && tags_ok(m0[j].1));
        lemma_key_position_range(m0, key@, 0);
        assert forall|j: int| 0 <= j < m1.len() implies tags_ok(#[trigger] m1[j].0) && tags_ok(m1[j].1) by {
            match key_position(m0, key@, 0) {
                Some(i) => {
                    if j != i {
                        assert(m1[j] == m0[j]);
                    } else {
                        assert(tags_ok(m0[i].0));
                        assert(m1[j] == (m0[i].0, vv_));
                    }
                },
                None => {
                    if j < m0.len() {
                        assert(m1[j] == m0[j]);
                    } else {
                        assert(m1[j] == (YamlView::Str(key@), vv_));
                    }
                },
            }
        }
        lemma_pairs_tags_ok(m1, 0);
    }
    match write_yaml_map(&m) {
        Some(t) => YamlEdit::Written(t),
        None => YamlEdit::Unwritable,
    }
}

/// A text with a new frontmatter block holding only `key` put in front.
pub open spec fn with_new_frontmatter(content: Seq<char>, key: Seq<char>, value: Seq<char>) -> Seq<char> {
    match yaml_edit_spec(None, key, value) {
        YamlEditView::Written(y) => "---\n"@ + y + "---\n"@ + content,
        _ => content,
    }
}

/// A text with field `key` set to `value` in its frontmatter: the block is
/// written anew and the lines after it follow (joined by newlines); a text
/// without frontmatter, or whose block is no map, gets a new block in
/// front; a text whose map cannot be written stays as it is.
pub open spec fn set_field_spec(content: Seq<char>, key: Seq<char>, value: Seq<char>) -> Seq<char> {
    match frontmatter_raw(content) {
        Some((raw, end)) => match yaml_edit_spec(Some(raw), key, value) {
            YamlEditView::Written(y) => {
                let ls = text_lines(content);
                "---\n"@ + y + "---\n"@ + if end < ls.len() {
                    join(ls.subrange(end as int, ls.len() as int), seq!['\n'])
                } else {
                    Seq::empty()
                }
            },
            YamlEditView::NotAMap => with_new_frontmatter(content, key, value),
            YamlEditView::Unwritable => content,
        },
        None => with_new_frontmatter(content, key, value),
    }
}

/// Puts a new frontmatter block holding only `key` in front of a text.
fn create_new_frontmatter(content: &str, key: &str, value: &str) -> (r: String)
    ensures
        r@ == with_new_frontmatter(content@, key@, value@),
{
    match yaml_with_field(None, key, value) {
        YamlEdit::Written(y) => {
            let mut out: Vec<char> = Vec::new();
            push_str(&mut out, "---\n");
            push_str(&mut out, y.as_str());
            push_str(&mut out, "---\n");
            push_str(&mut out, content);
            string_of(&out)
        },
        _ => string_of(&chars_of(content)),
    }
}

/// Sets a frontmatter field (see `set_field_spec`).
pub fn set_frontmatter_field(content: &str, key: &str, value: &str) -> (r: String)
    ensures
        r@ == set_field_spec(content@, key@, value@),
{
    let (raw, end) = match extract_frontmatter_raw(content) {
        Some(x) => x,
        None => {
            return create_new_frontmatter(content, key, value);
        },
    };
    match yaml_with_field(Some(raw.as_str()), key, value) {
        YamlEdit::Written(y) => {
            let c = chars_of(content);
            let ls = lines_of(&c);
            let mut out: Vec<char> = Vec::new();
            push_str(&mut out, "---\n");
            push_str(&mut out, y.as_str());
            push_str(&mut out, "---\n");
            if end < ls.len() {
                let mut nl: Vec<char> = Vec::new();
                nl.push('\n');
                assert(nl@ =~= seq!['\n']);
                crate::text::join_range_into(&mut out, &ls, end, ls.len(), &nl);
            }
            assert(out@ =~= set_field_spec(content@, key@, value@));
            string_of(&out)
        },
        YamlEdit::NotAMap => create_new_frontmatter(content, key, value),
        YamlEdit::Unwritable => string_of(&chars_of(content)),
    }
}

// ---------------------------------------------------------------------------
// Laws of field order
// ---------------------------------------------------------------------------

proof fn lemma_field_slot(fs: Seq<FieldView>, k: Seq<char>, i: int)
    requires
        0 <= i <= fs.len(),
    ensures
        i <= field_slot(fs, k, i) <= fs.len(),
        forall|m: int| i <= m < field_slot(fs, k, i) ==> !lex_lt(k, (#[trigger] fs[m]).key),
        field_slot(fs, k, i) < fs.len() ==> lex_lt(k, fs[field_slot(fs, k, i)].key),
    decreases fs.len() - i,
{
    if i < fs.len() && !lex_lt(k, fs[i].key) {
        lemma_field_slot(fs, k, i + 1);
    }
}

/// Fields come out ordered by key, and they are the fields that went in,
/// each as often as it came.
pub proof fn sorted_fields_are_ordered(fs: Seq<FieldView>)
    ensures
        forall|i: int, j: int|
            0 <= i < j < sort_fields(fs).len() ==> !lex_lt(
                (#[trigger] sort_fields(fs)[j]).key,
                (#[trigger] sort_fields(fs)[i]).key,
            ),
        sort_fields(fs).to_multiset() == fs.to_multiset(),
    decreases fs.len(),
{
    broadcast use vstd::seq_lib::to_multiset_build, vstd::seq_lib::to_multiset_insert;

    if fs.len() == 0 {
        assert(sort_fields(fs) =~= fs);
    } else {
        let d = fs.drop_last();
        let x = fs.last();
        sorted_fields_are_ordered(d);
        let acc = sort_fields(d);
        let p = field_slot(acc, x.key, 0);
        lemma_field_slot(acc, x.key, 0);
        let r = acc.insert(p, x);
        assert(r == sort_fields(fs));
        assert forall|i: int, j: int| 0 <= i < j < r.len() implies !lex_lt(
            (#[trigger] r[j]).key,
            (#[trigger] r[i]).key,
        ) by {
            if j < p {
                assert(r[i] == acc[i] && r[j] == acc[j]);
            } else if j == p {
                assert(r[i] == acc[i] && r[j] == x);
            } else if i == p {
                assert(r[j] == acc[j - 1] && r[i] == x);
                if j - 1 > p {
                    assert(!lex_lt(acc[j - 1].key, acc[p].key));
                }
                if lex_lt(acc[j - 1].key, x.key) {
                    crate::text::lemma_lex_transitive(acc[j - 1].key, x.key, acc[p].key);
                    crate::text::lemma_lex_irreflexive(acc[p].key);
                }
            } else if i < p {
                assert(r[i] == acc[i] && r[j] == acc[j - 1]);
            } else {
                assert(r[i] == acc[i - 1] && r[j] == acc[j - 1]);
            }
        }
        assert(fs =~= d.push(x));
    }
}

} // verus!
