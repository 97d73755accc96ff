//! Records of the index store, and the content hash that tells whether a
//! file changed since it was indexed.

use vstd::prelude::*;
use vstd::string::StringSliceAdditionalSpecFns;

verus! {

broadcast use vstd::string::group_string_axioms;

/// State of the index.
pub struct IndexStatus {
    pub path: String,
    pub last_sync: String,
    pub files_indexed: usize,
    pub files_stale: usize,
    pub files_deleted: usize,
    pub sqlite_bytes: u64,
    pub tantivy_bytes: u64,
}

/// A stored section.
pub struct DbSection {
    pub id: i64,
    pub file_id: i64,
    pub parent_id: Option<i64>,
    pub section_index: String,
    pub ordinal: i64,
    pub level: i64,
    pub title: String,
    pub start_line: i64,
    pub end_line: i64,
}

/// A stored link.
pub struct DbLink {
    pub id: i64,
    pub source_file_id: i64,
    pub source_line: i64,
    pub target_raw: String,
    pub target_path: Option<String>,
    pub target_anchor: Option<String>,
    pub link_type: String,
    pub resolved_file_id: Option<i64>,
    pub is_broken: bool,
}

/// A stored frontmatter field.
pub struct DbFrontmatterField {
    pub id: i64,
    pub file_id: i64,
    pub key: String,
    pub value_json: String,
    pub value_type: String,
    pub value_text: Option<String>,
}

/// The 64-bit XXH3 hash of some bytes (seed 0).
pub uninterp spec fn xxh3_64_of(data: Seq<u8>) -> u64;

/// Hashes bytes with XXH3.
///
/// Trusted: `xxhash_rust::xxh3::xxh3_64`, a function of its input alone;
/// the contract names its result and says nothing more of it.
#[verifier::external_body]
fn xxh3_hash(data: &[u8]) -> (h: u64)
    ensures
        h == xxh3_64_of(data@),
{
    xxhash_rust::xxh3::xxh3_64(data)
}

/// The lowercase hexadecimal digit of `d` (below 16).
pub open spec fn hex_char(d: nat) -> char {
    if d < 10 {
        ((d + 48) as u8) as char
    } else {
        ((d + 87) as u8) as char
    }
}

/// The last `k` hexadecimal digits of `n`, leading zeros kept.
pub open spec fn hex_digits(n: nat, k: nat) -> Seq<char>
    decreases k,
{
    if k == 0 {
        Seq::empty()
    } else {
        hex_digits(n / 16, (k - 1) as nat).push(hex_char(n % 16))
    }
}

pub(crate) fn hex_digit(d: u64) -> (c: char)
    requires
        d < 16,
    ensures
        c == hex_char(d as nat),
{
    if d < 10 {
        ((d as u8) + 48) as char
    } else {
        ((d as u8) + 87) as char
    }
}

/// A hash as 16 lowercase hexadecimal digits.
pub fn hash_hex(h: u64) -> (r: String)
    ensures
        r@ == hex_digits(h as nat, 16),
{
    let mut digits: Vec<char> = Vec::new();
    let mut k: usize = 0;
    let mut n: u64 = h;
    assert(pow16(0) == 1);
    assert(h as nat / 1 == h as nat);
    while k < 16
        invariant
            k <= 16,
            digits@.len() == k,
            forall|j: int| 0 <= j < k ==> digits@[j] == hex_digits(h as nat, 16)[15 - j],
            n == h as nat / pow16(k as nat),
        decreases 16 - k,
    {
        proof { lemma_hex_digit_at(h as nat, k as nat); }
        digits.push(hex_digit(n % 16));
        n = n / 16;
        proof { lemma_pow16_step(h as nat, k as nat); }
        k += 1;
    }
    let mut out = String::new();
    let mut i: usize = 16;
    let ghost target = hex_digits(h as nat, 16);
    proof { lemma_hex_len(h as nat, 16); }
    while i > 0
        invariant
            i <= 16,
            digits@.len() == 16,
            forall|j: int| 0 <= j < 16 ==> digits@[j] == target[15 - j],
            out@ == target.take(16 - i),
            target.len() == 16,
        decreases i,
    {
        i -= 1;
        crate::text::push_char(&mut out, digits[i]);
        assert(target.take(16 - i) =~= target.take(16 - i - 1).push(target[15 - i as int]));
    }
    assert(target.take(16) =~= target);
    out
}

/// `16^k`.
pub open spec fn pow16(k: nat) -> nat
    decreases k,
{
    if k == 0 {
        1
    } else {
        16 * pow16((k - 1) as nat)
    }
}

proof fn lemma_hex_len(n: nat, k: nat)
    ensures
        hex_digits(n, k).len() == k,
    decreases k,
{
    if k > 0 {
        lemma_hex_len(n / 16, (k - 1) as nat);
    }
}

proof fn lemma_pow16_pos(k: nat)
    ensures
        pow16(k) >= 1,
    decreases k,
{
    if k > 0 {
        lemma_pow16_pos((k - 1) as nat);
    }
}

proof fn lemma_pow16_step(n: nat, k: nat)
    ensures
        n / pow16(k) / 16 == n / pow16(k + 1),
{
    lemma_pow16_pos(k);
    assert(pow16(k + 1) == 16 * pow16(k));
    vstd::arithmetic::div_mod::lemma_div_denominator(n as int, pow16(k) as int, 16);
    assert(pow16(k) * 16 == 16 * pow16(k)) by (nonlinear_arith);
}

/// Digit `15 - k` (counting from the left) of the 16-digit form is the
/// `k`-th lowest hexadecimal digit.
proof fn lemma_hex_digit_at(n: nat, k: nat)
    requires
        k < 16,
    ensures
        hex_digits(n, 16)[15 - k] == hex_char((n / pow16(k)) % 16),
{
    lemma_hex_digit_at_general(n, 16, k);
}

proof fn lemma_hex_digit_at_general(n: nat, m: nat, k: nat)
    requires
        k < m,
    ensures
        hex_digits(n, m).len() == m,
        hex_digits(n, m)[m - 1 - k] == hex_char((n / pow16(k)) % 16),
    decreases m,
{
    lemma_hex_len(n, m);
    let prev = hex_digits(n / 16, (m - 1) as nat);
    assert(hex_digits(n, m) == prev.push(hex_char(n % 16)));
    lemma_hex_len(n / 16, (m - 1) as nat);
    if k > 0 {
        lemma_hex_digit_at_general(n / 16, (m - 1) as nat, (k - 1) as nat);
        lemma_pow16_pos((k - 1) as nat);
        vstd::arithmetic::div_mod::lemma_div_denominator(n as int, 16, pow16((k - 1) as nat) as int);
        assert(pow16(k) == 16 * pow16((k - 1) as nat));
        assert(hex_digits(n, m)[m - 1 - k] == prev[m - 1 - k]);
    } else {
        assert(pow16(0) == 1);
        assert(n / 1 == n);
    }
}

/// The content hash of a file: XXH3 of its bytes as 16 hexadecimal digits.
pub fn compute_hash(content: &[u8]) -> (r: String)
    ensures
        r@ == hex_digits(xxh3_64_of(content@) as nat, 16),
{
    let h = xxh3_hash(content);
    hash_hex(h)
}


/// The figures stored for an indexed file.
pub struct FileRecord {
    /// The content hash (see `compute_hash`).
    pub content_hash: String,
    /// Size in bytes.
    pub bytes: usize,
    /// Number of lines.
    pub lines: usize,
    pub has_frontmatter: bool,
}

/// The figures stored for a file with the given text.
pub fn file_record(content: &str, has_frontmatter: bool) -> (r: FileRecord)
    ensures
        r.content_hash@ == hex_digits(xxh3_64_of(content.spec_bytes()) as nat, 16),
        r.bytes == content.spec_bytes().len(),
        r.lines == crate::text::text_lines(content@).len(),
        r.has_frontmatter == has_frontmatter,
{
    let bytes = content.as_bytes();
    let content_hash = compute_hash(bytes);
    let lines = crate::text::lines_of(&crate::text::chars_of(content)).len();
    FileRecord { content_hash, bytes: bytes.len(), lines, has_frontmatter }
}

/// The path a link's target is looked up by: the target next to the file
/// holding the link (in that file's directory, if it has one).
pub open spec fn lookup_path_spec(rel_path: Seq<char>, target: Seq<char>) -> Seq<char> {
    match crate::links::last_index_of(rel_path, '/') {
        Some(i) => rel_path.take(i) + "/"@ + target,
        None => target,
    }
}

/// The path under which a link's target is looked up among indexed files.
pub fn lookup_path(rel_path: &str, target: &str) -> (r: String)
    ensures
        r@ == lookup_path_spec(rel_path@, target@),
{
    let rc = crate::text::chars_of(rel_path);
    let mut out: Vec<char> = Vec::new();
    match crate::links::find_last_char(&rc, '/') {
        Some(i) => {
            out = crate::text::slice_chars(&rc, 0, i);
            crate::text::push_str(&mut out, "/");
            crate::text::push_str(&mut out, target);
            assert(out@ =~= rel_path@.take(i as int) + "/"@ + target@);
        },
        None => {
            crate::text::push_str(&mut out, target);
            assert(out@ =~= target@);
        },
    }
    crate::text::string_of(&out)
}

/// A link whose target names a file that is not indexed is broken; a link
/// with no target path is not.
pub fn link_is_broken(has_target_path: bool, resolved: Option<i64>) -> (r: bool)
    ensures
        r == (resolved is None && has_target_path),
{
    resolved.is_none() && has_target_path
}

// ---------------------------------------------------------------------------
// Laws of content hashes
// ---------------------------------------------------------------------------

proof fn lemma_hex_char_injective(d: nat, e: nat)
    requires
        d < 16,
        e < 16,
        hex_char(d) == hex_char(e),
    ensures
        d == e,
{
    if d < 10 && e < 10 {
        assert((d + 48) as u8 as char == (e + 48) as u8 as char);
        assert(((d + 48) as u8) as u32 == ((e + 48) as u8) as u32);
    } else if d >= 10 && e >= 10 {
        assert(((d + 87) as u8) as u32 == ((e + 87) as u8) as u32);
    } else if d < 10 {
        assert(((d + 48) as u8) as u32 == ((e + 87) as u8) as u32);
    } else {
        assert(((d + 87) as u8) as u32 == ((e + 48) as u8) as u32);
    }
}

proof fn lemma_hex_digits_mod(n: nat, m: nat, k: nat)
    requires
        hex_digits(n, k) == hex_digits(m, k),
    ensures
        n % pow16(k) == m % pow16(k),
    decreases k,
{
    if k == 0 {
        assert(pow16(0) == 1);
    } else {
        let kk = (k - 1) as nat;
        lemma_hex_len(n / 16, kk);
        lemma_hex_len(m / 16, kk);
        let a = hex_digits(n / 16, kk);
        let b = hex_digits(m / 16, kk);
        assert(hex_digits(n, k) == a.push(hex_char(n % 16)));
        assert(hex_digits(m, k) == b.push(hex_char(m % 16)));
        assert(hex_digits(n, k)[kk as int] == hex_char(n % 16));
        assert(hex_digits(m, k)[kk as int] == hex_char(m % 16));
        lemma_hex_char_injective(n % 16, m % 16);
        assert(a =~= hex_digits(n, k).drop_last());
        assert(b =~= hex_digits(m, k).drop_last());
        lemma_hex_digits_mod(n / 16, m / 16, kk);
        lemma_pow16_pos(kk);
        assert(pow16(k) == 16 * pow16(kk));
        vstd::arithmetic::div_mod::lemma_mod_breakdown(n as int, 16, pow16(kk) as int);
        vstd::arithmetic::div_mod::lemma_mod_breakdown(m as int, 16, pow16(kk) as int);
    }
}

proof fn lemma_pow16_16()
    ensures
        pow16(16) == 0x1_0000_0000_0000_0000,
{
    reveal_with_fuel(pow16, 17);
}

/// A stored hash tells contents apart exactly as XXH3 does: two hash values
/// give the same 16-digit text only when they are equal, and the text is
/// always 16 lowercase hexadecimal digits.
pub proof fn hash_text_is_faithful(x: u64, y: u64)
    ensures
        hex_digits(x as nat, 16) == hex_digits(y as nat, 16) <==> x == y,
        hex_digits(x as nat, 16).len() == 16,
        forall|i: int|
            0 <= i < 16 ==> ('0' <= #[trigger] hex_digits(x as nat, 16)[i] <= '9') || ('a' <= hex_digits(
                x as nat,
                16,
            )[i] <= 'f'),
{
    lemma_hex_len(x as nat, 16);
    if hex_digits(x as nat, 16) == hex_digits(y as nat, 16) {
        lemma_hex_digits_mod(x as nat, y as nat, 16);
        lemma_pow16_16();
        vstd::arithmetic::div_mod::lemma_small_mod(x as nat, pow16(16));
        vstd::arithmetic::div_mod::lemma_small_mod(y as nat, pow16(16));
    }
    assert forall|i: int| 0 <= i < 16 implies ('0' <= #[trigger] hex_digits(x as nat, 16)[i] <= '9') || ('a'
        <= hex_digits(x as nat, 16)[i] <= 'f') by {
        lemma_hex_digit_at(x as nat, (15 - i) as nat);
        let d = (x as nat / pow16((15 - i) as nat)) % 16;
        if d < 10 {
            assert(((d + 48) as u8) as u32 == d + 48);
        } else {
            assert(((d + 87) as u8) as u32 == d + 87);
        }
    }
}

} // verus!
