//! What the full-text search decides apart from its index: the fields a
//! scope searches, and the snippet shown for a hit.

use vstd::prelude::*;
use vstd::string::StringSliceAdditionalSpecFns;
use crate::commands::{lowercase_of, to_lower};
use crate::text::{append_chars, chars_of, is_whitespace, is_ws, occurs_at, push_str, slice_chars, string_of, vv};

verus! {

broadcast use vstd::string::group_string_axioms;

/// A field of the search index.
#[derive(Debug, Clone, Copy, PartialEq, Eq, Structural)]
pub enum SearchField {
    /// The text of a section.
    Body,
    /// The title of a section.
    Title,
}

/// The fields a search scope looks in: body and title for all, the body
/// for body and code, the title for headers, none for frontmatter.
pub open spec fn scope_fields_spec(scope: crate::cli::SearchScope) -> Seq<SearchField> {
    match scope {
        crate::cli::SearchScope::All => seq![SearchField::Body, SearchField::Title],
        crate::cli::SearchScope::Body => seq![SearchField::Body],
        crate::cli::SearchScope::Headers => seq![SearchField::Title],
        crate::cli::SearchScope::Code => seq![SearchField::Body],
        crate::cli::SearchScope::Frontmatter => Seq::empty(),
    }
}

/// The fields a search scope looks in (see `scope_fields_spec`).
pub fn scope_fields(scope: &crate::cli::SearchScope) -> (r: Vec<SearchField>)
    ensures
        r@ == scope_fields_spec(*scope),
{
    let mut out: Vec<SearchField> = Vec::new();
    match scope {
        crate::cli::SearchScope::All => {
            out.push(SearchField::Body);
            out.push(SearchField::Title);
        },
        crate::cli::SearchScope::Body => out.push(SearchField::Body),
        crate::cli::SearchScope::Headers => out.push(SearchField::Title),
        crate::cli::SearchScope::Code => out.push(SearchField::Body),
        crate::cli::SearchScope::Frontmatter => {},
    }
    assert(out@ =~= scope_fields_spec(*scope));
    out
}


// ---------------------------------------------------------------------------
// Snippets
// ---------------------------------------------------------------------------

/// The words of a text between runs of whitespace (`str::split_whitespace`).
pub open spec fn ws_words(s: Seq<char>) -> Seq<Seq<char>>
    decreases s.len(),
{
    if s.len() == 0 {
        Seq::empty()
    } else {
        let p = ws_words(s.drop_last());
        let c = s.last();
        if is_ws(c) {
            p
        } else if s.len() >= 2 && !is_ws(s[s.len() - 2]) {
            p.update(p.len() - 1, p.last().push(c))
        } else {
            p.push(seq![c])
        }
    }
}

/// The first position where `p` occurs in `s`.
pub open spec fn first_occurrence(s: Seq<char>, p: Seq<char>) -> Option<int> {
    if exists|i: int| occurs_at(s, p, i) {
        Some(choose|i: int| occurs_at(s, p, i) && forall|j: int| 0 <= j < i ==> !occurs_at(s, p, j))
    } else {
        None
    }
}

/// Where in `l` the first of the words (from `k`, each lowercased) that
/// occurs in it first occurs.
pub open spec fn first_word_at(l: Seq<char>, ws: Seq<Seq<char>>, k: int) -> Option<int>
    decreases ws.len() - k,
{
    if k < 0 || k >= ws.len() {
        None
    } else {
        match first_occurrence(l, lowercase_of(ws[k])) {
            Some(i) => Some(i),
            None => first_word_at(l, ws, k + 1),
        }
    }
}

/// The number of bytes of a text in UTF-8.
pub open spec fn utf8_len(s: Seq<char>) -> nat {
    vstd::utf8::encode_utf8(s).len()
}

/// The smaller of two naturals.
pub open spec fn min_of(a: nat, b: nat) -> nat {
    if a <= b {
        a
    } else {
        b
    }
}

/// Where a snippet around the first matching word starts and ends, in
/// the units the search reckons with: the match's byte offset in the
/// lowercased body, less `ctx`; and that offset plus the query's bytes and
/// `ctx`, at most the body's bytes.
pub open spec fn snippet_window(q: Seq<char>, body: Seq<char>, ctx: nat, k: int) -> (nat, nat) {
    let pos = utf8_len(lowercase_of(body).take(k));
    let start: nat = if pos >= ctx {
        (pos - ctx) as nat
    } else {
        0
    };
    let end = min_of(pos + utf8_len(q) + ctx, utf8_len(body));
    (start, end)
}

/// The snippet shown for a search hit: nothing for an empty body; without
/// query words the body's first `2 * ctx` characters; else, around the first
/// place where a lowercased query word occurs in the lowercased body, the
/// body's characters from the window's start (taken as a character count)
/// for the window's length, with `...` before when it does not start the
/// body and after when it ends before the body's bytes; when no word occurs,
/// the first `2 * ctx` characters and `...`.
pub open spec fn snippet_spec(q: Seq<char>, body: Seq<char>, ctx: nat) -> Seq<char> {
    let head = body.take(min_of(2 * ctx, body.len()) as int);
    if body.len() == 0 {
        Seq::empty()
    } else if ws_words(q).len() == 0 {
        head
    } else {
        match first_word_at(lowercase_of(body), ws_words(q), 0) {
            None => head + "..."@,
            Some(k) => {
                let (start, end) = snippet_window(q, body, ctx, k);
                let s = min_of(start, body.len());
                let piece = body.subrange(s as int, min_of(s + (end - start) as nat, body.len()) as int);
                (if start > 0 {
                    "..."@
                } else {
                    Seq::empty()
                }) + piece + (if end < utf8_len(body) {
                    "..."@
                } else {
                    Seq::empty()
                })
            },
        }
    }
}

/// Whether the snippet's arithmetic stays within `usize`, and its window
/// does not end before it starts: otherwise the computation overflows.
pub open spec fn snippet_fits(q: Seq<char>, body: Seq<char>, ctx: nat) -> bool {
    body.len() == 0 || match first_word_at(lowercase_of(body), ws_words(q), 0) {
        None => 2 * ctx <= usize::MAX,
        Some(k) => {
            let pos = utf8_len(lowercase_of(body).take(k));
            &&& pos + utf8_len(q) + ctx <= usize::MAX
            &&& snippet_window(q, body, ctx, k).0 <= snippet_window(q, body, ctx, k).1
        },
    }
}

/// The whitespace-separated words of a text.
fn words_of(s: &Vec<char>) -> (r: Vec<Vec<char>>)
    ensures
        vv(r@) == ws_words(s@),
{
    let mut words: Vec<Vec<char>> = Vec::new();
    let mut i: usize = 0;
    assert(s@.take(0) =~= Seq::<char>::empty());
    while i < s.len()
        invariant
            i <= s.len(),
            vv(words@) == ws_words(s@.take(i as int)),
            i > 0 && !is_ws(s@[i - 1]) ==> words.len() > 0,
        decreases s.len() - i,
    {
        let c = s[i];
        let ghost t = s@.take(i + 1);
        assert(t.drop_last() =~= s@.take(i as int));
        assert(t.last() == c);
        if is_whitespace(c) {
        } else if i > 0 && !is_whitespace(s[i - 1]) {
            assert(t[t.len() - 2] == s@[i - 1]);
            let k = words.len() - 1;
            let mut w = words[k].clone();
            w.push(c);
            let ghost before = vv(words@);
            words.set(k, w);
            assert(vv(words@) =~= before.update(k as int, before.last().push(c)));
        } else {
            if i > 0 {
                assert(t[t.len() - 2] == s@[i - 1]);
            }
            let mut w: Vec<char> = Vec::new();
            w.push(c);
            let ghost before = vv(words@);
            words.push(w);
            assert(vv(words@) =~= before.push(seq![c]));
        }
        i += 1;
    }
    assert(s@.take(s.len() as int) =~= s@);
    words
}

/// Where `p` first occurs in `s`.
fn first_occurrence_of(s: &Vec<char>, p: &Vec<char>) -> (r: Option<usize>)
    ensures
        r matches Some(i) ==> i <= s.len() && first_occurrence(s@, p@) == Some(i as int),
        r is None ==> first_occurrence(s@, p@) is None,
{
    match crate::text::find_from(s, p, 0) {
        Some(i) => {
            assert(occurs_at(s@, p@, i as int));
            let ghost c = choose|k: int| occurs_at(s@, p@, k) && forall|j: int| 0 <= j < k ==> !occurs_at(s@, p@, j);
            assert(c == i as int) by {
                if c < i {
                } else if c > i {
                    assert(!occurs_at(s@, p@, i as int));
                }
            }
            Some(i)
        },
        None => None,
    }
}

/// Where in the lowercased body the first query word (in order) that
/// occurs in it first occurs.
fn first_word_match(l: &Vec<char>, words: &Vec<Vec<char>>) -> (r: Option<usize>)
    ensures
        r matches Some(i) ==> i <= l.len() && first_word_at(l@, vv(words@), 0) == Some(i as int),
        r is None ==> first_word_at(l@, vv(words@), 0) is None,
{
    let ghost ws = vv(words@);
    let mut k: usize = 0;
    while k < words.len()
        invariant
            k <= words.len(),
            ws == vv(words@),
            ws.len() == words.len(),
            first_word_at(l@, ws, 0) == first_word_at(l@, ws, k as int),
        decreases words.len() - k,
    {
        assert(ws[k as int] == words@[k as int]@);
        let w = to_lower(string_of(&words[k]).as_str());
        let wc = chars_of(w.as_str());
        match first_occurrence_of(l, &wc) {
            Some(i) => {
                return Some(i);
            },
            None => {},
        }
        k += 1;
    }
    None
}

/// The snippet shown for a search hit (see `snippet_spec`).
pub fn generate_snippet(query_str: &str, body: &str, context_chars: usize) -> (r: String)
    requires
        snippet_fits(query_str@, body@, context_chars as nat),
    ensures
        r@ == snippet_spec(query_str@, body@, context_chars as nat),
{
    let bc = chars_of(body);
    if bc.len() == 0 {
        return String::new();
    }
    let words = words_of(&chars_of(query_str));
    let lower = chars_of(to_lower(body).as_str());
    let found = if words.len() == 0 {
        None
    } else {
        first_word_match(&lower, &words)
    };
    match found {
        Some(k) => {
            let prefix = string_of(&slice_chars(&lower, 0, k));
            let pos = prefix.as_str().as_bytes().len();
            assert(lower@ == lowercase_of(body@));
            assert(first_word_at(lowercase_of(body@), ws_words(query_str@), 0) == Some(k as int));
            assert(prefix@ == lowercase_of(body@).take(k as int));
            assert(pos == utf8_len(lowercase_of(body@).take(k as int)));
            let qb = query_str.as_bytes().len();
            assert(qb == utf8_len(query_str@));
            let body_bytes = body.as_bytes().len();
            let start = pos.saturating_sub(context_chars);
            let reach = pos + qb + context_chars;
            let end = if reach < body_bytes {
                reach
            } else {
                body_bytes
            };
            let s = if start < bc.len() {
                start
            } else {
                bc.len()
            };
            let e = if end - start < bc.len() - s {
                s + (end - start)
            } else {
                bc.len()
            };
            let mut out: Vec<char> = Vec::new();
            if start > 0 {
                push_str(&mut out, "...");
            }
            append_chars(&mut out, &slice_chars(&bc, s, e));
            if end < body_bytes {
                push_str(&mut out, "...");
            }
            assert(out@ =~= snippet_spec(query_str@, body@, context_chars as nat));
            string_of(&out)
        },
        None => {
            let n = if context_chars * 2 < bc.len() {
                context_chars * 2
            } else {
                bc.len()
            };
            let mut out = slice_chars(&bc, 0, n);
            if words.len() > 0 {
                push_str(&mut out, "...");
            }
            assert(out@ =~= snippet_spec(query_str@, body@, context_chars as nat));
            string_of(&out)
        },
    }
}

/// The snippet shown for a search hit, when its arithmetic stays within
/// `usize` (see `snippet_fits`); nothing otherwise.
pub fn snippet_for(query_str: &str, body: &str, context_chars: usize) -> (r: Option<String>)
    ensures
        snippet_fits(query_str@, body@, context_chars as nat) ==> (r matches Some(t) && t@ == snippet_spec(
            query_str@,
            body@,
            context_chars as nat,
        )),
        !snippet_fits(query_str@, body@, context_chars as nat) ==> r is None,
{
    let bc = chars_of(body);
    if bc.len() == 0 {
        return Some(generate_snippet(query_str, body, context_chars));
    }
    let words = words_of(&chars_of(query_str));
    let lower = chars_of(to_lower(body).as_str());
    let found = if words.len() == 0 {
        None
    } else {
        first_word_match(&lower, &words)
    };
    let fits = match found {
        Some(k) => {
            let prefix = string_of(&slice_chars(&lower, 0, k));
            let pos = prefix.as_str().as_bytes().len();
            let qb = query_str.as_bytes().len();
            if pos > usize::MAX - qb || pos + qb > usize::MAX - context_chars {
                false
            } else {
                let start = pos.saturating_sub(context_chars);
                let reach = pos + qb + context_chars;
                let body_bytes = body.as_bytes().len();
                let end = if reach < body_bytes {
                    reach
                } else {
                    body_bytes
                };
                start <= end
            }
        },
        None => context_chars <= usize::MAX / 2,
    };
    if fits {
        Some(generate_snippet(query_str, body, context_chars))
    } else {
        None
    }
}

} // verus!
