//! Output records and their plain-text renderings.
//!
//! Every record here is plain data; the `format_raw` methods render the
//! text form that the command line prints when JSON is not asked for.

use vstd::prelude::*;
use crate::text::{
    append_chars, chars_of, dec, join, join_chars, push_decimal, push_decimal_u64, push_repeat, push_str, repeat_char,
    string_of, vv,
};
use crate::frontmatter::{JsonValue, json_text, push_json_text};

verus! {

broadcast use vstd::string::group_string_axioms;

/// `--- returned/total shown ---`, with `, next: --offset n` before the
/// closing dashes while more results follow.
pub open spec fn footer_text(returned: nat, total: nat, offset: nat) -> Seq<char> {
    if offset + returned >= total {
        "--- "@ + dec(returned) + "/"@ + dec(total) + " shown ---"@
    } else {
        "--- "@ + dec(returned) + "/"@ + dec(total) + " shown, next: --offset "@ + dec(offset + returned)
            + " ---"@
    }
}

/// The paging footer of the plain-text output.
pub fn format_raw_footer(returned: usize, total: usize, offset: usize) -> (r: String)
    requires
        offset + returned <= usize::MAX,
    ensures
        r@ == footer_text(returned as nat, total as nat, offset as nat),
{
    let mut out: Vec<char> = Vec::new();
    push_str(&mut out, "--- ");
    push_decimal(&mut out, returned);
    push_str(&mut out, "/");
    push_decimal(&mut out, total);
    if offset + returned >= total {
        push_str(&mut out, " shown ---");
    } else {
        push_str(&mut out, " shown, next: --offset ");
        push_decimal(&mut out, offset + returned);
        push_str(&mut out, " ---");
    }
    string_of(&out)
}


// ---------------------------------------------------------------------------
// Envelopes and paging
// ---------------------------------------------------------------------------

/// Paging and truncation figures of a list result.
pub struct Meta {
    pub total: usize,
    pub returned: usize,
    pub offset: usize,
    pub limit: usize,
    pub truncated: bool,
    pub has_more: Option<bool>,
    pub next_offset: Option<usize>,
    pub file: Option<String>,
}

impl Meta {
    /// Figures for one page of a list: more follow while
    /// `offset + returned < total`, and the list is cut when `total > limit`.
    pub fn paging(total: usize, returned: usize, offset: usize, limit: usize) -> (r: Self)
        requires
            offset + returned <= usize::MAX,
        ensures
            r.total == total,
            r.returned == returned,
            r.offset == offset,
            r.limit == limit,
            r.truncated == (total > limit),
            r.has_more == Some(offset + returned < total),
            r.next_offset == if offset + returned < total {
                Some((offset + returned) as usize)
            } else {
                None
            },
            r.file is None,
    {
        let has_more = offset + returned < total;
        let next_offset = if has_more {
            Some(offset + returned)
        } else {
            None
        };
        Meta {
            total,
            returned,
            offset,
            limit,
            truncated: total > limit,
            has_more: Some(has_more),
            next_offset,
            file: None,
        }
    }

    /// Figures for the results of one file, all shown.
    pub fn for_file(file: String, total: usize, returned: usize) -> (r: Self)
        ensures
            r.total == total,
            r.returned == returned,
            r.offset == 0,
            r.limit == total,
            !r.truncated,
            r.has_more is None,
            r.next_offset is None,
            r.file == Some(file),
    {
        Meta {
            total,
            returned,
            offset: 0,
            limit: total,
            truncated: false,
            has_more: None,
            next_offset: None,
            file: Some(file),
        }
    }

    /// Figures for content cut to a byte budget: `bytes_shown` of
    /// `bytes_total` bytes.
    pub fn with_truncation(file: Option<String>, bytes_shown: usize, bytes_total: usize, next_line: usize) -> (r: Self)
        ensures
            r.total == bytes_total,
            r.returned == bytes_shown,
            r.offset == 0,
            r.limit == bytes_total,
            r.truncated,
            r.has_more is None,
            r.next_offset is None,
            r.file == file,
    {
        Meta {
            total: bytes_total,
            returned: bytes_shown,
            offset: 0,
            limit: bytes_total,
            truncated: true,
            has_more: None,
            next_offset: None,
            file,
        }
    }
}

/// A list result with its paging figures.
pub struct Envelope<T> {
    pub meta: Meta,
    pub results: Option<Vec<T>>,
}

impl<T> Envelope<T> {
    /// An envelope holding results.
    pub fn with_results(meta: Meta, results: Vec<T>) -> (r: Self)
        ensures
            r.meta == meta,
            r.results == Some(results),
    {
        Envelope { meta, results: Some(results) }
    }

    /// An envelope without results (counts only).
    pub fn without_results(meta: Meta) -> (r: Self)
        ensures
            r.meta == meta,
            r.results is None,
    {
        Envelope { meta, results: None }
    }
}

// ---------------------------------------------------------------------------
// Byte budgets
// ---------------------------------------------------------------------------

/// Bytes set aside for the envelope around the items.
pub open spec fn envelope_overhead() -> nat {
    200
}

/// How many items (from `i` on, `used` bytes spent) fit within `available`
/// bytes, each costing its JSON size and two bytes more, and whether some
/// were left out; the first item is always kept.
pub open spec fn budget_scan(sizes: Seq<usize>, available: nat, i: int, used: nat) -> (nat, bool)
    decreases sizes.len() - i,
{
    if i < 0 || i >= sizes.len() {
        (sizes.len(), false)
    } else if used + sizes[i] + 2 > available && i > 0 {
        (i as nat, true)
    } else {
        budget_scan(sizes, available, i + 1, (used + sizes[i] + 2) as nat)
    }
}

/// How many of the items, whose JSON texts have the given sizes, fit in a
/// byte budget (all without one), and whether some were left out (see
/// `budget_scan`).
pub fn truncate_to_budget(item_json_sizes: &[usize], max_bytes: Option<usize>) -> (r: (usize, bool))
    requires
        forall|i: int| 0 <= i < item_json_sizes.len() ==> item_json_sizes[i] + 2 <= usize::MAX,
    ensures
        r.0 <= item_json_sizes.len(),
        (r.0 as nat, r.1) == match max_bytes {
            None => (item_json_sizes.len() as nat, false),
            Some(b) => budget_scan(
                item_json_sizes@,
                if b >= envelope_overhead() {
                    (b - envelope_overhead()) as nat
                } else {
                    0
                },
                0,
                0,
            ),
        },
{
    let budget = match max_bytes {
        Some(b) => b,
        None => {
            return (item_json_sizes.len(), false);
        },
    };
    let available = budget.saturating_sub(200);
    assert(available as nat == if budget >= envelope_overhead() {
        (budget - envelope_overhead()) as nat
    } else {
        0
    });
    let ghost sizes = item_json_sizes@;
    let mut used: usize = 0;
    let mut i: usize = 0;
    while i < item_json_sizes.len()
        invariant
            i <= item_json_sizes.len(),
            sizes == item_json_sizes@,
            forall|k: int| 0 <= k < item_json_sizes.len() ==> item_json_sizes[k] + 2 <= usize::MAX,
            max_bytes == Some(budget),
            available as nat == if budget >= envelope_overhead() {
                (budget - envelope_overhead()) as nat
            } else {
                0
            },
            i == 0 ==> used == 0,
            i > 0 ==> used > 0,
            used <= available || i == 1,
            budget_scan(sizes, available as nat, i as int, used as nat) == budget_scan(sizes, available as nat, 0, 0),
        decreases item_json_sizes.len() - i,
    {
        let item_bytes = item_json_sizes[i] + 2;
        if i > 0 && (used > available || item_bytes > available - used) {
            assert(used + sizes[i as int] + 2 > available);
            assert(budget_scan(sizes, available as nat, i as int, used as nat) == (i as nat, true));
            return (i, true);
        }
        used = if i == 0 { item_bytes } else { used + item_bytes };
        i += 1;
    }
    (i, false)
}

// ---------------------------------------------------------------------------
// Plans for results that overflow a threshold
// ---------------------------------------------------------------------------

/// Figures of a result too large to show.
pub struct PlanMeta {
    pub total: usize,
    pub returned: usize,
    pub overflow: bool,
    pub threshold: usize,
    pub files_searched: Option<usize>,
}

impl PlanMeta {
    /// Figures of a result of `total` items over the threshold: none shown.
    pub fn overflowing(total: usize, threshold: usize, files_searched: Option<usize>) -> (r: Self)
        ensures
            r.total == total,
            r.returned == 0,
            r.overflow,
            r.threshold == threshold,
            r.files_searched == files_searched,
    {
        PlanMeta { total, returned: 0, overflow: true, threshold, files_searched }
    }
}

/// Suggestions for narrowing a result: a hint, and per field the values
/// with their counts.
pub struct Plan {
    pub suggestion: Option<String>,
    pub facets: std::collections::BTreeMap<String, Vec<(String, usize)>>,
}

// ---------------------------------------------------------------------------
// Statistics
// ---------------------------------------------------------------------------

/// Link counts of a file.
pub struct LinkStats {
    pub wiki: Option<usize>,
    pub markdown: Option<usize>,
    pub total: Option<usize>,
}

/// Figures of one file.
pub struct FileStats {
    pub file: String,
    pub bytes: usize,
    pub lines: usize,
    pub sections: usize,
    pub code_blocks: usize,
    pub has_frontmatter: bool,
    pub links: Option<LinkStats>,
}

/// A count, or 0 when absent.
pub open spec fn or_zero(n: Option<usize>) -> nat {
    match n {
        Some(k) => k as nat,
        None => 0,
    }
}

/// The link count shown for a file: the total if given, else wiki plus
/// markdown links.
pub open spec fn link_count(l: LinkStats) -> nat {
    match l.total {
        Some(t) => t as nat,
        None => or_zero(l.wiki) + or_zero(l.markdown),
    }
}

/// `file: B bytes, L lines, S sections, C code blocks, frontmatter: yes|no`
/// and `, links: N` when link counts are given.
pub open spec fn file_stats_text(s: FileStats) -> Seq<char> {
    let base = s.file@ + ": "@ + dec(s.bytes as nat) + " bytes, "@ + dec(s.lines as nat) + " lines, "@
        + dec(s.sections as nat) + " sections, "@ + dec(s.code_blocks as nat) + " code blocks, "@
        + "frontmatter: "@ + if s.has_frontmatter {
        "yes"@
    } else {
        "no"@
    };
    match s.links {
        Some(l) => base + ", links: "@ + dec(link_count(l)),
        None => base,
    }
}

impl FileStats {
    /// The figures as one line of text.
    pub fn format_raw(&self) -> (r: String)
        requires
            self.links matches Some(l) ==> link_count(l) <= usize::MAX,
        ensures
            r@ == file_stats_text(*self),
    {
        let mut out: Vec<char> = Vec::new();
        append_chars(&mut out, &chars_of(self.file.as_str()));
        push_str(&mut out, ": ");
        push_decimal(&mut out, self.bytes);
        push_str(&mut out, " bytes, ");
        push_decimal(&mut out, self.lines);
        push_str(&mut out, " lines, ");
        push_decimal(&mut out, self.sections);
        push_str(&mut out, " sections, ");
        push_decimal(&mut out, self.code_blocks);
        push_str(&mut out, " code blocks, ");
        push_str(&mut out, "frontmatter: ");
        if self.has_frontmatter {
            push_str(&mut out, "yes");
        } else {
            push_str(&mut out, "no");
        }
        match &self.links {
            Some(l) => {
                let n: usize = match l.total {
                    Some(t) => t,
                    None => {
                        let w: usize = match l.wiki {
                            Some(k) => k,
                            None => 0,
                        };
                        let m: usize = match l.markdown {
                            Some(k) => k,
                            None => 0,
                        };
                        w + m
                    },
                };
                push_str(&mut out, ", links: ");
                push_decimal(&mut out, n);
            },
            None => {},
        }
        string_of(&out)
    }
}

/// Figures of a directory.
pub struct DirStats {
    pub path: String,
    pub files: usize,
    pub total_bytes: usize,
    pub total_lines: usize,
    pub total_sections: usize,
}

/// `path: F files, B bytes, L lines, S sections`
pub open spec fn dir_stats_text(s: DirStats) -> Seq<char> {
    s.path@ + ": "@ + dec(s.files as nat) + " files, "@ + dec(s.total_bytes as nat) + " bytes, "@ + dec(
        s.total_lines as nat,
    ) + " lines, "@ + dec(s.total_sections as nat) + " sections"@
}

impl DirStats {
    /// The figures as one line of text.
    pub fn format_raw(&self) -> (r: String)
        ensures
            r@ == dir_stats_text(*self),
    {
        let mut out: Vec<char> = Vec::new();
        append_chars(&mut out, &chars_of(self.path.as_str()));
        push_str(&mut out, ": ");
        push_decimal(&mut out, self.files);
        push_str(&mut out, " files, ");
        push_decimal(&mut out, self.total_bytes);
        push_str(&mut out, " bytes, ");
        push_decimal(&mut out, self.total_lines);
        push_str(&mut out, " lines, ");
        push_decimal(&mut out, self.total_sections);
        push_str(&mut out, " sections");
        string_of(&out)
    }
}


// ---------------------------------------------------------------------------
// Graph output
// ---------------------------------------------------------------------------

/// Counts of a graph.
pub struct GraphMeta {
    pub nodes: usize,
    pub edges: usize,
}

/// The neighbours of a node.
pub struct NodeInfo {
    /// Files linked to.
    pub out: Vec<String>,
    /// Files linking here.
    pub incoming: Vec<String>,
}

/// A graph as adjacency lists, keyed by path.
pub struct GraphAdjacency {
    pub meta: GraphMeta,
    pub graph: std::collections::BTreeMap<String, NodeInfo>,
}

/// One edge of an edge list.
pub struct EdgeInfo {
    pub from: String,
    pub to: String,
    /// The form of the link ("wiki" or "markdown").
    pub link_type: Option<String>,
    pub line: Option<usize>,
}

/// A graph as an edge list.
pub struct GraphEdges {
    pub meta: GraphMeta,
    pub edges: Vec<EdgeInfo>,
}

/// Figures of a graph as printed.
pub struct GraphStats {
    pub nodes: usize,
    pub edges: usize,
    pub orphans: Option<usize>,
    pub most_linked: Option<String>,
    pub most_linking: Option<String>,
}

/// `nodes: N, edges: E` and `, orphans: O` where given on the first line,
/// then `most linked: P` and `most linking: Q`, where given, on lines of
/// their own.
pub open spec fn graph_stats_text(s: GraphStats) -> Seq<char> {
    let a = "nodes: "@ + dec(s.nodes as nat) + ", edges: "@ + dec(s.edges as nat);
    let b = match s.orphans {
        Some(o) => a + ", orphans: "@ + dec(o as nat),
        None => a,
    };
    let c = match s.most_linked {
        Some(p) => b + "\nmost linked: "@ + p@,
        None => b,
    };
    match s.most_linking {
        Some(p) => c + "\nmost linking: "@ + p@,
        None => c,
    }
}

impl GraphStats {
    /// The figures as text (see `graph_stats_text`).
    pub fn format_raw(&self) -> (r: String)
        ensures
            r@ == graph_stats_text(*self),
    {
        let mut out: Vec<char> = Vec::new();
        push_str(&mut out, "nodes: ");
        push_decimal(&mut out, self.nodes);
        push_str(&mut out, ", edges: ");
        push_decimal(&mut out, self.edges);
        if let Some(o) = self.orphans {
            push_str(&mut out, ", orphans: ");
            push_decimal(&mut out, o);
        }
        if let Some(p) = &self.most_linked {
            push_str(&mut out, "\nmost linked: ");
            push_str(&mut out, p.as_str());
        }
        if let Some(p) = &self.most_linking {
            push_str(&mut out, "\nmost linking: ");
            push_str(&mut out, p.as_str());
        }
        string_of(&out)
    }
}

// ---------------------------------------------------------------------------
// Links output
// ---------------------------------------------------------------------------

/// A link as listed.
pub struct LinkInfo {
    pub source_file: String,
    pub source_line: usize,
    pub target_raw: String,
    pub target_path: Option<String>,
    pub target_anchor: Option<String>,
    pub link_type: String,
    pub resolved_file: Option<String>,
    pub is_broken: bool,
}

/// `source > target type Lline`, the target being its path if it has one.
pub open spec fn link_info_text(l: LinkInfo) -> Seq<char> {
    let target = match l.target_path {
        Some(p) => p@,
        None => l.target_raw@,
    };
    l.source_file@ + " > "@ + target + " "@ + l.link_type@ + " L"@ + dec(l.source_line as nat)
}

impl LinkInfo {
    /// The link as one line of text.
    pub fn format_raw(&self) -> (r: String)
        ensures
            r@ == link_info_text(*self),
    {
        let mut out: Vec<char> = Vec::new();
        push_str(&mut out, self.source_file.as_str());
        push_str(&mut out, " > ");
        match &self.target_path {
            Some(p) => push_str(&mut out, p.as_str()),
            None => push_str(&mut out, self.target_raw.as_str()),
        }
        push_str(&mut out, " ");
        push_str(&mut out, self.link_type.as_str());
        push_str(&mut out, " L");
        push_decimal(&mut out, self.source_line);
        string_of(&out)
    }
}

// ---------------------------------------------------------------------------
// Read output
// ---------------------------------------------------------------------------

/// Figures of content read from a file.
pub struct ReadMeta {
    pub file: String,
    pub section: Option<String>,
    pub truncated: Option<bool>,
    pub bytes_shown: Option<usize>,
    pub bytes_total: Option<usize>,
    pub next_line: Option<usize>,
    pub start_line: Option<usize>,
    pub end_line: Option<usize>,
}

/// Content read from a file, with its figures.
pub struct ReadResult {
    pub meta: ReadMeta,
    pub content: String,
}

/// `--- truncated at Lm, shown/total bytes, next: --section "Ln-" ---`:
/// the text was cut after line `m = n - 1` (0 when `n` is 0) and resumes at
/// line `n`.
pub open spec fn truncation_text(shown: nat, total: nat, next: nat) -> Seq<char> {
    "--- truncated at L"@ + dec(if next > 0 { (next - 1) as nat } else { 0 }) + ", "@ + dec(shown) + "/"@ + dec(total) + " bytes, next: --section \"L"@
        + dec(next) + "-\" ---"@
}

impl ReadResult {
    /// Content of a file with no section or truncation noted.
    pub fn new(file: String, content: String) -> (r: Self)
        ensures
            r.content == content,
            r.meta.file == file,
            r.meta.section is None,
            r.meta.truncated is None,
            r.meta.bytes_shown is None,
            r.meta.bytes_total is None,
            r.meta.next_line is None,
            r.meta.start_line is None,
            r.meta.end_line is None,
    {
        ReadResult {
            meta: ReadMeta {
                file,
                section: None,
                truncated: None,
                bytes_shown: None,
                bytes_total: None,
                next_line: None,
                start_line: None,
                end_line: None,
            },
            content,
        }
    }

    /// Notes the section the content came from.
    pub fn with_section(self, section: String, start_line: usize, end_line: usize) -> (r: Self)
        ensures
            r.content == self.content,
            r.meta.file == self.meta.file,
            r.meta.section == Some(section),
            r.meta.start_line == Some(start_line),
            r.meta.end_line == Some(end_line),
            r.meta.truncated == self.meta.truncated,
            r.meta.bytes_shown == self.meta.bytes_shown,
            r.meta.bytes_total == self.meta.bytes_total,
            r.meta.next_line == self.meta.next_line,
    {
        let mut r = self;
        r.meta.section = Some(section);
        r.meta.start_line = Some(start_line);
        r.meta.end_line = Some(end_line);
        r
    }

    /// Notes that the content was cut: bytes shown, bytes in all, and the
    /// line to go on from.
    pub fn with_truncation(self, bytes_shown: usize, bytes_total: usize, next_line: usize) -> (r: Self)
        ensures
            r.content == self.content,
            r.meta.file == self.meta.file,
            r.meta.section == self.meta.section,
            r.meta.start_line == self.meta.start_line,
            r.meta.end_line == self.meta.end_line,
            r.meta.truncated == Some(true),
            r.meta.bytes_shown == Some(bytes_shown),
            r.meta.bytes_total == Some(bytes_total),
            r.meta.next_line == Some(next_line),
    {
        let mut r = self;
        r.meta.truncated = Some(true);
        r.meta.bytes_shown = Some(bytes_shown);
        r.meta.bytes_total = Some(bytes_total);
        r.meta.next_line = Some(next_line);
        r
    }

    /// The footer printed after cut content, if it was cut (missing figures
    /// count as 0).
    pub fn format_truncation_footer(&self) -> (r: Option<String>)
        ensures
            self.meta.truncated == Some(true) ==> (r matches Some(t) && t@ == truncation_text(
                or_zero(self.meta.bytes_shown),
                or_zero(self.meta.bytes_total),
                or_zero(self.meta.next_line),
            )),
            self.meta.truncated != Some(true) ==> r is None,
    {
        let truncated = match self.meta.truncated {
            Some(t) => t,
            None => false,
        };
        if truncated {
            let shown: usize = match self.meta.bytes_shown {
                Some(k) => k,
                None => 0,
            };
            let total: usize = match self.meta.bytes_total {
                Some(k) => k,
                None => 0,
            };
            let next: usize = match self.meta.next_line {
                Some(k) => k,
                None => 0,
            };
            let mut out: Vec<char> = Vec::new();
            push_str(&mut out, "--- truncated at L");
            push_decimal(&mut out, if next > 0 { next - 1 } else { 0 });
            push_str(&mut out, ", ");
            push_decimal(&mut out, shown);
            push_str(&mut out, "/");
            push_decimal(&mut out, total);
            push_str(&mut out, " bytes, next: --section \"L");
            push_decimal(&mut out, next);
            push_str(&mut out, "-\" ---");
            Some(string_of(&out))
        } else {
            None
        }
    }
}

// ---------------------------------------------------------------------------
// Summaries
// ---------------------------------------------------------------------------

/// A section with the first lines of its content.
pub struct SectionSummary {
    pub index: String,
    pub title: String,
    pub line: usize,
    pub preview: String,
}

/// `title (Lline, index)` and, on the next line indented by two spaces,
/// the preview.
pub open spec fn summary_text(s: SectionSummary) -> Seq<char> {
    s.title@ + " (L"@ + dec(s.line as nat) + ", "@ + s.index@ + ")\n  "@ + s.preview@
}

impl SectionSummary {
    /// The summary as text.
    pub fn format_raw(&self) -> (r: String)
        ensures
            r@ == summary_text(*self),
    {
        let mut out: Vec<char> = Vec::new();
        push_str(&mut out, self.title.as_str());
        push_str(&mut out, " (L");
        push_decimal(&mut out, self.line);
        push_str(&mut out, ", ");
        push_str(&mut out, self.index.as_str());
        push_str(&mut out, ")\n  ");
        push_str(&mut out, self.preview.as_str());
        string_of(&out)
    }
}

/// Figures of a page of summaries.
pub struct SummaryMeta {
    pub file: String,
    pub total_sections: usize,
    pub returned: usize,
    pub offset: Option<usize>,
    pub has_more: Option<bool>,
    pub next_offset: Option<usize>,
}

/// A page of section summaries.
pub struct SummaryEnvelope {
    pub meta: SummaryMeta,
    pub results: Vec<SectionSummary>,
}

/// `--- returned/total sections shown ---`, with `, next: --offset n`
/// while more follow.
pub open spec fn summary_footer_text(returned: nat, total: nat, offset: nat) -> Seq<char> {
    if offset + returned >= total {
        "--- "@ + dec(returned) + "/"@ + dec(total) + " sections shown ---"@
    } else {
        "--- "@ + dec(returned) + "/"@ + dec(total) + " sections shown, next: --offset "@ + dec(offset + returned)
            + " ---"@
    }
}

impl SummaryEnvelope {
    /// A page of summaries; more follow while `offset + returned` is below
    /// the number of sections.
    pub fn new(file: String, total_sections: usize, returned: usize, offset: usize, results: Vec<SectionSummary>) -> (r: Self)
        requires
            offset + returned <= usize::MAX,
        ensures
            r.meta.file == file,
            r.meta.total_sections == total_sections,
            r.meta.returned == returned,
            r.meta.offset == Some(offset),
            r.meta.has_more == Some(offset + returned < total_sections),
            r.meta.next_offset == if offset + returned < total_sections {
                Some((offset + returned) as usize)
            } else {
                None
            },
            r.results == results,
    {
        let has_more = offset + returned < total_sections;
        let next_offset = if has_more {
            Some(offset + returned)
        } else {
            None
        };
        SummaryEnvelope {
            meta: SummaryMeta {
                file,
                total_sections,
                returned,
                offset: Some(offset),
                has_more: Some(has_more),
                next_offset,
            },
            results,
        }
    }

    /// The footer of the page (a missing offset counts as 0).
    pub fn format_footer(&self) -> (r: String)
        requires
            or_zero(self.meta.offset) + self.meta.returned <= usize::MAX,
        ensures
            r@ == summary_footer_text(self.meta.returned as nat, self.meta.total_sections as nat, or_zero(self.meta.offset)),
    {
        let returned = self.meta.returned;
        let total = self.meta.total_sections;
        let offset: usize = match self.meta.offset {
            Some(k) => k,
            None => 0,
        };
        let mut out: Vec<char> = Vec::new();
        push_str(&mut out, "--- ");
        push_decimal(&mut out, returned);
        push_str(&mut out, "/");
        push_decimal(&mut out, total);
        if offset + returned >= total {
            push_str(&mut out, " sections shown ---");
        } else {
            push_str(&mut out, " sections shown, next: --offset ");
            push_decimal(&mut out, offset + returned);
            push_str(&mut out, " ---");
        }
        string_of(&out)
    }
}

// ---------------------------------------------------------------------------
// Search figures and counts
// ---------------------------------------------------------------------------

/// Figures of search results.
pub struct SearchMeta {
    pub query: Option<String>,
    pub queries: Option<usize>,
    pub total: usize,
    pub returned: usize,
    pub offset: Option<usize>,
    pub limit: Option<usize>,
    pub truncated: bool,
    pub has_more: Option<bool>,
    pub next_offset: Option<usize>,
}

/// The number of hits of one query.
pub struct CountResult {
    pub query: String,
    pub total: usize,
}

/// The number of queries counted.
pub struct CountMeta {
    pub queries: usize,
}

/// Hit counts of several queries.
pub struct CountEnvelope {
    pub meta: CountMeta,
    pub counts: Vec<CountResult>,
}

/// The sum of some numbers.
pub open spec fn sum_of(s: Seq<usize>) -> nat
    decreases s.len(),
{
    if s.len() == 0 {
        0
    } else {
        sum_of(s.drop_last()) + s.last() as nat
    }
}

impl SearchMeta {
    /// Figures of one query's page of hits: more follow while
    /// `offset + returned < total`.
    pub fn single_query(
        query: String,
        total: usize,
        returned: usize,
        offset: usize,
        limit: usize,
        truncated: bool,
    ) -> (r: Self)
        requires
            offset + returned <= usize::MAX,
        ensures
            r.query == Some(query),
            r.queries is None,
            r.total == total,
            r.returned == returned,
            r.offset == Some(offset),
            r.limit == Some(limit),
            r.truncated == truncated,
            r.has_more == Some(offset + returned < total),
            r.next_offset == if offset + returned < total {
                Some((offset + returned) as usize)
            } else {
                None
            },
    {
        let has_more = offset + returned < total;
        let next_offset = if has_more {
            Some(offset + returned)
        } else {
            None
        };
        SearchMeta {
            query: Some(query),
            queries: None,
            total,
            returned,
            offset: Some(offset),
            limit: Some(limit),
            truncated,
            has_more: Some(has_more),
            next_offset,
        }
    }

    /// Figures of the hit groups of several queries: how many queries, and
    /// the sum of their totals.
    pub fn multi_query(group_totals: &[usize]) -> (r: Self)
        requires
            sum_of(group_totals@) <= usize::MAX,
        ensures
            r.query is None,
            r.queries == Some(group_totals@.len() as usize),
            r.total == sum_of(group_totals@),
            r.returned == 0,
            r.offset is None,
            r.limit is None,
            !r.truncated,
            r.has_more is None,
            r.next_offset is None,
    {
        let mut total: usize = 0;
        let mut i: usize = 0;
        while i < group_totals.len()
            invariant
                i <= group_totals.len(),
                total == sum_of(group_totals@.take(i as int)),
                sum_of(group_totals@) <= usize::MAX,
            decreases group_totals.len() - i,
        {
            proof {
                lemma_sum_of_prefix(group_totals@, i as int + 1);
                assert(group_totals@.take(i as int + 1).drop_last() =~= group_totals@.take(i as int));
            }
            total = total + group_totals[i];
            i += 1;
        }
        assert(group_totals@.take(i as int) =~= group_totals@);
        SearchMeta {
            query: None,
            queries: Some(group_totals.len()),
            total,
            returned: 0,
            offset: None,
            limit: None,
            truncated: false,
            has_more: None,
            next_offset: None,
        }
    }
}

/// A prefix of some numbers sums to no more than all of them.
proof fn lemma_sum_of_prefix(s: Seq<usize>, n: int)
    requires
        0 <= n <= s.len(),
    ensures
        sum_of(s.take(n)) <= sum_of(s),
    decreases s.len(),
{
    if n < s.len() {
        assert(s.drop_last().take(n) =~= s.take(n));
        lemma_sum_of_prefix(s.drop_last(), n);
    } else {
        assert(s.take(n) =~= s);
    }
}

impl CountEnvelope {
    /// The counts of several queries, with their number.
    pub fn new(counts: Vec<CountResult>) -> (r: Self)
        ensures
            r.meta.queries == counts.len(),
            r.counts == counts,
    {
        let queries = counts.len();
        CountEnvelope { meta: CountMeta { queries }, counts }
    }
}

/// `query: n`
pub open spec fn count_line(c: CountResult) -> Seq<char> {
    c.query@ + ": "@ + dec(c.total as nat)
}

/// The lines of some counts.
pub open spec fn count_lines(cs: Seq<CountResult>) -> Seq<Seq<char>> {
    cs.map_values(|c: CountResult| count_line(c))
}

/// The counts of several queries, one `query: n` line each, joined by
/// newlines.
pub fn format_counts_raw(counts: &[CountResult]) -> (r: String)
    ensures
        r@ == join(count_lines(counts@), "\n"@),
{
    let ghost parts = count_lines(counts@);
    let mut out: Vec<char> = Vec::new();
    let mut i: usize = 0;
    while i < counts.len()
        invariant
            i <= counts.len(),
            parts == count_lines(counts@),
            parts.len() == counts.len(),
            out@ == join(parts.take(i as int), "\n"@),
        decreases counts.len() - i,
    {
        if i > 0 {
            push_str(&mut out, "\n");
        }
        push_str(&mut out, counts[i].query.as_str());
        push_str(&mut out, ": ");
        push_decimal(&mut out, counts[i].total);
        assert(parts.take(i as int + 1).drop_last() =~= parts.take(i as int));
        assert(parts[i as int] == count_line(counts@[i as int]));
        assert(out@ =~= join(parts.take(i as int + 1), "\n"@));
        i += 1;
    }
    assert(parts.take(counts.len() as int) =~= parts);
    string_of(&out)
}


// ---------------------------------------------------------------------------
// Table of contents
// ---------------------------------------------------------------------------

/// A heading in a table of contents.
pub struct TocEntry {
    pub index: String,
    pub level: u8,
    pub text: String,
    pub line: usize,
}

/// `s` padded with spaces on the right to `w` characters.
pub open spec fn pad_right(s: Seq<char>, w: nat) -> Seq<char> {
    if s.len() >= w {
        s
    } else {
        s + repeat_char(' ', (w - s.len()) as nat)
    }
}

/// Two spaces per level below the first, the index, a space, one `#` per
/// level, a space, the text padded to 30 characters, a space, and
/// `(Lline)`: `1.1.1 ### Heading ... (L8)`.
pub open spec fn toc_text(e: TocEntry) -> Seq<char> {
    repeat_char(' ', (2 * (e.level - 1)) as nat) + e.index@ + seq![' '] + repeat_char('#', e.level as nat)
        + seq![' '] + pad_right(e.text@, 30) + " (L"@ + dec(e.line as nat) + ")"@
}

impl TocEntry {
    /// The entry as one line of text.
    pub fn format_raw(&self) -> (r: String)
        requires
            self.level >= 1,
        ensures
            r@ == toc_text(*self),
    {
        let mut out: Vec<char> = Vec::new();
        let indent: usize = 2 * ((self.level - 1) as usize);
        push_repeat(&mut out, ' ', indent);
        push_str(&mut out, self.index.as_str());
        out.push(' ');
        push_repeat(&mut out, '#', self.level as usize);
        out.push(' ');
        let t = chars_of(self.text.as_str());
        append_chars(&mut out, &t);
        if t.len() < 30 {
            push_repeat(&mut out, ' ', 30 - t.len());
        }
        push_str(&mut out, " (L");
        push_decimal(&mut out, self.line);
        push_str(&mut out, ")");
        proof {
            if t@.len() >= 30 {
                assert(pad_right(t@, 30) == t@);
            }
        }
        assert(out@ =~= toc_text(*self));
        string_of(&out)
    }
}

// ---------------------------------------------------------------------------
// Index status
// ---------------------------------------------------------------------------

/// File counts of the index.
pub struct FilesStatus {
    pub indexed: usize,
    pub stale: Option<usize>,
    pub deleted: Option<usize>,
    pub untracked: Option<usize>,
}

/// Sizes of the index stores, in bytes.
pub struct SizeStatus {
    pub sqlite: usize,
    pub tantivy: usize,
}

/// State of the index.
pub struct IndexStatus {
    pub path: String,
    pub last_sync: String,
    pub files: FilesStatus,
    pub size: SizeStatus,
}

/// A byte count in tenths of a mebibyte, rounded to nearest, ties to even.
pub open spec fn mb_tenths(b: nat) -> nat {
    let n = b * 10;
    let q = n / 1048576;
    let r = n % 1048576;
    if r * 2 > 1048576 || (r * 2 == 1048576 && q % 2 == 1) {
        q + 1
    } else {
        q
    }
}

/// A byte count in mebibytes with one decimal.
pub open spec fn mb_text(b: nat) -> Seq<char> {
    dec(mb_tenths(b) / 10) + "."@ + dec(mb_tenths(b) % 10)
}

/// The spacing of binary floating-point numbers (53-bit significand) at
/// `b`: 1 below 2^53, doubling with each power of two above.
pub open spec fn float_unit(b: nat) -> nat
    decreases b,
{
    if b < 0x20000000000000 {
        1
    } else {
        2 * float_unit(b / 2)
    }
}

/// `b` as the nearest binary floating-point number, ties to even: what a
/// conversion to `f64` keeps of it.
pub open spec fn as_float(b: nat) -> nat {
    let u = float_unit(b);
    let q = b / u;
    let r = b % u;
    if r * 2 > u || (r * 2 == u && q % 2 == 1) {
        (q + 1) * u
    } else {
        q * u
    }
}

/// `db: path (last sync: t)`; `files: n indexed`, then `, n stale`,
/// `, n deleted`, `, n untracked` where given (numbers grouped by threes);
/// `size: sqlite X.YMB, tantivy Z.WMB` (the sizes as `f64` in mebibytes):
/// three lines.
pub open spec fn index_status_text(s: IndexStatus) -> Seq<char> {
    let a = "db: "@ + s.path@ + " (last sync: "@ + s.last_sync@ + ")\nfiles: "@ + grouped(
        s.files.indexed as nat,
    ) + " indexed"@;
    let b = match s.files.stale {
        Some(k) => a + ", "@ + grouped(k as nat) + " stale"@,
        None => a,
    };
    let c = match s.files.deleted {
        Some(k) => b + ", "@ + grouped(k as nat) + " deleted"@,
        None => b,
    };
    let d = match s.files.untracked {
        Some(k) => c + ", "@ + grouped(k as nat) + " untracked"@,
        None => c,
    };
    d + "\nsize: sqlite "@ + mb_text(as_float(s.size.sqlite as nat)) + "MB, tantivy "@ + mb_text(
        as_float(s.size.tantivy as nat),
    ) + "MB"@
}

/// The three decimal digits of a number below 1000, with leading zeros.
pub open spec fn three_digits(m: nat) -> Seq<char> {
    seq![
        crate::text::digit_char((m / 100) % 10),
        crate::text::digit_char((m / 10) % 10),
        crate::text::digit_char(m % 10),
    ]
}

/// A number in decimal with its digits grouped by threes with commas
/// (`1,234`).
pub open spec fn grouped(n: nat) -> Seq<char>
    decreases n,
{
    if n < 1000 {
        dec(n)
    } else {
        grouped(n / 1000) + seq![','] + three_digits(n % 1000)
    }
}

/// Appends a number with its digits grouped by threes (see `grouped`).
fn push_grouped(out: &mut Vec<char>, n: usize)
    ensures
        final(out)@ == old(out)@ + grouped(n as nat),
    decreases n,
{
    if n < 1000 {
        push_decimal(out, n);
    } else {
        push_grouped(out, n / 1000);
        let ghost mid = out@;
        out.push(',');
        let m = n % 1000;
        let d1 = crate::text::digit((m / 100) % 10);
        let d2 = crate::text::digit((m / 10) % 10);
        let d3 = crate::text::digit(m % 10);
        out.push(d1);
        out.push(d2);
        out.push(d3);
        assert(three_digits((n % 1000) as nat) == seq![d1, d2, d3]);
        assert(grouped(n as nat) == grouped((n / 1000) as nat) + seq![','] + three_digits((n % 1000) as nat));
        assert(out@ =~= mid + seq![','] + seq![d1, d2, d3]);
    }
}

/// A byte count as the nearest binary floating-point number (see `as_float`).
fn float_of(b: u64) -> (f: u128)
    ensures
        f == as_float(b as nat),
        f <= 0x20000000000000000,
{
    let mut x: u128 = b as u128;
    let mut u: u128 = 1;
    while x >= 0x20000000000000
        invariant
            1 <= u <= 0x1000,
            x * u <= b < (x + 1) * u,
            float_unit(b as nat) == u * float_unit(x as nat),
        decreases x,
    {
        let ghost x0 = x;
        let ghost u0 = u;
        assert(u <= 0x800) by (nonlinear_arith)
            requires
                x * u <= b,
                b < 0x10000000000000000,
                x >= 0x20000000000000,
                u >= 1,
        ;
        assert(float_unit(x as nat) == 2 * float_unit((x / 2) as nat));
        x = x / 2;
        u = u * 2;
        assert(x * u <= b && b < (x + 1) * u) by (nonlinear_arith)
            requires
                x0 * u0 <= b < (x0 + 1) * u0,
                x == x0 / 2,
                u == u0 * 2,
                u0 >= 1,
        ;
        assert(u0 * (2 * float_unit(x as nat)) == u * float_unit(x as nat)) by (nonlinear_arith)
            requires
                u == u0 * 2,
        ;
    }
    assert(float_unit(x as nat) == 1);
    assert(float_unit(b as nat) == u) by (nonlinear_arith)
        requires
            float_unit(b as nat) == u * float_unit(x as nat),
            float_unit(x as nat) == 1,
    ;
    assert((x + 1) * u == x * u + u) by (nonlinear_arith);
    let r: u128 = (b as u128) - x * u;
    proof {
        vstd::arithmetic::div_mod::lemma_fundamental_div_mod_converse(b as int, u as int, x as int, r as int);
    }
    assert(x * u + u <= 0x20000000000000000) by (nonlinear_arith)
        requires
            x < 0x20000000000000,
            u <= 0x1000,
    ;
    if r * 2 > u || (r * 2 == u && x % 2 == 1) {
        assert((x + 1) * u == x * u + u) by (nonlinear_arith);
        (x + 1) * u
    } else {
        x * u
    }
}

/// Appends a byte count in mebibytes with one decimal, as `{:.1}` writes
/// the count taken as `f64` and divided by 1,048,576.
fn push_mb(out: &mut Vec<char>, b: usize)
    ensures
        final(out)@ == old(out)@ + mb_text(as_float(b as nat)),
{
    let f: u128 = float_of(b as u64);
    let n: u128 = f * 10;
    let q: u128 = n / 1048576;
    let r: u128 = n % 1048576;
    let t: u128 = if r * 2 > 1048576 || (r * 2 == 1048576 && q % 2 == 1) {
        q + 1
    } else {
        q
    };
    assert(t == mb_tenths(f as nat));
    push_decimal_u64(out, (t / 10) as u64);
    push_str(out, ".");
    push_decimal_u64(out, (t % 10) as u64);
}

impl IndexStatus {
    /// The state as lines of text.
    pub fn format_raw(&self) -> (r: String)
        ensures
            r@ == index_status_text(*self),
    {
        let mut out: Vec<char> = Vec::new();
        push_str(&mut out, "db: ");
        push_str(&mut out, self.path.as_str());
        push_str(&mut out, " (last sync: ");
        push_str(&mut out, self.last_sync.as_str());
        push_str(&mut out, ")\nfiles: ");
        push_grouped(&mut out, self.files.indexed);
        push_str(&mut out, " indexed");
        if let Some(k) = self.files.stale {
            push_str(&mut out, ", ");
            push_grouped(&mut out, k);
            push_str(&mut out, " stale");
        }
        if let Some(k) = self.files.deleted {
            push_str(&mut out, ", ");
            push_grouped(&mut out, k);
            push_str(&mut out, " deleted");
        }
        if let Some(k) = self.files.untracked {
            push_str(&mut out, ", ");
            push_grouped(&mut out, k);
            push_str(&mut out, " untracked");
        }
        push_str(&mut out, "\nsize: sqlite ");
        push_mb(&mut out, self.size.sqlite);
        push_str(&mut out, "MB, tantivy ");
        push_mb(&mut out, self.size.tantivy);
        push_str(&mut out, "MB");
        string_of(&out)
    }
}


// ---------------------------------------------------------------------------
// Facets
// ---------------------------------------------------------------------------

/// How often each value of a frontmatter field occurs.
pub struct FacetsResult {
    pub field: String,
    pub total_files: usize,
    /// Values with their counts, each value once.
    pub facets: Vec<(String, usize)>,
}

/// The position of the first facet at or after `i` with the given value.
pub open spec fn facet_position(fs: Seq<(String, usize)>, value: Seq<char>, i: int) -> Option<int>
    decreases fs.len() - i,
{
    if i < 0 || i >= fs.len() {
        None
    } else if fs[i].0@ == value {
        Some(i)
    } else {
        facet_position(fs, value, i + 1)
    }
}

proof fn lemma_facet_position_none(fs: Seq<(String, usize)>, value: Seq<char>, i: int, k: int)
    requires
        0 <= i <= k < fs.len(),
        facet_position(fs, value, i) is None,
    ensures
        fs[k].0@ != value,
    decreases k - i,
{
    if i < k {
        lemma_facet_position_none(fs, value, i + 1, k);
    }
}

/// Whether no value occurs twice among the facets.
pub open spec fn facets_distinct(fs: Seq<(String, usize)>) -> bool {
    forall|i: int, j: int| 0 <= i < j < fs.len() ==> fs[i].0@ != fs[j].0@
}

/// Each facet as `value(count)`.
pub open spec fn facet_strings(fs: Seq<(String, usize)>) -> Seq<Seq<char>> {
    fs.map_values(|e: (String, usize)| e.0@ + "("@ + dec(e.1 as nat) + ")"@)
}

/// `field: v1(c1) v2(c2) ...  [N files]`, the facets in lexicographic order.
pub open spec fn facets_text(f: FacetsResult) -> Seq<char> {
    f.field@ + ": "@ + join(facet_strings(f.facets@).sort_by(crate::text::lex_order()), " "@) + "  ["@ + dec(
        f.total_files as nat,
    ) + " files]"@
}

impl FacetsResult {
    /// No facets yet.
    pub fn new(field: String, total_files: usize) -> (r: Self)
        ensures
            r.field == field,
            r.total_files == total_files,
            r.facets@.len() == 0,
    {
        FacetsResult { field, total_files, facets: Vec::new() }
    }

    /// Sets the count of a value, replacing the count it had.
    pub fn add(&mut self, value: String, count: usize)
        ensures
            final(self).field == old(self).field,
            final(self).total_files == old(self).total_files,
            match facet_position(old(self).facets@, value@, 0) {
                Some(j) => final(self).facets@ == old(self).facets@.update(j, (value, count)),
                None => final(self).facets@ == old(self).facets@.push((value, count)),
            },
            facets_distinct(old(self).facets@) ==> facets_distinct(final(self).facets@),
    {
        let v = chars_of(value.as_str());
        let ghost fs = self.facets@;
        let mut j: usize = 0;
        while j < self.facets.len()
            invariant
                j <= self.facets.len(),
                fs == self.facets@,
                *self == *old(self),
                v@ == value@,
                facet_position(fs, value@, 0) == facet_position(fs, value@, j as int),
            decreases self.facets.len() - j,
        {
            if crate::text::eq_str_chars(self.facets[j].0.as_str(), &v) {
                self.facets.set(j, (value, count));
                proof {
                    if facets_distinct(fs) {
                        assert forall|a: int, b: int| 0 <= a < b < self.facets@.len() implies self.facets@[a].0@
                            != self.facets@[b].0@ by {
                            if a != j && b != j {
                                assert(fs[a].0@ != fs[b].0@);
                            } else if a == j {
                                assert(fs[a].0@ != fs[b].0@);
                            } else {
                                assert(fs[a].0@ != fs[b].0@);
                            }
                        }
                    }
                }
                return;
            }
            j += 1;
        }
        proof {
            assert forall|k: int| 0 <= k < fs.len() implies fs[k].0@ != value@ by {
                lemma_facet_position_none(fs, value@, 0, k);
            }
        }
        self.facets.push((value, count));
    }

    /// The facets as one line of text.
    pub fn format_raw(&self) -> (r: String)
        ensures
            r@ == facets_text(*self),
    {
        let ghost fs = self.facets@;
        let mut strs: Vec<Vec<char>> = Vec::new();
        let mut i: usize = 0;
        while i < self.facets.len()
            invariant
                i <= self.facets.len(),
                fs == self.facets@,
                vv(strs@) =~= facet_strings(fs).take(i as int),
            decreases self.facets.len() - i,
        {
            let mut e: Vec<char> = Vec::new();
            push_str(&mut e, self.facets[i].0.as_str());
            push_str(&mut e, "(");
            push_decimal(&mut e, self.facets[i].1);
            push_str(&mut e, ")");
            let ghost before = vv(strs@);
            strs.push(e);
            assert(vv(strs@) =~= before.push(facet_strings(fs)[i as int]));
            i += 1;
        }
        assert(facet_strings(fs).take(fs.len() as int) =~= facet_strings(fs));
        let sorted = crate::text::sort_chars(strs);
        let mut sep: Vec<char> = Vec::new();
        push_str(&mut sep, " ");
        assert(sep@ =~= " "@);
        let joined = join_chars(&sorted, 0, sorted.len(), &sep);
        assert(vv(sorted@).subrange(0, sorted.len() as int) =~= vv(sorted@));
        let mut out: Vec<char> = Vec::new();
        push_str(&mut out, self.field.as_str());
        push_str(&mut out, ": ");
        append_chars(&mut out, &joined);
        push_str(&mut out, "  [");
        push_decimal(&mut out, self.total_files);
        push_str(&mut out, " files]");
        string_of(&out)
    }
}


// ---------------------------------------------------------------------------
// Frontmatter listings
// ---------------------------------------------------------------------------

/// A file's frontmatter fields, as listed.
pub struct FrontmatterEntry {
    pub file: String,
    /// Each field's key and value.
    pub fields: Vec<(String, JsonValue)>,
}

/// An array item as listed: a string in plain quotes, anything else as JSON.
pub open spec fn listed_item(v: JsonValue) -> Seq<char> {
    match v {
        JsonValue::Str(s) => "\""@ + s@ + "\""@,
        _ => json_text(v),
    }
}

/// The listed items of an array.
pub open spec fn listed_items(a: Seq<JsonValue>) -> Seq<Seq<char>> {
    a.map_values(|v: JsonValue| listed_item(v))
}

/// The listed members of an object: the key, `: ` and the value as JSON.
pub open spec fn listed_members(o: Seq<(String, JsonValue)>) -> Seq<Seq<char>> {
    o.map_values(|m: (String, JsonValue)| m.0@ + ": "@ + json_text(m.1))
}

/// A field value as listed: a string as it is, an array's items and an
/// object's members in brackets and braces, anything else as JSON.
pub open spec fn listed_value(v: JsonValue) -> Seq<char> {
    match v {
        JsonValue::Str(s) => s@,
        JsonValue::Array(a) => "["@ + join(listed_items(a@), ", "@) + "]"@,
        JsonValue::Object(o) => "{"@ + join(listed_members(o@), ", "@) + "}"@,
        _ => json_text(v),
    }
}

/// The listed `key=value` parts of the fields.
pub open spec fn listed_fields(fs: Seq<(String, JsonValue)>) -> Seq<Seq<char>> {
    fs.map_values(|f: (String, JsonValue)| f.0@ + "="@ + listed_value(f.1))
}

/// The plain-text line of an entry: the file, then each field as
/// `key=value`, separated by spaces.
pub open spec fn frontmatter_entry_text(e: FrontmatterEntry) -> Seq<char> {
    join(seq![e.file@] + listed_fields(e.fields@), " "@)
}

/// Appends an array item as listed.
fn push_listed_item(out: &mut Vec<char>, v: &JsonValue)
    ensures
        final(out)@ == old(out)@ + listed_item(*v),
{
    match v {
        JsonValue::Str(s) => {
            push_str(out, "\"");
            push_str(out, s.as_str());
            push_str(out, "\"");
        },
        _ => push_json_text(out, v),
    }
}

/// The listed form of a field value.
#[verifier::rlimit(30)]
fn listed_value_text(v: &JsonValue) -> (r: Vec<char>)
    ensures
        r@ == listed_value(*v),
{
    let mut out: Vec<char> = Vec::new();
    match v {
        JsonValue::Str(s) => push_str(&mut out, s.as_str()),
        JsonValue::Array(a) => {
            push_str(&mut out, "[");
            let ghost base = out@;
            let ghost items = listed_items(a@);
            let mut i: usize = 0;
            assert(items.take(0) =~= Seq::<Seq<char>>::empty());
            while i < a.len()
                invariant
                    i <= a.len(),
                    items == listed_items(a@),
                    items.len() == a.len(),
                    out@ == base + join(items.take(i as int), ", "@),
                decreases a.len() - i,
            {
                if i > 0 {
                    push_str(&mut out, ", ");
                }
                push_listed_item(&mut out, &a[i]);
                assert(items.take(i + 1).drop_last() =~= items.take(i as int));
                assert(items.take(i + 1).last() == listed_item(a@[i as int]));
                if i == 0 {
                    assert(items.take(1) =~= seq![items[0]]);
                }
                i += 1;
            }
            assert(items.take(a.len() as int) =~= items);
            push_str(&mut out, "]");
        },
        JsonValue::Object(o) => {
            push_str(&mut out, "{");
            let ghost base = out@;
            let ghost ms = listed_members(o@);
            let mut i: usize = 0;
            assert(ms.take(0) =~= Seq::<Seq<char>>::empty());
            while i < o.len()
                invariant
                    i <= o.len(),
                    ms == listed_members(o@),
                    ms.len() == o.len(),
                    out@ == base + join(ms.take(i as int), ", "@),
                decreases o.len() - i,
            {
                let ghost before = out@;
                if i > 0 {
                    push_str(&mut out, ", ");
                }
                push_str(&mut out, o[i].0.as_str());
                push_str(&mut out, ": ");
                push_json_text(&mut out, &o[i].1);
                assert(ms.take(i + 1).drop_last() =~= ms.take(i as int));
                assert(ms.take(i + 1).last() == o@[i as int].0@ + ": "@ + json_text(o@[i as int].1));
                if i == 0 {
                    assert(ms.take(1) =~= seq![ms[0]]);
                }
                assert(out@ =~= base + join(ms.take(i + 1), ", "@));
                i += 1;
            }
            assert(ms.take(o.len() as int) =~= ms);
            push_str(&mut out, "}");
        },
        _ => push_json_text(&mut out, v),
    }
    assert(out@ =~= listed_value(*v));
    out
}

impl FrontmatterEntry {
    /// The plain-text line of the entry (see `frontmatter_entry_text`).
    pub fn format_raw(&self) -> (r: String)
        ensures
            r@ == frontmatter_entry_text(*self),
    {
        let ghost parts = seq![self.file@] + listed_fields(self.fields@);
        let mut out: Vec<char> = Vec::new();
        push_str(&mut out, self.file.as_str());
        assert(parts.take(1) =~= seq![self.file@]);
        let mut i: usize = 0;
        while i < self.fields.len()
            invariant
                i <= self.fields.len(),
                parts == seq![self.file@] + listed_fields(self.fields@),
                parts.len() == self.fields.len() + 1,
                out@ == join(parts.take(i + 1), " "@),
            decreases self.fields.len() - i,
        {
            push_str(&mut out, " ");
            push_str(&mut out, self.fields[i].0.as_str());
            push_str(&mut out, "=");
            let v = listed_value_text(&self.fields[i].1);
            append_chars(&mut out, &v);
            assert(parts.take(i + 2).drop_last() =~= parts.take(i + 1));
            assert(parts[i + 1] == self.fields@[i as int].0@ + "="@ + listed_value(self.fields@[i as int].1));
            assert(out@ =~= join(parts.take(i + 2), " "@));
            i += 1;
        }
        assert(parts.take(self.fields.len() + 1) =~= parts);
        string_of(&out)
    }
}

/// A file in an overview: its figures and frontmatter.
pub struct OverviewEntry {
    pub file: String,
    pub lines: usize,
    pub bytes: usize,
    pub sections: usize,
    pub has_frontmatter: bool,
    /// Each field's key and value.
    pub frontmatter: Vec<(String, JsonValue)>,
}

/// A frontmatter value in an overview: a string as it is, an array's items
/// in brackets, anything else as JSON.
pub open spec fn overview_value(v: JsonValue) -> Seq<char> {
    match v {
        JsonValue::Str(s) => s@,
        JsonValue::Array(a) => "["@ + join(listed_items(a@), ", "@) + "]"@,
        _ => json_text(v),
    }
}

/// The `key: value` parts of an overview's frontmatter.
pub open spec fn overview_fields(fs: Seq<(String, JsonValue)>) -> Seq<Seq<char>> {
    fs.map_values(|f: (String, JsonValue)| f.0@ + ": "@ + overview_value(f.1))
}

/// The plain text of an overview entry: the file; its frontmatter fields,
/// indented and separated by ` | ` (when it has any); and its figures.
pub open spec fn overview_text(e: OverviewEntry) -> Seq<char> {
    e.file@ + (if e.frontmatter@.len() > 0 {
        "\n  "@ + join(overview_fields(e.frontmatter@), " | "@)
    } else {
        Seq::empty()
    }) + "\n  sections: "@ + dec(e.sections as nat) + " | lines: "@ + dec(e.lines as nat) + " | bytes: "@ + dec(
        e.bytes as nat,
    )
}

impl OverviewEntry {
    /// The plain text of the entry (see `overview_text`).
    pub fn format_raw(&self) -> (r: String)
        ensures
            r@ == overview_text(*self),
    {
        let mut out: Vec<char> = Vec::new();
        push_str(&mut out, self.file.as_str());
        if self.frontmatter.len() > 0 {
            push_str(&mut out, "\n  ");
            let ghost base = out@;
            let ghost parts = overview_fields(self.frontmatter@);
            let mut i: usize = 0;
            assert(parts.take(0) =~= Seq::<Seq<char>>::empty());
            while i < self.frontmatter.len()
                invariant
                    i <= self.frontmatter.len(),
                    parts == overview_fields(self.frontmatter@),
                    parts.len() == self.frontmatter.len(),
                    out@ == base + join(parts.take(i as int), " | "@),
                decreases self.frontmatter.len() - i,
            {
                if i > 0 {
                    push_str(&mut out, " | ");
                }
                push_str(&mut out, self.frontmatter[i].0.as_str());
                push_str(&mut out, ": ");
                let v = match &self.frontmatter[i].1 {
                    JsonValue::Object(_) => {
                        let mut t: Vec<char> = Vec::new();
                        push_json_text(&mut t, &self.frontmatter[i].1);
                        t
                    },
                    other => listed_value_text(other),
                };
                assert(v@ == overview_value(self.frontmatter@[i as int].1));
                append_chars(&mut out, &v);
                assert(parts.take(i + 1).drop_last() =~= parts.take(i as int));
                if i == 0 {
                    assert(parts.take(1) =~= seq![parts[0]]);
                }
                assert(out@ =~= base + join(parts.take(i + 1), " | "@));
                i += 1;
            }
            assert(parts.take(self.frontmatter.len() as int) =~= parts);
        }
        push_str(&mut out, "\n  sections: ");
        push_decimal(&mut out, self.sections);
        push_str(&mut out, " | lines: ");
        push_decimal(&mut out, self.lines);
        push_str(&mut out, " | bytes: ");
        push_decimal(&mut out, self.bytes);
        assert(out@ =~= overview_text(*self));
        string_of(&out)
    }
}

// ---------------------------------------------------------------------------
// Directory trees
// ---------------------------------------------------------------------------

/// A file or directory of a tree.
pub struct TreeNode {
    pub path: String,
    /// "file" or "dir".
    pub node_type: Option<String>,
    pub children: Option<Vec<TreeNode>>,
    pub size: Option<usize>,
}

/// The start of a tree line: nothing at the root, else two spaces per level
/// below the first and a branch (`└── ` for a last child, `├── ` otherwise).
pub open spec fn tree_prefix(indent: nat, last: bool) -> Seq<char> {
    if indent == 0 {
        Seq::empty()
    } else {
        repeat_char(' ', (2 * (indent - 1)) as nat) + if last {
            "└── "@
        } else {
            "├── "@
        }
    }
}

/// The line of a node: prefix, path, and ` (N bytes)` if its size is known.
pub open spec fn tree_line(n: TreeNode, indent: nat, last: bool) -> Seq<char> {
    tree_prefix(indent, last) + n.path@ + match n.size {
        Some(k) => " ("@ + dec(k as nat) + " bytes)"@,
        None => Seq::empty(),
    }
}

/// A node's line and, below it, its children one level deeper.
pub open spec fn tree_text(n: TreeNode, indent: nat, last: bool) -> Seq<char>
    decreases n, 0int,
{
    match n.children {
        Some(cs) => tree_line(n, indent, last) + children_text(cs@, indent + 1, 0),
        None => tree_line(n, indent, last),
    }
}

/// Children `i..` of a node, each on a new line; the last one is marked so.
pub open spec fn children_text(cs: Seq<TreeNode>, indent: nat, i: int) -> Seq<char>
    decreases cs, cs.len() - i,
{
    if i < 0 || i >= cs.len() {
        Seq::empty()
    } else {
        "\n"@ + tree_text(cs[i], indent, i == cs.len() - 1) + children_text(cs, indent, i + 1)
    }
}

/// Levels of a tree below a node that has children.
pub open spec fn tree_depth(n: TreeNode) -> nat
    decreases n, 0int,
{
    match n.children {
        Some(cs) => if cs@.len() > 0 {
            1 + children_depth(cs@, 0)
        } else {
            0
        },
        None => 0,
    }
}

/// The largest depth among children `i..`.
pub open spec fn children_depth(cs: Seq<TreeNode>, i: int) -> nat
    decreases cs, cs.len() - i,
{
    if i < 0 || i >= cs.len() {
        0
    } else {
        let a = tree_depth(cs[i]);
        let b = children_depth(cs, i + 1);
        if a >= b {
            a
        } else {
            b
        }
    }
}

proof fn lemma_children_depth(cs: Seq<TreeNode>, i: int, j: int)
    requires
        0 <= i <= j < cs.len(),
    ensures
        tree_depth(cs[j]) <= children_depth(cs, i),
    decreases j - i,
{
    if i < j {
        lemma_children_depth(cs, i + 1, j);
    }
}

impl TreeNode {
    /// The node and everything below it as lines of text.
    pub fn format_raw(&self, indent: usize, is_last: bool) -> (r: String)
        requires
            indent + tree_depth(*self) <= usize::MAX,
        ensures
            r@ == tree_text(*self, indent as nat, is_last),
        decreases self,
    {
        let mut out: Vec<char> = Vec::new();
        if indent > 0 {
            push_repeat(&mut out, ' ', indent - 1);
            push_repeat(&mut out, ' ', indent - 1);
            assert(repeat_char(' ', (indent - 1) as nat) + repeat_char(' ', (indent - 1) as nat) =~= repeat_char(
                ' ',
                (2 * (indent - 1)) as nat,
            ));
            if is_last {
                push_str(&mut out, "└── ");
            } else {
                push_str(&mut out, "├── ");
            }
        }
        push_str(&mut out, self.path.as_str());
        if let Some(k) = self.size {
            push_str(&mut out, " (");
            push_decimal(&mut out, k);
            push_str(&mut out, " bytes)");
        }
        assert(out@ =~= tree_line(*self, indent as nat, is_last));
        let ghost line = out@;
        match &self.children {
            Some(children) => {
                let ghost cs = children@;
                let mut i: usize = 0;
                while i < children.len()
                    invariant
                        i <= children.len(),
                        cs == children@,
                        self.children == Some(*children),
                        indent + tree_depth(*self) <= usize::MAX,
                        out@ + children_text(cs, indent as nat + 1, i as int) == line + children_text(
                            cs,
                            indent as nat + 1,
                            0,
                        ),
                    decreases children.len() - i,
                {
                    proof {
                        lemma_children_depth(cs, 0, i as int);
                    }
                    let child = &children[i];
                    assert(decreases_to!(*self => *child)) by {
                        assert(decreases_to!(*self => self.children));
                        assert(decreases_to!(self.children => *children));
                        assert(decreases_to!(*children => children@));
                        assert(decreases_to!(children@ => children@[i as int]));
                    }
                    let is_child_last = i == children.len() - 1;
                    let t = child.format_raw(indent + 1, is_child_last);
                    let ghost before = out@;
                    push_str(&mut out, "\n");
                    push_str(&mut out, t.as_str());
                    assert(out@ + children_text(cs, indent as nat + 1, i + 1) =~= before + children_text(
                        cs,
                        indent as nat + 1,
                        i as int,
                    ));
                    i += 1;
                }
                assert(out@ + children_text(cs, indent as nat + 1, i as int) =~= out@);
            },
            None => {},
        }
        string_of(&out)
    }
}

} // verus!
