//! The command line as plain values: global options, one command, and the
//! options of each command.

use vstd::prelude::*;

verus! {

/// Global options and the command to run.
pub struct Cli {
    /// JSON envelope output instead of plain text.
    pub json: bool,
    /// Pretty-printed JSON.
    pub pretty: bool,
    /// Largest output in bytes.
    pub max_bytes: Option<usize>,
    /// Most results to show.
    pub limit: usize,
    /// Results to skip.
    pub offset: usize,
    /// Result count above which only a plan is shown.
    pub threshold: usize,
    /// Show results whatever their number.
    pub no_overflow: bool,
    /// Show only the plan.
    pub plan: bool,
    /// Show only counts.
    pub count_only: bool,
    /// Only test existence (by exit status).
    pub exists: bool,
    /// Show only figures.
    pub stats: bool,
    /// Field whose value distribution to show.
    pub facets: Option<String>,
    /// When to synchronise the index.
    pub sync: SyncMode,
    /// Project root, if given.
    pub root: Option<String>,
    /// The command.
    pub command: Commands,
}

/// When to synchronise the index.
pub enum SyncMode {
    Auto,
    Force,
}

/// The commands.
pub enum Commands {
    Toc(TocArgs),
    Read(ReadArgs),
    Tree(TreeArgs),
    Search(SearchArgs),
    Frontmatter(FrontmatterArgs),
    Overview(OverviewArgs),
    Links(LinksArgs),
    Backlinks(BacklinksArgs),
    Graph(GraphArgs),
    Chars(CharsArgs),
    Index(IndexArgs),
    SectionSet(SectionSetArgs),
    SectionAdd(SectionAddArgs),
    SectionDelete(SectionDeleteArgs),
    FrontmatterSet(FrontmatterSetArgs),
}

/// Options of `toc`.
pub struct TocArgs {
    pub file: String,
    pub depth: Option<u8>,
    pub flat: bool,
}

/// Options of `read`.
pub struct ReadArgs {
    pub file: String,
    pub section: Option<String>,
    pub summary: Option<usize>,
    pub meta: bool,
}

/// Options of `tree`.
pub struct TreeArgs {
    pub path: String,
    pub depth: Option<usize>,
    pub files_only: bool,
    pub count: bool,
}

/// Options of `search`.
pub struct SearchArgs {
    pub input: String,
    pub query: Vec<String>,
    pub match_mode: MatchMode,
    pub scope: SearchScope,
    pub context: usize,
    pub bare: bool,
}

/// How search queries match.
pub enum MatchMode {
    Text,
    Exact,
    Fuzzy,
    Regex,
}

/// Where search looks.
pub enum SearchScope {
    All,
    Body,
    Headers,
    Frontmatter,
    Code,
}

/// Options of `frontmatter`.
pub struct FrontmatterArgs {
    pub input: String,
    pub field: Option<String>,
    pub filter: Option<String>,
    pub list: bool,
}

/// Options of `overview`.
pub struct OverviewArgs {
    pub input: String,
    pub field: Vec<String>,
    pub filter: Option<String>,
    pub sort: Option<String>,
    pub reverse: bool,
}

/// Options of `links`.
pub struct LinksArgs {
    pub file: String,
    pub link_type: Option<LinkType>,
    pub resolved: bool,
    pub broken: bool,
}

/// Which links to list.
pub enum LinkType {
    Wiki,
    Markdown,
    All,
}

/// Options of `backlinks`.
pub struct BacklinksArgs {
    pub file: String,
}

/// Options of `graph`.
pub struct GraphArgs {
    pub input: String,
    pub format: GraphFormat,
    pub start: Option<String>,
    pub depth: Option<usize>,
}

/// How the graph is shown.
pub enum GraphFormat {
    /// Each node with its neighbours.
    Adjacency,
    /// One edge per line.
    Edges,
    /// Counts and top nodes.
    Stats,
    /// Files nothing links to.
    Orphans,
}

/// Options of `chars`.
pub struct CharsArgs {
    pub input: String,
}

/// Options of `index`.
pub struct IndexArgs {
    pub path: String,
    pub force: bool,
    pub status: bool,
    pub dry_run: bool,
    pub check: bool,
}

/// Options of `section-set`.
pub struct SectionSetArgs {
    pub file: String,
    pub section: String,
    pub content: Option<String>,
    pub content_file: Option<String>,
    pub output: Option<String>,
    pub dry_run: bool,
}

/// Options of `section-add`.
pub struct SectionAddArgs {
    pub file: String,
    pub title: String,
    pub content: Option<String>,
    pub content_file: Option<String>,
    pub after: Option<String>,
    pub before: Option<String>,
    pub level: Option<u8>,
    pub output: Option<String>,
    pub dry_run: bool,
}

/// Options of `section-delete`.
pub struct SectionDeleteArgs {
    pub file: String,
    pub section: String,
    pub output: Option<String>,
    pub dry_run: bool,
}

/// Options of `frontmatter-set`.
pub struct FrontmatterSetArgs {
    pub file: String,
    pub key: String,
    pub value: String,
    pub output: Option<String>,
    pub dry_run: bool,
}

} // verus!
