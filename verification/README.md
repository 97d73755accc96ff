# markdownai

A Markdown toolkit for agents: tables of contents with section numbers,
section addressing and editing, link graphs, frontmatter queries and
filters, search snippets and paged, byte-budgeted output.

The library under `src/` is written in Verus and proved against its
contracts:

- `text` — character-level helpers (splitting, joining, trimming, decimal
  rendering) with their lemmas.
- `markdown` — heading extraction and the section tree with its numbering.
- `section` — section addresses (`#1.2`, `## A > ### B`, `L3-L9`), reading,
  replacing, inserting and deleting sections.
- `manipulate` — the editing commands built on `section`, renumbering and
  line diffs.
- `links` — link parsing and resolution, the link graph and its statistics,
  the frontmatter relation graph.
- `frontmatter` — the frontmatter block, its YAML/JSON values and field edits.
- `filter` — frontmatter filter expressions.
- `index` — content hashing and the records kept per file.
- `engine` — search scopes and snippets.
- `output` — plain-text renderings, paging and output budgets.
- `commands` — what each command computes from file contents.

`app/` is the command-line program around the library: argument parsing,
the file system, the SQLite database and the full-text index.
