use markdownai::output::truncate_to_budget;
use markdownai::output::{format_counts_raw, CountEnvelope, CountResult, PlanMeta, SearchMeta};
use markdownai::output::{
    format_raw_footer, DirStats, Envelope, FacetsResult, FileStats, FilesStatus, GraphStats,
    IndexStatus, LinkInfo, LinkStats, Meta, ReadResult, SectionSummary, SizeStatus,
    SummaryEnvelope, TocEntry, TreeNode,
};

#[test]
fn footer_with_and_without_more() {
    assert_eq!(format_raw_footer(3, 10, 0), "--- 3/10 shown, next: --offset 3 ---");
    assert_eq!(format_raw_footer(3, 10, 7), "--- 3/10 shown ---");
    assert_eq!(format_raw_footer(0, 0, 0), "--- 0/0 shown ---");
}

#[test]
fn meta_paging_figures() {
    let m = Meta::paging(10, 3, 0, 3);
    assert_eq!(m.has_more, Some(true));
    assert_eq!(m.next_offset, Some(3));
    assert!(m.truncated);
    let m = Meta::paging(3, 3, 0, 20);
    assert_eq!(m.has_more, Some(false));
    assert_eq!(m.next_offset, None);
    assert!(!m.truncated);
    let f = Meta::for_file("a.md".to_string(), 4, 4);
    assert_eq!(f.limit, 4);
    assert_eq!(f.file, Some("a.md".to_string()));
    let t = Meta::with_truncation(None, 10, 50, 3);
    assert!(t.truncated);
    assert_eq!((t.total, t.returned, t.limit), (50, 10, 50));
    let e: Envelope<u32> = Envelope::with_results(Meta::paging(1, 1, 0, 1), vec![7]);
    assert_eq!(e.results, Some(vec![7]));
    let e: Envelope<u32> = Envelope::without_results(Meta::paging(1, 0, 0, 1));
    assert!(e.results.is_none());
}

#[test]
fn file_and_dir_stats_text() {
    let s = FileStats {
        file: "a.md".to_string(),
        bytes: 10,
        lines: 2,
        sections: 1,
        code_blocks: 0,
        has_frontmatter: false,
        links: Some(LinkStats { wiki: Some(1), markdown: Some(2), total: None }),
    };
    assert_eq!(
        s.format_raw(),
        "a.md: 10 bytes, 2 lines, 1 sections, 0 code blocks, frontmatter: no, links: 3"
    );
    let s2 = FileStats { links: None, has_frontmatter: true, ..s };
    assert_eq!(s2.format_raw(), "a.md: 10 bytes, 2 lines, 1 sections, 0 code blocks, frontmatter: yes");
    let d = DirStats {
        path: "docs".to_string(),
        files: 2,
        total_bytes: 30,
        total_lines: 4,
        total_sections: 3,
    };
    assert_eq!(d.format_raw(), "docs: 2 files, 30 bytes, 4 lines, 3 sections");
}

#[test]
fn graph_stats_and_link_info_text() {
    let g = GraphStats {
        nodes: 3,
        edges: 2,
        orphans: Some(1),
        most_linked: Some("a.md".to_string()),
        most_linking: None,
    };
    assert_eq!(g.format_raw(), "nodes: 3, edges: 2, orphans: 1\nmost linked: a.md");
    let full = GraphStats {
        nodes: 5,
        edges: 7,
        orphans: Some(1),
        most_linked: Some("docs/auth.md (3 in)".to_string()),
        most_linking: Some("index.md (4 out)".to_string()),
    };
    assert_eq!(
        full.format_raw(),
        "nodes: 5, edges: 7, orphans: 1\nmost linked: docs/auth.md (3 in)\nmost linking: index.md (4 out)"
    );
    let l = LinkInfo {
        source_file: "a.md".to_string(),
        source_line: 5,
        target_raw: "b#x".to_string(),
        target_path: None,
        target_anchor: None,
        link_type: "wiki".to_string(),
        resolved_file: None,
        is_broken: true,
    };
    assert_eq!(l.format_raw(), "a.md > b#x wiki L5");
}

#[test]
fn read_result_footer() {
    let r = ReadResult::new("a.md".to_string(), "text".to_string());
    assert_eq!(r.format_truncation_footer(), None);
    let r = r.with_section("#1".to_string(), 1, 9).with_truncation(100, 400, 12);
    assert_eq!(r.meta.section, Some("#1".to_string()));
    assert_eq!(
        r.format_truncation_footer(),
        Some("--- truncated at L11, 100/400 bytes, next: --section \"L12-\" ---".to_string())
    );
}

#[test]
fn summaries_text() {
    let s = SectionSummary {
        index: "#1.1".to_string(),
        title: "Setup".to_string(),
        line: 5,
        preview: "Rust needed.".to_string(),
    };
    assert_eq!(s.format_raw(), "Setup (L5, #1.1)\n  Rust needed.");
    let env = SummaryEnvelope::new("a.md".to_string(), 12, 3, 0, vec![]);
    assert_eq!(env.meta.next_offset, Some(3));
    assert_eq!(env.format_footer(), "--- 3/12 sections shown, next: --offset 3 ---");
    let env = SummaryEnvelope::new("a.md".to_string(), 3, 3, 0, vec![]);
    assert_eq!(env.format_footer(), "--- 3/3 sections shown ---");
}

#[test]
fn toc_entry_matches_format() {
    for (level, index, text, line) in [(2u8, "#1.1", "Intro", 5usize), (1, "#1", &"x".repeat(40), 1)] {
        let e = TocEntry { index: index.to_string(), level, text: text.to_string(), line };
        let indent = "  ".repeat(level as usize - 1);
        let hashes = "#".repeat(level as usize);
        let expected = format!("{}{} {} {:<30} {}", indent, index, hashes, text, format!("(L{})", line));
        assert_eq!(e.format_raw(), expected);
    }
    let e = TocEntry { index: "1.1.1".to_string(), level: 3, text: "Heading".to_string(), line: 8 };
    let out = e.format_raw();
    assert!(out.contains("1.1.1 ### Heading"));
    assert!(out.ends_with("(L8)"));
}

#[test]
fn index_status_sizes_round_like_floats() {
    for b in [0usize, 1, 52428, 104857, 262144, 786432, 1048576, 5 * 1048576 + 52429, 123456789] {
        let s = IndexStatus {
            path: "/p".to_string(),
            last_sync: "t".to_string(),
            files: FilesStatus { indexed: 2, stale: Some(1), deleted: None, untracked: None },
            size: SizeStatus { sqlite: b, tantivy: 3 * b },
        };
        let expected = format!(
            "db: /p (last sync: t)\nfiles: 2 indexed, 1 stale\nsize: sqlite {:.1}MB, tantivy {:.1}MB",
            b as f64 / 1_048_576.0,
            (3 * b) as f64 / 1_048_576.0
        );
        assert_eq!(s.format_raw(), expected);
    }
}

#[test]
fn facets_sorted_and_replaced() {
    let mut f = FacetsResult::new("tags".to_string(), 3);
    f.add("rust".to_string(), 2);
    f.add("cli".to_string(), 1);
    f.add("rust".to_string(), 5);
    f.add("a b".to_string(), 1);
    assert_eq!(f.facets.len(), 3);
    assert_eq!(f.format_raw(), "tags: a b(1) cli(1) rust(5)  [3 files]");
}

#[test]
fn tree_text() {
    let tree = TreeNode {
        path: "docs".to_string(),
        node_type: Some("dir".to_string()),
        children: Some(vec![
            TreeNode { path: "a.md".to_string(), node_type: None, children: None, size: Some(10) },
            TreeNode {
                path: "sub".to_string(),
                node_type: None,
                children: Some(vec![TreeNode {
                    path: "b.md".to_string(),
                    node_type: None,
                    children: None,
                    size: None,
                }]),
                size: None,
            },
        ]),
        size: None,
    };
    assert_eq!(tree.format_raw(0, false), "docs\n├── a.md (10 bytes)\n└── sub\n  └── b.md");
}

#[test]
fn items_kept_within_byte_budget() {
    assert_eq!(truncate_to_budget(&[30, 30, 30], None), (3, false));
    assert_eq!(truncate_to_budget(&[30, 30], Some(250)), (1, true));
    assert_eq!(truncate_to_budget(&[20, 20], Some(250)), (2, false));
    assert_eq!(truncate_to_budget(&[10], Some(100)), (1, false));
    assert_eq!(truncate_to_budget(&[10, 10], Some(100)), (1, true));
    assert_eq!(truncate_to_budget(&[], Some(0)), (0, false));
}

#[test]
fn search_figures_for_one_and_several_queries() {
    let one = SearchMeta::single_query("rust".to_string(), 30, 10, 5, 10, true);
    assert_eq!(one.query.as_deref(), Some("rust"));
    assert_eq!(one.queries, None);
    assert_eq!((one.total, one.returned, one.offset, one.limit), (30, 10, Some(5), Some(10)));
    assert!(one.truncated);
    assert_eq!(one.has_more, Some(true));
    assert_eq!(one.next_offset, Some(15));

    let last = SearchMeta::single_query("rust".to_string(), 15, 10, 5, 10, false);
    assert_eq!(last.has_more, Some(false));
    assert_eq!(last.next_offset, None);

    let many = SearchMeta::multi_query(&[3, 0, 4]);
    assert_eq!(many.query, None);
    assert_eq!(many.queries, Some(3));
    assert_eq!(many.total, 7);
    assert_eq!(many.returned, 0);
    assert_eq!((many.offset, many.limit, many.has_more, many.next_offset), (None, None, None, None));
    assert!(!many.truncated);
}

#[test]
fn counts_of_several_queries() {
    let counts = vec![
        CountResult { query: "a".to_string(), total: 3 },
        CountResult { query: "b c".to_string(), total: 0 },
    ];
    assert_eq!(format_counts_raw(&counts), "a: 3\nb c: 0");
    assert_eq!(format_counts_raw(&[]), "");
    let env = CountEnvelope::new(counts);
    assert_eq!(env.meta.queries, 2);
    assert_eq!(env.counts[1].query, "b c");
}

#[test]
fn plan_figures_show_nothing() {
    let m = PlanMeta::overflowing(120, 50, Some(8));
    assert_eq!((m.total, m.returned, m.overflow, m.threshold, m.files_searched), (120, 0, true, 50, Some(8)));
}

#[test]
fn truncation_footer_names_the_last_line_shown() {
    let r = ReadResult::new("README.md".to_string(), "x".to_string()).with_truncation(2048, 8192, 43);
    assert_eq!(
        r.format_truncation_footer(),
        Some(r#"--- truncated at L42, 2048/8192 bytes, next: --section "L43-" ---"#.to_string())
    );
    assert_eq!(ReadResult::new("f".to_string(), "c".to_string()).format_truncation_footer(), None);
}

#[test]
fn index_status_groups_counts_on_one_line() {
    let st = IndexStatus {
        path: ".worktoolai/markdownai.db".to_string(),
        last_sync: "2025-01-15 14:30:02".to_string(),
        files: FilesStatus { indexed: 1234, stale: Some(12), deleted: Some(3), untracked: None },
        size: SizeStatus { sqlite: 1153434, tantivy: 4404019 },
    };
    assert_eq!(
        st.format_raw(),
        "db: .worktoolai/markdownai.db (last sync: 2025-01-15 14:30:02)\nfiles: 1,234 indexed, 12 stale, 3 deleted\nsize: sqlite 1.1MB, tantivy 4.2MB"
    );
    let big = IndexStatus {
        path: "p".to_string(),
        last_sync: "t".to_string(),
        files: FilesStatus { indexed: 1002003, stale: None, deleted: None, untracked: Some(1000) },
        size: SizeStatus { sqlite: 0, tantivy: 0 },
    };
    assert_eq!(big.format_raw(), "db: p (last sync: t)\nfiles: 1,002,003 indexed, 1,000 untracked\nsize: sqlite 0.0MB, tantivy 0.0MB");
}

#[test]
fn index_status_sizes_round_as_floating_point() {
    let st = IndexStatus {
        path: "p".to_string(),
        last_sync: "t".to_string(),
        files: FilesStatus { indexed: 0, stale: None, deleted: None, untracked: None },
        size: SizeStatus { sqlite: 1152921504607004273, tantivy: 262144 },
    };
    let expected_sqlite = format!("{:.1}", 1152921504607004273usize as f64 / 1_048_576.0);
    assert_eq!(expected_sqlite, "1099511627776.1");
    let expected_tantivy = format!("{:.1}", 262144usize as f64 / 1_048_576.0);
    assert_eq!(
        st.format_raw(),
        format!("db: p (last sync: t)\nfiles: 0 indexed\nsize: sqlite {}MB, tantivy {}MB", expected_sqlite, expected_tantivy)
    );
}
