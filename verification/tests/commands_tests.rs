use markdownai::cli::SearchScope;
use markdownai::commands::{orphan_line, orphan_nodes, orphans_header};
use markdownai::engine::{scope_fields, SearchField};
use markdownai::cli::LinkType;
use markdownai::commands::{
    adjacency_lines, backlinks_in, count_matches, count_values, edge_line, file_stats,
    filter_links, link_line, link_type_name, page_bounds, read_target,
    search_content, select_fields, stats_lines, summary_block, toc_line, toc_sections,
    truncate_text, read_result,
};
use markdownai::frontmatter::{FrontmatterData, FrontmatterField};
use markdownai::links::{build_graph, collect_edges, compute_graph_stats, parse_links, LinkKind};
use markdownai::markdown::parse_document;
use markdownai::section::{read_summary, SectionError};

#[test]
fn paging_bounds() {
    assert_eq!(page_bounds(10, 3, 5), (3, 8));
    assert_eq!(page_bounds(10, 8, 5), (8, 10));
    assert_eq!(page_bounds(10, 12, 5), (10, 10));
    assert_eq!(page_bounds(10, 0, usize::MAX), (0, 10));
}

#[test]
fn toc_filtering_and_lines() {
    let doc = parse_document("# A\n## B\n### C\n## D\n");
    assert_eq!(toc_sections(&doc.sections, Some(2)), vec![0, 1, 3]);
    assert_eq!(toc_sections(&doc.sections, None), vec![0, 1, 2, 3]);
    for s in &doc.sections {
        for flat in [false, true] {
            let indent = if flat { String::new() } else { "  ".repeat((s.level as usize).saturating_sub(1)) };
            let heading = format!("{} {}", "#".repeat(s.level as usize), s.title);
            let expected = format!("{}{:<8} {:<40} (L{})", indent, s.index, heading, s.start_line);
            assert_eq!(toc_line(s, flat), expected);
        }
    }
}

#[test]
fn file_stats_figures() {
    let content = "---\nt: 1\n---\n# A\n\n```\ncode\n```\n[[W]] and [m](x.md)\n";
    let s = file_stats("f.md".to_string(), content);
    assert_eq!(s.bytes, content.len());
    assert_eq!(s.lines, content.lines().count());
    let doc = parse_document(content);
    assert_eq!(s.sections, doc.sections.len());
    assert_eq!(s.code_blocks, 1);
    assert_eq!(s.has_frontmatter, doc.has_frontmatter);
    assert!(s.has_frontmatter);
    let l = s.links.unwrap();
    assert_eq!((l.wiki, l.markdown, l.total), (Some(1), Some(1), Some(2)));
}

#[test]
fn truncation_by_bytes_then_chars() {
    assert_eq!(truncate_text("héllo", 3), ("hé".to_string(), true));
    assert_eq!(truncate_text("ééé", 3), ("é".to_string(), true));
    assert_eq!(truncate_text("ééé", 6), ("ééé".to_string(), false));
    assert_eq!(truncate_text("hello", 5), ("hello".to_string(), false));
    assert_eq!(truncate_text("ab", 0), (String::new(), true));
}

#[test]
fn read_targets() {
    let content = "# A\n\ntext\n\n## B\n\nmore\n";
    let doc = parse_document(content);
    assert_eq!(read_target(content, &doc, "L3").unwrap(), "text");
    assert_eq!(read_target(content, &doc, "#1.1").unwrap(), "## B\n\nmore");
    assert_eq!(read_target(content, &doc, "#9"), Err(SectionError::IndexNotFound("#9".to_string())));
    assert_eq!(read_target(content, &doc, ""), Err(SectionError::EmptyAddress));
}

#[test]
fn summary_blocks() {
    let content = "# Title\n\nFirst line\nSecond line\nThird line\n";
    let doc = parse_document(content);
    let p = read_summary(content, &doc.sections, 5).unwrap();
    let mut expected = format!("{} (L{}, {})\n", p[0].title, p[0].line, p[0].index);
    for line in p[0].preview.lines().take(2) {
        expected.push_str(&format!("  {}\n", line));
    }
    expected.push_str("  ...\n\n");
    assert_eq!(summary_block(&p[0], 2), expected);
}

#[test]
fn link_listings() {
    let links = parse_links("[[Wiki]] [md](m.md#a) [[Other#x|y]]");
    assert_eq!(filter_links(&links, &Some(LinkType::Wiki)), vec![0, 1]);
    assert_eq!(filter_links(&links, &Some(LinkType::Markdown)), vec![2]);
    assert_eq!(filter_links(&links, &Some(LinkType::All)), vec![0, 1, 2]);
    assert_eq!(filter_links(&links, &None), vec![0, 1, 2]);
    assert_eq!(link_line("f.md", &links[2]), "f.md > m.md markdown L1");
    assert_eq!(link_line("f.md", &links[1]), "f.md > Other wiki L1");
    assert_eq!(link_type_name(LinkKind::Wiki), "wiki");
    assert_eq!(backlinks_in(&links, "Oth"), vec![1]);
    assert_eq!(backlinks_in(&links, ""), vec![0, 1, 2]);
}

#[test]
fn graph_text_forms() {
    let files = vec![
        ("/a.md".to_string(), parse_links("[[b]] [[c]]")),
        ("/b.md".to_string(), parse_links("[[a]]")),
        ("/c.md".to_string(), parse_links("")),
    ];
    let nodes = build_graph(&files);
    let (lines, total) = adjacency_lines(&nodes, 1, 5);
    assert_eq!(total, 3);
    assert_eq!(lines, vec!["/a.md > /c.md".to_string(), "/b.md > /a.md".to_string()]);
    let edges = collect_edges(&files);
    assert_eq!(edge_line(&edges[0]), "/a.md > /b.md wiki L1");
    let stats = compute_graph_stats(&nodes);
    assert_eq!(
        stats_lines(&stats),
        vec![
            "nodes: 3, edges: 3, orphans: 0".to_string(),
            "most linked: /c.md (1 in)".to_string(),
            "most linking: /a.md (2 out)".to_string(),
        ]
    );
}

#[test]
fn line_search() {
    let content = "# A\nfoo bar\nBaz FOO\nnone\n";
    let hits = search_content(content, "Foo", 1);
    assert_eq!(hits.len(), 2);
    assert_eq!(hits[0].line, 2);
    assert_eq!(hits[0].snippet, "# A\nfoo bar\nBaz FOO");
    assert_eq!(hits[0].section_index, Some("#1".to_string()));
    assert_eq!(hits[1].line, 3);
    assert_eq!(hits[1].snippet, "foo bar\nBaz FOO\nnone");
    assert_eq!(count_matches("Foo foo FOO fo", "foo"), 3);
    assert_eq!(count_matches("abc", ""), 4);
    assert_eq!(count_matches("aaaa", "aa"), 2);
}

fn field(key: &str) -> FrontmatterField {
    FrontmatterField {
        key: key.to_string(),
        value_json: "1".to_string(),
        value_type: "number".to_string(),
        value_text: Some("1".to_string()),
    }
}

#[test]
fn frontmatter_listing_helpers() {
    let values: Vec<String> = ["a", "b", "a", "c", "a"].iter().map(|s| s.to_string()).collect();
    assert_eq!(
        count_values(&values),
        vec![("a".to_string(), 3), ("b".to_string(), 1), ("c".to_string(), 1)]
    );
    let data = FrontmatterData { fields: vec![field("a"), field("b"), field("c")], raw_yaml: String::new() };
    assert_eq!(select_fields(&data, Some("b")), vec![1]);
    assert_eq!(select_fields(&data, None), vec![0, 1, 2]);
}

#[test]
fn orphans_listed_with_out_degree() {
    let files = vec![
        ("/index.md".to_string(), parse_links("[A](about.md)")),
        ("/about.md".to_string(), parse_links("[I](index.md)")),
        ("/orphan.md".to_string(), parse_links("[A](about.md)")),
        ("/isolated.md".to_string(), parse_links("none")),
    ];
    let nodes = build_graph(&files);
    let orphans = orphan_nodes(&nodes);
    let lines: Vec<String> = orphans.iter().map(|&i| orphan_line(&nodes[i])).collect();
    assert_eq!(lines, vec!["/isolated.md (0 in, 0 out)", "/orphan.md (0 in, 1 out)"]);
    assert_eq!(orphans_header(nodes.len(), orphans.len()), "4 files, 2 orphans");
}

#[test]
fn scopes_pick_index_fields() {
    assert_eq!(scope_fields(&SearchScope::All), vec![SearchField::Body, SearchField::Title]);
    assert_eq!(scope_fields(&SearchScope::Headers), vec![SearchField::Title]);
    assert_eq!(scope_fields(&SearchScope::Code), vec![SearchField::Body]);
    assert!(scope_fields(&SearchScope::Frontmatter).is_empty());
}

#[test]
fn read_result_notes_the_cut() {
    let text = "ab\ncd\nef";
    let (shown, cut) = truncate_text(text, 4);
    assert_eq!((shown.as_str(), cut), ("ab\nc", true));
    let r = read_result("f.md".to_string(), text, &shown, cut, None);
    assert_eq!(r.content, "ab\nc");
    assert_eq!(r.meta.file, "f.md");
    assert_eq!(r.meta.truncated, Some(true));
    assert_eq!(r.meta.bytes_shown, Some(4));
    assert_eq!(r.meta.bytes_total, Some(8));
    assert_eq!(r.meta.next_line, Some(3));
    assert_eq!(r.meta.section, None);
    assert_eq!(
        r.format_truncation_footer(),
        Some("--- truncated at L2, 4/8 bytes, next: --section \"L3-\" ---".to_string())
    );
    let whole = read_result("f.md".to_string(), text, text, false, Some(("#1".to_string(), 1, 3)));
    assert_eq!(whole.meta.truncated, None);
    assert_eq!(whole.meta.next_line, None);
    assert_eq!(whole.meta.section.as_deref(), Some("#1"));
    assert_eq!((whole.meta.start_line, whole.meta.end_line), (Some(1), Some(3)));
    assert_eq!(whole.format_truncation_footer(), None);
}
