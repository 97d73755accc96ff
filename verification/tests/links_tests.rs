use markdownai::links::{
    build_graph, collect_edges, compute_graph_stats, parse_links, resolve_link_path, GraphNode,
    Link, LinkKind,
};

fn link(line: usize, target: &str, kind: LinkKind) -> Link {
    Link {
        source_line: line,
        target_raw: target.to_string(),
        target_path: Some(target.to_string()),
        target_anchor: None,
        link_type: kind,
        display_text: None,
    }
}

#[test]
fn test_parse_wiki_links() {
    let content = "This is a [[WikiLink]] and [[Page|display text]]";
    let links = parse_links(content);
    assert_eq!(links.len(), 2);
    assert_eq!(links[0].link_type, LinkKind::Wiki);
    assert_eq!(links[0].target_path, Some("WikiLink".to_string()));
    assert_eq!(links[1].display_text, Some("display text".to_string()));
}

#[test]
fn test_parse_markdown_links() {
    let content = "This is a [link](target.md) and [another](page.md#anchor)";
    let links = parse_links(content);
    assert_eq!(links.len(), 2);
    assert_eq!(links[0].link_type, LinkKind::Markdown);
    assert_eq!(links[0].target_path, Some("target.md".to_string()));
    assert_eq!(links[1].target_anchor, Some("anchor".to_string()));
}

#[test]
fn test_skip_image_links() {
    let content = "This is ![image](img.png) and [link](page.md)";
    let links = parse_links(content);
    assert_eq!(links.len(), 1);
    assert_eq!(links[0].target_path, Some("page.md".to_string()));
}

#[test]
fn test_build_graph() {
    let files = vec![
        ("/a.md".to_string(), vec![]),
        (
            "/b.md".to_string(),
            vec![Link {
                source_line: 1,
                target_raw: "a".to_string(),
                target_path: Some("a.md".to_string()),
                target_anchor: None,
                link_type: LinkKind::Wiki,
                display_text: None,
            }],
        ),
    ];
    let graph = build_graph(&files);
    assert_eq!(graph.len(), 2);
    let b_node = graph.iter().find(|n| n.path == "/b.md").unwrap();
    assert_eq!(b_node.outgoing, vec!["/a.md"]);
}

#[test]
fn test_graph_stats() {
    let nodes = vec![
        GraphNode {
            path: "/a.md".to_string(),
            outgoing: vec![],
            incoming: vec!["/b.md".to_string()],
        },
        GraphNode {
            path: "/b.md".to_string(),
            outgoing: vec!["/a.md".to_string()],
            incoming: vec![],
        },
        GraphNode {
            path: "/c.md".to_string(),
            outgoing: vec![],
            incoming: vec![],
        },
    ];
    let stats = compute_graph_stats(&nodes);
    assert_eq!(stats.nodes, 3);
    assert_eq!(stats.edges, 1);
    assert_eq!(stats.orphans, 1);
    assert_eq!(stats.most_linked, Some(("/a.md".to_string(), 1)));
    assert_eq!(stats.most_linking, Some(("/b.md".to_string(), 1)));
}

#[test]
fn test_wiki_links_with_anchors() {
    let content = "See [[Page#section]] for details";
    let links = parse_links(content);
    assert_eq!(links.len(), 1);
    assert_eq!(links[0].target_raw, "Page#section");
    assert_eq!(links[0].target_path, Some("Page".to_string()));
    assert_eq!(links[0].target_anchor, Some("section".to_string()));
    assert_eq!(links[0].link_type, LinkKind::Wiki);
}

#[test]
fn test_wiki_links_with_display_and_anchors() {
    let content = "See [[Page#section|display text]] for details";
    let links = parse_links(content);
    assert_eq!(links.len(), 1);
    assert_eq!(links[0].target_raw, "Page#section|display text");
    assert_eq!(links[0].target_path, Some("Page".to_string()));
    assert_eq!(links[0].target_anchor, Some("section".to_string()));
    assert_eq!(links[0].display_text, Some("display text".to_string()));
    assert_eq!(links[0].link_type, LinkKind::Wiki);
}

#[test]
fn test_anchor_only_wiki_links() {
    let content = "See [[#section]] for details";
    let links = parse_links(content);
    assert_eq!(links.len(), 1);
    assert_eq!(links[0].target_raw, "#section");
    assert_eq!(links[0].target_path, None);
    assert_eq!(links[0].target_anchor, Some("section".to_string()));
    assert_eq!(links[0].link_type, LinkKind::Wiki);
}

#[test]
fn test_multiple_links_same_line() {
    let content = "See [[Page1]] and [[Page2]] for details";
    let links = parse_links(content);
    assert_eq!(links.len(), 2);
    assert_eq!(links[0].target_raw, "Page1");
    assert_eq!(links[1].target_raw, "Page2");
}

#[test]
fn test_no_links_returns_empty() {
    let content = "This is just plain text with no links";
    let links = parse_links(content);
    assert!(links.is_empty());
    assert_eq!(links.len(), 0);
}

#[test]
fn test_resolve_link_path_relative() {
    let link = link(1, "../other/page.md", LinkKind::Markdown);
    let known_files = &["/docs/other/page.md".to_string()];
    let result = resolve_link_path(&link, "/docs/main/index.md", known_files);
    assert_eq!(result, Some("/docs/other/page.md".to_string()));
}

#[test]
fn test_resolve_link_path_external_url_returns_none() {
    let link = link(1, "https://example.com/page", LinkKind::Markdown);
    let known_files: &[String] = &[];
    let result = resolve_link_path(&link, "/docs/main/index.md", known_files);
    assert_eq!(result, None);
}

#[test]
fn test_resolve_link_path_adds_md_extension() {
    let link = link(1, "otherpage", LinkKind::Wiki);
    let known_files = &["/docs/main/otherpage.md".to_string()];
    let result = resolve_link_path(&link, "/docs/main/index.md", known_files);
    assert_eq!(result, Some("/docs/main/otherpage.md".to_string()));
}

#[test]
fn test_resolve_link_path_absolute() {
    let link = link(1, "/absolute/path/page.md", LinkKind::Markdown);
    let known_files = &["/absolute/path/page.md".to_string()];
    let result = resolve_link_path(&link, "/docs/main/index.md", known_files);
    assert_eq!(result, Some("/absolute/path/page.md".to_string()));
}

#[test]
fn test_empty_graph() {
    let files_with_links: &[(String, Vec<Link>)] = &[];
    let graph = build_graph(files_with_links);
    assert!(graph.is_empty());
}

#[test]
fn test_graph_with_self_referencing_links() {
    let l = link(1, "SamePage", LinkKind::Wiki);
    let files_with_links = &[
        ("/a.md".to_string(), vec![l.clone()]),
        ("/SamePage.md".to_string(), vec![l]),
    ];
    let graph = build_graph(files_with_links);
    let a_node = graph.iter().find(|n| n.path == "/a.md").unwrap();
    assert_eq!(a_node.outgoing, vec!["/SamePage.md".to_string()]);
    let same_node = graph.iter().find(|n| n.path == "/SamePage.md").unwrap();
    assert!(same_node.outgoing.contains(&"/SamePage.md".to_string()));
}

#[test]
fn test_collect_edges_basic() {
    let link1 = link(5, "TargetPage", LinkKind::Wiki);
    let mut link2 = link(10, "other.md", LinkKind::Markdown);
    link2.display_text = Some("click here".to_string());
    let files_with_links = &[
        ("/source.md".to_string(), vec![link1, link2]),
        ("/TargetPage.md".to_string(), vec![]),
        ("/other.md".to_string(), vec![]),
    ];
    let edges = collect_edges(files_with_links);
    assert_eq!(edges.len(), 2);
    assert_eq!(edges[0].from, "/source.md");
    assert_eq!(edges[0].to, "/TargetPage.md");
    assert_eq!(edges[0].link_type, LinkKind::Wiki);
    assert_eq!(edges[0].line, 5);
    assert_eq!(edges[1].from, "/source.md");
    assert_eq!(edges[1].to, "/other.md");
    assert_eq!(edges[1].link_type, LinkKind::Markdown);
    assert_eq!(edges[1].line, 10);
}

#[test]
fn test_collect_edges_empty_links() {
    let files_with_links: &[(String, Vec<Link>); 2] = &[
        ("/source.md".to_string(), vec![]),
        ("/other.md".to_string(), vec![]),
    ];
    let edges = collect_edges(files_with_links);
    assert!(edges.is_empty());
}

#[test]
fn test_graph_stats_all_orphans() {
    let nodes = vec![
        GraphNode { path: "/a.md".to_string(), outgoing: vec![], incoming: vec![] },
        GraphNode { path: "/b.md".to_string(), outgoing: vec![], incoming: vec![] },
        GraphNode { path: "/c.md".to_string(), outgoing: vec![], incoming: vec![] },
    ];
    let stats = compute_graph_stats(&nodes);
    assert_eq!(stats.nodes, 3);
    assert_eq!(stats.edges, 0);
    assert_eq!(stats.orphans, 3);
    assert_eq!(stats.most_linked, None);
    assert_eq!(stats.most_linking, None);
}

#[test]
fn test_orphan_detection() {
    let nodes = vec![
        GraphNode {
            path: "/index.md".to_string(),
            outgoing: vec!["/about.md".to_string(), "/old.md".to_string()],
            incoming: vec!["/about.md".to_string()],
        },
        GraphNode {
            path: "/about.md".to_string(),
            outgoing: vec!["/index.md".to_string()],
            incoming: vec!["/index.md".to_string()],
        },
        GraphNode {
            path: "/old.md".to_string(),
            outgoing: vec!["/about.md".to_string()],
            incoming: vec!["/index.md".to_string()],
        },
        GraphNode {
            path: "/orphan-with-links.md".to_string(),
            outgoing: vec!["/index.md".to_string(), "/about.md".to_string()],
            incoming: vec![],
        },
        GraphNode {
            path: "/isolated.md".to_string(),
            outgoing: vec![],
            incoming: vec![],
        },
    ];
    let orphans: Vec<_> = nodes.iter().filter(|n| n.incoming.is_empty()).collect();
    assert_eq!(orphans.len(), 2);
    assert_eq!(orphans[0].path, "/orphan-with-links.md");
    assert_eq!(orphans[1].path, "/isolated.md");
    assert_eq!(orphans[0].outgoing.len(), 2);
    assert!(orphans[0].incoming.is_empty());
    assert!(orphans[1].outgoing.is_empty());
    assert!(orphans[1].incoming.is_empty());
}

#[test]
fn test_links_different_lines_correct_line_numbers() {
    let content = "Line 1: [[Page1]]\nLine 2: [[Page2]]\nLine 3: [[Page3]]";
    let links = parse_links(content);
    assert_eq!(links.len(), 3);
    assert_eq!(links[0].source_line, 1);
    assert_eq!(links[1].source_line, 2);
    assert_eq!(links[2].source_line, 3);
    assert_eq!(links[0].target_raw, "Page1");
    assert_eq!(links[1].target_raw, "Page2");
    assert_eq!(links[2].target_raw, "Page3");
}

// Edge cases.

#[test]
fn wiki_links_come_before_markdown_links_on_a_line() {
    let links = parse_links("[md](a.md) then [[Wiki]]");
    assert_eq!(links.len(), 2);
    assert_eq!(links[0].link_type, LinkKind::Wiki);
    assert_eq!(links[1].link_type, LinkKind::Markdown);
    assert_eq!(links[1].display_text, Some("md".to_string()));
}

#[test]
fn unclosed_and_empty_links_are_not_links() {
    assert!(parse_links("[[]] and [[open and [x]( ) no").len() == 1);
    assert!(parse_links("[text]() and [[a]").is_empty());
}

#[test]
fn normalize_keeps_within_root() {
    let l = link(1, "../../../x.md", LinkKind::Markdown);
    let known = &["/x.md".to_string()];
    assert_eq!(resolve_link_path(&l, "/a/b.md", known), Some("/x.md".to_string()));
}

#[test]
fn resolve_by_file_name_anywhere() {
    let l = link(1, "deep", LinkKind::Wiki);
    let known = &["/one/two/deep.md".to_string(), "/z.md".to_string()];
    assert_eq!(resolve_link_path(&l, "/a/b.md", known), Some("/one/two/deep.md".to_string()));
    let none = Link { target_path: None, ..link(1, "", LinkKind::Wiki) };
    assert_eq!(resolve_link_path(&none, "/a/b.md", known), None);
    assert_eq!(resolve_link_path(&l, "nodir.md", known), None);
}

#[test]
fn build_graph_sorts_and_merges() {
    let files = vec![
        ("/c.md".to_string(), vec![link(1, "a.md", LinkKind::Markdown), link(2, "a.md", LinkKind::Markdown)]),
        ("/a.md".to_string(), vec![link(1, "c", LinkKind::Wiki)]),
        ("/b.md".to_string(), vec![link(1, "a", LinkKind::Wiki)]),
    ];
    let g = build_graph(&files);
    let paths: Vec<&str> = g.iter().map(|n| n.path.as_str()).collect();
    assert_eq!(paths, vec!["/a.md", "/b.md", "/c.md"]);
    assert_eq!(g[0].incoming, vec!["/c.md".to_string(), "/b.md".to_string()]);
    assert_eq!(g[2].outgoing, vec!["/a.md".to_string()]);
    let stats = compute_graph_stats(&g);
    assert_eq!(stats.edges, 3);
    assert_eq!(stats.most_linked, Some(("/a.md".to_string(), 2)));
    assert_eq!(stats.most_linking, Some(("/c.md".to_string(), 1)));
}

#[test]
fn file_name_matches_whole_segment() {
    let l = link(1, "a.md", LinkKind::Markdown);
    let known = vec!["/x/s.md".to_string(), "/data.md".to_string()];
    assert_eq!(resolve_link_path(&l, "/x/s.md", &known), None);
    let known2 = vec!["/x/s.md".to_string(), "/data.md".to_string(), "/y/a.md".to_string()];
    assert_eq!(resolve_link_path(&l, "/x/s.md", &known2), Some("/y/a.md".to_string()));
    let w = link(1, "a", LinkKind::Wiki);
    assert_eq!(resolve_link_path(&w, "/x/s.md", &known2), Some("/y/a.md".to_string()));
}

#[test]
fn links_resolve_only_to_known_files() {
    let known = vec!["/d/b.md".to_string(), "/d/sub/c.md".to_string()];
    for target in ["./b.md", "sub/c", "../d/b.md", "/d/b.md", "/elsewhere.md", "https://x.org/b.md", "nothing.md"] {
        let l = link(1, target, LinkKind::Markdown);
        if let Some(p) = resolve_link_path(&l, "/d/s.md", &known) {
            assert!(known.contains(&p), "{} resolved to {}", target, p);
        }
    }
    assert_eq!(resolve_link_path(&link(1, "./b.md", LinkKind::Markdown), "/d/s.md", &known), Some("/d/b.md".to_string()));
    assert_eq!(resolve_link_path(&link(1, "/elsewhere.md", LinkKind::Markdown), "/d/s.md", &known), None);
}
