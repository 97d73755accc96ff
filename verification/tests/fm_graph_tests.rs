use markdownai::frontmatter::JsonValue;
use markdownai::links::build_frontmatter_graph;
use markdownai::links::{frontmatter_edges, resolve_file_reference};

fn strs(v: &[&str]) -> Vec<String> {
    v.iter().map(|s| s.to_string()).collect()
}

#[test]
fn references_resolve_by_path_stem_or_name() {
    let files = strs(&["docs/a.md", "docs/sub/b.md", "c"]);
    assert_eq!(resolve_file_reference("docs/a.md", &files), Some("docs/a.md".to_string()));
    assert_eq!(resolve_file_reference("docs/a", &files), Some("docs/a.md".to_string()));
    assert_eq!(resolve_file_reference("c.md.md", &files), Some("c".to_string()));
    assert_eq!(resolve_file_reference("other/b.md", &files), Some("docs/sub/b.md".to_string()));
    assert_eq!(resolve_file_reference("zzz", &files), None);
}

#[test]
fn shared_and_ref_edges() {
    let files = strs(&["a.md", "b.md", "c.md"]);
    let fv = vec![
        ("a.md".to_string(), strs(&["x", "y"])),
        ("b.md".to_string(), strs(&["x"])),
        ("c.md".to_string(), strs(&["x", "y", "a"])),
    ];
    let shared = frontmatter_edges(&fv, &files, "shared");
    let got: Vec<(String, String, Option<String>)> =
        shared.into_iter().map(|e| (e.source, e.target, e.value)).collect();
    assert_eq!(
        got,
        vec![
            ("a.md".to_string(), "b.md".to_string(), Some("x".to_string())),
            ("a.md".to_string(), "c.md".to_string(), Some("x".to_string())),
            ("b.md".to_string(), "c.md".to_string(), Some("x".to_string())),
            ("a.md".to_string(), "c.md".to_string(), Some("y".to_string())),
        ]
    );
    let refs = frontmatter_edges(&fv, &files, "ref");
    let got: Vec<(String, String)> = refs.into_iter().map(|e| (e.source, e.target)).collect();
    assert_eq!(got, vec![("c.md".to_string(), "a.md".to_string())]);
    assert!(frontmatter_edges(&fv, &files, "other").is_empty());
}

#[test]
fn repeated_values_do_not_repeat_edges() {
    let files = strs(&["a.md", "b.md"]);
    let fv = vec![("a.md".to_string(), strs(&["t", "t"])), ("b.md".to_string(), strs(&["t"]))];
    let got: Vec<(String, String)> =
        frontmatter_edges(&fv, &files, "shared").into_iter().map(|e| (e.source, e.target)).collect();
    assert_eq!(
        got,
        vec![("a.md".to_string(), "a.md".to_string()), ("a.md".to_string(), "b.md".to_string())]
    );
}

#[test]
fn frontmatter_graph_from_file_texts() {
    let files = vec![
        ("a.md".to_string(), Some("---\ntags: [x, y]\ntitle: A\n---\nbody".to_string())),
        ("b.md".to_string(), Some("---\ntags: y\nup: a\n---\n".to_string())),
        ("c.md".to_string(), None),
        ("d.md".to_string(), Some("no frontmatter".to_string())),
    ];
    let g = build_frontmatter_graph(&files, "tags", "shared", &[]);
    assert_eq!(g.meta.nodes, 4);
    assert_eq!(g.nodes.len(), 4);
    assert_eq!(g.edges.len(), 1);
    assert_eq!((g.edges[0].source.as_str(), g.edges[0].target.as_str()), ("a.md", "b.md"));
    assert_eq!(g.edges[0].value.as_deref(), Some("y"));
    assert_eq!(g.meta.edges, 1);
    let a = &g.nodes[0];
    assert_eq!(a.id, "a.md");
    let keys: Vec<&str> = a.fields.iter().map(|f| f.0.as_str()).collect();
    assert_eq!(keys, vec!["tags", "title"]);
    assert!(matches!(&a.fields[1].1, JsonValue::Str(s) if s == "A"));
    assert!(g.nodes[2].fields.is_empty());
    assert!(g.nodes[3].fields.is_empty());

    let only_title = build_frontmatter_graph(&files, "tags", "shared", &["title".to_string()]);
    assert_eq!(only_title.nodes[0].fields.len(), 1);

    let refs = build_frontmatter_graph(&files, "up", "ref", &[]);
    assert_eq!(refs.edges.len(), 1);
    assert_eq!((refs.edges[0].source.as_str(), refs.edges[0].target.as_str()), ("b.md", "a.md"));
    assert!(refs.edges[0].value.is_none());

    let none = build_frontmatter_graph(&files, "tags", "other", &[]);
    assert!(none.edges.is_empty());
}
