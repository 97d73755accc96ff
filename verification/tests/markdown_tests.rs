use markdownai::markdown::{find_section_by_address, parse_document};


#[test]
fn test_simple_parsing() {
    let content = r#"# Main

## Subsection

Content here.

### Sub-subsection

More content.
"#;

    let doc = parse_document(content);

    assert_eq!(doc.sections.len(), 3);
    assert_eq!(doc.sections[0].index, "#1");
    assert_eq!(doc.sections[0].level, 1);
    assert_eq!(doc.sections[0].title, "Main");

    assert_eq!(doc.sections[1].index, "#1.1");
    assert_eq!(doc.sections[1].level, 2);
    assert_eq!(doc.sections[1].title, "Subsection");
    assert_eq!(doc.sections[1].parent_index, Some("#1".to_string()));

    assert_eq!(doc.sections[2].index, "#1.1.1");
    assert_eq!(doc.sections[2].level, 3);
    assert_eq!(doc.sections[2].title, "Sub-subsection");
    assert_eq!(doc.sections[2].parent_index, Some("#1.1".to_string()));
}

#[test]
fn test_only_body_text_no_headers() {
    let content = r#"This is just body text.

Another paragraph of text.

And a third one.
"#;

    let doc = parse_document(content);

    assert_eq!(doc.sections.len(), 0);
    assert_eq!(doc.total_lines, 5);
    assert!(!doc.has_frontmatter);
}

#[test]
fn test_single_line_header_only() {
    let content = "# Header only\n";

    let doc = parse_document(content);

    assert_eq!(doc.sections.len(), 1);
    assert_eq!(doc.sections[0].title, "Header only");
    assert_eq!(doc.sections[0].level, 1);
    assert_eq!(doc.sections[0].start_line, 1);
    assert_eq!(doc.sections[0].end_line, 1);
}

#[test]
fn test_skipped_levels_h1_to_h3() {
    let content = r#"# H1 Header

### H3 Header (skipping H2)
"#;

    let doc = parse_document(content);

    assert_eq!(doc.sections.len(), 2);
    assert_eq!(doc.sections[0].level, 1);
    assert_eq!(doc.sections[1].level, 3);
    assert_eq!(doc.sections[0].index, "#1");
    assert_eq!(doc.sections[1].index, "#1.1");
    assert_eq!(doc.sections[1].parent_index, Some("#1".to_string()));
}

#[test]
fn test_multiple_sections_same_level() {
    let content = r#"# Main H1

## First H2

## Second H2

## Third H2
"#;

    let doc = parse_document(content);

    assert_eq!(doc.sections.len(), 4);
    assert_eq!(doc.sections[0].level, 1);
    assert_eq!(doc.sections[1].level, 2);
    assert_eq!(doc.sections[2].level, 2);
    assert_eq!(doc.sections[3].level, 2);

    // Check indices
    assert_eq!(doc.sections[0].index, "#1");
    assert_eq!(doc.sections[1].index, "#1.1");
    assert_eq!(doc.sections[2].index, "#1.2");
    assert_eq!(doc.sections[3].index, "#1.3");

    // All H2s should have the same parent
    assert_eq!(doc.sections[1].parent_index, Some("#1".to_string()));
    assert_eq!(doc.sections[2].parent_index, Some("#1".to_string()));
    assert_eq!(doc.sections[3].parent_index, Some("#1".to_string()));
}

#[test]
fn test_find_by_address_exact_title() {
    let content = r#"# Introduction

## Overview

This is the overview section.

## Details

More details here.
"#;

    let doc = parse_document(content);

    // Find by path notation
    let section = find_section_by_address(&doc, "#1");
    assert!(section.is_some());
    assert_eq!(section.unwrap().title, "Introduction");

    let section = find_section_by_address(&doc, "#1.1");
    assert!(section.is_some());
    assert_eq!(section.unwrap().title, "Overview");

    let section = find_section_by_address(&doc, "#1.2");
    assert!(section.is_some());
    assert_eq!(section.unwrap().title, "Details");
}

#[test]
fn test_find_by_address_non_existent() {
    let content = "# Only one header\n";

    let doc = parse_document(content);

    assert!(find_section_by_address(&doc, "#2").is_none());
    assert!(find_section_by_address(&doc, "#1.1").is_none());
    assert!(find_section_by_address(&doc, "#999").is_none());
    assert!(find_section_by_address(&doc, "invalid").is_none());
    assert!(find_section_by_address(&doc, "").is_none());
}

#[test]
fn test_section_display_trait() {
    let content = r#"# Test Header

Some content.
"#;

    let doc = parse_document(content);
    let section = &doc.sections[0];

    let display_output = section.display();
    assert!(display_output.contains("#1"));
    assert!(display_output.contains("#"));
    assert!(display_output.contains("Test Header"));
    assert!(display_output.contains("L1"));
    assert!(display_output.contains("L3"));

    // Format: index #level title (Lstart-Lend)
    assert_eq!(display_output, "#1 # Test Header (L1-L3)");
}

#[test]
fn test_document_with_frontmatter_before_headers() {
    let content = r#"---
title: My Document
author: Test Author
---

# First Header

Content after frontmatter.
"#;

    let doc = parse_document(content);

    assert!(doc.has_frontmatter);
    assert!(doc.sections.iter().any(|s| s.title == "First Header"));
}

#[test]
fn test_only_whitespace_content() {
    let content = "   \n\n\t\n   \n";

    let doc = parse_document(content);

    assert_eq!(doc.sections.len(), 0);
    assert_eq!(doc.total_lines, 4);
    assert!(!doc.has_frontmatter);
}


#[test]
fn test_back_to_back_headers() {
    let content = r#"# Header 1
## Header 2
### Header 3
#### Header 4
"#;

    let doc = parse_document(content);

    assert_eq!(doc.sections.len(), 4);

    // Each header should end at its own line since the next line is another header
    assert_eq!(doc.sections[0].start_line, 1);
    assert_eq!(doc.sections[0].end_line, 4);

    assert_eq!(doc.sections[1].start_line, 2);
    assert_eq!(doc.sections[1].end_line, 4);

    assert_eq!(doc.sections[2].start_line, 3);
    assert_eq!(doc.sections[2].end_line, 4);

    assert_eq!(doc.sections[3].start_line, 4);
    assert_eq!(doc.sections[3].end_line, 4);
}

#[test]
fn test_single_header_document() {
    let content = "# Lone Header";

    let doc = parse_document(content);

    assert_eq!(doc.sections.len(), 1);
    assert_eq!(doc.sections[0].title, "Lone Header");
    assert_eq!(doc.sections[0].level, 1);
    assert_eq!(doc.sections[0].index, "#1");
    assert_eq!(doc.sections[0].start_line, 1);
    assert_eq!(doc.sections[0].end_line, 1);
    assert_eq!(doc.sections[0].parent_index, None);
    assert_eq!(doc.sections[0].ordinal, 0);
    assert_eq!(doc.total_lines, 1);
}

#[test]
fn test_multiple_h1s() {
    let content = r#"# First H1

## Child of First

# Second H1

## Child of Second
"#;

    let doc = parse_document(content);

    assert_eq!(doc.sections.len(), 4);
    assert_eq!(doc.sections[0].index, "#1");
    assert_eq!(doc.sections[1].index, "#1.1");
    assert_eq!(doc.sections[2].index, "#2");
    assert_eq!(doc.sections[3].index, "#2.1");
}

#[test]
fn test_same_name_different_number() {
    let content = r#"# Main

## FAQ

### Question 1

### Question 2

## API
"#;

    let doc = parse_document(content);

    assert_eq!(doc.sections.len(), 5);
    assert_eq!(doc.sections[1].index, "#1.1");
    assert_eq!(doc.sections[1].title, "FAQ");
    assert_eq!(doc.sections[2].index, "#1.1.1");
    assert_eq!(doc.sections[2].title, "Question 1");
    assert_eq!(doc.sections[3].index, "#1.1.2");
    assert_eq!(doc.sections[3].title, "Question 2");
    assert_eq!(doc.sections[4].index, "#1.2");
    assert_eq!(doc.sections[4].title, "API");
}

#[test]
fn test_line_numbers() {
    let content = "# Header\n\nContent\n\n## Sub\n";
    let doc = parse_document(content);

    assert_eq!(doc.sections[0].start_line, 1);
    assert_eq!(doc.sections[0].end_line, 5);
    assert_eq!(doc.sections[1].start_line, 5);
    assert_eq!(doc.sections[1].end_line, 5);
}

#[test]
fn test_find_by_index() {
    let content = "# Main\n\n## Sub\n";
    let doc = parse_document(content);

    let section = find_section_by_address(&doc, "#1.1");
    assert!(section.is_some());
    assert_eq!(section.unwrap().title, "Sub");
}

#[test]
fn test_find_by_path() {
    let content = "# Main\n\n## Sub\n";
    let doc = parse_document(content);

    let section = find_section_by_address(&doc, "## Sub");
    assert!(section.is_some());
    assert_eq!(section.unwrap().index, "#1.1");
}

#[test]
fn test_frontmatter_detection() {
    let content = r#"---
title: Test
---

# Header
"#;

    let doc = parse_document(content);
    assert!(doc.has_frontmatter);
}

#[test]
fn test_no_frontmatter() {
    let content = "# Header\n\nNo frontmatter here.";
    let doc = parse_document(content);
    assert!(!doc.has_frontmatter);
}

#[test]
fn test_deep_nesting() {
    let content = r#"# H1
## H2
### H3
#### H4
##### H5
###### H6
"#;

    let doc = parse_document(content);

    assert_eq!(doc.sections.len(), 6);
    assert_eq!(doc.sections[0].index, "#1");
    assert_eq!(doc.sections[1].index, "#1.1");
    assert_eq!(doc.sections[2].index, "#1.1.1");
    assert_eq!(doc.sections[3].index, "#1.1.1.1");
    assert_eq!(doc.sections[4].index, "#1.1.1.1.1");
    assert_eq!(doc.sections[5].index, "#1.1.1.1.1.1");
}

#[test]
fn test_section_methods() {
    let content = "# Header\n\nLine 1\nLine 2\n";
    let doc = parse_document(content);
    let section = &doc.sections[0];

    assert_eq!(section.start_line, 1);
    assert_eq!(section.end_line, 4);
    assert_eq!(section.content_line_count(), 3);
    assert!(section.contains_line(2));
    assert!(!section.contains_line(10));
}

#[test]
fn test_empty_document() {
    let content = "";
    let doc = parse_document(content);

    assert_eq!(doc.sections.len(), 0);
    assert_eq!(doc.total_lines, 0);
}

#[test]
fn test_markdown_in_headers() {
    let content = r#"# Header with **bold** and `code`

## Header with *italic*
"#;

    let doc = parse_document(content);

    assert_eq!(doc.sections[0].title, "Header with bold and code");
    assert_eq!(doc.sections[1].title, "Header with italic");
}


#[test]
fn skipped_levels_still_give_distinct_indices() {
    let doc = parse_document("# A\n### B\n## C\n");
    let ix: Vec<&str> = doc.sections.iter().map(|s| s.index.as_str()).collect();
    assert_eq!(ix, vec!["#1", "#1.1", "#1.2"]);
    let doc2 = parse_document("## A\n# B\n## C\n");
    let ix2: Vec<&str> = doc2.sections.iter().map(|s| s.index.as_str()).collect();
    assert_eq!(ix2, vec!["#1", "#2", "#2.1"]);
}

#[test]
fn sections_lie_within_their_parents() {
    let content = "# A\nx\n## B\ny\n### C\nz\n# D\n";
    let doc = parse_document(content);
    let s = &doc.sections;
    assert_eq!(s.len(), 4);
    for (child, parent) in [(1usize, 0usize), (2, 1)] {
        assert_eq!(s[child].parent_index.as_deref(), Some(s[parent].index.as_str()));
        assert!(s[parent].level < s[child].level);
        assert!(s[parent].start_line < s[child].start_line);
        assert!(s[child].end_line <= s[parent].end_line);
    }
    for sec in s.iter() {
        assert!(sec.start_line <= sec.end_line && sec.end_line <= doc.total_lines);
    }
    assert_eq!((s[0].start_line, s[0].end_line), (1, 6));
    assert_eq!((s[2].start_line, s[2].end_line), (5, 6));
    assert_eq!(s[3].parent_index, None);
}

#[test]
fn sections_know_their_place_and_parent() {
    let content = "## A\ntext\n# B\n### C\n## D\n# E\n";
    let doc = parse_document(content);
    let s = &doc.sections;
    assert_eq!(doc.total_lines, content.lines().count());
    assert_eq!(s.len(), 5);
    for (i, sec) in s.iter().enumerate() {
        assert_eq!(sec.ordinal, i);
        assert!(1 <= sec.level && sec.level <= 6);
        assert!(1 <= sec.start_line && sec.start_line <= sec.end_line && sec.end_line <= doc.total_lines);
        if i + 1 < s.len() {
            assert!(sec.start_line < s[i + 1].start_line);
        }
        let parent = (0..i).rev().find(|&j| s[j].level < sec.level);
        assert_eq!(sec.parent_index.clone(), parent.map(|j| s[j].index.clone()));
    }
    assert_eq!(s[3].parent_index.as_deref(), Some(s[1].index.as_str()));
    assert_eq!(s[0].parent_index, None);
}
