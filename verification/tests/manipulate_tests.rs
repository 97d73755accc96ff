use markdownai::manipulate::{diff_lines, section_add, section_delete, section_set, EditError};
use markdownai::manipulate::renum_content;

#[test]
fn test_renum_basic_flat() {
    let input = "## 3 Alpha\n\nSome text\n\n## 5 Beta\n\nMore text\n\n## 10 Gamma\n";
    let result = renum_content(input);
    assert!(result.contains("## 1 Alpha"));
    assert!(result.contains("## 2 Beta"));
    assert!(result.contains("## 3 Gamma"));
}

#[test]
fn test_renum_hierarchical() {
    let input = "# 1 Top\n\n## 1.1 Sub A\n\n### 1.1.1 Deep\n\n## 1.2 Sub B\n\n# 5 Second\n\n## 5.1 Sub C\n";
    let result = renum_content(input);
    assert!(result.contains("# 1 Top"));
    assert!(result.contains("## 1.1 Sub A"));
    assert!(result.contains("### 1.1.1 Deep"));
    assert!(result.contains("## 1.2 Sub B"));
    assert!(result.contains("# 2 Second"));
    assert!(result.contains("## 2.1 Sub C"));
}

#[test]
fn test_renum_skips_unnumbered_headings() {
    let input = "# 1 Numbered\n\n## Unnumbered\n\nText\n\n# 5 Also Numbered\n";
    let result = renum_content(input);
    assert!(result.contains("# 1 Numbered"));
    assert!(result.contains("## Unnumbered"));
    assert!(result.contains("# 2 Also Numbered"));
}

#[test]
fn test_renum_gap_renumber() {
    let input = "## 1 First\n\n## 3 Third\n\n## 5 Fifth\n";
    let result = renum_content(input);
    assert!(result.contains("## 1 First"));
    assert!(result.contains("## 2 Third"));
    assert!(result.contains("## 3 Fifth"));
}

#[test]
fn test_renum_preserves_non_heading_lines() {
    let input = "Some intro\n\n## 5 Section\n\nBody text\n\n```code```\n";
    let result = renum_content(input);
    assert!(result.contains("Some intro"));
    assert!(result.contains("## 1 Section"));
    assert!(result.contains("Body text"));
    assert!(result.contains("```code```"));
}

#[test]
fn test_renum_deep_hierarchy() {
    let input = "# 1 A\n\n## 1.1 B\n\n### 1.1.1 C\n\n### 1.1.2 D\n\n## 1.2 E\n\n### 1.2.1 F\n";
    let result = renum_content(input);
    assert!(result.contains("# 1 A"));
    assert!(result.contains("## 1.1 B"));
    assert!(result.contains("### 1.1.1 C"));
    assert!(result.contains("### 1.1.2 D"));
    assert!(result.contains("## 1.2 E"));
    assert!(result.contains("### 1.2.1 F"));
}

#[test]
fn renum_exact_output() {
    assert_eq!(renum_content("## 7 A\r\ntext\n### 9.9 B\n"), "## 1 A\ntext\n### 1.1 B\n");
    // Without an enclosing numbered level the number starts at the deeper level.
    assert_eq!(renum_content("### 4 X\n## 2 Y\n### 8 Z"), "### 1 X\n## 1 Y\n### 1.1 Z");
    // Seven hashes, a missing title or a missing number: not numbered headings.
    assert_eq!(renum_content("####### 1 x\n# 1\n# x 1\n"), "####### 1 x\n# 1\n# x 1\n");
    // Trailing whitespace after the number: the title is the last character.
    assert_eq!(renum_content("# 3  "), "# 1  ");
    assert_eq!(renum_content("#\t2.1.\tT"), "#\t2.1.\tT");
    assert_eq!(renum_content(""), "");
}

#[test]
fn section_set_replaces_body() {
    let initial = "# Main\n\n## Subsection\n\nOriginal content\n\n## Other\n\nContent\n";
    let out = section_set(initial, "Subsection", "New content").unwrap();
    assert!(out.contains("New content"));
    assert!(!out.contains("Original content"));
    assert!(out.starts_with("# Main\n\n## Subsection\n"));
    assert!(out.ends_with("## Other\n\nContent\n"));
    assert!(section_set(initial, "#9", "x").is_err());
}

#[test]
fn section_add_places_new_section() {
    let out = section_add("# Main\n\nContent\n", "New Section", "Section content", None, None, None).unwrap();
    assert!(out.contains("## New Section"));
    assert!(out.contains("Section content"));

    let out = section_add("# Main\n\n## First\n\nContent\n", "Second", "Second content", Some("First"), None, None).unwrap();
    let lines: Vec<&str> = out.lines().collect();
    let first_idx = lines.iter().position(|&l| l == "## First").unwrap();
    let second_idx = lines.iter().position(|&l| l == "## Second").unwrap();
    assert!(second_idx > first_idx);

    let out = section_add("# Main\n\n## First\n\nContent\n", "Zero", "", None, Some("First"), Some(3)).unwrap();
    assert!(out.contains("### Zero\n## First"));
    assert!(matches!(section_add("x", "T", "", None, None, Some(7)), Err(EditError::LevelOutOfRange(7))));
    assert!(matches!(section_add("x", "T", "", Some("#4"), None, None), Err(EditError::Section(_))));
}

#[test]
fn section_delete_removes_section() {
    let initial = "# Main\n\n## To Delete\n\nDelete me\n\n## Keep\n\nKeep this\n";
    let out = section_delete(initial, "To Delete").unwrap();
    assert!(!out.contains("To Delete"));
    assert!(!out.contains("Delete me"));
    assert!(out.contains("Keep"));
}

#[test]
fn diff_shows_changed_lines() {
    assert_eq!(diff_lines("a\nb\nc", "a\nx\nc\nd"), vec!["-b", "+x", "+d"]);
    assert_eq!(diff_lines("a\n\n", "a\nz"), vec!["+z"]);
    assert!(diff_lines("same", "same").is_empty());
}

#[test]
fn renumbering_twice_is_renumbering_once() {
    let inputs = [
        "# 3 A\n## 7 B\ntext\n### 1.1.9 C\n# 9 D\n",
        "# 2 A\n#### 5 Deep\n## 4 B\n# 1  \n",
        "plain\n\n## 0.5.5 Title with 1.2 numbers\nend",
        "",
    ];
    for input in inputs {
        let once = renum_content(input);
        assert_eq!(renum_content(&once), once, "input {:?}", input);
    }
    assert_eq!(renum_content(inputs[0]), "# 1 A\n## 1.1 B\ntext\n### 1.1.1 C\n# 2 D\n");
}

#[test]
fn renumbering_keeps_every_other_line_in_place() {
    let input = "intro\n# 5 A\nbody\n## 9 B\n\n#nothash\n# 7 C\nlast";
    let out = renum_content(input);
    assert_eq!(out, "intro\n# 1 A\nbody\n## 1.1 B\n\n#nothash\n# 2 C\nlast");
    let a: Vec<&str> = input.lines().collect();
    let b: Vec<&str> = out.lines().collect();
    assert_eq!(a.len(), b.len());
    for i in [0usize, 2, 4, 5, 7] {
        assert_eq!(a[i], b[i]);
    }
}
