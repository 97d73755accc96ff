use markdownai::markdown::parse_document;
use markdownai::section::{
    delete_section, find_section_by_header_path, find_section_by_index, insert_section,
    parse_section_address, read_section_content, read_section_lines, read_summary,
    replace_section_content, replace_section_full, resolve_section_address, SectionAddress,
    SectionError,
};

#[test]
fn test_parse_index() {
    assert_eq!(
        parse_section_address("#1.1").unwrap(),
        SectionAddress::Index("#1.1".to_string())
    );
    assert_eq!(
        parse_section_address("1.2.3").unwrap(),
        SectionAddress::Index("#1.2.3".to_string())
    );
}

#[test]
fn test_parse_line_range() {
    assert_eq!(
        parse_section_address("L10-L25").unwrap(),
        SectionAddress::LineRange(10, 25)
    );
    assert_eq!(
        parse_section_address("10-25").unwrap(),
        SectionAddress::LineRange(10, 25)
    );
    assert_eq!(
        parse_section_address("L10").unwrap(),
        SectionAddress::LineRange(10, 10)
    );
}

#[test]
fn test_parse_header_path() {
    assert_eq!(
        parse_section_address("## Parent > ### Child").unwrap(),
        SectionAddress::HeaderPath(vec!["Parent".to_string(), "Child".to_string()])
    );
    assert_eq!(
        parse_section_address("Parent > Child").unwrap(),
        SectionAddress::HeaderPath(vec!["Parent".to_string(), "Child".to_string()])
    );
}

#[test]
fn test_read_lines() {
    let content = "Line 1\nLine 2\nLine 3\nLine 4\nLine 5";
    assert_eq!(read_section_lines(content, 1, 3).unwrap(), "Line 1\nLine 2\nLine 3");
    assert_eq!(read_section_lines(content, 2, 4).unwrap(), "Line 2\nLine 3\nLine 4");
}

#[test]
fn test_read_lines_bounds() {
    let content = "Line 1\nLine 2\nLine 3";
    assert_eq!(read_section_lines(content, 2, 10).unwrap(), "Line 2\nLine 3");
}

#[test]
fn test_parse_empty_address() {
    assert!(parse_section_address("").is_err());
}

#[test]
fn test_parse_single_index() {
    assert_eq!(
        parse_section_address("#1").unwrap(),
        SectionAddress::Index("#1".to_string())
    );
}

#[test]
fn test_parse_deep_index() {
    assert_eq!(
        parse_section_address("1.2.3.4").unwrap(),
        SectionAddress::Index("#1.2.3.4".to_string())
    );
}

#[test]
fn test_parse_single_line() {
    assert_eq!(
        parse_section_address("L5").unwrap(),
        SectionAddress::LineRange(5, 5)
    );
}

#[test]
fn test_read_section_content() {
    let content = "# Header\n\nContent line 1\nContent line 2\n\n## Sub\n\nSub content\n";
    let doc = parse_document(content);
    let section = &doc.sections[0];
    let text = read_section_content(content, section).unwrap();
    assert!(text.contains("# Header"));
    assert!(text.contains("Content line 1"));
}

#[test]
fn test_read_lines_start_zero_error() {
    let content = "Line 1\nLine 2";
    assert!(read_section_lines(content, 0, 2).is_err());
}

#[test]
fn test_read_lines_reversed_error() {
    let content = "Line 1\nLine 2\nLine 3";
    assert!(read_section_lines(content, 3, 1).is_err());
}

#[test]
fn test_read_lines_past_end() {
    let content = "Line 1\nLine 2";
    assert!(read_section_lines(content, 5, 10).is_err());
}

#[test]
fn test_read_summary() {
    let content = "# Title\n\nFirst line\nSecond line\nThird line\n\n## Sub\n\nSub content\n";
    let doc = parse_document(content);
    let previews = read_summary(content, &doc.sections, 2).unwrap();
    assert_eq!(previews.len(), 2);
    assert_eq!(previews[0].title, "Title");
    assert_eq!(previews[1].title, "Sub");
}

#[test]
fn test_replace_section_content() {
    let content = "# Header\n\nOld content\n\n## Sub\n\nSub content\n";
    let doc = parse_document(content);
    let section = &doc.sections[1];
    let updated = replace_section_content(content, section, "New sub content\n").unwrap();
    assert!(updated.contains("New sub content"));
    assert!(updated.contains("# Header"));
    assert!(!updated.contains("Sub content"));
}

#[test]
fn test_insert_section_at_end() {
    let content = "# Header\n\nContent\n";
    let result = insert_section(content, 3, "## New", "Body text").unwrap();
    assert!(result.contains("## New"));
    assert!(result.contains("Body text"));
    assert!(result.contains("# Header"));
}

#[test]
fn test_insert_section_at_start() {
    let content = "# Header\n\nContent\n";
    let result = insert_section(content, 0, "# Title", "Intro").unwrap();
    assert!(result.starts_with("# Title"));
}

#[test]
fn test_delete_section() {
    let content = "# Header\n\nContent\n\n## Sub\n\nSub content\n\n## Another\n\nMore\n";
    let doc = parse_document(content);
    let section = &doc.sections[1];
    let result = delete_section(content, section).unwrap();
    assert!(result.contains("# Header"));
    assert!(!result.contains("## Sub"));
    assert!(!result.contains("Sub content"));
    assert!(result.contains("## Another"));
}

#[test]
fn test_find_section_by_index() {
    let content = "# Header\n\n## Sub A\n\n## Sub B\n";
    let doc = parse_document(content);
    let found = find_section_by_index(&doc.sections, "#1.1");
    assert!(found.is_some());
    assert_eq!(found.unwrap().title, "Sub A");
    let not_found = find_section_by_index(&doc.sections, "#9.9");
    assert!(not_found.is_none());
}

#[test]
fn test_find_section_by_header_path() {
    let content = "# Main\n\n## FAQ\n\n### Question 1\n";
    let doc = parse_document(content);
    let path = vec!["Main".to_string(), "FAQ".to_string(), "Question 1".to_string()];
    let found = find_section_by_header_path(&doc.sections, &path);
    assert!(found.is_some());
    assert_eq!(found.unwrap().title, "Question 1");
}

#[test]
fn test_resolve_index_address() {
    let content = "# Header\n\n## Sub\n";
    let doc = parse_document(content);
    let addr = SectionAddress::Index("#1.1".to_string());
    let result = resolve_section_address(&addr, &doc.sections);
    assert!(result.is_ok());
    assert_eq!(result.unwrap().title, "Sub");
}

#[test]
fn test_resolve_line_range_address() {
    let content = "# Header\n\nContent\n\n## Sub\n\nSub content\n";
    let doc = parse_document(content);
    let addr = SectionAddress::LineRange(5, 7);
    let result = resolve_section_address(&addr, &doc.sections);
    assert!(result.is_ok());
    assert_eq!(result.unwrap().title, "Header");
}

#[test]
fn test_section_address_display() {
    let idx = SectionAddress::Index("#1.1".to_string());
    assert_eq!(idx.display(), "#1.1");
    let lr = SectionAddress::LineRange(10, 25);
    assert_eq!(lr.display(), "L10-L25");
    let hp = SectionAddress::HeaderPath(vec!["A".to_string(), "B".to_string()]);
    assert_eq!(hp.display(), "A > B");
}

#[test]
fn test_section_address_predicates() {
    let idx = SectionAddress::Index("#1".to_string());
    assert!(idx.is_index());
    assert!(!idx.is_line_range());
    assert!(!idx.is_header_path());
    let lr = SectionAddress::LineRange(1, 5);
    assert!(lr.is_line_range());
    let hp = SectionAddress::HeaderPath(vec!["A".to_string()]);
    assert!(hp.is_header_path());
}

// Edge cases and exact results.

#[test]
fn read_lines_whole_text_gives_it_back() {
    let content = "a\nb\n\nc";
    assert_eq!(read_section_lines(content, 1, 4).unwrap(), content);
}

#[test]
fn parse_address_errors_and_fallbacks() {
    assert_eq!(parse_section_address("   "), Err(SectionError::EmptyAddress));
    assert_eq!(parse_section_address("#"), Err(SectionError::InvalidAddress("#".to_string())));
    // A range that is not a valid range is an error.
    assert_eq!(parse_section_address("L0-L3"), Err(SectionError::ZeroStartLine));
    assert_eq!(
        parse_section_address("#01"),
        Ok(SectionAddress::HeaderPath(vec!["01".to_string()]))
    );
    assert_eq!(parse_section_address(" 7-9 "), Ok(SectionAddress::LineRange(7, 9)));
}

#[test]
fn read_lines_error_values() {
    let content = "a\nb";
    assert_eq!(read_section_lines(content, 0, 1), Err(SectionError::ZeroStartLine));
    assert_eq!(read_section_lines(content, 2, 1), Err(SectionError::ReversedRange(2, 1)));
    assert_eq!(read_section_lines(content, 3, 4), Err(SectionError::StartBeyondEnd(3, 2)));
}

#[test]
fn delete_section_exact_result() {
    let content = "# Header\n\nContent\n\n## Sub\n\nSub content\n\n## Another\n\nMore\n";
    let doc = parse_document(content);
    let result = delete_section(content, &doc.sections[1]).unwrap();
    assert_eq!(result, "# Header\n\nContent\n\n## Another\n\nMore\n");
}

#[test]
fn insert_section_exact_result() {
    let content = "# Header\n\nContent\n";
    let result = insert_section(content, 3, "New", "Body text").unwrap();
    assert_eq!(result, "# Header\n\nContent\n## New\nBody text\n");
    assert_eq!(
        insert_section(content, 9, "New", ""),
        Err(SectionError::PositionBeyondEnd(9, 4))
    );
}

#[test]
fn replace_section_content_exact_result() {
    let content = "# Header\n\nOld content\n\n## Sub\n\nSub content\n";
    let doc = parse_document(content);
    let updated = replace_section_content(content, &doc.sections[1], "New sub content\n").unwrap();
    assert_eq!(updated, "# Header\n\nOld content\n\n## Sub\nNew sub content\n");
}

#[test]
fn replace_section_content_refuses_heading() {
    let content = "# Header\n\nOld content\n";
    let doc = parse_document(content);
    let r = replace_section_content(content, &doc.sections[0], "text\n## Sneaky\n");
    assert_eq!(r, Err(SectionError::ContentHasHeading(2, "## Sneaky".to_string())));
}

#[test]
fn replace_section_full_exact_result() {
    let content = "# Header\n\nOld content\n\n## Sub\n\nSub content\n";
    let doc = parse_document(content);
    let updated = replace_section_full(content, &doc.sections[1], "## Renamed\nBody\n").unwrap();
    assert_eq!(updated, "# Header\n\nOld content\n\n## Renamed\nBody\n");
}

#[test]
fn replacing_keeps_a_blank_first_line() {
    let content = "\n# T\nold\n# U\nx";
    let doc = parse_document(content);
    let t = &doc.sections[0];
    assert_eq!(t.start_line, 2);
    let updated = replace_section_content(content, t, "new").unwrap();
    assert_eq!(updated, "\n# T\nnew\n# U\nx");
    let updated = replace_section_full(content, t, "# V\nbody\n").unwrap();
    assert_eq!(updated, "\n# V\nbody\n# U\nx");
}

#[test]
fn deleting_leaves_one_blank_line_between() {
    let content = "# A\nx\n\n\n# B\ny\n\n  \n# C\nz";
    let doc = parse_document(content);
    let b = &doc.sections[1];
    assert_eq!((b.start_line, b.end_line), (5, 8));
    let updated = delete_section(content, b).unwrap();
    assert_eq!(updated, "# A\nx\n\n# C\nz");
    let lines: Vec<&str> = updated.split('\n').collect();
    assert_eq!(lines, vec!["# A", "x", "", "# C", "z"]);
}

#[test]
fn deleting_after_empty_lines_only() {
    let content = "\n\n# A\nx\n# B\ny";
    let doc = parse_document(content);
    let a = &doc.sections[0];
    assert_eq!((a.start_line, a.end_line), (3, 4));
    assert_eq!(delete_section(content, a).unwrap(), "\n\n# B\ny");
    let content = "\n# A\nx\n# B\ny";
    let doc = parse_document(content);
    assert_eq!(delete_section(content, &doc.sections[0]).unwrap(), "# B\ny");
    let content = "# A\nx\n# B\ny";
    let doc = parse_document(content);
    assert_eq!(delete_section(content, &doc.sections[1]).unwrap(), "# A\nx");
}

#[test]
fn resolve_errors_name_the_address() {
    let content = "# Header\n\n## Sub\n";
    let doc = parse_document(content);
    let r = resolve_section_address(&SectionAddress::Index("#7".to_string()), &doc.sections);
    assert_eq!(r.unwrap_err(), SectionError::IndexNotFound("#7".to_string()));
    let r = resolve_section_address(
        &SectionAddress::HeaderPath(vec!["Nope".to_string()]),
        &doc.sections,
    );
    assert_eq!(r.unwrap_err(), SectionError::PathNotFound(vec!["Nope".to_string()]));
    let r = resolve_section_address(&SectionAddress::LineRange(50, 60), &doc.sections);
    assert_eq!(r.unwrap_err(), SectionError::RangeNotFound(50, 60));
}

#[test]
fn header_path_needs_parent_child_order() {
    let content = "# Main\n\n## FAQ\n\n# Other\n\n## Deep\n";
    let doc = parse_document(content);
    let path = vec!["Main".to_string(), "Deep".to_string()];
    assert!(find_section_by_header_path(&doc.sections, &path).is_none());
    let path = vec!["Other".to_string(), "Deep".to_string()];
    assert_eq!(find_section_by_header_path(&doc.sections, &path).unwrap().index, "#2.1");
    assert!(find_section_by_header_path(&doc.sections, &[]).is_none());
}

#[test]
fn summary_previews_leave_out_the_heading() {
    let content = "# Title\n\nFirst line\nSecond line\nThird line\n\n## Sub\n\nSub content\n";
    let doc = parse_document(content);
    let previews = read_summary(content, &doc.sections, 2).unwrap();
    assert_eq!(previews[0].preview, "\nFirst line");
    assert_eq!(previews[1].preview, "\nSub content");
}

#[test]
fn header_path_reaches_any_descendant() {
    let doc = parse_document("# Main\n## A\n### FAQ\n# Other\n## FAQ\n");
    let path = vec!["Main".to_string(), "FAQ".to_string()];
    let found = find_section_by_header_path(&doc.sections, &path).unwrap();
    assert_eq!(found.index, doc.sections[2].index);
    let other = vec!["Other".to_string(), "FAQ".to_string()];
    assert_eq!(find_section_by_header_path(&doc.sections, &other).unwrap().start_line, 5);
    let missing = vec!["A".to_string(), "Main".to_string()];
    assert!(find_section_by_header_path(&doc.sections, &missing).is_none());
}

#[test]
fn invalid_line_ranges_are_errors() {
    assert_eq!(parse_section_address("L25-L10"), Err(SectionError::ReversedRange(25, 10)));
    assert_eq!(parse_section_address("L0-L5"), Err(SectionError::ZeroStartLine));
    assert_eq!(parse_section_address("L5-L0"), Err(SectionError::ZeroEndLine));
    assert_eq!(parse_section_address("0"), Err(SectionError::ZeroStartLine));
}

#[test]
fn line_numbers_too_large_are_read_another_way() {
    assert_eq!(
        parse_section_address("99999999999999999999"),
        Ok(SectionAddress::Index("#99999999999999999999".to_string()))
    );
    assert_eq!(
        parse_section_address("L99999999999999999999999-L5"),
        Ok(SectionAddress::HeaderPath(vec!["L99999999999999999999999-L5".to_string()]))
    );
    assert_eq!(
        parse_section_address("L99999999999999999999999"),
        Ok(SectionAddress::HeaderPath(vec!["L99999999999999999999999".to_string()]))
    );
}

#[test]
fn addresses_read_back_from_their_display() {
    for text in ["L10-L25", "#1.2", "3", "1.2.3"] {
        let a = parse_section_address(text).unwrap();
        assert_eq!(parse_section_address(&a.display()).unwrap(), a);
    }
}
