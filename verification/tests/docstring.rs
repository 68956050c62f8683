use prose::docstring::{entry_description_col, entry_name, is_list_marker, section_heading, triple_quoted_body};
use prose::locator::line_indent;
use prose::scan::{LineScan, LineScanner};
use prose::section::{entry_carrying_sections, SectionEntry};

#[test]
fn docstring_entry_description_col_rejects_lines_without_name_colon_shape() {
    assert!(entry_description_col("just prose with no colon").is_none());
    assert!(entry_description_col("name:no_space_after_colon").is_none());
    assert!(entry_description_col(": no name before colon").is_none());
    assert!(entry_description_col("name: ").is_none());
    assert!(entry_description_col("123: digits-only name").is_some());
}

#[test]
fn section_entry_description_col_rejects_lines_without_name_colon_shape() {
    assert!(entry_description_col("just prose with no colon").is_none());
    assert!(entry_description_col("name:no_space_after_colon").is_none());
    assert!(entry_description_col(": no name before colon").is_none());
    assert!(entry_description_col("name: ").is_none());
    assert!(entry_description_col("123: digits-only name").is_some());
}

#[test]
fn section_entry_description_col_returns_char_column_of_description_start() {
    assert_eq!(entry_description_col("name: desc"), Some(6));
    assert_eq!(entry_description_col("name : desc"), Some(7));
    assert_eq!(entry_description_col("dotted.name: desc"), Some(13));
}

#[test]
fn docstring_is_list_marker_matches_dash_star_plus_and_numeric() {
    assert!(is_list_marker("- foo"));
    assert!(is_list_marker("* foo"));
    assert!(is_list_marker("+ foo"));
    assert!(is_list_marker("1. foo"));
    assert!(is_list_marker("12. foo"));
    assert!(!is_list_marker("foo"));
    assert!(!is_list_marker("-foo"));
    assert!(!is_list_marker(". foo"));
}

#[test]
fn scan_is_list_marker_matches_dash_star_plus_and_numeric() {
    assert!(is_list_marker("- foo"));
    assert!(is_list_marker("* foo"));
    assert!(is_list_marker("+ foo"));
    assert!(is_list_marker("1. foo"));
    assert!(is_list_marker("12. foo"));
    assert!(!is_list_marker("foo"));
    assert!(!is_list_marker("-foo"));
    assert!(!is_list_marker(". foo"));
}

#[test]
fn section_heading_accepts_title_case_word_with_colon() {
    for heading in [
        "Args:",
        "Attributes:",
        "Raises:",
        "Returns:",
        "Yields:",
        "Examples:",
        "Note:",
        "Warning:",
        "Arguments:",
        "Parameters:",
        "Inputs:",
        "Steps:",
        "Outputs:",
    ] {
        assert!(section_heading(heading), "{heading}");
    }
}

#[test]
fn docstring_section_heading_accepts_multi_word_title_case_with_colon() {
    assert!(section_heading("Other Parameters:"));
    assert!(section_heading("See Also:"));
    assert!(section_heading("Side Effects:"));
}

#[test]
fn section_section_heading_accepts_multi_word_title_case_with_colon() {
    assert!(section_heading("Other Parameters:"));
    assert!(section_heading("See Also:"));
    assert!(section_heading("Side Effects:"));
}

#[test]
fn docstring_section_heading_accepts_trailing_content_after_colon() {
    assert!(section_heading("Returns: int"));
    assert!(section_heading("Note: see below"));
}

#[test]
fn section_section_heading_accepts_trailing_content_after_colon() {
    assert!(section_heading("Returns: int"));
    assert!(section_heading("Note: see below"));
}

#[test]
fn docstring_section_heading_rejects_lowercase_start_or_missing_colon() {
    assert!(!section_heading("args:"));
    assert!(!section_heading("Args :"));
    assert!(!section_heading("Args"));
    assert!(!section_heading("Foo bar:"));
    assert!(!section_heading("1Args:"));
    assert!(!section_heading(": no name"));
}

#[test]
fn section_section_heading_rejects_lowercase_start_or_missing_colon() {
    assert!(!section_heading("args:"));
    assert!(!section_heading("Args :"));
    assert!(!section_heading("Args"));
    assert!(!section_heading("Foo bar:"));
    assert!(!section_heading("1Args:"));
    assert!(!section_heading(": no name"));
}

#[test]
fn entry_name_stops_before_the_colon() {
    assert_eq!(entry_name("name : desc"), "name");
    assert_eq!(entry_name("dotted.name: desc"), "dotted.name");
}

#[test]
fn line_scanner_tracks_fences_and_lists() {
    let mut sc = LineScanner::new(4);
    assert_eq!(sc.body_indent_chars(), 4);
    assert_eq!(sc.classify("```python", 8), LineScan::Fence);
    assert_eq!(sc.classify("x = 1", 8), LineScan::InFence);
    assert_eq!(sc.classify("```", 8), LineScan::Fence);
    assert_eq!(sc.classify("- item", 8), LineScan::ListMarker);
    assert_eq!(sc.classify("still item", 10), LineScan::ListContinuation);
    assert_eq!(sc.classify("", 0), LineScan::Blank);
    assert_eq!(sc.classify("still item", 10), LineScan::Body);
    assert_eq!(sc.classify("- item", 2), LineScan::Body);
}

// Each case is a function whose first statement is a triple-quoted
// docstring; `sections_of` hands the walker that docstring's body, the
// byte at which the body starts, and the indentation of its line.

fn sections_of(src: &str) -> Vec<Vec<SectionEntry>> {
    let open = src.find("\"\"\"").expect("docstring opener");
    let start = open + 3;
    let close = start + src[start..].find("\"\"\"").expect("docstring closer");
    let line_start = src[..open].rfind('\n').map_or(0, |i| i + 1);
    let indent = src[line_start..open].chars().count();
    entry_carrying_sections(&src[start..close], start as u32, indent)
}

fn names(sections: &[Vec<SectionEntry>]) -> Vec<Vec<&str>> {
    sections.iter().map(|s| s.iter().map(|e| e.name.as_str()).collect()).collect()
}

fn slice_of<'a>(src: &'a str, e: &SectionEntry) -> &'a str {
    &src[e.start as usize..e.end as usize]
}

#[test]
fn docstring_entry_carrying_sections_attaches_fenced_code_block_to_parent_entry() {
    let src = "def f():\n    \"\"\"\n    Raises:\n        ValueError: malformed input::\n\n            ```python\n            raise ValueError(\"bad\")\n            ```\n\n        OSError: io trouble.\n    \"\"\"\n    pass\n";
    let sections = sections_of(src);
    assert_eq!(names(&sections), vec![vec!["ValueError", "OSError"]]);
    let slice = slice_of(src, &sections[0][0]);
    assert!(slice.contains("```python"));
    assert!(slice.contains("raise ValueError"));
}

#[test]
fn docstring_entry_carrying_sections_attaches_list_continuation_to_parent_entry() {
    let src = "def f():\n    \"\"\"\n    Args:\n        foo: takes a list::\n\n            - item one\n              still item one\n            - item two\n\n        bar: another arg.\n    \"\"\"\n    pass\n";
    let sections = sections_of(src);
    assert_eq!(names(&sections), vec![vec!["foo", "bar"]]);
    let slice = slice_of(src, &sections[0][0]);
    assert!(slice.contains("- item one"));
    assert!(slice.contains("still item one"));
    assert!(slice.contains("- item two"));
}

#[test]
fn docstring_entry_carrying_sections_attaches_verbatim_continuation_to_parent_entry() {
    let src = "def f():\n    \"\"\"\n    Raises:\n        ValueError: malformed::\n\n            >>> sample\n\n        OSError: io trouble.\n    \"\"\"\n    pass\n";
    let sections = sections_of(src);
    assert_eq!(names(&sections), vec![vec!["ValueError", "OSError"]]);
    assert!(slice_of(src, &sections[0][0]).contains(">>> sample"));
}

#[test]
fn docstring_entry_carrying_sections_drops_empty_args_section_with_no_entries() {
    let src = "def f():\n    \"\"\"\n    Args:\n        Just prose without a name and colon.\n    \"\"\"\n    pass\n";
    let sections = sections_of(src);
    assert!(sections.is_empty());
}

#[test]
fn docstring_entry_carrying_sections_groups_entries_per_section() {
    let src = "def f():\n    \"\"\"\n    Args:\n        b: one\n        a: two\n\n    Returns:\n        z: three\n        y: four\n    \"\"\"\n    pass\n";
    let sections = sections_of(src);
    assert_eq!(names(&sections), vec![vec!["b", "a"], vec!["z", "y"]]);
}

#[test]
fn docstring_entry_carrying_sections_recognizes_section_by_content_shape() {
    let src = "def f():\n    \"\"\"\n    Steps:\n        bar: second\n        alpha: first\n    \"\"\"\n    pass\n";
    let sections = sections_of(src);
    assert_eq!(names(&sections), vec![vec!["bar", "alpha"]]);
}

#[test]
fn docstring_entry_carrying_sections_returns_empty_for_section_without_entries() {
    let src = "def f():\n    \"\"\"\n    Returns:\n        Just prose without a name and colon.\n    \"\"\"\n    pass\n";
    let sections = sections_of(src);
    assert!(sections.is_empty());
}

#[test]
fn docstring_entry_carrying_sections_returns_empty_for_single_line_docstring() {
    let src = "def f():\n    \"\"\"Args: foo: bar\"\"\"\n    pass\n";
    let sections = sections_of(src);
    assert!(sections.is_empty());
}

#[test]
fn docstring_entry_carrying_sections_walks_opener_on_same_line_docstring() {
    let src = "def f():\n    \"\"\"Summary.\n\n    Args:\n        bar: two\n        alpha: one\n    \"\"\"\n    pass\n";
    let sections = sections_of(src);
    assert_eq!(names(&sections), vec![vec!["bar", "alpha"]]);
}

#[test]
fn docstring_entry_carrying_sections_yields_single_entry_section() {
    let src = "def f():\n    \"\"\"\n    Returns:\n        value: the result.\n    \"\"\"\n    pass\n";
    let sections = sections_of(src);
    assert_eq!(names(&sections), vec![vec!["value"]]);
}

#[test]
fn section_entry_carrying_sections_attaches_fenced_code_block_to_parent_entry() {
    let src = "def f():\n    \"\"\"\n    Raises:\n        ValueError: malformed input::\n\n            ```python\n            raise ValueError(\"bad\")\n            ```\n\n        OSError: io trouble.\n    \"\"\"\n    pass\n";
    let sections = sections_of(src);
    assert_eq!(names(&sections), vec![vec!["ValueError", "OSError"]]);
    let slice = slice_of(src, &sections[0][0]);
    assert!(slice.contains("```python"));
    assert!(slice.contains("raise ValueError"));
}

#[test]
fn section_entry_carrying_sections_attaches_list_continuation_to_parent_entry() {
    let src = "def f():\n    \"\"\"\n    Args:\n        foo: takes a list::\n\n            - item one\n              still item one\n            - item two\n\n        bar: another arg.\n    \"\"\"\n    pass\n";
    let sections = sections_of(src);
    assert_eq!(names(&sections), vec![vec!["foo", "bar"]]);
    let slice = slice_of(src, &sections[0][0]);
    assert!(slice.contains("- item one"));
    assert!(slice.contains("still item one"));
    assert!(slice.contains("- item two"));
}

#[test]
fn section_entry_carrying_sections_attaches_verbatim_continuation_to_parent_entry() {
    let src = "def f():\n    \"\"\"\n    Raises:\n        ValueError: malformed::\n\n            >>> sample\n\n        OSError: io trouble.\n    \"\"\"\n    pass\n";
    let sections = sections_of(src);
    assert_eq!(names(&sections), vec![vec!["ValueError", "OSError"]]);
    assert!(slice_of(src, &sections[0][0]).contains(">>> sample"));
}

#[test]
fn section_entry_carrying_sections_drops_empty_args_section_with_no_entries() {
    let src = "def f():\n    \"\"\"\n    Args:\n        Just prose without a name and colon.\n    \"\"\"\n    pass\n";
    let sections = sections_of(src);
    assert!(sections.is_empty());
}

#[test]
fn section_entry_carrying_sections_groups_entries_per_section() {
    let src = "def f():\n    \"\"\"\n    Args:\n        b: one\n        a: two\n\n    Returns:\n        z: three\n        y: four\n    \"\"\"\n    pass\n";
    let sections = sections_of(src);
    assert_eq!(names(&sections), vec![vec!["b", "a"], vec!["z", "y"]]);
}

#[test]
fn section_entry_carrying_sections_recognizes_section_by_content_shape() {
    let src = "def f():\n    \"\"\"\n    Steps:\n        bar: second\n        alpha: first\n    \"\"\"\n    pass\n";
    let sections = sections_of(src);
    assert_eq!(names(&sections), vec![vec!["bar", "alpha"]]);
}

#[test]
fn section_entry_carrying_sections_returns_empty_for_section_without_entries() {
    let src = "def f():\n    \"\"\"\n    Returns:\n        Just prose without a name and colon.\n    \"\"\"\n    pass\n";
    let sections = sections_of(src);
    assert!(sections.is_empty());
}

#[test]
fn section_entry_carrying_sections_returns_empty_for_single_line_docstring() {
    let src = "def f():\n    \"\"\"Args: foo: bar\"\"\"\n    pass\n";
    let sections = sections_of(src);
    assert!(sections.is_empty());
}

#[test]
fn section_entry_carrying_sections_walks_opener_on_same_line_docstring() {
    let src = "def f():\n    \"\"\"Summary.\n\n    Args:\n        bar: two\n        alpha: one\n    \"\"\"\n    pass\n";
    let sections = sections_of(src);
    assert_eq!(names(&sections), vec![vec!["bar", "alpha"]]);
}

#[test]
fn section_entry_carrying_sections_yields_single_entry_section() {
    let src = "def f():\n    \"\"\"\n    Returns:\n        value: the result.\n    \"\"\"\n    pass\n";
    let sections = sections_of(src);
    assert_eq!(names(&sections), vec![vec!["value"]]);
}

#[test]
fn entry_carrying_sections_entry_range_covers_head_line_exactly() {
    let body = "Summary.\r\n\r\n    Args:\r\n        bar: two\r\n        alpha: one\r\n    ";
    let sections = entry_carrying_sections(body, 10, 4);
    assert_eq!(sections.len(), 1);
    let bar = &sections[0][0];
    assert_eq!(&body[(bar.start - 10) as usize..(bar.end - 10) as usize], "        bar: two");
    assert_eq!(sections[0][1].name, "alpha");
}

#[test]
fn docstring_entry_description_col_returns_char_column_of_description_start() {
    assert_eq!(entry_description_col("name: desc"), Some(6));
    assert_eq!(entry_description_col("name : desc"), Some(7));
    assert_eq!(entry_description_col("dotted.name: desc"), Some(13));
}

#[test]
fn triple_quoted_body_extracts_inner_body_text() {
    let src = "'''hello'''\n";
    let (a, b) = triple_quoted_body(src.as_bytes(), 0, 11, 0, true).expect("body");
    assert_eq!(&src[a as usize..b as usize], "hello");
}

#[test]
fn triple_quoted_body_rejects_inline_with_def() {
    let src = "def f(): \"\"\"doc\"\"\"\n";
    assert!(triple_quoted_body(src.as_bytes(), 9, 18, 0, true).is_none());
}

#[test]
fn triple_quoted_body_rejects_non_triple_quoted_literal() {
    let src = "\"hello\"\n";
    assert!(triple_quoted_body(src.as_bytes(), 0, 7, 0, false).is_none());
}

#[test]
fn triple_quoted_body_skips_a_string_prefix() {
    let src = "    r\"\"\"raw\\d\"\"\"\n";
    let (a, b) = triple_quoted_body(src.as_bytes(), 4, 16, 1, true).expect("body");
    assert_eq!(&src[a as usize..b as usize], "raw\\d");
}

#[test]
fn indent_prefix_preserves_source_indent_characters() {
    let src = "class C:\n\t\"\"\"doc\"\"\"\n\tpass\n";
    assert_eq!(line_indent(src, 10), "\t");
}

#[test]
fn docstring_entry_carrying_sections_ranges_run_in_source_order() {
    let src = "def f():\n    \"\"\"\n    Args:\n        b: one\n            more\n        a: two\n\n    Empty:\n\n    Returns:\n        z: three\n    \"\"\"\n    pass\n";
    let sections = sections_of(src);
    assert_eq!(names(&sections), vec![vec!["b", "a"], vec!["z"]]);
    let flat: Vec<&SectionEntry> = sections.iter().flatten().collect();
    for e in &flat {
        assert!(e.start <= e.end);
    }
    for w in flat.windows(2) {
        assert!(w[0].end <= w[1].start);
    }
    assert_eq!(slice_of(src, flat[0]), "        b: one\n            more");
    assert!(sections.iter().all(|s| !s.is_empty()));
}
