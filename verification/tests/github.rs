use prose::diagnostics::{Diagnostic, Severity};
use prose::edit::Edit;
use prose::github::{annotate, annotate_all};
use prose::locator::{column_of, line_column, line_indent, line_indent_width};
use prose::rule::RuleId;

fn diag(start: u32, end: u32) -> Diagnostic {
    Diagnostic {
        fix: Some(vec![Edit::range_replacement("y".to_owned(), start, end)]),
        message: "rewrite x to y".to_owned(),
        start,
        end,
        rule: RuleId::from("rewrite-x"),
        severity: Severity::Format,
    }
}

fn emit_to_string(text: &str, d: &Diagnostic) -> String {
    let mut out = String::new();
    annotate_all(&mut out, "<source>", text, std::slice::from_ref(d));
    out
}

#[test]
fn drops_endline_and_endcolumn_for_multi_line_ranges() {
    let d = diag(0, 11);
    assert_eq!(
        emit_to_string("x = (\n  1\n)\n", &d),
        "::warning file=<source>,line=1,col=1::rewrite x to y\n",
    );
}

#[test]
fn emits_endline_and_endcolumn_when_range_stays_on_one_line() {
    let d = diag(0, 1);
    assert_eq!(
        emit_to_string("x = 1\n", &d),
        "::warning file=<source>,line=1,col=1,endLine=1,endColumn=2::rewrite x to y\n",
    );
}

#[test]
fn annotation_positions_count_characters_after_earlier_lines() {
    let text = "a\r\nb\rcé = 1\n";
    // "c" starts at byte 5; "=" at byte 9 (é is two bytes).
    let mut out = String::new();
    annotate(&mut out, "m.py", text, &diag(5, 9));
    assert_eq!(out, "::warning file=m.py,line=3,col=1,endLine=3,endColumn=4::rewrite x to y\n");
}

#[test]
fn annotations_follow_diagnostic_order() {
    let text = "x = 1\ny = 2\n";
    let mut out = String::new();
    annotate_all(&mut out, "f.py", text, &[diag(6, 7), diag(0, 1)]);
    assert_eq!(
        out,
        "::warning file=f.py,line=2,col=1,endLine=2,endColumn=2::rewrite x to y\n\
         ::warning file=f.py,line=1,col=1,endLine=1,endColumn=2::rewrite x to y\n",
    );
}

#[test]
fn line_column_is_one_based_and_counts_characters() {
    assert_eq!(line_column("abc", 0), (1, 1));
    assert_eq!(line_column("ab\ncd", 4), (2, 2));
    assert_eq!(line_column("ab\r\ncd", 4), (2, 1));
    assert_eq!(line_column("ab\rcd", 3), (2, 1));
    assert_eq!(line_column("é\né", 5), (2, 2));
}

#[test]
fn column_of_is_zero_indexed_on_its_line() {
    assert_eq!(column_of("    x = 1\n", 4), 4);
    assert_eq!(column_of("a\n  bb", 5), 3);
    assert_eq!(column_of("ééx", 4), 2);
}

#[test]
fn line_indent_takes_python_whitespace_of_the_line() {
    let text = "def f():\n \t\x0c\x0bx = 1\n";
    assert_eq!(line_indent(text, 14), " \t\x0c\x0b");
    assert_eq!(line_indent_width(text, 14), 4);
    assert_eq!(line_indent("x = 1", 2), "");
    assert_eq!(line_indent_width("  y", 0), 2);
}
