use fastlint::checks::trailing_whitespace::check;
use fastlint::diagnostic::{Diagnostic, Severity};

fn run_trailing(text: &str) -> Vec<Diagnostic> {
    let mut out = Vec::new();
    check(b"test.rs", text, &mut out);
    out
}

#[test]
fn flags_trailing_spaces() {
    let diags = run_trailing("ok\nbad   \nfine\n");
    assert_eq!(diags.len(), 1);
    assert_eq!(diags[0].line, 2);
    // 1-based column pointing at the first whitespace char (after "bad").
    assert_eq!(diags[0].column, 4);
    assert_eq!(diags[0].severity, Severity::Warning);
}

#[test]
fn flags_trailing_tabs() {
    let diags = run_trailing("text\t\n");
    assert_eq!(diags.len(), 1);
    assert_eq!(diags[0].column, 5);
}

#[test]
fn empty_line_is_not_flagged() {
    // `\n\n` produces an empty middle line, not a whitespace line.
    let diags = run_trailing("a\n\nb\n");
    assert!(diags.is_empty(), "got {diags:?}");
}

#[test]
fn whitespace_only_line_is_flagged() {
    let diags = run_trailing("a\n   \nb\n");
    assert_eq!(diags.len(), 1);
    assert_eq!(diags[0].line, 2);
    assert_eq!(diags[0].column, 1);
}

#[test]
fn trailing_finding_is_exact() {
    let diags = run_trailing("x \t \r\ny\r\n");
    assert_eq!(diags.len(), 1);
    assert_eq!(diags[0].file, b"test.rs");
    assert_eq!(diags[0].line, 1);
    assert_eq!(diags[0].column, 2);
    assert_eq!(diags[0].rule, "trailing-whitespace");
    assert_eq!(diags[0].message, "trailing whitespace");
    assert_eq!(diags[0].suggestion, None);
}

#[test]
fn carriage_return_without_newline_is_not_trimmed() {
    // A '\r' ends a line only before a '\n'; here it stays, so nothing trails.
    assert!(run_trailing("a \r").is_empty());
    // Other blanks such as a form feed do not count.
    assert!(run_trailing("a\x0c\n").is_empty());
}
