use fastlint::checks::conflict::check;
use fastlint::diagnostic::{Diagnostic, Severity};

fn run_conflict(text: &str) -> Vec<Diagnostic> {
    let mut out = Vec::new();
    check(b"test.rs", text, &mut out);
    out
}

#[test]
fn detects_all_three_marker_kinds() {
    let text = "fn ok() {}\n<<<<<<< HEAD\nlhs\n=======\nrhs\n>>>>>>> feature\n";
    let diags = run_conflict(text);
    assert_eq!(diags.len(), 3);
    assert_eq!(diags[0].line, 2);
    assert!(diags[0].message.contains("start"));
    assert_eq!(diags[1].line, 4);
    assert!(diags[1].message.contains("separator"));
    assert_eq!(diags[2].line, 6);
    assert!(diags[2].message.contains("end"));
    for d in &diags {
        assert_eq!(d.severity, Severity::Error);
        assert_eq!(d.rule, "merge-conflict");
    }
}

#[test]
fn accepts_bare_markers_without_branch_name() {
    let diags = run_conflict("<<<<<<<\n=======\n>>>>>>>\n");
    assert_eq!(diags.len(), 3);
}

#[test]
fn ignores_similar_but_unrelated_lines() {
    // Same chars but wrong count / context — must not fire.
    let diags = run_conflict(
        "<<<< not a marker\n\
             ====== six equals only\n\
             >>>>>>>>> nine angles\n\
             // ======= inside comment\n",
    );
    assert!(diags.is_empty(), "got {diags:?}");
}

#[test]
fn clean_file_is_clean() {
    assert!(run_conflict("fn main() {}\n").is_empty());
}

#[test]
fn conflict_findings_are_exact() {
    let diags = run_conflict("a\r\n<<<<<<< ours\r\n=======\r\n>>>>>>>\n");
    assert_eq!(diags.len(), 3);
    assert_eq!(diags[0].file, b"test.rs");
    assert_eq!(diags[0].line, 2);
    assert_eq!(diags[0].column, 1);
    assert_eq!(diags[0].message, "unresolved merge-conflict marker (start)");
    assert_eq!(diags[1].message, "unresolved merge-conflict marker (separator)");
    assert_eq!(diags[2].message, "unresolved merge-conflict marker (end)");
    assert!(diags.iter().all(|d| d.suggestion.is_none()));
}

#[test]
fn marker_needs_space_or_end_after_seven_signs() {
    // "<<<<<<<x" and "=======x" are not markers; a final line without '\n' counts.
    let diags = run_conflict("<<<<<<<x\n=======x\n=======");
    assert_eq!(diags.len(), 1);
    assert_eq!(diags[0].line, 3);
}

#[test]
fn existing_findings_are_kept() {
    let mut out = Vec::new();
    check(b"a.txt", "=======\n", &mut out);
    check(b"b.txt", "=======\n", &mut out);
    assert_eq!(out.len(), 2);
    assert_eq!(out[0].file, b"a.txt");
    assert_eq!(out[1].file, b"b.txt");
}
