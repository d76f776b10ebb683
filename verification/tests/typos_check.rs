use fastlint::checks::typos_check::{
    byte_offset_to_line_col, check, join_strings, report_typos, TypoHit, TypoStatus,
};
use fastlint::diagnostic::{Diagnostic, Severity};

fn run_typos(text: &str) -> Vec<Diagnostic> {
    let mut out = Vec::new();
    check(b"test.rs", text, &mut out);
    out
}

#[test]
fn line_col_first_byte() {
    assert_eq!(byte_offset_to_line_col("hello", 0), (1, 1));
}

#[test]
fn line_col_after_newline() {
    // "a\nbc" — offset 2 is 'b', start of line 2.
    assert_eq!(byte_offset_to_line_col("a\nbc", 2), (2, 1));
    // offset 3 is 'c'.
    assert_eq!(byte_offset_to_line_col("a\nbc", 3), (2, 2));
}

#[test]
fn line_col_clamped_to_len() {
    let text = "abc";
    assert_eq!(byte_offset_to_line_col(text, 100), (1, 4));
}

#[test]
fn detects_known_typo_with_suggestion() {
    // "teh" is in the canonical typos dictionary.
    let diags = run_typos("// teh quick brown fox\n");
    let typo = diags
        .iter()
        .find(|d| d.message.contains("teh"))
        .expect("expected `teh` to be flagged");
    assert_eq!(typo.rule, "typos");
    assert_eq!(typo.line, 1);
    assert_eq!(typo.suggestion.as_deref(), Some("the"));
}

#[test]
fn clean_text_yields_no_typos() {
    assert!(run_typos("fn main() {}\n").is_empty());
}

#[test]
fn known_typo_message_and_place() {
    let diags = run_typos("ok\n  teh fox\n");
    assert_eq!(diags.len(), 1);
    assert_eq!(diags[0].line, 2);
    assert_eq!(diags[0].column, 3);
    assert_eq!(diags[0].message, "`teh` should be `the`");
    assert_eq!(diags[0].severity, Severity::Warning);
}

#[test]
fn line_col_counts_bytes_of_multibyte_chars() {
    // "é" takes two bytes, so offset 3 is column 4 of line 1.
    assert_eq!(byte_offset_to_line_col("éab", 3), (1, 4));
    assert_eq!(byte_offset_to_line_col("\n\n", 2), (3, 1));
    assert_eq!(byte_offset_to_line_col("", 5), (1, 1));
}

#[test]
fn joins_with_comma_and_space() {
    let parts = vec!["a".to_string(), "bc".to_string(), "d".to_string()];
    assert_eq!(join_strings(&parts, ", "), "a, bc, d");
    assert_eq!(join_strings(&Vec::new(), ", "), "");
    assert_eq!(join_strings(&vec!["x".to_string()], ", "), "x");
}

#[test]
fn report_typos_covers_each_status() {
    let text = "abc\nxyz wrd\n";
    let hits = vec![
        TypoHit { byte_offset: 0, typo: "abc".to_string(), status: TypoStatus::Valid },
        TypoHit { byte_offset: 4, typo: "xyz".to_string(), status: TypoStatus::Invalid },
        TypoHit {
            byte_offset: 8,
            typo: "wrd".to_string(),
            status: TypoStatus::Corrections(vec!["word".to_string(), "ward".to_string()]),
        },
    ];
    let mut out = Vec::new();
    report_typos(b"f.md", text, &hits, &mut out);
    assert_eq!(out.len(), 2);
    assert_eq!((out[0].line, out[0].column), (2, 1));
    assert_eq!(out[0].message, "`xyz` is misspelled");
    assert_eq!(out[0].suggestion, None);
    assert_eq!((out[1].line, out[1].column), (2, 5));
    assert_eq!(out[1].message, "`wrd` should be `word, ward`");
    assert_eq!(out[1].suggestion.as_deref(), Some("word, ward"));
    assert_eq!(out[1].file, b"f.md");
    assert_eq!(out[1].rule, "typos");
}
