use fastlint::checks::{check_file, run, SourceFile};
use fastlint::diagnostic::{Diagnostic, Severity};
use fastlint::output::{decimal_string, has_errors, paint, render_human, Color};
use fastlint::paths::compare_paths;
use fastlint::skip::is_lock_file;
use fastlint::sort::{compare_diagnostics, sort_diagnostics};

fn file(path: &str, body: &[u8]) -> SourceFile {
    SourceFile { path: path.as_bytes().to_vec(), bytes: body.to_vec() }
}

fn diag(path: &str, line: usize, column: usize, rule: &'static str) -> Diagnostic {
    Diagnostic {
        file: path.as_bytes().to_vec(),
        line,
        column,
        severity: Severity::Warning,
        rule,
        message: String::new(),
        suggestion: None,
    }
}

#[test]
fn check_file_runs_all_checks_in_order() {
    let diags = check_file(b"x.txt", b"<<<<<<< HEAD\nlhs  \n=======\n");
    let rules: Vec<&str> = diags.iter().map(|d| d.rule).collect();
    assert_eq!(rules, vec!["merge-conflict", "merge-conflict", "trailing-whitespace"]);
    assert_eq!(diags[2].line, 2);
    assert_eq!(diags[2].column, 4);
}

#[test]
fn binary_and_non_utf8_files_are_skipped() {
    assert!(check_file(b"a.bin", b"abc\0<<<<<<<\n").is_empty());
    assert!(check_file(b"b.txt", &[0xff, b'\n', b'=', b'=', b'=', b'=', b'=', b'=', b'=', b'\n']).is_empty());
    // A NUL after the first 8 KiB does not make the file binary.
    let mut late_nul = vec![b'a'; 8192];
    late_nul.extend_from_slice(b"\n \n\0");
    let diags = check_file(b"c.txt", &late_nul);
    assert_eq!(diags.len(), 1);
    assert_eq!(diags[0].line, 2);
}

#[test]
fn run_sorts_by_file_line_column_rule() {
    let files = vec![
        file("b.txt", b"=======\n"),
        file("a.txt", b"x \n<<<<<<<\n"),
        file("c.bin", b"\0=======\n"),
    ];
    let diags = run(&files);
    let keys: Vec<(String, usize, usize, &str)> = diags
        .iter()
        .map(|d| (String::from_utf8(d.file.clone()).unwrap(), d.line, d.column, d.rule))
        .collect();
    assert_eq!(
        keys,
        vec![
            ("a.txt".to_string(), 1, 2, "trailing-whitespace"),
            ("a.txt".to_string(), 2, 1, "merge-conflict"),
            ("b.txt".to_string(), 1, 1, "merge-conflict"),
        ]
    );
    assert!(has_errors(&diags));
}

#[test]
fn paths_compare_by_components() {
    assert_eq!(compare_paths(b"a/b", b"a-b"), -1);
    assert_eq!(compare_paths(b"a-b", b"a/b"), 1);
    assert_eq!(compare_paths(b"a//b", b"a/b"), 0);
    assert_eq!(compare_paths(b"a/./b", b"a/b/"), 0);
    assert_eq!(compare_paths(b"./x", b"x"), -1);
    assert_eq!(compare_paths(b"/a", b"a"), -1);
    assert_eq!(compare_paths(b"../a", b"a"), -1);
    assert_eq!(compare_paths(b"dir/a", b"dir"), 1);
}

#[test]
fn sort_is_stable_and_ordered() {
    let mut a = diag("src/a.rs", 3, 1, "typos");
    a.message = "first".to_string();
    let mut b = diag("src/a.rs", 3, 1, "typos");
    b.message = "second".to_string();
    let v = vec![
        diag("src/b.rs", 1, 1, "typos"),
        a,
        diag("src/a.rs", 3, 1, "merge-conflict"),
        b,
        diag("src/a.rs", 2, 9, "typos"),
    ];
    let sorted = sort_diagnostics(v);
    let keys: Vec<(&str, usize, usize, &str, &str)> = sorted
        .iter()
        .map(|d| (std::str::from_utf8(&d.file).unwrap(), d.line, d.column, d.rule, d.message.as_str()))
        .collect();
    assert_eq!(
        keys,
        vec![
            ("src/a.rs", 2, 9, "typos", ""),
            ("src/a.rs", 3, 1, "merge-conflict", ""),
            ("src/a.rs", 3, 1, "typos", "first"),
            ("src/a.rs", 3, 1, "typos", "second"),
            ("src/b.rs", 1, 1, "typos", ""),
        ]
    );
    assert_eq!(compare_diagnostics(&sorted[0], &sorted[4]), -1);
    assert_eq!(compare_diagnostics(&sorted[2], &sorted[3]), 0);
}

#[test]
fn human_report_without_color() {
    let mut d1 = diag("a.txt", 1, 2, "trailing-whitespace");
    d1.message = "trailing whitespace".to_string();
    let mut d2 = diag("a.txt", 2, 1, "typos");
    d2.message = "`teh` should be `the`".to_string();
    d2.suggestion = Some("the".to_string());
    let mut d3 = diag("b.txt", 10, 1, "merge-conflict");
    d3.severity = Severity::Error;
    d3.message = "unresolved merge-conflict marker (end)".to_string();
    let text = render_human(&[d1, d2, d3], false);
    assert_eq!(
        text,
        "a.txt:1:2 warning [trailing-whitespace] trailing whitespace\n\
         a.txt:2:1 warning [typos] `teh` should be `the`\n  help: the\n\
         b.txt:10:1 error [merge-conflict] unresolved merge-conflict marker (end)\n\
         \nsummary: 1 error(s), 2 warning(s)\n"
    );
}

#[test]
fn human_report_for_nothing() {
    assert_eq!(render_human(&[], false), "No issues found.\n");
    assert_eq!(render_human(&[], true), "\x1b[32mNo issues found.\x1b[0m\n");
}

#[test]
fn human_report_with_color() {
    let mut d = diag("f", 7, 3, "typos");
    d.message = "m".to_string();
    let text = render_human(&[d], true);
    assert_eq!(
        text,
        "\x1b[36mf:7:3\x1b[0m \x1b[33mwarning\x1b[0m \x1b[2m[typos]\x1b[0m m\n\
         \n\x1b[1msummary:\x1b[0m 0 error(s), 1 warning(s)\n"
    );
}

#[test]
fn paint_wraps_only_when_enabled() {
    assert_eq!(paint("x", Color::Red, true), "\x1b[31mx\x1b[0m");
    assert_eq!(paint("x", Color::Red, false), "x");
    assert_eq!(paint("", Color::Dim, true), "\x1b[2m\x1b[0m");
}

#[test]
fn decimal_digits() {
    assert_eq!(decimal_string(0), "0");
    assert_eq!(decimal_string(9), "9");
    assert_eq!(decimal_string(10), "10");
    assert_eq!(decimal_string(1234567890), "1234567890");
    assert_eq!(decimal_string(usize::MAX), usize::MAX.to_string());
}

#[test]
fn errors_only_from_error_findings() {
    assert!(!has_errors(&[]));
    assert!(!has_errors(&[diag("a", 1, 1, "typos")]));
    let mut e = diag("a", 1, 1, "merge-conflict");
    e.severity = Severity::Error;
    assert!(has_errors(&[diag("a", 1, 1, "typos"), e]));
}

#[test]
fn severity_labels() {
    assert_eq!(Severity::Error.label(), "error");
    assert_eq!(Severity::Warning.label(), "warning");
}

#[test]
fn path_order_agrees_with_std_paths() {
    let paths = [
        "", ".", "..", "./", "./a", "a", "a/", "a/b", "a//b", "a/./b", "a-b", "a.b", "a/b/c",
        "/", "/a", "//a", "/a/../b", "../a", "a/..", "ab", "b", "B", "é", "./.", ".a", "a/.b",
    ];
    for a in paths {
        for b in paths {
            let expected = match std::path::Path::new(a).cmp(std::path::Path::new(b)) {
                std::cmp::Ordering::Less => -1,
                std::cmp::Ordering::Equal => 0,
                std::cmp::Ordering::Greater => 1,
            };
            assert_eq!(compare_paths(a.as_bytes(), b.as_bytes()), expected, "{a:?} vs {b:?}");
        }
    }
}

#[test]
fn sort_agrees_with_a_stable_std_sort() {
    let names = ["z.rs", "a/b.rs", "a-b.rs", "a/a.rs", "m/n/o.rs"];
    let rules = ["typos", "merge-conflict", "trailing-whitespace"];
    let mut v = Vec::new();
    for i in 0..600usize {
        let mut d = diag(names[(i * 7) % 5], (i * 13) % 17, (i * 3) % 4, rules[(i * 11) % 3]);
        d.message = i.to_string();
        v.push(d);
    }
    let mut expected = v.clone();
    expected.sort_by(|a, b| {
        std::path::Path::new(std::str::from_utf8(&a.file).unwrap())
            .cmp(std::path::Path::new(std::str::from_utf8(&b.file).unwrap()))
            .then(a.line.cmp(&b.line))
            .then(a.column.cmp(&b.column))
            .then(a.rule.cmp(b.rule))
    });
    let sorted = sort_diagnostics(v);
    let got: Vec<&str> = sorted.iter().map(|d| d.message.as_str()).collect();
    let want: Vec<&str> = expected.iter().map(|d| d.message.as_str()).collect();
    assert_eq!(got, want);
}

#[test]
fn lock_files_are_recognised_by_name() {
    assert!(is_lock_file(b"Cargo.lock"));
    assert!(is_lock_file(b"web/yarn.lock"));
    assert!(is_lock_file(b"./package-lock.json"));
    assert!(is_lock_file(b"a/b/pnpm-lock.yaml"));
    assert!(is_lock_file(b"npm-shrinkwrap.json"));
    assert!(!is_lock_file(b"Cargo.toml"));
    assert!(!is_lock_file(b"lock"));
    assert!(!is_lock_file(b"Cargo.lock/main.rs"));
    assert!(!is_lock_file(b"my-package-lock.json"));
    assert!(!is_lock_file(b"a.locks"));
}

#[test]
fn report_does_not_depend_on_file_order() {
    let make = || {
        vec![
            file("src/b.rs", b"x \n=======\n"),
            file("src/a.rs", b"teh \n"),
            file("src-a.rs", b">>>>>>>\n"),
            file("README.md", b"fine\n\t\n"),
        ]
    };
    let forward = run(&make());
    let mut reversed_files = make();
    reversed_files.reverse();
    let reversed = run(&reversed_files);
    let key = |d: &Diagnostic| {
        (d.file.clone(), d.line, d.column, d.severity, d.rule, d.message.clone(), d.suggestion.clone())
    };
    let a: Vec<_> = forward.iter().map(key).collect();
    let b: Vec<_> = reversed.iter().map(key).collect();
    assert_eq!(a, b);
    assert_eq!(a.len(), 6);
    assert_eq!(a[0].0, b"README.md");
}

#[test]
fn paths_that_are_not_utf8_sort_by_bytes_and_show_lossily() {
    // 0xff sorts after every ASCII byte, and is shown as U+FFFD.
    let odd = SourceFile { path: vec![b'd', b'/', 0xff], bytes: b"=======\n".to_vec() };
    let plain = file("d/z", b"=======\n");
    let diags = run(&[odd, plain]);
    assert_eq!(diags[0].file, b"d/z");
    assert_eq!(diags[1].file, vec![b'd', b'/', 0xff]);
    let text = render_human(&diags[1..], false);
    assert!(text.starts_with("d/\u{FFFD}:1:1 error [merge-conflict]"), "{text}");
    assert_eq!(compare_paths(&[0xff], b"z"), 1);
    // Read lossily, 0xff would become U+FFFD and sort before U+FFFE; by its bytes
    // it sorts after.
    let high = file("\u{FFFE}", b"=======\n");
    let raw = SourceFile { path: vec![0xff], bytes: b"=======\n".to_vec() };
    let diags = run(&[raw, high]);
    assert_eq!(diags[0].file, "\u{FFFE}".as_bytes());
    assert_eq!(diags[1].file, vec![0xff]);
    assert_eq!(compare_paths(&[0xff], "\u{FFFE}".as_bytes()), 1);
}
