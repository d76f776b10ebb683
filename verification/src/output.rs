use vstd::prelude::*;
use vstd::string::StringExecFns;
use vstd::utf8::{decode_utf8, valid_utf8};

use crate::diagnostic::{views, Diagnostic, DiagnosticView, Severity};

verus! {

/// The colors of the human report.
#[derive(Clone, Copy, Debug, PartialEq, Eq, Structural)]
pub enum Color {
    Red,
    Yellow,
    Green,
    Cyan,
    Bold,
    Dim,
}

/// The ANSI escape sequence that starts a color.
pub open spec fn color_code(c: Color) -> Seq<char> {
    match c {
        Color::Red => "\x1b[31m"@,
        Color::Yellow => "\x1b[33m"@,
        Color::Green => "\x1b[32m"@,
        Color::Cyan => "\x1b[36m"@,
        Color::Bold => "\x1b[1m"@,
        Color::Dim => "\x1b[2m"@,
    }
}

/// The text, wrapped in the color's escape sequence and a reset when colors are on.
pub open spec fn painted(text: Seq<char>, c: Color, enabled: bool) -> Seq<char> {
    if !enabled {
        text
    } else {
        color_code(c) + text + "\x1b[0m"@
    }
}

fn code_of(color: Color) -> (r: &'static str)
    ensures
        r@ == color_code(color),
{
    match color {
        Color::Red => "\x1b[31m",
        Color::Yellow => "\x1b[33m",
        Color::Green => "\x1b[32m",
        Color::Cyan => "\x1b[36m",
        Color::Bold => "\x1b[1m",
        Color::Dim => "\x1b[2m",
    }
}

/// Wraps `text` in the escape sequences of `color` when `enabled`.
pub fn paint(text: &str, color: Color, enabled: bool) -> (r: String)
    ensures
        r@ == painted(text@, color, enabled),
{
    if !enabled {
        return text.to_owned();
    }
    let mut s = code_of(color).to_owned();
    s.append(text);
    s.append("\x1b[0m");
    s
}

/// The character of a decimal digit.
pub open spec fn digit_char(d: int) -> char {
    if d == 0 {
        '0'
    } else if d == 1 {
        '1'
    } else if d == 2 {
        '2'
    } else if d == 3 {
        '3'
    } else if d == 4 {
        '4'
    } else if d == 5 {
        '5'
    } else if d == 6 {
        '6'
    } else if d == 7 {
        '7'
    } else if d == 8 {
        '8'
    } else {
        '9'
    }
}

/// The decimal digits of a number, without leading zeros.
pub open spec fn decimal(n: nat) -> Seq<char>
    decreases n,
{
    if n < 10 {
        seq![digit_char(n as int)]
    } else {
        decimal(n / 10) + seq![digit_char((n % 10) as int)]
    }
}

fn digit_str(d: usize) -> (r: &'static str)
    requires
        d < 10,
    ensures
        r@ == seq![digit_char(d as int)],
{
    proof {
        reveal_strlit("0");
        reveal_strlit("1");
        reveal_strlit("2");
        reveal_strlit("3");
        reveal_strlit("4");
        reveal_strlit("5");
        reveal_strlit("6");
        reveal_strlit("7");
        reveal_strlit("8");
        reveal_strlit("9");
    }
    match d {
        0 => "0",
        1 => "1",
        2 => "2",
        3 => "3",
        4 => "4",
        5 => "5",
        6 => "6",
        7 => "7",
        8 => "8",
        _ => "9",
    }
}

/// The decimal representation of `n`.
pub fn decimal_string(n: usize) -> (r: String)
    ensures
        r@ == decimal(n as nat),
    decreases n,
{
    if n < 10 {
        digit_str(n).to_owned()
    } else {
        let mut s = decimal_string(n / 10);
        s.append(digit_str(n % 10));
        s
    }
}

/// The color of a severity's label.
pub open spec fn severity_color(s: Severity) -> Color {
    match s {
        Severity::Error => Color::Red,
        Severity::Warning => Color::Yellow,
    }
}

/// The text that stands for a path in the report: the path's bytes read as UTF-8,
/// each invalid sequence replaced by U+FFFD, as `Path::display` shows it.
pub uninterp spec fn path_text(path: Seq<u8>) -> Seq<char>;

/// Calls `String::from_utf8_lossy` on the bytes of a path. Its documentation says
/// that valid UTF-8 comes back unchanged and that each invalid sequence becomes
/// U+FFFD; the contract names the result `path_text` and states the first part.
#[verifier::external_body]
fn display_path(path: &[u8]) -> (r: String)
    ensures
        r@ == path_text(path@),
        valid_utf8(path@) ==> r@ == decode_utf8(path@),
{
    String::from_utf8_lossy(path).into_owned()
}

/// `file:line:column` of a finding.
pub open spec fn location(d: DiagnosticView) -> Seq<char> {
    path_text(d.file) + ":"@ + decimal(d.line as nat) + ":"@ + decimal(d.column as nat)
}

/// The lines of the report for one finding: its location, severity, rule and message,
/// and a `help:` line with the suggestion when there is one.
pub open spec fn finding_text(d: DiagnosticView, color: bool) -> Seq<char> {
    painted(location(d), Color::Cyan, color) + " "@ + painted(
        d.severity.spec_label(),
        severity_color(d.severity),
        color,
    ) + " "@ + painted("["@ + d.rule + "]"@, Color::Dim, color) + " "@ + d.message + "\n"@
        + match d.suggestion {
        Some(s) => "  "@ + painted("help:"@, Color::Green, color) + " "@ + s + "\n"@,
        None => Seq::<char>::empty(),
    }
}

pub open spec fn findings_text(ds: Seq<DiagnosticView>, color: bool) -> Seq<char>
    decreases ds.len(),
{
    if ds.len() == 0 {
        seq![]
    } else {
        findings_text(ds.drop_last(), color) + finding_text(ds.last(), color)
    }
}

/// How many of the findings have the given severity.
pub open spec fn count_severity(ds: Seq<DiagnosticView>, s: Severity) -> nat
    decreases ds.len(),
{
    if ds.len() == 0 {
        0
    } else {
        count_severity(ds.drop_last(), s) + if ds.last().severity == s {
            1nat
        } else {
            0nat
        }
    }
}

/// The human-readable report: "No issues found." when there is nothing to report;
/// else each finding, then a blank line and a summary with the number of errors and
/// of warnings.
pub open spec fn human_report(ds: Seq<DiagnosticView>, color: bool) -> Seq<char> {
    if ds.len() == 0 {
        painted("No issues found."@, Color::Green, color) + "\n"@
    } else {
        findings_text(ds, color) + "\n"@ + painted("summary:"@, Color::Bold, color) + " "@
            + decimal(count_severity(ds, Severity::Error)) + " error(s), "@ + decimal(
            count_severity(ds, Severity::Warning),
        ) + " warning(s)\n"@
    }
}

proof fn lemma_count_severity_le(ds: Seq<DiagnosticView>, s: Severity)
    ensures
        count_severity(ds, s) <= ds.len(),
    decreases ds.len(),
{
    if ds.len() > 0 {
        lemma_count_severity_le(ds.drop_last(), s);
    }
}

fn finding_string(d: &Diagnostic, color: bool) -> (r: String)
    ensures
        r@ == finding_text(d@, color),
{
    let mut location = display_path(d.file.as_slice());
    location.append(":");
    location.append(decimal_string(d.line).as_str());
    location.append(":");
    location.append(decimal_string(d.column).as_str());
    let mut rule = "[".to_owned();
    rule.append(d.rule);
    rule.append("]");
    let mut s = paint(location.as_str(), Color::Cyan, color);
    s.append(" ");
    let sev_color = match d.severity {
        Severity::Error => Color::Red,
        Severity::Warning => Color::Yellow,
    };
    s.append(paint(d.severity.label(), sev_color, color).as_str());
    s.append(" ");
    s.append(paint(rule.as_str(), Color::Dim, color).as_str());
    s.append(" ");
    s.append(d.message.as_str());
    s.append("\n");
    match &d.suggestion {
        Some(sugg) => {
            s.append("  ");
            s.append(paint("help:", Color::Green, color).as_str());
            s.append(" ");
            s.append(sugg.as_str());
            s.append("\n");
        },
        None => {},
    }
    s
}

/// Renders the findings as the human-readable report.
pub fn render_human(diagnostics: &[Diagnostic], color: bool) -> (r: String)
    ensures
        r@ == human_report(views(diagnostics@), color),
{
    let ghost ds = views(diagnostics@);
    if diagnostics.len() == 0 {
        let mut s = paint("No issues found.", Color::Green, color);
        s.append("\n");
        return s;
    }
    let mut s = String::new();
    let mut errors: usize = 0;
    let mut warnings: usize = 0;
    let mut k: usize = 0;
    proof {
        assert(ds.take(0) =~= Seq::<DiagnosticView>::empty());
    }
    while k < diagnostics.len()
        invariant
            k <= diagnostics@.len(),
            ds == views(diagnostics@),
            s@ == findings_text(ds.take(k as int), color),
            errors == count_severity(ds.take(k as int), Severity::Error),
            warnings == count_severity(ds.take(k as int), Severity::Warning),
        decreases diagnostics@.len() - k,
    {
        let d = &diagnostics[k];
        proof {
            assert(ds.take(k + 1).drop_last() =~= ds.take(k as int));
            assert(ds[k as int] == d@);
            lemma_count_severity_le(ds.take(k as int), Severity::Error);
            lemma_count_severity_le(ds.take(k as int), Severity::Warning);
        }
        match d.severity {
            Severity::Error => {
                errors = errors + 1;
            },
            Severity::Warning => {
                warnings = warnings + 1;
            },
        }
        s.append(finding_string(d, color).as_str());
        k = k + 1;
    }
    proof {
        assert(ds.take(k as int) =~= ds);
    }
    s.append("\n");
    s.append(paint("summary:", Color::Bold, color).as_str());
    s.append(" ");
    s.append(decimal_string(errors).as_str());
    s.append(" error(s), ");
    s.append(decimal_string(warnings).as_str());
    s.append(" warning(s)\n");
    s
}

/// Whether any finding is an error.
pub fn has_errors(diagnostics: &[Diagnostic]) -> (r: bool)
    ensures
        r == exists|i: int| 0 <= i < diagnostics@.len() && (#[trigger] diagnostics@[i]).severity == Severity::Error,
{
    let mut k: usize = 0;
    while k < diagnostics.len()
        invariant
            k <= diagnostics@.len(),
            forall|i: int| 0 <= i < k ==> (#[trigger] diagnostics@[i]).severity != Severity::Error,
        decreases diagnostics@.len() - k,
    {
        if diagnostics[k].severity == Severity::Error {
            return true;
        }
        k = k + 1;
    }
    false
}

} // verus!
