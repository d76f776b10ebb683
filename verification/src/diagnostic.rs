use vstd::prelude::*;

verus! {

/// How serious a finding is.
#[derive(Debug, Clone, Copy, PartialEq, Eq, Structural)]
pub enum Severity {
    Error,
    Warning,
}

impl Severity {
    /// The lower-case word that names the severity in reports.
    pub open spec fn spec_label(self) -> Seq<char> {
        match self {
            Severity::Error => "error"@,
            Severity::Warning => "warning"@,
        }
    }

    pub fn label(self) -> (r: &'static str)
        ensures
            r@ == self.spec_label(),
    {
        match self {
            Severity::Error => "error",
            Severity::Warning => "warning",
        }
    }
}

/// One finding of one check in one file.
#[derive(Debug, Clone)]
pub struct Diagnostic {
    /// The path of the file, as the bytes that Unix holds for it.
    pub file: Vec<u8>,
    pub line: usize,
    pub column: usize,
    pub severity: Severity,
    /// Stable rule identifier, e.g. `merge-conflict`, `typos`, `trailing-whitespace`.
    pub rule: &'static str,
    pub message: String,
    /// Optional suggested fix or correction.
    pub suggestion: Option<String>,
}

/// The mathematical value of a [`Diagnostic`].
pub struct DiagnosticView {
    pub file: Seq<u8>,
    pub line: int,
    pub column: int,
    pub severity: Severity,
    pub rule: Seq<char>,
    pub message: Seq<char>,
    pub suggestion: Option<Seq<char>>,
}

pub open spec fn option_view(o: Option<String>) -> Option<Seq<char>> {
    match o {
        Some(s) => Some(s@),
        None => None,
    }
}

impl View for Diagnostic {
    type V = DiagnosticView;

    open spec fn view(&self) -> DiagnosticView {
        DiagnosticView {
            file: self.file@,
            line: self.line as int,
            column: self.column as int,
            severity: self.severity,
            rule: self.rule@,
            message: self.message@,
            suggestion: option_view(self.suggestion),
        }
    }
}

/// The values of a sequence of diagnostics.
pub open spec fn views(ds: Seq<Diagnostic>) -> Seq<DiagnosticView> {
    ds.map_values(|d: Diagnostic| d@)
}

} // verus!
