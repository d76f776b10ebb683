//! FastLint: checks text files for unresolved merge-conflict markers,
//! trailing whitespace and common misspellings, and renders the findings.
pub mod diagnostic;
pub mod text;
pub mod checks;
pub mod order;
pub mod paths;
pub mod skip;
pub mod sort;
pub mod output;
pub mod laws;
pub mod check_laws;
