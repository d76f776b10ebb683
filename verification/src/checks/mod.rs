use vstd::prelude::*;
use vstd::string::StringSliceAdditionalSpecFns;
use vstd::utf8::{decode_utf8, valid_utf8};

use rayon::iter::{IntoParallelRefIterator, ParallelIterator};

use crate::diagnostic::{views, Diagnostic, DiagnosticView};
use crate::sort::{is_stable_sort, sort_diagnostics};

use self::conflict::conflict_findings;
use self::trailing_whitespace::trailing_findings;
use self::typos_check::{found_typos, typo_findings};

pub mod conflict;
pub mod trailing_whitespace;
pub mod typos_check;

verus! {

/// A file to check: its path (the bytes of the path, as Unix holds them) and its
/// contents.
pub struct SourceFile {
    pub path: Vec<u8>,
    pub bytes: Vec<u8>,
}

/// How many leading bytes are probed for a NUL.
pub const BINARY_PROBE_LEN: usize = 8192;

/// Heuristic: a NUL byte in the first 8 KiB means binary.
pub open spec fn looks_binary(b: Seq<u8>) -> bool {
    exists|i: int| 0 <= i < b.len() && i < BINARY_PROBE_LEN && b[i] == 0u8
}

/// The findings of all checks on one file: none for a binary file or one that is not
/// UTF-8; else those of the merge-conflict, trailing-whitespace and spelling checks,
/// in that order.
pub open spec fn file_findings(path: Seq<u8>, b: Seq<u8>) -> Seq<DiagnosticView> {
    if looks_binary(b) || !valid_utf8(b) {
        seq![]
    } else {
        conflict_findings(path, b) + trailing_findings(path, b) + typo_findings(
            path,
            b,
            found_typos(decode_utf8(b)),
        )
    }
}

/// The findings of all files, file after file.
pub open spec fn files_findings(files: Seq<SourceFile>) -> Seq<DiagnosticView>
    decreases files.len(),
{
    if files.len() == 0 {
        seq![]
    } else {
        files_findings(files.drop_last()) + file_findings(files.last().path@, files.last().bytes@)
    }
}

/// Every file is shorter than the largest `usize`.
pub open spec fn files_fit(files: Seq<SourceFile>) -> bool {
    forall|i: int| 0 <= i < files.len() ==> (#[trigger] files[i]).bytes@.len() < usize::MAX
}

/// Calls `std::str::from_utf8`; its documentation says that it succeeds exactly on
/// valid UTF-8, and then views the same bytes as text.
#[verifier::external_body]
fn utf8_text(bytes: &[u8]) -> (r: Option<&str>)
    ensures
        r is Some <==> valid_utf8(bytes@),
        r matches Some(t) ==> t.spec_bytes() == bytes@,
{
    std::str::from_utf8(bytes).ok()
}

/// Runs every check on the contents of one file.
pub fn check_file(path: &[u8], bytes: &[u8]) -> (r: Vec<Diagnostic>)
    requires
        bytes@.len() < usize::MAX,
    ensures
        views(r@) == file_findings(path@, bytes@),
{
    let probe_len: usize = if bytes.len() < BINARY_PROBE_LEN {
        bytes.len()
    } else {
        BINARY_PROBE_LEN
    };
    let mut i: usize = 0;
    while i < probe_len
        invariant
            probe_len <= bytes@.len(),
            probe_len <= BINARY_PROBE_LEN,
            i <= probe_len,
            forall|k: int| 0 <= k < i ==> bytes@[k] != 0u8,
        decreases probe_len - i,
    {
        if bytes[i] == 0u8 {
            return Vec::new();
        }
        i = i + 1;
    }
    let text = match utf8_text(bytes) {
        Some(text) => text,
        None => {
            return Vec::new();
        },
    };
    proof {
        vstd::utf8::encode_utf8_decode_utf8(text@);
        assert(text@ == decode_utf8(bytes@));
    }
    let mut out: Vec<Diagnostic> = Vec::new();
    proof {
        assert(views(out@) =~= Seq::<DiagnosticView>::empty());
    }
    conflict::check(path, text, &mut out);
    trailing_whitespace::check(path, text, &mut out);
    typos_check::check(path, text, &mut out);
    proof {
        assert(views(out@) =~= file_findings(path@, bytes@));
    }
    out
}

/// Runs `check_file` on every file with rayon (`par_iter`, `flat_map_iter`, and a
/// `collect` into a `Vec`). Collecting an unindexed parallel iterator into a `Vec`
/// goes through rayon's `ListVecConsumer`, which keeps the order of the items, so
/// the findings come file after file, as a sequential loop would give them.
#[verifier::external_body]
fn check_files_in_parallel(files: &[SourceFile]) -> (r: Vec<Diagnostic>)
    requires
        files_fit(files@),
    ensures
        views(r@) == files_findings(files@),
{
    files.par_iter().flat_map_iter(|f| check_file(&f.path, &f.bytes)).collect()
}

/// Run every check against every file, in parallel, and gather the findings in
/// report order.
pub fn run(files: &[SourceFile]) -> (r: Vec<Diagnostic>)
    requires
        files_fit(files@),
    ensures
        is_stable_sort(views(r@), files_findings(files@)),
{
    let all = check_files_in_parallel(files);
    sort_diagnostics(all)
}

} // verus!
