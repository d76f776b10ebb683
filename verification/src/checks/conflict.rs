use vstd::prelude::*;

use crate::diagnostic::{views, Diagnostic, DiagnosticView, Severity};
use vstd::slice::slice_to_vec;
use vstd::string::StringSliceAdditionalSpecFns;

use crate::text::{findings_by_line, line_bounds, lines, slices};

verus! {

/// The line begins with seven copies of `c`, followed by a space or by nothing.
pub open spec fn is_marker_line(l: Seq<u8>, c: u8) -> bool {
    &&& l.len() >= 7
    &&& forall|i: int| 0 <= i < 7 ==> l[i] == c
    &&& (l.len() == 7 || l[7] == 32u8)
}

/// The line is exactly seven `'='`.
pub open spec fn is_separator_line(l: Seq<u8>) -> bool {
    &&& l.len() == 7
    &&& forall|i: int| 0 <= i < 7 ==> l[i] == 61u8
}

/// What the check says about a line: the message of the marker it holds, if any.
/// `<<<<<<<` opens a conflict, `=======` separates its sides, `>>>>>>>` closes it.
pub open spec fn conflict_message(l: Seq<u8>) -> Option<Seq<char>> {
    if is_marker_line(l, 60u8) {
        Some("unresolved merge-conflict marker (start)"@)
    } else if is_separator_line(l) {
        Some("unresolved merge-conflict marker (separator)"@)
    } else if is_marker_line(l, 62u8) {
        Some("unresolved merge-conflict marker (end)"@)
    } else {
        None
    }
}

/// The finding for line number `n` of `path`, if the line is a conflict marker.
pub open spec fn conflict_finding(path: Seq<u8>, l: Seq<u8>, n: int) -> Seq<DiagnosticView> {
    match conflict_message(l) {
        Some(m) => seq![
            DiagnosticView {
                file: path,
                line: n,
                column: 1,
                severity: Severity::Error,
                rule: "merge-conflict"@,
                message: m,
                suggestion: None,
            },
        ],
        None => seq![],
    }
}

/// All findings of the merge-conflict check on a text, one per marker line, in order.
pub open spec fn conflict_findings(path: Seq<u8>, b: Seq<u8>) -> Seq<DiagnosticView> {
    findings_by_line(lines(b), |l: Seq<u8>, n: int| conflict_finding(path, l, n))
}

fn is_marker_at(b: &[u8], s: usize, e: usize, c: u8) -> (r: bool)
    requires
        s <= e <= b@.len(),
    ensures
        r == is_marker_line(b@.subrange(s as int, e as int), c),
{
    let ghost l = b@.subrange(s as int, e as int);
    if e - s < 7 {
        return false;
    }
    let mut i: usize = 0;
    while i < 7
        invariant
            s + 7 <= e <= b@.len(),
            l == b@.subrange(s as int, e as int),
            0 <= i <= 7,
            forall|k: int| 0 <= k < i ==> l[k] == c,
        decreases 7 - i,
    {
        if b[s + i] != c {
            assert(l[i as int] == b@[s + i]);
            return false;
        }
        i = i + 1;
    }
    e - s == 7 || b[s + 7] == 32u8
}

fn is_separator_at(b: &[u8], s: usize, e: usize) -> (r: bool)
    requires
        s <= e <= b@.len(),
    ensures
        r == is_separator_line(b@.subrange(s as int, e as int)),
{
    if e - s != 7 {
        return false;
    }
    is_marker_at(b, s, e, 61u8)
}

fn marker_message(b: &[u8], s: usize, e: usize) -> (r: Option<&'static str>)
    requires
        s <= e <= b@.len(),
    ensures
        match conflict_message(b@.subrange(s as int, e as int)) {
            Some(m) => r is Some && r->0@ == m,
            None => r is None,
        },
{
    if is_marker_at(b, s, e, 60u8) {
        Some("unresolved merge-conflict marker (start)")
    } else if is_separator_at(b, s, e) {
        Some("unresolved merge-conflict marker (separator)")
    } else if is_marker_at(b, s, e, 62u8) {
        Some("unresolved merge-conflict marker (end)")
    } else {
        None
    }
}

/// Detect unresolved Git merge-conflict markers.
pub fn check(path: &[u8], text: &str, out: &mut Vec<Diagnostic>)
    ensures
        views(final(out)@) == views(old(out)@) + conflict_findings(path@, text.spec_bytes()),
{
    let b = text.as_bytes();
    let bounds = line_bounds(b);
    let ghost ls = lines(b@);
    let ghost f = |l: Seq<u8>, n: int| conflict_finding(path@, l, n);
    let ghost start = views(out@);
    let mut k: usize = 0;
    proof {
        assert(ls.take(0) =~= Seq::<Seq<u8>>::empty());
    }
    while k < bounds.len()
        invariant
            0 <= k <= bounds@.len(),
            ls == lines(b@),
            ls == slices(b@, bounds@),
            forall|j: int| #![trigger bounds@[j]] 0 <= j < bounds@.len() ==> bounds@[j].0 <= bounds@[j].1 <= b@.len(),
            f == (|l: Seq<u8>, n: int| conflict_finding(path@, l, n)),
            views(out@) == start + findings_by_line(ls.take(k as int), f),
        decreases bounds@.len() - k,
    {
        let (s, e) = bounds[k];
        let ghost before = out@;
        match marker_message(b, s, e) {
            Some(m) => {
                out.push(
                    Diagnostic {
                        file: slice_to_vec(path),
                        line: k + 1,
                        column: 1,
                        severity: Severity::Error,
                        rule: "merge-conflict",
                        message: m.to_owned(),
                        suggestion: None,
                    },
                );
            },
            None => {},
        }
        proof {
            assert(ls.take(k + 1).drop_last() =~= ls.take(k as int));
            assert(ls[k as int] == b@.subrange(s as int, e as int));
            assert(views(out@) =~= views(before) + f(ls[k as int], k + 1));
        }
        k = k + 1;
    }
    proof {
        assert(ls.take(k as int) =~= ls);
    }
}

} // verus!
