use vstd::prelude::*;
use vstd::slice::slice_to_vec;
use vstd::string::StringSliceAdditionalSpecFns;

use crate::diagnostic::{views, Diagnostic, DiagnosticView, Severity};
use crate::text::{findings_by_line, line_bounds, lines, slices};

verus! {

/// A space or a tab.
pub open spec fn is_blank(c: u8) -> bool {
    c == 32u8 || c == 9u8
}

/// The length of a line once its trailing spaces and tabs are removed.
pub open spec fn trimmed_len(l: Seq<u8>) -> int
    decreases l.len(),
{
    if l.len() > 0 && is_blank(l.last()) {
        trimmed_len(l.drop_last())
    } else {
        l.len() as int
    }
}

/// The finding for line number `n` of `path`, if the line ends in a space or a tab:
/// its column (counting from 1) is that of the first of the trailing blanks.
pub open spec fn trailing_finding(path: Seq<u8>, l: Seq<u8>, n: int) -> Seq<DiagnosticView> {
    if trimmed_len(l) < l.len() {
        seq![
            DiagnosticView {
                file: path,
                line: n,
                column: trimmed_len(l) + 1,
                severity: Severity::Warning,
                rule: "trailing-whitespace"@,
                message: "trailing whitespace"@,
                suggestion: None,
            },
        ]
    } else {
        seq![]
    }
}

/// All findings of the trailing-whitespace check on a text, in line order.
pub open spec fn trailing_findings(path: Seq<u8>, b: Seq<u8>) -> Seq<DiagnosticView> {
    findings_by_line(lines(b), |l: Seq<u8>, n: int| trailing_finding(path, l, n))
}

/// The column of a trailing-whitespace finding points at the first trailing blank:
/// every byte from there to the end of the line is a space or a tab, and the byte
/// before it (if any) is not.
pub proof fn lemma_trimmed_len(l: Seq<u8>)
    ensures
        0 <= trimmed_len(l) <= l.len(),
        forall|i: int| trimmed_len(l) <= i < l.len() ==> is_blank(l[i]),
        trimmed_len(l) > 0 ==> !is_blank(l[trimmed_len(l) - 1]),
    decreases l.len(),
{
    if l.len() > 0 && is_blank(l.last()) {
        lemma_trimmed_len(l.drop_last());
        assert forall|i: int| trimmed_len(l) <= i < l.len() implies is_blank(l[i]) by {
            if i < l.len() - 1 {
                assert(l.drop_last()[i] == l[i]);
            }
        }
    }
}

/// Where the trailing blanks of `b[s..e]` begin.
fn trimmed_end(b: &[u8], s: usize, e: usize) -> (t: usize)
    requires
        s <= e <= b@.len(),
    ensures
        s <= t <= e,
        t - s == trimmed_len(b@.subrange(s as int, e as int)),
{
    let mut t: usize = e;
    while t > s && (b[t - 1] == 32u8 || b[t - 1] == 9u8)
        invariant
            s <= t <= e <= b@.len(),
            trimmed_len(b@.subrange(s as int, e as int)) == trimmed_len(b@.subrange(s as int, t as int)),
        decreases t,
    {
        proof {
            assert(b@.subrange(s as int, t as int).drop_last() =~= b@.subrange(s as int, t - 1));
        }
        t = t - 1;
    }
    t
}

/// Warn on trailing whitespace at the end of any line.
pub fn check(path: &[u8], text: &str, out: &mut Vec<Diagnostic>)
    ensures
        views(final(out)@) == views(old(out)@) + trailing_findings(path@, text.spec_bytes()),
{
    let b = text.as_bytes();
    let bounds = line_bounds(b);
    let ghost ls = lines(b@);
    let ghost f = |l: Seq<u8>, n: int| trailing_finding(path@, l, n);
    let ghost start = views(out@);
    let mut k: usize = 0;
    proof {
        assert(ls.take(0) =~= Seq::<Seq<u8>>::empty());
    }
    while k < bounds.len()
        invariant
            0 <= k <= bounds@.len(),
            ls == lines(b@),
            ls == slices(b@, bounds@),
            forall|j: int| #![trigger bounds@[j]] 0 <= j < bounds@.len() ==> bounds@[j].0 <= bounds@[j].1 <= b@.len(),
            f == (|l: Seq<u8>, n: int| trailing_finding(path@, l, n)),
            views(out@) == start + findings_by_line(ls.take(k as int), f),
        decreases bounds@.len() - k,
    {
        let (s, e) = bounds[k];
        let ghost before = out@;
        let t = trimmed_end(b, s, e);
        if t < e {
            out.push(
                Diagnostic {
                    file: slice_to_vec(path),
                    line: k + 1,
                    column: t - s + 1,
                    severity: Severity::Warning,
                    rule: "trailing-whitespace",
                    message: "trailing whitespace".to_owned(),
                    suggestion: None,
                },
            );
        }
        proof {
            assert(ls.take(k + 1).drop_last() =~= ls.take(k as int));
            assert(ls[k as int] == b@.subrange(s as int, e as int));
            assert(views(out@) =~= views(before) + f(ls[k as int], k + 1));
        }
        k = k + 1;
    }
    proof {
        assert(ls.take(k as int) =~= ls);
    }
}

} // verus!
