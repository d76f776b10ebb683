//! What each check reports, stated over the lines of the text and their bytes.
use vstd::prelude::*;

use crate::checks::conflict::{conflict_finding, conflict_findings, conflict_message};
use crate::checks::trailing_whitespace::{lemma_trimmed_len, trailing_finding, trailing_findings, trimmed_len};
use crate::checks::typos_check::{count_newlines, line_col, line_start};
use crate::diagnostic::{DiagnosticView, Severity};
use crate::order::{byte_order, lex};
use crate::paths::{body_parts, path_order, path_parts};
use crate::text::{findings_by_line, lemma_first_index_of_is, lines};

verus! {

/// Seven copies of the byte `c`.
pub open spec fn seven(c: u8) -> Seq<u8> {
    seq![c, c, c, c, c, c, c]
}

/// `l` begins with the bytes of `p`.
pub open spec fn starts_with(l: Seq<u8>, p: Seq<u8>) -> bool {
    l.len() >= p.len() && l.take(p.len() as int) == p
}

/// Some finding of `ds` is on line `n`.
pub open spec fn reported_on(ds: Seq<DiagnosticView>, n: int) -> bool {
    exists|i: int| 0 <= i < ds.len() && (#[trigger] ds[i]).line == n
}

/// A check that reports at most one finding per line, on that line, reports on line
/// `k + 1` exactly what it reports for the line `ls[k]`.
proof fn lemma_findings_by_line_members(ls: Seq<Seq<u8>>, f: spec_fn(Seq<u8>, int) -> Seq<DiagnosticView>)
    requires
        forall|l: Seq<u8>, n: int| #[trigger] f(l, n).len() <= 1,
        forall|l: Seq<u8>, n: int| #[trigger] f(l, n).len() == 1 ==> f(l, n)[0].line == n,
    ensures
        forall|i: int|
            #![trigger findings_by_line(ls, f)[i]]
            0 <= i < findings_by_line(ls, f).len() ==> {
                let d = findings_by_line(ls, f)[i];
                &&& 1 <= d.line <= ls.len()
                &&& f(ls[d.line - 1], d.line).len() == 1
                &&& d == f(ls[d.line - 1], d.line)[0]
            },
        forall|k: int|
            0 <= k < ls.len() ==> (reported_on(findings_by_line(ls, f), k + 1) <==> #[trigger] f(
                ls[k],
                k + 1,
            ).len() == 1),
    decreases ls.len(),
{
    if ls.len() > 0 {
        let pre = ls.drop_last();
        lemma_findings_by_line_members(pre, f);
        let a = findings_by_line(pre, f);
        let c = f(ls.last(), ls.len() as int);
        let r = findings_by_line(ls, f);
        assert(r == a + c);
        assert forall|i: int| #![trigger r[i]] 0 <= i < r.len() implies {
            let d = r[i];
            &&& 1 <= d.line <= ls.len()
            &&& f(ls[d.line - 1], d.line).len() == 1
            &&& d == f(ls[d.line - 1], d.line)[0]
        } by {
            if i < a.len() {
                assert(r[i] == a[i]);
                assert(ls[a[i].line - 1] == pre[a[i].line - 1]);
            } else {
                assert(r[i] == c[i - a.len()]);
            }
        }
        assert forall|k: int| 0 <= k < ls.len() implies (reported_on(r, k + 1) <==> #[trigger] f(ls[k], k + 1).len()
            == 1) by {
            if reported_on(r, k + 1) {
                let i = choose|i: int| 0 <= i < r.len() && (#[trigger] r[i]).line == k + 1;
                assert(r[i].line == k + 1);
            }
            if f(ls[k], k + 1).len() == 1 {
                if k < pre.len() {
                    assert(pre[k] == ls[k]);
                    assert(reported_on(a, k + 1));
                    let i = choose|i: int| 0 <= i < a.len() && (#[trigger] a[i]).line == k + 1;
                    assert(r[i] == a[i]);
                } else {
                    assert(r[a.len() as int] == c[0]);
                }
            }
        }
    }
}

proof fn lemma_conflict_messages_differ()
    ensures
        "unresolved merge-conflict marker (start)"@ != "unresolved merge-conflict marker (separator)"@,
        "unresolved merge-conflict marker (start)"@ != "unresolved merge-conflict marker (end)"@,
        "unresolved merge-conflict marker (separator)"@ != "unresolved merge-conflict marker (end)"@,
{
    reveal_strlit("unresolved merge-conflict marker (start)");
    reveal_strlit("unresolved merge-conflict marker (separator)");
    reveal_strlit("unresolved merge-conflict marker (end)");
    assert("unresolved merge-conflict marker (start)"@[35] != "unresolved merge-conflict marker (separator)"@[35]);
    assert("unresolved merge-conflict marker (start)"@[35] != "unresolved merge-conflict marker (end)"@[35]);
    assert("unresolved merge-conflict marker (separator)"@[35] != "unresolved merge-conflict marker (end)"@[35]);
}

proof fn lemma_marker_line_bytes(l: Seq<u8>, c: u8)
    ensures
        crate::checks::conflict::is_marker_line(l, c) <==> (l == seven(c) || starts_with(l, seven(c).push(32u8))),
        crate::checks::conflict::is_separator_line(l) <==> l == seven(61u8),
{
    let p = seven(c).push(32u8);
    if crate::checks::conflict::is_marker_line(l, c) {
        if l.len() == 7 {
            assert(l =~= seven(c));
        } else {
            assert(l.take(8) =~= p);
        }
    }
    if l == seven(c) {
        assert(l[0] == c && l[1] == c && l[2] == c && l[3] == c && l[4] == c && l[5] == c && l[6] == c);
    }
    if starts_with(l, p) {
        assert forall|i: int| 0 <= i < 8 implies l[i] == p[i] by {
            assert(l.take(8)[i] == l[i]);
        }
    }
    if crate::checks::conflict::is_separator_line(l) {
        assert(l =~= seven(61u8));
    }
}

/// The merge-conflict check reports a line exactly when the line is `<<<<<<<` or
/// begins with `<<<<<<< ` (a start marker), is exactly `=======` (a separator), or is
/// `>>>>>>>` or begins with `>>>>>>> ` (an end marker). Each finding is an error at
/// column 1 of its line, of the rule `merge-conflict`, and its message names the kind
/// of marker: so a line of more or fewer than seven `=` is never reported.
pub proof fn lemma_conflict_reports_marker_lines(path: Seq<u8>, b: Seq<u8>)
    ensures
        forall|k: int|
            0 <= k < lines(b).len() ==> (reported_on(conflict_findings(path, b), k + 1) <==> ({
                let l = #[trigger] lines(b)[k];
                ||| l == seven(60u8)
                ||| starts_with(l, seven(60u8).push(32u8))
                ||| l == seven(61u8)
                ||| l == seven(62u8)
                ||| starts_with(l, seven(62u8).push(32u8))
            })),
        forall|i: int|
            #![trigger conflict_findings(path, b)[i]]
            0 <= i < conflict_findings(path, b).len() ==> {
                let d = conflict_findings(path, b)[i];
                let l = lines(b)[d.line - 1];
                &&& 1 <= d.line <= lines(b).len()
                &&& d.file == path
                &&& d.column == 1
                &&& d.severity == Severity::Error
                &&& d.rule == "merge-conflict"@
                &&& d.suggestion is None
                &&& (d.message == "unresolved merge-conflict marker (start)"@ <==> (l == seven(60u8)
                    || starts_with(l, seven(60u8).push(32u8))))
                &&& (d.message == "unresolved merge-conflict marker (separator)"@ <==> l == seven(61u8))
                &&& (d.message == "unresolved merge-conflict marker (end)"@ <==> (l == seven(62u8)
                    || starts_with(l, seven(62u8).push(32u8))))
            },
{
    let f = |l: Seq<u8>, n: int| conflict_finding(path, l, n);
    lemma_findings_by_line_members(lines(b), f);
    lemma_conflict_messages_differ();
    assert forall|l: Seq<u8>| #![trigger conflict_message(l)] true implies {
        &&& (conflict_message(l) == Some("unresolved merge-conflict marker (start)"@) <==> (l == seven(60u8)
            || starts_with(l, seven(60u8).push(32u8))))
        &&& (conflict_message(l) == Some("unresolved merge-conflict marker (separator)"@) <==> l == seven(61u8))
        &&& (conflict_message(l) == Some("unresolved merge-conflict marker (end)"@) <==> (l == seven(62u8)
            || starts_with(l, seven(62u8).push(32u8))))
        &&& (conflict_message(l) is Some <==> (l == seven(60u8) || starts_with(l, seven(60u8).push(32u8)) || l
            == seven(61u8) || l == seven(62u8) || starts_with(l, seven(62u8).push(32u8))))
    } by {
        lemma_marker_line_bytes(l, 60u8);
        lemma_marker_line_bytes(l, 62u8);
        if l.len() > 0 {
            if l == seven(60u8) || starts_with(l, seven(60u8).push(32u8)) {
                assert(l[0] == 60u8) by {
                    if l != seven(60u8) {
                        assert(l.take(8)[0] == l[0]);
                    }
                }
            }
            if l == seven(62u8) || starts_with(l, seven(62u8).push(32u8)) {
                assert(l[0] == 62u8) by {
                    if l != seven(62u8) {
                        assert(l.take(8)[0] == l[0]);
                    }
                }
            }
        }
        if l == seven(61u8) {
            assert(l[0] == 61u8);
        }
    }
    let cf = conflict_findings(path, b);
    assert forall|k: int| 0 <= k < lines(b).len() implies (reported_on(cf, k + 1) <==> ({
        let l = #[trigger] lines(b)[k];
        ||| l == seven(60u8)
        ||| starts_with(l, seven(60u8).push(32u8))
        ||| l == seven(61u8)
        ||| l == seven(62u8)
        ||| starts_with(l, seven(62u8).push(32u8))
    })) by {
        assert(f(lines(b)[k], k + 1).len() == 1 <==> conflict_message(lines(b)[k]) is Some);
    }
    assert forall|i: int| #![trigger cf[i]] 0 <= i < cf.len() implies {
        let d = cf[i];
        let l = lines(b)[d.line - 1];
        &&& 1 <= d.line <= lines(b).len()
        &&& d.file == path
        &&& d.column == 1
        &&& d.severity == Severity::Error
        &&& d.rule == "merge-conflict"@
        &&& d.suggestion is None
        &&& (d.message == "unresolved merge-conflict marker (start)"@ <==> (l == seven(60u8) || starts_with(
            l,
            seven(60u8).push(32u8),
        )))
        &&& (d.message == "unresolved merge-conflict marker (separator)"@ <==> l == seven(61u8))
        &&& (d.message == "unresolved merge-conflict marker (end)"@ <==> (l == seven(62u8) || starts_with(
            l,
            seven(62u8).push(32u8),
        )))
    } by {
        let d = cf[i];
        let l = lines(b)[d.line - 1];
        assert(d == f(l, d.line)[0]);
        assert(conflict_message(l) is Some);
    }
}

/// The trailing-whitespace check reports a line exactly when its last byte is a
/// space or a tab; nothing else counts as a blank. Each finding is a warning of the
/// rule `trailing-whitespace`, and its column is that of the first of the trailing
/// blanks: every byte from there to the end of the line is a space or a tab, and the
/// byte just before it, if any, is neither.
pub proof fn lemma_trailing_reports_blank_ends(path: Seq<u8>, b: Seq<u8>)
    ensures
        forall|k: int|
            0 <= k < lines(b).len() ==> (reported_on(trailing_findings(path, b), k + 1) <==> ({
                let l = #[trigger] lines(b)[k];
                l.len() > 0 && (l.last() == 32u8 || l.last() == 9u8)
            })),
        forall|i: int|
            #![trigger trailing_findings(path, b)[i]]
            0 <= i < trailing_findings(path, b).len() ==> {
                let d = trailing_findings(path, b)[i];
                let l = lines(b)[d.line - 1];
                &&& 1 <= d.line <= lines(b).len()
                &&& d.file == path
                &&& d.severity == Severity::Warning
                &&& d.rule == "trailing-whitespace"@
                &&& d.message == "trailing whitespace"@
                &&& d.suggestion is None
                &&& 1 <= d.column <= l.len()
                &&& forall|j: int| d.column - 1 <= j < l.len() ==> (l[j] == 32u8 || l[j] == 9u8)
                &&& (d.column == 1 || !(l[d.column - 2] == 32u8 || l[d.column - 2] == 9u8))
            },
{
    let f = |l: Seq<u8>, n: int| trailing_finding(path, l, n);
    lemma_findings_by_line_members(lines(b), f);
    let tf = trailing_findings(path, b);
    assert forall|k: int| 0 <= k < lines(b).len() implies (reported_on(tf, k + 1) <==> ({
        let l = #[trigger] lines(b)[k];
        l.len() > 0 && (l.last() == 32u8 || l.last() == 9u8)
    })) by {
        let l = lines(b)[k];
        lemma_trimmed_len(l);
        if l.len() > 0 && (l.last() == 32u8 || l.last() == 9u8) {
            assert(trimmed_len(l) < l.len()) by {
                if trimmed_len(l) == l.len() {
                    assert(!crate::checks::trailing_whitespace::is_blank(l[l.len() - 1]));
                }
            }
        }
        if trimmed_len(l) < l.len() {
            assert(crate::checks::trailing_whitespace::is_blank(l[l.len() - 1]));
        }
        assert(f(l, k + 1).len() == 1 <==> trimmed_len(l) < l.len());
    }
    assert forall|i: int| #![trigger tf[i]] 0 <= i < tf.len() implies {
        let d = tf[i];
        let l = lines(b)[d.line - 1];
        &&& 1 <= d.line <= lines(b).len()
        &&& d.file == path
        &&& d.severity == Severity::Warning
        &&& d.rule == "trailing-whitespace"@
        &&& d.message == "trailing whitespace"@
        &&& d.suggestion is None
        &&& 1 <= d.column <= l.len()
        &&& forall|j: int| d.column - 1 <= j < l.len() ==> (l[j] == 32u8 || l[j] == 9u8)
        &&& (d.column == 1 || !(l[d.column - 2] == 32u8 || l[d.column - 2] == 9u8))
    } by {
        let d = tf[i];
        let l = lines(b)[d.line - 1];
        lemma_trimmed_len(l);
        assert(d == f(l, d.line)[0]);
        assert(trimmed_len(l) < l.len());
        assert forall|j: int| d.column - 1 <= j < l.len() implies (l[j] == 32u8 || l[j] == 9u8) by {
            assert(crate::checks::trailing_whitespace::is_blank(l[j]));
        }
        if d.column != 1 {
            assert(!crate::checks::trailing_whitespace::is_blank(l[trimmed_len(l) - 1]));
        }
    }
}

/// Whether a byte is `'\n'`, as a function value.
pub open spec fn newline_byte() -> spec_fn(u8) -> bool {
    |c: u8| c == 10u8
}

proof fn lemma_count_newlines_filter(p: Seq<u8>)
    ensures
        count_newlines(p) == p.filter(newline_byte()).len(),
    decreases p.len(),
{
    reveal(Seq::filter);
    if p.len() > 0 {
        lemma_count_newlines_filter(p.drop_last());
    }
}

proof fn lemma_line_start_bytes(p: Seq<u8>)
    ensures
        0 <= line_start(p) <= p.len(),
        line_start(p) == 0 || p[line_start(p) - 1] == 10u8,
        forall|j: int| line_start(p) <= j < p.len() ==> p[j] != 10u8,
    decreases p.len(),
{
    if p.len() > 0 {
        lemma_line_start_bytes(p.drop_last());
        assert forall|j: int| line_start(p) <= j < p.len() implies p[j] != 10u8 by {
            if j < p.len() - 1 {
                assert(p.drop_last()[j] == p[j]);
            }
        }
        if p.last() != 10u8 && line_start(p) > 0 {
            assert(p.drop_last()[line_start(p) - 1] == p[line_start(p) - 1]);
        }
    }
}

/// The line of a byte offset (clamped to the end of the text) is one more than the
/// number of `'\n'` bytes before it, and no other byte counts: a `'\r'` never
/// changes the line. Its column counts from the byte after the last `'\n'` before
/// the offset (or from the start of the text), so no `'\n'` lies between the start of
/// the line and the offset.
pub proof fn lemma_line_col_counts_newlines(b: Seq<u8>, offset: int)
    requires
        offset >= 0,
    ensures
        ({
            let o = if offset < b.len() {
                offset
            } else {
                b.len() as int
            };
            let s = o + 1 - line_col(b, offset).1;
            &&& line_col(b, offset).0 == b.take(o).filter(newline_byte()).len() + 1
            &&& 0 <= s <= o
            &&& (s == 0 || b[s - 1] == 10u8)
            &&& forall|j: int| s <= j < o ==> b[j] != 10u8
        }),
{
    let o = if offset < b.len() {
        offset
    } else {
        b.len() as int
    };
    let p = b.take(o);
    lemma_count_newlines_filter(p);
    lemma_line_start_bytes(p);
    let s = line_start(p);
    if s > 0 {
        assert(p[s - 1] == b[s - 1]);
    }
    assert forall|j: int| s <= j < o implies b[j] != 10u8 by {
        assert(p[j] == b[j]);
    }
}

/// A text has no lines when it is empty.
pub proof fn lemma_lines_of_empty()
    ensures
        lines(Seq::<u8>::empty()) == Seq::<Seq<u8>>::empty(),
{
}

/// Text with no `'\n'` is one line, kept whole (a `'\r'` at its end included).
pub proof fn lemma_lines_without_newline(l: Seq<u8>)
    requires
        l.len() > 0,
        forall|i: int| 0 <= i < l.len() ==> l[i] != 10u8,
    ensures
        lines(l) == seq![l],
{
    lemma_first_index_of_is(l, 10u8, l.len() as int);
}

/// A text that starts with `l` and a `'\n'`, where `l` holds no `'\n'`, has `l` as
/// its first line, less one `'\r'` just before the `'\n'`; its other lines are
/// those of the rest of the text.
pub proof fn lemma_lines_split_at_newline(l: Seq<u8>, rest: Seq<u8>)
    requires
        forall|i: int| 0 <= i < l.len() ==> l[i] != 10u8,
    ensures
        lines(l + seq![10u8] + rest) == seq![
            if l.len() > 0 && l.last() == 13u8 {
                l.drop_last()
            } else {
                l
            },
        ] + lines(rest),
{
    let b = l + seq![10u8] + rest;
    assert forall|i: int| 0 <= i < l.len() implies b[i] != 10u8 by {
        assert(b[i] == l[i]);
    }
    assert(b[l.len() as int] == 10u8);
    lemma_first_index_of_is(b, 10u8, l.len() as int);
    assert(b.take(l.len() as int) =~= l);
    assert(b.skip(l.len() + 1int) =~= rest);
}

/// Bytes are compared by their first difference: where `a` and `b` agree before
/// index `i`, a smaller byte of `a` at `i`, or `a` ending at `i` while `b` goes on,
/// puts `a` first; the other way round puts `b` first.
pub proof fn lemma_byte_order_first_difference(a: Seq<u8>, b: Seq<u8>, i: int)
    requires
        0 <= i <= a.len(),
        i <= b.len(),
        a.take(i) == b.take(i),
    ensures
        i < a.len() && i < b.len() && a[i] < b[i] ==> lex(a, b, byte_order()) == -1,
        i < a.len() && i < b.len() && a[i] > b[i] ==> lex(a, b, byte_order()) == 1,
        i == a.len() && i < b.len() ==> lex(a, b, byte_order()) == -1,
        i < a.len() && i == b.len() ==> lex(a, b, byte_order()) == 1,
        i == a.len() && i == b.len() ==> lex(a, b, byte_order()) == 0,
    decreases i,
{
    if i > 0 {
        assert(a[0] == a.take(i)[0] && b[0] == b.take(i)[0]);
        assert(a.skip(1).take(i - 1) =~= a.take(i).skip(1));
        assert(b.skip(1).take(i - 1) =~= b.take(i).skip(1));
        lemma_byte_order_first_difference(a.skip(1), b.skip(1), i - 1);
    } else {
        if a.len() == 0 && b.len() == 0 {
        }
    }
}

proof fn lemma_body_parts_trailing_slash(r: Seq<u8>)
    ensures
        body_parts(r + seq![47u8]) == body_parts(r),
    decreases r.len(),
{
    let t = r + seq![47u8];
    crate::text::lemma_first_index_of(r, 47u8);
    let e = crate::text::first_index_of(r, 47u8);
    assert forall|i: int| 0 <= i < e implies t[i] != 47u8 by {
        assert(t[i] == r[i]);
    }
    if e < r.len() {
        assert(t[e] == r[e]);
        crate::text::lemma_first_index_of_is(t, 47u8, e);
        assert(t.take(e) =~= r.take(e));
        assert(t.skip(e + 1) =~= r.skip(e + 1) + seq![47u8]);
        lemma_body_parts_trailing_slash(r.skip(e + 1));
        assert(body_parts(t) == crate::paths::segment_part(t.take(e)) + body_parts(t.skip(e + 1)));
        assert(body_parts(r) == crate::paths::segment_part(r.take(e)) + body_parts(r.skip(e + 1)));
    } else {
        assert(t[r.len() as int] == 47u8);
        crate::text::lemma_first_index_of_is(t, 47u8, r.len() as int);
        assert(t.take(r.len() as int) =~= r);
        assert(t.skip(r.len() + 1int) =~= Seq::<u8>::empty());
        assert(body_parts(t) == crate::paths::segment_part(r) + body_parts(Seq::<u8>::empty()));
        assert(crate::paths::segment_part(r) + Seq::<crate::paths::PathPart>::empty() =~= crate::paths::segment_part(
            r,
        ));
        if r.len() == 0 {
            assert(crate::paths::segment_part(r) =~= Seq::<crate::paths::PathPart>::empty());
        }
    }
}

/// A `'/'` at the end of a non-empty path changes nothing in how it is ordered: the
/// path `p/` compares equal to `p`, and the same against any other path.
pub proof fn lemma_path_order_trailing_slash(p: Seq<u8>, q: Seq<u8>)
    requires
        p.len() > 0,
    ensures
        path_order(p + seq![47u8], p) == 0,
        path_order(p + seq![47u8], q) == path_order(p, q),
{
    let t = p + seq![47u8];
    assert(t[0] == p[0]);
    assert(t.skip(1) =~= p.skip(1) + seq![47u8]);
    lemma_body_parts_trailing_slash(p.skip(1));
    lemma_body_parts_trailing_slash(p);
    if p.len() > 1 {
        assert(t[1] == p[1]);
    }
    assert(path_parts(t) == path_parts(p));
    crate::paths::lemma_part_order();
    crate::order::lemma_lex_zero(path_parts(t), path_parts(p), crate::paths::part_order());
}

/// Two paths of one plain name each (no `'/'`, neither `"."` nor `".."`, not empty)
/// are ordered by their bytes.
pub proof fn lemma_path_order_plain_names(a: Seq<u8>, b: Seq<u8>)
    requires
        a.len() > 0,
        b.len() > 0,
        forall|i: int| 0 <= i < a.len() ==> a[i] != 47u8,
        forall|i: int| 0 <= i < b.len() ==> b[i] != 47u8,
        a != seq![46u8],
        a != seq![46u8, 46u8],
        b != seq![46u8],
        b != seq![46u8, 46u8],
    ensures
        path_order(a, b) == lex(a, b, byte_order()),
{
    if a.len() == 1 && a[0] == 46u8 {
        assert(a =~= seq![46u8]);
    }
    if b.len() == 1 && b[0] == 46u8 {
        assert(b =~= seq![46u8]);
    }
    crate::text::lemma_first_index_of_is(a, 47u8, a.len() as int);
    crate::text::lemma_first_index_of_is(b, 47u8, b.len() as int);
    assert(path_parts(a) == seq![crate::paths::PathPart::Normal(a)]);
    assert(path_parts(b) == seq![crate::paths::PathPart::Normal(b)]);
    let pa = path_parts(a);
    let pb = path_parts(b);
    assert(pa.skip(1) =~= Seq::<crate::paths::PathPart>::empty());
    assert(pb.skip(1) =~= Seq::<crate::paths::PathPart>::empty());
    assert((crate::paths::part_order())(pa[0], pb[0]) == lex(a, b, byte_order()));
    assert(lex(pa.skip(1), pb.skip(1), crate::paths::part_order()) == 0);
}

/// The name that decides whether a path is a lock file is its last component: the
/// bytes after its last `'/'` (the whole path when it has none).
pub proof fn lemma_file_name_is_last_component(b: Seq<u8>)
    ensures
        ({
            let n = crate::skip::file_name(b);
            let s = b.len() - n.len();
            &&& 0 <= s <= b.len()
            &&& n == b.skip(s)
            &&& s == 0 || b[s - 1] == 47u8
            &&& forall|i: int| 0 <= i < n.len() ==> n[i] != 47u8
        }),
    decreases b.len(),
{
    crate::skip::lemma_name_start(b);
    if b.len() > 0 {
        crate::skip::lemma_name_start(b.drop_last());
        lemma_file_name_is_last_component(b.drop_last());
        if b.last() != 47u8 {
            let m = crate::skip::file_name(b.drop_last());
            let n = crate::skip::file_name(b);
            assert(n =~= m.push(b.last()));
            let s = b.len() - n.len();
            if s > 0 {
                assert(b.drop_last()[s - 1] == b[s - 1]);
            }
            assert forall|i: int| 0 <= i < n.len() implies n[i] != 47u8 by {
                if i < m.len() {
                    assert(n[i] == m[i]);
                }
            }
        } else {
            assert(crate::skip::file_name(b) =~= Seq::<u8>::empty());
        }
    }
}

/// A file with a NUL byte among its first 8192 bytes is taken for binary and gets no
/// finding, whatever else it holds; so does a file that is not UTF-8. A NUL further
/// on does not make a file binary: a UTF-8 file with no NUL in its first 8192 bytes
/// gets the findings of the merge-conflict and trailing-whitespace checks first.
pub proof fn lemma_binary_and_non_utf8_files_skipped(path: Seq<u8>, b: Seq<u8>)
    ensures
        (exists|i: int| 0 <= i < b.len() && i < 8192 && b[i] == 0u8) ==> crate::checks::file_findings(path, b)
            == Seq::<DiagnosticView>::empty(),
        !vstd::utf8::valid_utf8(b) ==> crate::checks::file_findings(path, b) == Seq::<DiagnosticView>::empty(),
        (forall|i: int| 0 <= i < b.len() && i < 8192 ==> b[i] != 0u8) && vstd::utf8::valid_utf8(b) ==> (
        conflict_findings(path, b) + trailing_findings(path, b)).is_prefix_of(
            crate::checks::file_findings(path, b),
        ),
{
    let f = crate::checks::file_findings(path, b);
    let x = conflict_findings(path, b) + trailing_findings(path, b);
    if (forall|i: int| 0 <= i < b.len() && i < 8192 ==> b[i] != 0u8) && vstd::utf8::valid_utf8(b) {
        assert(!crate::checks::looks_binary(b));
        assert(f.take(x.len() as int) =~= x);
    }
}

} // verus!
