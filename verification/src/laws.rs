//! Properties of the library as a whole, proved over the specifications that the
//! checks, the sort and the report state.
use vstd::prelude::*;

use crate::checks::conflict::{conflict_finding, conflict_findings, conflict_message};
use crate::checks::trailing_whitespace::{lemma_trimmed_len, trailing_finding, trailing_findings};
use crate::checks::typos_check::{line_col, line_start, typo_finding, typo_findings, TypoHitView};
use crate::checks::{file_findings, files_findings, looks_binary, SourceFile};
use crate::diagnostic::{DiagnosticView, Severity};
use crate::output::{count_severity, decimal, finding_text, findings_text, human_report, location, painted, Color};
use crate::order::{byte_order, lex};
use crate::paths::{lemma_part_order, part_order, path_order, path_parts, PathPart};
use crate::sort::{
    diag_order, is_stable_sort, sorted_diags, lemma_stable_sort_relabel, lemma_stable_sort_unique, stable_permutation,
};
use crate::text::{findings_by_line, lines};

verus! {

/// A finding of `path` is sound when it names the file, is on a line and column
/// numbered from 1, and is an error exactly when it reports a merge-conflict marker.
pub open spec fn sound_finding(path: Seq<u8>, d: DiagnosticView) -> bool {
    &&& d.file == path
    &&& well_formed_finding(d)
}

/// A finding is on a line and column numbered from 1, and is an error exactly when
/// it reports a merge-conflict marker.
pub open spec fn well_formed_finding(d: DiagnosticView) -> bool {
    &&& d.line >= 1
    &&& d.column >= 1
    &&& (d.severity == Severity::Error <==> d.rule == "merge-conflict"@)
}

proof fn lemma_rules_differ()
    ensures
        "typos"@ != "merge-conflict"@,
        "trailing-whitespace"@ != "merge-conflict"@,
{
    reveal_strlit("typos");
    reveal_strlit("merge-conflict");
    reveal_strlit("trailing-whitespace");
    assert("typos"@[0] != "merge-conflict"@[0]);
    assert("trailing-whitespace"@[0] != "merge-conflict"@[0]);
}

proof fn lemma_findings_by_line_sound(
    path: Seq<u8>,
    ls: Seq<Seq<u8>>,
    f: spec_fn(Seq<u8>, int) -> Seq<DiagnosticView>,
)
    requires
        forall|l: Seq<u8>, n: int, i: int|
            n >= 1 && 0 <= i < f(l, n).len() ==> sound_finding(path, #[trigger] f(l, n)[i]),
    ensures
        forall|i: int|
            0 <= i < findings_by_line(ls, f).len() ==> sound_finding(path, #[trigger] findings_by_line(ls, f)[i]),
    decreases ls.len(),
{
    if ls.len() > 0 {
        lemma_findings_by_line_sound(path, ls.drop_last(), f);
        let a = findings_by_line(ls.drop_last(), f);
        let b = f(ls.last(), ls.len() as int);
        assert forall|i: int| 0 <= i < findings_by_line(ls, f).len() implies sound_finding(
            path,
            #[trigger] findings_by_line(ls, f)[i],
        ) by {
            if i < a.len() {
                assert(findings_by_line(ls, f)[i] == a[i]);
            } else {
                assert(findings_by_line(ls, f)[i] == b[i - a.len()]);
            }
        }
    }
}

proof fn lemma_line_start_le(b: Seq<u8>)
    ensures
        0 <= line_start(b) <= b.len(),
    decreases b.len(),
{
    if b.len() > 0 {
        lemma_line_start_le(b.drop_last());
    }
}

proof fn lemma_count_newlines_nonneg(b: Seq<u8>)
    ensures
        crate::checks::typos_check::count_newlines(b) >= 0,
    decreases b.len(),
{
    if b.len() > 0 {
        lemma_count_newlines_nonneg(b.drop_last());
    }
}

/// Line and column of an offset are both at least 1.
pub proof fn lemma_line_col_positive(b: Seq<u8>, offset: int)
    requires
        offset >= 0,
    ensures
        line_col(b, offset).0 >= 1,
        line_col(b, offset).1 >= 1,
{
    let o = if offset < b.len() {
        offset
    } else {
        b.len() as int
    };
    lemma_line_start_le(b.take(o));
    lemma_count_newlines_nonneg(b.take(o));
}

/// An offset past the end of a text has the line and column of the end of the text.
pub proof fn lemma_line_col_clamped(b: Seq<u8>, offset: int)
    requires
        offset >= b.len(),
    ensures
        line_col(b, offset) == line_col(b, b.len() as int),
{
}

proof fn lemma_typo_findings_sound(path: Seq<u8>, b: Seq<u8>, hits: Seq<TypoHitView>)
    ensures
        forall|i: int|
            0 <= i < typo_findings(path, b, hits).len() ==> sound_finding(
                path,
                #[trigger] typo_findings(path, b, hits)[i],
            ),
    decreases hits.len(),
{
    if hits.len() > 0 {
        lemma_typo_findings_sound(path, b, hits.drop_last());
        lemma_line_col_positive(b, hits.last().byte_offset as int);
        lemma_rules_differ();
        let a = typo_findings(path, b, hits.drop_last());
        let c = typo_finding(path, b, hits.last());
        assert forall|i: int| 0 <= i < typo_findings(path, b, hits).len() implies sound_finding(
            path,
            #[trigger] typo_findings(path, b, hits)[i],
        ) by {
            if i < a.len() {
                assert(typo_findings(path, b, hits)[i] == a[i]);
            } else {
                assert(typo_findings(path, b, hits)[i] == c[i - a.len()]);
            }
        }
    }
}

/// Every finding of the checks on a file names that file, has a line and a column
/// counted from 1, and is an error exactly when it reports a merge-conflict marker:
/// trailing whitespace and misspellings are only ever warnings.
pub proof fn lemma_file_findings_sound(path: Seq<u8>, b: Seq<u8>)
    ensures
        forall|i: int|
            0 <= i < file_findings(path, b).len() ==> sound_finding(
                path,
                #[trigger] file_findings(path, b)[i],
            ),
{
    if !(looks_binary(b) || !vstd::utf8::valid_utf8(b)) {
        lemma_rules_differ();
        let fc = |l: Seq<u8>, n: int| conflict_finding(path, l, n);
        let ft = |l: Seq<u8>, n: int| trailing_finding(path, l, n);
        assert forall|l: Seq<u8>, n: int, i: int| n >= 1 && 0 <= i < fc(l, n).len() implies sound_finding(
            path,
            #[trigger] fc(l, n)[i],
        ) by {
            if conflict_message(l) is Some {
            }
        }
        assert forall|l: Seq<u8>, n: int, i: int| n >= 1 && 0 <= i < ft(l, n).len() implies sound_finding(
            path,
            #[trigger] ft(l, n)[i],
        ) by {
            lemma_trimmed_len(l);
        }
        lemma_findings_by_line_sound(path, lines(b), fc);
        lemma_findings_by_line_sound(path, lines(b), ft);
        let words = crate::checks::typos_check::found_typos(vstd::utf8::decode_utf8(b));
        lemma_typo_findings_sound(path, b, words);
        let x = conflict_findings(path, b);
        let y = trailing_findings(path, b);
        let z = typo_findings(path, b, words);
        assert forall|i: int| 0 <= i < file_findings(path, b).len() implies sound_finding(
            path,
            #[trigger] file_findings(path, b)[i],
        ) by {
            if i < x.len() {
                assert(file_findings(path, b)[i] == x[i]);
            } else if i < x.len() + y.len() {
                assert(file_findings(path, b)[i] == y[i - x.len()]);
            } else {
                assert(file_findings(path, b)[i] == z[i - x.len() - y.len()]);
            }
        }
    }
}

/// Every finding of a set of files is well formed: in particular, it is an error
/// exactly when it reports a merge-conflict marker.
pub proof fn lemma_files_findings_well_formed(files: Seq<SourceFile>)
    ensures
        forall|i: int|
            0 <= i < files_findings(files).len() ==> well_formed_finding(
                #[trigger] files_findings(files)[i],
            ),
    decreases files.len(),
{
    if files.len() > 0 {
        lemma_files_findings_well_formed(files.drop_last());
        let f = files.last();
        lemma_file_findings_sound(f.path@, f.bytes@);
        let a = files_findings(files.drop_last());
        let c = file_findings(f.path@, f.bytes@);
        assert forall|i: int| 0 <= i < files_findings(files).len() implies well_formed_finding(
            #[trigger] files_findings(files)[i],
        ) by {
            if i < a.len() {
                assert(files_findings(files)[i] == a[i]);
            } else {
                assert(files_findings(files)[i] == c[i - a.len()]);
                assert(sound_finding(f.path@, c[i - a.len()]));
            }
        }
    }
}

/// The report of a set of files (the findings of all files, stably sorted, as `run`
/// returns it) has an error exactly when it reports a merge-conflict marker; so the
/// error exit depends on conflict markers alone, never on warnings.
pub proof fn lemma_report_errors_are_conflicts(files: Seq<SourceFile>, report: Seq<DiagnosticView>)
    requires
        is_stable_sort(report, files_findings(files)),
    ensures
        forall|i: int| 0 <= i < report.len() ==> well_formed_finding(#[trigger] report[i]),
        (exists|i: int| 0 <= i < report.len() && (#[trigger] report[i]).severity == Severity::Error)
            <==> (exists|i: int| 0 <= i < report.len() && (#[trigger] report[i]).rule == "merge-conflict"@),
{
    lemma_files_findings_well_formed(files);
    let all = files_findings(files);
    let perm = choose|perm: Seq<int>| stable_permutation(report, all, perm);
    assert forall|i: int| 0 <= i < report.len() implies well_formed_finding(#[trigger] report[i]) by {
        assert(report[i] == all[perm[i]]);
        assert(well_formed_finding(all[perm[i]]));
    }
}

/// In a report, the numbers of errors and of warnings add up to the number of findings.
pub proof fn lemma_counts_add_up(ds: Seq<DiagnosticView>)
    ensures
        count_severity(ds, Severity::Error) + count_severity(ds, Severity::Warning) == ds.len(),
    decreases ds.len(),
{
    if ds.len() > 0 {
        lemma_counts_add_up(ds.drop_last());
    }
}

/// The findings of one file.
pub open spec fn file_block(f: SourceFile) -> Seq<DiagnosticView> {
    file_findings(f.path@, f.bytes@)
}

/// Where the findings of file `i` begin among the findings of all files.
pub open spec fn block_offset(files: Seq<SourceFile>, i: int) -> int {
    files_findings(files.take(i)).len() as int
}

/// Which file, and which of its findings, stands at index `x` among the findings of
/// all files.
pub open spec fn locate(files: Seq<SourceFile>, x: int) -> (int, int)
    decreases files.len(),
{
    if files.len() == 0 {
        (0, x)
    } else {
        let pre = files_findings(files.drop_last()).len() as int;
        if x < pre {
            locate(files.drop_last(), x)
        } else {
            (files.len() - 1, x - pre)
        }
    }
}

proof fn lemma_findings_step(files: Seq<SourceFile>, i: int)
    requires
        0 <= i < files.len(),
    ensures
        files_findings(files.take(i + 1)) == files_findings(files.take(i)) + file_block(files[i]),
{
    let t = files.take(i + 1);
    assert(t.drop_last() =~= files.take(i));
    assert(t.last() == files[i]);
}

proof fn lemma_findings_prefix(files: Seq<SourceFile>, i: int)
    requires
        0 <= i <= files.len(),
    ensures
        files_findings(files.take(i)).len() <= files_findings(files).len(),
        forall|x: int|
            0 <= x < files_findings(files.take(i)).len() ==> #[trigger] files_findings(files.take(i))[x]
                == files_findings(files)[x],
    decreases files.len(),
{
    if i == files.len() {
        assert(files.take(i) =~= files);
    } else {
        assert(files.take(i) =~= files.drop_last().take(i));
        lemma_findings_prefix(files.drop_last(), i);
    }
}

proof fn lemma_block_index(files: Seq<SourceFile>, i: int, t: int)
    requires
        0 <= i < files.len(),
        0 <= t < file_block(files[i]).len(),
    ensures
        block_offset(files, i) + t < files_findings(files).len(),
        files_findings(files)[block_offset(files, i) + t] == file_block(files[i])[t],
{
    lemma_findings_step(files, i);
    lemma_findings_prefix(files, i + 1);
    let x = block_offset(files, i) + t;
    assert(files_findings(files.take(i + 1))[x] == file_block(files[i])[t]);
}

proof fn lemma_blocks_apart(files: Seq<SourceFile>, i: int, j: int)
    requires
        0 <= i < j <= files.len(),
    ensures
        block_offset(files, i) + file_block(files[i]).len() <= block_offset(files, j),
{
    lemma_findings_step(files, i);
    let fj = files.take(j);
    lemma_findings_prefix(fj, i + 1);
    assert(fj.take(i + 1) =~= files.take(i + 1));
}

proof fn lemma_locate(files: Seq<SourceFile>, x: int)
    requires
        0 <= x < files_findings(files).len(),
    ensures
        0 <= locate(files, x).0 < files.len(),
        0 <= locate(files, x).1 < file_block(files[locate(files, x).0]).len(),
        x == block_offset(files, locate(files, x).0) + locate(files, x).1,
    decreases files.len(),
{
    let n = files.len();
    let pre = files_findings(files.drop_last()).len() as int;
    if x < pre {
        lemma_locate(files.drop_last(), x);
        let i = locate(files.drop_last(), x).0;
        assert(files.drop_last().take(i) =~= files.take(i));
        assert(files.drop_last()[i] == files[i]);
    } else {
        assert(files.take(n - 1) =~= files.drop_last());
        assert(files.last() == files[n - 1]);
    }
}

/// A one-to-one map from `0..a` into `0..b` needs `a <= b`.
proof fn lemma_injection_le(a: int, b: int, f: spec_fn(int) -> int)
    requires
        0 <= a,
        0 <= b,
        forall|x: int| 0 <= x < a ==> 0 <= #[trigger] f(x) < b,
        forall|x: int, y: int| 0 <= x < y < a ==> #[trigger] f(x) != #[trigger] f(y),
    ensures
        a <= b,
{
    broadcast use vstd::set::group_set_axioms;

    let s = Seq::new(a as nat, |x: int| f(x));
    assert(s.no_duplicates()) by {
        assert forall|i: int, j: int| 0 <= i < s.len() && 0 <= j < s.len() && i != j implies s[i] != s[j] by {
            if i < j {
                assert(f(i) != f(j));
            } else {
                assert(f(j) != f(i));
            }
        }
    }
    s.unique_seq_to_set();
    let range = vstd::set_lib::set_int_range(0, b);
    vstd::set_lib::lemma_int_range(0, b);
    assert(s.to_set().subset_of(range)) by {
        assert forall|y: int| s.to_set().contains(y) implies range.contains(y) by {
            let k = choose|k: int| 0 <= k < s.len() && s[k] == y;
            assert(f(k) == y);
        }
    }
    vstd::set_lib::lemma_len_subset(s.to_set(), range);
}

/// Findings of different files of a set whose paths all compare unequal never
/// compare equal in report order.
proof fn lemma_tie_same_file(files: Seq<SourceFile>, i: int, t: int, i2: int, t2: int)
    requires
        forall|a: int, b: int|
            0 <= a < b < files.len() ==> path_order(
                #[trigger] files[a].path@,
                #[trigger] files[b].path@,
            ) != 0,
        0 <= i < files.len(),
        0 <= i2 < files.len(),
        0 <= t < file_block(files[i]).len(),
        0 <= t2 < file_block(files[i2]).len(),
        diag_order(file_block(files[i])[t], file_block(files[i2])[t2]) == 0,
    ensures
        i == i2,
{
    lemma_file_findings_sound(files[i].path@, files[i].bytes@);
    lemma_file_findings_sound(files[i2].path@, files[i2].bytes@);
    assert(sound_finding(files[i].path@, file_block(files[i])[t]));
    assert(sound_finding(files[i2].path@, file_block(files[i2])[t2]));
    let a = files[i].path@;
    let b = files[i2].path@;
    assert(path_order(a, b) == 0);
    lemma_part_order();
    let pl = |x: Seq<PathPart>, y: Seq<PathPart>| lex(x, y, part_order());
    assert(pl(path_parts(a), path_parts(b)) == -pl(path_parts(b), path_parts(a)));
    if i < i2 {
        assert(path_order(a, b) != 0);
    } else if i2 < i {
        assert(path_order(b, a) != 0);
    }
}

/// The order of the files does not change the report: when `q` holds the files of
/// `files` in another order (`q[j]` is `files[p[j]]`, with `p` taking each index
/// once) and no two of the files have paths that compare equal, the stable sorts of
/// their findings, which is what `run` returns for each, are the same.
pub proof fn lemma_report_independent_of_file_order(
    files: Seq<SourceFile>,
    q: Seq<SourceFile>,
    p: Seq<int>,
    r1: Seq<DiagnosticView>,
    r2: Seq<DiagnosticView>,
)
    requires
        q.len() == files.len(),
        p.len() == files.len(),
        forall|j: int| 0 <= j < p.len() ==> 0 <= #[trigger] p[j] < files.len() && q[j] == files[p[j]],
        forall|j: int, k: int| 0 <= j < k < p.len() ==> #[trigger] p[j] != #[trigger] p[k],
        forall|a: int, b: int|
            0 <= a < b < files.len() ==> path_order(
                #[trigger] files[a].path@,
                #[trigger] files[b].path@,
            ) != 0,
        is_stable_sort(r1, files_findings(files)),
        is_stable_sort(r2, files_findings(q)),
    ensures
        r1 == r2,
{
    broadcast use vstd::set::group_set_axioms;

    let n = files.len() as int;
    let v1 = files_findings(files);
    let v2 = files_findings(q);
    // Every file is somewhere in `q`.
    assert(p.no_duplicates()) by {
        assert forall|k: int, l: int| 0 <= k < p.len() && 0 <= l < p.len() && k != l implies p[k] != p[l] by {
            if k < l {
                assert(p[k] != p[l]);
            } else {
                assert(p[l] != p[k]);
            }
        }
    }
    p.unique_seq_to_set();
    let range = vstd::set_lib::set_int_range(0, n);
    vstd::set_lib::lemma_int_range(0, n);
    assert(p.to_set().subset_of(range)) by {
        assert forall|y: int| p.to_set().contains(y) implies range.contains(y) by {
            let k = choose|k: int| 0 <= k < p.len() && p[k] == y;
        }
    }
    vstd::seq_lib::seq_to_set_is_finite(p);
    vstd::set_lib::lemma_subset_equality(p.to_set(), range);
    let home = |i: int| choose|j: int| 0 <= j < n && p[j] == i;
    assert forall|i: int| 0 <= i < n implies 0 <= #[trigger] home(i) < n && p[home(i)] == i && q[home(i)]
        == files[i] by {
        assert(range.contains(i));
        assert(p.to_set().contains(i));
    }
    // Where each finding of `files` stands among those of `q`, and the other way.
    let m1 = |x: int| block_offset(q, home(locate(files, x).0)) + locate(files, x).1;
    let m2 = |y: int| block_offset(files, p[locate(q, y).0]) + locate(q, y).1;
    assert forall|x: int| 0 <= x < v1.len() implies 0 <= #[trigger] m1(x) < v2.len() && v2[m1(x)] == v1[x] by {
        lemma_locate(files, x);
        let (i, t) = locate(files, x);
        lemma_block_index(q, home(i), t);
        lemma_block_index(files, i, t);
    }
    assert forall|x: int, y: int| 0 <= x < y < v1.len() implies #[trigger] m1(x) != #[trigger] m1(y) && (
    diag_order(v1[x], v1[y]) == 0 ==> m1(x) < m1(y)) by {
        lemma_locate(files, x);
        lemma_locate(files, y);
        let (i, t) = locate(files, x);
        let (i2, t2) = locate(files, y);
        let j = home(i);
        let j2 = home(i2);
        if j < j2 {
            lemma_blocks_apart(q, j, j2);
        } else if j2 < j {
            lemma_blocks_apart(q, j2, j);
        } else {
            if i < i2 {
                lemma_blocks_apart(files, i, i2);
            } else if i2 < i {
                lemma_blocks_apart(files, i2, i);
            }
        }
        if diag_order(v1[x], v1[y]) == 0 {
            lemma_block_index(files, i, t);
            lemma_block_index(files, i2, t2);
            lemma_tie_same_file(files, i, t, i2, t2);
        }
    }
    assert forall|y: int| 0 <= y < v2.len() implies 0 <= #[trigger] m2(y) < v1.len() by {
        lemma_locate(q, y);
        let (j, t) = locate(q, y);
        lemma_block_index(files, p[j], t);
    }
    assert forall|y: int, z: int| 0 <= y < z < v2.len() implies #[trigger] m2(y) != #[trigger] m2(z) by {
        lemma_locate(q, y);
        lemma_locate(q, z);
        let (j, t) = locate(q, y);
        let (j2, t2) = locate(q, z);
        if p[j] < p[j2] {
            lemma_blocks_apart(files, p[j], p[j2]);
        } else if p[j2] < p[j] {
            lemma_blocks_apart(files, p[j2], p[j]);
        } else {
            if j < j2 {
                assert(p[j] != p[j2]);
            } else if j2 < j {
                assert(p[j2] != p[j]);
            }
        }
    }
    lemma_injection_le(v1.len() as int, v2.len() as int, m1);
    lemma_injection_le(v2.len() as int, v1.len() as int, m2);
    lemma_stable_sort_relabel(r1, v1, v2, m1);
    lemma_stable_sort_unique(r1, r2, v2);
}

/// Findings of files whose paths come first come first; of one file, a finding on an
/// earlier line comes first, then one at an earlier column of the same line.
pub proof fn lemma_diag_order_by_fields(a: DiagnosticView, b: DiagnosticView)
    ensures
        path_order(a.file, b.file) < 0 ==> diag_order(a, b) < 0,
        path_order(a.file, b.file) == 0 && a.line < b.line ==> diag_order(a, b) < 0,
        path_order(a.file, b.file) == 0 && a.line == b.line && a.column < b.column ==> diag_order(a, b) < 0,
{
}

/// A report in report order (as `run` returns it) lists the findings by file, and
/// those of one file by line, then by column, then by the bytes of the rule's name.
pub proof fn lemma_report_sorted_by_fields(r: Seq<DiagnosticView>)
    requires
        sorted_diags(r),
    ensures
        forall|i: int, j: int|
            #![trigger r[i], r[j]]
            0 <= i < j < r.len() ==> {
                &&& path_order(r[i].file, r[j].file) <= 0
                &&& (path_order(r[i].file, r[j].file) == 0 ==> r[i].line <= r[j].line)
                &&& (path_order(r[i].file, r[j].file) == 0 && r[i].line == r[j].line ==> r[i].column
                    <= r[j].column)
                &&& (path_order(r[i].file, r[j].file) == 0 && r[i].line == r[j].line && r[i].column
                    == r[j].column ==> lex(
                    vstd::utf8::encode_utf8(r[i].rule),
                    vstd::utf8::encode_utf8(r[j].rule),
                    byte_order(),
                ) <= 0)
            },
{
    assert forall|i: int, j: int| #![trigger r[i], r[j]] 0 <= i < j < r.len() implies {
        &&& path_order(r[i].file, r[j].file) <= 0
        &&& (path_order(r[i].file, r[j].file) == 0 ==> r[i].line <= r[j].line)
        &&& (path_order(r[i].file, r[j].file) == 0 && r[i].line == r[j].line ==> r[i].column <= r[j].column)
        &&& (path_order(r[i].file, r[j].file) == 0 && r[i].line == r[j].line && r[i].column == r[j].column
            ==> lex(vstd::utf8::encode_utf8(r[i].rule), vstd::utf8::encode_utf8(r[j].rule), byte_order()) <= 0)
    } by {
        assert(crate::sort::diag_le(r[i], r[j]));
    }
}

/// In the report, a finding's severity label follows its location and a space: with
/// colors on, an error's label is painted red and a warning's yellow, each followed
/// by the reset sequence; with colors off the label stands bare.
pub proof fn lemma_severity_label_colors(d: DiagnosticView, color: bool)
    ensures
        ({
            let rest = finding_text(d, color).skip(painted(location(d), Color::Cyan, color).len() + 1int);
            &&& color ==> ("\x1b[36m"@ + location(d) + "\x1b[0m"@ + " "@).is_prefix_of(finding_text(d, color))
            &&& (color && d.severity == Severity::Error) ==> ("\x1b[31m"@ + "error"@ + "\x1b[0m"@).is_prefix_of(rest)
            &&& (color && d.severity == Severity::Warning) ==> ("\x1b[33m"@ + "warning"@
                + "\x1b[0m"@).is_prefix_of(rest)
            &&& (!color && d.severity == Severity::Error) ==> "error"@.is_prefix_of(rest)
            &&& (!color && d.severity == Severity::Warning) ==> "warning"@.is_prefix_of(rest)
        }),
{
    reveal_strlit(" ");
    let p = painted(location(d), Color::Cyan, color) + " "@;
    let lab = painted(d.severity.spec_label(), crate::output::severity_color(d.severity), color);
    let t = finding_text(d, color);
    assert(t == p + lab + (t.skip((p.len() + lab.len()) as int))) by {
        assert(t =~= p + lab + (t.skip((p.len() + lab.len()) as int)));
    }
    let tail = t.skip((p.len() + lab.len()) as int);
    assert(t.skip(p.len() as int) =~= lab + tail);
    assert((lab + tail).take(lab.len() as int) =~= lab);
    assert(lab.is_prefix_of(t.skip(p.len() as int)));
    assert(t.take(p.len() as int) =~= p);
}

proof fn lemma_findings_text_prefix(ds: Seq<DiagnosticView>, k: int, color: bool)
    requires
        0 <= k < ds.len(),
    ensures
        (findings_text(ds.take(k), color) + finding_text(ds[k], color)).is_prefix_of(findings_text(ds, color)),
    decreases ds.len(),
{
    if k < ds.len() - 1 {
        lemma_findings_text_prefix(ds.drop_last(), k, color);
        assert(ds.drop_last().take(k) =~= ds.take(k));
    } else {
        assert(ds.drop_last() =~= ds.take(k));
    }
}

/// The report of a list of findings holds the text of each of them in turn: that of
/// finding `k` starts right after the texts of the findings before it.
pub proof fn lemma_report_holds_each_finding(ds: Seq<DiagnosticView>, k: int, color: bool)
    requires
        0 <= k < ds.len(),
    ensures
        finding_text(ds[k], color).is_prefix_of(
            human_report(ds, color).skip(findings_text(ds.take(k), color).len() as int),
        ),
{
    lemma_findings_text_prefix(ds, k, color);
    let a = findings_text(ds.take(k), color);
    let f = finding_text(ds[k], color);
    let h = human_report(ds, color);
    assert forall|i: int| 0 <= i < f.len() implies f[i] == h.skip(a.len() as int)[i] by {
        assert((a + f)[a.len() + i] == f[i]);
        assert(findings_text(ds, color)[a.len() + i] == h[a.len() + i]);
    }
}

/// The number that a string of decimal digits stands for.
pub open spec fn digits_value(s: Seq<char>) -> int
    decreases s.len(),
{
    if s.len() == 0 {
        0
    } else {
        digits_value(s.drop_last()) * 10 + ((s.last() as u32) as int - 48)
    }
}

proof fn lemma_digit_char_code(d: int)
    requires
        0 <= d < 10,
    ensures
        (crate::output::digit_char(d) as u32) as int == 48 + d,
{
}

/// The numbers of the report (lines, columns, counts) are written in decimal: only
/// the digits `0` to `9`, no leading zero, and they read back as the number.
pub proof fn lemma_decimal_reads_back(n: nat)
    ensures
        decimal(n).len() >= 1,
        forall|i: int| 0 <= i < decimal(n).len() ==> '0' <= #[trigger] decimal(n)[i] <= '9',
        decimal(n)[0] != '0' || n == 0,
        digits_value(decimal(n)) == n,
    decreases n,
{
    if n < 10 {
        lemma_digit_char_code(n as int);
        let s = decimal(n);
        assert(s.drop_last() =~= Seq::<char>::empty());
        assert(digits_value(s.drop_last()) == 0);
    } else {
        lemma_digit_char_code((n % 10) as int);
        lemma_decimal_reads_back(n / 10);
        let a = decimal(n / 10);
        let s = decimal(n);
        assert(s.drop_last() =~= a);
        assert forall|i: int| 0 <= i < s.len() implies '0' <= #[trigger] s[i] <= '9' by {
            if i < a.len() {
                assert(s[i] == a[i]);
            }
        }
        assert(s[0] == a[0]);
        assert(s.last() == crate::output::digit_char((n % 10) as int));
        assert(n == (n / 10) * 10 + n % 10);
        assert(digits_value(s) == digits_value(a) * 10 + ((s.last() as u32) as int - 48));
    }
}

} // verus!
