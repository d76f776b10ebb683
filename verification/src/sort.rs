use vstd::prelude::*;
use vstd::slice::slice_to_vec;
use vstd::utf8::encode_utf8;

use crate::diagnostic::{views, Diagnostic, DiagnosticView};
use crate::order::{byte_order, compare_byte_ranges, lemma_byte_order, lex, num_order};
use crate::paths::{compare_paths, lemma_part_order, part_order, path_order, path_parts};

verus! {

/// The order in which findings are reported: by file (as paths are ordered), then
/// line, then column, then rule identifier.
pub open spec fn diag_order(a: DiagnosticView, b: DiagnosticView) -> int {
    let f: int = path_order(a.file, b.file);
    if f != 0 {
        f
    } else if a.line != b.line {
        num_order(a.line, b.line)
    } else if a.column != b.column {
        num_order(a.column, b.column)
    } else {
        lex(encode_utf8(a.rule), encode_utf8(b.rule), byte_order())
    }
}

/// `a` may be reported before `b`.
pub open spec fn diag_le(a: DiagnosticView, b: DiagnosticView) -> bool {
    diag_order(a, b) <= 0
}

/// The findings are in report order.
pub open spec fn sorted_diags(s: Seq<DiagnosticView>) -> bool {
    forall|i: int, j: int| 0 <= i < j < s.len() ==> diag_le(#[trigger] s[i], #[trigger] s[j])
}

/// Comparing the other way round flips the sign.
pub proof fn lemma_diag_order_antisymmetric(a: DiagnosticView, b: DiagnosticView)
    ensures
        diag_order(a, b) == -diag_order(b, a),
        -1 <= diag_order(a, b) <= 1,
{
    lemma_part_order();
    lemma_byte_order();
    let pl = |x: Seq<crate::paths::PathPart>, y: Seq<crate::paths::PathPart>| lex(x, y, part_order());
    let bl = |x: Seq<u8>, y: Seq<u8>| lex(x, y, byte_order());
    let pa = path_parts(a.file);
    let pb = path_parts(b.file);
    assert(pl(pa, pb) == -pl(pb, pa) && -1 <= pl(pa, pb) <= 1);
    assert(pl(pa, pb) == 0 <==> pa == pb);
    let ra = encode_utf8(a.rule);
    let rb = encode_utf8(b.rule);
    assert(bl(ra, rb) == -bl(rb, ra) && -1 <= bl(ra, rb) <= 1);
}

/// Report order is total: of any two findings, one may be reported before the other.
pub proof fn lemma_diag_le_total(a: DiagnosticView, b: DiagnosticView)
    ensures
        diag_le(a, b) || diag_le(b, a),
{
    lemma_diag_order_antisymmetric(a, b);
}

/// Report order is transitive.
pub proof fn lemma_diag_le_transitive(a: DiagnosticView, b: DiagnosticView, c: DiagnosticView)
    requires
        diag_le(a, b),
        diag_le(b, c),
    ensures
        diag_le(a, c),
{
    lemma_part_order();
    lemma_byte_order();
    let pl = |x: Seq<crate::paths::PathPart>, y: Seq<crate::paths::PathPart>| lex(x, y, part_order());
    let bl = |x: Seq<u8>, y: Seq<u8>| lex(x, y, byte_order());
    let pa = path_parts(a.file);
    let pb = path_parts(b.file);
    let pc = path_parts(c.file);
    assert(pl(pa, pb) == 0 <==> pa == pb);
    assert(pl(pb, pc) == 0 <==> pb == pc);
    assert(pl(pa, pc) == 0 <==> pa == pc);
    assert(pl(pa, pb) < 0 && pl(pb, pc) < 0 ==> pl(pa, pc) < 0);
    assert(pl(pa, pb) == -pl(pb, pa));
    assert(pl(pb, pc) == -pl(pc, pb));
    let ra = encode_utf8(a.rule);
    let rb = encode_utf8(b.rule);
    let rc = encode_utf8(c.rule);
    assert(bl(ra, rb) == 0 <==> ra == rb);
    assert(bl(rb, rc) == 0 <==> rb == rc);
    assert(bl(ra, rb) < 0 && bl(rb, rc) < 0 ==> bl(ra, rc) < 0);
    assert(bl(ra, rb) == -bl(rb, ra));
}

/// Compares two findings in report order: -1, 0 or 1.
pub fn compare_diagnostics(a: &Diagnostic, b: &Diagnostic) -> (r: i8)
    ensures
        r as int == diag_order(a@, b@),
{
    let f: i8 = compare_paths(a.file.as_slice(), b.file.as_slice());
    if f != 0 {
        return f;
    }
    if a.line != b.line {
        return if a.line < b.line {
            -1
        } else {
            1
        };
    }
    if a.column != b.column {
        return if a.column < b.column {
            -1
        } else {
            1
        };
    }
    let ra = a.rule.as_bytes();
    let rb = b.rule.as_bytes();
    proof {
        assert(ra@.subrange(0, ra@.len() as int) =~= ra@);
        assert(rb@.subrange(0, rb@.len() as int) =~= rb@);
    }
    compare_byte_ranges(ra, 0, ra.len(), rb, 0, rb.len())
}

/// `r` holds the items of `v`, `r[k]` being `v[perm[k]]`, and items that compare equal
/// keep the order they had in `v`.
pub open spec fn stable_permutation(
    r: Seq<DiagnosticView>,
    v: Seq<DiagnosticView>,
    perm: Seq<int>,
) -> bool {
    &&& perm.len() == r.len()
    &&& r.len() == v.len()
    &&& forall|k: int| 0 <= k < perm.len() ==> 0 <= #[trigger] perm[k] < v.len()
    &&& forall|k: int| 0 <= k < perm.len() ==> r[k] == v[#[trigger] perm[k]]
    &&& forall|k: int, l: int| 0 <= k < l < perm.len() ==> #[trigger] perm[k] != #[trigger] perm[l]
    &&& forall|k: int, l: int|
        0 <= k < l < perm.len() && diag_order(#[trigger] r[k], #[trigger] r[l]) == 0 ==> perm[k]
            < perm[l]
}

/// `r` is `v` sorted stably into report order.
pub open spec fn is_stable_sort(r: Seq<DiagnosticView>, v: Seq<DiagnosticView>) -> bool {
    &&& sorted_diags(r)
    &&& exists|perm: Seq<int>| stable_permutation(r, v, perm)
}

/// Whether index `i` of `v` goes before index `j` in a stable sort.
fn goes_before_at(v: &Vec<Diagnostic>, i: usize, j: usize) -> (r: bool)
    requires
        i < v@.len(),
        j < v@.len(),
    ensures
        r == goes_before(views(v@), i as int, j as int),
{
    let c = compare_diagnostics(&v[i], &v[j]);
    c < 0 || (c == 0 && i < j)
}

/// The indices ascend under `goes_before`.
pub open spec fn ascending(v: Seq<DiagnosticView>, s: Seq<usize>) -> bool {
    forall|k: int, l: int| 0 <= k < l < s.len() ==> goes_before(v, #[trigger] s[k] as int, #[trigger] s[l] as int)
}

/// Every index lies in `lo..hi`.
pub open spec fn indices_within(s: Seq<usize>, lo: int, hi: int) -> bool {
    forall|k: int| 0 <= k < s.len() ==> lo <= #[trigger] s[k] < hi
}

/// Merges two ascending runs of indices, the first all below `mid`, the second all
/// at or above it.
fn merge_indices(v: &Vec<Diagnostic>, a: Vec<usize>, b: Vec<usize>, lo: usize, mid: usize, hi: usize) -> (r: Vec<usize>)
    requires
        lo <= mid <= hi <= v@.len(),
        ascending(views(v@), a@),
        ascending(views(v@), b@),
        indices_within(a@, lo as int, mid as int),
        indices_within(b@, mid as int, hi as int),
    ensures
        r@.len() == a@.len() + b@.len(),
        ascending(views(v@), r@),
        indices_within(r@, lo as int, hi as int),
{
    let ghost vs = views(v@);
    let mut out: Vec<usize> = Vec::new();
    let mut i: usize = 0;
    let mut j: usize = 0;
    while i < a.len() || j < b.len()
        invariant
            vs == views(v@),
            lo <= mid <= hi <= v@.len(),
            i <= a@.len(),
            j <= b@.len(),
            out@.len() == i + j,
            ascending(vs, a@),
            ascending(vs, b@),
            indices_within(a@, lo as int, mid as int),
            indices_within(b@, mid as int, hi as int),
            indices_within(out@, lo as int, hi as int),
            ascending(vs, out@),
            forall|k: int, l: int|
                0 <= k < out@.len() && i <= l < a@.len() ==> goes_before(vs, #[trigger] out@[k] as int, #[trigger] a@[l] as int),
            forall|k: int, l: int|
                0 <= k < out@.len() && j <= l < b@.len() ==> goes_before(vs, #[trigger] out@[k] as int, #[trigger] b@[l] as int),
        decreases a@.len() + b@.len() - i - j,
    {
        let take_a: bool = if i >= a.len() {
            false
        } else if j >= b.len() {
            true
        } else {
            !goes_before_at(v, b[j], a[i])
        };
        let x: usize = if take_a {
            a[i]
        } else {
            b[j]
        };
        proof {
            if take_a && j < b@.len() {
                lemma_goes_before_total(vs, a@[i as int] as int, b@[j as int] as int);
            }
            // x goes before everything that is still to be merged.
            assert forall|l: int| i <= l < a@.len() && (l != i || !take_a) implies goes_before(
                vs,
                x as int,
                #[trigger] a@[l] as int,
            ) by {
                if take_a {
                    assert(goes_before(vs, a@[i as int] as int, a@[l] as int));
                } else {
                    lemma_goes_before_total(vs, a@[i as int] as int, b@[j as int] as int);
                    if l > i {
                        lemma_goes_before_transitive(vs, x as int, a@[i as int] as int, a@[l] as int);
                    }
                }
            }
            assert forall|l: int| j <= l < b@.len() && (l != j || take_a) implies goes_before(
                vs,
                x as int,
                #[trigger] b@[l] as int,
            ) by {
                if !take_a {
                    assert(goes_before(vs, b@[j as int] as int, b@[l] as int));
                } else if l > j {
                    lemma_goes_before_transitive(vs, x as int, b@[j as int] as int, b@[l] as int);
                }
            }
        }
        let ghost old_out = out@;
        out.push(x);
        if take_a {
            i = i + 1;
        } else {
            j = j + 1;
        }
        proof {
            assert forall|k: int, l: int| 0 <= k < l < out@.len() implies goes_before(
                vs,
                #[trigger] out@[k] as int,
                #[trigger] out@[l] as int,
            ) by {
                if l < old_out.len() {
                    assert(out@[k] == old_out[k] && out@[l] == old_out[l]);
                } else {
                    assert(out@[k] == old_out[k]);
                    if take_a {
                        assert(goes_before(vs, old_out[k] as int, a@[i - 1] as int));
                    } else {
                        assert(goes_before(vs, old_out[k] as int, b@[j - 1] as int));
                    }
                }
            }
            assert forall|k: int, l: int|
                0 <= k < out@.len() && i <= l < a@.len() implies goes_before(
                vs,
                #[trigger] out@[k] as int,
                #[trigger] a@[l] as int,
            ) by {
                if k < old_out.len() {
                    assert(out@[k] == old_out[k]);
                }
            }
            assert forall|k: int, l: int|
                0 <= k < out@.len() && j <= l < b@.len() implies goes_before(
                vs,
                #[trigger] out@[k] as int,
                #[trigger] b@[l] as int,
            ) by {
                if k < old_out.len() {
                    assert(out@[k] == old_out[k]);
                }
            }
        }
    }
    out
}

/// The indices `lo..hi` of `v`, in the order of a stable sort of those findings.
fn sort_index_range(v: &Vec<Diagnostic>, lo: usize, hi: usize) -> (r: Vec<usize>)
    requires
        lo <= hi <= v@.len(),
    ensures
        r@.len() == hi - lo,
        ascending(views(v@), r@),
        indices_within(r@, lo as int, hi as int),
    decreases hi - lo,
{
    if hi - lo == 0 {
        return Vec::new();
    }
    if hi - lo == 1 {
        let mut one: Vec<usize> = Vec::new();
        one.push(lo);
        return one;
    }
    let mid: usize = lo + (hi - lo) / 2;
    let a = sort_index_range(v, lo, mid);
    let b = sort_index_range(v, mid, hi);
    merge_indices(v, a, b, lo, mid, hi)
}

/// A copy of a finding.
fn copy_diagnostic(d: &Diagnostic) -> (r: Diagnostic)
    ensures
        r@ == d@,
{
    let suggestion = match &d.suggestion {
        Some(s) => Some(s.clone()),
        None => None,
    };
    Diagnostic {
        file: slice_to_vec(d.file.as_slice()),
        line: d.line,
        column: d.column,
        severity: d.severity,
        rule: d.rule,
        message: d.message.clone(),
        suggestion,
    }
}

/// Sorts findings into report order. The sort is stable: findings that compare equal
/// keep their relative order.
pub fn sort_diagnostics(v: Vec<Diagnostic>) -> (r: Vec<Diagnostic>)
    ensures
        is_stable_sort(views(r@), views(v@)),
{
    let ghost vs = views(v@);
    let order = sort_index_range(&v, 0, v.len());
    let mut out: Vec<Diagnostic> = Vec::new();
    let mut k: usize = 0;
    while k < order.len()
        invariant
            vs == views(v@),
            order@.len() == v@.len(),
            indices_within(order@, 0, v@.len() as int),
            k <= order@.len(),
            out@.len() == k,
            forall|m: int| 0 <= m < k ==> (#[trigger] out@[m])@ == vs[order@[m] as int],
        decreases order@.len() - k,
    {
        let idx = order[k];
        out.push(copy_diagnostic(&v[idx]));
        k = k + 1;
    }
    proof {
        let r = views(out@);
        let perm = order@.map_values(|i: usize| i as int);
        assert forall|m: int| 0 <= m < perm.len() implies r[m] == vs[#[trigger] perm[m]] && 0 <= perm[m]
            < vs.len() by {
            assert(r[m] == out@[m]@);
        }
        assert forall|m: int, l: int| 0 <= m < l < perm.len() implies #[trigger] perm[m] != #[trigger] perm[l] && (
        diag_order(r[m], r[l]) == 0 ==> perm[m] < perm[l]) && diag_le(r[m], r[l]) by {
            assert(goes_before(vs, order@[m] as int, order@[l] as int));
            lemma_goes_before_strict(vs, order@[m] as int, order@[m] as int);
            assert(r[m] == out@[m]@ && r[l] == out@[l]@);
        }
        assert(stable_permutation(r, vs, perm));
        assert(sorted_diags(r));
    }
    out
}



/// Index `i` of `v` goes before index `j` in a stable sort: its finding comes first in
/// report order, or the two compare equal and `i` is the earlier index.
pub open spec fn goes_before(v: Seq<DiagnosticView>, i: int, j: int) -> bool {
    diag_order(v[i], v[j]) < 0 || (diag_order(v[i], v[j]) == 0 && i < j)
}

proof fn lemma_goes_before_strict(v: Seq<DiagnosticView>, i: int, j: int)
    ensures
        !goes_before(v, i, i),
        !(goes_before(v, i, j) && goes_before(v, j, i)),
{
    lemma_diag_order_antisymmetric(v[i], v[i]);
    lemma_diag_order_antisymmetric(v[i], v[j]);
}

proof fn lemma_goes_before_total(v: Seq<DiagnosticView>, i: int, j: int)
    requires
        i != j,
    ensures
        goes_before(v, i, j) || goes_before(v, j, i),
{
    lemma_diag_order_antisymmetric(v[i], v[j]);
}

proof fn lemma_goes_before_transitive(v: Seq<DiagnosticView>, i: int, j: int, k: int)
    requires
        goes_before(v, i, j),
        goes_before(v, j, k),
    ensures
        goes_before(v, i, k),
{
    lemma_diag_order_antisymmetric(v[i], v[j]);
    lemma_diag_order_antisymmetric(v[j], v[k]);
    lemma_diag_order_antisymmetric(v[i], v[k]);
    lemma_diag_le_transitive(v[i], v[j], v[k]);
    if diag_order(v[i], v[k]) == 0 {
        if diag_order(v[i], v[j]) < 0 {
            lemma_diag_le_transitive(v[j], v[k], v[i]);
        } else if diag_order(v[j], v[k]) < 0 {
            lemma_diag_le_transitive(v[k], v[i], v[j]);
        }
    }
}

/// Two sequences of indices that both ascend under `goes_before` and hold the same
/// indices are the same sequence.
proof fn lemma_ascending_unique(v: Seq<DiagnosticView>, a: Seq<int>, b: Seq<int>)
    requires
        forall|k: int, l: int| 0 <= k < l < a.len() ==> goes_before(v, #[trigger] a[k], #[trigger] a[l]),
        forall|k: int, l: int| 0 <= k < l < b.len() ==> goes_before(v, #[trigger] b[k], #[trigger] b[l]),
        a.to_set() == b.to_set(),
    ensures
        a == b,
    decreases a.len(),
{
    broadcast use vstd::set::group_set_axioms;

    if a.len() == 0 {
        if b.len() > 0 {
            assert(b.to_set().contains(b[0]));
        }
        assert(a =~= b);
    } else {
        assert(a.to_set().contains(a[0]));
        let j = choose|j: int| 0 <= j < b.len() && b[j] == a[0];
        assert(b.to_set().contains(b[0]));
        let i = choose|i: int| 0 <= i < a.len() && a[i] == b[0];
        lemma_goes_before_strict(v, a[0], a[i]);
        lemma_goes_before_strict(v, b[0], b[j]);
        if j > 0 {
            assert(goes_before(v, b[0], b[j]));
            if i > 0 {
                assert(goes_before(v, a[0], a[i]));
            }
        }
        assert(j == 0);
        let a1 = a.skip(1);
        let b1 = b.skip(1);
        assert forall|x: int| a1.to_set().contains(x) implies b1.to_set().contains(x) by {
            let m = choose|m: int| 0 <= m < a1.len() && a1[m] == x;
            assert(a[m + 1] == x);
            assert(goes_before(v, a[0], a[m + 1]));
            lemma_goes_before_strict(v, a[0], a[0]);
            assert(x != a[0]);
            assert(a.to_set().contains(x));
            let t = choose|t: int| 0 <= t < b.len() && b[t] == x;
            assert(t != 0);
            assert(b1[t - 1] == x);
        }
        assert forall|x: int| b1.to_set().contains(x) implies a1.to_set().contains(x) by {
            let m = choose|m: int| 0 <= m < b1.len() && b1[m] == x;
            assert(b[m + 1] == x);
            assert(goes_before(v, b[0], b[m + 1]));
            lemma_goes_before_strict(v, b[0], b[0]);
            assert(x != b[0]);
            assert(b.to_set().contains(x));
            let t = choose|t: int| 0 <= t < a.len() && a[t] == x;
            assert(t != 0);
            assert(a1[t - 1] == x);
        }
        assert(a1.to_set() =~= b1.to_set());
        assert forall|k: int, l: int| 0 <= k < l < a1.len() implies goes_before(
            v,
            #[trigger] a1[k],
            #[trigger] a1[l],
        ) by {
            assert(a1[k] == a[k + 1] && a1[l] == a[l + 1]);
        }
        assert forall|k: int, l: int| 0 <= k < l < b1.len() implies goes_before(
            v,
            #[trigger] b1[k],
            #[trigger] b1[l],
        ) by {
            assert(b1[k] == b[k + 1] && b1[l] == b[l + 1]);
        }
        lemma_ascending_unique(v, a1, b1);
        assert(b[j] == a[0]);
        assert(a =~= seq![a[0]] + a1);
        assert(b =~= seq![b[0]] + b1);
    }
}

proof fn lemma_permutation_indices(r: Seq<DiagnosticView>, v: Seq<DiagnosticView>, perm: Seq<int>)
    requires
        sorted_diags(r),
        stable_permutation(r, v, perm),
    ensures
        perm.to_set() == vstd::set_lib::set_int_range(0, v.len() as int),
        forall|k: int, l: int| 0 <= k < l < perm.len() ==> goes_before(v, #[trigger] perm[k], #[trigger] perm[l]),
{
    broadcast use vstd::set::group_set_axioms;

    assert(perm.no_duplicates()) by {
        assert forall|k: int, l: int| 0 <= k < perm.len() && 0 <= l < perm.len() && k != l implies perm[k]
            != perm[l] by {
            if k < l {
                assert(perm[k] != perm[l]);
            } else {
                assert(perm[l] != perm[k]);
            }
        }
    }
    perm.unique_seq_to_set();
    let range = vstd::set_lib::set_int_range(0, v.len() as int);
    vstd::set_lib::lemma_int_range(0, v.len() as int);
    assert(perm.to_set().subset_of(range)) by {
        assert forall|x: int| perm.to_set().contains(x) implies range.contains(x) by {
            let k = choose|k: int| 0 <= k < perm.len() && perm[k] == x;
        }
    }
    vstd::seq_lib::seq_to_set_is_finite(perm);
    vstd::set_lib::lemma_subset_equality(perm.to_set(), range);
    assert forall|k: int, l: int| 0 <= k < l < perm.len() implies goes_before(
        v,
        #[trigger] perm[k],
        #[trigger] perm[l],
    ) by {
        assert(r[k] == v[perm[k]] && r[l] == v[perm[l]]);
        assert(diag_le(r[k], r[l]));
    }
}

/// A stable sort into report order leaves nothing open: two stable sorts of the same
/// findings are the same sequence. So the contract of `run` fixes its result.
pub proof fn lemma_stable_sort_unique(r1: Seq<DiagnosticView>, r2: Seq<DiagnosticView>, v: Seq<DiagnosticView>)
    requires
        is_stable_sort(r1, v),
        is_stable_sort(r2, v),
    ensures
        r1 == r2,
{
    let p1 = choose|p: Seq<int>| stable_permutation(r1, v, p);
    let p2 = choose|p: Seq<int>| stable_permutation(r2, v, p);
    lemma_permutation_indices(r1, v, p1);
    lemma_permutation_indices(r2, v, p2);
    lemma_ascending_unique(v, p1, p2);
    assert forall|k: int| 0 <= k < r1.len() implies r1[k] == r2[k] by {
        assert(r1[k] == v[p1[k]]);
        assert(r2[k] == v[p2[k]]);
    }
    assert(r1 =~= r2);
}



/// A stable sort of `v1` is also a stable sort of `v2` when `v2` holds the items of
/// `v1` placed by a one-to-one map `m` that keeps items which compare equal in their
/// order.
pub proof fn lemma_stable_sort_relabel(
    r: Seq<DiagnosticView>,
    v1: Seq<DiagnosticView>,
    v2: Seq<DiagnosticView>,
    m: spec_fn(int) -> int,
)
    requires
        is_stable_sort(r, v1),
        v1.len() == v2.len(),
        forall|x: int| 0 <= x < v1.len() ==> 0 <= #[trigger] m(x) < v2.len() && v2[m(x)] == v1[x],
        forall|x: int, y: int| 0 <= x < y < v1.len() ==> #[trigger] m(x) != #[trigger] m(y),
        forall|x: int, y: int|
            0 <= x < y < v1.len() && diag_order(v1[x], v1[y]) == 0 ==> #[trigger] m(x) < #[trigger] m(y),
    ensures
        is_stable_sort(r, v2),
{
    let p1 = choose|p: Seq<int>| stable_permutation(r, v1, p);
    let p2 = p1.map_values(|x: int| m(x));
    assert forall|k: int| 0 <= k < p2.len() implies 0 <= #[trigger] p2[k] < v2.len() && r[k] == v2[p2[k]] by {
        assert(r[k] == v1[p1[k]]);
        assert(0 <= p1[k] < v1.len());
    }
    assert forall|k: int, l: int| 0 <= k < l < p2.len() implies #[trigger] p2[k] != #[trigger] p2[l] by {
        assert(p1[k] != p1[l]);
        if p1[k] < p1[l] {
            assert(m(p1[k]) != m(p1[l]));
        } else {
            assert(m(p1[l]) != m(p1[k]));
        }
    }
    assert forall|k: int, l: int|
        0 <= k < l < p2.len() && diag_order(#[trigger] r[k], #[trigger] r[l]) == 0 implies p2[k]
            < p2[l] by {
        assert(p1[k] < p1[l]);
        assert(r[k] == v1[p1[k]] && r[l] == v1[p1[l]]);
        assert(m(p1[k]) < m(p1[l]));
    }
    assert(stable_permutation(r, v2, p2));
}

} // verus!
