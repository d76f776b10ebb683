use vstd::prelude::*;

use crate::diagnostic::DiagnosticView;

verus! {

/// The byte `'\n'`.
pub const NEWLINE: u8 = 10u8;

/// The byte `'\r'`.
pub const CARRIAGE_RETURN: u8 = 13u8;

/// Index of the first occurrence of `c` in `b`, or `b.len()` when there is none.
pub open spec fn first_index_of(b: Seq<u8>, c: u8) -> int
    decreases b.len(),
{
    if b.len() == 0 {
        0
    } else if b[0] == c {
        0
    } else {
        1 + first_index_of(b.skip(1), c)
    }
}

/// `first_index_of` finds the first occurrence, or the end when there is none.
pub proof fn lemma_first_index_of(b: Seq<u8>, c: u8)
    ensures
        0 <= first_index_of(b, c) <= b.len(),
        first_index_of(b, c) < b.len() ==> b[first_index_of(b, c)] == c,
        forall|i: int| 0 <= i < first_index_of(b, c) ==> b[i] != c,
    decreases b.len(),
{
    if b.len() > 0 && b[0] != c {
        lemma_first_index_of(b.skip(1), c);
        assert forall|i: int| 0 <= i < first_index_of(b, c) implies b[i] != c by {
            if i > 0 {
                assert(b.skip(1)[i - 1] == b[i]);
            }
        }
    }
}

/// `first_index_of` is the one index before which `c` does not occur and at which
/// `c` occurs (or the end is reached).
pub proof fn lemma_first_index_of_is(b: Seq<u8>, c: u8, e: int)
    requires
        0 <= e <= b.len(),
        e < b.len() ==> b[e] == c,
        forall|i: int| 0 <= i < e ==> b[i] != c,
    ensures
        first_index_of(b, c) == e,
{
    lemma_first_index_of(b, c);
    let r = first_index_of(b, c);
    if r < e {
        assert(b[r] != c);
    } else if r > e {
        assert(b[e] != c);
    }
}

/// A line without the `'\r'` that ended it before its `'\n'`.
pub open spec fn strip_cr(l: Seq<u8>) -> Seq<u8> {
    if l.len() > 0 && l.last() == CARRIAGE_RETURN {
        l.drop_last()
    } else {
        l
    }
}

/// The lines of a text, as `str::lines` yields them: the text is split at each
/// `'\n'`; a `'\r'` just before a `'\n'` is removed; a final line ending is optional,
/// so a text that ends with `'\n'` has no empty last line.
pub open spec fn lines(b: Seq<u8>) -> Seq<Seq<u8>>
    decreases b.len(),
{
    if b.len() == 0 {
        seq![]
    } else {
        let e: int = first_index_of(b, NEWLINE);
        if e < b.len() {
            proof {
                lemma_first_index_of(b, NEWLINE);
            }
            seq![strip_cr(b.take(e))] + lines(b.skip(e + 1))
        } else {
            seq![b]
        }
    }
}

/// The findings of a check that looks at each line on its own: `f(line, n)` is what
/// it reports for the line numbered `n` (counting from 1), in the order of the lines.
pub open spec fn findings_by_line(
    ls: Seq<Seq<u8>>,
    f: spec_fn(Seq<u8>, int) -> Seq<DiagnosticView>,
) -> Seq<DiagnosticView>
    decreases ls.len(),
{
    if ls.len() == 0 {
        seq![]
    } else {
        findings_by_line(ls.drop_last(), f) + f(ls.last(), ls.len() as int)
    }
}

/// The bytes that the given bounds delimit.
pub open spec fn slices(b: Seq<u8>, bounds: Seq<(usize, usize)>) -> Seq<Seq<u8>> {
    bounds.map_values(|p: (usize, usize)| b.subrange(p.0 as int, p.1 as int))
}

/// Where each line of `b` starts and ends (the end excludes the line ending).
pub fn line_bounds(b: &[u8]) -> (r: Vec<(usize, usize)>)
    ensures
        forall|k: int| #![trigger r@[k]] 0 <= k < r@.len() ==> r@[k].0 <= r@[k].1 <= b@.len(),
        slices(b@, r@) == lines(b@),
{
    let mut res: Vec<(usize, usize)> = Vec::new();
    let mut start: usize = 0;
    proof {
        assert(b@.skip(0) =~= b@);
    }
    while start < b.len()
        invariant
            start <= b@.len(),
            forall|k: int| #![trigger res@[k]] 0 <= k < res@.len() ==> res@[k].0 <= res@[k].1 <= b@.len(),
            lines(b@) == slices(b@, res@) + lines(b@.skip(start as int)),
        decreases b@.len() - start,
    {
        let mut j: usize = start;
        while j < b.len() && b[j] != NEWLINE
            invariant
                start <= j <= b@.len(),
                forall|i: int| start <= i < j ==> b@[i] != NEWLINE,
            decreases b@.len() - j,
        {
            j = j + 1;
        }
        let ghost s = b@.skip(start as int);
        proof {
            lemma_first_index_of_is(s, NEWLINE, j - start);
        }
        let ghost old_res = res@;
        if j < b.len() {
            let end: usize = if j > start && b[j - 1] == CARRIAGE_RETURN {
                j - 1
            } else {
                j
            };
            res.push((start, end));
            proof {
                assert(s.take(j - start) =~= b@.subrange(start as int, j as int));
                assert(strip_cr(s.take(j - start)) =~= b@.subrange(start as int, end as int));
                assert(s.skip(j - start + 1) =~= b@.skip(j + 1));
                assert(slices(b@, res@) =~= slices(b@, old_res) + seq![
                    b@.subrange(start as int, end as int),
                ]);
            }
            start = j + 1;
        } else {
            res.push((start, b.len()));
            proof {
                assert(s =~= b@.subrange(start as int, b@.len() as int));
                assert(b@.skip(b@.len() as int) =~= Seq::<u8>::empty());
                assert(slices(b@, res@) =~= slices(b@, old_res) + seq![s]);
            }
            start = b.len();
        }
    }
    proof {
        assert(b@.skip(start as int) =~= Seq::<u8>::empty());
        assert(lines(b@.skip(start as int)) =~= Seq::<Seq<u8>>::empty());
        assert(lines(b@) =~= slices(b@, res@));
    }
    res
}

} // verus!
