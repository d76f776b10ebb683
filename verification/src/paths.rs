use vstd::prelude::*;

use crate::order::{byte_order, compare_byte_ranges, is_order, lemma_byte_order, lemma_lex_is_order, lex, num_order};
use crate::text::{first_index_of, lemma_first_index_of, lemma_first_index_of_is};

verus! {

/// The byte `'/'`.
pub const SLASH: u8 = 47u8;

/// The byte `'.'`.
pub const DOT: u8 = 46u8;

/// A component of a path, as `std::path::Component` has them on Unix.
pub enum PathPart {
    Root,
    Current,
    Parent,
    Normal(Seq<u8>),
}

/// What one `'/'`-separated piece of a path contributes: empty pieces and `"."`
/// contribute nothing, `".."` is the parent, anything else a normal component.
pub open spec fn segment_part(seg: Seq<u8>) -> Seq<PathPart> {
    if seg.len() == 0 || seg == seq![DOT] {
        seq![]
    } else if seg == seq![DOT, DOT] {
        seq![PathPart::Parent]
    } else {
        seq![PathPart::Normal(seg)]
    }
}

/// The components of the pieces of `r` between its `'/'`s.
pub open spec fn body_parts(r: Seq<u8>) -> Seq<PathPart>
    decreases r.len(),
{
    if r.len() == 0 {
        seq![]
    } else {
        let e: int = first_index_of(r, SLASH);
        if e < r.len() {
            proof {
                lemma_first_index_of(r, SLASH);
            }
            segment_part(r.take(e)) + body_parts(r.skip(e + 1))
        } else {
            segment_part(r)
        }
    }
}

/// The components of a Unix path: a leading `'/'` is the root; a leading `"."` that
/// is a whole piece is the current directory; the rest as `body_parts` has it.
pub open spec fn path_parts(p: Seq<u8>) -> Seq<PathPart> {
    if p.len() > 0 && p[0] == SLASH {
        seq![PathPart::Root] + body_parts(p.skip(1))
    } else if p.len() > 0 && p[0] == DOT && (p.len() == 1 || p[1] == SLASH) {
        seq![PathPart::Current] + body_parts(p.skip(1))
    } else {
        body_parts(p)
    }
}

pub open spec fn part_rank(p: PathPart) -> int {
    match p {
        PathPart::Root => 0,
        PathPart::Current => 1,
        PathPart::Parent => 2,
        PathPart::Normal(_) => 3,
    }
}

/// The order of components: root, current, parent, then normal components by their
/// bytes.
pub open spec fn part_order() -> spec_fn(PathPart, PathPart) -> int {
    |x: PathPart, y: PathPart|
        match (x, y) {
            (PathPart::Normal(a), PathPart::Normal(b)) => lex(a, b, byte_order()),
            _ => num_order(part_rank(x), part_rank(y)),
        }
}

/// How `Path`'s order compares two paths: by their components, lexicographically.
pub open spec fn path_order(a: Seq<u8>, b: Seq<u8>) -> int {
    lex(path_parts(a), path_parts(b), part_order())
}

/// Components, and paths compared by their components, are ordered.
pub proof fn lemma_part_order()
    ensures
        is_order(part_order()),
        is_order(|a: Seq<PathPart>, b: Seq<PathPart>| lex(a, b, part_order())),
{
    lemma_byte_order();
    let bl = |a: Seq<u8>, b: Seq<u8>| lex(a, b, byte_order());
    let o = part_order();
    assert forall|x: PathPart, y: PathPart| #[trigger] o(x, y) == -o(y, x) && -1 <= o(x, y) <= 1 by {
        if let (PathPart::Normal(a), PathPart::Normal(b)) = (x, y) {
            assert(bl(a, b) == -bl(b, a));
            assert(-1 <= bl(a, b) <= 1);
        }
    }
    assert forall|x: PathPart, y: PathPart| #[trigger] o(x, y) == 0 <==> x == y by {
        if let (PathPart::Normal(a), PathPart::Normal(b)) = (x, y) {
            assert(bl(a, b) == 0 <==> a == b);
        }
    }
    assert forall|x: PathPart, y: PathPart, z: PathPart|
        #[trigger] o(x, y) < 0 && #[trigger] o(y, z) < 0 implies o(x, z) < 0 by {
        if let (PathPart::Normal(a), PathPart::Normal(b), PathPart::Normal(c)) = (x, y, z) {
            assert(bl(a, b) < 0 && bl(b, c) < 0 ==> bl(a, c) < 0);
        }
    }
    lemma_lex_is_order(part_order());
}

/// The component that an exec triple `(kind, start, end)` stands for in `p`.
pub open spec fn part_view(p: Seq<u8>, t: (u8, usize, usize)) -> PathPart {
    if t.0 == 0 {
        PathPart::Root
    } else if t.0 == 1 {
        PathPart::Current
    } else if t.0 == 2 {
        PathPart::Parent
    } else {
        PathPart::Normal(p.subrange(t.1 as int, t.2 as int))
    }
}

pub open spec fn part_views(p: Seq<u8>, ts: Seq<(u8, usize, usize)>) -> Seq<PathPart> {
    ts.map_values(|t: (u8, usize, usize)| part_view(p, t))
}

pub open spec fn parts_in_bounds(p: Seq<u8>, ts: Seq<(u8, usize, usize)>) -> bool {
    forall|k: int| #![trigger ts[k]] 0 <= k < ts.len() ==> ts[k].0 <= 3 && ts[k].1 <= ts[k].2 <= p.len()
}

/// The components of `p`, as triples `(kind, start, end)`.
fn path_part_bounds(p: &[u8]) -> (r: Vec<(u8, usize, usize)>)
    ensures
        parts_in_bounds(p@, r@),
        part_views(p@, r@) == path_parts(p@),
{
    let mut res: Vec<(u8, usize, usize)> = Vec::new();
    let mut start: usize = 0;
    if p.len() > 0 && p[0] == SLASH {
        res.push((0u8, 0usize, 0usize));
        start = 1;
    } else if p.len() > 0 && p[0] == DOT && (p.len() == 1 || p[1] == SLASH) {
        res.push((1u8, 0usize, 0usize));
        start = 1;
    }
    proof {
        assert(p@.skip(0) =~= p@);
        assert(part_views(p@, res@) + body_parts(p@.skip(start as int)) =~= path_parts(p@));
    }
    while start < p.len()
        invariant
            start <= p@.len(),
            parts_in_bounds(p@, res@),
            path_parts(p@) == part_views(p@, res@) + body_parts(p@.skip(start as int)),
        decreases p@.len() - start,
    {
        let mut j: usize = start;
        while j < p.len() && p[j] != SLASH
            invariant
                start <= j <= p@.len(),
                forall|i: int| start <= i < j ==> p@[i] != SLASH,
            decreases p@.len() - j,
        {
            j = j + 1;
        }
        let ghost s = p@.skip(start as int);
        let ghost seg = p@.subrange(start as int, j as int);
        let ghost old_res = res@;
        proof {
            lemma_first_index_of_is(s, SLASH, j - start);
            assert(s.take(j - start) =~= seg);
        }
        let len: usize = j - start;
        if len == 0 || (len == 1 && p[start] == DOT) {
            proof {
                if len == 1 {
                    assert(seg =~= seq![DOT]);
                }
                assert(segment_part(seg) =~= Seq::<PathPart>::empty());
            }
        } else if len == 2 && p[start] == DOT && p[start + 1] == DOT {
            res.push((2u8, start, j));
            proof {
                assert(seg =~= seq![DOT, DOT]);
                assert(part_views(p@, res@) =~= part_views(p@, old_res) + segment_part(seg));
            }
        } else {
            res.push((3u8, start, j));
            proof {
                if seg == seq![DOT] {
                    assert(seg[0] == p@[start as int]);
                }
                if seg == seq![DOT, DOT] {
                    assert(seg[0] == p@[start as int]);
                    assert(seg[1] == p@[start + 1]);
                }
                assert(part_views(p@, res@) =~= part_views(p@, old_res) + segment_part(seg));
            }
        }
        if j < p.len() {
            proof {
                assert(s.skip(j - start + 1) =~= p@.skip(j + 1));
            }
            start = j + 1;
        } else {
            proof {
                assert(s =~= seg);
                assert(p@.skip(p@.len() as int) =~= Seq::<u8>::empty());
            }
            start = p.len();
        }
    }
    proof {
        assert(p@.skip(start as int) =~= Seq::<u8>::empty());
        assert(part_views(p@, res@) =~= path_parts(p@));
    }
    res
}

/// Compares two paths as `Path`'s order does: -1, 0 or 1.
pub fn compare_paths(ab: &[u8], bb: &[u8]) -> (r: i8)
    ensures
        r as int == path_order(ab@, bb@),
{
    let pa = path_part_bounds(ab);
    let pb = path_part_bounds(bb);
    let ghost xa = part_views(ab@, pa@);
    let ghost xb = part_views(bb@, pb@);
    let ghost whole = lex(xa, xb, part_order());
    let mut k: usize = 0;
    proof {
        assert(xa.skip(0) =~= xa);
        assert(xb.skip(0) =~= xb);
    }
    while k < pa.len() && k < pb.len()
        invariant
            k <= pa@.len(),
            k <= pb@.len(),
            parts_in_bounds(ab@, pa@),
            parts_in_bounds(bb@, pb@),
            xa == part_views(ab@, pa@),
            xb == part_views(bb@, pb@),
            whole == path_order(ab@, bb@),
            whole == lex(xa.skip(k as int), xb.skip(k as int), part_order()),
        decreases pa@.len() - k,
    {
        let (ka, sa, ea) = pa[k];
        let (kb, sb, eb) = pb[k];
        let ghost x = xa[k as int];
        let ghost y = xb[k as int];
        assert(xa.skip(k as int)[0] == x);
        assert(xb.skip(k as int)[0] == y);
        let c: i8 = if ka == 3 && kb == 3 {
            compare_byte_ranges(ab, sa, ea, bb, sb, eb)
        } else if ka < kb {
            -1
        } else if ka > kb {
            1
        } else {
            0
        };
        assert(c as int == (part_order())(x, y));
        if c != 0 {
            return c;
        }
        proof {
            assert(xa.skip(k as int).skip(1) =~= xa.skip(k + 1));
            assert(xb.skip(k as int).skip(1) =~= xb.skip(k + 1));
        }
        k = k + 1;
    }
    if k < pa.len() {
        1
    } else if k < pb.len() {
        -1
    } else {
        0
    }
}

} // verus!
