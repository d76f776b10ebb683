use vstd::prelude::*;
use vstd::string::StringSliceAdditionalSpecFns;

use crate::order::{byte_order, compare_byte_ranges, lemma_byte_order, lemma_lex_zero};
use crate::paths::SLASH;

verus! {

/// Where the last component of a path starts: just after its last `'/'`, or at 0.
pub open spec fn name_start(b: Seq<u8>) -> int
    decreases b.len(),
{
    if b.len() == 0 {
        0
    } else if b.last() == SLASH {
        b.len() as int
    } else {
        name_start(b.drop_last())
    }
}

/// The last component of a path: what follows its last `'/'`.
pub open spec fn file_name(b: Seq<u8>) -> Seq<u8> {
    b.skip(name_start(b))
}

/// The name of a lock file of a package manager: one that ends in `.lock`
/// (`Cargo.lock`, `yarn.lock`, `Gemfile.lock`, ...), or `package-lock.json`,
/// `npm-shrinkwrap.json` or `pnpm-lock.yaml`.
pub open spec fn is_lock_name(n: Seq<u8>) -> bool {
    ||| n == "package-lock.json".spec_bytes()
    ||| n == "npm-shrinkwrap.json".spec_bytes()
    ||| n == "pnpm-lock.yaml".spec_bytes()
    ||| (n.len() >= 5 && n.subrange(n.len() - 5, n.len() as int) == ".lock".spec_bytes())
}

/// The last component of a path starts within the path.
pub proof fn lemma_name_start(b: Seq<u8>)
    ensures
        0 <= name_start(b) <= b.len(),
    decreases b.len(),
{
    if b.len() > 0 {
        lemma_name_start(b.drop_last());
    }
}

/// Whether `b[s..e]` holds exactly the bytes of `lit`.
fn range_is(b: &[u8], s: usize, e: usize, lit: &str) -> (r: bool)
    requires
        s <= e <= b@.len(),
    ensures
        r == (b@.subrange(s as int, e as int) == lit.spec_bytes()),
{
    let l = lit.as_bytes();
    proof {
        lemma_byte_order();
        lemma_lex_zero(b@.subrange(s as int, e as int), l@.subrange(0, l@.len() as int), byte_order());
        assert(l@.subrange(0, l@.len() as int) =~= l@);
    }
    compare_byte_ranges(b, s, e, l, 0, l.len()) == 0
}

/// Whether the path names a lock file, which is not worth checking.
pub fn is_lock_file(b: &[u8]) -> (r: bool)
    ensures
        r == is_lock_name(file_name(b@)),
{
    let mut start: usize = b.len();
    proof {
        assert(b@.take(b@.len() as int) =~= b@);
        lemma_name_start(b@);
    }
    while start > 0 && b[start - 1] != SLASH
        invariant
            start <= b@.len(),
            name_start(b@) == name_start(b@.take(start as int)),
            start > 0 ==> name_start(b@.take(start as int)) <= start,
        decreases start,
    {
        proof {
            assert(b@.take(start as int).drop_last() =~= b@.take(start - 1));
            lemma_name_start(b@.take(start - 1));
        }
        start = start - 1;
    }
    proof {
        if start == 0 {
            assert(b@.take(0) =~= Seq::<u8>::empty());
        }
        assert(name_start(b@) == start);
        assert(file_name(b@) =~= b@.subrange(start as int, b@.len() as int));
    }
    let end = b.len();
    if range_is(b, start, end, "package-lock.json") || range_is(b, start, end, "npm-shrinkwrap.json")
        || range_is(b, start, end, "pnpm-lock.yaml") {
        return true;
    }
    if end - start >= 5 {
        proof {
            let n = file_name(b@);
            assert(n.subrange(n.len() - 5, n.len() as int) =~= b@.subrange(end - 5, end as int));
        }
        range_is(b, end - 5, end, ".lock")
    } else {
        false
    }
}

} // verus!
