use vstd::prelude::*;

verus! {

/// Lexicographic comparison of two sequences under an order `o` of their items:
/// -1 when `a` comes first, 0 when they are equal, 1 when `b` comes first.
/// A proper prefix comes before the longer sequence.
pub open spec fn lex<T>(a: Seq<T>, b: Seq<T>, o: spec_fn(T, T) -> int) -> int
    decreases a.len(),
{
    if a.len() == 0 {
        if b.len() == 0 {
            0
        } else {
            -1
        }
    } else if b.len() == 0 {
        1
    } else if o(a[0], b[0]) != 0 {
        o(a[0], b[0])
    } else {
        lex(a.skip(1), b.skip(1), o)
    }
}

/// `o` is a three-way comparison (-1, 0, 1) of a strict total order whose
/// "equal" is equality.
pub open spec fn is_order<T>(o: spec_fn(T, T) -> int) -> bool {
    &&& forall|x: T, y: T| #[trigger] o(x, y) == -o(y, x)
    &&& forall|x: T, y: T| #[trigger] o(x, y) == 0 <==> x == y
    &&& forall|x: T, y: T| -1 <= #[trigger] o(x, y) <= 1
    &&& forall|x: T, y: T, z: T| #[trigger] o(x, y) < 0 && #[trigger] o(y, z) < 0 ==> o(x, z) < 0
}

/// Comparing two sequences the other way round flips the sign.
pub proof fn lemma_lex_antisymmetric<T>(a: Seq<T>, b: Seq<T>, o: spec_fn(T, T) -> int)
    requires
        is_order(o),
    ensures
        lex(a, b, o) == -lex(b, a, o),
        -1 <= lex(a, b, o) <= 1,
    decreases a.len(),
{
    if a.len() > 0 && b.len() > 0 {
        assert(o(a[0], b[0]) == -o(b[0], a[0]));
        if o(a[0], b[0]) == 0 {
            lemma_lex_antisymmetric(a.skip(1), b.skip(1), o);
        }
    }
}

/// Two sequences compare equal exactly when they are equal.
pub proof fn lemma_lex_zero<T>(a: Seq<T>, b: Seq<T>, o: spec_fn(T, T) -> int)
    requires
        is_order(o),
    ensures
        lex(a, b, o) == 0 <==> a == b,
    decreases a.len(),
{
    if a.len() > 0 && b.len() > 0 {
        if o(a[0], b[0]) == 0 {
            lemma_lex_zero(a.skip(1), b.skip(1), o);
            if a.skip(1) == b.skip(1) {
                assert(a =~= seq![a[0]] + a.skip(1));
                assert(b =~= seq![b[0]] + b.skip(1));
            }
        } else {
            assert(a[0] != b[0]);
        }
    } else if a.len() == 0 && b.len() > 0 {
        assert(a.len() != b.len());
    } else if a.len() > 0 && b.len() == 0 {
        assert(a.len() != b.len());
    } else {
        assert(a =~= b);
    }
}

/// Lexicographic comparison is transitive.
pub proof fn lemma_lex_transitive<T>(a: Seq<T>, b: Seq<T>, c: Seq<T>, o: spec_fn(T, T) -> int)
    requires
        is_order(o),
        lex(a, b, o) < 0,
        lex(b, c, o) < 0,
    ensures
        lex(a, c, o) < 0,
    decreases a.len(),
{
    if a.len() > 0 {
        let oab: int = o(a[0], b[0]);
        let obc: int = o(b[0], c[0]);
        if oab < 0 && obc < 0 {
            assert(o(a[0], c[0]) < 0);
        } else if oab < 0 {
            assert(b[0] == c[0]);
        } else if obc < 0 {
            assert(a[0] == b[0]);
        } else {
            assert(a[0] == b[0] && b[0] == c[0]);
            lemma_lex_transitive(a.skip(1), b.skip(1), c.skip(1), o);
        }
    }
}

/// Lexicographic comparison under an order is itself an order.
pub proof fn lemma_lex_is_order<T>(o: spec_fn(T, T) -> int)
    requires
        is_order(o),
    ensures
        is_order(|a: Seq<T>, b: Seq<T>| lex(a, b, o)),
{
    let l = |a: Seq<T>, b: Seq<T>| lex(a, b, o);
    assert forall|x: Seq<T>, y: Seq<T>| #[trigger] l(x, y) == -l(y, x) && -1 <= l(x, y) <= 1 by {
        lemma_lex_antisymmetric(x, y, o);
    }
    assert forall|x: Seq<T>, y: Seq<T>| #[trigger] l(x, y) == 0 <==> x == y by {
        lemma_lex_zero(x, y, o);
    }
    assert forall|x: Seq<T>, y: Seq<T>, z: Seq<T>|
        #[trigger] l(x, y) < 0 && #[trigger] l(y, z) < 0 implies l(x, z) < 0 by {
        lemma_lex_transitive(x, y, z, o);
    }
}

/// Three-way comparison of two numbers.
pub open spec fn num_order(x: int, y: int) -> int {
    if x < y {
        -1
    } else if x > y {
        1
    } else {
        0
    }
}

/// The order of bytes, as a function value.
pub open spec fn byte_order() -> spec_fn(u8, u8) -> int {
    |x: u8, y: u8| num_order(x as int, y as int)
}

/// Bytes, and sequences of bytes compared lexicographically, are ordered.
pub proof fn lemma_byte_order()
    ensures
        is_order(byte_order()),
        is_order(|a: Seq<u8>, b: Seq<u8>| lex(a, b, byte_order())),
{
    lemma_lex_is_order(byte_order());
}

/// Compares `a[a_start..a_end]` with `b[b_start..b_end]` byte by byte.
pub fn compare_byte_ranges(
    a: &[u8],
    a_start: usize,
    a_end: usize,
    b: &[u8],
    b_start: usize,
    b_end: usize,
) -> (r: i8)
    requires
        a_start <= a_end <= a@.len(),
        b_start <= b_end <= b@.len(),
    ensures
        r as int == lex(
            a@.subrange(a_start as int, a_end as int),
            b@.subrange(b_start as int, b_end as int),
            byte_order(),
        ),
{
    let mut i: usize = a_start;
    let mut j: usize = b_start;
    let ghost whole = lex(
        a@.subrange(a_start as int, a_end as int),
        b@.subrange(b_start as int, b_end as int),
        byte_order(),
    );
    while i < a_end && j < b_end
        invariant
            a_start <= i <= a_end <= a@.len(),
            b_start <= j <= b_end <= b@.len(),
            whole == lex(a@.subrange(i as int, a_end as int), b@.subrange(j as int, b_end as int), byte_order()),
            whole == lex(
                a@.subrange(a_start as int, a_end as int),
                b@.subrange(b_start as int, b_end as int),
                byte_order(),
            ),
        decreases a_end - i,
    {
        let ghost sa = a@.subrange(i as int, a_end as int);
        let ghost sb = b@.subrange(j as int, b_end as int);
        assert(sa[0] == a@[i as int]);
        assert(sb[0] == b@[j as int]);
        if a[i] < b[j] {
            assert((byte_order())(sa[0], sb[0]) == -1);
            return -1;
        } else if a[i] > b[j] {
            assert((byte_order())(sa[0], sb[0]) == 1);
            return 1;
        }
        assert((byte_order())(sa[0], sb[0]) == 0);
        proof {
            assert(sa.skip(1) =~= a@.subrange(i + 1, a_end as int));
            assert(sb.skip(1) =~= b@.subrange(j + 1, b_end as int));
        }
        i = i + 1;
        j = j + 1;
    }
    if i < a_end {
        1
    } else if j < b_end {
        -1
    } else {
        0
    }
}

} // verus!
