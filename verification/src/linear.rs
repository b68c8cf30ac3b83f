//! Mathematical model of row-major linearization for arbitrary extents.
//!
//! An N-dimensional shape is modelled by its extent sequence `e` (one positive
//! integer per axis).  Axis 0 varies fastest: the stride of axis `k` is the
//! product of all earlier extents, and a coordinate vector `c` maps to the
//! linear index `sum_k c[k] * stride[k]`.  The functions here define that map
//! and its inverse over unbounded integers; the lemmas establish that the map
//! is a bijection between in-range coordinate vectors and `[0, product)`.
//! The two executable kernels at the end carry out the conversions over a
//! stride table; every arbitrary-extent shape delegates to them.

use vstd::prelude::*;
use vstd::arithmetic::div_mod::{
    lemma_fundamental_div_mod, lemma_fundamental_div_mod_converse,
    lemma_mod_division_less_than_divisor, lemma_small_mod,
};
use vstd::arithmetic::mul::lemma_mul_is_commutative;

verus! {

/// The extents stored by an executable shape, read as mathematical integers.
pub open spec fn int_seq(a: Seq<u32>) -> Seq<int> {
    a.map_values(|c: u32| c as int)
}

/// Every axis extent is at least 1.
pub open spec fn all_positive(e: Seq<int>) -> bool {
    forall|k: int| 0 <= k < e.len() ==> #[trigger] e[k] >= 1
}

/// `c` is a coordinate vector lying inside the box described by `e`.
pub open spec fn in_range(c: Seq<int>, e: Seq<int>) -> bool {
    &&& c.len() == e.len()
    &&& forall|k: int| 0 <= k < e.len() ==> 0 <= #[trigger] c[k] < e[k]
}

/// Product of all extents: the number of cells of the shape.
pub open spec fn product_of(e: Seq<int>) -> int
    decreases e.len(),
{
    if e.len() == 0 {
        1
    } else {
        product_of(e.drop_last()) * e.last()
    }
}

/// The stride of axis `k`: how far the linear index moves when the
/// coordinate on axis `k` grows by one.
pub open spec fn stride_of(e: Seq<int>, k: int) -> int {
    product_of(e.take(k))
}

/// Row-major linear index of coordinate vector `c` in the box `e`.
pub open spec fn linear_index(c: Seq<int>, e: Seq<int>) -> int
    recommends
        c.len() == e.len(),
    decreases c.len(),
{
    if c.len() == 0 {
        0
    } else {
        linear_index(c.drop_last(), e.drop_last()) + c.last() * product_of(e.drop_last())
    }
}

/// The inverse map: coordinates recovered from a linear index by repeated
/// division by the stride of the highest remaining axis.
pub open spec fn coords_of(i: int, e: Seq<int>) -> Seq<int>
    decreases e.len(),
{
    if e.len() == 0 {
        Seq::empty()
    } else if e.len() == 1 {
        seq![i]
    } else {
        coords_of(i % product_of(e.drop_last()), e.drop_last()).push(i / product_of(e.drop_last()))
    }
}

/// The inverse map yields one coordinate per axis.
pub proof fn lemma_coords_of_len(i: int, e: Seq<int>)
    ensures
        coords_of(i, e).len() == e.len(),
    decreases e.len(),
{
    if e.len() > 1 {
        lemma_coords_of_len(i % product_of(e.drop_last()), e.drop_last());
    }
}

/// A product of positive extents is positive.
pub proof fn lemma_product_positive(e: Seq<int>)
    requires
        all_positive(e),
    ensures
        product_of(e) >= 1,
    decreases e.len(),
{
    if e.len() > 0 {
        assert(all_positive(e.drop_last()));
        lemma_product_positive(e.drop_last());
        assert(product_of(e.drop_last()) * e.last() >= 1) by (nonlinear_arith)
            requires
                product_of(e.drop_last()) >= 1,
                e.last() >= 1,
        ;
    }
}

/// Appending one axis multiplies the cell count by its extent.
pub proof fn lemma_product_take_succ(e: Seq<int>, k: int)
    requires
        0 <= k < e.len(),
    ensures
        product_of(e.take(k + 1)) == product_of(e.take(k)) * e[k],
{
    assert(e.take(k + 1).drop_last() =~= e.take(k));
    assert(e.take(k + 1).last() == e[k]);
}

/// The cell count of a prefix never exceeds the cell count of the whole box.
pub proof fn lemma_product_take_le(e: Seq<int>, k: int)
    requires
        all_positive(e),
        0 <= k <= e.len(),
    ensures
        product_of(e.take(k)) >= 1,
        product_of(e.take(k)) <= product_of(e),
    decreases e.len() - k,
{
    assert(all_positive(e.take(k)));
    lemma_product_positive(e.take(k));
    if k == e.len() {
        assert(e.take(k) =~= e);
    } else {
        lemma_product_take_succ(e, k);
        assert(product_of(e.take(k)) <= product_of(e.take(k)) * e[k]) by (nonlinear_arith)
            requires
                product_of(e.take(k)) >= 1,
                e[k] >= 1,
        ;
        lemma_product_take_le(e, k + 1);
    }
}

/// Strides satisfy the defining recurrence: `stride[0] = 1` and
/// `stride[k] = stride[k-1] * extent[k-1]`.
pub proof fn lemma_stride_recurrence(e: Seq<int>, k: int)
    requires
        1 <= k <= e.len(),
    ensures
        stride_of(e, 0) == 1,
        stride_of(e, k) == stride_of(e, k - 1) * e[k - 1],
{
    assert(e.take(0) =~= Seq::<int>::empty());
    lemma_product_take_succ(e, k - 1);
}

/// An in-range coordinate vector maps into `[0, product)`.
pub proof fn lemma_linear_index_bounds(c: Seq<int>, e: Seq<int>)
    requires
        all_positive(e),
        in_range(c, e),
    ensures
        0 <= linear_index(c, e) < product_of(e),
    decreases c.len(),
{
    if c.len() == 0 {
    } else {
        let cp = c.drop_last();
        let ep = e.drop_last();
        assert(all_positive(ep));
        assert(in_range(cp, ep));
        lemma_linear_index_bounds(cp, ep);
        let p = product_of(ep);
        assert(linear_index(cp, ep) + c.last() * p < p + c.last() * p) by {
            lemma_linear_index_bounds(cp, ep);
        }
        assert(p + c.last() * p <= e.last() * p) by (nonlinear_arith)
            requires
                c.last() + 1 <= e.last(),
                p >= 0,
        ;
        assert(c.last() * p >= 0) by (nonlinear_arith)
            requires
                c.last() >= 0,
                p >= 0,
        ;
        assert(product_of(e) == p * e.last());
        lemma_mul_is_commutative(p, e.last());
    }
}

/// Round trip, coordinates to index and back: `coords_of` inverts
/// `linear_index` on every in-range coordinate vector.
pub proof fn lemma_round_trip(c: Seq<int>, e: Seq<int>)
    requires
        all_positive(e),
        in_range(c, e),
    ensures
        coords_of(linear_index(c, e), e) == c,
    decreases c.len(),
{
    if c.len() == 0 {
        assert(coords_of(0, e) =~= c);
    } else if c.len() == 1 {
        assert(c.drop_last().len() == 0);
        assert(linear_index(c.drop_last(), e.drop_last()) == 0);
        assert(e.drop_last().len() == 0);
        assert(product_of(e.drop_last()) == 1);
        assert(c.last() == c[0]);
        assert(linear_index(c, e) == linear_index(c.drop_last(), e.drop_last()) + c.last()
            * product_of(e.drop_last()));
        assert(c.last() * 1 == c.last());
        assert(linear_index(c, e) == c[0]);
        assert(coords_of(c[0], e) =~= c);
    } else {
        let cp = c.drop_last();
        let ep = e.drop_last();
        assert(all_positive(ep));
        assert(in_range(cp, ep));
        let p = product_of(ep);
        let lp = linear_index(cp, ep);
        let li = linear_index(c, e);
        lemma_product_positive(ep);
        lemma_linear_index_bounds(cp, ep);
        assert(li == lp + c.last() * p);
        lemma_fundamental_div_mod_converse(li, p, c.last(), lp);
        assert(li % p == lp);
        assert(li / p == c.last());
        lemma_round_trip(cp, ep);
        assert(coords_of(li, e) == coords_of(lp, ep).push(c.last()));
        assert(coords_of(li, e) =~= c);
    }
}

/// Round trip, index to coordinates and back: every index in `[0, product)`
/// is reached from exactly the in-range coordinate vector `coords_of(i)`.
pub proof fn lemma_coords_of_in_range(i: int, e: Seq<int>)
    requires
        all_positive(e),
        0 <= i < product_of(e),
    ensures
        in_range(coords_of(i, e), e),
        linear_index(coords_of(i, e), e) == i,
    decreases e.len(),
{
    if e.len() == 0 {
        assert(coords_of(i, e) =~= Seq::<int>::empty());
    } else if e.len() == 1 {
        assert(product_of(e) == product_of(e.drop_last()) * e.last());
        assert(product_of(e.drop_last()) == 1);
        assert(product_of(e) == e[0]);
        let c = coords_of(i, e);
        assert(c =~= seq![i]);
        assert(linear_index(c, e) == linear_index(c.drop_last(), e.drop_last()) + i * 1);
    } else {
        let ep = e.drop_last();
        assert(all_positive(ep));
        let p = product_of(ep);
        lemma_product_positive(ep);
        let q = i / p;
        let r = i % p;
        lemma_fundamental_div_mod(i, p);
        lemma_mod_division_less_than_divisor(i, p);
        assert(0 <= r < p);
        assert(q >= 0) by (nonlinear_arith)
            requires
                i == p * q + r,
                i >= 0,
                p >= 1,
                0 <= r < p,
        ;
        assert(q < e.last()) by (nonlinear_arith)
            requires
                i == p * q + r,
                i < product_of(e),
                product_of(e) == p * e.last(),
                p >= 1,
                0 <= r < p,
        ;
        lemma_coords_of_in_range(r, ep);
        let c = coords_of(i, e);
        assert(c == coords_of(r, ep).push(q));
        assert(c.drop_last() =~= coords_of(r, ep));
        assert(c.last() == q);
        assert(in_range(c, e));
        assert(linear_index(c, e) == r + q * p);
        lemma_mul_is_commutative(q, p);
    }
}

/// Distinct in-range coordinate vectors never collide on one index.
pub proof fn lemma_linearize_injective(c1: Seq<int>, c2: Seq<int>, e: Seq<int>)
    requires
        all_positive(e),
        in_range(c1, e),
        in_range(c2, e),
        linear_index(c1, e) == linear_index(c2, e),
    ensures
        c1 == c2,
{
    lemma_round_trip(c1, e);
    lemma_round_trip(c2, e);
}

/// The set of indices produced by in-range coordinate vectors is exactly
/// `{0, 1, ..., product - 1}`: linearization is a bijection onto it.
pub proof fn lemma_linearize_bijection(e: Seq<int>)
    requires
        all_positive(e),
    ensures
        Set::new(|i: int| exists|c: Seq<int>| in_range(c, e) && linear_index(c, e) == i)
            =~= Set::new(|i: int| 0 <= i < product_of(e)),
{
    let image = Set::new(|i: int| exists|c: Seq<int>| in_range(c, e) && linear_index(c, e) == i);
    let range = Set::new(|i: int| 0 <= i < product_of(e));
    assert forall|i: int| image.contains(i) implies range.contains(i) by {
        let c = choose|c: Seq<int>| in_range(c, e) && linear_index(c, e) == i;
        lemma_linear_index_bounds(c, e);
    }
    assert forall|i: int| range.contains(i) implies image.contains(i) by {
        lemma_coords_of_in_range(i, e);
        assert(in_range(coords_of(i, e), e) && linear_index(coords_of(i, e), e) == i);
    }
}

/// The linear index exactly as the executable code computes it: 32-bit
/// wraparound multiply and add over the stored strides, total on every
/// coordinate vector, in range or not.
pub open spec fn wrapped_linear(c: Seq<u32>, s: Seq<u32>) -> u32
    recommends
        c.len() == s.len(),
    decreases c.len(),
{
    if c.len() == 0 {
        0u32
    } else {
        wrapped_linear(c.drop_last(), s.drop_last()).wrapping_add(c.last().wrapping_mul(s.last()))
    }
}

/// On in-range coordinates of a shape whose cell count fits in 32 bits,
/// the wraparound computation never actually wraps: it returns exactly the
/// mathematical linear index.
pub proof fn lemma_wrapped_linear_exact(c: Seq<u32>, s: Seq<u32>, e: Seq<int>)
    requires
        all_positive(e),
        c.len() == e.len(),
        s.len() == e.len(),
        product_of(e) <= u32::MAX,
        forall|k: int| 0 <= k < e.len() ==> #[trigger] s[k] as int == stride_of(e, k),
        in_range(int_seq(c), e),
    ensures
        wrapped_linear(c, s) as int == linear_index(int_seq(c), e),
    decreases c.len(),
{
    if c.len() == 0 {
    } else {
        let n = c.len() as int;
        let cp = c.drop_last();
        let sp = s.drop_last();
        let ep = e.drop_last();
        assert(int_seq(cp) =~= int_seq(c).drop_last());
        assert(all_positive(ep));
        assert(in_range(int_seq(cp), ep));
        assert(ep =~= e.take(n - 1));
        lemma_product_take_le(e, n - 1);
        assert forall|k: int| 0 <= k < ep.len() implies #[trigger] sp[k] as int == stride_of(ep, k) by {
            assert(sp[k] == s[k]);
            assert(ep.take(k) =~= e.take(k));
        }
        lemma_wrapped_linear_exact(cp, sp, ep);
        let p = product_of(ep);
        let lp = linear_index(int_seq(cp), ep);
        lemma_linear_index_bounds(int_seq(cp), ep);
        assert(s.last() as int == stride_of(e, n - 1));
        assert(s.last() as int == p);
        let cl = c.last() as int;
        assert(int_seq(c).last() == cl);
        assert(cl * p + p <= e.last() * p) by (nonlinear_arith)
            requires
                cl + 1 <= e.last(),
                p >= 1,
        ;
        assert(product_of(e) == p * e.last());
        lemma_mul_is_commutative(p, e.last());
        assert(cl * p >= 0) by (nonlinear_arith)
            requires
                cl >= 0,
                p >= 1,
        ;
        assert(lp + cl * p < product_of(e));
        assert(c.last().wrapping_mul(s.last()) as int == cl * p) by {
            assert(c.last() as nat * s.last() as nat == (cl * p) as nat);
            lemma_small_mod((cl * p) as nat, 0x1_0000_0000nat);
        }
        assert(wrapped_linear(c, s) as int == lp + cl * p);
        assert(linear_index(int_seq(c), e) == lp + cl * p);
    }
}

/// Shared kernel of the arbitrary-extent strategy: folds the coordinates
/// over the stride table with 32-bit wraparound multiply and add.  Total on
/// every coordinate vector; `wrapped_linear` says exactly what it returns.
pub(crate) fn linearize_strided<const N: usize>(strides: &[u32; N], p: [u32; N]) -> (r: u32)
    ensures
        r == wrapped_linear(p@, strides@),
{
    let mut acc: u32 = 0;
    let mut k: usize = 0;
    proof {
        assert(p@.take(0) =~= Seq::<u32>::empty());
        assert(strides@.take(0) =~= Seq::<u32>::empty());
    }
    while k < N
        invariant
            k <= N,
            p@.len() == N,
            strides@.len() == N,
            acc == wrapped_linear(p@.take(k as int), strides@.take(k as int)),
        decreases N - k,
    {
        proof {
            assert(p@.take(k + 1 as int).drop_last() =~= p@.take(k as int));
            assert(strides@.take(k + 1 as int).drop_last() =~= strides@.take(k as int));
            assert(p@.take(k + 1 as int).last() == p@[k as int]);
            assert(strides@.take(k + 1 as int).last() == strides@[k as int]);
        }
        acc = acc.wrapping_add(p[k].wrapping_mul(strides[k]));
        k = k + 1;
    }
    proof {
        assert(p@.take(N as int) =~= p@);
        assert(strides@.take(N as int) =~= strides@);
    }
    acc
}

/// Shared kernel of the inverse: repeated division by the stride of the
/// highest remaining axis, the remainder carried down to the lower axes.
/// Total on every index; `coords_of` says exactly what it returns.
pub(crate) fn delinearize_strided<const N: usize>(
    strides: &[u32; N],
    i: u32,
    Ghost(e): Ghost<Seq<int>>,
) -> (r: [u32; N])
    requires
        N >= 1,
        e.len() == N,
        all_positive(e),
        forall|k: int| 0 <= k < N ==> #[trigger] strides@[k] as int == stride_of(e, k),
    ensures
        int_seq(r@) == coords_of(i as int, e),
{
    let mut out: [u32; N] = [0u32; N];
    let mut rem: u32 = i;
    let mut k: usize = N;
    proof {
        assert(e.take(N as int) =~= e);
        assert(int_seq(out@).skip(N as int) =~= Seq::<int>::empty());
        assert(coords_of(i as int, e) =~= coords_of(rem as int, e.take(N as int)) + int_seq(
            out@,
        ).skip(N as int));
    }
    while k > 1
        invariant
            1 <= k <= N,
            e.len() == N,
            all_positive(e),
            strides@.len() == N,
            forall|j: int| 0 <= j < N ==> #[trigger] strides@[j] as int == stride_of(e, j),
            out@.len() == N,
            coords_of(i as int, e) == coords_of(rem as int, e.take(k as int)) + int_seq(out@).skip(
                k as int,
            ),
        decreases k,
    {
        let ghost rem0 = rem as int;
        let ghost out0 = out@;
        let s = strides[k - 1];
        proof {
            assert(s as int == stride_of(e, k - 1 as int));
            lemma_product_take_le(e, k - 1 as int);
            assert(s >= 1);
            lemma_fundamental_div_mod(rem0, s as int);
            lemma_mod_division_less_than_divisor(rem0, s as int);
            lemma_mul_is_commutative(s as int, rem0 / (s as int));
        }
        let q = rem / s;
        out[k - 1] = q;
        rem = rem - q * s;
        proof {
            assert(rem as int == rem0 % (s as int));
            assert(e.take(k as int).drop_last() =~= e.take(k - 1 as int));
            assert(e.take(k as int).last() == e[k - 1 as int]);
            assert(product_of(e.take(k as int).drop_last()) == s as int);
            assert(coords_of(rem0, e.take(k as int)) == coords_of(rem0 % (s as int), e.take(
                k - 1 as int,
            )).push(rem0 / (s as int)));
            assert(int_seq(out@).skip(k - 1 as int) =~= seq![q as int] + int_seq(out0).skip(
                k as int,
            ));
            assert(coords_of(rem as int, e.take(k - 1 as int)) + int_seq(out@).skip(k - 1 as int)
                =~= coords_of(rem0, e.take(k as int)) + int_seq(out0).skip(k as int));
        }
        k = k - 1;
    }
    let ghost out1 = out@;
    out[0] = rem;
    proof {
        assert(e.take(1) =~= seq![e[0]]);
        assert(coords_of(rem as int, e.take(1)) =~= seq![rem as int]);
        assert(int_seq(out@) =~= seq![rem as int] + int_seq(out1).skip(1));
        assert(int_seq(out@) =~= coords_of(i as int, e));
    }
    out
}

} // verus!
