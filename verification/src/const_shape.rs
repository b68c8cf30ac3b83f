//! Shapes whose extents are fixed at compile time.
//!
//! Extents (or per-axis bit counts, for the power-of-two family) are const
//! generics, so these types carry no run-time state at all: every value is a
//! unit struct, and the stride, shift and mask tables are rebuilt from the
//! parameters wherever they are needed, which compiles down to constants.
//! Each type offers its conversions as associated functions through
//! [`ConstShape`](crate::ConstShape) and also implements
//! [`Shape`](crate::Shape), so compile-time and run-time shapes are
//! interchangeable behind the shared interface.

use vstd::prelude::*;
use vstd::arithmetic::power2::pow2;
use vstd::bits::lemma_u32_pow2_no_overflow;
use crate::pow2::{
    mask_of, or_pack, pow2_extents, shift_of, sum_of, mask_val, pack_shifted, pow2_val,
    unpack_masked, lemma_or_pack_linear, lemma_pow2_extents_positive, lemma_pow2_product,
    lemma_unpack_coords,
};
use crate::linear::{
    coords_of, in_range, int_seq, product_of, stride_of, wrapped_linear, delinearize_strided,
    linearize_strided, lemma_linear_index_bounds, lemma_coords_of_in_range,
    lemma_wrapped_linear_exact,
};
use crate::ConstShape;
use crate::Shape;

verus! {

/// A 2D arbitrary-extent shape with compile-time extents `X`, `Y`.
#[derive(Clone, Copy, Debug, PartialEq, Eq)]
pub struct ConstShape2u32<const X: u32, const Y: u32>;

/// Unfolds the model of a 2-axis box to plain arithmetic: the cell count is
/// the product of the extents, and the strides are `[1, x]`.
proof fn lemma_box_2(x: int, y: int)
    ensures
        product_of(seq![x, y]) == x * y,
        stride_of(seq![x, y], 0) == 1,
        stride_of(seq![x, y], 1) == x,
{
    let e = seq![x, y];
    assert(e.take(0) =~= Seq::<int>::empty());
    assert(e.take(1) =~= seq![x]);
    assert(e.drop_last() =~= seq![x]);
    assert(seq![x].drop_last() =~= Seq::<int>::empty());
    assert(product_of(Seq::<int>::empty()) == 1);
    assert(seq![x].last() == x);
    assert(product_of(seq![x]) == product_of(seq![x].drop_last()) * x);
    assert(product_of(seq![x]) == x);
}

impl<const X: u32, const Y: u32> ConstShape2u32<X, Y> {
    /// The stride table implied by the extents.
    fn strides() -> (r: [u32; 2])
        requires
            <Self as ConstShape<2>>::wf(),
        ensures
            r@ == seq![1u32, X],
            forall|k: int|
                0 <= k < 2 ==> #[trigger] r@[k] as int == stride_of(
                    <Self as ConstShape<2>>::extents(),
                    k,
                ),
    {
        proof {
            lemma_box_2(X as int, Y as int);
        }
        let r = [1u32, X];
        proof {
            assert(r@ =~= seq![1u32, X]);
        }
        r
    }
}

impl<const X: u32, const Y: u32> ConstShape<2> for ConstShape2u32<X, Y> {
    const SIZE: u32 = X * Y;

    const USIZE: usize = (X * Y) as usize;

    const ARRAY: [u32; 2] = [X, Y];

    open spec fn extents() -> Seq<int> {
        seq![X as int, Y as int]
    }

    open spec fn wf() -> bool {
        &&& X >= 1
        &&& Y >= 1
        &&& X * Y <= u32::MAX
    }

    open spec fn index_total(p: [u32; 2]) -> u32 {
        wrapped_linear(p@, seq![1u32, X])
    }

    open spec fn coords_total(i: u32) -> Seq<int> {
        coords_of(i as int, <Self as ConstShape<2>>::extents())
    }

    proof fn lemma_wf() {
        lemma_box_2(X as int, Y as int);
    }

    fn linearize(p: [u32; 2]) -> (r: u32) {
        let strides = Self::strides();
        let r = linearize_strided(&strides, p);
        proof {
            let e = <Self as ConstShape<2>>::extents();
            if in_range(int_seq(p@), e) {
                <Self as ConstShape<2>>::lemma_wf();
                lemma_box_2(X as int, Y as int);
                lemma_wrapped_linear_exact(p@, strides@, e);
                lemma_linear_index_bounds(int_seq(p@), e);
            }
        }
        r
    }

    fn delinearize(i: u32) -> (r: [u32; 2]) {
        proof {
            <Self as ConstShape<2>>::lemma_wf();
        }
        let strides = Self::strides();
        let r = delinearize_strided(&strides, i, Ghost(<Self as ConstShape<2>>::extents()));
        proof {
            let e = <Self as ConstShape<2>>::extents();
            if (i as int) < product_of(e) {
                <Self as ConstShape<2>>::lemma_wf();
                lemma_coords_of_in_range(i as int, e);
            }
        }
        r
    }
}

impl<const X: u32, const Y: u32> Shape<2> for ConstShape2u32<X, Y> {
    open spec fn extents(&self) -> Seq<int> {
        <Self as ConstShape<2>>::extents()
    }

    open spec fn wf(&self) -> bool {
        <Self as ConstShape<2>>::wf()
    }

    open spec fn index_total(&self, p: [u32; 2]) -> u32 {
        <Self as ConstShape<2>>::index_total(p)
    }

    open spec fn coords_total(&self, i: u32) -> Seq<int> {
        <Self as ConstShape<2>>::coords_total(i)
    }

    proof fn lemma_wf(&self) {
        <Self as ConstShape<2>>::lemma_wf();
    }

    fn size(&self) -> (r: u32) {
        proof {
            lemma_box_2(X as int, Y as int);
        }
        X * Y
    }

    fn usize(&self) -> (r: usize) {
        proof {
            lemma_box_2(X as int, Y as int);
        }
        (X * Y) as usize
    }

    fn as_array(&self) -> (r: [u32; 2]) {
        let r = [X, Y];
        proof {
            assert(int_seq(r@) =~= <Self as ConstShape<2>>::extents());
        }
        r
    }

    fn linearize(&self, p: [u32; 2]) -> (r: u32) {
        <Self as ConstShape<2>>::linearize(p)
    }

    fn delinearize(&self, i: u32) -> (r: [u32; 2]) {
        <Self as ConstShape<2>>::delinearize(i)
    }
}

/// A 3D arbitrary-extent shape with compile-time extents `X`, `Y`, `Z`.
#[derive(Clone, Copy, Debug, PartialEq, Eq)]
pub struct ConstShape3u32<const X: u32, const Y: u32, const Z: u32>;

/// Unfolds the model of a 3-axis box to plain arithmetic.
proof fn lemma_box_3(x: int, y: int, z: int)
    ensures
        product_of(seq![x, y, z]) == x * y * z,
        stride_of(seq![x, y, z], 0) == 1,
        stride_of(seq![x, y, z], 1) == x,
        stride_of(seq![x, y, z], 2) == x * y,
{
    let e = seq![x, y, z];
    lemma_box_2(x, y);
    assert(e.take(0) =~= Seq::<int>::empty());
    assert(e.take(1) =~= seq![x, y].take(1));
    assert(e.take(2) =~= seq![x, y]);
    assert(e.drop_last() =~= seq![x, y]);
    assert(seq![x, y].take(1) =~= seq![x]);
    assert(stride_of(seq![x, y], 1) == x);
}

impl<const X: u32, const Y: u32, const Z: u32> ConstShape3u32<X, Y, Z> {
    /// The stride table implied by the extents.
    fn strides() -> (r: [u32; 3])
        requires
            <Self as ConstShape<3>>::wf(),
        ensures
            r@ == seq![1u32, X, ((X * Y) as u32)],
            forall|k: int|
                0 <= k < 3 ==> #[trigger] r@[k] as int == stride_of(
                    <Self as ConstShape<3>>::extents(),
                    k,
                ),
    {
        proof {
            lemma_box_3(X as int, Y as int, Z as int);
            assert((X as int * Y as int) <= (X as int * Y as int) * (Z as int))
                by (nonlinear_arith)
                requires
                    X as int * Y as int >= 0,
                    Z as int >= 1,
            ;
        }
        let r = [1u32, X, X * Y];
        proof {
            assert(r@ =~= seq![1u32, X, ((X * Y) as u32)]);
        }
        r
    }
}

impl<const X: u32, const Y: u32, const Z: u32> ConstShape<3> for ConstShape3u32<X, Y, Z> {
    const SIZE: u32 = X * Y * Z;

    const USIZE: usize = (X * Y * Z) as usize;

    const ARRAY: [u32; 3] = [X, Y, Z];

    open spec fn extents() -> Seq<int> {
        seq![X as int, Y as int, Z as int]
    }

    open spec fn wf() -> bool {
        &&& X >= 1
        &&& Y >= 1
        &&& Z >= 1
        &&& X * Y * Z <= u32::MAX
    }

    open spec fn index_total(p: [u32; 3]) -> u32 {
        wrapped_linear(p@, seq![1u32, X, ((X * Y) as u32)])
    }

    open spec fn coords_total(i: u32) -> Seq<int> {
        coords_of(i as int, <Self as ConstShape<3>>::extents())
    }

    proof fn lemma_wf() {
        lemma_box_3(X as int, Y as int, Z as int);
    }

    fn linearize(p: [u32; 3]) -> (r: u32) {
        let strides = Self::strides();
        let r = linearize_strided(&strides, p);
        proof {
            let e = <Self as ConstShape<3>>::extents();
            if in_range(int_seq(p@), e) {
                <Self as ConstShape<3>>::lemma_wf();
                lemma_wrapped_linear_exact(p@, strides@, e);
                lemma_linear_index_bounds(int_seq(p@), e);
            }
        }
        r
    }

    fn delinearize(i: u32) -> (r: [u32; 3]) {
        proof {
            <Self as ConstShape<3>>::lemma_wf();
        }
        let strides = Self::strides();
        let r = delinearize_strided(&strides, i, Ghost(<Self as ConstShape<3>>::extents()));
        proof {
            let e = <Self as ConstShape<3>>::extents();
            if (i as int) < product_of(e) {
                <Self as ConstShape<3>>::lemma_wf();
                lemma_coords_of_in_range(i as int, e);
            }
        }
        r
    }
}

impl<const X: u32, const Y: u32, const Z: u32> Shape<3> for ConstShape3u32<X, Y, Z> {
    open spec fn extents(&self) -> Seq<int> {
        <Self as ConstShape<3>>::extents()
    }

    open spec fn wf(&self) -> bool {
        <Self as ConstShape<3>>::wf()
    }

    open spec fn index_total(&self, p: [u32; 3]) -> u32 {
        <Self as ConstShape<3>>::index_total(p)
    }

    open spec fn coords_total(&self, i: u32) -> Seq<int> {
        <Self as ConstShape<3>>::coords_total(i)
    }

    proof fn lemma_wf(&self) {
        <Self as ConstShape<3>>::lemma_wf();
    }

    fn size(&self) -> (r: u32) {
        proof {
            lemma_box_3(X as int, Y as int, Z as int);
            assert((X as int * Y as int) <= (X as int * Y as int) * (Z as int))
                by (nonlinear_arith)
                requires
                    X as int * Y as int >= 0,
                    Z as int >= 1,
            ;
        }
        X * Y * Z
    }

    fn usize(&self) -> (r: usize) {
        proof {
            lemma_box_3(X as int, Y as int, Z as int);
            assert((X as int * Y as int) <= (X as int * Y as int) * (Z as int))
                by (nonlinear_arith)
                requires
                    X as int * Y as int >= 0,
                    Z as int >= 1,
            ;
        }
        (X * Y * Z) as usize
    }

    fn as_array(&self) -> (r: [u32; 3]) {
        let r = [X, Y, Z];
        proof {
            assert(int_seq(r@) =~= <Self as ConstShape<3>>::extents());
        }
        r
    }

    fn linearize(&self, p: [u32; 3]) -> (r: u32) {
        <Self as ConstShape<3>>::linearize(p)
    }

    fn delinearize(&self, i: u32) -> (r: [u32; 3]) {
        <Self as ConstShape<3>>::delinearize(i)
    }
}

/// A 4D arbitrary-extent shape with compile-time extents `X`, `Y`, `Z`, `W`.
#[derive(Clone, Copy, Debug, PartialEq, Eq)]
pub struct ConstShape4u32<const X: u32, const Y: u32, const Z: u32, const W: u32>;

/// Unfolds the model of a 4-axis box to plain arithmetic.
proof fn lemma_box_4(x: int, y: int, z: int, w: int)
    ensures
        product_of(seq![x, y, z, w]) == x * y * z * w,
        stride_of(seq![x, y, z, w], 0) == 1,
        stride_of(seq![x, y, z, w], 1) == x,
        stride_of(seq![x, y, z, w], 2) == x * y,
        stride_of(seq![x, y, z, w], 3) == x * y * z,
{
    let e = seq![x, y, z, w];
    lemma_box_3(x, y, z);
    assert(e.take(0) =~= Seq::<int>::empty());
    assert(e.take(1) =~= seq![x, y, z].take(1));
    assert(e.take(2) =~= seq![x, y, z].take(2));
    assert(e.take(3) =~= seq![x, y, z]);
    assert(e.drop_last() =~= seq![x, y, z]);
    assert(stride_of(seq![x, y, z], 1) == x);
    assert(stride_of(seq![x, y, z], 2) == x * y);
}

impl<const X: u32, const Y: u32, const Z: u32, const W: u32> ConstShape4u32<X, Y, Z, W> {
    /// The stride table implied by the extents.
    fn strides() -> (r: [u32; 4])
        requires
            <Self as ConstShape<4>>::wf(),
        ensures
            r@ == seq![1u32, X, ((X * Y) as u32), ((X * Y * Z) as u32)],
            forall|k: int|
                0 <= k < 4 ==> #[trigger] r@[k] as int == stride_of(
                    <Self as ConstShape<4>>::extents(),
                    k,
                ),
    {
        proof {
            lemma_box_4(X as int, Y as int, Z as int, W as int);
            assert((X as int * Y as int) <= ((X as int * Y as int) * (Z as int)) * (W as int)
                && ((X as int * Y as int) * (Z as int)) <= ((X as int * Y as int) * (Z as int))
                * (W as int)) by (nonlinear_arith)
                requires
                    X as int >= 1,
                    Y as int >= 1,
                    Z as int >= 1,
                    W as int >= 1,
            ;
        }
        let r = [1u32, X, X * Y, X * Y * Z];
        proof {
            assert(r@ =~= seq![1u32, X, ((X * Y) as u32), ((X * Y * Z) as u32)]);
        }
        r
    }
}

impl<const X: u32, const Y: u32, const Z: u32, const W: u32> ConstShape<4> for ConstShape4u32<
    X,
    Y,
    Z,
    W,
> {
    const SIZE: u32 = X * Y * Z * W;

    const USIZE: usize = (X * Y * Z * W) as usize;

    const ARRAY: [u32; 4] = [X, Y, Z, W];

    open spec fn extents() -> Seq<int> {
        seq![X as int, Y as int, Z as int, W as int]
    }

    open spec fn wf() -> bool {
        &&& X >= 1
        &&& Y >= 1
        &&& Z >= 1
        &&& W >= 1
        &&& X * Y * Z * W <= u32::MAX
    }

    open spec fn index_total(p: [u32; 4]) -> u32 {
        wrapped_linear(p@, seq![1u32, X, ((X * Y) as u32), ((X * Y * Z) as u32)])
    }

    open spec fn coords_total(i: u32) -> Seq<int> {
        coords_of(i as int, <Self as ConstShape<4>>::extents())
    }

    proof fn lemma_wf() {
        lemma_box_4(X as int, Y as int, Z as int, W as int);
    }

    fn linearize(p: [u32; 4]) -> (r: u32) {
        let strides = Self::strides();
        let r = linearize_strided(&strides, p);
        proof {
            let e = <Self as ConstShape<4>>::extents();
            if in_range(int_seq(p@), e) {
                <Self as ConstShape<4>>::lemma_wf();
                lemma_wrapped_linear_exact(p@, strides@, e);
                lemma_linear_index_bounds(int_seq(p@), e);
            }
        }
        r
    }

    fn delinearize(i: u32) -> (r: [u32; 4]) {
        proof {
            <Self as ConstShape<4>>::lemma_wf();
        }
        let strides = Self::strides();
        let r = delinearize_strided(&strides, i, Ghost(<Self as ConstShape<4>>::extents()));
        proof {
            let e = <Self as ConstShape<4>>::extents();
            if (i as int) < product_of(e) {
                <Self as ConstShape<4>>::lemma_wf();
                lemma_coords_of_in_range(i as int, e);
            }
        }
        r
    }
}

impl<const X: u32, const Y: u32, const Z: u32, const W: u32> Shape<4> for ConstShape4u32<
    X,
    Y,
    Z,
    W,
> {
    open spec fn extents(&self) -> Seq<int> {
        <Self as ConstShape<4>>::extents()
    }

    open spec fn wf(&self) -> bool {
        <Self as ConstShape<4>>::wf()
    }

    open spec fn index_total(&self, p: [u32; 4]) -> u32 {
        <Self as ConstShape<4>>::index_total(p)
    }

    open spec fn coords_total(&self, i: u32) -> Seq<int> {
        <Self as ConstShape<4>>::coords_total(i)
    }

    proof fn lemma_wf(&self) {
        <Self as ConstShape<4>>::lemma_wf();
    }

    fn size(&self) -> (r: u32) {
        proof {
            lemma_box_4(X as int, Y as int, Z as int, W as int);
            assert((X as int * Y as int) <= ((X as int * Y as int) * (Z as int)) * (W as int)
                && ((X as int * Y as int) * (Z as int)) <= ((X as int * Y as int) * (Z as int))
                * (W as int)) by (nonlinear_arith)
                requires
                    X as int >= 1,
                    Y as int >= 1,
                    Z as int >= 1,
                    W as int >= 1,
            ;
        }
        X * Y * Z * W
    }

    fn usize(&self) -> (r: usize) {
        proof {
            lemma_box_4(X as int, Y as int, Z as int, W as int);
            assert((X as int * Y as int) <= ((X as int * Y as int) * (Z as int)) * (W as int)
                && ((X as int * Y as int) * (Z as int)) <= ((X as int * Y as int) * (Z as int))
                * (W as int)) by (nonlinear_arith)
                requires
                    X as int >= 1,
                    Y as int >= 1,
                    Z as int >= 1,
                    W as int >= 1,
            ;
        }
        (X * Y * Z * W) as usize
    }

    fn as_array(&self) -> (r: [u32; 4]) {
        let r = [X, Y, Z, W];
        proof {
            assert(int_seq(r@) =~= <Self as ConstShape<4>>::extents());
        }
        r
    }

    fn linearize(&self, p: [u32; 4]) -> (r: u32) {
        <Self as ConstShape<4>>::linearize(p)
    }

    fn delinearize(&self, i: u32) -> (r: [u32; 4]) {
        <Self as ConstShape<4>>::delinearize(i)
    }
}

/// A 2D power-of-two shape with compile-time per-axis *bit counts* `X`,
/// `Y`: the extents are `2^X`, `2^Y`.
#[derive(Clone, Copy, Debug, PartialEq, Eq)]
pub struct ConstPow2Shape2u32<const X: u32, const Y: u32>;

/// Unfolds the model of a 2-axis bit layout to plain arithmetic.
proof fn lemma_bits_2(x: int, y: int)
    requires
        x >= 0,
        y >= 0,
    ensures
        sum_of(seq![x, y]) == x + y,
        shift_of(seq![x, y], 0) == 0,
        shift_of(seq![x, y], 1) == x,
        pow2_extents(seq![x, y]) == seq![pow2(x as nat) as int, pow2(y as nat) as int],
{
    let b = seq![x, y];
    assert(b.take(0) =~= Seq::<int>::empty());
    assert(b.take(1) =~= seq![x]);
    assert(b.drop_last() =~= seq![x]);
    assert(seq![x].drop_last() =~= Seq::<int>::empty());
    assert(sum_of(Seq::<int>::empty()) == 0);
    assert(sum_of(seq![x]) == sum_of(seq![x].drop_last()) + x);
    assert(pow2_extents(b) =~= seq![pow2(x as nat) as int, pow2(y as nat) as int]);
}

impl<const X: u32, const Y: u32> ConstPow2Shape2u32<X, Y> {
    /// The shift table implied by the bit counts.
    fn shifts() -> (r: [u32; 2])
        requires
            <Self as ConstShape<2>>::wf(),
        ensures
            r@ == seq![0u32, X],
            forall|k: int|
                0 <= k < 2 ==> #[trigger] r@[k] as int == shift_of(seq![X as int, Y as int], k),
            forall|k: int| 0 <= k < 2 ==> #[trigger] r@[k] < 32,
    {
        proof {
            lemma_bits_2(X as int, Y as int);
        }
        let r = [0u32, X];
        proof {
            assert(r@ =~= seq![0u32, X]);
        }
        r
    }

    /// The mask table implied by the bit counts.
    fn masks() -> (r: [u32; 2])
        requires
            <Self as ConstShape<2>>::wf(),
        ensures
            forall|k: int|
                0 <= k < 2 ==> #[trigger] r@[k] as int == mask_of(seq![X as int, Y as int], k),
    {
        proof {
            lemma_bits_2(X as int, Y as int);
        }
        let r = [mask_val(X, 0), mask_val(Y, X)];
        proof {
            let b = seq![X as int, Y as int];
            assert(r@[0] as int == mask_of(b, 0));
            assert(r@[1] as int == mask_of(b, 1));
        }
        r
    }
}

impl<const X: u32, const Y: u32> ConstShape<2> for ConstPow2Shape2u32<X, Y> {
    const SIZE: u32 = 1 << (X + Y);

    const USIZE: usize = (1u32 << (X + Y)) as usize;

    const ARRAY: [u32; 2] = [1 << X, 1 << Y];

    open spec fn extents() -> Seq<int> {
        seq![pow2(X as nat) as int, pow2(Y as nat) as int]
    }

    open spec fn wf() -> bool {
        X + Y <= 31
    }

    open spec fn index_total(p: [u32; 2]) -> u32 {
        or_pack(p@, seq![0u32, X])
    }

    open spec fn coords_total(i: u32) -> Seq<int> {
        coords_of(
            (i as int) % (pow2((X + Y) as nat) as int),
            pow2_extents(seq![X as int, Y as int]),
        )
    }

    proof fn lemma_wf() {
        let b = seq![X as int, Y as int];
        lemma_bits_2(X as int, Y as int);
        lemma_pow2_extents_positive(b);
        lemma_pow2_product(b);
        lemma_u32_pow2_no_overflow((X + Y) as nat);
    }

    fn linearize(p: [u32; 2]) -> (r: u32) {
        let shifts = Self::shifts();
        let r = pack_shifted(&shifts, p);
        proof {
            let e = <Self as ConstShape<2>>::extents();
            let b = seq![X as int, Y as int];
            if in_range(int_seq(p@), e) {
                lemma_bits_2(X as int, Y as int);
                lemma_or_pack_linear(p@, shifts@, b);
                lemma_pow2_extents_positive(b);
                lemma_linear_index_bounds(int_seq(p@), e);
            }
        }
        r
    }

    fn delinearize(i: u32) -> (r: [u32; 2]) {
        let masks = Self::masks();
        let shifts = Self::shifts();
        let r = unpack_masked(&masks, &shifts, i);
        proof {
            let e = <Self as ConstShape<2>>::extents();
            let b = seq![X as int, Y as int];
            lemma_bits_2(X as int, Y as int);
            crate::pow2::lemma_unpack_coords_total(i, r@, masks@, shifts@, b);
            if (i as int) < product_of(e) {
                lemma_pow2_product(b);
                lemma_unpack_coords(i, r@, masks@, shifts@, b);
            }
        }
        r
    }
}

impl<const X: u32, const Y: u32> Shape<2> for ConstPow2Shape2u32<X, Y> {
    open spec fn extents(&self) -> Seq<int> {
        <Self as ConstShape<2>>::extents()
    }

    open spec fn wf(&self) -> bool {
        <Self as ConstShape<2>>::wf()
    }

    open spec fn index_total(&self, p: [u32; 2]) -> u32 {
        <Self as ConstShape<2>>::index_total(p)
    }

    open spec fn coords_total(&self, i: u32) -> Seq<int> {
        <Self as ConstShape<2>>::coords_total(i)
    }

    proof fn lemma_wf(&self) {
        <Self as ConstShape<2>>::lemma_wf();
    }

    fn size(&self) -> (r: u32) {
        proof {
            lemma_bits_2(X as int, Y as int);
            lemma_pow2_product(seq![X as int, Y as int]);
        }
        pow2_val(X + Y)
    }

    fn usize(&self) -> (r: usize) {
        proof {
            lemma_bits_2(X as int, Y as int);
            lemma_pow2_product(seq![X as int, Y as int]);
        }
        pow2_val(X + Y) as usize
    }

    fn as_array(&self) -> (r: [u32; 2]) {
        let r = [pow2_val(X), pow2_val(Y)];
        proof {
            assert(int_seq(r@) =~= <Self as ConstShape<2>>::extents());
        }
        r
    }

    fn linearize(&self, p: [u32; 2]) -> (r: u32) {
        <Self as ConstShape<2>>::linearize(p)
    }

    fn delinearize(&self, i: u32) -> (r: [u32; 2]) {
        <Self as ConstShape<2>>::delinearize(i)
    }
}

/// A 3D power-of-two shape with compile-time per-axis *bit counts* `X`,
/// `Y`, `Z`: the extents are `2^X`, `2^Y`, `2^Z`.
#[derive(Clone, Copy, Debug, PartialEq, Eq)]
pub struct ConstPow2Shape3u32<const X: u32, const Y: u32, const Z: u32>;

/// Unfolds the model of a 3-axis bit layout to plain arithmetic.
proof fn lemma_bits_3(x: int, y: int, z: int)
    requires
        x >= 0,
        y >= 0,
        z >= 0,
    ensures
        sum_of(seq![x, y, z]) == x + y + z,
        shift_of(seq![x, y, z], 0) == 0,
        shift_of(seq![x, y, z], 1) == x,
        shift_of(seq![x, y, z], 2) == x + y,
        pow2_extents(seq![x, y, z]) == seq![
            pow2(x as nat) as int,
            pow2(y as nat) as int,
            pow2(z as nat) as int,
        ],
{
    let b = seq![x, y, z];
    lemma_bits_2(x, y);
    assert(b.take(0) =~= Seq::<int>::empty());
    assert(b.take(1) =~= seq![x, y].take(1));
    assert(b.take(2) =~= seq![x, y]);
    assert(b.drop_last() =~= seq![x, y]);
    assert(shift_of(seq![x, y], 1) == x);
    assert(pow2_extents(b) =~= seq![
        pow2(x as nat) as int,
        pow2(y as nat) as int,
        pow2(z as nat) as int,
    ]);
}

impl<const X: u32, const Y: u32, const Z: u32> ConstPow2Shape3u32<X, Y, Z> {
    /// The shift table implied by the bit counts.
    fn shifts() -> (r: [u32; 3])
        requires
            <Self as ConstShape<3>>::wf(),
        ensures
            r@ == seq![0u32, X, ((X + Y) as u32)],
            forall|k: int|
                0 <= k < 3 ==> #[trigger] r@[k] as int == shift_of(
                    seq![X as int, Y as int, Z as int],
                    k,
                ),
            forall|k: int| 0 <= k < 3 ==> #[trigger] r@[k] < 32,
    {
        proof {
            lemma_bits_3(X as int, Y as int, Z as int);
        }
        let r = [0u32, X, X + Y];
        proof {
            assert(r@ =~= seq![0u32, X, ((X + Y) as u32)]);
        }
        r
    }

    /// The mask table implied by the bit counts.
    fn masks() -> (r: [u32; 3])
        requires
            <Self as ConstShape<3>>::wf(),
        ensures
            forall|k: int|
                0 <= k < 3 ==> #[trigger] r@[k] as int == mask_of(
                    seq![X as int, Y as int, Z as int],
                    k,
                ),
    {
        proof {
            lemma_bits_3(X as int, Y as int, Z as int);
        }
        let r = [mask_val(X, 0), mask_val(Y, X), mask_val(Z, X + Y)];
        proof {
            let b = seq![X as int, Y as int, Z as int];
            assert(r@[0] as int == mask_of(b, 0));
            assert(r@[1] as int == mask_of(b, 1));
            assert(r@[2] as int == mask_of(b, 2));
        }
        r
    }
}

impl<const X: u32, const Y: u32, const Z: u32> ConstShape<3> for ConstPow2Shape3u32<X, Y, Z> {
    const SIZE: u32 = 1 << (X + Y + Z);

    const USIZE: usize = (1u32 << (X + Y + Z)) as usize;

    const ARRAY: [u32; 3] = [1 << X, 1 << Y, 1 << Z];

    open spec fn extents() -> Seq<int> {
        seq![pow2(X as nat) as int, pow2(Y as nat) as int, pow2(Z as nat) as int]
    }

    open spec fn wf() -> bool {
        X + Y + Z <= 31
    }

    open spec fn index_total(p: [u32; 3]) -> u32 {
        or_pack(p@, seq![0u32, X, ((X + Y) as u32)])
    }

    open spec fn coords_total(i: u32) -> Seq<int> {
        coords_of(
            (i as int) % (pow2((X + Y + Z) as nat) as int),
            pow2_extents(seq![X as int, Y as int, Z as int]),
        )
    }

    proof fn lemma_wf() {
        let b = seq![X as int, Y as int, Z as int];
        lemma_bits_3(X as int, Y as int, Z as int);
        lemma_pow2_extents_positive(b);
        lemma_pow2_product(b);
        lemma_u32_pow2_no_overflow((X + Y + Z) as nat);
    }

    fn linearize(p: [u32; 3]) -> (r: u32) {
        let shifts = Self::shifts();
        let r = pack_shifted(&shifts, p);
        proof {
            let e = <Self as ConstShape<3>>::extents();
            let b = seq![X as int, Y as int, Z as int];
            if in_range(int_seq(p@), e) {
                lemma_bits_3(X as int, Y as int, Z as int);
                lemma_or_pack_linear(p@, shifts@, b);
                lemma_pow2_extents_positive(b);
                lemma_linear_index_bounds(int_seq(p@), e);
            }
        }
        r
    }

    fn delinearize(i: u32) -> (r: [u32; 3]) {
        let masks = Self::masks();
        let shifts = Self::shifts();
        let r = unpack_masked(&masks, &shifts, i);
        proof {
            let e = <Self as ConstShape<3>>::extents();
            let b = seq![X as int, Y as int, Z as int];
            lemma_bits_3(X as int, Y as int, Z as int);
            crate::pow2::lemma_unpack_coords_total(i, r@, masks@, shifts@, b);
            if (i as int) < product_of(e) {
                lemma_pow2_product(b);
                lemma_unpack_coords(i, r@, masks@, shifts@, b);
            }
        }
        r
    }
}

impl<const X: u32, const Y: u32, const Z: u32> Shape<3> for ConstPow2Shape3u32<X, Y, Z> {
    open spec fn extents(&self) -> Seq<int> {
        <Self as ConstShape<3>>::extents()
    }

    open spec fn wf(&self) -> bool {
        <Self as ConstShape<3>>::wf()
    }

    open spec fn index_total(&self, p: [u32; 3]) -> u32 {
        <Self as ConstShape<3>>::index_total(p)
    }

    open spec fn coords_total(&self, i: u32) -> Seq<int> {
        <Self as ConstShape<3>>::coords_total(i)
    }

    proof fn lemma_wf(&self) {
        <Self as ConstShape<3>>::lemma_wf();
    }

    fn size(&self) -> (r: u32) {
        proof {
            lemma_bits_3(X as int, Y as int, Z as int);
            lemma_pow2_product(seq![X as int, Y as int, Z as int]);
        }
        pow2_val(X + Y + Z)
    }

    fn usize(&self) -> (r: usize) {
        proof {
            lemma_bits_3(X as int, Y as int, Z as int);
            lemma_pow2_product(seq![X as int, Y as int, Z as int]);
        }
        pow2_val(X + Y + Z) as usize
    }

    fn as_array(&self) -> (r: [u32; 3]) {
        let r = [pow2_val(X), pow2_val(Y), pow2_val(Z)];
        proof {
            assert(int_seq(r@) =~= <Self as ConstShape<3>>::extents());
        }
        r
    }

    fn linearize(&self, p: [u32; 3]) -> (r: u32) {
        <Self as ConstShape<3>>::linearize(p)
    }

    fn delinearize(&self, i: u32) -> (r: [u32; 3]) {
        <Self as ConstShape<3>>::delinearize(i)
    }
}

/// A 4D power-of-two shape with compile-time per-axis *bit counts* `X`,
/// `Y`, `Z`, `W`: the extents are `2^X`, `2^Y`, `2^Z`, `2^W`.
#[derive(Clone, Copy, Debug, PartialEq, Eq)]
pub struct ConstPow2Shape4u32<const X: u32, const Y: u32, const Z: u32, const W: u32>;

/// Unfolds the model of a 4-axis bit layout to plain arithmetic.
proof fn lemma_bits_4(x: int, y: int, z: int, w: int)
    requires
        x >= 0,
        y >= 0,
        z >= 0,
        w >= 0,
    ensures
        sum_of(seq![x, y, z, w]) == x + y + z + w,
        shift_of(seq![x, y, z, w], 0) == 0,
        shift_of(seq![x, y, z, w], 1) == x,
        shift_of(seq![x, y, z, w], 2) == x + y,
        shift_of(seq![x, y, z, w], 3) == x + y + z,
        pow2_extents(seq![x, y, z, w]) == seq![
            pow2(x as nat) as int,
            pow2(y as nat) as int,
            pow2(z as nat) as int,
            pow2(w as nat) as int,
        ],
{
    let b = seq![x, y, z, w];
    lemma_bits_3(x, y, z);
    assert(b.take(0) =~= Seq::<int>::empty());
    assert(b.take(1) =~= seq![x, y, z].take(1));
    assert(b.take(2) =~= seq![x, y, z].take(2));
    assert(b.take(3) =~= seq![x, y, z]);
    assert(b.drop_last() =~= seq![x, y, z]);
    assert(shift_of(seq![x, y, z], 1) == x);
    assert(shift_of(seq![x, y, z], 2) == x + y);
    assert(pow2_extents(b) =~= seq![
        pow2(x as nat) as int,
        pow2(y as nat) as int,
        pow2(z as nat) as int,
        pow2(w as nat) as int,
    ]);
}

impl<const X: u32, const Y: u32, const Z: u32, const W: u32> ConstPow2Shape4u32<X, Y, Z, W> {
    /// The shift table implied by the bit counts.
    fn shifts() -> (r: [u32; 4])
        requires
            <Self as ConstShape<4>>::wf(),
        ensures
            r@ == seq![0u32, X, ((X + Y) as u32), ((X + Y + Z) as u32)],
            forall|k: int|
                0 <= k < 4 ==> #[trigger] r@[k] as int == shift_of(
                    seq![X as int, Y as int, Z as int, W as int],
                    k,
                ),
            forall|k: int| 0 <= k < 4 ==> #[trigger] r@[k] < 32,
    {
        proof {
            lemma_bits_4(X as int, Y as int, Z as int, W as int);
        }
        let r = [0u32, X, X + Y, X + Y + Z];
        proof {
            assert(r@ =~= seq![0u32, X, ((X + Y) as u32), ((X + Y + Z) as u32)]);
        }
        r
    }

    /// The mask table implied by the bit counts.
    fn masks() -> (r: [u32; 4])
        requires
            <Self as ConstShape<4>>::wf(),
        ensures
            forall|k: int|
                0 <= k < 4 ==> #[trigger] r@[k] as int == mask_of(
                    seq![X as int, Y as int, Z as int, W as int],
                    k,
                ),
    {
        proof {
            lemma_bits_4(X as int, Y as int, Z as int, W as int);
        }
        let r = [mask_val(X, 0), mask_val(Y, X), mask_val(Z, X + Y), mask_val(W, X + Y + Z)];
        proof {
            let b = seq![X as int, Y as int, Z as int, W as int];
            assert(r@[0] as int == mask_of(b, 0));
            assert(r@[1] as int == mask_of(b, 1));
            assert(r@[2] as int == mask_of(b, 2));
            assert(r@[3] as int == mask_of(b, 3));
        }
        r
    }
}

impl<const X: u32, const Y: u32, const Z: u32, const W: u32> ConstShape<4> for ConstPow2Shape4u32<
    X,
    Y,
    Z,
    W,
> {
    const SIZE: u32 = 1 << (X + Y + Z + W);

    const USIZE: usize = (1u32 << (X + Y + Z + W)) as usize;

    const ARRAY: [u32; 4] = [1 << X, 1 << Y, 1 << Z, 1 << W];

    open spec fn extents() -> Seq<int> {
        seq![
            pow2(X as nat) as int,
            pow2(Y as nat) as int,
            pow2(Z as nat) as int,
            pow2(W as nat) as int,
        ]
    }

    open spec fn wf() -> bool {
        X + Y + Z + W <= 31
    }

    open spec fn index_total(p: [u32; 4]) -> u32 {
        or_pack(p@, seq![0u32, X, ((X + Y) as u32), ((X + Y + Z) as u32)])
    }

    open spec fn coords_total(i: u32) -> Seq<int> {
        coords_of(
            (i as int) % (pow2((X + Y + Z + W) as nat) as int),
            pow2_extents(seq![X as int, Y as int, Z as int, W as int]),
        )
    }

    proof fn lemma_wf() {
        let b = seq![X as int, Y as int, Z as int, W as int];
        lemma_bits_4(X as int, Y as int, Z as int, W as int);
        lemma_pow2_extents_positive(b);
        lemma_pow2_product(b);
        lemma_u32_pow2_no_overflow((X + Y + Z + W) as nat);
    }

    fn linearize(p: [u32; 4]) -> (r: u32) {
        let shifts = Self::shifts();
        let r = pack_shifted(&shifts, p);
        proof {
            let e = <Self as ConstShape<4>>::extents();
            let b = seq![X as int, Y as int, Z as int, W as int];
            if in_range(int_seq(p@), e) {
                lemma_bits_4(X as int, Y as int, Z as int, W as int);
                lemma_or_pack_linear(p@, shifts@, b);
                lemma_pow2_extents_positive(b);
                lemma_linear_index_bounds(int_seq(p@), e);
            }
        }
        r
    }

    fn delinearize(i: u32) -> (r: [u32; 4]) {
        let masks = Self::masks();
        let shifts = Self::shifts();
        let r = unpack_masked(&masks, &shifts, i);
        proof {
            let e = <Self as ConstShape<4>>::extents();
            let b = seq![X as int, Y as int, Z as int, W as int];
            lemma_bits_4(X as int, Y as int, Z as int, W as int);
            crate::pow2::lemma_unpack_coords_total(i, r@, masks@, shifts@, b);
            if (i as int) < product_of(e) {
                lemma_pow2_product(b);
                lemma_unpack_coords(i, r@, masks@, shifts@, b);
            }
        }
        r
    }
}

impl<const X: u32, const Y: u32, const Z: u32, const W: u32> Shape<4> for ConstPow2Shape4u32<
    X,
    Y,
    Z,
    W,
> {
    open spec fn extents(&self) -> Seq<int> {
        <Self as ConstShape<4>>::extents()
    }

    open spec fn wf(&self) -> bool {
        <Self as ConstShape<4>>::wf()
    }

    open spec fn index_total(&self, p: [u32; 4]) -> u32 {
        <Self as ConstShape<4>>::index_total(p)
    }

    open spec fn coords_total(&self, i: u32) -> Seq<int> {
        <Self as ConstShape<4>>::coords_total(i)
    }

    proof fn lemma_wf(&self) {
        <Self as ConstShape<4>>::lemma_wf();
    }

    fn size(&self) -> (r: u32) {
        proof {
            lemma_bits_4(X as int, Y as int, Z as int, W as int);
            lemma_pow2_product(seq![X as int, Y as int, Z as int, W as int]);
        }
        pow2_val(X + Y + Z + W)
    }

    fn usize(&self) -> (r: usize) {
        proof {
            lemma_bits_4(X as int, Y as int, Z as int, W as int);
            lemma_pow2_product(seq![X as int, Y as int, Z as int, W as int]);
        }
        pow2_val(X + Y + Z + W) as usize
    }

    fn as_array(&self) -> (r: [u32; 4]) {
        let r = [pow2_val(X), pow2_val(Y), pow2_val(Z), pow2_val(W)];
        proof {
            assert(int_seq(r@) =~= <Self as ConstShape<4>>::extents());
        }
        r
    }

    fn linearize(&self, p: [u32; 4]) -> (r: u32) {
        <Self as ConstShape<4>>::linearize(p)
    }

    fn delinearize(&self, i: u32) -> (r: [u32; 4]) {
        <Self as ConstShape<4>>::delinearize(i)
    }
}

} // verus!
