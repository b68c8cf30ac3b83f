//! Verified linearization of 2D, 3D, and 4D coordinates.
//!
//! A *shape* describes the per-axis extents of a dense N-dimensional grid and
//! converts between coordinate vectors and positions in a flat backing buffer.
//! The canonical layout is row-major: axis 0 varies fastest, so
//! `linearize([x, y, z]) = x + X * y + X * Y * z` for extents `[X, Y, Z]`.
//! A different layout only needs a different permutation of the coordinates.
//!
//! Two strategies are provided.  Arbitrary-extent shapes combine
//! multiplication, division and remainder over a stride table.  Power-of-two
//! shapes are parameterized by per-axis *bit counts* and replace that
//! arithmetic with shifts and masks.  Each strategy comes in a run-time form
//! (extents supplied to a constructor, derived tables cached in the value) and
//! a compile-time form (extents carried as const generics, no stored state).
//!
//! All conversions are proved against one mathematical model, built in
//! [`linear`] and [`pow2`]: on every in-range coordinate vector a shape's
//! `linearize` returns exactly the row-major index, `delinearize` inverts it,
//! and the index range `[0, size)` is covered bijectively.  Out-of-range
//! coordinates are not rejected: `linearize` stays total and computes a
//! wrapped (modular) result, which for unsigned scalars is deliberately not
//! invertible.

pub mod const_shape;
pub mod linear;
pub mod pow2;
pub mod runtime_shape;

pub use const_shape::ConstShape2u32;
pub use const_shape::ConstShape3u32;
pub use const_shape::ConstShape4u32;
pub use const_shape::ConstPow2Shape2u32;
pub use const_shape::ConstPow2Shape3u32;
pub use const_shape::ConstPow2Shape4u32;
pub use runtime_shape::RuntimeShape;
pub use runtime_shape::RuntimePow2Shape;

use vstd::prelude::*;
use crate::linear::{all_positive, coords_of, in_range, int_seq, linear_index, product_of};

verus! {

/// The shape of an array with unspecified dimensionality: the capability set
/// every shape offers, for callers generic over both the strategy and the
/// number of axes.
///
/// `Coord` is the scalar used for coordinates and linear indices; `Vector` is
/// the coordinate-vector type.  The spec functions name each implementation's
/// model: its invariant, its cell count, which vectors are in range, which
/// indices are in bounds, and the index every in-range vector maps to.
pub trait AbstractShape<Coord, Vector> {
    /// The implementation's construction invariant.
    spec fn abs_wf(&self) -> bool;

    /// The number of cells, as the implementation's scalar.
    spec fn abs_size(&self) -> Coord;

    /// True exactly on coordinate vectors inside the shape's box.
    spec fn abs_in_range(&self, p: Vector) -> bool;

    /// True exactly on linear indices in `[0, size)`.
    spec fn abs_in_bounds(&self, i: Coord) -> bool;

    /// The linear index an in-range vector maps to.
    spec fn abs_index_of(&self, p: Vector) -> Coord;

    /// The number of elements in an array with this shape.
    fn size(&self) -> (r: Coord)
        requires
            self.abs_wf(),
        ensures
            r == self.abs_size(),
    ;

    /// Translates a vector into a single number that can be used for linear
    /// indexing.
    fn linearize(&self, p: Vector) -> (r: Coord)
        requires
            self.abs_wf(),
        ensures
            self.abs_in_range(p) ==> r == self.abs_index_of(p) && self.abs_in_bounds(r),
    ;

    /// The inverse of `linearize`: on an in-bounds index it returns the one
    /// in-range vector that linearizes to it.
    fn delinearize(&self, i: Coord) -> (r: Vector)
        requires
            self.abs_wf(),
        ensures
            self.abs_in_bounds(i) ==> self.abs_in_range(r) && self.abs_index_of(r) == i,
    ;

    /// Law: on in-range vectors, linearization never collides, so together
    /// with the contract of `delinearize` the two conversions are mutually
    /// inverse over the valid domain.
    proof fn abs_injective(&self, p: Vector, q: Vector)
        requires
            self.abs_wf(),
            self.abs_in_range(p),
            self.abs_in_range(q),
            self.abs_index_of(p) == self.abs_index_of(q),
        ensures
            p == q,
    ;
}

/// The shape of an `N`-dimensional array with `u32` coordinates.
///
/// `extents()` and `wf()` model the shape: `wf()` holds of every constructed
/// shape and guarantees positive extents whose product fits the scalar.  On
/// in-range coordinates `linearize` returns exactly the row-major linear
/// index of the model and `delinearize` inverts it; both stay total (callable
/// on any input) and never panic.
pub trait Shape<const N: usize> {
    /// The per-axis extents, as mathematical integers.
    spec fn extents(&self) -> Seq<int>;

    /// The construction invariant: the shape's cached tables agree with its
    /// extents.
    spec fn wf(&self) -> bool;

    /// The exact index `linearize` computes on every coordinate vector, in
    /// range or not: the strategy's wraparound formula.
    spec fn index_total(&self, p: [u32; N]) -> u32;

    /// The exact coordinates `delinearize` computes on every index, in
    /// bounds or not.
    spec fn coords_total(&self, i: u32) -> Seq<int>;

    /// Every well-formed shape has `N` positive extents whose product fits
    /// in 32 bits.
    proof fn lemma_wf(&self)
        requires
            self.wf(),
        ensures
            self.extents().len() == N,
            all_positive(self.extents()),
            product_of(self.extents()) <= u32::MAX,
    ;

    /// The number of elements in an array with this shape.
    fn size(&self) -> (r: u32)
        requires
            self.wf(),
        ensures
            r as int == product_of(self.extents()),
    ;

    /// The same as `self.size() as usize`.
    fn usize(&self) -> (r: usize)
        requires
            self.wf(),
        ensures
            r as int == product_of(self.extents()),
    ;

    /// The dimensions of the shape.
    fn as_array(&self) -> (r: [u32; N])
        requires
            self.wf(),
        ensures
            int_seq(r@) == self.extents(),
    ;

    /// Translates an `N`-dimensional vector into a single number that can be
    /// used for linear indexing.  In range, the result is exactly the
    /// row-major index and lies in `[0, size)`; out of range, it is the
    /// wrapped value that `index_total` names.
    fn linearize(&self, p: [u32; N]) -> (r: u32)
        requires
            self.wf(),
        ensures
            r == self.index_total(p),
            in_range(int_seq(p@), self.extents()) ==> {
                &&& r as int == linear_index(int_seq(p@), self.extents())
                &&& (r as int) < product_of(self.extents())
            },
    ;

    /// The inverse of `linearize` over `[0, size)`; on any other index it
    /// returns the coordinates that `coords_total` names.
    fn delinearize(&self, i: u32) -> (r: [u32; N])
        requires
            self.wf(),
        ensures
            int_seq(r@) == self.coords_total(i),
            (i as int) < product_of(self.extents()) ==> {
                &&& int_seq(r@) == coords_of(i as int, self.extents())
                &&& in_range(int_seq(r@), self.extents())
            },
    ;
}

/// A shape of an `N`-dimensional array fixed at compile time: extents are
/// type parameters, so conversions are associated functions with no instance
/// state, and the derived size is a compile-time constant.
///
/// The model and contracts mirror [`Shape`]; `wf()` is a condition on the
/// type's parameters alone, and no contract applies to a parameter choice
/// that breaks it (a zero extent, an overflowing product or bit-count sum).
/// The `SIZE` constant of such a choice fails to evaluate during compilation
/// wherever its value would overflow.
pub trait ConstShape<const N: usize> {
    /// The number of elements in an array with this shape.
    const SIZE: u32;

    /// Same as `Self::SIZE as usize`.
    const USIZE: usize;

    /// The dimensions of the shape.
    const ARRAY: [u32; N];

    /// The per-axis extents, as mathematical integers.
    spec fn extents() -> Seq<int>;

    /// The construction invariant over the type's parameters: positive
    /// extents whose product fits the scalar.
    spec fn wf() -> bool;

    /// The exact index `linearize` computes on every coordinate vector, in
    /// range or not: the strategy's wraparound formula.
    spec fn index_total(p: [u32; N]) -> u32;

    /// The exact coordinates `delinearize` computes on every index, in
    /// bounds or not.
    spec fn coords_total(i: u32) -> Seq<int>;

    /// Every well-formed shape has `N` positive extents whose product fits
    /// in 32 bits.
    proof fn lemma_wf()
        requires
            Self::wf(),
        ensures
            Self::extents().len() == N,
            all_positive(Self::extents()),
            product_of(Self::extents()) <= u32::MAX,
    ;

    /// Translates an `N`-dimensional vector into a single number that can be
    /// used for linear indexing; the compile-time counterpart of
    /// [`Shape::linearize`].
    fn linearize(p: [u32; N]) -> (r: u32)
        requires
            Self::wf(),
        ensures
            r == Self::index_total(p),
            in_range(int_seq(p@), Self::extents()) ==> {
                &&& r as int == linear_index(int_seq(p@), Self::extents())
                &&& (r as int) < product_of(Self::extents())
            },
    ;

    /// The inverse of `linearize` over `[0, size)`; the compile-time
    /// counterpart of [`Shape::delinearize`].
    fn delinearize(i: u32) -> (r: [u32; N])
        requires
            Self::wf(),
        ensures
            int_seq(r@) == Self::coords_total(i),
            (i as int) < product_of(Self::extents()) ==> {
                &&& int_seq(r@) == coords_of(i as int, Self::extents())
                &&& in_range(int_seq(r@), Self::extents())
            },
    ;
}

impl<const N: usize, S: Shape<N>> AbstractShape<u32, [u32; N]> for S {
    open spec fn abs_wf(&self) -> bool {
        self.wf()
    }

    open spec fn abs_size(&self) -> u32 {
        product_of(self.extents()) as u32
    }

    open spec fn abs_in_range(&self, p: [u32; N]) -> bool {
        in_range(int_seq(p@), self.extents())
    }

    open spec fn abs_in_bounds(&self, i: u32) -> bool {
        (i as int) < product_of(self.extents())
    }

    open spec fn abs_index_of(&self, p: [u32; N]) -> u32 {
        linear_index(int_seq(p@), self.extents()) as u32
    }

    fn size(&self) -> (r: u32) {
        proof {
            self.lemma_wf();
        }
        Shape::size(self)
    }

    fn linearize(&self, p: [u32; N]) -> (r: u32) {
        proof {
            self.lemma_wf();
            if in_range(int_seq(p@), self.extents()) {
                crate::linear::lemma_linear_index_bounds(int_seq(p@), self.extents());
            }
        }
        Shape::linearize(self, p)
    }

    fn delinearize(&self, i: u32) -> (r: [u32; N]) {
        proof {
            self.lemma_wf();
        }
        let r = Shape::delinearize(self, i);
        proof {
            if (i as int) < product_of(self.extents()) {
                crate::linear::lemma_coords_of_in_range(i as int, self.extents());
            }
        }
        r
    }

    proof fn abs_injective(&self, p: [u32; N], q: [u32; N]) {
        self.lemma_wf();
        crate::linear::lemma_linear_index_bounds(int_seq(p@), self.extents());
        crate::linear::lemma_linear_index_bounds(int_seq(q@), self.extents());
        crate::linear::lemma_linearize_injective(int_seq(p@), int_seq(q@), self.extents());
        assert forall|k: int| 0 <= k < N implies p[k] == q[k] by {
            assert(int_seq(p@)[k] == int_seq(q@)[k]);
        }
        assert(p =~= q);
    }
}

/// Law: cross-strategy equivalence.  Two well-formed shapes with the same
/// extents - whatever their strategy (arbitrary or power-of-two) and
/// specialization (compile-time or run-time) - map every in-range coordinate
/// vector to the same linear index: the row-major index of the shared model.
pub proof fn lemma_cross_strategy<const N: usize, S1: Shape<N>, S2: Shape<N>>(
    s1: &S1,
    s2: &S2,
    p: [u32; N],
)
    requires
        s1.wf(),
        s2.wf(),
        s1.extents() == s2.extents(),
        in_range(int_seq(p@), s1.extents()),
    ensures
        s1.abs_index_of(p) == s2.abs_index_of(p),
        s1.abs_index_of(p) as int == linear_index(int_seq(p@), s1.extents()),
{
    s1.lemma_wf();
    crate::linear::lemma_linear_index_bounds(int_seq(p@), s1.extents());
}

} // verus!
