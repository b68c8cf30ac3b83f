//! Shapes whose extents are supplied at run time.
//!
//! Both types compute their derived tables (strides, or shifts and masks,
//! plus the total size) once at construction and are immutable afterwards.

use vstd::prelude::*;
use vstd::arithmetic::power2::pow2;
use vstd::bits::lemma_u32_pow2_no_overflow;
use crate::linear::{
    all_positive, coords_of, in_range, int_seq, product_of, stride_of, wrapped_linear,
    lemma_coords_of_in_range, lemma_linear_index_bounds, lemma_product_take_le,
    lemma_product_take_succ, lemma_wrapped_linear_exact,
};
use crate::pow2::{
    all_nonneg, mask_of, or_pack, pow2_extents, shift_of, sum_of, lemma_or_pack_linear,
    lemma_pow2_extents_positive, lemma_pow2_product, lemma_shift_plus_bits_le,
    lemma_sum_take_succ,
};
use crate::Shape;

verus! {

/// An arbitrary-extent shape constructed at run time.
///
/// The stride table and total size are derived from the extents once, in
/// [`RuntimeShape::new`], and cached in the value.
#[derive(Clone, Copy)]
pub struct RuntimeShape<const N: usize> {
    array: [u32; N],
    strides: [u32; N],
    size: u32,
}

impl<const N: usize> RuntimeShape<N> {
    /// The cached stride table.
    pub closed spec fn strides(&self) -> Seq<u32> {
        self.strides@
    }

    /// Builds the shape for the given per-axis extents, deriving the stride
    /// table (`stride[0] = 1`, `stride[k] = stride[k-1] * extent[k-1]`) and
    /// the total size (the product of all extents).
    pub fn new(array: [u32; N]) -> (r: Self)
        requires
            N >= 1,
            all_positive(int_seq(array@)),
            product_of(int_seq(array@)) <= u32::MAX,
        ensures
            r.wf(),
            r.extents() == int_seq(array@),
            forall|k: int| 0 <= k < N ==> #[trigger] r.strides()[k] as int == stride_of(r.extents(), k),
    {
        let ghost e = int_seq(array@);
        let mut strides: [u32; N] = [0u32; N];
        let mut size: u32 = 1;
        let mut k: usize = 0;
        proof {
            assert(e.take(0) =~= Seq::<int>::empty());
        }
        while k < N
            invariant
                k <= N,
                N >= 1,
                e == int_seq(array@),
                e.len() == N,
                all_positive(e),
                product_of(e) <= u32::MAX,
                size as int == product_of(e.take(k as int)),
                forall|j: int| 0 <= j < k ==> #[trigger] strides@[j] as int == stride_of(e, j),
            decreases N - k,
        {
            strides[k] = size;
            proof {
                lemma_product_take_succ(e, k as int);
                lemma_product_take_le(e, k + 1 as int);
                assert(e[k as int] == array@[k as int] as int);
            }
            size = size * array[k];
            k = k + 1;
        }
        proof {
            assert(e.take(N as int) =~= e);
        }
        RuntimeShape { array, strides, size }
    }

    /// Law: the cached stride table satisfies the defining recurrence,
    /// `stride[0] = 1` and `stride[k] = stride[k-1] * extent[k-1]`.
    pub proof fn lemma_stride_table(&self, k: int)
        requires
            self.wf(),
            1 <= k < N,
        ensures
            self.strides()[0] == 1,
            self.strides()[k] as int == self.strides()[k - 1] as int * self.extents()[k - 1],
    {
        crate::linear::lemma_stride_recurrence(self.extents(), k);
        assert(self.extents().take(0) =~= Seq::<int>::empty());
    }
}

impl<const N: usize> Shape<N> for RuntimeShape<N> {
    closed spec fn extents(&self) -> Seq<int> {
        int_seq(self.array@)
    }

    open spec fn index_total(&self, p: [u32; N]) -> u32 {
        wrapped_linear(p@, self.strides())
    }

    open spec fn coords_total(&self, i: u32) -> Seq<int> {
        coords_of(i as int, self.extents())
    }

    closed spec fn wf(&self) -> bool {
        &&& N >= 1
        &&& all_positive(int_seq(self.array@))
        &&& product_of(int_seq(self.array@)) <= u32::MAX
        &&& self.size as int == product_of(int_seq(self.array@))
        &&& forall|k: int|
            0 <= k < N ==> #[trigger] self.strides@[k] as int == stride_of(int_seq(self.array@), k)
    }

    proof fn lemma_wf(&self) {
    }

    fn size(&self) -> (r: u32) {
        self.size
    }

    fn usize(&self) -> (r: usize) {
        self.size as usize
    }

    fn as_array(&self) -> (r: [u32; N]) {
        self.array
    }

    /// Row-major linearization: `sum_k p[k] * stride[k]` with 32-bit
    /// wraparound multiply and add, total on every coordinate vector.
    fn linearize(&self, p: [u32; N]) -> (r: u32) {
        let r = crate::linear::linearize_strided(&self.strides, p);
        proof {
            if in_range(int_seq(p@), self.extents()) {
                lemma_wrapped_linear_exact(p@, self.strides@, int_seq(self.array@));
                lemma_linear_index_bounds(int_seq(p@), int_seq(self.array@));
            }
        }
        r
    }

    /// The inverse conversion: repeated division by the stride of the
    /// highest remaining axis.  Total on every index; on `[0, size)` it
    /// recovers exactly the coordinates that linearize to the index.
    fn delinearize(&self, i: u32) -> (r: [u32; N]) {
        let r = crate::linear::delinearize_strided(
            &self.strides,
            i,
            Ghost(int_seq(self.array@)),
        );
        proof {
            if (i as int) < product_of(self.extents()) {
                lemma_coords_of_in_range(i as int, self.extents());
            }
        }
        r
    }
}

/// A power-of-two shape constructed at run time from per-axis *bit counts*:
/// axis `k` has extent `2^bits[k]`.
///
/// The shift and mask tables and the total size are derived from the bit
/// counts once, in [`RuntimePow2Shape::new`], and cached in the value.
/// Linearization uses shift and OR, delinearization mask and shift, in place
/// of the multiply, divide and remainder of [`RuntimeShape`].
#[derive(Clone, Copy)]
pub struct RuntimePow2Shape<const N: usize> {
    array: [u32; N],
    shifts: [u32; N],
    masks: [u32; N],
    size: u32,
    bits: Ghost<Seq<int>>,
}

impl<const N: usize> RuntimePow2Shape<N> {
    /// The per-axis bit counts the shape was constructed with.
    pub closed spec fn bits(&self) -> Seq<int> {
        self.bits@
    }

    /// The cached shift table.
    pub closed spec fn shifts(&self) -> Seq<u32> {
        self.shifts@
    }

    /// The cached mask table.
    pub closed spec fn masks(&self) -> Seq<u32> {
        self.masks@
    }

    /// Builds the shape for the given per-axis bit counts, deriving the
    /// shift table (`shift[0] = 0`, `shift[k] = shift[k-1] + bits[k-1]`),
    /// the mask table (`bits[k]` one-bits starting at `shift[k]`), the true
    /// extents (`2^bits[k]`) and the total size (`2^(sum of bits)`).
    pub fn new(bits: [u32; N]) -> (r: Self)
        requires
            N >= 1,
            sum_of(int_seq(bits@)) <= 31,
        ensures
            r.wf(),
            r.bits() == int_seq(bits@),
            r.extents() == pow2_extents(int_seq(bits@)),
            forall|k: int|
                0 <= k < N ==> #[trigger] r.shifts()[k] as int == shift_of(int_seq(bits@), k),
            forall|k: int|
                0 <= k < N ==> #[trigger] r.masks()[k] as int == mask_of(int_seq(bits@), k),
    {
        let ghost bv = int_seq(bits@);
        let mut array: [u32; N] = [0u32; N];
        let mut shifts: [u32; N] = [0u32; N];
        let mut masks: [u32; N] = [0u32; N];
        let mut total: u32 = 0;
        let mut k: usize = 0;
        proof {
            assert(bv.take(0) =~= Seq::<int>::empty());
            assert(all_nonneg(bv));
        }
        while k < N
            invariant
                k <= N,
                N >= 1,
                bv == int_seq(bits@),
                bv.len() == N,
                all_nonneg(bv),
                sum_of(bv) <= 31,
                total as int == sum_of(bv.take(k as int)),
                forall|j: int|
                    0 <= j < k ==> #[trigger] array@[j] as int == pow2(bv[j] as nat) as int,
                forall|j: int| 0 <= j < k ==> #[trigger] shifts@[j] as int == shift_of(bv, j),
                forall|j: int| 0 <= j < k ==> #[trigger] masks@[j] as int == mask_of(bv, j),
            decreases N - k,
        {
            proof {
                lemma_shift_plus_bits_le(bv, k as int);
                lemma_sum_take_succ(bv, k as int);
                assert(bv[k as int] == bits@[k as int] as int);
            }
            shifts[k] = total;
            let bk = bits[k];
            array[k] = crate::pow2::pow2_val(bk);
            masks[k] = crate::pow2::mask_val(bk, total);
            total = total + bk;
            k = k + 1;
        }
        proof {
            assert(bv.take(N as int) =~= bv);
        }
        let size = crate::pow2::pow2_val(total);
        let r = RuntimePow2Shape { array, shifts, masks, size, bits: Ghost(bv) };
        proof {
            assert(r.extents() =~= pow2_extents(bv));
        }
        r
    }

    /// Law: the mask of axis `k` is exactly its bit field - bit `t` of
    /// `mask[k]` is set if and only if `shift[k] <= t < shift[k] + bits[k]`,
    /// so each mask holds exactly `bits[k]` contiguous one-bits starting at
    /// `shift[k]`.
    pub proof fn lemma_mask_field(&self, k: int, t: u32)
        requires
            self.wf(),
            0 <= k < N,
            t < 32,
        ensures
            ((self.masks()[k] >> t) & 1u32 == 1u32) <==> ((self.shifts()[k] as int) <= (
            t as int) && (t as int) < (self.shifts()[k] as int) + self.bits()[k]),
    {
        lemma_shift_plus_bits_le(self.bits@, k);
        crate::pow2::lemma_mask_field(self.masks@[k], self.shifts@[k], self.bits@[k] as u32, t);
    }

    /// Law: masks of distinct axes never overlap - no bit of the packed
    /// index belongs to two axes.
    pub proof fn lemma_masks_disjoint(&self, j: int, k: int)
        requires
            self.wf(),
            0 <= j < N,
            0 <= k < N,
            j != k,
        ensures
            self.masks()[j] & self.masks()[k] == 0,
    {
        let mj = self.masks@[j];
        let mk = self.masks@[k];
        if j < k {
            crate::pow2::lemma_masks_disjoint(self.bits@, mj, mk, j, k);
        } else {
            crate::pow2::lemma_masks_disjoint(self.bits@, mk, mj, k, j);
            assert(mj & mk == mk & mj) by (bit_vector);
        }
    }
}

impl<const N: usize> Shape<N> for RuntimePow2Shape<N> {
    closed spec fn extents(&self) -> Seq<int> {
        int_seq(self.array@)
    }

    open spec fn index_total(&self, p: [u32; N]) -> u32 {
        or_pack(p@, self.shifts())
    }

    open spec fn coords_total(&self, i: u32) -> Seq<int> {
        coords_of((i as int) % (pow2(sum_of(self.bits()) as nat) as int), self.extents())
    }

    closed spec fn wf(&self) -> bool {
        &&& N >= 1
        &&& self.bits@.len() == N
        &&& all_nonneg(self.bits@)
        &&& sum_of(self.bits@) <= 31
        &&& (forall|k: int|
            0 <= k < N ==> #[trigger] self.array@[k] as int == pow2(self.bits@[k] as nat) as int)
        &&& (forall|k: int| 0 <= k < N ==> #[trigger] self.shifts@[k] as int == shift_of(self.bits@, k))
        &&& (forall|k: int| 0 <= k < N ==> #[trigger] self.masks@[k] as int == mask_of(self.bits@, k))
        &&& self.size as int == pow2(sum_of(self.bits@) as nat) as int
    }

    proof fn lemma_wf(&self) {
        crate::pow2::lemma_sum_nonneg(self.bits@);
        assert(self.extents() =~= pow2_extents(self.bits@));
        lemma_pow2_extents_positive(self.bits@);
        lemma_pow2_product(self.bits@);
        lemma_u32_pow2_no_overflow(sum_of(self.bits@) as nat);
    }

    fn size(&self) -> (r: u32) {
        proof {
            assert(self.extents() =~= pow2_extents(self.bits@));
            lemma_pow2_product(self.bits@);
        }
        self.size
    }

    fn usize(&self) -> (r: usize) {
        proof {
            assert(self.extents() =~= pow2_extents(self.bits@));
            lemma_pow2_product(self.bits@);
        }
        self.size as usize
    }

    fn as_array(&self) -> (r: [u32; N]) {
        self.array
    }

    /// Power-of-two linearization: each coordinate shifted to its axis's bit
    /// offset and OR-ed into the index, total on every coordinate vector.
    fn linearize(&self, p: [u32; N]) -> (r: u32) {
        proof {
            assert forall|k: int| 0 <= k < N implies #[trigger] self.shifts@[k] < 32 by {
                lemma_shift_plus_bits_le(self.bits@, k);
            }
        }
        let r = crate::pow2::pack_shifted(&self.shifts, p);
        proof {
            if in_range(int_seq(p@), self.extents()) {
                assert(self.extents() =~= pow2_extents(self.bits@));
                lemma_or_pack_linear(p@, self.shifts@, self.bits@);
                lemma_pow2_extents_positive(self.bits@);
                lemma_linear_index_bounds(int_seq(p@), self.extents());
            }
        }
        r
    }

    /// The inverse conversion: each axis's bit field is isolated by its mask
    /// and shifted back down.  Total on every index; on `[0, size)` it
    /// recovers exactly the coordinates that linearize to the index.
    fn delinearize(&self, i: u32) -> (r: [u32; N])
        ensures
            forall|k: int|
                0 <= k < N ==> #[trigger] r@[k] == (i & self.masks()[k]) >> self.shifts()[k],
    {
        proof {
            assert forall|k: int| 0 <= k < N implies #[trigger] self.shifts@[k] < 32 by {
                lemma_shift_plus_bits_le(self.bits@, k);
            }
        }
        let r = crate::pow2::unpack_masked(&self.masks, &self.shifts, i);
        proof {
            assert(self.extents() =~= pow2_extents(self.bits@));
            crate::pow2::lemma_unpack_coords_total(i, r@, self.masks@, self.shifts@, self.bits@);
            if (i as int) < product_of(self.extents()) {
                lemma_pow2_product(self.bits@);
                crate::pow2::lemma_unpack_coords(i, r@, self.masks@, self.shifts@, self.bits@);
            }
        }
        r
    }
}

} // verus!
