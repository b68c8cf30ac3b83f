//! Mathematical model of the power-of-two strategy.
//!
//! A power-of-two shape is parameterized by per-axis *bit counts*, not
//! extents: axis `k` has extent `2^bits[k]`, occupies `bits[k]` bits of the
//! linear index starting at bit `shift[k]` (the sum of the earlier axes' bit
//! counts), and is isolated by a mask of exactly those bits.  Packing a
//! coordinate vector by shift and OR then agrees with the row-major linear
//! index over the corresponding extents, which is the cross-strategy
//! equivalence proved here.

use vstd::prelude::*;
use vstd::arithmetic::power2::{pow2, lemma_pow2_adds, lemma_pow2_pos, lemma2_to64};
use vstd::arithmetic::div_mod::{
    lemma_fundamental_div_mod_converse_div, lemma_fundamental_div_mod_converse_mod,
    lemma_mod_breakdown, lemma_mod_division_less_than_divisor, lemma_mod_multiples_basic,
    lemma_small_mod,
};
use vstd::arithmetic::mul::lemma_mul_is_commutative;
use vstd::bits::{
    low_bits_mask, lemma_u32_low_bits_mask_is_mod, lemma_u32_pow2_no_overflow,
    lemma_u32_shl_is_mul, lemma_u32_shr_is_div,
};
use crate::linear::{
    all_positive, coords_of, in_range, int_seq, linear_index, product_of, stride_of,
    lemma_linear_index_bounds,
};

verus! {

/// Sum of all per-axis bit counts: the total width of the packed index.
pub open spec fn sum_of(b: Seq<int>) -> int
    decreases b.len(),
{
    if b.len() == 0 {
        0
    } else {
        sum_of(b.drop_last()) + b.last()
    }
}

/// Every bit count is nonnegative.
pub open spec fn all_nonneg(b: Seq<int>) -> bool {
    forall|k: int| 0 <= k < b.len() ==> #[trigger] b[k] >= 0
}

/// The bit offset of axis `k` in the packed index: the sum of the bit
/// counts of all earlier axes.
pub open spec fn shift_of(b: Seq<int>, k: int) -> int {
    sum_of(b.take(k))
}

/// The true per-axis extents of a shape with bit counts `b`: `2^b[k]`.
pub open spec fn pow2_extents(b: Seq<int>) -> Seq<int>
    recommends
        all_nonneg(b),
{
    Seq::new(b.len(), |k: int| pow2(b[k] as nat) as int)
}

/// The mask isolating axis `k`: `b[k]` one-bits starting at bit `shift[k]`.
pub open spec fn mask_of(b: Seq<int>, k: int) -> int {
    low_bits_mask(b[k] as nat) as int * pow2(shift_of(b, k) as nat) as int
}

/// The packed index exactly as the executable code computes it: each
/// coordinate shifted to its axis's bit offset, all OR-ed together.  Total
/// on every coordinate vector, in range or not.
pub open spec fn or_pack(c: Seq<u32>, s: Seq<u32>) -> u32
    recommends
        c.len() == s.len(),
    decreases c.len(),
{
    if c.len() == 0 {
        0u32
    } else {
        or_pack(c.drop_last(), s.drop_last()) | (c.last() << s.last())
    }
}

/// A sum of nonnegative bit counts is nonnegative.
pub proof fn lemma_sum_nonneg(b: Seq<int>)
    requires
        all_nonneg(b),
    ensures
        sum_of(b) >= 0,
    decreases b.len(),
{
    if b.len() > 0 {
        assert(all_nonneg(b.drop_last()));
        lemma_sum_nonneg(b.drop_last());
    }
}

/// Taking one more axis adds its bit count to the running sum.
pub proof fn lemma_sum_take_succ(b: Seq<int>, k: int)
    requires
        0 <= k < b.len(),
    ensures
        sum_of(b.take(k + 1)) == sum_of(b.take(k)) + b[k],
{
    assert(b.take(k + 1).drop_last() =~= b.take(k));
    assert(b.take(k + 1).last() == b[k]);
}

/// A prefix of the bit counts never sums to more than all of them.
pub proof fn lemma_sum_take_le(b: Seq<int>, k: int)
    requires
        all_nonneg(b),
        0 <= k <= b.len(),
    ensures
        0 <= sum_of(b.take(k)),
        sum_of(b.take(k)) <= sum_of(b),
    decreases b.len() - k,
{
    assert(all_nonneg(b.take(k)));
    lemma_sum_nonneg(b.take(k));
    if k == b.len() {
        assert(b.take(k) =~= b);
    } else {
        lemma_sum_take_succ(b, k);
        lemma_sum_take_le(b, k + 1);
    }
}

/// An axis's bit field lies inside the packed index: its shift plus its
/// width is at most the total width.
pub proof fn lemma_shift_plus_bits_le(b: Seq<int>, k: int)
    requires
        all_nonneg(b),
        0 <= k < b.len(),
    ensures
        0 <= shift_of(b, k),
        shift_of(b, k) + b[k] <= sum_of(b),
        0 <= b[k],
{
    lemma_sum_take_le(b, k);
    lemma_sum_take_succ(b, k);
    lemma_sum_take_le(b, k + 1);
}

/// Shifts grow along the axes: a later axis starts at or above the end of
/// an earlier axis's bit field.
pub proof fn lemma_shift_mono(b: Seq<int>, j: int, k: int)
    requires
        all_nonneg(b),
        0 <= j < k <= b.len(),
    ensures
        shift_of(b, j) + b[j] <= shift_of(b, k),
{
    lemma_sum_take_succ(b, j);
    assert(b.take(k).take(j + 1) =~= b.take(j + 1));
    assert(all_nonneg(b.take(k)));
    lemma_sum_take_le(b.take(k), j + 1);
}

/// The cell count of a power-of-two shape is two to the total bit width.
pub proof fn lemma_pow2_product(b: Seq<int>)
    requires
        all_nonneg(b),
    ensures
        product_of(pow2_extents(b)) == pow2(sum_of(b) as nat),
    decreases b.len(),
{
    let e = pow2_extents(b);
    lemma2_to64();
    if b.len() == 0 {
        assert(e.len() == 0);
        assert(product_of(e) == 1);
        assert(pow2(0) == 1);
    } else {
        let bp = b.drop_last();
        assert(all_nonneg(bp));
        lemma_pow2_product(bp);
        lemma_sum_nonneg(bp);
        assert(b.last() == b[b.len() - 1]);
        assert(b.last() >= 0);
        assert(e.drop_last() =~= pow2_extents(bp));
        assert(e.last() == pow2(b.last() as nat) as int);
        assert(product_of(e) == product_of(e.drop_last()) * e.last());
        lemma_pow2_adds(sum_of(bp) as nat, b.last() as nat);
        assert(sum_of(b) as nat == sum_of(bp) as nat + b.last() as nat);
    }
}

/// Strides of a power-of-two shape are powers of two: the stride of axis
/// `k` is `2^shift[k]`.
pub proof fn lemma_pow2_stride(b: Seq<int>, k: int)
    requires
        all_nonneg(b),
        0 <= k <= b.len(),
    ensures
        stride_of(pow2_extents(b), k) == pow2(shift_of(b, k) as nat),
{
    assert(pow2_extents(b).take(k) =~= pow2_extents(b.take(k)));
    assert(all_nonneg(b.take(k)));
    lemma_pow2_product(b.take(k));
}

/// Power-of-two extents are positive.
pub proof fn lemma_pow2_extents_positive(b: Seq<int>)
    requires
        all_nonneg(b),
    ensures
        all_positive(pow2_extents(b)),
{
    assert forall|k: int| 0 <= k < pow2_extents(b).len() implies #[trigger] pow2_extents(b)[k]
        >= 1 by {
        lemma_pow2_pos(b[k] as nat);
    }
}

/// Cross-strategy equivalence: on in-range coordinates, packing by shifts
/// and OR computes exactly the row-major linear index over the
/// power-of-two extents - the same value the arbitrary-extent strategy
/// computes with multiplication and addition.
pub proof fn lemma_or_pack_linear(c: Seq<u32>, s: Seq<u32>, b: Seq<int>)
    requires
        all_nonneg(b),
        sum_of(b) <= 31,
        c.len() == b.len(),
        s.len() == b.len(),
        forall|k: int| 0 <= k < b.len() ==> #[trigger] s[k] as int == shift_of(b, k),
        in_range(int_seq(c), pow2_extents(b)),
    ensures
        or_pack(c, s) as int == linear_index(int_seq(c), pow2_extents(b)),
    decreases c.len(),
{
    lemma2_to64();
    if c.len() == 0 {
    } else {
        let n = c.len() as int;
        let cp = c.drop_last();
        let sp = s.drop_last();
        let bp = b.drop_last();
        let e = pow2_extents(b);
        let ep = e.drop_last();
        assert(ep =~= pow2_extents(bp));
        assert(int_seq(cp) =~= int_seq(c).drop_last());
        assert(all_nonneg(bp));
        assert(in_range(int_seq(cp), ep));
        lemma_sum_nonneg(bp);
        assert(sum_of(b) == sum_of(bp) + b.last());
        assert(b.last() >= 0);
        assert forall|k: int| 0 <= k < bp.len() implies #[trigger] sp[k] as int == shift_of(
            bp,
            k,
        ) by {
            assert(sp[k] == s[k]);
            assert(bp.take(k) =~= b.take(k));
        }
        lemma_or_pack_linear(cp, sp, bp);
        let a = or_pack(cp, sp);
        let lp = linear_index(int_seq(cp), ep);
        lemma_pow2_extents_positive(bp);
        lemma_linear_index_bounds(int_seq(cp), ep);
        lemma_pow2_product(bp);
        let sl = sum_of(bp);
        assert(b.take(n - 1) =~= bp);
        assert(s.last() as int == sl);
        assert(0 <= sl <= 31);
        assert((a as int) < pow2(sl as nat));
        let cl = c.last();
        assert(int_seq(c).last() == cl as int);
        assert((cl as int) < pow2(b.last() as nat)) by {
            assert(int_seq(c)[n - 1] < e[n - 1]);
        }
        lemma_pow2_adds(sl as nat, b.last() as nat);
        assert(pow2(sum_of(b) as nat) <= pow2(31)) by {
            if sum_of(b) < 31 {
                vstd::arithmetic::power2::lemma_pow2_strictly_increases(
                    sum_of(b) as nat,
                    31nat,
                );
            }
        }
        assert(cl as int * pow2(sl as nat) as int + pow2(sl as nat) <= pow2(sum_of(b) as nat))
            by (nonlinear_arith)
            requires
                cl as int + 1 <= pow2(b.last() as nat) as int,
                pow2(sl as nat) >= 1,
                pow2(sum_of(b) as nat) == pow2(sl as nat) * pow2(b.last() as nat),
        {
        }
        assert(cl as int * pow2(sl as nat) as int >= 0) by (nonlinear_arith)
            requires
                cl as int >= 0,
                pow2(sl as nat) as int >= 1,
        {
        }
        let slu = s.last();
        lemma_u32_shl_is_mul(cl, slu);
        let x = cl << slu;
        assert(x as int == cl as int * pow2(sl as nat) as int);
        lemma_u32_shl_is_mul(1u32, slu);
        let m = 1u32 << slu;
        assert(m as int == pow2(sl as nat) as int);
        assert(a < m);
        lemma_mod_multiples_basic(cl as int, pow2(sl as nat) as int);
        assert((x as int) % (m as int) == 0) by {
            lemma_mul_is_commutative(cl as int, pow2(sl as nat) as int);
        }
        assert(x % m == 0);
        assert(a | x == a + x) by (bit_vector)
            requires
                a < m,
                x % m == 0,
                m == 1u32 << slu,
                slu < 32,
        ;
        assert(or_pack(c, s) == a | x);
        assert(linear_index(int_seq(c), e) == lp + cl as int * product_of(ep));
        assert(or_pack(c, s) as int == lp + cl as int * pow2(sl as nat) as int);
    }
}

/// What masking and shifting extracts from a packed index: the bit field of
/// width `bb` starting at bit `sh`, as a quotient and remainder.
pub proof fn lemma_mask_extract(i: u32, m: u32, sh: u32, bb: u32)
    requires
        sh < 32,
        bb < 32,
        m as int == low_bits_mask(bb as nat) as int * pow2(sh as nat) as int,
        low_bits_mask(bb as nat) as int * pow2(sh as nat) as int <= u32::MAX,
    ensures
        ((i & m) >> sh) as int == ((i as int) / (pow2(sh as nat) as int)) % (pow2(
            bb as nat,
        ) as int),
{
    lemma_u32_pow2_no_overflow(bb as nat);
    let lm = low_bits_mask(bb as nat) as u32;
    assert(lm as int == low_bits_mask(bb as nat) as int) by {
        assert(low_bits_mask(bb as nat) < pow2(bb as nat)) by {
            lemma_pow2_pos(bb as nat);
        }
    }
    lemma_u32_shl_is_mul(lm, sh);
    assert((lm << sh) as int == m as int);
    assert(lm << sh == m);
    assert((i & (lm << sh)) >> sh == (i >> sh) & lm) by (bit_vector)
        requires
            sh < 32,
    ;
    lemma_u32_shr_is_div(i, sh);
    assert((i >> sh) as int == (i as int) / (pow2(sh as nat) as int)) by {
        lemma_pow2_pos(sh as nat);
    }
    lemma_u32_low_bits_mask_is_mod(i >> sh, bb as nat);
    assert((i >> sh) & lm == (i >> sh) % (pow2(bb as nat) as u32));
    lemma_pow2_pos(bb as nat);
}

/// Each axis of the inverse map over power-of-two extents is a bit field of
/// the index: divide by `2^shift[k]`, reduce modulo `2^bits[k]`.
pub proof fn lemma_coords_of_pow2(i: int, b: Seq<int>, k: int)
    requires
        all_nonneg(b),
        i >= 0,
        0 <= k < b.len(),
    ensures
        coords_of(i % (pow2(sum_of(b) as nat) as int), pow2_extents(b))[k] == ((i / (pow2(
            shift_of(b, k) as nat,
        ) as int)) % (pow2(b[k] as nat) as int)),
    decreases b.len(),
{
    lemma_sum_nonneg(b);
    let e = pow2_extents(b);
    let sm = sum_of(b);
    let j = i % (pow2(sm as nat) as int);
    lemma_pow2_pos(sm as nat);
    if b.len() == 1 {
        assert(e.len() == 1);
        assert(coords_of(j, e) == seq![j]);
        assert(b.take(0) =~= Seq::<int>::empty());
        assert(shift_of(b, 0) == 0);
        assert(pow2(0) == 1) by {
            lemma2_to64();
        }
        assert(i / 1int == i) by (nonlinear_arith);
        assert(b.drop_last().len() == 0);
        assert(sum_of(b.drop_last()) == 0);
        assert(sm == b[0]);
        assert(coords_of(j, e)[0] == j);
    } else {
        let bp = b.drop_last();
        let ep = e.drop_last();
        assert(all_nonneg(bp));
        assert(ep =~= pow2_extents(bp));
        let smp = sum_of(bp);
        let bl = b.last();
        lemma_sum_nonneg(bp);
        assert(bl >= 0);
        assert(sm == smp + bl);
        lemma_pow2_adds(smp as nat, bl as nat);
        lemma_pow2_pos(smp as nat);
        lemma_pow2_pos(bl as nat);
        let psm = pow2(sm as nat) as int;
        let psp = pow2(smp as nat) as int;
        let pbl = pow2(bl as nat) as int;
        assert(psm == psp * pbl);
        lemma_mod_breakdown(i, psp, pbl);
        let q = (i / psp) % pbl;
        let r = i % psp;
        assert(j == psp * q + r);
        lemma_mod_division_less_than_divisor(i, psp);
        lemma_mod_division_less_than_divisor(i / psp, pbl);
        assert(0 <= r < psp);
        assert(0 <= q < pbl);
        lemma_pow2_product(bp);
        assert(product_of(ep) == psp);
        crate::linear::lemma_coords_of_len(j % psp, ep);
        assert(coords_of(j, e) == coords_of(j % psp, ep).push(j / psp));
        lemma_mul_is_commutative(psp, q);
        lemma_fundamental_div_mod_converse_div(j, psp, q, r);
        lemma_fundamental_div_mod_converse_mod(j, psp, q, r);
        assert(j / psp == q);
        assert(j % psp == r);
        if k == b.len() - 1 {
            assert(b.take(k) =~= bp);
            assert(shift_of(b, k) == smp);
            assert(coords_of(j, e)[k] == q);
            assert(b[k] == bl);
        } else {
            lemma_coords_of_pow2(i, bp, k);
            assert(coords_of(j, e)[k] == coords_of(r, ep)[k]);
            assert(r == i % (pow2(sum_of(bp) as nat) as int));
            assert(bp.take(k) =~= b.take(k));
            assert(shift_of(bp, k) == shift_of(b, k));
            assert(bp[k] == b[k]);
        }
    }
}

/// Masks of distinct axes never overlap: no bit of the packed index belongs
/// to two axes.
pub proof fn lemma_masks_disjoint(b: Seq<int>, mj: u32, mk: u32, j: int, k: int)
    requires
        all_nonneg(b),
        sum_of(b) <= 31,
        0 <= j < k < b.len(),
        mj as int == mask_of(b, j),
        mk as int == mask_of(b, k),
    ensures
        mj & mk == 0,
{
    lemma2_to64();
    lemma_shift_plus_bits_le(b, j);
    lemma_shift_plus_bits_le(b, k);
    lemma_shift_mono(b, j, k);
    lemma_sum_take_le(b, k);
    let shj = shift_of(b, j);
    let shk = shift_of(b, k);
    let shku = shk as u32;
    lemma_u32_shl_is_mul(1u32, shku);
    assert(1u32 << shku == pow2(shk as nat)) by {
        lemma_pow2_pos(shk as nat);
        assert(pow2(shk as nat) <= pow2(31)) by {
            if shk < 31 {
                vstd::arithmetic::power2::lemma_pow2_strictly_increases(shk as nat, 31nat);
            }
        }
    }
    let m = 1u32 << shku;
    // mj occupies bits below shj + b[j] <= shk, so it is smaller than 2^shk.
    assert(mj < m) by {
        assert(low_bits_mask(b[j] as nat) < pow2(b[j] as nat)) by {
            lemma_pow2_pos(b[j] as nat);
        }
        lemma_pow2_adds(shj as nat, b[j] as nat);
        assert((low_bits_mask(b[j] as nat) as int * pow2(shj as nat) as int) < (pow2(
            (shj + b[j]) as nat,
        ) as int)) by (nonlinear_arith)
            requires
                (low_bits_mask(b[j] as nat) as int) < (pow2(b[j] as nat) as int),
                pow2(shj as nat) as int >= 1,
                pow2((shj + b[j]) as nat) as int == pow2(shj as nat) as int * pow2(
                    b[j] as nat,
                ) as int,
        {
        }
        assert(pow2((shj + b[j]) as nat) <= pow2(shk as nat)) by {
            if shj + b[j] < shk {
                vstd::arithmetic::power2::lemma_pow2_strictly_increases(
                    (shj + b[j]) as nat,
                    shk as nat,
                );
            }
        }
    }
    // mk is a multiple of 2^shk.
    assert(mk % m == 0) by {
        lemma_mod_multiples_basic(low_bits_mask(b[k] as nat) as int, pow2(shk as nat) as int);
        lemma_pow2_pos(shk as nat);
        lemma_mul_is_commutative(low_bits_mask(b[k] as nat) as int, pow2(shk as nat) as int);
    }
    assert(mj & mk == 0) by (bit_vector)
        requires
            mj < m,
            mk % m == 0,
            m == 1u32 << shku,
            shku < 32,
    ;
}

/// A mask is exactly its axis's bit field: bit `t` of `mask[k]` is set if
/// and only if `shift[k] <= t < shift[k] + bits[k]`.
pub proof fn lemma_mask_field(m: u32, sh: u32, bb: u32, t: u32)
    requires
        sh + bb <= 31,
        t < 32,
        m as int == low_bits_mask(bb as nat) as int * pow2(sh as nat) as int,
    ensures
        ((m >> t) & 1u32 == 1u32) <==> (sh <= t < sh + bb),
{
    lemma2_to64();
    lemma_u32_pow2_no_overflow(bb as nat);
    let lm = low_bits_mask(bb as nat) as u32;
    assert(lm as int == low_bits_mask(bb as nat) as int) by {
        assert(low_bits_mask(bb as nat) < pow2(bb as nat)) by {
            lemma_pow2_pos(bb as nat);
        }
    }
    assert(lm as int == pow2(bb as nat) - 1) by {
        lemma_pow2_pos(bb as nat);
    }
    assert(lm == ((1u32 << bb) - 1) as u32) by {
        lemma_u32_shl_is_mul(1u32, bb);
        assert(pow2(bb as nat) <= pow2(31)) by {
            if bb < 31 {
                vstd::arithmetic::power2::lemma_pow2_strictly_increases(bb as nat, 31nat);
            }
        }
    }
    lemma_u32_shl_is_mul(lm, sh);
    assert(m == lm << sh) by {
        assert((lm << sh) as int == lm as int * pow2(sh as nat) as int);
    }
    assert((((((1u32 << bb) - 1) as u32) << sh) >> t) & 1u32 == 1u32 <==> sh <= t < sh + bb)
        by (bit_vector)
        requires
            sh + bb <= 31,
            t < 32,
    ;
}

/// What the mask-and-shift extraction returns on every index: the
/// coordinates of the index reduced modulo the total size - the bits above
/// the packed fields are simply dropped.
pub proof fn lemma_unpack_coords_total(
    i: u32,
    out: Seq<u32>,
    masks: Seq<u32>,
    shifts: Seq<u32>,
    b: Seq<int>,
)
    requires
        all_nonneg(b),
        sum_of(b) <= 31,
        out.len() == b.len(),
        masks.len() == b.len(),
        shifts.len() == b.len(),
        forall|k: int| 0 <= k < b.len() ==> #[trigger] masks[k] as int == mask_of(b, k),
        forall|k: int| 0 <= k < b.len() ==> #[trigger] shifts[k] as int == shift_of(b, k),
        forall|k: int| 0 <= k < b.len() ==> #[trigger] out[k] == (i & masks[k]) >> shifts[k],
    ensures
        int_seq(out) == coords_of((i as int) % (pow2(sum_of(b) as nat) as int), pow2_extents(b)),
{
    let e = pow2_extents(b);
    lemma_sum_nonneg(b);
    lemma_pow2_pos(sum_of(b) as nat);
    let j = (i as int) % (pow2(sum_of(b) as nat) as int);
    crate::linear::lemma_coords_of_len(j, e);
    assert forall|k: int| 0 <= k < b.len() implies int_seq(out)[k] == coords_of(j, e)[k] by {
        lemma_shift_plus_bits_le(b, k);
        lemma_mask_extract(i, masks[k], shifts[k], b[k] as u32);
        lemma_coords_of_pow2(i as int, b, k);
    }
    assert(int_seq(out) =~= coords_of(j, e));
}

/// On an in-bounds index, extracting every axis's bit field recovers
/// exactly the in-range coordinates that pack to the index.
pub proof fn lemma_unpack_coords(i: u32, out: Seq<u32>, masks: Seq<u32>, shifts: Seq<u32>, b: Seq<int>)
    requires
        all_nonneg(b),
        sum_of(b) <= 31,
        out.len() == b.len(),
        masks.len() == b.len(),
        shifts.len() == b.len(),
        forall|k: int| 0 <= k < b.len() ==> #[trigger] masks[k] as int == mask_of(b, k),
        forall|k: int| 0 <= k < b.len() ==> #[trigger] shifts[k] as int == shift_of(b, k),
        forall|k: int| 0 <= k < b.len() ==> #[trigger] out[k] == (i & masks[k]) >> shifts[k],
        (i as int) < pow2(sum_of(b) as nat) as int,
    ensures
        int_seq(out) == coords_of(i as int, pow2_extents(b)),
        in_range(int_seq(out), pow2_extents(b)),
        linear_index(int_seq(out), pow2_extents(b)) == i as int,
{
    let e = pow2_extents(b);
    lemma_sum_nonneg(b);
    lemma_pow2_extents_positive(b);
    lemma_pow2_product(b);
    lemma_small_mod(i as nat, pow2(sum_of(b) as nat));
    lemma_unpack_coords_total(i, out, masks, shifts, b);
    crate::linear::lemma_coords_of_in_range(i as int, e);
}

/// Shared kernel of the power-of-two strategy: each coordinate shifted to
/// its axis's bit offset and OR-ed into the index.  Total on every
/// coordinate vector; `or_pack` says exactly what it returns.
pub(crate) fn pack_shifted<const N: usize>(shifts: &[u32; N], p: [u32; N]) -> (r: u32)
    requires
        forall|k: int| 0 <= k < N ==> #[trigger] shifts@[k] < 32,
    ensures
        r == or_pack(p@, shifts@),
{
    let mut acc: u32 = 0;
    let mut k: usize = 0;
    proof {
        assert(p@.take(0) =~= Seq::<u32>::empty());
        assert(shifts@.take(0) =~= Seq::<u32>::empty());
    }
    while k < N
        invariant
            k <= N,
            p@.len() == N,
            shifts@.len() == N,
            forall|j: int| 0 <= j < N ==> #[trigger] shifts@[j] < 32,
            acc == or_pack(p@.take(k as int), shifts@.take(k as int)),
        decreases N - k,
    {
        proof {
            assert(p@.take(k + 1 as int).drop_last() =~= p@.take(k as int));
            assert(shifts@.take(k + 1 as int).drop_last() =~= shifts@.take(k as int));
            assert(p@.take(k + 1 as int).last() == p@[k as int]);
            assert(shifts@.take(k + 1 as int).last() == shifts@[k as int]);
        }
        acc = acc | (p[k] << shifts[k]);
        k = k + 1;
    }
    proof {
        assert(p@.take(N as int) =~= p@);
        assert(shifts@.take(N as int) =~= shifts@);
    }
    acc
}

/// Shared kernel of the inverse: each axis's bit field isolated by its mask
/// and shifted back down.  Total on every index.
pub(crate) fn unpack_masked<const N: usize>(masks: &[u32; N], shifts: &[u32; N], i: u32) -> (r: [
    u32;
    N
])
    requires
        forall|k: int| 0 <= k < N ==> #[trigger] shifts@[k] < 32,
    ensures
        forall|k: int| 0 <= k < N ==> #[trigger] r@[k] == (i & masks@[k]) >> shifts@[k],
{
    let mut out: [u32; N] = [0u32; N];
    let mut k: usize = 0;
    while k < N
        invariant
            k <= N,
            masks@.len() == N,
            shifts@.len() == N,
            forall|j: int| 0 <= j < N ==> #[trigger] shifts@[j] < 32,
            out@.len() == N,
            forall|j: int| 0 <= j < k ==> #[trigger] out@[j] == (i & masks@[j]) >> shifts@[j],
        decreases N - k,
    {
        out[k] = (i & masks[k]) >> shifts[k];
        k = k + 1;
    }
    out
}

/// Computes `2^bb`: the extent of an axis with bit count `bb`.
pub(crate) fn pow2_val(bb: u32) -> (r: u32)
    requires
        bb <= 31,
    ensures
        r as int == pow2(bb as nat) as int,
{
    proof {
        lemma_u32_pow2_no_overflow(bb as nat);
        lemma_u32_shl_is_mul(1u32, bb);
    }
    1u32 << bb
}

/// Computes the mask of `bb` one-bits starting at bit `sh`.
pub(crate) fn mask_val(bb: u32, sh: u32) -> (r: u32)
    requires
        bb + sh <= 31,
    ensures
        r as int == low_bits_mask(bb as nat) as int * pow2(sh as nat) as int,
{
    proof {
        lemma_u32_pow2_no_overflow(bb as nat);
        lemma_u32_shl_is_mul(1u32, bb);
        lemma_pow2_adds(bb as nat, sh as nat);
        lemma_u32_pow2_no_overflow((bb + sh) as nat);
        lemma_pow2_pos(bb as nat);
        assert(low_bits_mask(bb as nat) as int == pow2(bb as nat) - 1);
        assert(((pow2(bb as nat) - 1) * pow2(sh as nat) as int) <= u32::MAX)
            by (nonlinear_arith)
            requires
                pow2(bb as nat) >= 1,
                pow2(sh as nat) >= 1,
                pow2((bb + sh) as nat) == pow2(bb as nat) * pow2(sh as nat),
                pow2((bb + sh) as nat) <= u32::MAX,
        ;
        lemma_u32_shl_is_mul(((1u32 << bb) - 1) as u32, sh);
    }
    ((1u32 << bb) - 1) << sh
}

} // verus!
