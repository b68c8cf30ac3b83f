use ndshape::{
    ConstPow2Shape2u32, ConstPow2Shape3u32, ConstPow2Shape4u32, ConstShape, RuntimePow2Shape,
    RuntimeShape, Shape,
};

#[test]
fn pow2_const3_linearize_example() {
    // Bit counts [1, 2, 3]: extents [2, 4, 8], fields packed low to high.
    let shape = ConstPow2Shape3u32::<1, 2, 3>;
    let index = shape.linearize([1, 2, 3]);
    assert_eq!(index, 0b011_10_1);
    assert_eq!(index, 29);
    assert_eq!(shape.delinearize(index), [1, 2, 3]);
}

#[test]
fn pow2_const3_reports_true_extents() {
    let shape = ConstPow2Shape3u32::<1, 2, 3>;
    assert_eq!(shape.as_array(), [2, 4, 8]);
    assert_eq!(shape.size(), 64);
    assert_eq!(Shape::usize(&shape), 64usize);
    assert_eq!(<ConstPow2Shape3u32<1, 2, 3> as ConstShape<3>>::SIZE, 64);
    assert_eq!(<ConstPow2Shape3u32<1, 2, 3> as ConstShape<3>>::USIZE, 64usize);
    assert_eq!(<ConstPow2Shape3u32<1, 2, 3> as ConstShape<3>>::ARRAY, [2, 4, 8]);
}

#[test]
fn pow2_const2_round_trip_all() {
    let shape = ConstPow2Shape2u32::<3, 2>;
    assert_eq!(shape.as_array(), [8, 4]);
    let mut expected: u32 = 0;
    for y in 0..4u32 {
        for x in 0..8u32 {
            let i = shape.linearize([x, y]);
            assert_eq!(i, expected);
            assert_eq!(shape.delinearize(i), [x, y]);
            expected += 1;
        }
    }
    assert_eq!(expected, shape.size());
}

#[test]
fn pow2_const4_round_trip_all() {
    // All four axes take part in the packed index, so every coordinate
    // vector survives the round trip, the fourth axis included.
    let shape = ConstPow2Shape4u32::<1, 2, 3, 2>;
    assert_eq!(shape.as_array(), [2, 4, 8, 4]);
    assert_eq!(shape.size(), 256);
    let mut expected: u32 = 0;
    for w in 0..4u32 {
        for z in 0..8u32 {
            for y in 0..4u32 {
                for x in 0..2u32 {
                    let i = shape.linearize([x, y, z, w]);
                    assert_eq!(i, expected);
                    assert_eq!(shape.delinearize(i), [x, y, z, w]);
                    expected += 1;
                }
            }
        }
    }
    assert_eq!(expected, shape.size());
}

#[test]
fn pow2_runtime_matches_const() {
    let rt = RuntimePow2Shape::<3>::new([1, 2, 3]);
    let ct = ConstPow2Shape3u32::<1, 2, 3>;
    assert_eq!(rt.as_array(), ct.as_array());
    assert_eq!(rt.size(), ct.size());
    for i in 0..64u32 {
        let c = rt.delinearize(i);
        assert_eq!(c, ct.delinearize(i));
        assert_eq!(rt.linearize(c), ct.linearize(c));
        assert_eq!(rt.linearize(c), i);
    }
}

#[test]
fn cross_strategy_equivalence() {
    // For power-of-two extents, the arbitrary strategy (multiply and add)
    // and the power-of-two strategy (shift and OR) linearize identically on
    // every in-range coordinate vector.
    let arbitrary = RuntimeShape::<3>::new([4, 8, 16]);
    let shifty = RuntimePow2Shape::<3>::new([2, 3, 4]);
    assert_eq!(arbitrary.as_array(), shifty.as_array());
    assert_eq!(arbitrary.size(), shifty.size());
    for z in 0..16u32 {
        for y in 0..8u32 {
            for x in 0..4u32 {
                assert_eq!(arbitrary.linearize([x, y, z]), shifty.linearize([x, y, z]));
            }
        }
    }
}

#[test]
fn pow2_zero_bit_axis() {
    // A zero bit count means a single-cell axis; its coordinate is always 0
    // and it contributes nothing to the index.
    let shape = ConstPow2Shape3u32::<2, 0, 3>;
    assert_eq!(shape.as_array(), [4, 1, 8]);
    assert_eq!(shape.size(), 32);
    for z in 0..8u32 {
        for x in 0..4u32 {
            let i = shape.linearize([x, 0, z]);
            assert_eq!(shape.delinearize(i), [x, 0, z]);
        }
    }
}

#[test]
fn pow2_wrapped_high_bits_dropped() {
    // Out-of-range coordinates have their high bits shifted out instead of
    // panicking; the result is not invertible.
    let shape = ConstPow2Shape2u32::<2, 2>;
    let i = shape.linearize([0, 21]);
    assert_eq!(i, 84);
    assert_ne!(shape.delinearize(i), [0, 21]);
    assert_eq!(shape.delinearize(i), [0, 1]);
}

#[test]
fn shift_table_observable() {
    // shift[0] = 0 and shift[k] = shift[k-1] + bits[k-1]: a unit step along
    // axis k sets exactly the bit at shift[k].
    let shape = RuntimePow2Shape::<4>::new([1, 2, 3, 2]);
    assert_eq!(shape.linearize([1, 0, 0, 0]), 1 << 0);
    assert_eq!(shape.linearize([0, 1, 0, 0]), 1 << 1);
    assert_eq!(shape.linearize([0, 0, 1, 0]), 1 << 3);
    assert_eq!(shape.linearize([0, 0, 0, 1]), 1 << 6);
}

#[test]
fn masks_isolate_axes() {
    // Each axis occupies its own bits: contributions of distinct axes never
    // overlap, and together they assemble the full index.
    let shape = RuntimePow2Shape::<3>::new([2, 3, 4]);
    let x = shape.linearize([3, 0, 0]);
    let y = shape.linearize([0, 5, 0]);
    let z = shape.linearize([0, 0, 9]);
    assert_eq!(x & y, 0);
    assert_eq!(x & z, 0);
    assert_eq!(y & z, 0);
    assert_eq!(x | y | z, shape.linearize([3, 5, 9]));
}
