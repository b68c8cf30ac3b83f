use ndshape::{ConstShape, ConstShape2u32, ConstShape3u32, ConstShape4u32, Shape};

#[test]
fn const3_linearize_example() {
    let shape = ConstShape3u32::<5, 6, 7>;
    let index = shape.linearize([1, 2, 3]);
    assert_eq!(index, 101);
    assert_eq!(shape.delinearize(index), [1, 2, 3]);
}

#[test]
fn const3_static_functions_match_methods() {
    let shape = ConstShape3u32::<5, 6, 7>;
    for i in 0..210u32 {
        let c = <ConstShape3u32<5, 6, 7> as ConstShape<3>>::delinearize(i);
        assert_eq!(c, shape.delinearize(i));
        assert_eq!(<ConstShape3u32<5, 6, 7> as ConstShape<3>>::linearize(c), i);
    }
}

#[test]
fn const3_consts() {
    assert_eq!(<ConstShape3u32<5, 6, 7> as ConstShape<3>>::SIZE, 210);
    assert_eq!(<ConstShape3u32<5, 6, 7> as ConstShape<3>>::USIZE, 210usize);
    assert_eq!(<ConstShape3u32<5, 6, 7> as ConstShape<3>>::ARRAY, [5, 6, 7]);
}

#[test]
fn const3_size_and_array() {
    let shape = ConstShape3u32::<5, 6, 7>;
    assert_eq!(shape.size(), 210);
    assert_eq!(Shape::usize(&shape), 210usize);
    assert_eq!(shape.as_array(), [5, 6, 7]);
}

#[test]
fn const2_round_trip_all() {
    let shape = ConstShape2u32::<7, 9>;
    assert_eq!(shape.size(), 63);
    let mut expected: u32 = 0;
    for y in 0..9u32 {
        for x in 0..7u32 {
            let i = shape.linearize([x, y]);
            assert_eq!(i, expected);
            assert_eq!(shape.delinearize(i), [x, y]);
            expected += 1;
        }
    }
    assert_eq!(expected, shape.size());
}

#[test]
fn const4_monotone_full_cover() {
    // Stepping x, then y, then z, then w gives strictly increasing indices
    // covering 0..size exactly once.
    let shape = ConstShape4u32::<5, 6, 7, 8>;
    assert_eq!(shape.size(), 5 * 6 * 7 * 8);
    let mut expected: u32 = 0;
    for w in 0..8u32 {
        for z in 0..7u32 {
            for y in 0..6u32 {
                for x in 0..5u32 {
                    let i = shape.linearize([x, y, z, w]);
                    assert_eq!(i, expected);
                    assert_eq!(shape.delinearize(i), [x, y, z, w]);
                    expected += 1;
                }
            }
        }
    }
    assert_eq!(expected, shape.size());
}

#[test]
fn unsigned_wraparound_stride() {
    // A negative vector linearizes to a negative stride in modular
    // arithmetic; with unsigned coordinates that result is deliberately not
    // invertible.
    let shape = ConstShape3u32::<10, 10, 10>;
    let stride = shape.linearize([0, -1i32 as u32, 0]);
    assert_eq!(stride, -10i32 as u32);
    assert_ne!(shape.delinearize(stride), [0, -1i32 as u32, 0]);
    assert_eq!(shape.delinearize(stride), [6, 8, 42949672]);
}

#[test]
fn wraparound_strides_compose() {
    // Moving by a wrapped stride with wrapping_add steps one cell along an
    // axis, as the documentation promises for layout tricks.
    let shape = ConstShape3u32::<10, 10, 10>;
    let minus_y = shape.linearize([0, -1i32 as u32, 0]);
    let at = shape.linearize([3, 4, 5]);
    let moved = at.wrapping_add(minus_y);
    assert_eq!(moved, shape.linearize([3, 3, 5]));
}

#[test]
fn const2_wraparound_example() {
    let shape = ConstShape2u32::<4, 4>;
    // Out-of-range coordinates wrap instead of panicking.
    let i = shape.linearize([u32::MAX, u32::MAX]);
    assert_eq!(i, u32::MAX.wrapping_add(u32::MAX.wrapping_mul(4)));
}

#[test]
fn clone_behaves_identically() {
    let shape = ConstShape3u32::<5, 6, 7>;
    let copy = shape.clone();
    assert_eq!(copy, shape);
    for i in 0..210u32 {
        assert_eq!(copy.delinearize(i), shape.delinearize(i));
    }
}
