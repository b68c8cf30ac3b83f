use ndshape::{ConstShape3u32, RuntimeShape, Shape};

#[test]
fn runtime3_linearize_example() {
    let shape = RuntimeShape::<3>::new([5, 6, 7]);
    let index = shape.linearize([1, 2, 3]);
    assert_eq!(index, 101);
    assert_eq!(shape.delinearize(index), [1, 2, 3]);
}

#[test]
fn runtime3_size_and_array() {
    let shape = RuntimeShape::<3>::new([5, 6, 7]);
    assert_eq!(shape.size(), 210);
    assert_eq!(Shape::usize(&shape), 210usize);
    assert_eq!(shape.as_array(), [5, 6, 7]);
}

#[test]
fn runtime_matches_const_everywhere() {
    // A run-time shape and a compile-time shape built from the same extents
    // agree on every in-range coordinate vector and every in-bounds index.
    let rt = RuntimeShape::<3>::new([5, 6, 7]);
    let ct = ConstShape3u32::<5, 6, 7>;
    assert_eq!(rt.size(), ct.size());
    assert_eq!(rt.as_array(), ct.as_array());
    for z in 0..7u32 {
        for y in 0..6u32 {
            for x in 0..5u32 {
                assert_eq!(rt.linearize([x, y, z]), ct.linearize([x, y, z]));
            }
        }
    }
    for i in 0..210u32 {
        assert_eq!(rt.delinearize(i), ct.delinearize(i));
    }
}

#[test]
fn runtime2_round_trip_all() {
    let shape = RuntimeShape::<2>::new([3, 11]);
    let mut expected: u32 = 0;
    for y in 0..11u32 {
        for x in 0..3u32 {
            let i = shape.linearize([x, y]);
            assert_eq!(i, expected);
            assert_eq!(shape.delinearize(i), [x, y]);
            expected += 1;
        }
    }
    assert_eq!(expected, shape.size());
}

#[test]
fn runtime4_round_trip_all() {
    let shape = RuntimeShape::<4>::new([3, 4, 5, 6]);
    assert_eq!(shape.size(), 360);
    for i in 0..360u32 {
        let c = shape.delinearize(i);
        assert_eq!(shape.linearize(c), i);
    }
}

#[test]
fn runtime_unsigned_wraparound_stride() {
    let shape = RuntimeShape::<3>::new([10, 10, 10]);
    let stride = shape.linearize([0, -1i32 as u32, 0]);
    assert_eq!(stride, -10i32 as u32);
    assert_ne!(shape.delinearize(stride), [0, -1i32 as u32, 0]);
    assert_eq!(shape.delinearize(stride), [6, 8, 42949672]);
}

#[test]
fn runtime_single_cell_axes() {
    let shape = RuntimeShape::<3>::new([1, 1, 1]);
    assert_eq!(shape.size(), 1);
    assert_eq!(shape.linearize([0, 0, 0]), 0);
    assert_eq!(shape.delinearize(0), [0, 0, 0]);
}

#[test]
fn runtime_clone_behaves_identically() {
    let shape = RuntimeShape::<3>::new([5, 6, 7]);
    let copy = shape.clone();
    assert_eq!(copy.size(), shape.size());
    assert_eq!(copy.as_array(), shape.as_array());
    for i in 0..210u32 {
        assert_eq!(copy.delinearize(i), shape.delinearize(i));
    }
}

#[test]
fn indexes_flat_storage() {
    // The usual use: a shape addressing a flat buffer.
    let shape = RuntimeShape::<3>::new([4, 3, 2]);
    let mut data = vec![0u32; Shape::usize(&shape)];
    for z in 0..2u32 {
        for y in 0..3u32 {
            for x in 0..4u32 {
                let i = shape.linearize([x, y, z]) as usize;
                data[i] = x + 10 * y + 100 * z;
            }
        }
    }
    for (i, v) in data.iter().enumerate() {
        let c = shape.delinearize(i as u32);
        assert_eq!(*v, c[0] + 10 * c[1] + 100 * c[2]);
    }
}

#[test]
fn stride_recurrence_observable() {
    // stride[0] = 1 and stride[k] = stride[k-1] * extent[k-1]: a unit step
    // along axis k moves the linear index by exactly that stride.
    let shape = RuntimeShape::<4>::new([3, 4, 5, 6]);
    assert_eq!(shape.linearize([0, 0, 0, 0]), 0);
    assert_eq!(shape.linearize([1, 0, 0, 0]), 1);
    assert_eq!(shape.linearize([0, 1, 0, 0]), 3);
    assert_eq!(shape.linearize([0, 0, 1, 0]), 3 * 4);
    assert_eq!(shape.linearize([0, 0, 0, 1]), 3 * 4 * 5);
}
