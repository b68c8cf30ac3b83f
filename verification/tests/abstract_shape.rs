use ndshape::{AbstractShape, ConstShape3u32, RuntimeShape};

#[test]
fn abstract_shape_interface() {
    // All shapes are usable behind the dimensionality-unspecific interface.
    let rt = RuntimeShape::<3>::new([5, 6, 7]);
    let ct = ConstShape3u32::<5, 6, 7>;
    assert_eq!(AbstractShape::size(&rt), 210);
    assert_eq!(AbstractShape::size(&ct), 210);
    assert_eq!(AbstractShape::linearize(&rt, [4, 3, 2]), AbstractShape::linearize(&ct, [4, 3, 2]));
    assert_eq!(
        AbstractShape::delinearize(&rt, 123u32),
        AbstractShape::delinearize(&ct, 123u32)
    );
    // The abstract index agrees with the concrete one.
    assert_eq!(AbstractShape::linearize(&rt, [1, 2, 3]), 101);
}
