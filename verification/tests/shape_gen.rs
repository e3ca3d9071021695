//! Procedural brush shape generation.

use stark::shape::{centered_uniform_samples, generate_test_shape, uniform_samples};

#[test]
fn uniform_samples_span_the_unit_interval() {
    let s = uniform_samples(5);
    assert_eq!(s.len(), 5);
    assert_eq!(s[0].bits, 0);
    assert_eq!(s[1].bits, 16384);
    assert_eq!(s[2].bits, 32768);
    assert_eq!(s[4].bits, 65536);
}

#[test]
fn centered_samples_span_both_signs() {
    let s = centered_uniform_samples(3);
    assert_eq!(s.len(), 3);
    assert_eq!(s[0].bits, -65536);
    assert_eq!(s[1].bits, 0);
    assert_eq!(s[2].bits, 65536);
}

#[test]
fn generate_test_shape_is_radial() {
    let shape = generate_test_shape(9);
    assert_eq!(shape.width, 9);
    assert_eq!(shape.height, 9);
    assert_eq!(shape.values.len(), 81);
    // The center sample has full coverage; the corners have none.
    assert_eq!(shape.values[4 * 9 + 4].bits, 65536);
    assert_eq!(shape.values[0].bits, 0);
    assert_eq!(shape.values[80].bits, 0);
    // Coverage decreases from the center to the right edge.
    let center = shape.values[4 * 9 + 4].bits;
    let edge = shape.values[4 * 9 + 8].bits;
    assert!(center > edge);
}
