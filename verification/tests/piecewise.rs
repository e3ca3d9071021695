//! Piecewise-linear function behavior, on exactly representable values.

use stark::fixed::Fx;
use stark::piecewise_linear::{Breakpoint, PiecewiseLinear};

fn bp(x: i64, y: i64) -> Breakpoint {
    Breakpoint { x: Fx::from_int(x), y: Fx::from_int(y) }
}

fn pl(points: Vec<Breakpoint>) -> PiecewiseLinear {
    PiecewiseLinear::new(points).unwrap()
}

fn eval_int(f: &PiecewiseLinear, x: i64) -> i64 {
    f.evaluate(Fx::from_int(x)).bits
}

fn fxi(v: i64) -> i64 {
    v * 65536
}

#[test]
fn basic_1() {
    let a = pl(vec![bp(0, 1)]);
    assert_eq!(eval_int(&a, -1), fxi(1));
    assert_eq!(eval_int(&a, 0), fxi(1));
    assert_eq!(eval_int(&a, 1), fxi(1));
}

#[test]
fn basic_2() {
    let a = pl(vec![bp(2, 2), bp(4, 6)]);
    assert_eq!(eval_int(&a, 1), fxi(2));
    assert_eq!(eval_int(&a, 2), fxi(2));
    assert_eq!(eval_int(&a, 3), fxi(4));
    assert_eq!(eval_int(&a, 4), fxi(6));
    assert_eq!(eval_int(&a, 5), fxi(6));
}

#[test]
fn linear_map() {
    let a = pl(vec![bp(2, 2), bp(4, 6)]);
    let b = a.linear_map(Fx::from_int(2), Fx::from_int(1));
    assert_eq!(eval_int(&b, 1), fxi(5));
    assert_eq!(eval_int(&b, 2), fxi(5));
    assert_eq!(eval_int(&b, 3), fxi(9));
    assert_eq!(eval_int(&b, 4), fxi(13));
    assert_eq!(eval_int(&b, 5), fxi(13));
}

#[test]
fn bilinear_map_1() {
    let a = pl(vec![bp(2, 2), bp(4, 6)]);
    let b = pl(vec![bp(0, 1)]);

    let c = a.bilinear_map(&b, Fx::from_int(1), Fx::from_int(1));
    assert_eq!(eval_int(&c, 1), fxi(3));
    assert_eq!(eval_int(&c, 2), fxi(3));
    assert_eq!(eval_int(&c, 3), fxi(5));
    assert_eq!(eval_int(&c, 4), fxi(7));
    assert_eq!(eval_int(&c, 5), fxi(7));

    let c = b.bilinear_map(&a, Fx::from_int(1), Fx::from_int(1));
    assert_eq!(eval_int(&c, 1), fxi(3));
    assert_eq!(eval_int(&c, 2), fxi(3));
    assert_eq!(eval_int(&c, 3), fxi(5));
    assert_eq!(eval_int(&c, 4), fxi(7));
    assert_eq!(eval_int(&c, 5), fxi(7));
}

#[test]
fn bilinear_map_2() {
    let a = pl(vec![bp(2, 2), bp(4, 6)]);
    let b = pl(vec![bp(1, 1), bp(3, 5)]);

    // y + 2 * z over the merged breakpoints.
    let c = a.bilinear_map(&b, Fx::from_int(1), Fx::from_int(2));
    assert_eq!(eval_int(&c, 0), fxi(4));
    assert_eq!(eval_int(&c, 1), fxi(4));
    assert_eq!(eval_int(&c, 2), fxi(8));
    assert_eq!(eval_int(&c, 3), fxi(14));
    assert_eq!(eval_int(&c, 4), fxi(16));
    assert_eq!(eval_int(&c, 5), fxi(16));

    let c = b.bilinear_map(&a, Fx::from_int(2), Fx::from_int(1));
    assert_eq!(eval_int(&c, 0), fxi(4));
    assert_eq!(eval_int(&c, 1), fxi(4));
    assert_eq!(eval_int(&c, 2), fxi(8));
    assert_eq!(eval_int(&c, 3), fxi(14));
    assert_eq!(eval_int(&c, 4), fxi(16));
    assert_eq!(eval_int(&c, 5), fxi(16));
}

#[test]
fn pointwise_max() {
    let a = pl(vec![bp(2, 2), bp(4, 6), bp(6, -1), bp(8, 5)]);
    let b = pl(vec![bp(1, 2), bp(3, 6), bp(7, 5)]);

    let epsilon = 16i64;

    let c = a.pointwise_max(&b);
    for x in 0..10i64 {
        let want = eval_int(&a, x).max(eval_int(&b, x));
        let got = eval_int(&c, x);
        assert!(got + epsilon > want, "x={x}: {got} vs {want}");
        assert!(got - epsilon < want, "x={x}: {got} vs {want}");
    }

    let c = b.pointwise_max(&a);
    for x in 0..10i64 {
        let want = eval_int(&a, x).max(eval_int(&b, x));
        let got = eval_int(&c, x);
        assert!(got + epsilon > want, "x={x}: {got} vs {want}");
        assert!(got - epsilon < want, "x={x}: {got} vs {want}");
    }
}

#[test]
fn pointwise_min() {
    let a = pl(vec![bp(2, 2), bp(4, 6), bp(6, -1), bp(8, 5)]);
    let b = pl(vec![bp(1, 2), bp(3, 6), bp(7, 5)]);

    let epsilon = 16i64;

    let c = a.pointwise_min(&b);
    for x in 0..10i64 {
        let want = eval_int(&a, x).min(eval_int(&b, x));
        let got = eval_int(&c, x);
        assert!(got + epsilon > want, "x={x}: {got} vs {want}");
        assert!(got - epsilon < want, "x={x}: {got} vs {want}");
    }

    let c = b.pointwise_min(&a);
    for x in 0..10i64 {
        let want = eval_int(&a, x).min(eval_int(&b, x));
        let got = eval_int(&c, x);
        assert!(got + epsilon > want, "x={x}: {got} vs {want}");
        assert!(got - epsilon < want, "x={x}: {got} vs {want}");
    }
}

#[test]
fn pointwise_max_at_crossing() {
    // The two functions cross between x = 0 and x = 2; the crossing gets
    // its own breakpoint, so the maximum stays exact there. Without the
    // inserted breakpoint the result would interpolate the endpoint
    // maxima and report 2 at the crossing.
    let a = pl(vec![bp(0, 0), bp(2, 2)]);
    let b = pl(vec![bp(0, 2), bp(2, 0)]);
    let c = a.pointwise_max(&b);
    assert!(c.breakpoint_count() >= 3, "no crossing breakpoint inserted");
    // At the crossing x = 1 both functions equal 1.
    assert_eq!(eval_int(&c, 1), fxi(1));
    assert_eq!(eval_int(&c, 0), fxi(2));
    assert_eq!(eval_int(&c, 2), fxi(2));
    // Both argument orders give the same function.
    let d = b.pointwise_max(&a);
    for x in -1..4i64 {
        assert_eq!(eval_int(&c, x), eval_int(&d, x));
    }
}

#[test]
fn pointwise_min_at_crossing() {
    let a = pl(vec![bp(0, 0), bp(4, 4)]);
    let b = pl(vec![bp(0, 4), bp(4, 0)]);
    let c = a.pointwise_min(&b);
    assert!(c.breakpoint_count() >= 3, "no crossing breakpoint inserted");
    // At the crossing x = 2 both functions equal 2; left and right of it
    // the minimum follows the lower function.
    assert_eq!(eval_int(&c, 2), fxi(2));
    assert_eq!(eval_int(&c, 0), fxi(0));
    assert_eq!(eval_int(&c, 4), fxi(0));
    assert_eq!(eval_int(&c, 1), fxi(1));
    assert_eq!(eval_int(&c, 3), fxi(1));
}

#[test]
fn new_empty_fails() {
    assert!(PiecewiseLinear::new(Vec::new()).is_none());
}

#[test]
fn new_sorts_and_dedups() {
    let f = pl(vec![bp(3, 30), bp(1, 10), bp(2, 20), bp(1, 99)]);
    assert_eq!(f.breakpoint_count(), 3);
    assert_eq!(eval_int(&f, 1), fxi(10));
    assert_eq!(eval_int(&f, 2), fxi(20));
    assert_eq!(eval_int(&f, 3), fxi(30));
}

#[test]
fn evaluate_clamps() {
    // The concrete clamping scenario: breakpoints (0, 1) and (2, 3).
    let f = pl(vec![bp(0, 1), bp(2, 3)]);
    assert_eq!(eval_int(&f, -5), fxi(1));
    assert_eq!(eval_int(&f, 1), fxi(2));
    assert_eq!(eval_int(&f, 5), fxi(3));
}

#[test]
fn inflection_points() {
    let f = pl(vec![bp(0, 1), bp(2, 3)]);
    let (x0, y0) = f.first_inflection_point();
    let (x1, y1) = f.last_inflection_point();
    assert_eq!((x0.bits, y0.bits), (fxi(0), fxi(1)));
    assert_eq!((x1.bits, y1.bits), (fxi(2), fxi(3)));
}

#[test]
fn piece_at_evaluates_like_evaluate() {
    let f = pl(vec![bp(0, 1), bp(2, 3), bp(5, -1)]);
    for x in -2..8i64 {
        let xf = Fx::from_int(x);
        let piece = f.piece_at(xf);
        assert_eq!(piece.evaluate(xf).bits, f.evaluate(xf).bits);
    }
}

#[test]
fn linear_constant() {
    let c = stark::piecewise_linear::Linear::constant(Fx::from_int(7));
    assert_eq!(c.slope.bits, 0);
    assert_eq!(c.evaluate(Fx::from_int(123)).bits, fxi(7));
}
