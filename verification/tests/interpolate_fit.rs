//! Input smoothing: fitting and evaluating linear segments.

use stark::fixed::Fx;
use stark::interpolate::{BezierPoint, LinearInterpolator};

#[test]
fn test_linear_interpolator() {
    let interpolator = LinearInterpolator;
    assert!(interpolator.fit(None, &vec![(Fx::from_int(0), Fx::from_int(0))]).is_none());

    let cubic = interpolator
        .fit(
            None,
            &vec![
                (Fx::from_int(0), Fx::from_int(0)),
                (Fx::from_int(1), Fx::from_int(1)),
            ],
        )
        .unwrap();
    let epsilon = 16i64;

    let p0 = cubic.evaluate(Fx::from_int(0));
    assert_eq!(p0.t.bits, 0);
    assert_eq!(p0.y.bits, 0);
    assert!((p0.dy_dt.bits - 65536).abs() <= epsilon, "dy_dt {}", p0.dy_dt.bits);

    let p1 = cubic.evaluate(Fx::from_int(1));
    assert_eq!(p1.t.bits, 65536);
    assert_eq!(p1.y.bits, 65536);
    assert!((p1.dy_dt.bits - 65536).abs() <= epsilon, "dy_dt {}", p1.dy_dt.bits);
}

#[test]
fn fit_uses_the_initial_point() {
    let interpolator = LinearInterpolator;
    let initial = BezierPoint {
        t: Fx::from_int(0),
        y: Fx::from_int(2),
        dy_dt: Fx::from_int(0),
    };
    assert!(interpolator.fit(Some(initial), &Vec::new()).is_none());
    let bz = interpolator
        .fit(Some(initial), &vec![(Fx::from_int(2), Fx::from_int(4))])
        .unwrap();
    assert_eq!(bz.t0.bits, 0);
    assert_eq!(bz.t1.bits, 2 * 65536);
    let mid = bz.evaluate(Fx::from_int(1));
    // The midpoint of the chord from 2 to 4.
    assert!((mid.y.bits - 3 * 65536).abs() <= 16, "mid {}", mid.y.bits);
}
