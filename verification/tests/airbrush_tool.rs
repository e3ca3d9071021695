//! The airbrush state machine and its ribbon output.

use stark::airbrush::{Airbrush, InputPoint};
use stark::fixed::{Fx, Vec2Fx, Vec3Fx};

fn point(xb: i64, yb: i64, pressure_b: i64, size_b: i64) -> InputPoint {
    InputPoint {
        position: Vec2Fx { x: Fx::from_bits(xb), y: Fx::from_bits(yb) },
        pressure: Fx::from_bits(pressure_b),
        color: Vec3Fx { x: Fx::from_int(1), y: Fx::from_int(1), z: Fx::from_int(1) },
        size: Fx::from_bits(size_b),
        opacity: Fx::from_bits(15 * 65536),
        rate: Fx::from_int(1),
    }
}

#[test]
fn drag_first_point_returns_none() {
    let mut tool = Airbrush::new();
    tool.start();
    let p = point(19661, 19661, 32768, 26214);
    assert!(p.in_range());
    assert!(tool.drag(p).is_none());
}

#[test]
fn drag_filters_close_points() {
    let mut tool = Airbrush::new();
    // size 100 px at half pressure: effective radius 50 px, minimum
    // spacing 5 px.
    let p1 = point(0, 0, 32768, 100 * 65536);
    assert!(tool.drag(p1).is_none());
    // One pixel away: filtered, no drawable.
    let p2 = point(65536, 0, 32768, 100 * 65536);
    assert!(tool.drag(p2).is_none());
    // A filtered point does not replace the retained point, so a third
    // point just past the threshold from the FIRST point draws.
    let p3 = point(6 * 65536, 0, 32768, 100 * 65536);
    assert!(tool.drag(p3).is_some());
}

#[test]
fn drag_far_point_returns_drawable() {
    let mut tool = Airbrush::new();
    tool.start();
    // A half-pressure point of size 0.4
    // at (0.3, 0.3), then a smaller point at (0.8, 0.9).
    let p1 = point(19661, 19661, 32768, 26214);
    assert!(tool.drag(p1).is_none());
    let p2 = point(52429, 58982, 32768, 6554);
    let d = tool.drag(p2).expect("second point is beyond the spacing threshold");

    let n = d.vertex_count();
    assert!(n % 2 == 0, "vertex count {n} is odd");
    assert!((4..=12).contains(&n), "vertex count {n} out of range");

    // The segment stays near the origin: chart (0, 0) must be touched.
    assert!(d.get_chart_keys().iter().any(|k| k.0 == 0 && k.1 == 0));

    // The random seed is a point of the unit square.
    assert!((0..65536).contains(&d.seed.x.bits));
    assert!((0..65536).contains(&d.seed.y.bits));
    assert_eq!(d.color.x.bits, 65536);

    // Paired vertices share their per-event attributes.
    let vs = &d.vertices;
    for j in 0..n / 2 {
        assert_eq!(vs[2 * j].u_bounds, vs[2 * j + 1].u_bounds);
        assert_eq!(vs[2 * j].width, vs[2 * j + 1].width);
        assert_eq!(vs[2 * j].opacity, vs[2 * j + 1].opacity);
        assert_eq!(vs[2 * j].rate, vs[2 * j + 1].rate);
    }
}

#[test]
fn stop_clears_the_retained_point() {
    let mut tool = Airbrush::new();
    let p1 = point(0, 0, 65536, 10 * 65536);
    assert!(tool.drag(p1).is_none());
    tool.stop();
    // After stop, the next point is a first point again.
    let p2 = point(50 * 65536, 0, 65536, 10 * 65536);
    assert!(tool.drag(p2).is_none());
}

#[test]
fn drag_seed_varies_per_segment() {
    // The seed comes from the random source; across many segments at
    // least two distinct values must appear (the wrapper does not
    // return a constant).
    let mut tool = Airbrush::new();
    let mut seeds = Vec::new();
    let mut x = 0i64;
    assert!(tool.drag(point(x, 0, 65536, 65536)).is_none());
    for _ in 0..16 {
        x += 100 * 65536;
        let d = tool.drag(point(x, 0, 65536, 65536)).unwrap();
        seeds.push((d.seed.x.bits, d.seed.y.bits));
    }
    let first = seeds[0];
    assert!(
        seeds.iter().any(|s| *s != first),
        "sixteen random seeds all identical: {seeds:?}"
    );
}
