//! Conservative line stepping and triangle coverage.

use stark::fixed::{Fx, Vec2Fx};
use stark::raster::{conservative_triangle, conservative_wedge, max_line_along_x, min_line_along_x};

fn v(xb: i64, yb: i64) -> Vec2Fx {
    Vec2Fx { x: Fx::from_bits(xb), y: Fx::from_bits(yb) }
}

fn vi(x: i64, y: i64) -> Vec2Fx {
    Vec2Fx { x: Fx::from_int(x), y: Fx::from_int(y) }
}

#[test]
fn test_max_positive_line_along_x() {
    assert_eq!(max_line_along_x(v(91750, 176947), v(91750, 308019)), vec![4]);
    assert_eq!(
        max_line_along_x(v(104858, 190054), v(432538, 190054)),
        vec![2, 2, 2, 2, 2, 2],
    );
    assert_eq!(
        max_line_along_x(v(117965, 137626), v(445645, 340787)),
        vec![2, 2, 3, 4, 4, 5],
    );
    assert_eq!(max_line_along_x(v(91750, 308019), v(91750, 176947)), vec![4]);
    assert_eq!(
        max_line_along_x(v(104858, 190054), v(432538, 190054)),
        vec![2, 2, 2, 2, 2, 2],
    );
    assert_eq!(
        max_line_along_x(v(117965, 340787), v(445645, 137626)),
        vec![5, 5, 4, 3, 3, 2],
    );
}

#[test]
fn test_min_line_along_x() {
    assert_eq!(min_line_along_x(v(91750, 176947), v(91750, 308019)), vec![2]);
    assert_eq!(
        min_line_along_x(v(104858, 190054), v(432538, 190054)),
        vec![2, 2, 2, 2, 2, 2],
    );
    assert_eq!(
        min_line_along_x(v(117965, 137626), v(445645, 340787)),
        vec![2, 2, 2, 3, 4, 4],
    );
    assert_eq!(min_line_along_x(v(91750, 308019), v(91750, 176947)), vec![2]);
    assert_eq!(
        min_line_along_x(v(104858, 190054), v(432538, 190054)),
        vec![2, 2, 2, 2, 2, 2],
    );
    assert_eq!(
        min_line_along_x(v(117965, 340787), v(445645, 137626)),
        vec![5, 4, 3, 3, 2, 2],
    );
}

#[test]
fn test_conservative_wedge() {
    let cells = conservative_wedge(vi(0, 0), vi(3, 2), vi(5, -1));
    println!("{cells:?}");
    assert!(cells.contains(&(0, 0)));
}

#[test]
fn test_conservative_triangle() {
    let cells = conservative_triangle(vi(0, 0), vi(3, 2), vi(5, -1));
    println!("{cells:?}");
    assert!(cells.contains(&(0, 0)));
    let cells = conservative_triangle(vi(0, 0), vi(3, -2), vi(5, 1));
    println!("{cells:?}");
    assert!(cells.contains(&(0, 0)));
}

/// Whether `(px, py)` lies strictly inside the triangle, by signs of the
/// three edge cross products (all coordinates in raw bits).
fn strictly_inside(a: (i64, i64), b: (i64, i64), c: (i64, i64), px: i64, py: i64) -> bool {
    let e = |p: (i64, i64), q: (i64, i64)| -> i128 {
        ((q.0 - p.0) as i128) * ((py - p.1) as i128) - ((q.1 - p.1) as i128) * ((px - p.0) as i128)
    };
    let d0 = e(a, b);
    let d1 = e(b, c);
    let d2 = e(c, a);
    (d0 > 0 && d1 > 0 && d2 > 0) || (d0 < 0 && d1 < 0 && d2 < 0)
}

#[test]
fn conservative_triangle_covers_interior() {
    // The triangle (0,0), (3,2), (5,-1) must include cells (0,0) and
    // (4,0), and no cell whose interior the triangle crosses may be
    // missing: checked by sampling at sub-cell resolution.
    let a = (0i64, 0i64);
    let b = (3 * 65536, 2 * 65536);
    let c = (5 * 65536, -65536);
    let cells = conservative_triangle(
        v(a.0, a.1),
        v(b.0, b.1),
        v(c.0, c.1),
    );
    assert!(cells.contains(&(0, 0)), "missing (0,0): {cells:?}");
    assert!(cells.contains(&(4, 0)), "missing (4,0): {cells:?}");

    let step = 65536 / 8;
    let mut px = -2 * 65536;
    while px <= 7 * 65536 {
        let mut py = -3 * 65536;
        while py <= 4 * 65536 {
            if strictly_inside(a, b, c, px, py) {
                let cell = (px.div_euclid(65536) as i32, py.div_euclid(65536) as i32);
                assert!(
                    cells.contains(&cell),
                    "interior sample ({px},{py}) in missing cell {cell:?}"
                );
            }
            py += step;
        }
        px += step;
    }
}

#[test]
fn conservative_triangle_covers_interior_flipped() {
    // The counter-clockwise (negative determinant) branch of the same
    // no-omission check: every interior sample's cell is in the result.
    let a = (0i64, 0i64);
    let b = (3 * 65536, -2 * 65536);
    let c = (5 * 65536, 65536);
    let cells = conservative_triangle(
        v(a.0, a.1),
        v(b.0, b.1),
        v(c.0, c.1),
    );
    let step = 65536 / 8;
    let mut px = -2 * 65536;
    while px <= 7 * 65536 {
        let mut py = -4 * 65536;
        while py <= 3 * 65536 {
            if strictly_inside(a, b, c, px, py) {
                let cell = (px.div_euclid(65536) as i32, py.div_euclid(65536) as i32);
                assert!(
                    cells.contains(&cell),
                    "interior sample ({px},{py}) in missing cell {cell:?}"
                );
            }
            py += step;
        }
        px += step;
    }
}

#[test]
fn triangle_cover_ignores_vertex_order() {
    // With distinct abscissas the covered set is a property of the
    // triangle, not of the vertex order.
    let a = vi(0, 0);
    let b = vi(3, 2);
    let c = vi(5, -1);
    let base = conservative_triangle(a, b, c);
    assert_eq!(base, conservative_triangle(b, a, c));
    assert_eq!(base, conservative_triangle(a, c, b));
    assert_eq!(base, conservative_triangle(c, b, a));
    assert_eq!(base, conservative_triangle(b, c, a));
    assert_eq!(base, conservative_triangle(c, a, b));
}

#[test]
fn degenerate_triangle_covers_its_line() {
    // A collinear (zero-area) triangle still enumerates the cells under
    // the segment it collapses to.
    let cells = conservative_triangle(vi(0, 0), vi(2, 1), vi(4, 2));
    for x in 0..4i32 {
        let y = x / 2;
        assert!(cells.contains(&(x, y)), "missing ({x},{y}): {cells:?}");
    }
}
