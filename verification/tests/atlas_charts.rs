//! Chart keys and the lazily filled atlas.

use stark::atlas::{Atlas, ChartKey};
use stark::fixed::{Fx, Vec2Fx};
use stark::geom::AABox;

fn v(xb: i64, yb: i64) -> Vec2Fx {
    Vec2Fx { x: Fx::from_bits(xb), y: Fx::from_bits(yb) }
}

#[test]
fn find_containing_floors_by_chart_size() {
    assert_eq!(ChartKey::find_containing(v(0, 0)), ChartKey(0, 0));
    assert_eq!(ChartKey::find_containing(v(255 * 65536, 255 * 65536)), ChartKey(0, 0));
    assert_eq!(ChartKey::find_containing(v(256 * 65536, 0)), ChartKey(1, 0));
    assert_eq!(ChartKey::find_containing(v(-65536, -65536)), ChartKey(-1, -1));
}

#[test]
fn find_intersecting_lists_the_rectangle() {
    let shape = AABox::new(v(-65536, 0), v(300 * 65536, 200 * 65536));
    let keys = ChartKey::find_intersecting(&shape);
    assert_eq!(keys.len(), 3);
    assert!(keys.contains(&ChartKey(-1, 0)));
    assert!(keys.contains(&ChartKey(0, 0)));
    assert!(keys.contains(&ChartKey(1, 0)));
}

#[test]
fn find_covering_includes_the_triangle_charts() {
    let a = v(0, 0);
    let b = v(300 * 65536, 100 * 65536);
    let c = v(100 * 65536, 300 * 65536);
    let keys = ChartKey::find_covering(a, b, c);
    assert!(keys.contains(&ChartKey(0, 0)), "{keys:?}");
    assert!(keys.contains(&ChartKey(1, 0)), "{keys:?}");
    assert!(keys.contains(&ChartKey(0, 1)), "{keys:?}");
}

#[test]
fn get_chart_mut_creates_once() {
    let mut atlas = Atlas::new(16);
    assert_eq!(atlas.chart_count(), 0);
    assert!(atlas.get_chart(&ChartKey(3, -2)).is_none());

    let i = atlas.get_chart_mut(ChartKey(3, -2));
    assert_eq!(i, 0);
    assert_eq!(atlas.chart_count(), 1);
    let j = atlas.get_chart_mut(ChartKey(3, -2));
    assert_eq!(j, 0);
    assert_eq!(atlas.chart_count(), 1);
    let k = atlas.get_chart_mut(ChartKey(0, 0));
    assert_eq!(k, 1);
    assert_eq!(atlas.chart_count(), 2);
    assert!(atlas.get_chart(&ChartKey(3, -2)).is_some());
}

#[test]
fn new_chart_gets_transform_and_clear_texture() {
    let mut atlas = Atlas::new(16);
    let i = atlas.get_chart_mut(ChartKey(2, -1));
    let chart = atlas.chart_at(i);
    let tile = chart.tile();
    let data = atlas.pool().data(tile).expect("metadata was initialized");
    assert_eq!(data.chart_to_canvas_scale.x.bits, 256 * 65536);
    assert_eq!(data.chart_to_canvas_translation.x.bits, 2 * 256 * 65536);
    assert_eq!(data.chart_to_canvas_translation.y.bits, -256 * 65536);
    let content = atlas.pool().content(tile);
    assert_eq!(content.len(), 8 * 256 * 256);
    assert!(content.iter().all(|b| *b == 0));
}

#[test]
fn charts_iterate_in_creation_order() {
    let mut atlas = Atlas::new(16);
    atlas.get_chart_mut(ChartKey(0, 0));
    atlas.get_chart_mut(ChartKey(1, 0));
    atlas.get_chart_mut(ChartKey(0, 1));
    let charts = atlas.charts();
    assert_eq!(charts.len(), 3);
    let i0 = charts[0].tile().index();
    let i1 = charts[1].tile().index();
    let i2 = charts[2].tile().index();
    assert_ne!(i0, i1);
    assert_ne!(i1, i2);
    assert_ne!(i0, i2);
}

#[test]
fn aabox_containing_is_tight() {
    let pts = vec![v(3 * 65536, -65536), v(-2 * 65536, 5 * 65536), v(0, 0)];
    let b = AABox::containing(&pts);
    assert_eq!(b.min.x.bits, -2 * 65536);
    assert_eq!(b.min.y.bits, -65536);
    assert_eq!(b.max.x.bits, 3 * 65536);
    assert_eq!(b.max.y.bits, 5 * 65536);
    let e = AABox::containing(&Vec::new());
    assert!(e.is_empty());
}

#[test]
fn aabox_contains_and_corners() {
    let b = AABox::new(v(0, 0), v(2 * 65536, 65536));
    assert!(b.contains(v(0, 0)));
    assert!(b.contains(v(65536, 32768)));
    assert!(!b.contains(v(2 * 65536, 0)));
    assert!(!b.contains(v(-1, 0)));
    assert!(!b.is_empty());
    assert!(AABox::empty().is_empty());
    let corners = b.corners();
    assert_eq!(corners[0].x.bits, 0);
    assert_eq!(corners[2].x.bits, 2 * 65536);
}
