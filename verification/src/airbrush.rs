//! The airbrush tool: a state machine that turns successive input points
//! into variable-width ribbon geometry and the set of charts it touches.
//!
//! The tool retains the previous input point. Each new point either is
//! coalesced away (closer than the minimum spacing: a designed no-op, not
//! an error), or produces one stroke segment: a blend function over the
//! distance along the segment interpolates radius, opacity and paint rate
//! between the two points, and one pair of ribbon vertices is emitted per
//! inflection point of the merged blend and texture-ramp functions.

use vstd::prelude::*;

use crate::atlas::{keys_contain, ChartKey, CHART_SCALE_BITS};
use crate::fixed::{
    lemma_isqrt_dominates, lemma_trunc_div_bound, trunc_div, v2_wf, v3_wf, Fx, Vec2Fx, Vec3Fx,
};
use crate::piecewise_linear::{
    bp_wf, contains_bits, has_x, lemma_eval_in_range, pl_new_rel, pl_wf, sort_dedup_fx,
    Breakpoint, PiecewiseLinear,
};
use crate::raster::{cells_contain, sort_dedup_cells, tri_covers};

verus! {

/// One sampled input point of a stroke.
#[derive(Clone, Copy, PartialEq, Eq, Structural, Debug)]
pub struct InputPoint {
    pub position: Vec2Fx,
    pub pressure: Fx,
    pub color: Vec3Fx,
    pub size: Fx,
    pub opacity: Fx,
    pub rate: Fx,
}

/// A well-formed input point: position within the canvas range, pressure
/// in `[0, 1]`, brush parameters non-negative and bounded.
pub open spec fn input_wf(p: InputPoint) -> bool {
    &&& -0x10_0000_0000 <= p.position.x.bits <= 0x10_0000_0000
    &&& -0x10_0000_0000 <= p.position.y.bits <= 0x10_0000_0000
    &&& 0 <= p.pressure.bits <= 65536
    &&& 0 <= p.size.bits <= 0x1000_0000
    &&& 0 <= p.opacity.bits <= 0x1000_0000
    &&& 0 <= p.rate.bits <= 0x1000_0000
    &&& v3_wf(p.color)
}

impl InputPoint {
    /// Whether the point is well-formed; a host checks this before
    /// handing the point to [`Airbrush::drag`].
    pub fn in_range(&self) -> (r: bool)
        ensures
            r == input_wf(*self),
    {
        -0x10_0000_0000 <= self.position.x.bits && self.position.x.bits <= 0x10_0000_0000
            && -0x10_0000_0000 <= self.position.y.bits && self.position.y.bits <= 0x10_0000_0000
            && 0 <= self.pressure.bits && self.pressure.bits <= 65536 && 0 <= self.size.bits
            && self.size.bits <= 0x1000_0000 && 0 <= self.opacity.bits && self.opacity.bits
            <= 0x1000_0000 && 0 <= self.rate.bits && self.rate.bits <= 0x1000_0000
            && self.color.x.in_range() && self.color.y.in_range() && self.color.z.in_range()
    }
}

/// A point's effective radius: its size scaled by its pressure.
pub open spec fn point_radius_bits(p: InputPoint) -> int {
    trunc_div(p.size.bits * p.pressure.bits, 65536)
}

/// The minimum spacing between two retained points: a small fraction of
/// the sum of their effective radii.
pub open spec fn min_spacing_bits(a: InputPoint, b: InputPoint) -> int {
    trunc_div(3277 * (point_radius_bits(a) + point_radius_bits(b)), 65536)
}

/// Squared distance between the two points' positions, in squared raw
/// bits.
pub open spec fn delta_sq_bits(a: InputPoint, b: InputPoint) -> int {
    (b.position.x.bits - a.position.x.bits) * (b.position.x.bits - a.position.x.bits) + (
    b.position.y.bits - a.position.y.bits) * (b.position.y.bits - a.position.y.bits)
}

/// The new point is closer to the retained point than the minimum
/// spacing: it is coalesced away without replacing the retained point.
pub open spec fn spacing_filtered(last: InputPoint, p: InputPoint) -> bool {
    delta_sq_bits(last, p) < min_spacing_bits(last, p) * min_spacing_bits(last, p)
}

/// One ribbon vertex.
#[derive(Clone, Copy, PartialEq, Eq, Structural, Debug)]
pub struct VertexInput {
    pub position: Vec2Fx,
    pub u_bounds: Vec2Fx,
    pub opacity: Fx,
    pub rate: Fx,
    pub width: Fx,
}

/// Some triangle of the strip over `ps` conservatively covers chart
/// `(x, y)`.
pub open spec fn strip_covers(ps: Seq<Vec2Fx>, x: int, y: int) -> bool {
    exists|j: int|
        0 <= j && j + 2 < ps.len() && #[trigger] tri_covers(
            ps[j],
            ps[j + 1],
            ps[j + 2],
            CHART_SCALE_BITS as int,
            x,
            y,
        )
}

/// One drawable stroke segment: the ribbon vertices, the charts the
/// ribbon touches, and the per-segment shader inputs.
pub struct AirbrushDrawable {
    pub vertices: Vec<VertexInput>,
    pub chart_keys: Vec<ChartKey>,
    pub seed: Vec2Fx,
    pub color: Vec3Fx,
}

impl AirbrushDrawable {
    /// Number of ribbon vertices.
    pub fn vertex_count(&self) -> (r: usize)
        ensures
            r == self.vertices@.len(),
    {
        self.vertices.len()
    }

    /// The charts the ribbon touches: the caller's redraw set.
    pub fn get_chart_keys(&self) -> (r: &Vec<ChartKey>)
        ensures
            r@ == self.chart_keys@,
    {
        &self.chart_keys
    }
}

/// The airbrush: retains the previous input point of the current stroke.
pub struct Airbrush {
    last_point: Option<InputPoint>,
}

/// The retained point, if any, is well-formed.
pub open spec fn airbrush_wf(a: Airbrush) -> bool {
    a.spec_last_point() is Some ==> input_wf(a.spec_last_point()->Some_0)
}

impl Airbrush {
    /// The retained point.
    pub closed spec fn spec_last_point(self) -> Option<InputPoint> {
        self.last_point
    }

    /// A fresh tool with no retained point.
    pub fn new() -> (r: Airbrush)
        ensures
            r.spec_last_point() is None,
            airbrush_wf(r),
    {
        Airbrush { last_point: None }
    }

    /// Begin a stroke: clear the retained point.
    pub fn start(&mut self)
        ensures
            final(self).spec_last_point() is None,
    {
        self.last_point = None;
    }

    /// End the stroke: clear the retained point.
    pub fn stop(&mut self)
        ensures
            final(self).spec_last_point() is None,
    {
        self.last_point = None;
    }
}

/// Relies on fastrand::i64: a uniform draw from the given range.
#[verifier::external_body]
fn random_unit_bits() -> (r: i64)
    ensures
        0 <= r < 65536,
{
    fastrand::i64(0..65536)
}

/// An exact multiple divides back out, under truncation.
proof fn lemma_trunc_div_exact(v: int)
    ensures
        trunc_div(65536 * v, 65536) == v,
{
    if v >= 0 {
        vstd::arithmetic::div_mod::lemma_div_multiples_vanish(v, 65536);
    } else {
        vstd::arithmetic::div_mod::lemma_div_multiples_vanish(-v, 65536);
        assert(-(65536 * v) == 65536 * (-v)) by (nonlinear_arith);
    }
}

/// A ramp value below the clipped quotient scales back to at most the
/// segment length.
proof fn lemma_scaled_ramp_bound(b1: int, d: int, lb: int)
    requires
        d > 0,
        lb >= 0,
        0 <= b1,
        b1 <= trunc_div(lb * 65536, d),
    ensures
        trunc_div(b1 * d, 65536) <= lb,
{
    let q = (lb * 65536) / d;
    assert(lb * 65536 >= 0) by (nonlinear_arith)
        requires
            lb >= 0,
    ;
    vstd::arithmetic::div_mod::lemma_fundamental_div_mod(lb * 65536, d);
    assert(q * d <= lb * 65536) by (nonlinear_arith)
        requires
            lb * 65536 == d * q + (lb * 65536) % d,
            0 <= (lb * 65536) % d,
    ;
    assert(b1 * d <= q * d) by (nonlinear_arith)
        requires
            b1 <= q,
            d > 0,
    ;
    assert(b1 * d >= 0) by (nonlinear_arith)
        requires
            b1 >= 0,
            d > 0,
    ;
    vstd::arithmetic::div_mod::lemma_div_is_ordered(b1 * d, lb * 65536, 65536);
    assert(lb * 65536 == 65536 * lb) by (nonlinear_arith);
    vstd::arithmetic::div_mod::lemma_div_multiples_vanish(lb, 65536);
}

/// The sample list the blend function is built from. With a long segment
/// the blend ramps from 0 to 1 between the two caps, shifted by the size
/// difference; with a short segment the ramp is clipped to the reachable
/// blend range, which pinches the stroke when a large point follows a
/// small one.
pub open spec fn spec_blend_points(s0: int, s1: int, len: int) -> Seq<Breakpoint> {
    if len > s0 + s1 {
        let sf = {
            let q = trunc_div((s0 - s1) * 65536, len);
            if q < -65536 {
                -65536int
            } else if q > 65536 {
                65536int
            } else {
                q
            }
        };
        seq![
            Breakpoint { x: Fx { bits: (-s0) as i64 }, y: Fx { bits: 0 } },
            Breakpoint { x: Fx { bits: trunc_div(s0 * sf, 65536) as i64 }, y: Fx { bits: 0 } },
            Breakpoint {
                x: Fx { bits: (len + trunc_div(s1 * sf, 65536)) as i64 },
                y: Fx { bits: 65536 },
            },
            Breakpoint { x: Fx { bits: (len + s1) as i64 }, y: Fx { bits: 65536 } },
        ]
    } else {
        let b0 = if s1 > len + s0 {
            let q = 65536 - trunc_div(len * 65536, s1 - s0);
            if q < 0 {
                0int
            } else {
                q
            }
        } else {
            0int
        };
        let b1 = if s0 > len + s1 {
            let q = trunc_div(len * 65536, s0 - s1);
            if q > 65536 {
                65536int
            } else {
                q
            }
        } else {
            65536int
        };
        seq![
            Breakpoint {
                x: Fx { bits: (0 - (s0 + trunc_div(b0 * (s1 - s0), 65536))) as i64 },
                y: Fx { bits: b0 as i64 },
            },
            Breakpoint {
                x: Fx { bits: (len + s0 + trunc_div(b1 * (s1 - s0), 65536)) as i64 },
                y: Fx { bits: b1 as i64 },
            },
        ]
    }
}

/// Build the blend function of one stroke segment: distance along the
/// segment to interpolation factor between the two endpoints.
fn stroke_blend(s0: Fx, s1: Fx, length: Fx) -> (r: PiecewiseLinear)
    requires
        0 <= s0.bits <= 0x1000_0000,
        0 <= s1.bits <= 0x1000_0000,
        0 <= length.bits <= 0x40_0000_0000,
    ensures
        pl_new_rel(spec_blend_points(s0.bits as int, s1.bits as int, length.bits as int), r),
        r@.len() <= 4,
        s0.bits > 0 || s1.bits > 0 || length.bits > 0 ==> r@.len() >= 2,
        forall|k: int| 0 <= k < r@.len() ==> 0 <= (#[trigger] r@[k]).y.bits <= 65536,
        forall|k: int|
            0 <= k < r@.len() ==> -0x41_0000_0000 <= (#[trigger] r@[k]).x.bits <= 0x41_0000_0000,
{
    let s0b: i64 = s0.bits;
    let s1b: i64 = s1.bits;
    let lb: i64 = length.bits;
    let mut pts: Vec<Breakpoint> = Vec::new();
    if lb > s0b + s1b {
        let q: i128 = crate::fixed::trunc_div_i128(((s0b - s1b) as i128) * 65536, lb as i128);
        let sf: i64 = if q < -65536 {
            -65536
        } else if q > 65536 {
            65536
        } else {
            q as i64
        };
        proof {
            assert(-0x1000_0000 * 65536 <= s0b * sf <= 0x1000_0000 * 65536) by (nonlinear_arith)
                requires
                    0 <= s0b <= 0x1000_0000,
                    -65536 <= sf <= 65536,
            ;
            lemma_trunc_div_bound((s0b * sf) as int, 65536, 0x1000_0000);
            assert(-0x1000_0000 * 65536 <= s1b * sf <= 0x1000_0000 * 65536) by (nonlinear_arith)
                requires
                    0 <= s1b <= 0x1000_0000,
                    -65536 <= sf <= 65536,
            ;
            lemma_trunc_div_bound((s1b * sf) as int, 65536, 0x1000_0000);
        }
        let m0: i128 = crate::fixed::trunc_div_i128((s0b as i128) * (sf as i128), 65536);
        let m1: i128 = crate::fixed::trunc_div_i128((s1b as i128) * (sf as i128), 65536);
        pts.push(Breakpoint { x: Fx { bits: -s0b }, y: Fx { bits: 0 } });
        pts.push(Breakpoint { x: Fx { bits: m0 as i64 }, y: Fx { bits: 0 } });
        pts.push(Breakpoint { x: Fx { bits: lb + (m1 as i64) }, y: Fx { bits: 65536 } });
        pts.push(Breakpoint { x: Fx { bits: lb + s1b }, y: Fx { bits: 65536 } });
    } else {
        let b0: i64 = if s1b > lb + s0b {
            let q: i128 = crate::fixed::trunc_div_i128(
                (lb as i128) * 65536,
                (s1b - s0b) as i128,
            );
            proof {
                vstd::arithmetic::div_mod::lemma_div_pos_is_pos((lb as i128) * 65536 as int, (s1b
                    - s0b) as int);
                assert((lb as i128) * 65536 >= 0) by (nonlinear_arith)
                    requires
                        lb >= 0,
                ;
            }
            let v: i128 = 65536 - q;
            if v < 0 {
                0
            } else {
                v as i64
            }
        } else {
            0
        };
        let b1: i64 = if s0b > lb + s1b {
            let q: i128 = crate::fixed::trunc_div_i128(
                (lb as i128) * 65536,
                (s0b - s1b) as i128,
            );
            proof {
                assert((lb as i128) * 65536 >= 0) by (nonlinear_arith)
                    requires
                        lb >= 0,
                ;
                vstd::arithmetic::div_mod::lemma_div_pos_is_pos((lb as i128) * 65536 as int, (s0b
                    - s1b) as int);
            }
            if q > 65536 {
                65536
            } else {
                q as i64
            }
        } else {
            65536
        };
        proof {
            assert(0 <= b0 <= 65536) by {
                if s1b > lb + s0b {
                    lemma_trunc_div_bound((lb as int) * 65536, (s1b - s0b) as int, 65536);
                    assert((lb as int) * 65536 <= 65536 * ((s1b - s0b) as int)) by (nonlinear_arith)
                        requires
                            0 <= lb,
                            lb < s1b - s0b,
                    ;
                }
            }
            assert(-0x1000_0000 * 65536 <= b0 * (s1b - s0b) <= 0x1000_0000 * 65536)
                by (nonlinear_arith)
                requires
                    0 <= b0 <= 65536,
                    -0x1000_0000 <= s1b - s0b <= 0x1000_0000,
            ;
            lemma_trunc_div_bound((b0 * (s1b - s0b)) as int, 65536, 0x1000_0000);
            assert(-0x1000_0000 * 65536 <= b1 * (s1b - s0b) <= 0x1000_0000 * 65536)
                by (nonlinear_arith)
                requires
                    0 <= b1 <= 65536,
                    -0x1000_0000 <= s1b - s0b <= 0x1000_0000,
            ;
            lemma_trunc_div_bound((b1 * (s1b - s0b)) as int, 65536, 0x1000_0000);
        }
        let t0: i128 = crate::fixed::trunc_div_i128((b0 as i128) * ((s1b - s0b) as i128), 65536);
        let t1: i128 = crate::fixed::trunc_div_i128((b1 as i128) * ((s1b - s0b) as i128), 65536);
        pts.push(Breakpoint { x: Fx { bits: 0 - (s0b + (t0 as i64)) }, y: Fx { bits: b0 } });
        pts.push(Breakpoint { x: Fx { bits: lb + s0b + (t1 as i64) }, y: Fx { bits: b1 } });
        proof {
            if s0b > 0 || s1b > 0 || lb > 0 {
                if s1b > lb + s0b {
                    assert(b1 == 65536);
                    assert((b1 as int) * ((s1b - s0b) as int) == 65536 * ((s1b - s0b) as int))
                        by (nonlinear_arith)
                        requires
                            b1 == 65536,
                    ;
                    lemma_trunc_div_exact((s1b - s0b) as int);
                    assert((b0 as int) * ((s1b - s0b) as int) >= 0) by (nonlinear_arith)
                        requires
                            b0 >= 0,
                            s1b - s0b > 0,
                    ;
                    vstd::arithmetic::div_mod::lemma_div_pos_is_pos(
                        (b0 as int) * ((s1b - s0b) as int),
                        65536,
                    );
                } else if s0b > lb + s1b {
                    assert(b0 == 0);
                    assert((b0 as int) * ((s1b - s0b) as int) == 0) by (nonlinear_arith)
                        requires
                            b0 == 0,
                    ;
                    crate::fixed::lemma_trunc_div_bound(0, 65536, 0);
                    lemma_scaled_ramp_bound(b1 as int, (s0b - s1b) as int, lb as int);
                    assert((b1 as int) * ((s1b - s0b) as int) == -((b1 as int) * ((s0b
                        - s1b) as int))) by (nonlinear_arith);
                } else {
                    assert(b0 == 0 && b1 == 65536);
                    assert((b0 as int) * ((s1b - s0b) as int) == 0) by (nonlinear_arith)
                        requires
                            b0 == 0,
                    ;
                    crate::fixed::lemma_trunc_div_bound(0, 65536, 0);
                    assert((b1 as int) * ((s1b - s0b) as int) == 65536 * ((s1b - s0b) as int))
                        by (nonlinear_arith)
                        requires
                            b1 == 65536,
                    ;
                    lemma_trunc_div_exact((s1b - s0b) as int);
                }
                assert(pts@[0].x.bits < pts@[1].x.bits);
            }
        }
    }
    let ghost input = pts@;
    proof {
        assert(input =~= spec_blend_points(s0.bits as int, s1.bits as int, length.bits as int));
        assert(forall|i: int| 0 <= i < input.len() ==> bp_wf(#[trigger] input[i]));
    }
    let r = match PiecewiseLinear::new(pts) {
        Some(f) => f,
        None => {
            proof {
                assert(false);
            }
            vstd::pervasive::unreached()
        },
    };
    proof {
        assert forall|k: int| 0 <= k < r@.len() implies 0 <= (#[trigger] r@[k]).y.bits <= 65536
            && -0x41_0000_0000 <= r@[k].x.bits <= 0x41_0000_0000 by {
            assert(input.contains(r@[k]));
            let w = choose|w: int| 0 <= w < input.len() && input[w] == r@[k];
            assert(0 <= input[w].y.bits <= 65536);
        }
        if s0.bits > 0 || s1.bits > 0 || length.bits > 0 {
            let last = input.len() - 1;
            if length.bits > s0.bits + s1.bits {
                assert(input[0].x.bits < input[last].x.bits);
            } else {
                assert(input[0].x.bits < input[last].x.bits);
            }
            assert(has_x(r@, input[0].x.bits as int));
            assert(has_x(r@, input[last].x.bits as int));
            let w0 = choose|w: int| 0 <= w < r@.len() && r@[w].x.bits == input[0].x.bits;
            let w1 = choose|w: int| 0 <= w < r@.len() && r@[w].x.bits == input[last].x.bits;
            assert(w0 != w1);
        }
    }
    r
}

impl Airbrush {
    /// Feed one input point. The very first point of a stroke is retained
    /// and produces nothing; a point closer to the retained point than the
    /// minimum spacing is coalesced away (no error, and the retained point
    /// is kept); otherwise the retained point is replaced and one drawable
    /// stroke segment is produced: an even number of ribbon vertices,
    /// between four and twelve unless the segment is fully degenerate,
    /// and exactly the charts the ribbon's triangle strip conservatively
    /// covers.
    #[verifier::rlimit(100)]
    pub fn drag(&mut self, point: InputPoint) -> (r: Option<AirbrushDrawable>)
        requires
            airbrush_wf(*old(self)),
            input_wf(point),
        ensures
            airbrush_wf(*final(self)),
            old(self).spec_last_point() is None ==> r is None && final(self).spec_last_point()
                == Some(point),
            old(self).spec_last_point() matches Some(lp) ==> {
                &&& spacing_filtered(lp, point) ==> r is None && final(self).spec_last_point()
                    == old(self).spec_last_point()
                &&& !spacing_filtered(lp, point) ==> {
                    &&& final(self).spec_last_point() == Some(point)
                    &&& r is Some
                    &&& {
                        let d = r->Some_0;
                        &&& d.color == point.color
                        &&& 0 <= d.seed.x.bits < 65536
                        &&& 0 <= d.seed.y.bits < 65536
                        &&& d.vertices@.len() % 2 == 0
                        &&& 2 <= d.vertices@.len() <= 12
                        &&& (delta_sq_bits(lp, point) > 0 || point_radius_bits(lp) > 0
                            || point_radius_bits(point) > 0) ==> d.vertices@.len() >= 4
                        &&& forall|k: int|
                            0 <= k < d.vertices@.len() ==> v2_wf(
                                (#[trigger] d.vertices@[k]).position,
                            )
                        &&& forall|k: int|
                            0 <= 2 * k + 1 < d.vertices@.len() ==> {
                                let v0 = #[trigger] d.vertices@[2 * k];
                                let v1 = d.vertices@[2 * k + 1];
                                v0.u_bounds == v1.u_bounds && v0.opacity == v1.opacity
                                    && v0.rate == v1.rate && v0.width == v1.width
                            }
                        &&& forall|t: int|
                            0 <= t < d.chart_keys@.len() ==> strip_covers(
                                d.vertices@.map_values(|v: VertexInput| v.position),
                                (#[trigger] d.chart_keys@[t]).0 as int,
                                d.chart_keys@[t].1 as int,
                            )
                        &&& forall|x: int, y: int|
                            strip_covers(
                                d.vertices@.map_values(|v: VertexInput| v.position),
                                x,
                                y,
                            ) ==> keys_contain(d.chart_keys@, x, y)
                        &&& forall|k1: int, k2: int|
                            0 <= k1 < k2 < d.chart_keys@.len() ==> #[trigger] d.chart_keys@[k1]
                                != #[trigger] d.chart_keys@[k2]
                    }
                }
            },
    {
        let prev: Option<InputPoint> = self.last_point;
        let lp: InputPoint = match prev {
            None => {
                self.last_point = Some(point);
                return None;
            },
            Some(lp) => lp,
        };
        // Minimum-spacing filter: coalesce near-duplicate samples.
        proof {
            assert((lp.size.bits as i128) * (lp.pressure.bits as i128) <= 0x1000_0000 * 65536
                && (lp.size.bits as i128) * (lp.pressure.bits as i128) >= 0) by (nonlinear_arith)
                requires
                    0 <= lp.size.bits <= 0x1000_0000,
                    0 <= lp.pressure.bits <= 65536,
            ;
            assert((point.size.bits as i128) * (point.pressure.bits as i128) <= 0x1000_0000 * 65536
                && (point.size.bits as i128) * (point.pressure.bits as i128) >= 0)
                by (nonlinear_arith)
                requires
                    0 <= point.size.bits <= 0x1000_0000,
                    0 <= point.pressure.bits <= 65536,
            ;
        }
        let rad0: i128 = crate::fixed::trunc_div_i128(
            (lp.size.bits as i128) * (lp.pressure.bits as i128),
            65536,
        );
        let rad1: i128 = crate::fixed::trunc_div_i128(
            (point.size.bits as i128) * (point.pressure.bits as i128),
            65536,
        );
        proof {
            crate::fixed::lemma_trunc_div_bound(
                (lp.size.bits as i128) * (lp.pressure.bits as i128) as int,
                65536,
                0x1000_0000,
            );
            crate::fixed::lemma_trunc_div_bound(
                (point.size.bits as i128) * (point.pressure.bits as i128) as int,
                65536,
                0x1000_0000,
            );
            crate::fixed::lemma_trunc_div_bound(3277 * (rad0 + rad1) as int, 65536, 0x200_0000);
            assert(3277 * ((rad0 + rad1) as int) <= 0x200_0000 * 65536 && 3277 * ((rad0
                + rad1) as int) >= 0) by (nonlinear_arith)
                requires
                    0 <= rad0 + rad1 <= 0x2000_0000,
            ;
        }
        let msp: i128 = crate::fixed::trunc_div_i128(3277 * (rad0 + rad1), 65536);
        let dxb: i64 = point.position.x.bits - lp.position.x.bits;
        let dyb: i64 = point.position.y.bits - lp.position.y.bits;
        proof {
            assert((dxb as i128) * (dxb as i128) <= 0x20_0000_0000 * 0x20_0000_0000 && (
            dxb as i128) * (dxb as i128) >= 0) by (nonlinear_arith)
                requires
                    -0x20_0000_0000 <= dxb as i128 <= 0x20_0000_0000,
            ;
            assert((dyb as i128) * (dyb as i128) <= 0x20_0000_0000 * 0x20_0000_0000 && (
            dyb as i128) * (dyb as i128) >= 0) by (nonlinear_arith)
                requires
                    -0x20_0000_0000 <= dyb as i128 <= 0x20_0000_0000,
            ;
            assert(msp * msp <= 0x200_0000 * 0x200_0000 && msp * msp >= 0) by (nonlinear_arith)
                requires
                    0 <= msp <= 0x200_0000,
            ;
        }
        let dsq: i128 = (dxb as i128) * (dxb as i128) + (dyb as i128) * (dyb as i128);
        if dsq < msp * msp {
            return None;
        }
        self.last_point = Some(point);
        // Segment frame: length, unit tangent, unit normal.
        let len_u: u128 = crate::fixed::isqrt_u128(dsq as u128);
        proof {
            if len_u > 0x40_0000_0000 {
                assert(len_u * len_u > 0x40_0000_0000u128 * 0x40_0000_0000) by (nonlinear_arith)
                    requires
                        len_u > 0x40_0000_0000u128,
                ;
            }
        }
        let len_b: i64 = len_u as i64;
        let (txb, tyb): (i64, i64) = if len_b == 0 {
            (65536, 0)
        } else {
            proof {
                assert((dxb as int) * (dxb as int) <= dsq && (dyb as int) * (dyb as int) <= dsq)
                    by (nonlinear_arith)
                    requires
                        dsq == (dxb as int) * (dxb as int) + (dyb as int) * (dyb as int),
                ;
                if dxb >= 0 {
                    lemma_isqrt_dominates(dsq as int, len_u as int, dxb as int);
                } else {
                    assert((-(dxb as int)) * (-(dxb as int)) == (dxb as int) * (dxb as int))
                        by (nonlinear_arith);
                    lemma_isqrt_dominates(dsq as int, len_u as int, -(dxb as int));
                }
                if dyb >= 0 {
                    lemma_isqrt_dominates(dsq as int, len_u as int, dyb as int);
                } else {
                    assert((-(dyb as int)) * (-(dyb as int)) == (dyb as int) * (dyb as int))
                        by (nonlinear_arith);
                    lemma_isqrt_dominates(dsq as int, len_u as int, -(dyb as int));
                }
                assert((dxb as i128) * 65536 <= 65536 * (len_b as i128) && (dxb as i128) * 65536
                    >= -(65536 * (len_b as i128))) by (nonlinear_arith)
                    requires
                        -(len_b as i128) <= dxb as i128 <= len_b as i128,
                ;
                assert((dyb as i128) * 65536 <= 65536 * (len_b as i128) && (dyb as i128) * 65536
                    >= -(65536 * (len_b as i128))) by (nonlinear_arith)
                    requires
                        -(len_b as i128) <= dyb as i128 <= len_b as i128,
                ;
            }
            let tx: i128 = crate::fixed::trunc_div_i128((dxb as i128) * 65536, len_b as i128);
            let ty: i128 = crate::fixed::trunc_div_i128((dyb as i128) * 65536, len_b as i128);
            proof {
                crate::fixed::lemma_trunc_div_bound(
                    (dxb as i128) * 65536 as int,
                    len_b as int,
                    65536,
                );
                crate::fixed::lemma_trunc_div_bound(
                    (dyb as i128) * 65536 as int,
                    len_b as int,
                    65536,
                );
            }
            (tx as i64, ty as i64)
        };
        // Per-endpoint radius, opacity and rate.
        let s0 = Fx { bits: rad0 as i64 };
        let s1 = Fx { bits: rad1 as i64 };
        let sq0 = lp.pressure.sqrt();
        let sq1 = point.pressure.sqrt();
        proof {
            if sq0.bits > 65536 {
                assert((sq0.bits as int) * (sq0.bits as int) > 0x1_0000_0000) by (nonlinear_arith)
                    requires
                        sq0.bits > 65536,
                ;
            }
            if sq1.bits > 65536 {
                assert((sq1.bits as int) * (sq1.bits as int) > 0x1_0000_0000) by (nonlinear_arith)
                    requires
                        sq1.bits > 65536,
                ;
            }
            assert(lp.pressure.bits * 65536 <= 0x1_0000_0000);
            assert(point.pressure.bits * 65536 <= 0x1_0000_0000);
        }
        let o0b: i64 = scaled_param(lp.opacity.bits, sq0.bits);
        let o1b: i64 = scaled_param(point.opacity.bits, sq1.bits);
        let r0b: i64 = scaled_param(lp.rate.bits, sq0.bits);
        let r1b: i64 = scaled_param(point.rate.bits, sq1.bits);
        // The blend function and the two texture-coordinate ramps.
        let blend = stroke_blend(s0, s1, Fx { bits: len_b });
        let (df, bf) = blend.first_inflection_point();
        let (dl, bl_y) = blend.last_inflection_point();
        let se_last: i64 = cap_halfwidth(s0.bits, s1.bits, bl_y.bits);
        let se_first: i64 = cap_halfwidth(s0.bits, s1.bits, bf.bits);
        proof {
            assert(0 <= bl_y.bits <= 65536 && 0 <= bf.bits <= 65536) by {
                assert(blend@[0] == blend@[0]);
            }
        }
        let us_x0 = Fx { bits: dl.bits - 2 * se_last };
        let us_pts: Vec<Breakpoint> = two_points(us_x0, Fx { bits: 0 }, dl, Fx { bits: 65536 });
        let us = match PiecewiseLinear::new(us_pts) {
            Some(f) => f,
            None => {
                proof {
                    assert(false);
                }
                vstd::pervasive::unreached()
            },
        };
        let ue_x1 = Fx { bits: df.bits + 2 * se_first };
        let ue_pts: Vec<Breakpoint> = two_points(df, Fx { bits: 0 }, ue_x1, Fx { bits: 65536 });
        let ue = match PiecewiseLinear::new(ue_pts) {
            Some(f) => f,
            None => {
                proof {
                    assert(false);
                }
                vstd::pervasive::unreached()
            },
        };
        // Sample abscissas: the blend's breakpoints plus the two cap ends.
        let mut xs_in: Vec<Fx> = Vec::new();
        let mut bi: usize = 0;
        while bi < blend.breakpoint_count()
            invariant
                0 <= bi <= blend@.len(),
                xs_in@.len() == bi,
                forall|t: int| 0 <= t < bi ==> #[trigger] xs_in@[t] == blend@[t].x,
            decreases blend@.len() - bi,
        {
            xs_in.push(blend.breakpoint_at(bi).x);
            bi = bi + 1;
        }
        xs_in.push(us_x0);
        xs_in.push(ue_x1);
        let ghost xs_in_snap = xs_in@;
        let events = sort_dedup_fx(xs_in);
        proof {
            assert(events@.len() <= blend@.len() + 2);
            if delta_sq_bits(lp, point) > 0 || point_radius_bits(lp) > 0 || point_radius_bits(
                point,
            ) > 0 {
                assert(s0.bits > 0 || s1.bits > 0 || len_b > 0) by {
                    if point_radius_bits(lp) > 0 || point_radius_bits(point) > 0 {
                    } else {
                        assert(delta_sq_bits(lp, point) > 0);
                        if len_u == 0 {
                            assert((len_u + 1) * (len_u + 1) == 1) by (nonlinear_arith)
                                requires
                                    len_u == 0u128,
                            ;
                            assert(dsq < 1);
                        }
                    }
                }
                assert(blend@.len() >= 2);
                assert(xs_in_snap[0] == blend@[0].x && xs_in_snap[1] == blend@[1].x);
                assert(blend@[0].x.bits < blend@[1].x.bits);
                assert(contains_bits(events@, xs_in_snap[0].bits as int));
                assert(contains_bits(events@, xs_in_snap[1].bits as int));
                let w0 = choose|w: int|
                    0 <= w < events@.len() && events@[w].bits == xs_in_snap[0].bits;
                let w1 = choose|w: int|
                    0 <= w < events@.len() && events@[w].bits == xs_in_snap[1].bits;
                assert(w0 != w1);
                assert(events@.len() >= 2);
            }
        }
        // One vertex pair per sample.
        let mut vertices: Vec<VertexInput> = Vec::new();
        let mut positions: Vec<Vec2Fx> = Vec::new();
        let ghost xs_seq = events@;
        let mut k: usize = 0;
        while k < events.len()
            invariant
                0 <= k <= events@.len(),
                events@ == xs_seq,
                vertices@.len() == 2 * k,
                positions@.len() == 2 * k,
                pl_wf(blend),
                pl_wf(us),
                pl_wf(ue),
                forall|t: int| 0 <= t < blend@.len() ==> 0 <= (#[trigger] blend@[t]).y.bits <= 65536,
                forall|t: int| 0 <= t < us@.len() ==> 0 <= (#[trigger] us@[t]).y.bits <= 65536,
                forall|t: int| 0 <= t < ue@.len() ==> 0 <= (#[trigger] ue@[t]).y.bits <= 65536,
                forall|t: int|
                    0 <= t < events@.len() ==> -0x45_0000_0000 <= (#[trigger] events@[t]).bits
                        <= 0x45_0000_0000,
                -0x1000_0000 <= s0.bits <= 0x1000_0000,
                -0x1000_0000 <= s1.bits <= 0x1000_0000,
                -0x1000_0000 <= o0b <= 0x1000_0000,
                -0x1000_0000 <= o1b <= 0x1000_0000,
                -0x1000_0000 <= r0b <= 0x1000_0000,
                -0x1000_0000 <= r1b <= 0x1000_0000,
                -65536 <= txb <= 65536,
                -65536 <= tyb <= 65536,
                -0x10_0000_0000 <= lp.position.x.bits <= 0x10_0000_0000,
                -0x10_0000_0000 <= lp.position.y.bits <= 0x10_0000_0000,
                forall|t: int| 0 <= t < positions@.len() ==> v2_wf(#[trigger] positions@[t]),
                forall|t: int|
                    0 <= t < positions@.len() ==> #[trigger] positions@[t]
                        == vertices@[t].position,
                forall|t: int|
                    0 <= t < vertices@.len() ==> v2_wf((#[trigger] vertices@[t]).position),
                forall|t: int|
                    0 <= 2 * t + 1 < vertices@.len() ==> {
                        let v0 = #[trigger] vertices@[2 * t];
                        let v1 = vertices@[2 * t + 1];
                        v0.u_bounds == v1.u_bounds && v0.opacity == v1.opacity && v0.rate
                            == v1.rate && v0.width == v1.width
                    },
            decreases events@.len() - k,
        {
            let x = events[k];
            let bl = blend.evaluate(x);
            let u0 = us.evaluate(x);
            let u1 = ue.evaluate(x);
            proof {
                lemma_eval_in_range(blend@, x.bits as int, 0, 65536);
                lemma_eval_in_range(us@, x.bits as int, 0, 65536);
                lemma_eval_in_range(ue@, x.bits as int, 0, 65536);
            }
            let wv: i64 = crate::fixed::lerp_bits(s0.bits, s1.bits, bl.bits);
            let ov: i64 = crate::fixed::lerp_bits(o0b, o1b, bl.bits);
            let rv: i64 = crate::fixed::lerp_bits(r0b, r1b, bl.bits);
            proof {
                assert((x.bits as i128) * (txb as i128) <= 0x45_0000_0000 * 65536 && (
                x.bits as i128) * (txb as i128) >= -(0x45_0000_0000 * 65536)) by (nonlinear_arith)
                    requires
                        -0x45_0000_0000 <= x.bits as i128 <= 0x45_0000_0000,
                        -65536 <= txb as i128 <= 65536,
                ;
                assert((x.bits as i128) * (tyb as i128) <= 0x45_0000_0000 * 65536 && (
                x.bits as i128) * (tyb as i128) >= -(0x45_0000_0000 * 65536)) by (nonlinear_arith)
                    requires
                        -0x45_0000_0000 <= x.bits as i128 <= 0x45_0000_0000,
                        -65536 <= tyb as i128 <= 65536,
                ;
            }
            let ox: i128 = crate::fixed::trunc_div_i128((x.bits as i128) * (txb as i128), 65536);
            let oy: i128 = crate::fixed::trunc_div_i128((x.bits as i128) * (tyb as i128), 65536);
            proof {
                crate::fixed::lemma_trunc_div_bound(
                    (x.bits as i128) * (txb as i128) as int,
                    65536,
                    0x45_0000_0000,
                );
                crate::fixed::lemma_trunc_div_bound(
                    (x.bits as i128) * (tyb as i128) as int,
                    65536,
                    0x45_0000_0000,
                );
            }
            let cx: i64 = lp.position.x.bits + (ox as i64);
            let cy: i64 = lp.position.y.bits + (oy as i64);
            proof {
                assert((wv as i128) * ((-tyb) as i128) <= 0x2000_0000 * 65536 && (wv as i128) * ((
                -tyb) as i128) >= -(0x2000_0000 * 65536)) by (nonlinear_arith)
                    requires
                        -0x2000_0000 <= wv as i128 <= 0x2000_0000,
                        -65536 <= (-tyb) as i128 <= 65536,
                ;
                assert((wv as i128) * (txb as i128) <= 0x2000_0000 * 65536 && (wv as i128) * (
                txb as i128) >= -(0x2000_0000 * 65536)) by (nonlinear_arith)
                    requires
                        -0x2000_0000 <= wv as i128 <= 0x2000_0000,
                        -65536 <= txb as i128 <= 65536,
                ;
            }
            let wnx: i128 = crate::fixed::trunc_div_i128(
                (wv as i128) * ((-tyb) as i128),
                65536,
            );
            let wny: i128 = crate::fixed::trunc_div_i128((wv as i128) * (txb as i128), 65536);
            proof {
                crate::fixed::lemma_trunc_div_bound(
                    (wv as i128) * ((-tyb) as i128) as int,
                    65536,
                    0x2000_0000,
                );
                crate::fixed::lemma_trunc_div_bound(
                    (wv as i128) * (txb as i128) as int,
                    65536,
                    0x2000_0000,
                );
            }
            let u_bounds = Vec2Fx { x: u0, y: u1 };
            let v_minus = VertexInput {
                position: Vec2Fx {
                    x: Fx { bits: cx - (wnx as i64) },
                    y: Fx { bits: cy - (wny as i64) },
                },
                u_bounds,
                opacity: Fx { bits: ov },
                rate: Fx { bits: rv },
                width: Fx { bits: wv },
            };
            let v_plus = VertexInput {
                position: Vec2Fx {
                    x: Fx { bits: cx + (wnx as i64) },
                    y: Fx { bits: cy + (wny as i64) },
                },
                u_bounds,
                opacity: Fx { bits: ov },
                rate: Fx { bits: rv },
                width: Fx { bits: wv },
            };
            vertices.push(v_minus);
            positions.push(v_minus.position);
            vertices.push(v_plus);
            positions.push(v_plus.position);
            k = k + 1;
        }
        let chart_keys = triangle_strip_chart_keys(&positions);
        let seed = Vec2Fx {
            x: Fx { bits: random_unit_bits() },
            y: Fx { bits: random_unit_bits() },
        };
        let d = AirbrushDrawable { vertices, chart_keys, seed, color: point.color };
        proof {
            assert(positions@ =~= d.vertices@.map_values(|v: VertexInput| v.position));
        }
        Some(d)
    }
}

/// The ribbon half-width at a cap: the radius interpolated by the cap's
/// blend value.
fn cap_halfwidth(s0: i64, s1: i64, blv: i64) -> (r: i64)
    requires
        0 <= s0 <= 0x1000_0000,
        0 <= s1 <= 0x1000_0000,
        0 <= blv <= 65536,
    ensures
        r == s0 + trunc_div(blv * (s1 - s0), 65536),
        -0x1000_0000 <= r <= 0x1000_0000,
{
    crate::fixed::lerp_bits(s0, s1, blv)
}

/// A per-endpoint parameter scaled by the square root of the pressure.
fn scaled_param(v: i64, sq: i64) -> (r: i64)
    requires
        0 <= v <= 0x1000_0000,
        0 <= sq <= 65536,
    ensures
        r == trunc_div(v * sq, 65536),
        0 <= r <= 0x1000_0000,
{
    proof {
        assert((v as i128) * (sq as i128) <= 0x1000_0000 * 65536 && (v as i128) * (sq as i128)
            >= 0) by (nonlinear_arith)
            requires
                0 <= v as i128 <= 0x1000_0000,
                0 <= sq as i128 <= 65536,
        ;
    }
    let t: i128 = crate::fixed::trunc_div_i128((v as i128) * (sq as i128), 65536);
    proof {
        crate::fixed::lemma_trunc_div_bound((v as i128) * (sq as i128) as int, 65536, 0x1000_0000);
        vstd::arithmetic::div_mod::lemma_div_pos_is_pos((v as i128) * (sq as i128) as int, 65536);
    }
    t as i64
}

/// A two-breakpoint sample list.
fn two_points(x0: Fx, y0: Fx, x1: Fx, y1: Fx) -> (r: Vec<Breakpoint>)
    ensures
        r@.len() == 2,
        r@[0] == (Breakpoint { x: x0, y: y0 }),
        r@[1] == (Breakpoint { x: x1, y: y1 }),
{
    let mut r: Vec<Breakpoint> = Vec::new();
    r.push(Breakpoint { x: x0, y: y0 });
    r.push(Breakpoint { x: x1, y: y1 });
    r
}

/// The charts covered by any triangle of a triangle strip, deduplicated.
fn triangle_strip_chart_keys(ps: &Vec<Vec2Fx>) -> (r: Vec<ChartKey>)
    requires
        forall|i: int| 0 <= i < ps@.len() ==> v2_wf(#[trigger] ps@[i]),
    ensures
        forall|t: int|
            0 <= t < r@.len() ==> strip_covers(
                ps@,
                (#[trigger] r@[t]).0 as int,
                r@[t].1 as int,
            ),
        forall|x: int, y: int| strip_covers(ps@, x, y) ==> keys_contain(r@, x, y),
        forall|k1: int, k2: int|
            0 <= k1 < k2 < r@.len() ==> #[trigger] r@[k1] != #[trigger] r@[k2],
{
    let mut acc: Vec<(i32, i32)> = Vec::new();
    let mut j: usize = 0;
    while ps.len() >= 3 && j < ps.len() - 2
        invariant
            0 <= j <= ps@.len(),
            forall|i: int| 0 <= i < ps@.len() ==> v2_wf(#[trigger] ps@[i]),
            forall|t: int|
                0 <= t < acc@.len() ==> strip_covers(
                    ps@,
                    (#[trigger] acc@[t]).0 as int,
                    acc@[t].1 as int,
                ),
            forall|j2: int, x: int, y: int|
                0 <= j2 < j && j2 + 2 < ps@.len() && #[trigger] tri_covers(
                    ps@[j2],
                    ps@[j2 + 1],
                    ps@[j2 + 2],
                    CHART_SCALE_BITS as int,
                    x,
                    y,
                ) ==> cells_contain(acc@, x, y),
        decreases ps@.len() - j,
    {
        let keys = ChartKey::find_covering(ps[j], ps[j + 1], ps[j + 2]);
        let mut t: usize = 0;
        while t < keys.len()
            invariant
                0 <= t <= keys@.len(),
                0 <= j && j + 2 < ps@.len(),
                forall|i: int| 0 <= i < ps@.len() ==> v2_wf(#[trigger] ps@[i]),
                forall|w: int|
                    0 <= w < keys@.len() ==> tri_covers(
                        ps@[j as int],
                        ps@[j + 1],
                        ps@[j + 2],
                        CHART_SCALE_BITS as int,
                        (#[trigger] keys@[w]).0 as int,
                        keys@[w].1 as int,
                    ),
                forall|x: int, y: int|
                    tri_covers(
                        ps@[j as int],
                        ps@[j + 1],
                        ps@[j + 2],
                        CHART_SCALE_BITS as int,
                        x,
                        y,
                    ) ==> keys_contain(keys@, x, y),
                forall|t2: int|
                    0 <= t2 < acc@.len() ==> strip_covers(
                        ps@,
                        (#[trigger] acc@[t2]).0 as int,
                        acc@[t2].1 as int,
                    ),
                forall|j2: int, x: int, y: int|
                    0 <= j2 < j && j2 + 2 < ps@.len() && #[trigger] tri_covers(
                        ps@[j2],
                        ps@[j2 + 1],
                        ps@[j2 + 2],
                        CHART_SCALE_BITS as int,
                        x,
                        y,
                    ) ==> cells_contain(acc@, x, y),
                forall|w: int|
                    0 <= w < t ==> cells_contain(
                        acc@,
                        (#[trigger] keys@[w]).0 as int,
                        keys@[w].1 as int,
                    ),
            decreases keys@.len() - t,
        {
            let key = keys[t];
            let cell: (i32, i32) = (key.0, key.1);
            let ghost prev = acc@;
            acc.push(cell);
            proof {
                assert(strip_covers(ps@, cell.0 as int, cell.1 as int)) by {
                    assert(tri_covers(
                        ps@[j as int],
                        ps@[j + 1],
                        ps@[j + 2],
                        CHART_SCALE_BITS as int,
                        cell.0 as int,
                        cell.1 as int,
                    ));
                }
                assert forall|j2: int, x: int, y: int|
                    0 <= j2 < j && j2 + 2 < ps@.len() && #[trigger] tri_covers(
                        ps@[j2],
                        ps@[j2 + 1],
                        ps@[j2 + 2],
                        CHART_SCALE_BITS as int,
                        x,
                        y,
                    ) implies cells_contain(acc@, x, y) by {
                    crate::raster::lemma_contain_push_pub(prev, cell, x, y);
                }
                assert forall|w: int| 0 <= w < t + 1 implies cells_contain(
                    acc@,
                    (#[trigger] keys@[w]).0 as int,
                    keys@[w].1 as int,
                ) by {
                    if w < t {
                        crate::raster::lemma_contain_push_pub(
                            prev,
                            cell,
                            keys@[w].0 as int,
                            keys@[w].1 as int,
                        );
                    } else {
                        assert(acc@[acc@.len() - 1] == cell);
                    }
                }
            }
            t = t + 1;
        }
        proof {
            assert forall|j2: int, x: int, y: int|
                0 <= j2 < j + 1 && j2 + 2 < ps@.len() && #[trigger] tri_covers(
                    ps@[j2],
                    ps@[j2 + 1],
                    ps@[j2 + 2],
                    CHART_SCALE_BITS as int,
                    x,
                    y,
                ) implies cells_contain(acc@, x, y) by {
                if j2 == j {
                    assert(keys_contain(keys@, x, y));
                    let w = choose|w: int|
                        0 <= w < keys@.len() && keys@[w].0 == x && keys@[w].1 == y;
                    assert(cells_contain(acc@, keys@[w].0 as int, keys@[w].1 as int));
                }
            }
        }
        j = j + 1;
    }
    let cells = sort_dedup_cells(acc);
    proof {
        assert forall|t: int| 0 <= t < cells@.len() implies strip_covers(
            ps@,
            (#[trigger] cells@[t]).0 as int,
            cells@[t].1 as int,
        ) by {
            assert(cells_contain(cells@, cells@[t].0 as int, cells@[t].1 as int)) by {
                assert(cells@[t].0 == cells@[t].0 && cells@[t].1 == cells@[t].1);
            }
            assert(cells_contain(acc@, cells@[t].0 as int, cells@[t].1 as int));
            let w = choose|w: int|
                0 <= w < acc@.len() && acc@[w].0 == cells@[t].0 && acc@[w].1 == cells@[t].1;
            assert(strip_covers(ps@, acc@[w].0 as int, acc@[w].1 as int));
        }
    }
    let mut r: Vec<ChartKey> = Vec::new();
    let mut k: usize = 0;
    while k < cells.len()
        invariant
            0 <= k <= cells@.len(),
            r@.len() == k,
            forall|t: int|
                0 <= t < cells@.len() ==> strip_covers(
                    ps@,
                    (#[trigger] cells@[t]).0 as int,
                    cells@[t].1 as int,
                ),
            forall|t: int|
                0 <= t < k ==> #[trigger] r@[t] == (ChartKey(cells@[t].0, cells@[t].1)),
        decreases cells@.len() - k,
    {
        let cell = cells[k];
        r.push(ChartKey(cell.0, cell.1));
        k = k + 1;
    }
    proof {
        assert forall|x: int, y: int| strip_covers(ps@, x, y) implies keys_contain(r@, x, y) by {
            let j2 = choose|j2: int|
                0 <= j2 && j2 + 2 < ps@.len() && #[trigger] tri_covers(
                    ps@[j2],
                    ps@[j2 + 1],
                    ps@[j2 + 2],
                    CHART_SCALE_BITS as int,
                    x,
                    y,
                );
            assert(cells_contain(acc@, x, y));
            assert(cells_contain(cells@, x, y));
            let w = choose|w: int| 0 <= w < cells@.len() && cells@[w].0 == x && cells@[w].1 == y;
            assert(r@[w] == (ChartKey(cells@[w].0, cells@[w].1)));
        }
        assert forall|k1: int, k2: int|
            0 <= k1 < k2 < r@.len() implies #[trigger] r@[k1] != #[trigger] r@[k2] by {
            assert(crate::raster::cell_lt(cells@[k1], cells@[k2]));
        }
    }
    r
}

} // verus!
