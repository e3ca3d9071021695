//! Input smoothing: cubic Bezier segments fitted to sampled input values.

use vstd::prelude::*;

use crate::fixed::{lerp_bits, trunc_div, Fx};

verus! {

/// One sample of a smoothed parameter curve: time, value and derivative.
#[derive(Clone, Copy, PartialEq, Eq, Structural, Debug)]
pub struct BezierPoint {
    pub t: Fx,
    pub y: Fx,
    pub dy_dt: Fx,
}

/// A cubic Bezier segment over the time range `[t0, t1]`.
#[derive(Clone, Copy, Debug)]
pub struct Bezier {
    pub t0: Fx,
    pub t1: Fx,
    pub p: [Fx; 4],
}

/// Fixed-point linear interpolation from `a` to `b` by `t` in `[0, 1]`.
pub open spec fn spec_lerp(a: int, b: int, t: int) -> int {
    a + trunc_div(t * (b - a), 65536)
}

/// The normalized curve parameter of time `t` within `[t0, t1]`.
pub open spec fn spec_bezier_s(bz: Bezier, t: int) -> int {
    trunc_div((t - bz.t0.bits) * 65536, bz.t1.bits - bz.t0.bits)
}

/// The segment's value at parameter `s`, by repeated interpolation of the
/// four control points.
pub open spec fn spec_bezier_y(bz: Bezier, s: int) -> int {
    let q0 = spec_lerp(bz.p[0].bits as int, bz.p[1].bits as int, s);
    let q1 = spec_lerp(bz.p[1].bits as int, bz.p[2].bits as int, s);
    let q2 = spec_lerp(bz.p[2].bits as int, bz.p[3].bits as int, s);
    spec_lerp(spec_lerp(q0, q1, s), spec_lerp(q1, q2, s), s)
}

/// The segment's control-point difference interpolated at `s`: the
/// derivative before scaling by the time range.
pub open spec fn spec_bezier_dq(bz: Bezier, s: int) -> int {
    let d0 = bz.p[1].bits - bz.p[0].bits;
    let d1 = bz.p[2].bits - bz.p[1].bits;
    let d2 = bz.p[3].bits - bz.p[2].bits;
    spec_lerp(spec_lerp(d0, d1, s), spec_lerp(d1, d2, s), s)
}

/// A usable segment: an adequately wide time range and bounded control
/// points.
pub open spec fn bezier_wf(bz: Bezier) -> bool {
    &&& bz.t1.bits - bz.t0.bits >= 4096
    &&& -0x40_0000_0000 <= bz.t0.bits <= 0x40_0000_0000
    &&& -0x40_0000_0000 <= bz.t1.bits <= 0x40_0000_0000
    &&& forall|i: int| 0 <= i < 4 ==> -0x1000_0000 <= (#[trigger] bz.p[i]).bits <= 0x1000_0000
}

impl Bezier {
    /// The linear segment from `(t0, y0)` to `(t1, y1)`: control points on
    /// the chord at thirds.
    pub fn linear(t0: Fx, y0: Fx, t1: Fx, y1: Fx) -> (r: Bezier)
        requires
            -0x1000_0000 <= y0.bits <= 0x1000_0000,
            -0x1000_0000 <= y1.bits <= 0x1000_0000,
        ensures
            r.t0 == t0,
            r.t1 == t1,
            r.p[0] == y0,
            r.p[1].bits == spec_lerp(y0.bits as int, y1.bits as int, 21845),
            r.p[2].bits == spec_lerp(y0.bits as int, y1.bits as int, 43690),
            r.p[3] == y1,
            forall|i: int| 0 <= i < 4 ==> -0x1000_0000 <= (#[trigger] r.p[i]).bits <= 0x1000_0000,
    {
        let p1 = Fx { bits: lerp_bits(y0.bits, y1.bits, 21845) };
        let p2 = Fx { bits: lerp_bits(y0.bits, y1.bits, 43690) };
        let r = Bezier { t0, t1, p: [y0, p1, p2, y1] };
        proof {
            assert(r.p[0] == y0 && r.p[1] == p1 && r.p[2] == p2 && r.p[3] == y1);
        }
        r
    }

    /// Evaluate the segment at time `t` inside its range: the value by
    /// de Casteljau interpolation, and the derivative from the control
    /// differences scaled by the inverse time range.
    pub fn evaluate(&self, t: Fx) -> (r: BezierPoint)
        requires
            bezier_wf(*self),
            self.t0.bits <= t.bits <= self.t1.bits,
        ensures
            r.t == t,
            r.y.bits == spec_bezier_y(*self, spec_bezier_s(*self, t.bits as int)),
            r.dy_dt.bits == trunc_div(
                spec_bezier_dq(*self, spec_bezier_s(*self, t.bits as int)) * 3 * 65536,
                self.t1.bits - self.t0.bits,
            ),
    {
        let dt: i64 = self.t1.bits - self.t0.bits;
        proof {
            assert(((t.bits - self.t0.bits) as i128) * 65536 <= (dt as i128) * 65536 && ((t.bits
                - self.t0.bits) as i128) * 65536 >= 0) by (nonlinear_arith)
                requires
                    0 <= (t.bits - self.t0.bits) as i128 <= dt as i128,
            ;
        }
        let sq: i128 = crate::fixed::trunc_div_i128(
            ((t.bits - self.t0.bits) as i128) * 65536,
            dt as i128,
        );
        proof {
            crate::fixed::lemma_trunc_div_bound(
                (((t.bits - self.t0.bits) as i128) * 65536) as int,
                dt as int,
                65536,
            );
            vstd::arithmetic::div_mod::lemma_div_pos_is_pos(
                (((t.bits - self.t0.bits) as i128) * 65536) as int,
                dt as int,
            );
        }
        let s: i64 = sq as i64;
        let q0: i64 = lerp_bits(self.p[0].bits, self.p[1].bits, s);
        let q1: i64 = lerp_bits(self.p[1].bits, self.p[2].bits, s);
        let q2: i64 = lerp_bits(self.p[2].bits, self.p[3].bits, s);
        let y: i64 = lerp_bits(lerp_bits(q0, q1, s), lerp_bits(q1, q2, s), s);
        let d0: i64 = self.p[1].bits - self.p[0].bits;
        let d1: i64 = self.p[2].bits - self.p[1].bits;
        let d2: i64 = self.p[3].bits - self.p[2].bits;
        proof {
            assert(-0x2000_0000 <= d0 <= 0x2000_0000 && -0x2000_0000 <= d1 <= 0x2000_0000
                && -0x2000_0000 <= d2 <= 0x2000_0000);
        }
        let e0: i64 = half_lerp(d0, d1, s);
        let e1: i64 = half_lerp(d1, d2, s);
        let dq: i64 = half_lerp(e0, e1, s);
        proof {
            assert((dq as i128) * 3 * 65536 <= 0x2000_0000i128 * 3 * 65536 && (dq as i128) * 3
                * 65536 >= -(0x2000_0000i128 * 3 * 65536)) by (nonlinear_arith)
                requires
                    -0x2000_0000 <= dq as i128 <= 0x2000_0000,
            ;
        }
        let dv: i128 = crate::fixed::trunc_div_i128((dq as i128) * 3 * 65536, dt as i128);
        proof {
            crate::fixed::lemma_trunc_div_bound(
                ((dq as i128) * 3 * 65536) as int,
                dt as int,
                0x6_0000_0000,
            );
            assert(((dq as i128) * 3 * 65536) as int <= 0x6_0000_0000 * (dt as int) && ((
            dq as i128) * 3 * 65536) as int >= -(0x6_0000_0000 * (dt as int)))
                by (nonlinear_arith)
                requires
                    -0x2000_0000 <= dq as int <= 0x2000_0000,
                    dt as int >= 4096,
            ;
        }
        BezierPoint { t, y: Fx { bits: y }, dy_dt: Fx { bits: dv as i64 } }
    }
}

/// Fixed-point interpolation over the doubled control-difference range.
fn half_lerp(a: i64, b: i64, s: i64) -> (r: i64)
    requires
        -0x2000_0000 <= a <= 0x2000_0000,
        -0x2000_0000 <= b <= 0x2000_0000,
        0 <= s <= 65536,
    ensures
        r == spec_lerp(a as int, b as int, s as int),
        -0x2000_0000 <= r <= 0x2000_0000,
{
    proof {
        assert((s as i128) * ((b - a) as i128) <= 0x4000_0000 * 65536 && (s as i128) * ((b
            - a) as i128) >= -(0x4000_0000 * 65536)) by (nonlinear_arith)
            requires
                0 <= s as i128 <= 65536,
                -0x4000_0000 <= (b - a) as i128 <= 0x4000_0000,
        ;
    }
    let t: i128 = crate::fixed::trunc_div_i128((s as i128) * ((b - a) as i128), 65536);
    proof {
        let n = (s as int) * ((b - a) as int);
        if b >= a {
            assert(0 <= n <= (b - a) * 65536) by (nonlinear_arith)
                requires
                    0 <= s <= 65536,
                    b >= a,
                    n == (s as int) * ((b - a) as int),
            ;
            crate::fixed::lemma_trunc_div_bound(n, 65536, (b - a) as int);
            vstd::arithmetic::div_mod::lemma_div_pos_is_pos(n, 65536);
        } else {
            assert(-((a - b) * 65536) <= n <= 0) by (nonlinear_arith)
                requires
                    0 <= s <= 65536,
                    b < a,
                    n == (s as int) * ((b - a) as int),
            ;
            crate::fixed::lemma_trunc_div_bound(n, 65536, (a - b) as int);
            vstd::arithmetic::div_mod::lemma_div_pos_is_pos(-n, 65536);
        }
    }
    a + (t as i64)
}

/// A value that can be linearly interpolated: the value type of smoothed
/// parameter curves.
pub trait Interpolable: Sized {
    /// Interpolate from `self` toward `other` by `t` in `[0, 1]`.
    fn lerp(self, other: Self, t: Fx) -> Self;
}

impl Interpolable for Fx {
    fn lerp(self, other: Fx, t: Fx) -> Fx {
        if -0x1000_0000 <= self.bits && self.bits <= 0x1000_0000 && -0x1000_0000 <= other.bits
            && other.bits <= 0x1000_0000 && 0 <= t.bits && t.bits <= 65536 {
            Fx { bits: lerp_bits(self.bits, other.bits, t.bits) }
        } else {
            self
        }
    }
}

impl Interpolable for crate::fixed::Vec2Fx {
    fn lerp(self, other: crate::fixed::Vec2Fx, t: Fx) -> crate::fixed::Vec2Fx {
        crate::fixed::Vec2Fx { x: self.x.lerp(other.x, t), y: self.y.lerp(other.y, t) }
    }
}

/// Fits a line through the first two available samples.
#[derive(Clone, Copy, PartialEq, Eq, Structural, Debug)]
pub struct LinearInterpolator;

/// Fits a smooth cubic segment through the recent samples. The fit solves
/// a small quadratic program over the control points; that numeric solve
/// is an outside component the host runs, so this marker only names the
/// strategy.
#[derive(Clone, Copy, PartialEq, Eq, Structural, Debug)]
pub struct CubicInterpolator;

impl LinearInterpolator {
    /// Fit a segment: use the initial point's time and value if present,
    /// then the next sample(s); fails when fewer than two anchors exist.
    pub fn fit(&self, initial: Option<BezierPoint>, points: &Vec<(Fx, Fx)>) -> (r: Option<Bezier>)
        requires
            initial matches Some(bp) ==> -0x1000_0000 <= bp.y.bits <= 0x1000_0000,
            forall|i: int|
                0 <= i < points@.len() ==> -0x1000_0000 <= (#[trigger] points@[i]).1.bits
                    <= 0x1000_0000,
        ensures
            initial is None ==> ((r is None) <==> points@.len() < 2),
            initial is Some ==> ((r is None) <==> points@.len() < 1),
            initial matches Some(bp) ==> (points@.len() >= 1 ==> (r matches Some(bz) && bz.t0
                == bp.t && bz.p[0] == bp.y && bz.t1 == points@[0].0 && bz.p[3] == points@[0].1)),
            initial is None ==> (points@.len() >= 2 ==> (r matches Some(bz) && bz.t0
                == points@[0].0 && bz.p[0] == points@[0].1 && bz.t1 == points@[1].0 && bz.p[3]
                == points@[1].1)),
    {
        match initial {
            Some(bp) => {
                if points.len() < 1 {
                    None
                } else {
                    let (t1, y1) = points[0];
                    Some(Bezier::linear(bp.t, bp.y, t1, y1))
                }
            },
            None => {
                if points.len() < 2 {
                    None
                } else {
                    let (t0, y0) = points[0];
                    let (t1, y1) = points[1];
                    Some(Bezier::linear(t0, y0, t1, y1))
                }
            },
        }
    }
}

} // verus!
