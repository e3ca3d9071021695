//! Fixed-point scalar arithmetic.
//!
//! A [`Fx`] stores a real quantity as `bits / 65536`: a 48.16 fixed-point
//! number kept in an `i64`. Well-formed values are bounded by [`FX_MAX`] so
//! that sums and interpolations never overflow the representation.

use vstd::prelude::*;

verus! {

/// Number of fractional bits' worth of scale: one whole unit.
pub const FX_ONE: i64 = 65536;

/// Magnitude bound (in raw bits) of a well-formed scalar.
pub const FX_MAX: i64 = 0x100_0000_0000;

/// Truncating division (round toward zero) for a positive divisor.
pub open spec fn trunc_div(n: int, d: int) -> int
    recommends
        d > 0,
{
    if n >= 0 {
        n / d
    } else {
        -((-n) / d)
    }
}

/// Truncating division for any non-zero divisor.
pub open spec fn trunc_div_signed(n: int, d: int) -> int
    recommends
        d != 0,
{
    if d > 0 {
        trunc_div(n, d)
    } else {
        trunc_div(-n, -d)
    }
}

/// `r` is the integer square root of `n`.
pub open spec fn is_sqrt(n: int, r: int) -> bool {
    0 <= r && r * r <= n < (r + 1) * (r + 1)
}

/// A fixed-point scalar: the real value `bits / 65536`.
#[derive(Clone, Copy, PartialEq, Eq, Structural, Debug)]
pub struct Fx {
    pub bits: i64,
}

/// A well-formed scalar: magnitude at most `FX_MAX` raw bits.
pub open spec fn fx_wf(a: Fx) -> bool {
    -FX_MAX <= a.bits <= FX_MAX
}

proof fn lemma_div_pos_bound(n: int, d: int, k: int)
    requires
        d > 0,
        0 <= n <= k * d,
    ensures
        0 <= n / d <= k,
{
    vstd::arithmetic::div_mod::lemma_div_is_ordered(n, k * d, d);
    vstd::arithmetic::div_mod::lemma_div_multiples_vanish(k, d);
    assert((d * k) / d == k);
    assert(k * d == d * k) by (nonlinear_arith);
    vstd::arithmetic::div_mod::lemma_div_pos_is_pos(n, d);
}

/// Truncating division never increases magnitude past `k` when `|n| <= k*d`.
pub proof fn lemma_trunc_div_bound(n: int, d: int, k: int)
    requires
        d > 0,
        0 <= k,
        -(k * d) <= n <= k * d,
    ensures
        -k <= trunc_div(n, d) <= k,
{
    if n >= 0 {
        lemma_div_pos_bound(n, d, k);
    } else {
        lemma_div_pos_bound(-n, d, k);
    }
}

impl Fx {
    /// The zero scalar.
    pub fn zero() -> (r: Fx)
        ensures
            r.bits == 0,
    {
        Fx { bits: 0 }
    }

    /// The scalar with the given raw bit pattern.
    pub fn from_bits(bits: i64) -> (r: Fx)
        ensures
            r.bits == bits,
    {
        Fx { bits }
    }

    /// The scalar for a small integer value.
    pub fn from_int(v: i64) -> (r: Fx)
        requires
            -0x100_0000 <= v <= 0x100_0000,
        ensures
            r.bits == v * 65536,
            fx_wf(r),
    {
        Fx { bits: v * 65536 }
    }

    /// Sum of two well-formed scalars.
    pub fn add(self, other: Fx) -> (r: Fx)
        requires
            fx_wf(self),
            fx_wf(other),
        ensures
            r.bits == self.bits + other.bits,
    {
        Fx { bits: self.bits + other.bits }
    }

    /// Difference of two well-formed scalars.
    pub fn sub(self, other: Fx) -> (r: Fx)
        requires
            fx_wf(self),
            fx_wf(other),
        ensures
            r.bits == self.bits - other.bits,
    {
        Fx { bits: self.bits - other.bits }
    }

    /// Negation of a well-formed scalar.
    pub fn neg(self) -> (r: Fx)
        requires
            fx_wf(self),
        ensures
            r.bits == -self.bits,
    {
        Fx { bits: -self.bits }
    }

    /// Fixed-point product, truncated toward zero.
    pub fn mul(self, other: Fx) -> (r: Fx)
        requires
            fx_wf(self),
            fx_wf(other),
            -FX_MAX * 65536 <= self.bits * other.bits <= FX_MAX * 65536,
        ensures
            r.bits == trunc_div(self.bits * other.bits, 65536),
            fx_wf(r),
    {
        let p: i128 = (self.bits as i128) * (other.bits as i128);
        proof {
            lemma_trunc_div_bound(p as int, 65536, FX_MAX as int);
        }
        let q: i128 = trunc_div_i128(p, 65536);
        Fx { bits: q as i64 }
    }

    /// Fixed-point quotient, truncated toward zero.
    pub fn div(self, other: Fx) -> (r: Fx)
        requires
            fx_wf(self),
            fx_wf(other),
            other.bits != 0,
            -FX_MAX <= trunc_div_signed(self.bits * 65536, other.bits as int) <= FX_MAX,
        ensures
            r.bits == trunc_div_signed(self.bits * 65536, other.bits as int),
            fx_wf(r),
    {
        let n: i128 = (self.bits as i128) * 65536;
        let d: i128 = other.bits as i128;
        let q: i128 = if d > 0 {
            trunc_div_i128(n, d)
        } else {
            trunc_div_i128(-n, -d)
        };
        Fx { bits: q as i64 }
    }

    /// The smaller of two scalars.
    pub fn min(self, other: Fx) -> (r: Fx)
        ensures
            r.bits == if self.bits <= other.bits { self.bits } else { other.bits },
    {
        if self.bits <= other.bits {
            self
        } else {
            other
        }
    }

    /// The larger of two scalars.
    pub fn max(self, other: Fx) -> (r: Fx)
        ensures
            r.bits == if self.bits >= other.bits { self.bits } else { other.bits },
    {
        if self.bits >= other.bits {
            self
        } else {
            other
        }
    }

    /// Absolute value of a well-formed scalar.
    pub fn abs(self) -> (r: Fx)
        requires
            fx_wf(self),
        ensures
            r.bits == if self.bits >= 0 { self.bits as int } else { -self.bits },
    {
        if self.bits >= 0 {
            self
        } else {
            Fx { bits: -self.bits }
        }
    }

    /// Clamp into the inclusive range `[lo, hi]`.
    pub fn clamp(self, lo: Fx, hi: Fx) -> (r: Fx)
        requires
            lo.bits <= hi.bits,
        ensures
            r.bits == if self.bits < lo.bits {
                lo.bits
            } else if self.bits > hi.bits {
                hi.bits
            } else {
                self.bits
            },
    {
        if self.bits < lo.bits {
            lo
        } else if self.bits > hi.bits {
            hi
        } else {
            self
        }
    }

    /// Strict comparison.
    pub fn lt(self, other: Fx) -> (r: bool)
        ensures
            r == (self.bits < other.bits),
    {
        self.bits < other.bits
    }

    /// Non-strict comparison.
    pub fn le(self, other: Fx) -> (r: bool)
        ensures
            r == (self.bits <= other.bits),
    {
        self.bits <= other.bits
    }

    /// Whether the scalar is well-formed.
    pub fn in_range(self) -> (r: bool)
        ensures
            r == fx_wf(self),
    {
        -FX_MAX <= self.bits && self.bits <= FX_MAX
    }

    /// Square root of a non-negative scalar, rounded down to the
    /// representation's precision.
    pub fn sqrt(self) -> (r: Fx)
        requires
            0 <= self.bits,
            fx_wf(self),
        ensures
            is_sqrt(self.bits * 65536, r.bits as int),
            0 <= r.bits,
    {
        let n: u128 = (self.bits as u128) * 65536;
        let r: u128 = isqrt_u128(n);
        proof {
            assert(r * r <= n < (r + 1) * (r + 1));
            if r > 0x1000_0000u128 {
                assert(r * r > 0x100_0000_0000_0000u128) by (nonlinear_arith)
                    requires
                        r > 0x1000_0000u128,
                ;
            }
        }
        Fx { bits: r as i64 }
    }
}

/// The integer square root is unique.
pub proof fn lemma_isqrt_unique(n: int, a: int, b: int)
    requires
        is_sqrt(n, a),
        is_sqrt(n, b),
    ensures
        a == b,
{
    if a < b {
        assert((a + 1) * (a + 1) <= b * b) by (nonlinear_arith)
            requires
                0 <= a < b,
        ;
    }
    if b < a {
        assert((b + 1) * (b + 1) <= a * a) by (nonlinear_arith)
            requires
                0 <= b < a,
        ;
    }
}

/// The square root is bounded by any coordinate of a sum of squares.
pub proof fn lemma_isqrt_dominates(n: int, r: int, d: int)
    requires
        is_sqrt(n, r),
        d * d <= n,
        0 <= d,
    ensures
        d <= r,
{
    if r < d {
        assert((r + 1) * (r + 1) <= d * d) by (nonlinear_arith)
            requires
                0 <= r < d,
        ;
    }
}

/// A two-dimensional fixed-point vector.
#[derive(Clone, Copy, PartialEq, Eq, Structural, Debug)]
pub struct Vec2Fx {
    pub x: Fx,
    pub y: Fx,
}

/// Both components are well-formed scalars.
pub open spec fn v2_wf(v: Vec2Fx) -> bool {
    fx_wf(v.x) && fx_wf(v.y)
}

impl Vec2Fx {
    /// The vector with the given components.
    pub fn new(x: Fx, y: Fx) -> (r: Vec2Fx)
        ensures
            r.x == x,
            r.y == y,
    {
        Vec2Fx { x, y }
    }

    /// The perpendicular vector, a quarter turn counter-clockwise.
    pub fn perp(self) -> (r: Vec2Fx)
        requires
            v2_wf(self),
        ensures
            r.x.bits == -self.y.bits,
            r.y.bits == self.x.bits,
    {
        Vec2Fx { x: Fx { bits: -self.y.bits }, y: self.x }
    }
}

/// A three-dimensional fixed-point vector (a linear color).
#[derive(Clone, Copy, PartialEq, Eq, Structural, Debug)]
pub struct Vec3Fx {
    pub x: Fx,
    pub y: Fx,
    pub z: Fx,
}

/// All three components are well-formed scalars.
pub open spec fn v3_wf(v: Vec3Fx) -> bool {
    fx_wf(v.x) && fx_wf(v.y) && fx_wf(v.z)
}

/// Truncating division on machine integers, for a positive divisor.
pub(crate) fn trunc_div_i128(n: i128, d: i128) -> (q: i128)
    requires
        d > 0,
        -0x4000_0000_0000_0000_0000_0000_0000_0000 < n,
    ensures
        q == trunc_div(n as int, d as int),
{
    if n >= 0 {
        let q: u128 = (n as u128) / (d as u128);
        proof {
            vstd::arithmetic::div_mod::lemma_div_is_ordered(n as int, n as int, d as int);
            vstd::arithmetic::div_mod::lemma_div_pos_is_pos(n as int, d as int);
        }
        q as i128
    } else {
        let m: i128 = -n;
        let q: u128 = (m as u128) / (d as u128);
        proof {
            vstd::arithmetic::div_mod::lemma_div_is_ordered(m as int, m as int, d as int);
            vstd::arithmetic::div_mod::lemma_div_pos_is_pos(m as int, d as int);
        }
        -(q as i128)
    }
}

/// Integer square root by bisection.
pub(crate) fn isqrt_u128(n: u128) -> (r: u128)
    requires
        n < 0x4000_0000_0000_0000_0000_0000_0000_0000,
    ensures
        r * r <= n < (r + 1) * (r + 1),
{
    if n == 0 {
        return 0;
    }
    let mut lo: u128 = 0;
    let mut hi: u128 = 0x8000_0000_0000_0000;
    proof {
        assert(hi * hi > n) by (nonlinear_arith)
            requires
                hi == 0x8000_0000_0000_0000u128,
                n < 0x4000_0000_0000_0000_0000_0000_0000_0000,
        ;
    }
    while hi - lo > 1
        invariant
            lo < hi <= 0x8000_0000_0000_0000,
            lo * lo <= n,
            hi * hi > n,
        decreases hi - lo,
    {
        let mid: u128 = lo + (hi - lo) / 2;
        proof {
            assert(lo < mid < hi);
            assert(mid * mid < 0x8000_0000_0000_0000_0000_0000_0000_0000u128 * 2) by (nonlinear_arith)
                requires
                    mid < 0x8000_0000_0000_0000u128,
            ;
        }
        if mid * mid <= n {
            lo = mid;
        } else {
            hi = mid;
        }
    }
    lo
}

/// Interpolate a per-endpoint parameter by the blend factor:
/// `a + blend * (b - a)`, truncated.
pub(crate) fn lerp_bits(a: i64, b: i64, blv: i64) -> (r: i64)
    requires
        -0x1000_0000 <= a <= 0x1000_0000,
        -0x1000_0000 <= b <= 0x1000_0000,
        0 <= blv <= 65536,
    ensures
        r == a + trunc_div(blv * (b - a), 65536),
        -0x1000_0000 <= r <= 0x1000_0000,
{
    proof {
        assert((blv as i128) * ((b - a) as i128) <= 0x2000_0000 * 65536 && (blv as i128) * ((b
            - a) as i128) >= -(0x2000_0000 * 65536)) by (nonlinear_arith)
            requires
                0 <= blv as i128 <= 65536,
                -0x2000_0000 <= (b - a) as i128 <= 0x2000_0000,
        ;
    }
    let t: i128 = trunc_div_i128((blv as i128) * ((b - a) as i128), 65536);
    proof {
        let n = (blv as int) * ((b - a) as int);
        if b >= a {
            assert(0 <= n <= (b - a) * 65536) by (nonlinear_arith)
                requires
                    0 <= blv <= 65536,
                    b >= a,
                    n == (blv as int) * ((b - a) as int),
            ;
            lemma_trunc_div_bound(n, 65536, (b - a) as int);
            vstd::arithmetic::div_mod::lemma_div_pos_is_pos(n, 65536);
        } else {
            assert(-((a - b) * 65536) <= n <= 0) by (nonlinear_arith)
                requires
                    0 <= blv <= 65536,
                    b < a,
                    n == (blv as int) * ((b - a) as int),
            ;
            lemma_trunc_div_bound(n, 65536, (a - b) as int);
            vstd::arithmetic::div_mod::lemma_div_pos_is_pos(-n, 65536);
        }
    }
    a + (t as i64)
}


} // verus!
