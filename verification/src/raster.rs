//! Conservative rasterization: the set of grid cells a line or triangle
//! touches.
//!
//! Coordinates are fixed-point ([`Vec2Fx`]); a cell is `scale` raw bits
//! wide, so the unit grid uses `scale == 65536`. Per column, a
//! Bresenham-like stepping computes the conservative extreme cell a line
//! can reach, exactly, in integer arithmetic; a triangle is the union of
//! two x-monotone wedges, with mirrored coordinates reusing one wedge
//! routine for every slope-sign combination.

use vstd::prelude::*;

use crate::fixed::{fx_wf, v2_wf, Fx, Vec2Fx};

verus! {

/// The grid cell containing coordinate `bits`, for cells `scale` wide.
pub open spec fn cell_of(bits: int, scale: int) -> int
    recommends
        scale > 0,
{
    bits / scale
}

/// The cell of the line through `p0` and `p1` at abscissa `xx` (raw bits):
/// the floor of the line's ordinate there, in cells.
pub open spec fn spec_line_cell(p0: Vec2Fx, p1: Vec2Fx, scale: int, xx: int) -> int
    recommends
        p0.x.bits < p1.x.bits,
        scale > 0,
{
    let dx = p1.x.bits - p0.x.bits;
    (p0.y.bits * dx + (xx - p0.x.bits) * (p1.y.bits - p0.y.bits)) / (dx * scale)
}

/// `p` with its ordinate negated.
pub open spec fn neg_y(p: Vec2Fx) -> Vec2Fx {
    Vec2Fx { x: p.x, y: Fx { bits: (-p.y.bits) as i64 } }
}

/// `p` with its abscissa negated.
pub open spec fn neg_x(p: Vec2Fx) -> Vec2Fx {
    Vec2Fx { x: Fx { bits: (-p.x.bits) as i64 }, y: p.y }
}

/// Conservative maximum cell of segment `p0..p1` in its `k`-th column.
/// A rising segment peaks at each column's right boundary (at the segment
/// end in the last column); a falling one at the left boundary (at the
/// segment start in the first column).
pub open spec fn spec_max_cell(p0: Vec2Fx, p1: Vec2Fx, scale: int, k: int) -> int
    recommends
        p0.x.bits <= p1.x.bits,
        scale > 0,
{
    let xi0 = cell_of(p0.x.bits as int, scale);
    let xi1 = cell_of(p1.x.bits as int, scale);
    let dy = p1.y.bits - p0.y.bits;
    if dy >= 0 {
        if k == xi1 - xi0 {
            cell_of(p1.y.bits as int, scale)
        } else {
            spec_line_cell(p0, p1, scale, (xi0 + k + 1) * scale)
        }
    } else {
        if k == 0 {
            cell_of(p0.y.bits as int, scale)
        } else {
            spec_line_cell(p0, p1, scale, (xi0 + k) * scale)
        }
    }
}

/// Conservative minimum cell of segment `p0..p1` in its `k`-th column:
/// the mirror image of the maximum of the ordinate-negated segment.
pub open spec fn spec_min_cell(p0: Vec2Fx, p1: Vec2Fx, scale: int, k: int) -> int {
    -(spec_max_cell(neg_y(p0), neg_y(p1), scale, k) + 1)
}

/// The wedge with apex edge `a..b` above and long edge `a..c` below covers
/// cell `(x, y)`: the column is within the upper edge's span and `y` lies
/// between the two edges' conservative extreme cells for that column.
pub open spec fn wedge_covers(
    a: Vec2Fx,
    b: Vec2Fx,
    c: Vec2Fx,
    scale: int,
    x: int,
    y: int,
) -> bool {
    let xi0 = cell_of(a.x.bits as int, scale);
    let xib = cell_of(b.x.bits as int, scale);
    &&& xi0 <= x <= xib
    &&& spec_min_cell(a, c, scale, x - xi0) <= y <= spec_max_cell(a, b, scale, x - xi0)
}

/// The three points sorted by abscissa, keeping the argument order among
/// equal abscissas.
pub open spec fn spec_sort3(a: Vec2Fx, b: Vec2Fx, c: Vec2Fx) -> (Vec2Fx, Vec2Fx, Vec2Fx) {
    let (p, q) = if b.x.bits < a.x.bits {
        (b, a)
    } else {
        (a, b)
    };
    if c.x.bits < p.x.bits {
        (c, p, q)
    } else if c.x.bits < q.x.bits {
        (p, c, q)
    } else {
        (p, q, c)
    }
}

/// Twice the signed area of the triangle `(p, q, r)`.
pub open spec fn spec_det(p: Vec2Fx, q: Vec2Fx, r: Vec2Fx) -> int {
    (r.x.bits - p.x.bits) * (q.y.bits - p.y.bits) - (r.y.bits - p.y.bits) * (q.x.bits - p.x.bits)
}

/// A clockwise x-sorted triangle covers a cell if either of its two wedges
/// does; the second wedge is computed in x-mirrored coordinates.
pub open spec fn cw_covers(p: Vec2Fx, q: Vec2Fx, r: Vec2Fx, scale: int, x: int, y: int) -> bool {
    wedge_covers(p, q, r, scale, x, y) || wedge_covers(
        neg_x(r),
        neg_x(q),
        neg_x(p),
        scale,
        -(x + 1),
        y,
    )
}

/// The conservative cover of an arbitrary triangle: sort the vertices by
/// abscissa, pick the mirrored form by orientation.
pub open spec fn tri_covers(a: Vec2Fx, b: Vec2Fx, c: Vec2Fx, scale: int, x: int, y: int) -> bool {
    let (p, q, r) = spec_sort3(a, b, c);
    if spec_det(p, q, r) >= 0 {
        cw_covers(p, q, r, scale, x, y)
    } else {
        cw_covers(neg_y(p), neg_y(q), neg_y(r), scale, x, -(y + 1))
    }
}

/// Law: with pairwise distinct abscissas, sorting by abscissa does not
/// depend on the argument order, so the conservative cover is a property
/// of the triangle, not of the order its vertices are given in. (With
/// equal abscissas the sort's tie-break consults the argument order, so
/// the covered set is only specified per ordering there.)
pub proof fn lemma_tri_covers_vertex_order(
    a: Vec2Fx,
    b: Vec2Fx,
    c: Vec2Fx,
    scale: int,
    x: int,
    y: int,
)
    requires
        a.x.bits != b.x.bits,
        a.x.bits != c.x.bits,
        b.x.bits != c.x.bits,
    ensures
        tri_covers(a, b, c, scale, x, y) == tri_covers(b, a, c, scale, x, y),
        tri_covers(a, b, c, scale, x, y) == tri_covers(a, c, b, scale, x, y),
        tri_covers(a, b, c, scale, x, y) == tri_covers(c, b, a, scale, x, y),
        tri_covers(a, b, c, scale, x, y) == tri_covers(b, c, a, scale, x, y),
        tri_covers(a, b, c, scale, x, y) == tri_covers(c, a, b, scale, x, y),
{
    assert(spec_sort3(a, b, c) == spec_sort3(b, a, c));
    assert(spec_sort3(a, b, c) == spec_sort3(a, c, b));
    assert(spec_sort3(a, b, c) == spec_sort3(c, b, a));
    assert(spec_sort3(a, b, c) == spec_sort3(b, c, a));
    assert(spec_sort3(a, b, c) == spec_sort3(c, a, b));
}

/// `s` has a cell equal to `(x, y)`.
pub open spec fn cells_contain(s: Seq<(i32, i32)>, x: int, y: int) -> bool {
    exists|k: int| 0 <= k < s.len() && s[k].0 == x && s[k].1 == y
}

/// Lexicographic order on cells.
pub open spec fn cell_lt(a: (i32, i32), b: (i32, i32)) -> bool {
    a.0 < b.0 || (a.0 == b.0 && a.1 < b.1)
}

/// Strictly increasing in lexicographic cell order.
pub open spec fn cells_sorted(s: Seq<(i32, i32)>) -> bool {
    forall|i: int, j: int| 0 <= i < j < s.len() ==> cell_lt(s[i], s[j])
}

/// An acceptable cell scale: at least the unit grid, small enough that
/// every well-formed coordinate's cell fits comfortably in an `i32`.
pub open spec fn scale_ok_for_cells(scale: int) -> bool {
    65536 <= scale <= 0x1_0000_0000
}

/// Floor division on machine integers, for a positive divisor.
fn floor_div_i128(n: i128, d: i128) -> (q: i128)
    requires
        d > 0,
        -0x4000_0000_0000_0000_0000_0000_0000_0000 < n,
    ensures
        q == n as int / d as int,
{
    if n >= 0 {
        let q: u128 = (n as u128) / (d as u128);
        proof {
            vstd::arithmetic::div_mod::lemma_div_is_ordered(n as int, n as int, d as int);
            vstd::arithmetic::div_mod::lemma_div_pos_is_pos(n as int, d as int);
        }
        q as i128
    } else {
        let m: i128 = -n;
        let q: u128 = (m as u128) / (d as u128);
        let r: u128 = (m as u128) % (d as u128);
        proof {
            vstd::arithmetic::div_mod::lemma_div_is_ordered(m as int, m as int, d as int);
            vstd::arithmetic::div_mod::lemma_div_pos_is_pos(m as int, d as int);
            vstd::arithmetic::div_mod::lemma_fundamental_div_mod(m as int, d as int);
            assert(q as int == (m as int) / (d as int));
            assert(r as int == (m as int) % (d as int));
            if r == 0 {
                assert(n as int == (-(q as int)) * (d as int) + 0) by (nonlinear_arith)
                    requires
                        m as int == (d as int) * (q as int) + (r as int),
                        r as int == 0,
                        n as int == -(m as int),
                ;
                vstd::arithmetic::div_mod::lemma_fundamental_div_mod_converse_div(
                    n as int,
                    d as int,
                    -(q as int),
                    0,
                );
            } else {
                assert(n as int == (-(q as int) - 1) * (d as int) + ((d as int) - (r as int)))
                    by (nonlinear_arith)
                    requires
                        m as int == (d as int) * (q as int) + (r as int),
                        n as int == -(m as int),
                ;
                vstd::arithmetic::div_mod::lemma_fundamental_div_mod_converse_div(
                    n as int,
                    d as int,
                    -(q as int) - 1,
                    (d as int) - (r as int),
                );
            }
        }
        if r == 0 {
            -(q as i128)
        } else {
            -(q as i128) - 1
        }
    }
}

/// Cancel a common positive factor in a floor division.
proof fn lemma_div_cancel(f: int, m: int, s: int)
    requires
        f > 0,
        s > 0,
    ensures
        (f * m) / (f * s) == m / s,
{
    vstd::arithmetic::div_mod::lemma_fundamental_div_mod(m, s);
    let q = m / s;
    let r = m % s;
    assert(f * m == q * (f * s) + f * r) by (nonlinear_arith)
        requires
            m == s * q + r,
    ;
    assert(0 <= f * r < f * s) by (nonlinear_arith)
        requires
            f > 0,
            0 <= r < s,
    ;
    vstd::arithmetic::div_mod::lemma_fundamental_div_mod_converse_div(f * m, f * s, q, f * r);
}

/// The cell of a line at an enclosed abscissa lies between the cells of
/// the endpoint ordinates.
proof fn lemma_line_cell_range(p0: Vec2Fx, p1: Vec2Fx, scale: int, xx: int)
    requires
        p0.x.bits < p1.x.bits,
        scale > 0,
        p0.x.bits <= xx <= p1.x.bits,
    ensures
        spec_line_cell(p0, p1, scale, xx) >= cell_of(
            if p0.y.bits <= p1.y.bits {
                p0.y.bits as int
            } else {
                p1.y.bits as int
            },
            scale,
        ),
        spec_line_cell(p0, p1, scale, xx) <= cell_of(
            if p0.y.bits >= p1.y.bits {
                p0.y.bits as int
            } else {
                p1.y.bits as int
            },
            scale,
        ),
{
    let dx = p1.x.bits - p0.x.bits;
    let dy = p1.y.bits - p0.y.bits;
    let off = xx - p0.x.bits;
    let num = p0.y.bits * dx + off * dy;
    let lo: int = if p0.y.bits <= p1.y.bits {
        p0.y.bits as int
    } else {
        p1.y.bits as int
    };
    let hi: int = if p0.y.bits >= p1.y.bits {
        p0.y.bits as int
    } else {
        p1.y.bits as int
    };
    assert(dx * lo <= num <= dx * hi) by (nonlinear_arith)
        requires
            0 <= off <= dx,
            num == p0.y.bits * dx + off * dy,
            dy == p1.y.bits - p0.y.bits,
            dx > 0,
            lo == if p0.y.bits <= p1.y.bits {
                p0.y.bits as int
            } else {
                p1.y.bits as int
            },
            hi == if p0.y.bits >= p1.y.bits {
                p0.y.bits as int
            } else {
                p1.y.bits as int
            },
    ;
    assert(dx * scale > 0) by (nonlinear_arith)
        requires
            dx > 0,
            scale > 0,
    ;
    vstd::arithmetic::div_mod::lemma_div_is_ordered(dx * lo, num, dx * scale);
    vstd::arithmetic::div_mod::lemma_div_is_ordered(num, dx * hi, dx * scale);
    lemma_div_cancel(dx, lo, scale);
    lemma_div_cancel(dx, hi, scale);
}

/// The cell containing a well-formed coordinate.
pub(crate) fn floor_cell(v: Fx, scale: i64) -> (c: i32)
    requires
        fx_wf(v),
        scale_ok_for_cells(scale as int),
    ensures
        c == cell_of(v.bits as int, scale as int),
        -0x200_0000 <= c <= 0x200_0000,
{
    let q: i128 = floor_div_i128(v.bits as i128, scale as i128);
    proof {
        let s = scale as int;
        assert(s * (-0x200_0000) <= -0x100_0000_0000 && s * 0x200_0000 >= 0x100_0000_0000)
            by (nonlinear_arith)
            requires
                65536 <= s <= 0x1_0000_0000,
        ;
        vstd::arithmetic::div_mod::lemma_div_is_ordered(s * (-0x200_0000), v.bits as int, s);
        vstd::arithmetic::div_mod::lemma_div_is_ordered(v.bits as int, s * 0x200_0000, s);
        vstd::arithmetic::div_mod::lemma_div_multiples_vanish(-0x200_0000, s);
        vstd::arithmetic::div_mod::lemma_div_multiples_vanish(0x200_0000, s);
    }
    q as i32
}

/// The conservative extreme cell of the line `p0..p1` at boundary
/// abscissa `xx`.
fn line_boundary_cell(p0: Vec2Fx, p1: Vec2Fx, scale: i64, xx: i64) -> (c: i32)
    requires
        v2_wf(p0),
        v2_wf(p1),
        p0.x.bits < p1.x.bits,
        scale_ok_for_cells(scale as int),
        p0.x.bits <= xx <= p1.x.bits,
    ensures
        c == spec_line_cell(p0, p1, scale as int, xx as int),
        -0x200_0001 <= c <= 0x200_0000,
{
    let dx: i128 = (p1.x.bits as i128) - (p0.x.bits as i128);
    let dyy: i128 = (p1.y.bits as i128) - (p0.y.bits as i128);
    let off: i128 = (xx as i128) - (p0.x.bits as i128);
    proof {
        assert((p0.y.bits as i128) * dx <= 0x400_0000_0000 * 0x400_0000_0000 && (p0.y.bits as i128)
            * dx >= -(0x400_0000_0000 * 0x400_0000_0000)) by (nonlinear_arith)
            requires
                -0x400_0000_0000 <= p0.y.bits as i128 <= 0x400_0000_0000,
                0 <= dx <= 0x400_0000_0000,
        ;
        assert(off * dyy <= 0x400_0000_0000 * 0x400_0000_0000 && off * dyy >= -(0x400_0000_0000
            * 0x400_0000_0000)) by (nonlinear_arith)
            requires
                0 <= off <= 0x400_0000_0000,
                -0x400_0000_0000 <= dyy <= 0x400_0000_0000,
        ;
        assert(dx * (scale as i128) > 0 && dx * (scale as i128) <= 0x400_0000_0000
            * 0x1_0000_0000) by (nonlinear_arith)
            requires
                0 < dx <= 0x400_0000_0000,
                65536 <= scale as i128 <= 0x1_0000_0000,
        ;
    }
    let num: i128 = (p0.y.bits as i128) * dx + off * dyy;
    let den: i128 = dx * (scale as i128);
    let q: i128 = floor_div_i128(num, den);
    proof {
        lemma_line_cell_range(p0, p1, scale as int, xx as int);
        let s = scale as int;
        let lo: int = if p0.y.bits <= p1.y.bits {
            p0.y.bits as int
        } else {
            p1.y.bits as int
        };
        let hi: int = if p0.y.bits >= p1.y.bits {
            p0.y.bits as int
        } else {
            p1.y.bits as int
        };
        assert(s * (-0x200_0000) <= -0x100_0000_0000 && s * 0x200_0000 >= 0x100_0000_0000)
            by (nonlinear_arith)
            requires
                65536 <= s <= 0x1_0000_0000,
        ;
        vstd::arithmetic::div_mod::lemma_div_is_ordered(s * (-0x200_0000), lo, s);
        vstd::arithmetic::div_mod::lemma_div_is_ordered(hi, s * 0x200_0000, s);
        vstd::arithmetic::div_mod::lemma_div_multiples_vanish(-0x200_0000, s);
        vstd::arithmetic::div_mod::lemma_div_multiples_vanish(0x200_0000, s);
    }
    q as i32
}

/// A coordinate's cell brackets it: `scale * cell <= bits < scale * (cell + 1)`.
proof fn lemma_cell_brackets(bits: int, scale: int)
    requires
        scale > 0,
    ensures
        scale * cell_of(bits, scale) <= bits < scale * (cell_of(bits, scale) + 1),
{
    vstd::arithmetic::div_mod::lemma_fundamental_div_mod(bits, scale);
    assert(scale * (bits / scale) <= bits < scale * (bits / scale + 1)) by (nonlinear_arith)
        requires
            bits == scale * (bits / scale) + bits % scale,
            0 <= bits % scale < scale,
    ;
}

/// Cell order follows coordinate order.
proof fn lemma_cell_monotone(b1: int, b2: int, scale: int)
    requires
        scale > 0,
        b1 <= b2,
    ensures
        cell_of(b1, scale) <= cell_of(b2, scale),
{
    vstd::arithmetic::div_mod::lemma_div_is_ordered(b1, b2, scale);
}

/// A well-formed coordinate's cell is small.
proof fn lemma_cell_in_range(bits: int, scale: int)
    requires
        -0x100_0000_0000 <= bits <= 0x100_0000_0000,
        65536 <= scale <= 0x1_0000_0000,
    ensures
        -0x200_0000 <= cell_of(bits, scale) <= 0x200_0000,
{
    assert(scale * (-0x200_0000) <= -0x100_0000_0000 && scale * 0x200_0000 >= 0x100_0000_0000)
        by (nonlinear_arith)
        requires
            65536 <= scale <= 0x1_0000_0000,
    ;
    vstd::arithmetic::div_mod::lemma_div_is_ordered(scale * (-0x200_0000), bits, scale);
    vstd::arithmetic::div_mod::lemma_div_is_ordered(bits, scale * 0x200_0000, scale);
    vstd::arithmetic::div_mod::lemma_div_multiples_vanish(-0x200_0000, scale);
    vstd::arithmetic::div_mod::lemma_div_multiples_vanish(0x200_0000, scale);
}

/// The smallest of three integers.
pub open spec fn min3(a: int, b: int, c: int) -> int {
    if a <= b && a <= c {
        a
    } else if b <= c {
        b
    } else {
        c
    }
}

/// The largest of three integers.
pub open spec fn max3(a: int, b: int, c: int) -> int {
    if a >= b && a >= c {
        a
    } else if b >= c {
        b
    } else {
        c
    }
}

/// Negating a coordinate reflects its cell to within one unit:
/// `-(cell(-v) + 1)` is `cell(v)` off a cell boundary and `cell(v) - 1`
/// on one.
proof fn lemma_neg_cell(v: int, s: int)
    requires
        s > 0,
    ensures
        cell_of(v, s) - 1 <= -(cell_of(-v, s) + 1) <= cell_of(v, s),
{
    vstd::arithmetic::div_mod::lemma_fundamental_div_mod(v, s);
    let q = v / s;
    let r = v % s;
    if r == 0 {
        assert(-v == (-q) * s + 0) by (nonlinear_arith)
            requires
                v == s * q + r,
                r == 0,
        ;
        vstd::arithmetic::div_mod::lemma_fundamental_div_mod_converse_div(-v, s, -q, 0);
    } else {
        assert(-v == (-q - 1) * s + (s - r)) by (nonlinear_arith)
            requires
                v == s * q + r,
        ;
        vstd::arithmetic::div_mod::lemma_fundamental_div_mod_converse_div(-v, s, -q - 1, s - r);
    }
}

/// The conservative maximum cell of a segment's column lies between the
/// cells of the segment's endpoint ordinates.
proof fn lemma_max_cell_range(p0: Vec2Fx, p1: Vec2Fx, scale: int, k: int)
    requires
        scale > 0,
        v2_wf(p0),
        v2_wf(p1),
        p0.x.bits <= p1.x.bits,
        0 <= k <= cell_of(p1.x.bits as int, scale) - cell_of(p0.x.bits as int, scale),
    ensures
        cell_of(
            if p0.y.bits <= p1.y.bits {
                p0.y.bits as int
            } else {
                p1.y.bits as int
            },
            scale,
        ) <= spec_max_cell(p0, p1, scale, k),
        spec_max_cell(p0, p1, scale, k) <= cell_of(
            if p0.y.bits >= p1.y.bits {
                p0.y.bits as int
            } else {
                p1.y.bits as int
            },
            scale,
        ),
{
    let xi0 = cell_of(p0.x.bits as int, scale);
    let xi1 = cell_of(p1.x.bits as int, scale);
    let ylo: int = if p0.y.bits <= p1.y.bits {
        p0.y.bits as int
    } else {
        p1.y.bits as int
    };
    let yhi: int = if p0.y.bits >= p1.y.bits {
        p0.y.bits as int
    } else {
        p1.y.bits as int
    };
    lemma_cell_monotone(ylo, p0.y.bits as int, scale);
    lemma_cell_monotone(p0.y.bits as int, yhi, scale);
    lemma_cell_monotone(ylo, p1.y.bits as int, scale);
    lemma_cell_monotone(p1.y.bits as int, yhi, scale);
    lemma_cell_brackets(p0.x.bits as int, scale);
    lemma_cell_brackets(p1.x.bits as int, scale);
    let dy = p1.y.bits - p0.y.bits;
    if dy >= 0 {
        if k == xi1 - xi0 {
        } else {
            let xx = (xi0 + k + 1) * scale;
            assert(scale * (xi0 + 1) <= (xi0 + k + 1) * scale <= scale * xi1) by (nonlinear_arith)
                requires
                    scale > 0,
                    xi0 + 1 <= xi0 + k + 1 <= xi1,
            ;
            assert(p0.x.bits < xx <= p1.x.bits);
            lemma_line_cell_range(p0, p1, scale, xx);
        }
    } else {
        if k == 0 {
        } else {
            let xx = (xi0 + k) * scale;
            assert(scale * (xi0 + 1) <= (xi0 + k) * scale <= scale * xi1) by (nonlinear_arith)
                requires
                    scale > 0,
                    xi0 + 1 <= xi0 + k <= xi1,
            ;
            assert(p0.x.bits < xx <= p1.x.bits);
            lemma_line_cell_range(p0, p1, scale, xx);
        }
    }
}

/// The conservative minimum cell of a segment's column lies between one
/// cell below the lower endpoint ordinate's cell and the higher one's.
proof fn lemma_min_cell_range(p0: Vec2Fx, p1: Vec2Fx, scale: int, k: int)
    requires
        scale > 0,
        v2_wf(p0),
        v2_wf(p1),
        p0.x.bits <= p1.x.bits,
        0 <= k <= cell_of(p1.x.bits as int, scale) - cell_of(p0.x.bits as int, scale),
    ensures
        cell_of(
            if p0.y.bits <= p1.y.bits {
                p0.y.bits as int
            } else {
                p1.y.bits as int
            },
            scale,
        ) - 1 <= spec_min_cell(p0, p1, scale, k),
        spec_min_cell(p0, p1, scale, k) <= cell_of(
            if p0.y.bits >= p1.y.bits {
                p0.y.bits as int
            } else {
                p1.y.bits as int
            },
            scale,
        ),
{
    let n0 = neg_y(p0);
    let n1 = neg_y(p1);
    assert(v2_wf(n0) && v2_wf(n1));
    assert(n0.y.bits == -p0.y.bits && n1.y.bits == -p1.y.bits);
    lemma_max_cell_range(n0, n1, scale, k);
    let ylo: int = if p0.y.bits <= p1.y.bits {
        p0.y.bits as int
    } else {
        p1.y.bits as int
    };
    let yhi: int = if p0.y.bits >= p1.y.bits {
        p0.y.bits as int
    } else {
        p1.y.bits as int
    };
    let m = spec_max_cell(n0, n1, scale, k);
    assert(cell_of(-yhi, scale) <= m <= cell_of(-ylo, scale));
    lemma_neg_cell(ylo, scale);
    lemma_neg_cell(yhi, scale);
    vstd::arithmetic::div_mod::lemma_div_is_ordered(-yhi, -ylo, scale);
}

/// Law: the conservative cover of a triangle stays within one cell of
/// the triangle's bounding box: no covered cell is farther than one cell
/// from the vertices' coordinate range in either axis.
pub proof fn lemma_tri_covers_bounded(a: Vec2Fx, b: Vec2Fx, c: Vec2Fx, scale: int, x: int, y: int)
    requires
        scale > 0,
        v2_wf(a),
        v2_wf(b),
        v2_wf(c),
        tri_covers(a, b, c, scale, x, y),
    ensures
        cell_of(min3(a.x.bits as int, b.x.bits as int, c.x.bits as int), scale) - 1 <= x,
        x <= cell_of(max3(a.x.bits as int, b.x.bits as int, c.x.bits as int), scale) + 1,
        cell_of(min3(a.y.bits as int, b.y.bits as int, c.y.bits as int), scale) - 1 <= y,
        y <= cell_of(max3(a.y.bits as int, b.y.bits as int, c.y.bits as int), scale) + 1,
{
    let (p, q, r) = spec_sort3(a, b, c);
    let xlo = min3(a.x.bits as int, b.x.bits as int, c.x.bits as int);
    let xhi = max3(a.x.bits as int, b.x.bits as int, c.x.bits as int);
    let ylo = min3(a.y.bits as int, b.y.bits as int, c.y.bits as int);
    let yhi = max3(a.y.bits as int, b.y.bits as int, c.y.bits as int);
    assert(p.x.bits == xlo && r.x.bits == xhi);
    if spec_det(p, q, r) >= 0 {
        lemma_cw_covers_bounded(p, q, r, scale, x, y, xlo, xhi, ylo, yhi);
    } else {
        assert(v2_wf(neg_y(p)) && v2_wf(neg_y(q)) && v2_wf(neg_y(r)));
        lemma_cw_covers_bounded(
            neg_y(p),
            neg_y(q),
            neg_y(r),
            scale,
            x,
            -(y + 1),
            xlo,
            xhi,
            -yhi,
            -ylo,
        );
        let w = -(y + 1);
        assert(cell_of(-yhi, scale) - 1 <= w && w <= cell_of(-ylo, scale));
        lemma_neg_cell(ylo, scale);
        lemma_neg_cell(yhi, scale);
    }
}

/// Bounding-box form of [`lemma_tri_covers_bounded`] for one clockwise
/// x-sorted triangle.
proof fn lemma_cw_covers_bounded(
    p: Vec2Fx,
    q: Vec2Fx,
    r: Vec2Fx,
    scale: int,
    x: int,
    y: int,
    xlo: int,
    xhi: int,
    ylo: int,
    yhi: int,
)
    requires
        scale > 0,
        v2_wf(p),
        v2_wf(q),
        v2_wf(r),
        cw_covers(p, q, r, scale, x, y),
        p.x.bits <= q.x.bits <= r.x.bits,
        xlo <= p.x.bits && r.x.bits <= xhi,
        ylo <= p.y.bits <= yhi,
        ylo <= q.y.bits <= yhi,
        ylo <= r.y.bits <= yhi,
        -0x100_0000_0000 <= xlo <= 0x100_0000_0000,
        -0x100_0000_0000 <= xhi <= 0x100_0000_0000,
        -0x100_0000_0000 <= ylo <= 0x100_0000_0000,
        -0x100_0000_0000 <= yhi <= 0x100_0000_0000,
    ensures
        cell_of(xlo, scale) - 1 <= x <= cell_of(xhi, scale),
        cell_of(ylo, scale) - 1 <= y <= cell_of(yhi, scale),
{
    lemma_cell_monotone(xlo, p.x.bits as int, scale);
    lemma_cell_monotone(p.x.bits as int, q.x.bits as int, scale);
    lemma_cell_monotone(q.x.bits as int, r.x.bits as int, scale);
    lemma_cell_monotone(r.x.bits as int, xhi, scale);
    if wedge_covers(p, q, r, scale, x, y) {
        let k = x - cell_of(p.x.bits as int, scale);
        lemma_max_cell_range(p, q, scale, k);
        lemma_min_cell_range(p, r, scale, x - cell_of(p.x.bits as int, scale));
        lemma_cell_monotone(ylo, if p.y.bits <= r.y.bits { p.y.bits as int } else { r.y.bits as int }, scale);
        lemma_cell_monotone(if p.y.bits >= q.y.bits { p.y.bits as int } else { q.y.bits as int }, yhi, scale);
    } else {
        let mp = neg_x(p);
        let mq = neg_x(q);
        let mr = neg_x(r);
        assert(v2_wf(mp) && v2_wf(mq) && v2_wf(mr));
        let xm = -(x + 1);
        assert(wedge_covers(mr, mq, mp, scale, xm, y));
        let k = xm - cell_of(mr.x.bits as int, scale);
        lemma_cell_monotone(mr.x.bits as int, mq.x.bits as int, scale);
        lemma_cell_monotone(mq.x.bits as int, mp.x.bits as int, scale);
        lemma_max_cell_range(mr, mq, scale, k);
        lemma_min_cell_range(mr, mp, scale, k);
        lemma_cell_monotone(ylo, if mr.y.bits <= mp.y.bits { mr.y.bits as int } else { mp.y.bits as int }, scale);
        lemma_cell_monotone(if mr.y.bits >= mq.y.bits { mr.y.bits as int } else { mq.y.bits as int }, yhi, scale);
        // Column range back through the x mirror.
        assert(cell_of(-r.x.bits as int, scale) <= xm <= cell_of(-q.x.bits as int, scale));
        lemma_neg_cell(q.x.bits as int, scale);
        lemma_neg_cell(r.x.bits as int, scale);
        lemma_cell_monotone(xlo, q.x.bits as int, scale);
    }
}

/// Containment in a cell list survives appending.
pub(crate) proof fn lemma_contain_push_pub(s: Seq<(i32, i32)>, e: (i32, i32), x: int, y: int)
    requires
        cells_contain(s, x, y),
    ensures
        cells_contain(s.push(e), x, y),
{
    lemma_contain_push(s, e, x, y);
}

/// Containment in a cell list survives appending.
proof fn lemma_contain_push(s: Seq<(i32, i32)>, e: (i32, i32), x: int, y: int)
    requires
        cells_contain(s, x, y),
    ensures
        cells_contain(s.push(e), x, y),
{
    let w = choose|k: int| 0 <= k < s.len() && s[k].0 == x && s[k].1 == y;
    assert(s.push(e)[w] == s[w]);
}

/// Containment in a cell list survives inserting.
proof fn lemma_contain_insert(s: Seq<(i32, i32)>, pos: int, e: (i32, i32), x: int, y: int)
    requires
        cells_contain(s, x, y),
        0 <= pos <= s.len(),
    ensures
        cells_contain(s.insert(pos, e), x, y),
{
    s.insert_ensures(pos, e);
    let w = choose|k: int| 0 <= k < s.len() && s[k].0 == x && s[k].1 == y;
    if w < pos {
        assert(s.insert(pos, e)[w] == s[w]);
    } else {
        assert(s.insert(pos, e)[w + 1] == s[w]);
    }
}

/// Whatever an inserted list contains was contained before, or is the
/// inserted cell.
proof fn lemma_contain_insert_inv(s: Seq<(i32, i32)>, pos: int, e: (i32, i32), x: int, y: int)
    requires
        cells_contain(s.insert(pos, e), x, y),
        0 <= pos <= s.len(),
    ensures
        cells_contain(s, x, y) || (e.0 == x && e.1 == y),
{
    s.insert_ensures(pos, e);
    let w = choose|k: int|
        0 <= k < s.insert(pos, e).len() && s.insert(pos, e)[k].0 == x && s.insert(pos, e)[k].1
            == y;
    if w < pos {
        assert(s[w] == s.insert(pos, e)[w]);
    } else if w > pos {
        assert(s[w - 1] == s.insert(pos, e)[w]);
    }
}

/// Conservative maximum cells of segment `p0..p1`, one per column.
fn max_line_cells(p0: Vec2Fx, p1: Vec2Fx, scale: i64) -> (r: Vec<i32>)
    requires
        v2_wf(p0),
        v2_wf(p1),
        p0.x.bits <= p1.x.bits,
        scale_ok_for_cells(scale as int),
    ensures
        r@.len() == cell_of(p1.x.bits as int, scale as int) - cell_of(
            p0.x.bits as int,
            scale as int,
        ) + 1,
        forall|k: int| 0 <= k < r@.len() ==> r@[k] == spec_max_cell(p0, p1, scale as int, k),
        forall|k: int| 0 <= k < r@.len() ==> -0x200_0001 <= #[trigger] r@[k] <= 0x200_0000,
{
    let xi0 = floor_cell(p0.x, scale);
    let xi1 = floor_cell(p1.x, scale);
    proof {
        lemma_cell_monotone(p0.x.bits as int, p1.x.bits as int, scale as int);
        lemma_cell_brackets(p0.x.bits as int, scale as int);
        lemma_cell_brackets(p1.x.bits as int, scale as int);
    }
    let n: usize = ((xi1 - xi0) as usize) + 1;
    let dy: i64 = p1.y.bits - p0.y.bits;
    let mut out: Vec<i32> = Vec::new();
    if dy >= 0 {
        let mut k: usize = 0;
        while k + 1 < n
            invariant
                0 <= k < n || (k == 0 && n == 0),
                n == xi1 - xi0 + 1,
                xi0 == cell_of(p0.x.bits as int, scale as int),
                xi1 == cell_of(p1.x.bits as int, scale as int),
                -0x200_0000 <= xi0 <= 0x200_0000,
                -0x200_0000 <= xi1 <= 0x200_0000,
                dy == p1.y.bits - p0.y.bits,
                dy >= 0,
                v2_wf(p0),
                v2_wf(p1),
                p0.x.bits <= p1.x.bits,
                scale_ok_for_cells(scale as int),
                scale * xi0 <= p0.x.bits < scale * (xi0 + 1),
                scale * xi1 <= p1.x.bits < scale * (xi1 + 1),
                out@.len() == k,
                forall|t: int| 0 <= t < k ==> out@[t] == spec_max_cell(p0, p1, scale as int, t),
                forall|t: int| 0 <= t < k ==> -0x200_0001 <= #[trigger] out@[t] <= 0x200_0000,
            decreases n - k,
        {
            let m: i64 = (xi0 as i64) + (k as i64) + 1;
            proof {
                assert(xi0 + 1 <= m <= xi1);
                assert(scale * (xi0 + 1) <= scale * m <= scale * xi1) by (nonlinear_arith)
                    requires
                        xi0 + 1 <= m <= xi1,
                        scale > 0,
                ;
                assert(scale * m <= 0x1_0000_0000 * 0x200_0000 && scale * m >= -(0x1_0000_0000
                    * 0x200_0000)) by (nonlinear_arith)
                    requires
                        -0x200_0000 <= m <= 0x200_0000,
                        0 < scale <= 0x1_0000_0000,
                ;
            }
            let xx: i64 = m * scale;
            let c = line_boundary_cell(p0, p1, scale, xx);
            out.push(c);
            k = k + 1;
        }
        let c = floor_cell(p1.y, scale);
        out.push(c);
    } else {
        let c0 = floor_cell(p0.y, scale);
        out.push(c0);
        let mut k: usize = 1;
        while k < n
            invariant
                1 <= k <= n,
                n == xi1 - xi0 + 1,
                xi0 == cell_of(p0.x.bits as int, scale as int),
                xi1 == cell_of(p1.x.bits as int, scale as int),
                -0x200_0000 <= xi0 <= 0x200_0000,
                -0x200_0000 <= xi1 <= 0x200_0000,
                dy == p1.y.bits - p0.y.bits,
                dy < 0,
                v2_wf(p0),
                v2_wf(p1),
                p0.x.bits <= p1.x.bits,
                scale_ok_for_cells(scale as int),
                scale * xi0 <= p0.x.bits < scale * (xi0 + 1),
                scale * xi1 <= p1.x.bits < scale * (xi1 + 1),
                out@.len() == k,
                forall|t: int| 0 <= t < k ==> out@[t] == spec_max_cell(p0, p1, scale as int, t),
                forall|t: int| 0 <= t < k ==> -0x200_0001 <= #[trigger] out@[t] <= 0x200_0000,
            decreases n - k,
        {
            let m: i64 = (xi0 as i64) + (k as i64);
            proof {
                assert(xi0 + 1 <= m <= xi1);
                assert(scale * (xi0 + 1) <= scale * m <= scale * xi1) by (nonlinear_arith)
                    requires
                        xi0 + 1 <= m <= xi1,
                        scale > 0,
                ;
                assert(scale * m <= 0x1_0000_0000 * 0x200_0000 && scale * m >= -(0x1_0000_0000
                    * 0x200_0000)) by (nonlinear_arith)
                    requires
                        -0x200_0000 <= m <= 0x200_0000,
                        0 < scale <= 0x1_0000_0000,
                ;
            }
            let xx: i64 = m * scale;
            let c = line_boundary_cell(p0, p1, scale, xx);
            out.push(c);
            k = k + 1;
        }
    }
    out
}

/// Conservative minimum cells of segment `p0..p1`, one per column: the
/// mirror of the maximum cells of the ordinate-negated segment.
fn min_line_cells(p0: Vec2Fx, p1: Vec2Fx, scale: i64) -> (r: Vec<i32>)
    requires
        v2_wf(p0),
        v2_wf(p1),
        p0.x.bits <= p1.x.bits,
        scale_ok_for_cells(scale as int),
    ensures
        r@.len() == cell_of(p1.x.bits as int, scale as int) - cell_of(
            p0.x.bits as int,
            scale as int,
        ) + 1,
        forall|k: int| 0 <= k < r@.len() ==> r@[k] == spec_min_cell(p0, p1, scale as int, k),
        forall|k: int| 0 <= k < r@.len() ==> -0x200_0001 <= #[trigger] r@[k] <= 0x200_0000,
{
    let n0 = Vec2Fx { x: p0.x, y: Fx { bits: -p0.y.bits } };
    let n1 = Vec2Fx { x: p1.x, y: Fx { bits: -p1.y.bits } };
    proof {
        assert(n0 == neg_y(p0));
        assert(n1 == neg_y(p1));
    }
    let v = max_line_cells(n0, n1, scale);
    let mut out: Vec<i32> = Vec::new();
    let mut k: usize = 0;
    while k < v.len()
        invariant
            0 <= k <= v@.len(),
            out@.len() == k,
            forall|t: int|
                0 <= t < v@.len() ==> v@[t] == spec_max_cell(neg_y(p0), neg_y(p1), scale as int, t),
            forall|t: int| 0 <= t < v@.len() ==> -0x200_0001 <= #[trigger] v@[t] <= 0x200_0000,
            forall|t: int| 0 <= t < k ==> out@[t] == spec_min_cell(p0, p1, scale as int, t),
            forall|t: int| 0 <= t < k ==> -0x200_0001 <= #[trigger] out@[t] <= 0x200_0000,
        decreases v@.len() - k,
    {
        let c = v[k];
        out.push(-(c + 1));
        k = k + 1;
    }
    out
}

/// Conservative maximum cells of a left-to-right segment on the unit grid.
pub fn max_line_along_x(p0: Vec2Fx, p1: Vec2Fx) -> (r: Vec<i32>)
    requires
        v2_wf(p0),
        v2_wf(p1),
        p0.x.bits <= p1.x.bits,
    ensures
        r@.len() == cell_of(p1.x.bits as int, 65536) - cell_of(p0.x.bits as int, 65536) + 1,
        forall|k: int| 0 <= k < r@.len() ==> r@[k] == spec_max_cell(p0, p1, 65536, k),
{
    max_line_cells(p0, p1, 65536)
}

/// Conservative minimum cells of a left-to-right segment on the unit grid.
pub fn min_line_along_x(p0: Vec2Fx, p1: Vec2Fx) -> (r: Vec<i32>)
    requires
        v2_wf(p0),
        v2_wf(p1),
        p0.x.bits <= p1.x.bits,
    ensures
        r@.len() == cell_of(p1.x.bits as int, 65536) - cell_of(p0.x.bits as int, 65536) + 1,
        forall|k: int| 0 <= k < r@.len() ==> r@[k] == spec_min_cell(p0, p1, 65536, k),
{
    min_line_cells(p0, p1, 65536)
}

/// All cells covered by the wedge with upper edge `a..b` and lower edge
/// `a..c`, column by column.
fn wedge_cells(a: Vec2Fx, b: Vec2Fx, c: Vec2Fx, scale: i64) -> (r: Vec<(i32, i32)>)
    requires
        v2_wf(a),
        v2_wf(b),
        v2_wf(c),
        a.x.bits <= b.x.bits,
        b.x.bits <= c.x.bits,
        scale_ok_for_cells(scale as int),
    ensures
        forall|t: int|
            0 <= t < r@.len() ==> wedge_covers(
                a,
                b,
                c,
                scale as int,
                (#[trigger] r@[t]).0 as int,
                r@[t].1 as int,
            ),
        forall|x: int, y: int|
            wedge_covers(a, b, c, scale as int, x, y) ==> cells_contain(r@, x, y),
        forall|t: int|
            0 <= t < r@.len() ==> -0x200_0001 <= (#[trigger] r@[t]).0 <= 0x200_0000 && -0x200_0001
                <= r@[t].1 <= 0x200_0000,
{
    let vmax = max_line_cells(a, b, scale);
    let vmin = min_line_cells(a, c, scale);
    let xi0 = floor_cell(a.x, scale);
    proof {
        lemma_cell_monotone(b.x.bits as int, c.x.bits as int, scale as int);
        lemma_cell_in_range(b.x.bits as int, scale as int);
    }
    let mut out: Vec<(i32, i32)> = Vec::new();
    let mut k: usize = 0;
    while k < vmax.len()
        invariant
            0 <= k <= vmax@.len(),
            v2_wf(a),
            v2_wf(b),
            v2_wf(c),
            a.x.bits <= b.x.bits <= c.x.bits,
            scale_ok_for_cells(scale as int),
            xi0 == cell_of(a.x.bits as int, scale as int),
            -0x200_0000 <= xi0 <= 0x200_0000,
            vmax@.len() == cell_of(b.x.bits as int, scale as int) - xi0 + 1,
            vmin@.len() == cell_of(c.x.bits as int, scale as int) - xi0 + 1,
            -0x200_0000 <= cell_of(b.x.bits as int, scale as int) <= 0x200_0000,
            vmax@.len() <= vmin@.len(),
            forall|t: int| 0 <= t < vmax@.len() ==> vmax@[t] == spec_max_cell(a, b, scale as int, t),
            forall|t: int| 0 <= t < vmin@.len() ==> vmin@[t] == spec_min_cell(a, c, scale as int, t),
            forall|t: int| 0 <= t < vmax@.len() ==> -0x200_0001 <= #[trigger] vmax@[t] <= 0x200_0000,
            forall|t: int| 0 <= t < vmin@.len() ==> -0x200_0001 <= #[trigger] vmin@[t] <= 0x200_0000,
            forall|t: int|
                0 <= t < out@.len() ==> wedge_covers(
                    a,
                    b,
                    c,
                    scale as int,
                    (#[trigger] out@[t]).0 as int,
                    out@[t].1 as int,
                ),
            forall|x: int, y: int|
                wedge_covers(a, b, c, scale as int, x, y) && x < xi0 + k ==> cells_contain(
                    out@,
                    x,
                    y,
                ),
            forall|t: int|
                0 <= t < out@.len() ==> -0x200_0001 <= (#[trigger] out@[t]).0 <= 0x200_0000
                    && -0x200_0001 <= out@[t].1 <= 0x200_0000,
        decreases vmax@.len() - k,
    {
        let ymin = vmin[k];
        let ymax = vmax[k];
        let x: i32 = xi0 + (k as i32);
        let mut y: i32 = ymin;
        while y <= ymax
            invariant
                ymin <= y <= ymax + 1 || (y == ymin && ymin > ymax),
                -0x200_0001 <= ymin <= 0x200_0000,
                -0x200_0001 <= ymax <= 0x200_0000,
                x == xi0 + k,
                -0x200_0001 <= x <= 0x200_0000,
                0 <= k < vmax@.len(),
                v2_wf(a),
                v2_wf(b),
                v2_wf(c),
                a.x.bits <= b.x.bits <= c.x.bits,
                scale_ok_for_cells(scale as int),
                xi0 == cell_of(a.x.bits as int, scale as int),
                vmax@.len() == cell_of(b.x.bits as int, scale as int) - xi0 + 1,
                ymin == spec_min_cell(a, c, scale as int, k as int),
                ymax == spec_max_cell(a, b, scale as int, k as int),
                forall|t: int|
                    0 <= t < out@.len() ==> wedge_covers(
                        a,
                        b,
                        c,
                        scale as int,
                        (#[trigger] out@[t]).0 as int,
                        out@[t].1 as int,
                    ),
                forall|x2: int, y2: int|
                    wedge_covers(a, b, c, scale as int, x2, y2) && x2 < xi0 + k ==> cells_contain(
                        out@,
                        x2,
                        y2,
                    ),
                forall|y2: int| ymin <= y2 < y ==> cells_contain(out@, x as int, y2),
                forall|t: int|
                    0 <= t < out@.len() ==> -0x200_0001 <= (#[trigger] out@[t]).0 <= 0x200_0000
                        && -0x200_0001 <= out@[t].1 <= 0x200_0000,
            decreases ymax + 1 - y,
        {
            let ghost prev = out@;
            out.push((x, y));
            proof {
                assert forall|x2: int, y2: int|
                    wedge_covers(a, b, c, scale as int, x2, y2) && x2 < xi0 + k implies
                    cells_contain(out@, x2, y2) by {
                    lemma_contain_push(prev, (x, y), x2, y2);
                }
                assert forall|y2: int| ymin <= y2 < y + 1 implies cells_contain(
                    out@,
                    x as int,
                    y2,
                ) by {
                    if y2 < y {
                        lemma_contain_push(prev, (x, y), x as int, y2);
                    } else {
                        assert(out@[out@.len() - 1] == (x, y));
                    }
                }
            }
            y = y + 1;
        }
        proof {
            assert forall|x2: int, y2: int|
                wedge_covers(a, b, c, scale as int, x2, y2) && x2 < xi0 + k + 1 implies
                cells_contain(out@, x2, y2) by {
                if x2 == xi0 + k {
                    assert(ymin <= y2 <= ymax);
                }
            }
        }
        k = k + 1;
    }
    out
}

/// The cells of the wedge `a..b` over `a..c` on the unit grid.
pub fn conservative_wedge(a: Vec2Fx, b: Vec2Fx, c: Vec2Fx) -> (r: Vec<(i32, i32)>)
    requires
        v2_wf(a),
        v2_wf(b),
        v2_wf(c),
        a.x.bits <= b.x.bits,
        b.x.bits <= c.x.bits,
    ensures
        forall|t: int|
            0 <= t < r@.len() ==> wedge_covers(
                a,
                b,
                c,
                65536,
                (#[trigger] r@[t]).0 as int,
                r@[t].1 as int,
            ),
        forall|x: int, y: int| wedge_covers(a, b, c, 65536, x, y) ==> cells_contain(r@, x, y),
{
    wedge_cells(a, b, c, 65536)
}

/// Sort cells lexicographically and drop duplicates; membership is kept
/// exactly.
pub(crate) fn sort_dedup_cells(v: Vec<(i32, i32)>) -> (r: Vec<(i32, i32)>)
    ensures
        cells_sorted(r@),
        forall|x: int, y: int| cells_contain(r@, x, y) <==> cells_contain(v@, x, y),
{
    let mut sorted: Vec<(i32, i32)> = Vec::new();
    let mut i: usize = 0;
    while i < v.len()
        invariant
            0 <= i <= v@.len(),
            forall|a: int, b: int|
                0 <= a < b < sorted@.len() ==> !cell_lt(#[trigger] sorted@[b], #[trigger] sorted@[a]),
            forall|x: int, y: int| cells_contain(sorted@, x, y) ==> cells_contain(v@, x, y),
            forall|x: int, y: int|
                cells_contain(v@.take(i as int), x, y) ==> cells_contain(sorted@, x, y),
        decreases v@.len() - i,
    {
        let p = v[i];
        let mut pos: usize = sorted.len();
        while pos > 0 && cell_lt_exec(p, sorted[pos - 1])
            invariant
                0 <= pos <= sorted@.len(),
                forall|t: int| pos <= t < sorted@.len() ==> cell_lt(p, #[trigger] sorted@[t]),
            decreases pos,
        {
            pos = pos - 1;
        }
        let ghost before = sorted@;
        sorted.insert(pos, p);
        proof {
            before.insert_ensures(pos as int, p);
            assert forall|x: int, y: int| cells_contain(sorted@, x, y) implies cells_contain(
                v@,
                x,
                y,
            ) by {
                lemma_contain_insert_inv(before, pos as int, p, x, y);
                if p.0 == x && p.1 == y {
                    assert(v@[i as int] == p);
                }
            }
            let ghost vnext = v@.take(i + 1);
            assert forall|x: int, y: int| #[trigger] cells_contain(vnext, x, y) implies
                cells_contain(sorted@, x, y) by {
                let w = choose|k: int|
                    0 <= k < vnext.len() && vnext[k].0 == x && vnext[k].1 == y;
                if w < i {
                    assert(cells_contain(v@.take(i as int), x, y)) by {
                        assert(v@.take(i as int)[w] == v@.take(i + 1)[w]);
                    }
                    lemma_contain_insert(before, pos as int, p, x, y);
                } else {
                    assert(sorted@[pos as int] == p);
                    assert(v@.take(i + 1)[w] == p);
                }
            }
        }
        i = i + 1;
    }
    proof {
        assert(v@.take(v@.len() as int) =~= v@);
    }
    let mut out: Vec<(i32, i32)> = Vec::new();
    let mut k: usize = 0;
    while k < sorted.len()
        invariant
            0 <= k <= sorted@.len(),
            k > 0 ==> out@.len() >= 1,
            cells_sorted(out@),
            forall|a: int, b: int|
                0 <= a < b < sorted@.len() ==> !cell_lt(#[trigger] sorted@[b], #[trigger] sorted@[a]),
            forall|x: int, y: int| cells_contain(out@, x, y) ==> cells_contain(sorted@, x, y),
            forall|j: int|
                0 <= j < k ==> cells_contain(
                    out@,
                    (#[trigger] sorted@[j]).0 as int,
                    sorted@[j].1 as int,
                ),
            out@.len() > 0 && k < sorted@.len() ==> !cell_lt(
                sorted@[k as int],
                out@[out@.len() - 1],
            ),
        decreases sorted@.len() - k,
    {
        let p = sorted[k];
        let ghost prev = out@;
        let mut pushed: bool = false;
        if out.len() == 0 {
            out.push(p);
            pushed = true;
        } else {
            let last = out[out.len() - 1];
            if last.0 != p.0 || last.1 != p.1 {
                out.push(p);
                pushed = true;
            }
        }
        proof {
            assert(cells_contain(sorted@, p.0 as int, p.1 as int)) by {
                assert(sorted@[k as int] == p);
            }
            assert forall|x: int, y: int| cells_contain(out@, x, y) implies cells_contain(
                sorted@,
                x,
                y,
            ) by {
                if pushed {
                    let w = choose|t: int| 0 <= t < out@.len() && out@[t].0 == x && out@[t].1 == y;
                    if w < prev.len() {
                        assert(prev[w] == out@[w]);
                    }
                }
            }
            assert forall|j: int| 0 <= j < k + 1 implies cells_contain(
                out@,
                (#[trigger] sorted@[j]).0 as int,
                sorted@[j].1 as int,
            ) by {
                if j < k {
                    let w = choose|t: int|
                        0 <= t < prev.len() && prev[t].0 == sorted@[j].0 && prev[t].1
                            == sorted@[j].1;
                    if pushed {
                        lemma_contain_push(prev, p, sorted@[j].0 as int, sorted@[j].1 as int);
                    }
                } else {
                    if pushed {
                        assert(out@[out@.len() - 1] == p);
                    } else {
                        assert(out@[out@.len() - 1] == p);
                    }
                }
            }
            if pushed {
                assert forall|a: int, b: int| 0 <= a < b < out@.len() implies cell_lt(
                    out@[a],
                    out@[b],
                ) by {
                    if b == out@.len() - 1 && prev.len() > 0 {
                        if a < prev.len() - 1 {
                            assert(cell_lt(prev[a], prev[prev.len() - 1]));
                        }
                        assert(!cell_lt(p, prev[prev.len() - 1]));
                    }
                }
            }
        }
        k = k + 1;
    }
    proof {
        assert forall|x: int, y: int| cells_contain(v@, x, y) implies cells_contain(
            out@,
            x,
            y,
        ) by {
            assert(cells_contain(v@.take(v@.len() as int), x, y)) by {
                assert(v@.take(v@.len() as int) =~= v@);
            }
            assert(cells_contain(sorted@, x, y));
            let w = choose|t: int|
                0 <= t < sorted@.len() && sorted@[t].0 == x && sorted@[t].1 == y;
            assert(cells_contain(out@, sorted@[w].0 as int, sorted@[w].1 as int));
        }
        assert forall|x: int, y: int| cells_contain(out@, x, y) implies cells_contain(
            v@,
            x,
            y,
        ) by {
            assert(cells_contain(sorted@, x, y));
        }
    }
    out
}

/// Executable lexicographic comparison of cells.
fn cell_lt_exec(a: (i32, i32), b: (i32, i32)) -> (r: bool)
    ensures
        r == cell_lt(a, b),
{
    a.0 < b.0 || (a.0 == b.0 && a.1 < b.1)
}

/// Cells of a clockwise x-sorted triangle: the first wedge plus the
/// x-mirrored second wedge, unsorted and possibly with duplicates.
fn cw_cells(p: Vec2Fx, q: Vec2Fx, r: Vec2Fx, scale: i64) -> (out: Vec<(i32, i32)>)
    requires
        v2_wf(p),
        v2_wf(q),
        v2_wf(r),
        p.x.bits <= q.x.bits,
        q.x.bits <= r.x.bits,
        scale_ok_for_cells(scale as int),
    ensures
        forall|t: int|
            0 <= t < out@.len() ==> cw_covers(
                p,
                q,
                r,
                scale as int,
                (#[trigger] out@[t]).0 as int,
                out@[t].1 as int,
            ),
        forall|x: int, y: int| cw_covers(p, q, r, scale as int, x, y) ==> cells_contain(out@, x, y),
        forall|t: int|
            0 <= t < out@.len() ==> -0x200_0001 <= (#[trigger] out@[t]).0 <= 0x200_0000
                && -0x200_0001 <= out@[t].1 <= 0x200_0000,
{
    let mut out = wedge_cells(p, q, r, scale);
    let mr = Vec2Fx { x: Fx { bits: -r.x.bits }, y: r.y };
    let mq = Vec2Fx { x: Fx { bits: -q.x.bits }, y: q.y };
    let mp = Vec2Fx { x: Fx { bits: -p.x.bits }, y: p.y };
    proof {
        assert(mr == neg_x(r) && mq == neg_x(q) && mp == neg_x(p));
    }
    let w2 = wedge_cells(mr, mq, mp, scale);
    let mut j: usize = 0;
    while j < w2.len()
        invariant
            0 <= j <= w2@.len(),
            v2_wf(p),
            v2_wf(q),
            v2_wf(r),
            scale_ok_for_cells(scale as int),
            forall|t: int|
                0 <= t < w2@.len() ==> wedge_covers(
                    neg_x(r),
                    neg_x(q),
                    neg_x(p),
                    scale as int,
                    (#[trigger] w2@[t]).0 as int,
                    w2@[t].1 as int,
                ),
            forall|x: int, y: int|
                wedge_covers(neg_x(r), neg_x(q), neg_x(p), scale as int, x, y) ==> cells_contain(
                    w2@,
                    x,
                    y,
                ),
            forall|t: int|
                0 <= t < w2@.len() ==> -0x200_0001 <= (#[trigger] w2@[t]).0 <= 0x200_0000
                    && -0x200_0001 <= w2@[t].1 <= 0x200_0000,
            forall|t: int|
                0 <= t < out@.len() ==> cw_covers(
                    p,
                    q,
                    r,
                    scale as int,
                    (#[trigger] out@[t]).0 as int,
                    out@[t].1 as int,
                ),
            forall|x: int, y: int|
                wedge_covers(p, q, r, scale as int, x, y) ==> cells_contain(out@, x, y),
            forall|t: int|
                0 <= t < j ==> cells_contain(out@, -((#[trigger] w2@[t]).0 as int) - 1, w2@[t].1 as int),
            forall|t: int|
                0 <= t < out@.len() ==> -0x200_0001 <= (#[trigger] out@[t]).0 <= 0x200_0000
                    && -0x200_0001 <= out@[t].1 <= 0x200_0000,
        decreases w2@.len() - j,
    {
        let cell = w2[j];
        let mcell: (i32, i32) = (-(cell.0 + 1), cell.1);
        let ghost prev = out@;
        out.push(mcell);
        proof {
            assert forall|x: int, y: int|
                wedge_covers(p, q, r, scale as int, x, y) implies cells_contain(out@, x, y) by {
                lemma_contain_push(prev, mcell, x, y);
            }
            assert forall|t: int| 0 <= t < j + 1 implies cells_contain(
                out@,
                -((#[trigger] w2@[t]).0 as int) - 1,
                w2@[t].1 as int,
            ) by {
                if t < j {
                    lemma_contain_push(prev, mcell, -(w2@[t].0 as int) - 1, w2@[t].1 as int);
                } else {
                    assert(out@[out@.len() - 1] == mcell);
                }
            }
            assert(cw_covers(
                p,
                q,
                r,
                scale as int,
                -(cell.0 as int) - 1,
                cell.1 as int,
            )) by {
                assert(-((-(cell.0 as int) - 1) + 1) == cell.0 as int);
            }
        }
        j = j + 1;
    }
    proof {
        assert forall|x: int, y: int|
            cw_covers(p, q, r, scale as int, x, y) implies cells_contain(out@, x, y) by {
            if !wedge_covers(p, q, r, scale as int, x, y) {
                assert(wedge_covers(neg_x(r), neg_x(q), neg_x(p), scale as int, -(x + 1), y));
                assert(cells_contain(w2@, -(x + 1), y));
                let w = choose|t: int|
                    0 <= t < w2@.len() && w2@[t].0 == -(x + 1) && w2@[t].1 == y;
                assert(cells_contain(out@, -(w2@[w].0 as int) - 1, w2@[w].1 as int));
                assert(-(w2@[w].0 as int) - 1 == x);
            }
        }
    }
    out
}

/// Every grid cell touched by the triangle `(a, b, c)`, in increasing
/// order without duplicates, for cells `scale` raw bits wide.
pub(crate) fn triangle_cells(a: Vec2Fx, b: Vec2Fx, c: Vec2Fx, scale: i64) -> (out: Vec<(i32, i32)>)
    requires
        v2_wf(a),
        v2_wf(b),
        v2_wf(c),
        scale_ok_for_cells(scale as int),
    ensures
        cells_sorted(out@),
        forall|t: int|
            0 <= t < out@.len() ==> tri_covers(
                a,
                b,
                c,
                scale as int,
                (#[trigger] out@[t]).0 as int,
                out@[t].1 as int,
            ),
        forall|x: int, y: int|
            tri_covers(a, b, c, scale as int, x, y) ==> cells_contain(out@, x, y),
{
    let (p0, q0) = if b.x.bits < a.x.bits {
        (b, a)
    } else {
        (a, b)
    };
    let (p, q, r) = if c.x.bits < p0.x.bits {
        (c, p0, q0)
    } else if c.x.bits < q0.x.bits {
        (p0, c, q0)
    } else {
        (p0, q0, c)
    };
    proof {
        assert((p, q, r) == spec_sort3(a, b, c));
    }
    let ax1: i128 = (r.x.bits as i128) - (p.x.bits as i128);
    let ay1: i128 = (q.y.bits as i128) - (p.y.bits as i128);
    let ax2: i128 = (r.y.bits as i128) - (p.y.bits as i128);
    let ay2: i128 = (q.x.bits as i128) - (p.x.bits as i128);
    proof {
        assert(ax1 * ay1 <= 0x800_0000_0000 * 0x800_0000_0000 && ax1 * ay1 >= -(0x800_0000_0000
            * 0x800_0000_0000)) by (nonlinear_arith)
            requires
                -0x800_0000_0000 <= ax1 <= 0x800_0000_0000,
                -0x800_0000_0000 <= ay1 <= 0x800_0000_0000,
        ;
        assert(ax2 * ay2 <= 0x800_0000_0000 * 0x800_0000_0000 && ax2 * ay2 >= -(0x800_0000_0000
            * 0x800_0000_0000)) by (nonlinear_arith)
            requires
                -0x800_0000_0000 <= ax2 <= 0x800_0000_0000,
                -0x800_0000_0000 <= ay2 <= 0x800_0000_0000,
        ;
    }
    let det_a: i128 = ax1 * ay1;
    let det_b: i128 = ax2 * ay2;
    let det: i128 = det_a - det_b;
    if det >= 0 {
        let cells = cw_cells(p, q, r, scale);
        let out = sort_dedup_cells(cells);
        proof {
            assert forall|t: int| 0 <= t < out@.len() implies tri_covers(
                a,
                b,
                c,
                scale as int,
                (#[trigger] out@[t]).0 as int,
                out@[t].1 as int,
            ) by {
                let x = out@[t].0 as int;
                let y = out@[t].1 as int;
                assert(cells_contain(out@, x, y)) by {
                    assert(out@[t].0 == x && out@[t].1 == y);
                }
                assert(cells_contain(cells@, x, y));
                let w = choose|k: int|
                    0 <= k < cells@.len() && cells@[k].0 == x && cells@[k].1 == y;
                assert(cw_covers(
                    p,
                    q,
                    r,
                    scale as int,
                    cells@[w].0 as int,
                    cells@[w].1 as int,
                ));
            }
        }
        out
    } else {
        let np = Vec2Fx { x: p.x, y: Fx { bits: -p.y.bits } };
        let nq = Vec2Fx { x: q.x, y: Fx { bits: -q.y.bits } };
        let nr = Vec2Fx { x: r.x, y: Fx { bits: -r.y.bits } };
        proof {
            assert(np == neg_y(p) && nq == neg_y(q) && nr == neg_y(r));
        }
        let cells = cw_cells(np, nq, nr, scale);
        let mut flipped: Vec<(i32, i32)> = Vec::new();
        let mut j: usize = 0;
        while j < cells.len()
            invariant
                0 <= j <= cells@.len(),
                flipped@.len() == j,
                v2_wf(p),
                v2_wf(q),
                v2_wf(r),
                scale_ok_for_cells(scale as int),
                forall|t: int|
                    0 <= t < cells@.len() ==> cw_covers(
                        neg_y(p),
                        neg_y(q),
                        neg_y(r),
                        scale as int,
                        (#[trigger] cells@[t]).0 as int,
                        cells@[t].1 as int,
                    ),
                forall|x: int, y: int|
                    cw_covers(neg_y(p), neg_y(q), neg_y(r), scale as int, x, y) ==> cells_contain(
                        cells@,
                        x,
                        y,
                    ),
                forall|t: int|
                    0 <= t < cells@.len() ==> -0x200_0001 <= (#[trigger] cells@[t]).0 <= 0x200_0000
                        && -0x200_0001 <= cells@[t].1 <= 0x200_0000,
                forall|t: int|
                    0 <= t < j ==> #[trigger] flipped@[t] == ((cells@[t].0, (-(cells@[t].1 as int)
                        - 1) as i32)),
            decreases cells@.len() - j,
        {
            let cell = cells[j];
            flipped.push((cell.0, -(cell.1 + 1)));
            j = j + 1;
        }
        let out = sort_dedup_cells(flipped);
        proof {
            assert forall|t: int| 0 <= t < out@.len() implies tri_covers(
                a,
                b,
                c,
                scale as int,
                (#[trigger] out@[t]).0 as int,
                out@[t].1 as int,
            ) by {
                let x = out@[t].0 as int;
                let y = out@[t].1 as int;
                assert(cells_contain(out@, x, y)) by {
                    assert(out@[t].0 == x && out@[t].1 == y);
                }
                assert(cells_contain(flipped@, x, y));
                let w = choose|k: int|
                    0 <= k < flipped@.len() && flipped@[k].0 == x && flipped@[k].1 == y;
                assert(flipped@[w] == (cells@[w].0, (-(cells@[w].1 as int) - 1) as i32));
                assert(cw_covers(
                    neg_y(p),
                    neg_y(q),
                    neg_y(r),
                    scale as int,
                    cells@[w].0 as int,
                    cells@[w].1 as int,
                ));
                assert(cells@[w].1 as int == -(y + 1));
            }
            assert forall|x: int, y: int|
                tri_covers(a, b, c, scale as int, x, y) implies cells_contain(out@, x, y) by {
                assert(cw_covers(neg_y(p), neg_y(q), neg_y(r), scale as int, x, -(y + 1)));
                assert(cells_contain(cells@, x, -(y + 1)));
                let w = choose|k: int|
                    0 <= k < cells@.len() && cells@[k].0 == x && cells@[k].1 == -(y + 1);
                assert(flipped@[w] == ((cells@[w].0, (-(cells@[w].1 as int) - 1) as i32)));
                assert(flipped@[w].1 as int == y);
                assert(cells_contain(flipped@, x, y)) by {
                    assert(flipped@[w].0 == x && flipped@[w].1 == y);
                }
            }
        }
        out
    }
}

/// Every unit-grid cell the triangle `(a, b, c)` touches, in increasing
/// order without duplicates.
pub fn conservative_triangle(a: Vec2Fx, b: Vec2Fx, c: Vec2Fx) -> (out: Vec<(i32, i32)>)
    requires
        v2_wf(a),
        v2_wf(b),
        v2_wf(c),
    ensures
        cells_sorted(out@),
        forall|t: int|
            0 <= t < out@.len() ==> tri_covers(
                a,
                b,
                c,
                65536,
                (#[trigger] out@[t]).0 as int,
                out@[t].1 as int,
            ),
        forall|x: int, y: int| tri_covers(a, b, c, 65536, x, y) ==> cells_contain(out@, x, y),
{
    triangle_cells(a, b, c, 65536)
}

} // verus!
