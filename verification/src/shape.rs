//! Procedural brush shapes: a square table of fixed-point coverage values.

use vstd::prelude::*;

use crate::fixed::{trunc_div, Fx};

verus! {

/// A square brush shape: `width * height` coverage samples, row-major.
pub struct Shape {
    pub width: u32,
    pub height: u32,
    pub values: Vec<Fx>,
}

/// The `i`-th of `size` samples spread uniformly over `[0, 1]`.
pub open spec fn uniform_sample_bits(i: int, size: int) -> int
    recommends
        size >= 2,
{
    trunc_div(i * 65536, size - 1)
}

/// The `i`-th of `size` samples spread uniformly over `[-1, 1]`.
pub open spec fn centered_sample_bits(i: int, size: int) -> int
    recommends
        size >= 2,
{
    2 * uniform_sample_bits(i, size) - 65536
}

/// The test shape's coverage at `(x, y)`: a radial falloff, clamped at
/// zero outside the unit disc.
pub open spec fn shape_value_bits(xb: int, yb: int) -> int {
    let sq = trunc_div(xb * xb + yb * yb, 65536);
    if 65536 - sq >= 0 {
        65536 - sq
    } else {
        0
    }
}

/// `size` samples spread uniformly over `[0, 1]`.
pub fn uniform_samples(size: u32) -> (r: Vec<Fx>)
    requires
        2 <= size <= 4096,
    ensures
        r@.len() == size,
        forall|i: int| 0 <= i < size ==> (#[trigger] r@[i]).bits == uniform_sample_bits(i, size as int),
        forall|i: int| 0 <= i < size ==> 0 <= (#[trigger] r@[i]).bits <= 65536,
{
    let mut r: Vec<Fx> = Vec::new();
    let mut i: u32 = 0;
    while i < size
        invariant
            0 <= i <= size,
            2 <= size <= 4096,
            r@.len() == i,
            forall|t: int|
                0 <= t < i ==> (#[trigger] r@[t]).bits == uniform_sample_bits(t, size as int),
            forall|t: int| 0 <= t < i ==> 0 <= (#[trigger] r@[t]).bits <= 65536,
        decreases size - i,
    {
        let n: i64 = (i as i64) * 65536;
        let d: i64 = (size as i64) - 1;
        let q: i128 = crate::fixed::trunc_div_i128(n as i128, d as i128);
        proof {
            crate::fixed::lemma_trunc_div_bound(n as int, d as int, 65536);
            assert((i as int) * 65536 <= 65536 * ((size as int) - 1)) by (nonlinear_arith)
                requires
                    i as int <= (size as int) - 1,
            ;
            vstd::arithmetic::div_mod::lemma_div_pos_is_pos(n as int, d as int);
        }
        r.push(Fx { bits: q as i64 });
        i = i + 1;
    }
    r
}

/// `size` samples spread uniformly over `[-1, 1]`.
pub fn centered_uniform_samples(size: u32) -> (r: Vec<Fx>)
    requires
        2 <= size <= 4096,
    ensures
        r@.len() == size,
        forall|i: int|
            0 <= i < size ==> (#[trigger] r@[i]).bits == centered_sample_bits(i, size as int),
        forall|i: int| 0 <= i < size ==> -65536 <= (#[trigger] r@[i]).bits <= 65536,
{
    let u = uniform_samples(size);
    let mut r: Vec<Fx> = Vec::new();
    let mut i: usize = 0;
    while i < u.len()
        invariant
            0 <= i <= u@.len(),
            u@.len() == size,
            2 <= size <= 4096,
            r@.len() == i,
            forall|t: int|
                0 <= t < u@.len() ==> (#[trigger] u@[t]).bits == uniform_sample_bits(
                    t,
                    size as int,
                ),
            forall|t: int| 0 <= t < u@.len() ==> 0 <= (#[trigger] u@[t]).bits <= 65536,
            forall|t: int|
                0 <= t < i ==> (#[trigger] r@[t]).bits == centered_sample_bits(t, size as int),
            forall|t: int| 0 <= t < i ==> -65536 <= (#[trigger] r@[t]).bits <= 65536,
        decreases u@.len() - i,
    {
        r.push(Fx { bits: 2 * u[i].bits - 65536 });
        i = i + 1;
    }
    r
}

/// One row of the radially falling-off test shape.
pub fn generate_test_shape_row(y: Fx, width: u32) -> (r: Vec<Fx>)
    requires
        -65536 <= y.bits <= 65536,
        2 <= width <= 4096,
    ensures
        r@.len() == width,
        forall|i: int|
            0 <= i < width ==> (#[trigger] r@[i]).bits == shape_value_bits(
                centered_sample_bits(i, width as int),
                y.bits as int,
            ),
{
    let xs = centered_uniform_samples(width);
    let mut r: Vec<Fx> = Vec::new();
    let mut i: usize = 0;
    while i < xs.len()
        invariant
            0 <= i <= xs@.len(),
            xs@.len() == width,
            2 <= width <= 4096,
            -65536 <= y.bits <= 65536,
            r@.len() == i,
            forall|t: int|
                0 <= t < xs@.len() ==> (#[trigger] xs@[t]).bits == centered_sample_bits(
                    t,
                    width as int,
                ),
            forall|t: int| 0 <= t < xs@.len() ==> -65536 <= (#[trigger] xs@[t]).bits <= 65536,
            forall|t: int|
                0 <= t < i ==> (#[trigger] r@[t]).bits == shape_value_bits(
                    centered_sample_bits(t, width as int),
                    y.bits as int,
                ),
        decreases xs@.len() - i,
    {
        let xb: i64 = xs[i].bits;
        proof {
            assert(0 <= xb * xb <= 65536 * 65536 && 0 <= (y.bits as int) * (y.bits as int) <= 65536
                * 65536) by (nonlinear_arith)
                requires
                    -65536 <= xb <= 65536,
                    -65536 <= y.bits <= 65536,
            ;
        }
        let sq_n: i64 = xb * xb + y.bits * y.bits;
        let sq: i128 = crate::fixed::trunc_div_i128(sq_n as i128, 65536);
        proof {
            crate::fixed::lemma_trunc_div_bound(sq_n as int, 65536, 0x2_0000);
            vstd::arithmetic::div_mod::lemma_div_pos_is_pos(sq_n as int, 65536);
        }
        let v: i64 = 65536 - (sq as i64);
        let val: i64 = if v >= 0 {
            v
        } else {
            0
        };
        r.push(Fx { bits: val });
        i = i + 1;
    }
    r
}

/// A procedurally generated radial test shape of the given side length.
pub fn generate_test_shape(size: u32) -> (r: Shape)
    requires
        2 <= size <= 1024,
    ensures
        r.width == size,
        r.height == size,
        r.values@.len() == (size as int) * (size as int),
        forall|row: int, col: int|
            0 <= row < size && 0 <= col < size ==> (#[trigger] r.values@[row * (size as int)
                + col]).bits == shape_value_bits(
                centered_sample_bits(col, size as int),
                centered_sample_bits(row, size as int),
            ),
{
    let ys = centered_uniform_samples(size);
    let mut values: Vec<Fx> = Vec::new();
    let mut row: usize = 0;
    while row < ys.len()
        invariant
            0 <= row <= ys@.len(),
            ys@.len() == size,
            2 <= size <= 1024,
            values@.len() == row * (size as int),
            forall|t: int|
                0 <= t < ys@.len() ==> (#[trigger] ys@[t]).bits == centered_sample_bits(
                    t,
                    size as int,
                ),
            forall|t: int| 0 <= t < ys@.len() ==> -65536 <= (#[trigger] ys@[t]).bits <= 65536,
            forall|r2: int, c2: int|
                0 <= r2 < row && 0 <= c2 < size ==> (#[trigger] values@[r2 * (size as int)
                    + c2]).bits == shape_value_bits(
                    centered_sample_bits(c2, size as int),
                    centered_sample_bits(r2, size as int),
                ),
        decreases ys@.len() - row,
    {
        let rvals = generate_test_shape_row(ys[row], size);
        let ghost before = values@;
        let mut c: usize = 0;
        while c < rvals.len()
            invariant
                0 <= c <= rvals@.len(),
                rvals@.len() == size,
                0 <= row < ys@.len(),
                ys@.len() == size,
                2 <= size <= 1024,
                values@.len() == row * (size as int) + c,
                values@ == before + rvals@.take(c as int),
                before.len() == row * (size as int),
            decreases rvals@.len() - c,
        {
            values.push(rvals[c]);
            proof {
                assert(values@ =~= before + rvals@.take(c + 1));
            }
            c = c + 1;
        }
        proof {
            assert(rvals@.take(size as int) =~= rvals@);
            assert((row + 1) * (size as int) == row * (size as int) + size) by (nonlinear_arith);
            assert forall|r2: int, c2: int|
                0 <= r2 < row + 1 && 0 <= c2 < size implies (#[trigger] values@[r2 * (size as int)
                + c2]).bits == shape_value_bits(
                centered_sample_bits(c2, size as int),
                centered_sample_bits(r2, size as int),
            ) by {
                if r2 < row {
                    assert(0 <= r2 * (size as int) + c2 < row * (size as int)) by (nonlinear_arith)
                        requires
                            0 <= r2 < row,
                            0 <= c2 < size as int,
                    ;
                    assert(values@[r2 * (size as int) + c2] == before[r2 * (size as int) + c2]);
                } else {
                    assert(values@[r2 * (size as int) + c2] == rvals@[c2]) by {
                        assert(r2 * (size as int) + c2 == before.len() + c2);
                    }
                }
            }
        }
        row = row + 1;
    }
    proof {
        assert(values@.len() == (size as int) * (size as int)) by (nonlinear_arith)
            requires
                values@.len() == (size as int) * (size as int),
        ;
    }
    Shape { width: size, height: size, values }
}

} // verus!
