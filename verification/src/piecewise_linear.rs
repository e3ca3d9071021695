//! Piecewise-linear functions of one fixed-point variable.
//!
//! A function is a non-empty list of breakpoints with strictly increasing
//! abscissas. Between adjacent breakpoints the value is the linear
//! interpolation of the pair; outside the breakpoint range it is clamped to
//! the nearest endpoint's value.

use vstd::prelude::*;

use crate::fixed::{fx_wf, trunc_div, Fx, FX_MAX};

verus! {

/// One sample `(x, y)` of a piecewise-linear function.
#[derive(Clone, Copy, PartialEq, Eq, Structural, Debug)]
pub struct Breakpoint {
    pub x: Fx,
    pub y: Fx,
}

/// Both coordinates of the breakpoint are well-formed scalars.
pub open spec fn bp_wf(p: Breakpoint) -> bool {
    fx_wf(p.x) && fx_wf(p.y)
}

/// Abscissas are strictly increasing.
pub open spec fn strictly_sorted(s: Seq<Breakpoint>) -> bool {
    forall|i: int, j: int| 0 <= i < j < s.len() ==> s[i].x.bits < s[j].x.bits
}

/// Some breakpoint of `s` has abscissa `xb`.
pub open spec fn has_x(s: Seq<Breakpoint>, xb: int) -> bool {
    exists|i: int| 0 <= i < s.len() && s[i].x.bits == xb
}

/// Linear interpolation between `(x0, y0)` and `(x1, y1)` at `x`, with `x`
/// clamped into `[x0, x1]`; the division is truncated toward zero.
pub open spec fn interp_bits(x0: int, y0: int, x1: int, y1: int, x: int) -> int
    recommends
        x0 < x1,
{
    let xc = if x < x0 {
        x0
    } else if x > x1 {
        x1
    } else {
        x
    };
    y0 + trunc_div((xc - x0) * (y1 - y0), x1 - x0)
}

/// Value of the piecewise-linear function with breakpoints `s` at `x`.
pub open spec fn spec_eval(s: Seq<Breakpoint>, x: int) -> int
    recommends
        s.len() >= 1,
        strictly_sorted(s),
    decreases s.len(),
{
    if s.len() <= 1 {
        s[0].y.bits as int
    } else if x < s[1].x.bits {
        interp_bits(s[0].x.bits as int, s[0].y.bits as int, s[1].x.bits as int, s[1].y.bits as int, x)
    } else {
        spec_eval(s.drop_first(), x)
    }
}

/// A piecewise-linear function: a non-empty, strictly sorted breakpoint list.
pub struct PiecewiseLinear {
    points: Vec<Breakpoint>,
}

impl View for PiecewiseLinear {
    type V = Seq<Breakpoint>;

    closed spec fn view(&self) -> Seq<Breakpoint> {
        self.points@
    }
}

/// Well-formed function: non-empty, strictly sorted, bounded coordinates.
pub open spec fn pl_wf(f: PiecewiseLinear) -> bool {
    &&& f@.len() >= 1
    &&& strictly_sorted(f@)
    &&& forall|i: int| 0 <= i < f@.len() ==> bp_wf(#[trigger] f@[i])
}

/// What construction from a sample list guarantees: a well-formed function
/// no longer than the input, whose breakpoints all come from the input and
/// whose abscissas are exactly the input's abscissas.
pub open spec fn pl_new_rel(input: Seq<Breakpoint>, f: PiecewiseLinear) -> bool {
    &&& pl_wf(f)
    &&& f@.len() <= input.len()
    &&& forall|k: int| 0 <= k < f@.len() ==> input.contains(#[trigger] f@[k])
    &&& forall|j: int| 0 <= j < input.len() ==> has_x(f@, (#[trigger] input[j]).x.bits as int)
}

/// Interpolation stays between the two ordinate values.
pub proof fn lemma_interp_in_range(x0: int, y0: int, x1: int, y1: int, x: int)
    requires
        x0 < x1,
    ensures
        y0 <= y1 ==> y0 <= interp_bits(x0, y0, x1, y1, x) <= y1,
        y1 <= y0 ==> y1 <= interp_bits(x0, y0, x1, y1, x) <= y0,
{
    let xc = if x < x0 {
        x0
    } else if x > x1 {
        x1
    } else {
        x
    };
    let dx = x1 - x0;
    let dy = y1 - y0;
    let off = xc - x0;
    assert(0 <= off <= dx);
    if dy >= 0 {
        assert(off * dy <= dx * dy) by (nonlinear_arith)
            requires
                0 <= off <= dx,
                dy >= 0,
        ;
        assert(off * dy >= 0) by (nonlinear_arith)
            requires
                off >= 0,
                dy >= 0,
        ;
        crate::fixed::lemma_trunc_div_bound(off * dy, dx, dy);
        vstd::arithmetic::div_mod::lemma_div_pos_is_pos(off * dy, dx);
    } else {
        assert(off * (-dy) <= dx * (-dy)) by (nonlinear_arith)
            requires
                0 <= off <= dx,
                dy < 0,
        ;
        assert(off * (-dy) >= 0) by (nonlinear_arith)
            requires
                off >= 0,
                dy < 0,
        ;
        assert(off * dy == -(off * (-dy))) by (nonlinear_arith);
        assert(dx * dy == -(dx * (-dy))) by (nonlinear_arith);
        crate::fixed::lemma_trunc_div_bound(off * dy, dx, -dy);
    }
}

/// Evaluation stays between any bounds that hold of every ordinate.
pub proof fn lemma_eval_in_range(s: Seq<Breakpoint>, x: int, lo: int, hi: int)
    requires
        s.len() >= 1,
        strictly_sorted(s),
        forall|i: int| 0 <= i < s.len() ==> lo <= (#[trigger] s[i]).y.bits <= hi,
    ensures
        lo <= spec_eval(s, x) <= hi,
    decreases s.len(),
{
    if s.len() <= 1 {
    } else if x < s[1].x.bits {
        lemma_interp_in_range(
            s[0].x.bits as int,
            s[0].y.bits as int,
            s[1].x.bits as int,
            s[1].y.bits as int,
            x,
        );
    } else {
        let t = s.drop_first();
        assert(forall|i: int| 0 <= i < t.len() ==> lo <= (#[trigger] t[i]).y.bits <= hi);
        lemma_eval_in_range(t, x, lo, hi);
    }
}

/// On the segment that encloses `x`, evaluation is interpolation of that
/// segment's endpoints (or the final ordinate past the last breakpoint).
pub proof fn lemma_eval_segment(s: Seq<Breakpoint>, x: int, i: int)
    requires
        strictly_sorted(s),
        0 <= i < s.len(),
        s[i].x.bits <= x,
        i + 1 < s.len() ==> x < s[i + 1].x.bits,
    ensures
        i + 1 == s.len() ==> spec_eval(s, x) == s[i].y.bits,
        i + 1 < s.len() ==> spec_eval(s, x) == interp_bits(
            s[i].x.bits as int,
            s[i].y.bits as int,
            s[i + 1].x.bits as int,
            s[i + 1].y.bits as int,
            x,
        ),
    decreases s.len(),
{
    if i == 0 {
        if s.len() == 1 {
        } else if i + 1 == s.len() {
        } else {
            assert(x < s[1].x.bits);
        }
    } else {
        assert(s[1].x.bits <= s[i].x.bits);
        assert(x >= s[1].x.bits);
        let t = s.drop_first();
        lemma_eval_segment(t, x, i - 1);
    }
}

/// Left of the first breakpoint the function is the first ordinate.
pub proof fn lemma_eval_left(s: Seq<Breakpoint>, x: int)
    requires
        s.len() >= 1,
        strictly_sorted(s),
        x <= s[0].x.bits,
    ensures
        spec_eval(s, x) == s[0].y.bits,
{
    if s.len() > 1 {
        assert(x < s[1].x.bits);
        let x0 = s[0].x.bits as int;
        let dx = s[1].x.bits - x0;
        let xc = if x < x0 {
            x0
        } else {
            x
        };
        assert(xc == x0);
        assert((xc - x0) * (s[1].y.bits - s[0].y.bits) == 0) by (nonlinear_arith)
            requires
                xc == x0,
        ;
        crate::fixed::lemma_trunc_div_bound(0, dx, 0);
    }
}

/// At a breakpoint the function takes that breakpoint's ordinate.
pub proof fn lemma_eval_at_breakpoint(s: Seq<Breakpoint>, i: int)
    requires
        strictly_sorted(s),
        0 <= i < s.len(),
    ensures
        spec_eval(s, s[i].x.bits as int) == s[i].y.bits,
{
    let x = s[i].x.bits as int;
    lemma_eval_segment(s, x, i);
    if i + 1 < s.len() {
        let x0 = s[i].x.bits as int;
        let dx = s[i + 1].x.bits - x0;
        assert((x - x0) * (s[i + 1].y.bits - s[i].y.bits) == 0) by (nonlinear_arith)
            requires
                x == x0,
        ;
        crate::fixed::lemma_trunc_div_bound(0, dx, 0);
    }
}

/// Some element of `s` has bit pattern `xb`.
pub open spec fn contains_bits(s: Seq<Fx>, xb: int) -> bool {
    exists|i: int| 0 <= i < s.len() && s[i].bits == xb
}

/// Abscissas of `s`, in order.
pub open spec fn xs_of(s: Seq<Breakpoint>) -> Seq<Fx> {
    s.map_values(|p: Breakpoint| p.x)
}

/// Strictly increasing sequence of scalars.
pub open spec fn xs_sorted(s: Seq<Fx>) -> bool {
    forall|i: int, j: int| 0 <= i < j < s.len() ==> s[i].bits < s[j].bits
}

/// Smallest ordinate of a breakpoint sequence.
pub open spec fn ys_lo(s: Seq<Breakpoint>) -> int
    recommends
        s.len() >= 1,
    decreases s.len(),
{
    if s.len() <= 1 {
        s[0].y.bits as int
    } else if s[0].y.bits <= ys_lo(s.drop_first()) {
        s[0].y.bits as int
    } else {
        ys_lo(s.drop_first())
    }
}

/// Largest ordinate of a breakpoint sequence.
pub open spec fn ys_hi(s: Seq<Breakpoint>) -> int
    recommends
        s.len() >= 1,
    decreases s.len(),
{
    if s.len() <= 1 {
        s[0].y.bits as int
    } else if s[0].y.bits >= ys_hi(s.drop_first()) {
        s[0].y.bits as int
    } else {
        ys_hi(s.drop_first())
    }
}

/// The ordinate extrema bound every ordinate and are attained.
proof fn lemma_ys_bounds(s: Seq<Breakpoint>)
    requires
        s.len() >= 1,
    ensures
        forall|i: int| 0 <= i < s.len() ==> ys_lo(s) <= (#[trigger] s[i]).y.bits <= ys_hi(s),
        exists|i: int| 0 <= i < s.len() && s[i].y.bits == ys_lo(s),
        exists|i: int| 0 <= i < s.len() && s[i].y.bits == ys_hi(s),
    decreases s.len(),
{
    if s.len() > 1 {
        let t = s.drop_first();
        lemma_ys_bounds(t);
        let wl = choose|i: int| 0 <= i < t.len() && t[i].y.bits == ys_lo(t);
        assert(s[wl + 1].y.bits == ys_lo(t));
        let wh = choose|i: int| 0 <= i < t.len() && t[i].y.bits == ys_hi(t);
        assert(s[wh + 1].y.bits == ys_hi(t));
        assert(forall|i: int| 1 <= i < s.len() ==> (#[trigger] s[i]).y.bits == t[i - 1].y.bits);
    }
}

/// A scaling that is bounded on every ordinate is bounded on every value of
/// the function.
proof fn lemma_scaled_eval_bound(s: Seq<Breakpoint>, c: int, x: int, m: int)
    requires
        s.len() >= 1,
        strictly_sorted(s),
        m >= 0,
        forall|i: int| 0 <= i < s.len() ==> -m <= c * (#[trigger] s[i]).y.bits <= m,
    ensures
        -m <= c * spec_eval(s, x) <= m,
{
    let lo = ys_lo(s);
    let hi = ys_hi(s);
    lemma_ys_bounds(s);
    lemma_eval_in_range(s, x, lo, hi);
    let v = spec_eval(s, x);
    let wl = choose|i: int| 0 <= i < s.len() && s[i].y.bits == lo;
    let wh = choose|i: int| 0 <= i < s.len() && s[i].y.bits == hi;
    assert(-m <= c * lo <= m);
    assert(-m <= c * hi <= m);
    if c >= 0 {
        assert(c * lo <= c * v <= c * hi) by (nonlinear_arith)
            requires
                c >= 0,
                lo <= v <= hi,
        ;
    } else {
        assert(c * hi <= c * v <= c * lo) by (nonlinear_arith)
            requires
                c < 0,
                lo <= v <= hi,
        ;
    }
}

/// Merge two strictly sorted scalar sequences into the strictly sorted
/// sequence of their union.
fn merge_sorted_xs(p: &Vec<Fx>, q: &Vec<Fx>) -> (r: Vec<Fx>)
    requires
        xs_sorted(p@),
        xs_sorted(q@),
        forall|i: int| 0 <= i < p@.len() ==> fx_wf(#[trigger] p@[i]),
        forall|i: int| 0 <= i < q@.len() ==> fx_wf(#[trigger] q@[i]),
    ensures
        xs_sorted(r@),
        forall|k: int| 0 <= k < r@.len() ==> fx_wf(#[trigger] r@[k]),
        forall|k: int|
            0 <= k < r@.len() ==> contains_bits(p@, (#[trigger] r@[k]).bits as int) || contains_bits(
                q@,
                r@[k].bits as int,
            ),
        forall|i: int| 0 <= i < p@.len() ==> contains_bits(r@, (#[trigger] p@[i]).bits as int),
        forall|j: int| 0 <= j < q@.len() ==> contains_bits(r@, (#[trigger] q@[j]).bits as int),
        r@.len() <= p@.len() + q@.len(),
        p@.len() >= 1 || q@.len() >= 1 ==> r@.len() >= 1,
{
    let np = p.len();
    let nq = q.len();
    let mut i: usize = 0;
    let mut j: usize = 0;
    let mut out: Vec<Fx> = Vec::new();
    while i < np || j < nq
        invariant
            0 <= i <= np,
            0 <= j <= nq,
            np == p@.len(),
            nq == q@.len(),
            xs_sorted(p@),
            xs_sorted(q@),
            forall|k: int| 0 <= k < p@.len() ==> fx_wf(#[trigger] p@[k]),
            forall|k: int| 0 <= k < q@.len() ==> fx_wf(#[trigger] q@[k]),
            xs_sorted(out@),
            forall|k: int| 0 <= k < out@.len() ==> fx_wf(#[trigger] out@[k]),
            out@.len() > 0 && i < np ==> out@[out@.len() - 1].bits < p@[i as int].bits,
            out@.len() > 0 && j < nq ==> out@[out@.len() - 1].bits < q@[j as int].bits,
            forall|k: int|
                0 <= k < out@.len() ==> contains_bits(p@, (#[trigger] out@[k]).bits as int)
                    || contains_bits(q@, out@[k].bits as int),
            forall|a: int| 0 <= a < i ==> contains_bits(out@, (#[trigger] p@[a]).bits as int),
            forall|b: int| 0 <= b < j ==> contains_bits(out@, (#[trigger] q@[b]).bits as int),
            out@.len() <= i + j,
            i + j > 0 ==> out@.len() >= 1,
        decreases (np - i) + (nq - j),
    {
        let ghost prev = out@;
        let take_p: bool = if i < np {
            if j < nq {
                p[i].bits <= q[j].bits
            } else {
                true
            }
        } else {
            false
        };
        if take_p {
            let both: bool = j < nq && p[i].bits == q[j].bits;
            out.push(p[i]);
            proof {
                assert(contains_bits(out@, p@[i as int].bits as int)) by {
                    assert(out@[out@.len() - 1].bits == p@[i as int].bits);
                }
                if both {
                    assert(contains_bits(out@, q@[j as int].bits as int)) by {
                        assert(out@[out@.len() - 1].bits == q@[j as int].bits);
                    }
                }
                assert forall|a: int| 0 <= a < i implies contains_bits(
                    out@,
                    (#[trigger] p@[a]).bits as int,
                ) by {
                    let w = choose|w: int| 0 <= w < prev.len() && prev[w].bits == p@[a].bits;
                    assert(out@[w].bits == p@[a].bits);
                }
                assert forall|b: int| 0 <= b < j implies contains_bits(
                    out@,
                    (#[trigger] q@[b]).bits as int,
                ) by {
                    let w = choose|w: int| 0 <= w < prev.len() && prev[w].bits == q@[b].bits;
                    assert(out@[w].bits == q@[b].bits);
                }
            }
            i = i + 1;
            if both {
                j = j + 1;
            }
        } else {
            out.push(q[j]);
            proof {
                assert(contains_bits(out@, q@[j as int].bits as int)) by {
                    assert(out@[out@.len() - 1].bits == q@[j as int].bits);
                }
                assert forall|a: int| 0 <= a < i implies contains_bits(
                    out@,
                    (#[trigger] p@[a]).bits as int,
                ) by {
                    let w = choose|w: int| 0 <= w < prev.len() && prev[w].bits == p@[a].bits;
                    assert(out@[w].bits == p@[a].bits);
                }
                assert forall|b: int| 0 <= b < j implies contains_bits(
                    out@,
                    (#[trigger] q@[b]).bits as int,
                ) by {
                    let w = choose|w: int| 0 <= w < prev.len() && prev[w].bits == q@[b].bits;
                    assert(out@[w].bits == q@[b].bits);
                }
            }
            j = j + 1;
        }
    }
    out
}

/// Sort scalars and drop duplicates: the strictly sorted sequence of the
/// input's values, no longer than the input.
pub(crate) fn sort_dedup_fx(v: Vec<Fx>) -> (r: Vec<Fx>)
    ensures
        xs_sorted(r@),
        r@.len() <= v@.len(),
        v@.len() >= 1 ==> r@.len() >= 1,
        forall|k: int| 0 <= k < r@.len() ==> contains_bits(v@, (#[trigger] r@[k]).bits as int),
        forall|j: int| 0 <= j < v@.len() ==> contains_bits(r@, (#[trigger] v@[j]).bits as int),
{
    let mut sorted: Vec<Fx> = Vec::new();
    let mut i: usize = 0;
    while i < v.len()
        invariant
            0 <= i <= v@.len(),
            sorted@.len() == i,
            forall|a: int, b: int| 0 <= a < b < sorted@.len() ==> sorted@[a].bits <= sorted@[b].bits,
            forall|k: int|
                0 <= k < sorted@.len() ==> contains_bits(v@, (#[trigger] sorted@[k]).bits as int),
            forall|j: int| 0 <= j < i ==> contains_bits(sorted@, (#[trigger] v@[j]).bits as int),
        decreases v@.len() - i,
    {
        let p = v[i];
        let mut pos: usize = sorted.len();
        while pos > 0 && sorted[pos - 1].bits > p.bits
            invariant
                0 <= pos <= sorted@.len(),
                forall|t: int| pos <= t < sorted@.len() ==> (#[trigger] sorted@[t]).bits > p.bits,
            decreases pos,
        {
            pos = pos - 1;
        }
        let ghost before = sorted@;
        sorted.insert(pos, p);
        proof {
            before.insert_ensures(pos as int, p);
            assert(sorted@[pos as int] == p);
            assert forall|k: int| 0 <= k < sorted@.len() implies contains_bits(
                v@,
                (#[trigger] sorted@[k]).bits as int,
            ) by {
                if k < pos {
                    assert(sorted@[k] == before[k]);
                } else if k > pos {
                    assert(sorted@[k] == before[k - 1]);
                } else {
                    assert(v@[i as int] == p);
                }
            }
            assert forall|j: int| 0 <= j < i + 1 implies contains_bits(
                sorted@,
                (#[trigger] v@[j]).bits as int,
            ) by {
                if j < i {
                    let w = choose|w: int| 0 <= w < before.len() && before[w].bits == v@[j].bits;
                    if w < pos {
                        assert(sorted@[w] == before[w]);
                    } else {
                        assert(sorted@[w + 1] == before[w]);
                    }
                } else {
                    assert(sorted@[pos as int].bits == v@[j].bits);
                }
            }
        }
        i = i + 1;
    }
    let mut out: Vec<Fx> = Vec::new();
    let mut k: usize = 0;
    while k < sorted.len()
        invariant
            0 <= k <= sorted@.len(),
            out@.len() <= k,
            k > 0 ==> out@.len() >= 1,
            xs_sorted(out@),
            forall|a: int, b: int| 0 <= a < b < sorted@.len() ==> sorted@[a].bits <= sorted@[b].bits,
            forall|t: int|
                0 <= t < out@.len() ==> contains_bits(v@, (#[trigger] out@[t]).bits as int),
            forall|k2: int|
                0 <= k2 < sorted@.len() ==> contains_bits(v@, (#[trigger] sorted@[k2]).bits as int),
            forall|j: int| 0 <= j < k ==> contains_bits(out@, (#[trigger] sorted@[j]).bits as int),
            out@.len() > 0 && k < sorted@.len() ==> out@[out@.len() - 1].bits
                <= sorted@[k as int].bits,
        decreases sorted@.len() - k,
    {
        let p = sorted[k];
        let ghost prev = out@;
        if out.len() == 0 {
            out.push(p);
        } else {
            let last = out[out.len() - 1];
            if last.bits < p.bits {
                out.push(p);
            }
        }
        proof {
            assert(contains_bits(v@, p.bits as int)) by {
                assert(sorted@[k as int] == p);
            }
            assert forall|j: int| 0 <= j < k + 1 implies contains_bits(
                out@,
                (#[trigger] sorted@[j]).bits as int,
            ) by {
                if j < k {
                    let w = choose|w: int| 0 <= w < prev.len() && prev[w].bits == sorted@[j].bits;
                    assert(out@[w].bits == sorted@[j].bits);
                } else {
                    assert(out@[out@.len() - 1].bits == p.bits);
                }
            }
        }
        k = k + 1;
    }
    proof {
        assert forall|j: int| 0 <= j < v@.len() implies contains_bits(
            out@,
            (#[trigger] v@[j]).bits as int,
        ) by {
            assert(contains_bits(sorted@, v@[j].bits as int));
            let w = choose|w: int| 0 <= w < sorted@.len() && sorted@[w].bits == v@[j].bits;
            assert(contains_bits(out@, sorted@[w].bits as int));
        }
    }
    out
}

/// The order of the two functions' exact values at `x`, by exact
/// cross-multiplied integer comparison.
fn order_at(f: &PiecewiseLinear, g: &PiecewiseLinear, x: Fx) -> (s: i64)
    requires
        pl_wf(*f),
        pl_wf(*g),
        fx_wf(x),
    ensures
        s == rat_cmp(f@, g@, x.bits as int),
        -1 <= s <= 1,
{
    let (na, da) = f.rat_parts(x);
    let (nb, db) = g.rat_parts(x);
    proof {
        assert(na * db <= 0x8_0000_0000_0000_0000_0000 * 0x200_0000_0000 && na * db >= -(
        0x8_0000_0000_0000_0000_0000 * 0x200_0000_0000)) by (nonlinear_arith)
            requires
                -0x8_0000_0000_0000_0000_0000 <= na <= 0x8_0000_0000_0000_0000_0000,
                0 <= db <= 0x200_0000_0000,
        ;
        assert(nb * da <= 0x8_0000_0000_0000_0000_0000 * 0x200_0000_0000 && nb * da >= -(
        0x8_0000_0000_0000_0000_0000 * 0x200_0000_0000)) by (nonlinear_arith)
            requires
                -0x8_0000_0000_0000_0000_0000 <= nb <= 0x8_0000_0000_0000_0000_0000,
                0 <= da <= 0x200_0000_0000,
        ;
    }
    let lhs: i128 = na * db;
    let rhs: i128 = nb * da;
    if lhs > rhs {
        1
    } else if lhs < rhs {
        -1
    } else {
        0
    }
}

/// Bracket a crossing of the two functions inside `(lo0, hi0)` by
/// bisection on the exact order: either one abscissa where the exact
/// difference is zero, or two adjacent abscissas where it still has the
/// two endpoint signs.
fn find_crossing(f: &PiecewiseLinear, g: &PiecewiseLinear, lo0: Fx, hi0: Fx, s0: i64, s1: i64) -> (r:
    (i64, i64))
    requires
        pl_wf(*f),
        pl_wf(*g),
        fx_wf(lo0),
        fx_wf(hi0),
        lo0.bits < hi0.bits,
        s0 == rat_cmp(f@, g@, lo0.bits as int),
        s1 == rat_cmp(f@, g@, hi0.bits as int),
        s0 * s1 < 0,
        -1 <= s0 <= 1,
        -1 <= s1 <= 1,
    ensures
        lo0.bits <= r.0 <= r.1 <= hi0.bits,
        r.0 == r.1 ==> lo0.bits < r.0 < hi0.bits && rat_cmp(f@, g@, r.0 as int) == 0,
        r.0 != r.1 ==> r.1 == r.0 + 1 && rat_cmp(f@, g@, r.0 as int) == s0 && rat_cmp(
            f@,
            g@,
            r.1 as int,
        ) == s1,
{
    let mut lo: i64 = lo0.bits;
    let mut hi: i64 = hi0.bits;
    while hi - lo > 1
        invariant
            pl_wf(*f),
            pl_wf(*g),
            fx_wf(lo0),
            fx_wf(hi0),
            lo0.bits <= lo < hi <= hi0.bits,
            rat_cmp(f@, g@, lo as int) == s0,
            rat_cmp(f@, g@, hi as int) == s1,
            s0 * s1 < 0,
            -1 <= s0 <= 1,
            -1 <= s1 <= 1,
        decreases hi - lo,
    {
        let mid: i64 = lo + (hi - lo) / 2;
        let sm = order_at(f, g, Fx { bits: mid });
        if sm == 0 {
            return (mid, mid);
        }
        if sm == s0 {
            lo = mid;
        } else {
            proof {
                assert(s0 != 0 && s1 != 0 && s1 == -s0) by (nonlinear_arith)
                    requires
                        -1 <= s0 <= 1,
                        -1 <= s1 <= 1,
                        s0 * s1 < 0,
                ;
                assert(sm == s1);
            }
            hi = mid;
        }
    }
    (lo, hi)
}

/// The breakpoint an extremum function places at `xb`: the larger or
/// smaller of the two functions' values there.
fn extremum_point(f: &PiecewiseLinear, g: &PiecewiseLinear, xb: i64, take_max: bool) -> (p:
    Breakpoint)
    requires
        pl_wf(*f),
        pl_wf(*g),
        -0x100_0000_0000 <= xb <= 0x100_0000_0000,
    ensures
        p.x.bits == xb,
        bp_wf(p),
        p.y.bits == if take_max {
            max_int(spec_eval(f@, xb as int), spec_eval(g@, xb as int))
        } else {
            min_int(spec_eval(f@, xb as int), spec_eval(g@, xb as int))
        },
{
    let xf = Fx { bits: xb };
    let ya = f.evaluate(xf);
    let zb = g.evaluate(xf);
    let y = if take_max {
        ya.max(zb)
    } else {
        ya.min(zb)
    };
    Breakpoint { x: xf, y }
}

/// Appending a breakpoint above the current frontier preserves the
/// extremum loop's invariants: sortedness, well-formedness, coverage of
/// the processed abscissas, the extremum ordinate law, and the
/// no-sign-flip law on adjacent pairs.
proof fn lemma_extremum_push(
    prev: Seq<Breakpoint>,
    cur: Seq<Breakpoint>,
    p: Breakpoint,
    a: Seq<Breakpoint>,
    b: Seq<Breakpoint>,
    xs: Seq<Fx>,
    k: int,
    take_max: bool,
)
    requires
        cur == prev.push(p),
        strictly_sorted(prev),
        prev.len() > 0 ==> prev[prev.len() - 1].x.bits < p.x.bits,
        bp_wf(p),
        forall|t: int| 0 <= t < prev.len() ==> bp_wf(#[trigger] prev[t]),
        0 <= k <= xs.len(),
        forall|t: int| 0 <= t < k ==> has_x(prev, (#[trigger] xs[t]).bits as int),
        forall|t: int|
            0 <= t < prev.len() ==> (#[trigger] prev[t]).y.bits == if take_max {
                max_int(spec_eval(a, prev[t].x.bits as int), spec_eval(b, prev[t].x.bits as int))
            } else {
                min_int(spec_eval(a, prev[t].x.bits as int), spec_eval(b, prev[t].x.bits as int))
            },
        p.y.bits == if take_max {
            max_int(spec_eval(a, p.x.bits as int), spec_eval(b, p.x.bits as int))
        } else {
            min_int(spec_eval(a, p.x.bits as int), spec_eval(b, p.x.bits as int))
        },
        forall|t: int|
            0 <= t && t + 1 < prev.len() ==> no_sign_flip(
                a,
                b,
                (#[trigger] prev[t]).x.bits as int,
                prev[t + 1].x.bits as int,
            ),
        prev.len() > 0 ==> no_sign_flip(
            a,
            b,
            prev[prev.len() - 1].x.bits as int,
            p.x.bits as int,
        ),
    ensures
        cur.len() == prev.len() + 1,
        cur[cur.len() - 1] == p,
        strictly_sorted(cur),
        forall|t: int| 0 <= t < cur.len() ==> bp_wf(#[trigger] cur[t]),
        forall|t: int| 0 <= t < k ==> has_x(cur, (#[trigger] xs[t]).bits as int),
        forall|t: int|
            0 <= t < cur.len() ==> (#[trigger] cur[t]).y.bits == if take_max {
                max_int(spec_eval(a, cur[t].x.bits as int), spec_eval(b, cur[t].x.bits as int))
            } else {
                min_int(spec_eval(a, cur[t].x.bits as int), spec_eval(b, cur[t].x.bits as int))
            },
        forall|t: int|
            0 <= t && t + 1 < cur.len() ==> no_sign_flip(
                a,
                b,
                (#[trigger] cur[t]).x.bits as int,
                cur[t + 1].x.bits as int,
            ),
{
    assert forall|a2: int, b2: int| 0 <= a2 < b2 < cur.len() implies cur[a2].x.bits
        < cur[b2].x.bits by {
        if b2 == cur.len() - 1 {
            if a2 < prev.len() - 1 {
                assert(prev[a2].x.bits < prev[prev.len() - 1].x.bits);
            }
        }
    }
    assert forall|t: int| 0 <= t < k implies has_x(cur, (#[trigger] xs[t]).bits as int) by {
        let w = choose|w: int| 0 <= w < prev.len() && prev[w].x.bits == xs[t].bits;
        assert(cur[w].x.bits == xs[t].bits);
    }
    assert forall|t: int| 0 <= t && t + 1 < cur.len() implies no_sign_flip(
        a,
        b,
        (#[trigger] cur[t]).x.bits as int,
        cur[t + 1].x.bits as int,
    ) by {
        if t + 1 < prev.len() {
            assert(cur[t] == prev[t] && cur[t + 1] == prev[t + 1]);
        } else {
            assert(cur[t] == prev[prev.len() - 1] && cur[t + 1] == p);
        }
    }
}

/// The value of a bounded linear combination of two function values.
pub open spec fn scaled_sum(cy: Fx, ya: int, cz: Fx, zb: int) -> int {
    trunc_div(cy.bits * ya, 65536) + trunc_div(cz.bits * zb, 65536)
}

/// The value of an affine ordinate transform.
pub open spec fn affine_y(m: Fx, c: Fx, y: int) -> int {
    trunc_div(m.bits * y, 65536) + c.bits
}

/// The scaling `c` keeps every ordinate product within the multiplication
/// head-room of the representation.
pub open spec fn scale_ok(c: Fx, s: Seq<Breakpoint>) -> bool {
    forall|i: int|
        0 <= i < s.len() ==> -0x80_0000_0000_0000 <= c.bits * (#[trigger] s[i]).y.bits
            <= 0x80_0000_0000_0000
}

/// Numerator of the function's exact (unrounded) value at `x`, over
/// [`rat_den`]: the clamped endpoint ordinate outside the breakpoint
/// range, the exact chord value on a segment.
pub open spec fn rat_num(s: Seq<Breakpoint>, x: int) -> int
    recommends
        s.len() >= 1,
        strictly_sorted(s),
    decreases s.len(),
{
    if s.len() <= 1 {
        s[0].y.bits as int
    } else if x < s[0].x.bits {
        s[0].y.bits as int
    } else if x < s[1].x.bits {
        s[0].y.bits * (s[1].x.bits - s[0].x.bits) + (x - s[0].x.bits) * (s[1].y.bits
            - s[0].y.bits)
    } else {
        rat_num(s.drop_first(), x)
    }
}

/// Denominator of the function's exact value at `x`; positive.
pub open spec fn rat_den(s: Seq<Breakpoint>, x: int) -> int
    recommends
        s.len() >= 1,
        strictly_sorted(s),
    decreases s.len(),
{
    if s.len() <= 1 {
        1
    } else if x < s[0].x.bits {
        1
    } else if x < s[1].x.bits {
        s[1].x.bits - s[0].x.bits
    } else {
        rat_den(s.drop_first(), x)
    }
}

/// On the segment enclosing `x`, the exact value is the chord fraction.
pub proof fn lemma_rat_segment(s: Seq<Breakpoint>, x: int, i: int)
    requires
        strictly_sorted(s),
        0 <= i < s.len(),
        s[i].x.bits <= x,
        i + 1 < s.len() ==> x < s[i + 1].x.bits,
    ensures
        i + 1 == s.len() ==> rat_num(s, x) == s[i].y.bits && rat_den(s, x) == 1,
        i + 1 < s.len() ==> rat_num(s, x) == s[i].y.bits * (s[i + 1].x.bits - s[i].x.bits) + (x
            - s[i].x.bits) * (s[i + 1].y.bits - s[i].y.bits) && rat_den(s, x) == s[i + 1].x.bits
            - s[i].x.bits,
    decreases s.len(),
{
    if i == 0 {
        if s.len() == 1 {
        } else if i + 1 < s.len() {
            assert(x < s[1].x.bits);
        }
    } else {
        assert(s[1].x.bits <= s[i].x.bits);
        assert(x >= s[1].x.bits);
        lemma_rat_segment(s.drop_first(), x, i - 1);
    }
}

/// Sign of the exact difference `a(x) - b(x)` of the two functions'
/// unrounded values: `1`, `0` or `-1`.
pub open spec fn rat_cmp(a: Seq<Breakpoint>, b: Seq<Breakpoint>, x: int) -> int {
    let d = rat_num(a, x) * rat_den(b, x) - rat_num(b, x) * rat_den(a, x);
    if d > 0 {
        1int
    } else if d < 0 {
        -1int
    } else {
        0int
    }
}

/// The two functions keep one order from `u` to `v`: the sign of their
/// exact difference at `u` and at `v` is not strictly opposite — unless
/// the interval is one raw unit wide, where no representable abscissa
/// lies strictly inside it. Between adjacent breakpoints of a merged
/// function both inputs are affine, so their order can only swap where
/// this predicate places a breakpoint.
pub open spec fn no_sign_flip(a: Seq<Breakpoint>, b: Seq<Breakpoint>, u: int, v: int) -> bool {
    v <= u + 1 || rat_cmp(a, b, u) * rat_cmp(a, b, v) >= 0
}

/// The larger of two integers.
pub open spec fn max_int(a: int, b: int) -> int {
    if a >= b {
        a
    } else {
        b
    }
}

/// The smaller of two integers.
pub open spec fn min_int(a: int, b: int) -> int {
    if a <= b {
        a
    } else {
        b
    }
}

/// One merged sample of three functions: the abscissa and the three values.
#[derive(Clone, Copy, PartialEq, Eq, Structural, Debug)]
pub struct InflectionSample {
    pub x: Fx,
    pub ya: Fx,
    pub yb: Fx,
    pub yc: Fx,
}

/// An affine function `slope * x + intercept` of one fixed-point variable.
pub struct Linear {
    pub slope: Fx,
    pub intercept: Fx,
}

impl Linear {
    /// The constant function with the given value.
    pub fn constant(y: Fx) -> (r: Linear)
        ensures
            r.slope.bits == 0,
            r.intercept == y,
    {
        Linear { slope: Fx { bits: 0 }, intercept: y }
    }

    /// The function's value at `x`.
    pub fn evaluate(&self, x: Fx) -> (r: Fx)
        requires
            fx_wf(self.slope),
            fx_wf(self.intercept),
            fx_wf(x),
            -0x100_0000_0000_0000 <= self.slope.bits * x.bits <= 0x100_0000_0000_0000,
        ensures
            r.bits == trunc_div(self.slope.bits * x.bits, 65536) + self.intercept.bits,
    {
        let s = self.slope.mul(x);
        Fx { bits: s.bits + self.intercept.bits }
    }
}

/// One linear piece of a piecewise-linear function: the segment between two
/// adjacent breakpoints, or a constant extension (`x0 == x1`) beyond an end.
#[derive(Clone, Copy, PartialEq, Eq, Structural, Debug)]
pub struct LinearPiece {
    pub x0: Fx,
    pub y0: Fx,
    pub x1: Fx,
    pub y1: Fx,
}

/// Value of a linear piece at `x` (clamped into the piece's domain).
pub open spec fn piece_eval(p: LinearPiece, x: int) -> int {
    if p.x0.bits == p.x1.bits {
        p.y0.bits as int
    } else {
        interp_bits(p.x0.bits as int, p.y0.bits as int, p.x1.bits as int, p.y1.bits as int, x)
    }
}

impl LinearPiece {
    /// Evaluate the piece at `x`.
    pub fn evaluate(&self, x: Fx) -> (r: Fx)
        requires
            fx_wf(self.x0),
            fx_wf(self.y0),
            fx_wf(self.x1),
            fx_wf(self.y1),
            self.x0.bits <= self.x1.bits,
            fx_wf(x),
        ensures
            r.bits == piece_eval(*self, x.bits as int),
            fx_wf(r),
    {
        if self.x0.bits == self.x1.bits {
            self.y0
        } else {
            let xc = x.clamp(self.x0, self.x1);
            let r = interp_exec(
                Breakpoint { x: self.x0, y: self.y0 },
                Breakpoint { x: self.x1, y: self.y1 },
                xc,
            );
            proof {
                lemma_interp_in_range(
                    self.x0.bits as int,
                    self.y0.bits as int,
                    self.x1.bits as int,
                    self.y1.bits as int,
                    x.bits as int,
                );
            }
            r
        }
    }
}

/// Law: outside the breakpoint range the function is clamped. For every
/// well-formed function, the value at any `x` at or left of the first
/// breakpoint equals the value at the first breakpoint, and symmetrically
/// at the last breakpoint.
pub proof fn lemma_evaluate_clamped(f: PiecewiseLinear, x: int)
    requires
        pl_wf(f),
    ensures
        x <= f@[0].x.bits ==> spec_eval(f@, x) == spec_eval(f@, f@[0].x.bits as int),
        x >= f@[f@.len() - 1].x.bits ==> spec_eval(f@, x) == spec_eval(
            f@,
            f@[f@.len() - 1].x.bits as int,
        ),
{
    if x <= f@[0].x.bits {
        lemma_eval_left(f@, x);
        lemma_eval_at_breakpoint(f@, 0);
    }
    if x >= f@[f@.len() - 1].x.bits {
        lemma_eval_segment(f@, x, f@.len() - 1);
        lemma_eval_at_breakpoint(f@, f@.len() - 1);
    }
}

/// Law: a merged linear combination agrees with the combination of the two
/// input functions at every breakpoint of the merged function. The
/// hypothesis on the ordinate is what `bilinear_map` ensures of its result.
pub proof fn lemma_bilinear_map_agreement(
    a_pts: Seq<Breakpoint>,
    b_pts: Seq<Breakpoint>,
    r: PiecewiseLinear,
    cy: Fx,
    cz: Fx,
    k: int,
)
    requires
        pl_wf(r),
        0 <= k < r@.len(),
        r@[k].y.bits == scaled_sum(
            cy,
            spec_eval(a_pts, r@[k].x.bits as int),
            cz,
            spec_eval(b_pts, r@[k].x.bits as int),
        ),
    ensures
        spec_eval(r@, r@[k].x.bits as int) == scaled_sum(
            cy,
            spec_eval(a_pts, r@[k].x.bits as int),
            cz,
            spec_eval(b_pts, r@[k].x.bits as int),
        ),
{
    lemma_eval_at_breakpoint(r@, k);
}

/// Law: a pointwise maximum agrees with the larger of the two input
/// functions' values at every breakpoint of the result, the crossing
/// breakpoints included; together with `pointwise_max`'s no-sign-flip
/// clause ([`no_sign_flip`]) every crossing lies at such a breakpoint.
/// The hypothesis on the ordinate is what `pointwise_max` ensures of its
/// result.
pub proof fn lemma_pointwise_max_agreement(
    a_pts: Seq<Breakpoint>,
    b_pts: Seq<Breakpoint>,
    r: PiecewiseLinear,
    k: int,
)
    requires
        pl_wf(r),
        0 <= k < r@.len(),
        r@[k].y.bits == max_int(
            spec_eval(a_pts, r@[k].x.bits as int),
            spec_eval(b_pts, r@[k].x.bits as int),
        ),
    ensures
        spec_eval(r@, r@[k].x.bits as int) == max_int(
            spec_eval(a_pts, r@[k].x.bits as int),
            spec_eval(b_pts, r@[k].x.bits as int),
        ),
{
    lemma_eval_at_breakpoint(r@, k);
}

/// Interpolate between two breakpoints at an enclosed abscissa.
fn interp_exec(p0: Breakpoint, p1: Breakpoint, x: Fx) -> (r: Fx)
    requires
        bp_wf(p0),
        bp_wf(p1),
        p0.x.bits < p1.x.bits,
        p0.x.bits <= x.bits <= p1.x.bits,
    ensures
        r.bits == interp_bits(
            p0.x.bits as int,
            p0.y.bits as int,
            p1.x.bits as int,
            p1.y.bits as int,
            x.bits as int,
        ),
        fx_wf(r),
{
    let dx: i128 = (p1.x.bits as i128) - (p0.x.bits as i128);
    let dy: i128 = (p1.y.bits as i128) - (p0.y.bits as i128);
    let off: i128 = (x.bits as i128) - (p0.x.bits as i128);
    proof {
        assert(off * dy <= 0x400_0000_0000 * 0x400_0000_0000 && off * dy >= -(
        0x400_0000_0000 * 0x400_0000_0000)) by (nonlinear_arith)
            requires
                -0x400_0000_0000 <= off <= 0x400_0000_0000,
                -0x400_0000_0000 <= dy <= 0x400_0000_0000,
        ;
    }
    let num: i128 = off * dy;
    let q: i128 = crate::fixed::trunc_div_i128(num, dx);
    proof {
        lemma_interp_in_range(
            p0.x.bits as int,
            p0.y.bits as int,
            p1.x.bits as int,
            p1.y.bits as int,
            x.bits as int,
        );
    }
    Fx { bits: p0.y.bits + (q as i64) }
}

impl PiecewiseLinear {
    /// Build a function from unsorted samples: sort by abscissa, then keep
    /// the first sample of each run of equal abscissas. Fails exactly on
    /// empty input.
    pub fn new(points: Vec<Breakpoint>) -> (r: Option<PiecewiseLinear>)
        requires
            forall|i: int| 0 <= i < points@.len() ==> bp_wf(#[trigger] points@[i]),
        ensures
            (r is None) <==> points@.len() == 0,
            r is Some ==> pl_new_rel(points@, r->Some_0),
    {
        if points.len() == 0 {
            return None;
        }
        // Stable insertion sort by abscissa.
        let ghost input = points@;
        let mut sorted: Vec<Breakpoint> = Vec::new();
        let mut i: usize = 0;
        while i < points.len()
            invariant
                0 <= i <= input.len(),
                points@ == input,
                sorted@.len() == i,
                forall|j: int| 0 <= j < input.len() ==> bp_wf(#[trigger] input[j]),
                forall|a: int, b: int|
                    0 <= a < b < sorted@.len() ==> sorted@[a].x.bits <= sorted@[b].x.bits,
                forall|k: int| 0 <= k < sorted@.len() ==> input.contains(#[trigger] sorted@[k]),
                forall|k: int| 0 <= k < sorted@.len() ==> bp_wf(#[trigger] sorted@[k]),
                forall|j: int| 0 <= j < i ==> has_x(sorted@, (#[trigger] input[j]).x.bits as int),
            decreases input.len() - i,
        {
            let p = points[i];
            let mut pos: usize = sorted.len();
            while pos > 0 && sorted[pos - 1].x.bits > p.x.bits
                invariant
                    0 <= pos <= sorted@.len(),
                    forall|t: int| pos <= t < sorted@.len() ==> (#[trigger] sorted@[t]).x.bits > p.x.bits,
                decreases pos,
            {
                pos = pos - 1;
            }
            let ghost before = sorted@;
            sorted.insert(pos, p);
            proof {
                before.insert_ensures(pos as int, p);
                assert(sorted@[pos as int] == p);
                assert forall|k: int| 0 <= k < sorted@.len() implies bp_wf(#[trigger] sorted@[k])
                    && input.contains(sorted@[k]) by {
                    if k < pos {
                        assert(sorted@[k] == before[k]);
                    } else if k == pos {
                        assert(sorted@[k] == p);
                        assert(input.contains(p)) by {
                            assert(input[i as int] == p);
                        }
                    } else {
                        assert(sorted@[k] == before[k - 1]);
                    }
                }
                assert forall|j: int| 0 <= j < i + 1 implies has_x(
                    sorted@,
                    (#[trigger] input[j]).x.bits as int,
                ) by {
                    if j < i {
                        let w = choose|w: int|
                            0 <= w < before.len() && before[w].x.bits == input[j].x.bits;
                        if w < pos {
                            assert(sorted@[w] == before[w]);
                        } else {
                            assert(sorted@[w + 1] == before[w]);
                        }
                    } else {
                        assert(sorted@[pos as int].x.bits == input[j].x.bits);
                    }
                }
            }
            i = i + 1;
        }
        // Keep the first breakpoint of each run of equal abscissas.
        let mut out: Vec<Breakpoint> = Vec::new();
        let mut k: usize = 0;
        while k < sorted.len()
            invariant
                0 <= k <= sorted@.len(),
                out@.len() <= k,
                k > 0 ==> out@.len() >= 1,
                strictly_sorted(out@),
                forall|a: int| 0 <= a < out@.len() ==> sorted@.contains(#[trigger] out@[a]),
                forall|a: int| 0 <= a < out@.len() ==> bp_wf(#[trigger] out@[a]),
                forall|j: int| 0 <= j < k ==> has_x(out@, (#[trigger] sorted@[j]).x.bits as int),
                out@.len() > 0 && k < sorted@.len() ==> out@[out@.len() - 1].x.bits
                    <= sorted@[k as int].x.bits,
                forall|a: int, b: int|
                    0 <= a < b < sorted@.len() ==> sorted@[a].x.bits <= sorted@[b].x.bits,
                forall|a: int| 0 <= a < sorted@.len() ==> bp_wf(#[trigger] sorted@[a]),
                forall|kk: int| 0 <= kk < sorted@.len() ==> input.contains(#[trigger] sorted@[kk]),
            decreases sorted@.len() - k,
        {
            let p = sorted[k];
            let ghost prev_out = out@;
            if out.len() == 0 {
                out.push(p);
            } else {
                let last = out[out.len() - 1];
                if last.x.bits < p.x.bits {
                    out.push(p);
                }
            }
            proof {
                assert(sorted@.contains(p)) by {
                    assert(sorted@[k as int] == p);
                }
                assert forall|j: int| 0 <= j < k + 1 implies has_x(
                    out@,
                    (#[trigger] sorted@[j]).x.bits as int,
                ) by {
                    if j < k {
                        let w = choose|w: int|
                            0 <= w < prev_out.len() && prev_out[w].x.bits == sorted@[j].x.bits;
                        assert(out@[w].x.bits == sorted@[j].x.bits);
                    } else {
                        assert(out@[out@.len() - 1].x.bits == p.x.bits);
                    }
                }
            }
            k = k + 1;
        }
        let result = PiecewiseLinear { points: out };
        proof {
            assert forall|j: int|
                0 <= j < input.len() implies has_x(result@, (#[trigger] input[j]).x.bits as int) by {
                assert(has_x(sorted@, input[j].x.bits as int));
            }
            assert forall|kk: int|
                0 <= kk < result@.len() implies input.contains(#[trigger] result@[kk]) by {
                assert(sorted@.contains(result@[kk]));
            }
        }
        Some(result)
    }

    /// Number of breakpoints.
    pub fn breakpoint_count(&self) -> (r: usize)
        ensures
            r == self@.len(),
    {
        self.points.len()
    }

    /// The breakpoint at a given position.
    pub fn breakpoint_at(&self, i: usize) -> (r: Breakpoint)
        requires
            i < self@.len(),
        ensures
            r == self@[i as int],
    {
        self.points[i]
    }

    /// The first breakpoint, as `(x, y)`.
    pub fn first_inflection_point(&self) -> (r: (Fx, Fx))
        requires
            pl_wf(*self),
        ensures
            r.0 == self@[0].x,
            r.1 == self@[0].y,
    {
        (self.points[0].x, self.points[0].y)
    }

    /// The last breakpoint, as `(x, y)`.
    pub fn last_inflection_point(&self) -> (r: (Fx, Fx))
        requires
            pl_wf(*self),
        ensures
            r.0 == self@[self@.len() - 1].x,
            r.1 == self@[self@.len() - 1].y,
    {
        (self.points[self.points.len() - 1].x, self.points[self.points.len() - 1].y)
    }

    /// Index of the first breakpoint whose abscissa exceeds `x` (equals the
    /// number of breakpoints with abscissa at most `x`).
    fn partition_point(&self, x: Fx) -> (c: usize)
        requires
            pl_wf(*self),
        ensures
            0 <= c <= self@.len(),
            forall|k: int| 0 <= k < c ==> (#[trigger] self@[k]).x.bits <= x.bits,
            forall|k: int| c <= k < self@.len() ==> (#[trigger] self@[k]).x.bits > x.bits,
    {
        let mut lo: usize = 0;
        let mut hi: usize = self.points.len();
        while lo < hi
            invariant
                0 <= lo <= hi <= self@.len(),
                forall|k: int| 0 <= k < lo ==> (#[trigger] self@[k]).x.bits <= x.bits,
                forall|k: int| hi <= k < self@.len() ==> (#[trigger] self@[k]).x.bits > x.bits,
                strictly_sorted(self@),
            decreases hi - lo,
        {
            let mid: usize = lo + (hi - lo) / 2;
            if self.points[mid].x.bits <= x.bits {
                proof {
                    assert forall|k: int| 0 <= k < mid + 1 implies (#[trigger] self@[k]).x.bits
                        <= x.bits by {
                        if k < mid {
                            assert(self@[k].x.bits < self@[mid as int].x.bits);
                        }
                    }
                }
                lo = mid + 1;
            } else {
                proof {
                    assert forall|k: int| mid <= k < self@.len() implies (#[trigger] self@[k]).x.bits
                        > x.bits by {
                        if k > mid {
                            assert(self@[k].x.bits > self@[mid as int].x.bits);
                        }
                    }
                }
                hi = mid;
            }
        }
        lo
    }

    /// The abscissas of the function, as a vector.
    fn xs_vec(&self) -> (r: Vec<Fx>)
        ensures
            r@ == xs_of(self@),
            r@.len() == self@.len(),
            forall|k: int| 0 <= k < r@.len() ==> #[trigger] r@[k] == self@[k].x,
    {
        let mut r: Vec<Fx> = Vec::new();
        let mut i: usize = 0;
        while i < self.points.len()
            invariant
                0 <= i <= self@.len(),
                r@.len() == i,
                forall|k: int| 0 <= k < i ==> #[trigger] r@[k] == self@[k].x,
            decreases self@.len() - i,
        {
            r.push(self.points[i].x);
            i = i + 1;
        }
        proof {
            assert(r@ =~= xs_of(self@));
        }
        r
    }

    /// Pointwise linear combination `cy * self + cz * other`, sampled on the
    /// union of the two breakpoint sets. At each breakpoint of the result
    /// the ordinate is the combination of the two functions' values there.
    pub fn bilinear_map(&self, other: &PiecewiseLinear, cy: Fx, cz: Fx) -> (r: PiecewiseLinear)
        requires
            pl_wf(*self),
            pl_wf(*other),
            fx_wf(cy),
            fx_wf(cz),
            scale_ok(cy, self@),
            scale_ok(cz, other@),
        ensures
            pl_wf(r),
            r@.len() <= self@.len() + other@.len(),
            forall|k: int|
                0 <= k < r@.len() ==> has_x(self@, (#[trigger] r@[k]).x.bits as int) || has_x(
                    other@,
                    r@[k].x.bits as int,
                ),
            forall|i: int| 0 <= i < self@.len() ==> has_x(r@, (#[trigger] self@[i]).x.bits as int),
            forall|j: int| 0 <= j < other@.len() ==> has_x(r@, (#[trigger] other@[j]).x.bits as int),
            forall|k: int|
                0 <= k < r@.len() ==> (#[trigger] r@[k]).y.bits == scaled_sum(
                    cy,
                    spec_eval(self@, r@[k].x.bits as int),
                    cz,
                    spec_eval(other@, r@[k].x.bits as int),
                ),
    {
        let xs = merge_sorted_xs(&self.xs_vec(), &other.xs_vec());
        let mut pts: Vec<Breakpoint> = Vec::new();
        let mut k: usize = 0;
        while k < xs.len()
            invariant
                0 <= k <= xs@.len(),
                pts@.len() == k,
                pl_wf(*self),
                pl_wf(*other),
                fx_wf(cy),
                fx_wf(cz),
                scale_ok(cy, self@),
                scale_ok(cz, other@),
                xs_sorted(xs@),
                forall|t: int| 0 <= t < xs@.len() ==> fx_wf(#[trigger] xs@[t]),
                forall|t: int| 0 <= t < k ==> (#[trigger] pts@[t]).x == xs@[t],
                forall|t: int| 0 <= t < k ==> bp_wf(#[trigger] pts@[t]),
                forall|t: int|
                    0 <= t < k ==> (#[trigger] pts@[t]).y.bits == scaled_sum(
                        cy,
                        spec_eval(self@, pts@[t].x.bits as int),
                        cz,
                        spec_eval(other@, pts@[t].x.bits as int),
                    ),
            decreases xs@.len() - k,
        {
            let x = xs[k];
            let ya = self.evaluate(x);
            let zb = other.evaluate(x);
            proof {
                lemma_scaled_eval_bound(
                    self@,
                    cy.bits as int,
                    x.bits as int,
                    0x80_0000_0000_0000,
                );
                lemma_scaled_eval_bound(
                    other@,
                    cz.bits as int,
                    x.bits as int,
                    0x80_0000_0000_0000,
                );
                crate::fixed::lemma_trunc_div_bound(
                    cy.bits * ya.bits,
                    65536,
                    0x80_0000_0000,
                );
                crate::fixed::lemma_trunc_div_bound(
                    cz.bits * zb.bits,
                    65536,
                    0x80_0000_0000,
                );
            }
            let sy = cy.mul(ya);
            let sz = cz.mul(zb);
            pts.push(Breakpoint { x, y: Fx { bits: sy.bits + sz.bits } });
            k = k + 1;
        }
        let r = PiecewiseLinear { points: pts };
        proof {
            assert forall|a: int, b: int| 0 <= a < b < r@.len() implies r@[a].x.bits
                < r@[b].x.bits by {
                assert(r@[a].x == xs@[a] && r@[b].x == xs@[b]);
            }
            assert forall|k2: int| 0 <= k2 < r@.len() implies has_x(
                self@,
                (#[trigger] r@[k2]).x.bits as int,
            ) || has_x(other@, r@[k2].x.bits as int) by {
                assert(r@[k2].x == xs@[k2]);
                if contains_bits(xs_of(self@), xs@[k2].bits as int) {
                    let w = choose|w: int|
                        0 <= w < xs_of(self@).len() && xs_of(self@)[w].bits == xs@[k2].bits;
                    assert(self@[w].x.bits == xs@[k2].bits);
                } else {
                    let w = choose|w: int|
                        0 <= w < xs_of(other@).len() && xs_of(other@)[w].bits == xs@[k2].bits;
                    assert(other@[w].x.bits == xs@[k2].bits);
                }
            }
            assert forall|i: int| 0 <= i < self@.len() implies has_x(
                r@,
                (#[trigger] self@[i]).x.bits as int,
            ) by {
                assert(xs_of(self@)[i].bits == self@[i].x.bits);
                assert(contains_bits(xs@, self@[i].x.bits as int));
                let w = choose|w: int| 0 <= w < xs@.len() && xs@[w].bits == self@[i].x.bits;
                assert(r@[w].x.bits == self@[i].x.bits);
            }
            assert forall|j: int| 0 <= j < other@.len() implies has_x(
                r@,
                (#[trigger] other@[j]).x.bits as int,
            ) by {
                assert(xs_of(other@)[j].bits == other@[j].x.bits);
                assert(contains_bits(xs@, other@[j].x.bits as int));
                let w = choose|w: int| 0 <= w < xs@.len() && xs@[w].bits == other@[j].x.bits;
                assert(r@[w].x.bits == other@[j].x.bits);
            }
        }
        r
    }

    /// Apply the affine ordinate transform `y -> m * y + c` to every
    /// breakpoint; the abscissas are unchanged.
    pub fn linear_map(&self, m: Fx, c: Fx) -> (r: PiecewiseLinear)
        requires
            pl_wf(*self),
            fx_wf(m),
            fx_wf(c),
            -0x80_0000_0000 <= c.bits <= 0x80_0000_0000,
            scale_ok(m, self@),
        ensures
            pl_wf(r),
            r@.len() == self@.len(),
            forall|k: int| 0 <= k < r@.len() ==> (#[trigger] r@[k]).x == self@[k].x,
            forall|k: int|
                0 <= k < r@.len() ==> (#[trigger] r@[k]).y.bits == affine_y(
                    m,
                    c,
                    self@[k].y.bits as int,
                ),
    {
        let mut pts: Vec<Breakpoint> = Vec::new();
        let mut k: usize = 0;
        while k < self.points.len()
            invariant
                0 <= k <= self@.len(),
                pts@.len() == k,
                pl_wf(*self),
                fx_wf(m),
                fx_wf(c),
                -0x80_0000_0000 <= c.bits <= 0x80_0000_0000,
                scale_ok(m, self@),
                forall|t: int| 0 <= t < k ==> (#[trigger] pts@[t]).x == self@[t].x,
                forall|t: int| 0 <= t < k ==> bp_wf(#[trigger] pts@[t]),
                forall|t: int|
                    0 <= t < k ==> (#[trigger] pts@[t]).y.bits == affine_y(
                        m,
                        c,
                        self@[t].y.bits as int,
                    ),
            decreases self@.len() - k,
        {
            let p = self.points[k];
            proof {
                crate::fixed::lemma_trunc_div_bound(m.bits * p.y.bits, 65536, 0x80_0000_0000);
            }
            let sy = m.mul(p.y);
            pts.push(Breakpoint { x: p.x, y: Fx { bits: sy.bits + c.bits } });
            k = k + 1;
        }
        let r = PiecewiseLinear { points: pts };
        proof {
            assert forall|a: int, b: int| 0 <= a < b < r@.len() implies r@[a].x.bits
                < r@[b].x.bits by {
                assert(r@[a].x == self@[a].x && r@[b].x == self@[b].x);
            }
        }
        r
    }

    /// The exact (unrounded) value of the function at `x`, as a fraction:
    /// numerator and positive denominator in machine integers.
    fn rat_parts(&self, x: Fx) -> (r: (i128, i128))
        requires
            pl_wf(*self),
            fx_wf(x),
        ensures
            r.0 == rat_num(self@, x.bits as int),
            r.1 == rat_den(self@, x.bits as int),
            1 <= r.1 <= 0x200_0000_0000,
            -0x8_0000_0000_0000_0000_0000 <= r.0 <= 0x8_0000_0000_0000_0000_0000,
    {
        let c = self.partition_point(x);
        if c == 0 {
            ((self.points[0].y.bits as i128), 1)
        } else if c == self.points.len() {
            proof {
                lemma_rat_segment(self@, x.bits as int, self@.len() - 1);
            }
            ((self.points[c - 1].y.bits as i128), 1)
        } else {
            proof {
                lemma_rat_segment(self@, x.bits as int, c - 1);
            }
            let p0 = self.points[c - 1];
            let p1 = self.points[c];
            let dx: i128 = (p1.x.bits as i128) - (p0.x.bits as i128);
            let off: i128 = (x.bits as i128) - (p0.x.bits as i128);
            let dy: i128 = (p1.y.bits as i128) - (p0.y.bits as i128);
            proof {
                assert((p0.y.bits as i128) * dx <= 0x100_0000_0000 * 0x200_0000_0000 && (
                p0.y.bits as i128) * dx >= -(0x100_0000_0000 * 0x200_0000_0000))
                    by (nonlinear_arith)
                    requires
                        -0x100_0000_0000 <= p0.y.bits as i128 <= 0x100_0000_0000,
                        0 <= dx <= 0x200_0000_0000,
                ;
                assert(off * dy <= 0x200_0000_0000 * 0x200_0000_0000 && off * dy >= -(
                0x200_0000_0000 * 0x200_0000_0000)) by (nonlinear_arith)
                    requires
                        0 <= off <= 0x200_0000_0000,
                        -0x200_0000_0000 <= dy <= 0x200_0000_0000,
                ;
            }
            let num: i128 = (p0.y.bits as i128) * dx + off * dy;
            (num, dx)
        }
    }

    /// Pointwise extremum of two functions: sample the union of the
    /// breakpoint sets, and add breakpoints that pin down every crossing
    /// of the two functions: between adjacent breakpoints of the result
    /// the exact difference of the two inputs never strictly changes
    /// sign, so no crossing is missed.
    fn pointwise_extremum(&self, other: &PiecewiseLinear, take_max: bool) -> (r: PiecewiseLinear)
        requires
            pl_wf(*self),
            pl_wf(*other),
        ensures
            pl_wf(r),
            forall|i: int| 0 <= i < self@.len() ==> has_x(r@, (#[trigger] self@[i]).x.bits as int),
            forall|j: int| 0 <= j < other@.len() ==> has_x(r@, (#[trigger] other@[j]).x.bits as int),
            forall|k: int|
                0 <= k < r@.len() ==> (#[trigger] r@[k]).y.bits == if take_max {
                    max_int(
                        spec_eval(self@, r@[k].x.bits as int),
                        spec_eval(other@, r@[k].x.bits as int),
                    )
                } else {
                    min_int(
                        spec_eval(self@, r@[k].x.bits as int),
                        spec_eval(other@, r@[k].x.bits as int),
                    )
                },
            forall|k: int|
                0 <= k && k + 1 < r@.len() ==> no_sign_flip(
                    self@,
                    other@,
                    (#[trigger] r@[k]).x.bits as int,
                    r@[k + 1].x.bits as int,
                ),
    {
        let xs = merge_sorted_xs(&self.xs_vec(), &other.xs_vec());
        let mut pts: Vec<Breakpoint> = Vec::new();
        let mut k: usize = 0;
        while k < xs.len()
            invariant
                0 <= k <= xs@.len(),
                pl_wf(*self),
                pl_wf(*other),
                xs_sorted(xs@),
                forall|t: int| 0 <= t < xs@.len() ==> fx_wf(#[trigger] xs@[t]),
                k > 0 ==> pts@.len() >= 1,
                k == 0 ==> pts@.len() == 0,
                k > 0 ==> pts@[pts@.len() - 1].x == xs@[k - 1],
                strictly_sorted(pts@),
                forall|t: int| 0 <= t < pts@.len() ==> bp_wf(#[trigger] pts@[t]),
                forall|t: int| 0 <= t < k ==> has_x(pts@, (#[trigger] xs@[t]).bits as int),
                forall|t: int|
                    0 <= t < pts@.len() ==> (#[trigger] pts@[t]).y.bits == if take_max {
                        max_int(
                            spec_eval(self@, pts@[t].x.bits as int),
                            spec_eval(other@, pts@[t].x.bits as int),
                        )
                    } else {
                        min_int(
                            spec_eval(self@, pts@[t].x.bits as int),
                            spec_eval(other@, pts@[t].x.bits as int),
                        )
                    },
                forall|t: int|
                    0 <= t && t + 1 < pts@.len() ==> no_sign_flip(
                        self@,
                        other@,
                        (#[trigger] pts@[t]).x.bits as int,
                        pts@[t + 1].x.bits as int,
                    ),
            decreases xs@.len() - k,
        {
            let x = xs[k];
            if k > 0 {
                let x_prev = xs[k - 1];
                let s_prev = order_at(self, other, x_prev);
                let s_cur = order_at(self, other, x);
                proof {
                    assert(-1 <= s_prev * s_cur <= 1) by (nonlinear_arith)
                        requires
                            -1 <= s_prev <= 1,
                            -1 <= s_cur <= 1,
                    ;
                }
                if s_prev * s_cur < 0 {
                    let (u, v) = find_crossing(self, other, x_prev, x, s_prev, s_cur);
                    if u == v {
                        let p = extremum_point(self, other, u, take_max);
                        let ghost prev_pts = pts@;
                        pts.push(p);
                        proof {
                            assert(rat_cmp(self@, other@, x_prev.bits as int) * rat_cmp(
                                self@,
                                other@,
                                u as int,
                            ) == 0) by (nonlinear_arith)
                                requires
                                    rat_cmp(self@, other@, u as int) == 0,
                            ;
                            assert(rat_cmp(self@, other@, u as int) * rat_cmp(
                                self@,
                                other@,
                                x.bits as int,
                            ) == 0) by (nonlinear_arith)
                                requires
                                    rat_cmp(self@, other@, u as int) == 0,
                            ;
                            lemma_extremum_push(
                                prev_pts,
                                pts@,
                                p,
                                self@,
                                other@,
                                xs@,
                                k as int,
                                take_max,
                            );
                        }
                    } else {
                        if x_prev.bits < u {
                            let p = extremum_point(self, other, u, take_max);
                            let ghost prev_pts = pts@;
                            pts.push(p);
                            proof {
                                assert(rat_cmp(self@, other@, x_prev.bits as int) * rat_cmp(
                                    self@,
                                    other@,
                                    u as int,
                                ) >= 0) by (nonlinear_arith)
                                    requires
                                        rat_cmp(self@, other@, x_prev.bits as int) == s_prev,
                                        rat_cmp(self@, other@, u as int) == s_prev,
                                        -1 <= s_prev <= 1,
                                ;
                                lemma_extremum_push(
                                    prev_pts,
                                    pts@,
                                    p,
                                    self@,
                                    other@,
                                    xs@,
                                    k as int,
                                    take_max,
                                );
                            }
                        }
                        if v < x.bits {
                            let p = extremum_point(self, other, v, take_max);
                            let ghost prev_pts = pts@;
                            proof {
                                assert(prev_pts[prev_pts.len() - 1].x.bits == u);
                                assert(rat_cmp(self@, other@, v as int) * rat_cmp(
                                    self@,
                                    other@,
                                    x.bits as int,
                                ) >= 0) by (nonlinear_arith)
                                    requires
                                        rat_cmp(self@, other@, v as int) == s_cur,
                                        rat_cmp(self@, other@, x.bits as int) == s_cur,
                                        -1 <= s_cur <= 1,
                                ;
                            }
                            pts.push(p);
                            proof {
                                lemma_extremum_push(
                                    prev_pts,
                                    pts@,
                                    p,
                                    self@,
                                    other@,
                                    xs@,
                                    k as int,
                                    take_max,
                                );
                            }
                        }
                    }
                }
            }
            let y_point = extremum_point(self, other, x.bits, take_max);
            proof {
                if k > 0 {
                    let last = pts@[pts@.len() - 1];
                    assert(last.x.bits < x.bits);
                    assert(no_sign_flip(self@, other@, last.x.bits as int, x.bits as int));
                }
            }
            let ghost prev_pts = pts@;
            pts.push(y_point);
            proof {
                lemma_extremum_push(
                    prev_pts,
                    pts@,
                    y_point,
                    self@,
                    other@,
                    xs@,
                    k as int,
                    take_max,
                );
                assert forall|t: int| 0 <= t < k + 1 implies has_x(
                    pts@,
                    (#[trigger] xs@[t]).bits as int,
                ) by {
                    if t < k {
                        let w = choose|w: int|
                            0 <= w < prev_pts.len() && prev_pts[w].x.bits == xs@[t].bits;
                        assert(pts@[w].x.bits == xs@[t].bits);
                    } else {
                        assert(pts@[pts@.len() - 1].x.bits == xs@[t].bits);
                    }
                }
            }
            k = k + 1;
        }
        let r = PiecewiseLinear { points: pts };
        proof {
            assert forall|i: int| 0 <= i < self@.len() implies has_x(
                r@,
                (#[trigger] self@[i]).x.bits as int,
            ) by {
                assert(xs_of(self@)[i].bits == self@[i].x.bits);
                assert(contains_bits(xs@, self@[i].x.bits as int));
                let w = choose|w: int| 0 <= w < xs@.len() && xs@[w].bits == self@[i].x.bits;
                assert(has_x(r@, xs@[w].bits as int));
            }
            assert forall|j: int| 0 <= j < other@.len() implies has_x(
                r@,
                (#[trigger] other@[j]).x.bits as int,
            ) by {
                assert(xs_of(other@)[j].bits == other@[j].x.bits);
                assert(contains_bits(xs@, other@[j].x.bits as int));
                let w = choose|w: int| 0 <= w < xs@.len() && xs@[w].bits == other@[j].x.bits;
                assert(has_x(r@, xs@[w].bits as int));
            }
        }
        r
    }

    /// Pointwise maximum of two functions. At every breakpoint of the
    /// result, the result's value is the larger of the two functions'
    /// values, and no crossing is missed: between adjacent breakpoints of
    /// the result the exact difference of the two inputs never strictly
    /// changes sign, so every interior crossing of two linear pieces is
    /// pinned down by a breakpoint (to the unit of the representation).
    /// The clause is symmetric in the two arguments, so both argument
    /// orders yield the maximum on every interval.
    pub fn pointwise_max(&self, other: &PiecewiseLinear) -> (r: PiecewiseLinear)
        requires
            pl_wf(*self),
            pl_wf(*other),
        ensures
            pl_wf(r),
            forall|i: int| 0 <= i < self@.len() ==> has_x(r@, (#[trigger] self@[i]).x.bits as int),
            forall|j: int| 0 <= j < other@.len() ==> has_x(r@, (#[trigger] other@[j]).x.bits as int),
            forall|k: int|
                0 <= k < r@.len() ==> (#[trigger] r@[k]).y.bits == max_int(
                    spec_eval(self@, r@[k].x.bits as int),
                    spec_eval(other@, r@[k].x.bits as int),
                ),
            forall|k: int|
                0 <= k && k + 1 < r@.len() ==> no_sign_flip(
                    self@,
                    other@,
                    (#[trigger] r@[k]).x.bits as int,
                    r@[k + 1].x.bits as int,
                ),
    {
        self.pointwise_extremum(other, true)
    }

    /// Pointwise minimum of two functions; dual of [`Self::pointwise_max`],
    /// with the same no-missed-crossing guarantee.
    pub fn pointwise_min(&self, other: &PiecewiseLinear) -> (r: PiecewiseLinear)
        requires
            pl_wf(*self),
            pl_wf(*other),
        ensures
            pl_wf(r),
            forall|i: int| 0 <= i < self@.len() ==> has_x(r@, (#[trigger] self@[i]).x.bits as int),
            forall|j: int| 0 <= j < other@.len() ==> has_x(r@, (#[trigger] other@[j]).x.bits as int),
            forall|k: int|
                0 <= k < r@.len() ==> (#[trigger] r@[k]).y.bits == min_int(
                    spec_eval(self@, r@[k].x.bits as int),
                    spec_eval(other@, r@[k].x.bits as int),
                ),
            forall|k: int|
                0 <= k && k + 1 < r@.len() ==> no_sign_flip(
                    self@,
                    other@,
                    (#[trigger] r@[k]).x.bits as int,
                    r@[k + 1].x.bits as int,
                ),
    {
        self.pointwise_extremum(other, false)
    }

    /// Sample this function and two companions on the union of the three
    /// breakpoint sets: one sample per merged breakpoint, carrying all three
    /// functions' values there.
    pub fn map_merged_inflection_points(
        &self,
        g: &PiecewiseLinear,
        h: &PiecewiseLinear,
    ) -> (r: Vec<InflectionSample>)
        requires
            pl_wf(*self),
            pl_wf(*g),
            pl_wf(*h),
        ensures
            r@.len() >= 1,
            r@.len() <= self@.len() + g@.len() + h@.len(),
            xs_sorted(r@.map_values(|s: InflectionSample| s.x)),
            forall|k: int| 0 <= k < r@.len() ==> fx_wf((#[trigger] r@[k]).x),
            forall|i: int|
                0 <= i < self@.len() ==> contains_bits(
                    r@.map_values(|s: InflectionSample| s.x),
                    (#[trigger] self@[i]).x.bits as int,
                ),
            forall|k: int|
                0 <= k < r@.len() ==> (#[trigger] r@[k]).ya.bits == spec_eval(
                    self@,
                    r@[k].x.bits as int,
                ) && r@[k].yb.bits == spec_eval(g@, r@[k].x.bits as int) && r@[k].yc.bits
                    == spec_eval(h@, r@[k].x.bits as int),
            forall|k: int|
                0 <= k < r@.len() ==> has_x(self@, (#[trigger] r@[k]).x.bits as int) || has_x(
                    g@,
                    r@[k].x.bits as int,
                ) || has_x(h@, r@[k].x.bits as int),
    {
        let m1 = merge_sorted_xs(&g.xs_vec(), &h.xs_vec());
        let xs = merge_sorted_xs(&self.xs_vec(), &m1);
        let mut r: Vec<InflectionSample> = Vec::new();
        let mut k: usize = 0;
        while k < xs.len()
            invariant
                0 <= k <= xs@.len(),
                r@.len() == k,
                pl_wf(*self),
                pl_wf(*g),
                pl_wf(*h),
                xs_sorted(xs@),
                forall|t: int| 0 <= t < xs@.len() ==> fx_wf(#[trigger] xs@[t]),
                forall|t: int| 0 <= t < k ==> (#[trigger] r@[t]).x == xs@[t],
                forall|t: int|
                    0 <= t < k ==> (#[trigger] r@[t]).ya.bits == spec_eval(
                        self@,
                        r@[t].x.bits as int,
                    ) && r@[t].yb.bits == spec_eval(g@, r@[t].x.bits as int) && r@[t].yc.bits
                        == spec_eval(h@, r@[t].x.bits as int),
            decreases xs@.len() - k,
        {
            let x = xs[k];
            let ya = self.evaluate(x);
            let yb = g.evaluate(x);
            let yc = h.evaluate(x);
            r.push(InflectionSample { x, ya, yb, yc });
            k = k + 1;
        }
        proof {
            let rx = r@.map_values(|s: InflectionSample| s.x);
            assert(rx.len() == xs@.len());
            assert(forall|t: int| 0 <= t < rx.len() ==> #[trigger] rx[t] == xs@[t]);
            assert(rx =~= xs@);
            assert forall|i: int| 0 <= i < self@.len() implies contains_bits(
                rx,
                (#[trigger] self@[i]).x.bits as int,
            ) by {
                assert(xs_of(self@)[i].bits == self@[i].x.bits);
            }
            assert forall|k2: int| 0 <= k2 < r@.len() implies has_x(
                self@,
                (#[trigger] r@[k2]).x.bits as int,
            ) || has_x(g@, r@[k2].x.bits as int) || has_x(h@, r@[k2].x.bits as int) by {
                assert(r@[k2].x == xs@[k2]);
                if contains_bits(xs_of(self@), xs@[k2].bits as int) {
                    let w = choose|w: int|
                        0 <= w < xs_of(self@).len() && xs_of(self@)[w].bits == xs@[k2].bits;
                    assert(self@[w].x.bits == xs@[k2].bits);
                } else {
                    assert(contains_bits(m1@, xs@[k2].bits as int));
                    if contains_bits(xs_of(g@), xs@[k2].bits as int) {
                        let w = choose|w: int|
                            0 <= w < xs_of(g@).len() && xs_of(g@)[w].bits == xs@[k2].bits;
                        assert(g@[w].x.bits == xs@[k2].bits);
                    } else {
                        let w = choose|w: int|
                            0 <= w < xs_of(h@).len() && xs_of(h@)[w].bits == xs@[k2].bits;
                        assert(h@[w].x.bits == xs@[k2].bits);
                    }
                }
            }
        }
        r
    }

    /// The linear piece enclosing `x`: the segment between the two
    /// breakpoints around `x`, or a constant piece beyond either end.
    pub fn piece_at(&self, x: Fx) -> (r: LinearPiece)
        requires
            pl_wf(*self),
            fx_wf(x),
        ensures
            fx_wf(r.x0) && fx_wf(r.y0) && fx_wf(r.x1) && fx_wf(r.y1),
            r.x0.bits <= r.x1.bits,
            piece_eval(r, x.bits as int) == spec_eval(self@, x.bits as int),
    {
        let c = self.partition_point(x);
        if c == 0 {
            let p = self.points[0];
            proof {
                lemma_eval_left(self@, x.bits as int);
            }
            LinearPiece { x0: p.x, y0: p.y, x1: p.x, y1: p.y }
        } else if c == self.points.len() {
            let p = self.points[self.points.len() - 1];
            proof {
                lemma_eval_segment(self@, x.bits as int, self@.len() - 1);
            }
            LinearPiece { x0: p.x, y0: p.y, x1: p.x, y1: p.y }
        } else {
            let p0 = self.points[c - 1];
            let p1 = self.points[c];
            proof {
                lemma_eval_segment(self@, x.bits as int, c - 1);
            }
            LinearPiece { x0: p0.x, y0: p0.y, x1: p1.x, y1: p1.y }
        }
    }

    /// Evaluate the function at `x`: interpolate on the enclosing segment,
    /// clamped to the nearest endpoint outside the breakpoint range.
    pub fn evaluate(&self, x: Fx) -> (r: Fx)
        requires
            pl_wf(*self),
            fx_wf(x),
        ensures
            r.bits == spec_eval(self@, x.bits as int),
            fx_wf(r),
    {
        let c = self.partition_point(x);
        if c == 0 {
            proof {
                lemma_eval_left(self@, x.bits as int);
            }
            self.points[0].y
        } else if c == self.points.len() {
            proof {
                lemma_eval_segment(self@, x.bits as int, self@.len() - 1);
            }
            self.points[self.points.len() - 1].y
        } else {
            proof {
                lemma_eval_segment(self@, x.bits as int, c - 1);
            }
            interp_exec(self.points[c - 1], self.points[c], x)
        }
    }
}

} // verus!
