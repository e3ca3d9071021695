//! Axis-aligned boxes over fixed-point coordinates.

use vstd::prelude::*;

use crate::fixed::{v2_wf, Fx, Vec2Fx, FX_MAX};

verus! {

/// An axis-aligned box, lower-left inclusive, upper-right exclusive.
/// The empty box has `min` above `max` in both coordinates.
#[derive(Clone, Copy, PartialEq, Eq, Structural, Debug)]
pub struct AABox {
    pub min: Vec2Fx,
    pub max: Vec2Fx,
}

impl AABox {
    /// The box with the given corners.
    pub fn new(min: Vec2Fx, max: Vec2Fx) -> (r: AABox)
        ensures
            r.min == min,
            r.max == max,
    {
        AABox { min, max }
    }

    /// The empty box: the extreme sentinel corners, inverted.
    pub fn empty() -> (r: AABox)
        ensures
            r.min.x.bits == FX_MAX && r.min.y.bits == FX_MAX,
            r.max.x.bits == -FX_MAX && r.max.y.bits == -FX_MAX,
    {
        AABox {
            min: Vec2Fx { x: Fx { bits: FX_MAX }, y: Fx { bits: FX_MAX } },
            max: Vec2Fx { x: Fx { bits: -FX_MAX }, y: Fx { bits: -FX_MAX } },
        }
    }

    /// Whether the box contains no point.
    pub fn is_empty(&self) -> (r: bool)
        ensures
            r == (self.min.x.bits > self.max.x.bits && self.min.y.bits > self.max.y.bits),
    {
        self.min.x.bits > self.max.x.bits && self.min.y.bits > self.max.y.bits
    }

    /// The smallest box containing this one and `point`.
    pub fn expanded_to_contain(self, point: Vec2Fx) -> (r: AABox)
        ensures
            r.min.x.bits == if self.min.x.bits <= point.x.bits {
                self.min.x.bits
            } else {
                point.x.bits
            },
            r.min.y.bits == if self.min.y.bits <= point.y.bits {
                self.min.y.bits
            } else {
                point.y.bits
            },
            r.max.x.bits == if self.max.x.bits >= point.x.bits {
                self.max.x.bits
            } else {
                point.x.bits
            },
            r.max.y.bits == if self.max.y.bits >= point.y.bits {
                self.max.y.bits
            } else {
                point.y.bits
            },
    {
        AABox {
            min: Vec2Fx { x: self.min.x.min(point.x), y: self.min.y.min(point.y) },
            max: Vec2Fx { x: self.max.x.max(point.x), y: self.max.y.max(point.y) },
        }
    }

    /// The smallest box containing all the given points: every point is
    /// inside, and each of the four bounds is attained by some point. No
    /// points give the empty box.
    pub fn containing(points: &Vec<Vec2Fx>) -> (r: AABox)
        requires
            forall|i: int| 0 <= i < points@.len() ==> v2_wf(#[trigger] points@[i]),
        ensures
            forall|i: int|
                0 <= i < points@.len() ==> r.min.x.bits <= (#[trigger] points@[i]).x.bits
                    <= r.max.x.bits && r.min.y.bits <= points@[i].y.bits <= r.max.y.bits,
            points@.len() > 0 ==> r.min.x.bits <= r.max.x.bits && r.min.y.bits <= r.max.y.bits,
            points@.len() > 0 ==> {
                &&& exists|i: int| 0 <= i < points@.len() && (#[trigger] points@[i]).x.bits == r.min.x.bits
                &&& exists|i: int| 0 <= i < points@.len() && (#[trigger] points@[i]).x.bits == r.max.x.bits
                &&& exists|i: int| 0 <= i < points@.len() && (#[trigger] points@[i]).y.bits == r.min.y.bits
                &&& exists|i: int| 0 <= i < points@.len() && (#[trigger] points@[i]).y.bits == r.max.y.bits
            },
            points@.len() == 0 ==> r.min.x.bits == FX_MAX && r.min.y.bits == FX_MAX
                && r.max.x.bits == -FX_MAX && r.max.y.bits == -FX_MAX,
    {
        let mut r = AABox::empty();
        let mut i: usize = 0;
        while i < points.len()
            invariant
                0 <= i <= points@.len(),
                forall|j: int|
                    0 <= j < i ==> r.min.x.bits <= (#[trigger] points@[j]).x.bits <= r.max.x.bits
                        && r.min.y.bits <= points@[j].y.bits <= r.max.y.bits,
                i > 0 ==> r.min.x.bits <= r.max.x.bits && r.min.y.bits <= r.max.y.bits,
                i > 0 ==> {
                    &&& exists|j: int| 0 <= j < i && (#[trigger] points@[j]).x.bits == r.min.x.bits
                    &&& exists|j: int| 0 <= j < i && (#[trigger] points@[j]).x.bits == r.max.x.bits
                    &&& exists|j: int| 0 <= j < i && (#[trigger] points@[j]).y.bits == r.min.y.bits
                    &&& exists|j: int| 0 <= j < i && (#[trigger] points@[j]).y.bits == r.max.y.bits
                },
                i == 0 ==> r.min.x.bits == FX_MAX && r.min.y.bits == FX_MAX && r.max.x.bits
                    == -FX_MAX && r.max.y.bits == -FX_MAX,
                forall|j: int| 0 <= j < points@.len() ==> v2_wf(#[trigger] points@[j]),
            decreases points@.len() - i,
        {
            let ghost prev = r;
            r = r.expanded_to_contain(points[i]);
            proof {
                let pi = points@[i as int];
                assert(exists|j: int| 0 <= j < i + 1 && (#[trigger] points@[j]).x.bits
                    == r.min.x.bits) by {
                    if r.min.x.bits == pi.x.bits {
                        assert(points@[i as int].x.bits == r.min.x.bits);
                    } else if i == 0 {
                        assert(false);
                    } else {
                        let w = choose|j: int|
                            0 <= j < i && (#[trigger] points@[j]).x.bits == prev.min.x.bits;
                        assert(points@[w].x.bits == r.min.x.bits);
                    }
                }
                assert(exists|j: int| 0 <= j < i + 1 && (#[trigger] points@[j]).x.bits
                    == r.max.x.bits) by {
                    if r.max.x.bits == pi.x.bits {
                        assert(points@[i as int].x.bits == r.max.x.bits);
                    } else if i == 0 {
                        assert(false);
                    } else {
                        let w = choose|j: int|
                            0 <= j < i && (#[trigger] points@[j]).x.bits == prev.max.x.bits;
                        assert(points@[w].x.bits == r.max.x.bits);
                    }
                }
                assert(exists|j: int| 0 <= j < i + 1 && (#[trigger] points@[j]).y.bits
                    == r.min.y.bits) by {
                    if r.min.y.bits == pi.y.bits {
                        assert(points@[i as int].y.bits == r.min.y.bits);
                    } else if i == 0 {
                        assert(false);
                    } else {
                        let w = choose|j: int|
                            0 <= j < i && (#[trigger] points@[j]).y.bits == prev.min.y.bits;
                        assert(points@[w].y.bits == r.min.y.bits);
                    }
                }
                assert(exists|j: int| 0 <= j < i + 1 && (#[trigger] points@[j]).y.bits
                    == r.max.y.bits) by {
                    if r.max.y.bits == pi.y.bits {
                        assert(points@[i as int].y.bits == r.max.y.bits);
                    } else if i == 0 {
                        assert(false);
                    } else {
                        let w = choose|j: int|
                            0 <= j < i && (#[trigger] points@[j]).y.bits == prev.max.y.bits;
                        assert(points@[w].y.bits == r.max.y.bits);
                    }
                }
            }
            i = i + 1;
        }
        r
    }

    /// Whether the box contains `point` (lower edge inclusive, upper edge
    /// exclusive).
    pub fn contains(&self, point: Vec2Fx) -> (r: bool)
        ensures
            r == (point.x.bits < self.max.x.bits && point.y.bits < self.max.y.bits
                && self.min.x.bits <= point.x.bits && self.min.y.bits <= point.y.bits),
    {
        point.x.bits < self.max.x.bits && point.y.bits < self.max.y.bits && !(point.x.bits
            < self.min.x.bits) && !(point.y.bits < self.min.y.bits)
    }

    /// The four corners, counter-clockwise from `min`.
    pub fn corners(&self) -> (r: [Vec2Fx; 4])
        ensures
            r@[0] == self.min,
            r@[1] == (Vec2Fx { x: self.min.x, y: self.max.y }),
            r@[2] == self.max,
            r@[3] == (Vec2Fx { x: self.max.x, y: self.min.y }),
    {
        [
            self.min,
            Vec2Fx { x: self.min.x, y: self.max.y },
            self.max,
            Vec2Fx { x: self.max.x, y: self.min.y },
        ]
    }
}

} // verus!
