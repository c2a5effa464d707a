//! Axis-aligned bounding boxes in two dimensions.

use vstd::prelude::*;
use crate::key::SpatialKey;

verus! {

/// An axis-aligned box, given by its corner of least and its corner of
/// greatest coordinates. Both ends of each axis belong to the box.
///
/// A box is meant to have `min[i] <= max[i]` on each axis, see
/// [`Volume::valid`]. Nothing enforces it: a box that is not valid contains
/// no point.
pub struct Volume<T: SpatialKey> {
    pub min: [T; 2],
    pub max: [T; 2],
}

impl<T: SpatialKey> Clone for Volume<T> {
    fn clone(&self) -> (r: Self)
        ensures
            r == *self,
    {
        *self
    }
}

impl<T: SpatialKey> Copy for Volume<T> {

}

impl<T: SpatialKey> Volume<T> {
    /// The corners are in order on each axis.
    pub open spec fn valid(self) -> bool {
        &&& self.min[0].leq_spec(self.max[0])
        &&& self.min[1].leq_spec(self.max[1])
    }

    /// `point` lies in the box, its faces included.
    pub open spec fn contains_spec(self, point: [T; 2]) -> bool {
        &&& self.min[0].leq_spec(point[0]) && point[0].leq_spec(self.max[0])
        &&& self.min[1].leq_spec(point[1]) && point[1].leq_spec(self.max[1])
    }

    /// The two boxes overlap on each axis: on none of them does one box end
    /// strictly before the other begins.
    pub open spec fn intersects_spec(self, other: Volume<T>) -> bool {
        &&& self.min[0].leq_spec(other.max[0]) && other.min[0].leq_spec(self.max[0])
        &&& self.min[1].leq_spec(other.max[1]) && other.min[1].leq_spec(self.max[1])
    }

    /// The point halfway between the two corners.
    pub open spec fn center_spec(self) -> [T; 2] {
        [self.min[0].midpoint_spec(self.max[0]), self.min[1].midpoint_spec(self.max[1])]
    }

    /// The `k`-th of the four boxes that the box splits into at its center.
    /// Bit `i` of `k` chooses, on axis `i`, the half from `min[i]` to the
    /// center (bit clear) or the half from the center to `max[i]` (bit set).
    pub open spec fn quadrant_spec(self, k: int) -> Volume<T> {
        let mid = self.center_spec();
        let east = k % 2 == 1;
        let north = k / 2 == 1;
        Volume {
            min: [
                if east { mid[0] } else { self.min[0] },
                if north { mid[1] } else { self.min[1] },
            ],
            max: [
                if east { self.max[0] } else { mid[0] },
                if north { self.max[1] } else { mid[1] },
            ],
        }
    }

    /// The box between the corners `min` and `max`.
    pub fn new(min: [T; 2], max: [T; 2]) -> (r: Self)
        ensures
            r.min == min,
            r.max == max,
    {
        Volume { min, max }
    }

    /// Whether `point` lies in the box, its faces included.
    pub fn contains(&self, point: &[T; 2]) -> (r: bool)
        ensures
            r == self.contains_spec(*point),
    {
        self.min[0].leq(&point[0]) && point[0].leq(&self.max[0]) && self.min[1].leq(&point[1])
            && point[1].leq(&self.max[1])
    }

    /// Whether the box and `other` have a point of each axis in common.
    pub fn intersects(&self, other: &Volume<T>) -> (r: bool)
        ensures
            r == self.intersects_spec(*other),
    {
        let apart_x = !self.min[0].leq(&other.max[0]) || !other.min[0].leq(&self.max[0]);
        let apart_y = !self.min[1].leq(&other.max[1]) || !other.min[1].leq(&self.max[1]);
        !(apart_x || apart_y)
    }

    /// The point halfway between the two corners.
    pub fn center(&self) -> (r: [T; 2])
        ensures
            r == self.center_spec(),
    {
        let r = [self.min[0].midpoint(self.max[0]), self.min[1].midpoint(self.max[1])];
        assert(r =~= self.center_spec());
        r
    }

    /// The `k`-th of the four boxes that the box splits into at its center.
    pub fn quadrant(&self, k: usize) -> (r: Self)
        requires
            k < 4,
        ensures
            r == self.quadrant_spec(k as int),
    {
        let mid = self.center();
        let east = k % 2 == 1;
        let north = k / 2 == 1;
        let min = [
            if east { mid[0] } else { self.min[0] },
            if north { mid[1] } else { self.min[1] },
        ];
        let max = [
            if east { self.max[0] } else { mid[0] },
            if north { self.max[1] } else { mid[1] },
        ];
        assert(min =~= self.quadrant_spec(k as int).min);
        assert(max =~= self.quadrant_spec(k as int).max);
        Volume { min, max }
    }

    /// A point that two boxes contain lies where they overlap.
    pub proof fn lemma_common_point_intersects(self, other: Volume<T>, point: [T; 2])
        requires
            self.contains_spec(point),
            other.contains_spec(point),
        ensures
            self.intersects_spec(other),
    {
        T::lemma_leq_transitive(self.min[0], point[0], other.max[0]);
        T::lemma_leq_transitive(other.min[0], point[0], self.max[0]);
        T::lemma_leq_transitive(self.min[1], point[1], other.max[1]);
        T::lemma_leq_transitive(other.min[1], point[1], self.max[1]);
    }

    /// Each quadrant of a valid box is a valid box inside it.
    pub proof fn lemma_quadrant_inside(self, k: int, point: [T; 2])
        requires
            self.valid(),
            0 <= k < 4,
        ensures
            self.quadrant_spec(k).valid(),
            self.quadrant_spec(k).contains_spec(point) ==> self.contains_spec(point),
    {
        let mid = self.center_spec();
        T::lemma_midpoint_between(self.min[0], self.max[0]);
        T::lemma_midpoint_between(self.min[1], self.max[1]);
        if self.quadrant_spec(k).contains_spec(point) {
            if k % 2 == 1 {
                T::lemma_leq_transitive(self.min[0], mid[0], point[0]);
            } else {
                T::lemma_leq_transitive(point[0], mid[0], self.max[0]);
            }
            if k / 2 == 1 {
                T::lemma_leq_transitive(self.min[1], mid[1], point[1]);
            } else {
                T::lemma_leq_transitive(point[1], mid[1], self.max[1]);
            }
        }
    }

    /// The quadrants of a box cover it: each of its points lies in one of
    /// them.
    pub proof fn lemma_quadrants_cover(self, point: [T; 2]) -> (k: int)
        requires
            self.contains_spec(point),
        ensures
            0 <= k < 4,
            self.quadrant_spec(k).contains_spec(point),
    {
        let mid = self.center_spec();
        T::lemma_leq_total(point[0], mid[0]);
        T::lemma_leq_total(point[1], mid[1]);
        let east: int = if point[0].leq_spec(mid[0]) { 0 } else { 1 };
        let north: int = if point[1].leq_spec(mid[1]) { 0 } else { 1 };
        east + 2 * north
    }

    /// Two different quadrants of a box meet only in its center planes: on an
    /// axis on which they are different halves, a point of both has the
    /// coordinate of the center.
    pub proof fn lemma_quadrants_meet_at_center(self, j: int, k: int, point: [T; 2]) -> (axis: int)
        requires
            0 <= j < 4,
            0 <= k < 4,
            j != k,
            self.quadrant_spec(j).contains_spec(point),
            self.quadrant_spec(k).contains_spec(point),
        ensures
            0 <= axis < 2,
            point[axis].leq_spec(self.center_spec()[axis]),
            self.center_spec()[axis].leq_spec(point[axis]),
    {
        if j % 2 != k % 2 { 0 } else { 1 }
    }
}

} // verus!
