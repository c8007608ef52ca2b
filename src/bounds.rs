use vstd::prelude::*;

use crate::order_key::{INFINITY_KEY, NEG_INFINITY_KEY};

verus! {

/// A point whose three coordinates are carried as order keys.
#[derive(Clone, Copy, Debug, PartialEq, Eq, Structural)]
pub struct OrderedPoint {
    pub x: u32,
    pub y: u32,
    pub z: u32,
}

impl OrderedPoint {
    /// Coordinate `axis`: 0 is x, 1 is y, anything else z.
    pub open spec fn coord(self, axis: int) -> u32 {
        if axis == 0 {
            self.x
        } else if axis == 1 {
            self.y
        } else {
            self.z
        }
    }

    pub fn new(x: u32, y: u32, z: u32) -> (r: OrderedPoint)
        ensures
            r.x == x,
            r.y == y,
            r.z == z,
    {
        OrderedPoint { x, y, z }
    }

    /// The coordinate along `axis` (0 is x, 1 is y, any other value z).
    pub fn get(&self, axis: usize) -> (r: u32)
        ensures
            r == self.coord(axis as int),
    {
        if axis == 0 {
            self.x
        } else if axis == 1 {
            self.y
        } else {
            self.z
        }
    }
}

/// An axis-aligned box given by its two opposite corners.
#[derive(Clone, Copy, Debug, PartialEq, Eq, Structural)]
pub struct AABB {
    pub min: OrderedPoint,
    pub max: OrderedPoint,
}

/// `v` is the least of `init` and every element of `s`.
pub open spec fn is_least(v: u32, init: u32, s: Seq<u32>) -> bool {
    &&& v <= init
    &&& forall|i: int| 0 <= i < s.len() ==> v <= #[trigger] s[i]
    &&& (v == init || exists|i: int| 0 <= i < s.len() && v == s[i])
}

/// `v` is the greatest of `init` and every element of `s`.
pub open spec fn is_greatest(v: u32, init: u32, s: Seq<u32>) -> bool {
    &&& v >= init
    &&& forall|i: int| 0 <= i < s.len() ==> v >= #[trigger] s[i]
    &&& (v == init || exists|i: int| 0 <= i < s.len() && v == s[i])
}

/// The coordinates along `axis` of a sequence of points.
pub open spec fn coords(points: Seq<OrderedPoint>, axis: int) -> Seq<u32> {
    points.map_values(|p: OrderedPoint| p.coord(axis))
}

pub open spec fn min_u32(a: u32, b: u32) -> u32 {
    if a <= b {
        a
    } else {
        b
    }
}

pub open spec fn max_u32(a: u32, b: u32) -> u32 {
    if a >= b {
        a
    } else {
        b
    }
}

impl AABB {
    /// `self` contains `other`: along every axis its interval covers the other's.
    pub open spec fn encloses(self, other: AABB) -> bool {
        &&& self.min.x <= other.min.x
        &&& self.min.y <= other.min.y
        &&& self.min.z <= other.min.z
        &&& other.max.x <= self.max.x
        &&& other.max.y <= self.max.y
        &&& other.max.z <= self.max.z
    }

    pub fn new(min: OrderedPoint, max: OrderedPoint) -> (r: AABB)
        ensures
            r.min == min,
            r.max == max,
    {
        AABB { min, max }
    }

    /// The tightest box around `points`. With no points the box is inverted:
    /// its minimum is positive infinity and its maximum negative infinity.
    pub fn from_points(points: &Vec<OrderedPoint>) -> (r: AABB)
        ensures
            forall|a: int|
                0 <= a < 3 ==> is_least(#[trigger] r.min.coord(a), INFINITY_KEY, coords(points@, a)),
            forall|a: int|
                0 <= a < 3 ==> is_greatest(#[trigger] r.max.coord(a), NEG_INFINITY_KEY, coords(points@, a)),
    {
        let mut min = OrderedPoint { x: INFINITY_KEY, y: INFINITY_KEY, z: INFINITY_KEY };
        let mut max = OrderedPoint { x: NEG_INFINITY_KEY, y: NEG_INFINITY_KEY, z: NEG_INFINITY_KEY };
        let mut i: usize = 0;
        while i < points.len()
            invariant
                i <= points.len(),
                forall|a: int|
                    0 <= a < 3 ==> is_least(
                        #[trigger] min.coord(a),
                        INFINITY_KEY,
                        coords(points@.subrange(0, i as int), a),
                    ),
                forall|a: int|
                    0 <= a < 3 ==> is_greatest(
                        #[trigger] max.coord(a),
                        NEG_INFINITY_KEY,
                        coords(points@.subrange(0, i as int), a),
                    ),
            decreases points.len() - i,
        {
            let p = points[i];
            let ghost old_min = min;
            let ghost old_max = max;
            if p.x < min.x {
                min.x = p.x;
            }
            if p.y < min.y {
                min.y = p.y;
            }
            if p.z < min.z {
                min.z = p.z;
            }
            if p.x > max.x {
                max.x = p.x;
            }
            if p.y > max.y {
                max.y = p.y;
            }
            if p.z > max.z {
                max.z = p.z;
            }
            proof {
                let prev = points@.subrange(0, i as int);
                let next = points@.subrange(0, i as int + 1);
                assert forall|a: int| 0 <= a < 3 implies is_least(
                    #[trigger] min.coord(a),
                    INFINITY_KEY,
                    coords(next, a),
                ) && is_greatest(max.coord(a), NEG_INFINITY_KEY, coords(next, a)) by {
                    assert(is_least(old_min.coord(a), INFINITY_KEY, coords(prev, a)));
                    assert(is_greatest(old_max.coord(a), NEG_INFINITY_KEY, coords(prev, a)));
                    assert(coords(next, a).len() == i + 1);
                    assert forall|k: int| 0 <= k < i implies coords(next, a)[k] == coords(prev, a)[k] by {}
                    assert(coords(next, a)[i as int] == p.coord(a));
                    if old_min.coord(a) != INFINITY_KEY && min.coord(a) == old_min.coord(a) {
                        let w = choose|k: int| 0 <= k < prev.len() && old_min.coord(a) == coords(prev, a)[k];
                        assert(coords(next, a)[w] == min.coord(a));
                    }
                    if old_max.coord(a) != NEG_INFINITY_KEY && max.coord(a) == old_max.coord(a) {
                        let w = choose|k: int| 0 <= k < prev.len() && old_max.coord(a) == coords(prev, a)[k];
                        assert(coords(next, a)[w] == max.coord(a));
                    }
                }
            }
            i = i + 1;
        }
        proof {
            assert(points@.subrange(0, i as int) =~= points@);
        }
        AABB { min, max }
    }

    /// The smallest box that holds both boxes: component-wise minimum of the
    /// minima and maximum of the maxima.
    pub fn union(&self, other: &AABB) -> (r: AABB)
        ensures
            forall|a: int|
                0 <= a < 3 ==> #[trigger] r.min.coord(a) == min_u32(self.min.coord(a), other.min.coord(a)),
            forall|a: int|
                0 <= a < 3 ==> #[trigger] r.max.coord(a) == max_u32(self.max.coord(a), other.max.coord(a)),
            r.encloses(*self),
            r.encloses(*other),
    {
        let min = OrderedPoint {
            x: if self.min.x <= other.min.x { self.min.x } else { other.min.x },
            y: if self.min.y <= other.min.y { self.min.y } else { other.min.y },
            z: if self.min.z <= other.min.z { self.min.z } else { other.min.z },
        };
        let max = OrderedPoint {
            x: if self.max.x >= other.max.x { self.max.x } else { other.max.x },
            y: if self.max.y >= other.max.y { self.max.y } else { other.max.y },
            z: if self.max.z >= other.max.z { self.max.z } else { other.max.z },
        };
        AABB { min, max }
    }
}

} // verus!
