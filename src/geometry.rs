//! Two-dimensional geometry primitives.

use vstd::prelude::*;

verus! {

/// A point in the plane.
#[derive(Clone, Copy, Debug, PartialEq, Eq, Hash, Structural)]
pub struct Point<T> {
    pub x: T,
    pub y: T,
}

impl<T> Point<T> {
    pub fn new(x: T, y: T) -> (p: Point<T>)
        ensures
            p.x == x,
            p.y == y,
    {
        Point { x, y }
    }
}

/// An axis-aligned bounding box, both corners included.
#[derive(Clone, Copy, Debug, PartialEq, Eq, Structural)]
pub struct AABB<T> {
    pub min: Point<T>,
    pub max: Point<T>,
}

/// `b` is the tightest box around the points of `s`; an empty sequence
/// gives the inverted box from the largest to the smallest integer.
pub open spec fn is_bounding_box(s: Seq<Point<i32>>, b: AABB<i32>) -> bool {
    if s.len() == 0 {
        b.min.x == i32::MAX && b.min.y == i32::MAX && b.max.x == i32::MIN && b.max.y == i32::MIN
    } else {
        &&& forall|i: int|
            0 <= i < s.len() ==> b.min.x <= #[trigger] s[i].x <= b.max.x && b.min.y <= s[i].y
                <= b.max.y
        &&& exists|i: int| 0 <= i < s.len() && #[trigger] s[i].x == b.min.x
        &&& exists|i: int| 0 <= i < s.len() && #[trigger] s[i].x == b.max.x
        &&& exists|i: int| 0 <= i < s.len() && #[trigger] s[i].y == b.min.y
        &&& exists|i: int| 0 <= i < s.len() && #[trigger] s[i].y == b.max.y
    }
}

impl<T> AABB<T> {
    pub fn new(min: Point<T>, max: Point<T>) -> (b: AABB<T>)
        ensures
            b.min == min,
            b.max == max,
    {
        AABB { min, max }
    }
}

impl AABB<i32> {
    /// The bounding box of the corners of a polygon.
    pub fn from_polygon(polygon: &Vec<Point<i32>>) -> (b: AABB<i32>)
        ensures
            is_bounding_box(polygon@, b),
    {
        let mut xmin: i32 = i32::MAX;
        let mut xmax: i32 = i32::MIN;
        let mut ymin: i32 = i32::MAX;
        let mut ymax: i32 = i32::MIN;
        let mut k: usize = 0;
        while k < polygon.len()
            invariant
                k <= polygon.len(),
                k == 0 ==> xmin == i32::MAX && ymin == i32::MAX && xmax == i32::MIN && ymax
                    == i32::MIN,
                is_bounding_box(
                    polygon@.subrange(0, k as int),
                    AABB { min: Point { x: xmin, y: ymin }, max: Point { x: xmax, y: ymax } },
                ),
            decreases polygon.len() - k,
        {
            let p = polygon[k];
            let ghost s = polygon@.subrange(0, k as int);
            let ghost s2 = polygon@.subrange(0, k + 1);
            assert(s2 =~= s.push(p));
            if p.x < xmin {
                xmin = p.x;
            }
            if p.x > xmax {
                xmax = p.x;
            }
            if p.y < ymin {
                ymin = p.y;
            }
            if p.y > ymax {
                ymax = p.y;
            }
            k = k + 1;
            proof {
                assert(s2[k - 1] == p);
                if k > 1 {
                    let b0 = AABB { min: Point { x: xmin, y: ymin }, max: Point { x: xmax, y: ymax } };
                    assert forall|i: int| 0 <= i < s2.len() implies b0.min.x <= #[trigger] s2[i].x
                        <= b0.max.x && b0.min.y <= s2[i].y <= b0.max.y by {
                        if i < k - 1 {
                            assert(s2[i] == s[i]);
                        }
                    }
                }
            }
        }
        assert(polygon@.subrange(0, polygon.len() as int) =~= polygon@);
        AABB { min: Point { x: xmin, y: ymin }, max: Point { x: xmax, y: ymax } }
    }

    /// The bounding box of a collection of points.
    pub fn from_points(points: Vec<Point<i32>>) -> (b: AABB<i32>)
        ensures
            is_bounding_box(points@, b),
    {
        AABB::from_polygon(&points)
    }

    pub fn contains(&self, p: &Point<i32>) -> (r: bool)
        ensures
            r == (self.min.x <= p.x <= self.max.x && self.min.y <= p.y <= self.max.y),
    {
        p.x >= self.min.x && p.x <= self.max.x && p.y >= self.min.y && p.y <= self.max.y
    }

    pub fn contains_xy(&self, x: i32, y: i32) -> (r: bool)
        ensures
            r == (self.min.x <= x <= self.max.x && self.min.y <= y <= self.max.y),
    {
        x >= self.min.x && x <= self.max.x && y >= self.min.y && y <= self.max.y
    }
}

} // verus!
