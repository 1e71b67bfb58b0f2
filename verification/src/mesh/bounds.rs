//! Points, and the box around them.
use vstd::prelude::*;

use super::single::Single;

verus! {

/// A point or a vector.
#[derive(Clone, Copy, PartialEq, Eq, Structural, Debug)]
pub struct Point {
    pub x: Single,
    pub y: Single,
    pub z: Single,
}

impl Point {
    /// Whether every coordinate is zero.
    pub open spec fn spec_is_zero(self) -> bool {
        self.x.spec_is_zero() && self.y.spec_is_zero() && self.z.spec_is_zero()
    }

    /// Whether every coordinate is a number other than the infinities.
    pub open spec fn spec_is_finite(self) -> bool {
        self.x.spec_is_finite() && self.y.spec_is_finite() && self.z.spec_is_finite()
    }

    /// Whether every coordinate is zero.
    pub fn is_zero(self) -> (r: bool)
        ensures
            r == self.spec_is_zero(),
    {
        self.x.is_zero() && self.y.is_zero() && self.z.is_zero()
    }

    /// Whether every coordinate is a number other than the infinities.
    pub fn is_finite(self) -> (r: bool)
        ensures
            r == self.spec_is_finite(),
    {
        self.x.is_finite() && self.y.is_finite() && self.z.is_finite()
    }
}

/// The smallest and the largest of the coordinates along one axis.
#[derive(Clone, Copy, PartialEq, Eq, Structural, Debug)]
pub struct Range {
    pub min: Single,
    pub max: Single,
}

/// A range that is stretched to take in a coordinate. What is not a number changes nothing.
pub open spec fn stretched(r: Range, v: Single) -> Range {
    if v.spec_lt(r.min) {
        Range { min: v, max: r.max }
    } else if r.max.spec_lt(v) {
        Range { min: r.min, max: v }
    } else {
        r
    }
}

/// A range that is stretched to take in several coordinates.
pub open spec fn stretched_over(r: Range, vs: Seq<Single>) -> Range
    decreases vs.len(),
{
    if vs.len() == 0 {
        r
    } else {
        stretched(stretched_over(r, vs.drop_last()), vs.last())
    }
}

/// A box with its sides along the axes.
#[derive(Clone, Copy, PartialEq, Eq, Structural, Debug)]
pub struct BoundingBox {
    pub min: Point,
    pub max: Point,
}

impl BoundingBox {
    /// The extent along the x axis.
    pub open spec fn x(self) -> Range {
        Range { min: self.min.x, max: self.max.x }
    }

    /// The extent along the y axis.
    pub open spec fn y(self) -> Range {
        Range { min: self.min.y, max: self.max.y }
    }

    /// The extent along the z axis.
    pub open spec fn z(self) -> Range {
        Range { min: self.min.z, max: self.max.z }
    }

    /// The box that takes in one more point.
    pub open spec fn expanded(self, p: Point) -> BoundingBox {
        let (x, y, z) = (stretched(self.x(), p.x), stretched(self.y(), p.y), stretched(self.z(), p.z));
        BoundingBox {
            min: Point { x: x.min, y: y.min, z: z.min },
            max: Point { x: x.max, y: y.max, z: z.max },
        }
    }

    /// The box around a single point.
    pub fn new(vert: &Point) -> (r: BoundingBox)
        ensures
            r == (BoundingBox { min: *vert, max: *vert }),
    {
        BoundingBox { min: *vert, max: *vert }
    }

    /// Makes the box take in a point.
    pub fn expand(&mut self, vert: &Point)
        ensures
            *final(self) == old(self).expanded(*vert),
    {
        if vert.x.lt(self.min.x) {
            self.min.x = vert.x;
        } else if self.max.x.lt(vert.x) {
            self.max.x = vert.x;
        }
        if vert.y.lt(self.min.y) {
            self.min.y = vert.y;
        } else if self.max.y.lt(vert.y) {
            self.max.y = vert.y;
        }
        if vert.z.lt(self.min.z) {
            self.min.z = vert.z;
        } else if self.max.z.lt(vert.z) {
            self.max.z = vert.z;
        }
    }
}

/// The box that starts at a point and takes in others.
pub open spec fn bounds_from(start: Point, points: Seq<Point>) -> BoundingBox
    decreases points.len(),
{
    if points.len() == 0 {
        BoundingBox { min: start, max: start }
    } else {
        bounds_from(start, points.drop_last()).expanded(points.last())
    }
}

// ---------------------------------------------------------------------------
// Laws
// ---------------------------------------------------------------------------

/// Whether a coordinate is inside a range.
pub open spec fn in_range(r: Range, v: Single) -> bool {
    r.min.spec_le(v) && v.spec_le(r.max)
}

/// A range that starts at a number takes in every number that it is stretched over, and ends at
/// numbers that it has met.
pub proof fn law_range(start: Single, vs: Seq<Single>)
    requires
        !start.spec_is_nan(),
    ensures
        ({
            let r = stretched_over(Range { min: start, max: start }, vs);
            &&& in_range(r, start)
            &&& forall|i: int| 0 <= i < vs.len() && !vs[i].spec_is_nan() ==> in_range(
                r,
                #[trigger] vs[i],
            )
            &&& r.min == start || vs.contains(r.min)
            &&& r.max == start || vs.contains(r.max)
        }),
    decreases vs.len(),
{
    if vs.len() > 0 {
        let rest = vs.drop_last();
        law_range(start, rest);
        let r = stretched_over(Range { min: start, max: start }, vs);
        let before = stretched_over(Range { min: start, max: start }, rest);
        assert forall|i: int| 0 <= i < vs.len() && !vs[i].spec_is_nan() implies in_range(
            r,
            #[trigger] vs[i],
        ) by {
            if i < rest.len() {
                assert(rest[i] == vs[i]);
                assert(in_range(before, rest[i]));
            }
        }
        assert(vs.contains(vs.last())) by {
            assert(vs[vs.len() - 1] == vs.last());
        }
        assert forall|v: Single| rest.contains(v) implies #[trigger] vs.contains(v) by {
            let i = choose|i: int| 0 <= i < rest.len() && rest[i] == v;
            assert(vs[i] == v);
        }
    }
}

/// The extents of a box are the ranges of the coordinates that it took in.
pub proof fn law_extents(start: Point, points: Seq<Point>)
    ensures
        ({
            let b = bounds_from(start, points);
            &&& b.x() == stretched_over(
                (Range { min: start.x, max: start.x }),
                points.map_values(|p: Point| p.x),
            )
            &&& b.y() == stretched_over(
                (Range { min: start.y, max: start.y }),
                points.map_values(|p: Point| p.y),
            )
            &&& b.z() == stretched_over(
                (Range { min: start.z, max: start.z }),
                points.map_values(|p: Point| p.z),
            )
        }),
    decreases points.len(),
{
    if points.len() > 0 {
        law_extents(start, points.drop_last());
        let (fx, fy, fz) = (|p: Point| p.x, |p: Point| p.y, |p: Point| p.z);
        assert(points.map_values(fx).drop_last() =~= points.drop_last().map_values(fx));
        assert(points.map_values(fy).drop_last() =~= points.drop_last().map_values(fy));
        assert(points.map_values(fz).drop_last() =~= points.drop_last().map_values(fz));
    }
}

/// A box that starts at a point of numbers has every point of numbers that it took in inside it.
pub proof fn law_bounds_contain(start: Point, points: Seq<Point>, i: int)
    requires
        0 <= i < points.len(),
    ensures
        ({
            let b = bounds_from(start, points);
            let p = points[i];
            &&& !start.x.spec_is_nan() && !p.x.spec_is_nan() ==> in_range(b.x(), p.x)
            &&& !start.y.spec_is_nan() && !p.y.spec_is_nan() ==> in_range(b.y(), p.y)
            &&& !start.z.spec_is_nan() && !p.z.spec_is_nan() ==> in_range(b.z(), p.z)
        }),
{
    let (fx, fy, fz) = (|p: Point| p.x, |p: Point| p.y, |p: Point| p.z);
    law_extents(start, points);
    assert(points.map_values(fx)[i] == points[i].x);
    assert(points.map_values(fy)[i] == points[i].y);
    assert(points.map_values(fz)[i] == points[i].z);
    if !start.x.spec_is_nan() {
        law_range(start.x, points.map_values(fx));
    }
    if !start.y.spec_is_nan() {
        law_range(start.y, points.map_values(fy));
    }
    if !start.z.spec_is_nan() {
        law_range(start.z, points.map_values(fz));
    }
}

/// A point inside a box leaves it as it is.
pub proof fn law_inside_changes_nothing(b: BoundingBox, p: Point)
    requires
        in_range(b.x(), p.x),
        in_range(b.y(), p.y),
        in_range(b.z(), p.z),
    ensures
        b.expanded(p) == b,
{
}

} // verus!
