//! Scalar (single-lane) geometric types: points, rays and axis-aligned boxes.
//!
//! Coordinates are exact `i64` values.  The extreme values `POS_INF`
//! (`i64::MAX`) and `NEG_INF` (`i64::MIN`) stand for plus and minus infinity:
//! a sentinel "invalid" box has `mins` at `POS_INF` and `maxs` at `NEG_INF`
//! on every axis, so it acts as the identity of bounding-box union and never
//! reports an intersection against a finite box.

use vstd::prelude::*;

verus! {

/// Number of spatial axes.  The packed types are specialized to three
/// dimensions (x, y, z).
pub const DIM: usize = 3;

/// Number of independent scalar boxes packed side by side in one value.
pub const LANES: usize = 4;

/// Coordinate standing for plus infinity (the `mins` of an invalid box).
pub const POS_INF: i64 = i64::MAX;

/// Coordinate standing for minus infinity (the `maxs` of an invalid box).
pub const NEG_INF: i64 = i64::MIN;

/// A point (or vector) in `DIM`-dimensional space.
pub struct Point {
    pub coords: Vec<i64>,
}

impl Point {
    /// The point has exactly one coordinate per axis.
    pub open spec fn wf(&self) -> bool {
        self.coords@.len() == DIM
    }

    /// Coordinate on axis `i`.
    pub open spec fn at(&self, i: int) -> i64 {
        self.coords@[i]
    }

    pub fn new(x: i64, y: i64, z: i64) -> (p: Point)
        ensures
            p.wf(),
            p.at(0) == x,
            p.at(1) == y,
            p.at(2) == z,
    {
        Point { coords: vec![x, y, z] }
    }

    /// A copy of this point.
    pub fn duplicate(&self) -> (p: Point)
        requires
            self.wf(),
        ensures
            p.wf(),
            forall|i: int| 0 <= i < DIM ==> p.at(i) == self.at(i),
    {
        let mut coords: Vec<i64> = Vec::new();
        let mut i: usize = 0;
        while i < DIM
            invariant
                self.wf(),
                i <= DIM,
                coords@.len() == i,
                forall|j: int| 0 <= j < i ==> coords@[j] == self.at(j),
            decreases DIM - i,
        {
            coords.push(self.coords[i]);
            i = i + 1;
        }
        Point { coords }
    }
}

/// A scalar axis-aligned box, described by its corner points `mins` and
/// `maxs`.
pub struct Aabb {
    pub mins: Point,
    pub maxs: Point,
}

impl Aabb {
    pub open spec fn wf(&self) -> bool {
        self.mins.wf() && self.maxs.wf()
    }

    pub fn new(mins: Point, maxs: Point) -> (b: Aabb)
        requires
            mins.wf(),
            maxs.wf(),
        ensures
            b.wf(),
            b.mins == mins,
            b.maxs == maxs,
    {
        Aabb { mins, maxs }
    }

    /// The sentinel-invalid (empty) box: `mins` at plus infinity and `maxs`
    /// at minus infinity on every axis.
    pub fn new_invalid() -> (b: Aabb)
        ensures
            b.wf(),
            forall|i: int| 0 <= i < DIM ==> b.mins.at(i) == POS_INF,
            forall|i: int| 0 <= i < DIM ==> b.maxs.at(i) == NEG_INF,
    {
        Aabb {
            mins: Point::new(POS_INF, POS_INF, POS_INF),
            maxs: Point::new(NEG_INF, NEG_INF, NEG_INF),
        }
    }

    /// A copy of this box.
    pub fn duplicate(&self) -> (b: Aabb)
        requires
            self.wf(),
        ensures
            b.wf(),
            forall|i: int| 0 <= i < DIM ==> b.mins.at(i) == self.mins.at(i),
            forall|i: int| 0 <= i < DIM ==> b.maxs.at(i) == self.maxs.at(i),
    {
        Aabb { mins: self.mins.duplicate(), maxs: self.maxs.duplicate() }
    }
}

/// A scalar ray: an origin point and a direction vector.  Zero direction
/// components are allowed (the ray is then parallel to that axis's planes).
pub struct Ray {
    pub origin: Point,
    pub dir: Point,
}

impl Ray {
    pub open spec fn wf(&self) -> bool {
        self.origin.wf() && self.dir.wf()
    }

    pub fn new(origin: Point, dir: Point) -> (r: Ray)
        requires
            origin.wf(),
            dir.wf(),
        ensures
            r.wf(),
            r.origin == origin,
            r.dir == dir,
    {
        Ray { origin, dir }
    }
}

} // verus!
