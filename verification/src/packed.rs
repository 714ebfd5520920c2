//! Packed (multi-lane) ray and axis-aligned box.
//!
//! A `WAABB` holds `LANES` independent scalar boxes in a structure-of-arrays
//! layout: `mins` and `maxs` each hold one row of `LANES` coordinates per
//! axis, and lane `k` across all rows describes scalar box `k`.  A `WRay` is
//! a scalar ray broadcast identically to every lane.  Predicates answer one
//! boolean per lane and never mutate their arguments.

use vstd::prelude::*;

use crate::scalar::{Aabb, Point, Ray, DIM, LANES, NEG_INF, POS_INF};

verus! {

/// The smaller of two integers.
pub open spec fn min2(a: int, b: int) -> int {
    if a <= b {
        a
    } else {
        b
    }
}

/// The larger of two integers.
pub open spec fn max2(a: int, b: int) -> int {
    if a <= b {
        b
    } else {
        a
    }
}

/// A ray broadcast across all lanes: every lane holds the same scalar ray.
pub struct WRay {
    pub origin: Point,
    pub dir: Point,
}

impl WRay {
    pub open spec fn wf(&self) -> bool {
        self.origin.wf() && self.dir.wf()
    }

    /// Broadcast one scalar ray to every lane.  Any ray is accepted,
    /// including rays with zero direction components.
    pub fn splat(ray: Ray) -> (r: WRay)
        requires
            ray.wf(),
        ensures
            r.wf(),
            r.origin == ray.origin,
            r.dir == ray.dir,
    {
        WRay { origin: ray.origin, dir: ray.dir }
    }
}

/// `LANES` independent axis-aligned boxes packed in one value.
pub struct WAABB {
    /// One row per axis; entry `k` of row `i` is the lower bound of box `k`
    /// on axis `i`.
    pub mins: Vec<Vec<i64>>,
    /// One row per axis; entry `k` of row `i` is the upper bound of box `k`
    /// on axis `i`.
    pub maxs: Vec<Vec<i64>>,
}

impl WAABB {
    /// Structure-of-arrays shape: `DIM` rows of `LANES` coordinates each.
    pub open spec fn wf(&self) -> bool {
        &&& self.mins@.len() == DIM
        &&& self.maxs@.len() == DIM
        &&& forall|i: int|
            0 <= i < DIM ==> self.mins@[i]@.len() == LANES && self.maxs@[i]@.len() == LANES
    }

    /// Lower bound of the box at lane `k` on axis `i`.
    pub open spec fn min_at(&self, i: int, k: int) -> i64 {
        self.mins@[i]@[k]
    }

    /// Upper bound of the box at lane `k` on axis `i`.
    pub open spec fn max_at(&self, i: int, k: int) -> i64 {
        self.maxs@[i]@[k]
    }

    /// Every lane is the sentinel-invalid box: no lane ever reports an
    /// overlap with a finite box or a ray hit, and the merged box is the
    /// sentinel, so the value is the neutral seed for incremental packing.
    pub fn new_invalid() -> (b: WAABB)
        ensures
            b.wf(),
            forall|i: int, k: int|
                0 <= i < DIM && 0 <= k < LANES ==> b.min_at(i, k) == POS_INF && b.max_at(i, k)
                    == NEG_INF,
    {
        WAABB::splat(Aabb::new_invalid())
    }

    /// Broadcast one scalar box to every lane.
    pub fn splat(aabb: Aabb) -> (b: WAABB)
        requires
            aabb.wf(),
        ensures
            b.wf(),
            forall|i: int, k: int|
                0 <= i < DIM && 0 <= k < LANES ==> b.min_at(i, k) == aabb.mins.at(i) && b.max_at(
                    i,
                    k,
                ) == aabb.maxs.at(i),
    {
        WAABB { mins: splat_rows(&aabb.mins), maxs: splat_rows(&aabb.maxs) }
    }

    /// Pack exactly `LANES` scalar boxes: lane `k` becomes box `k`.
    pub fn from(boxes: &Vec<Aabb>) -> (b: WAABB)
        requires
            boxes@.len() == LANES,
            forall|k: int| 0 <= k < LANES ==> boxes@[k].wf(),
        ensures
            b.wf(),
            forall|i: int, k: int|
                0 <= i < DIM && 0 <= k < LANES ==> b.min_at(i, k) == boxes@[k].mins.at(i)
                    && b.max_at(i, k) == boxes@[k].maxs.at(i),
    {
        let mut mins: Vec<Vec<i64>> = Vec::new();
        let mut maxs: Vec<Vec<i64>> = Vec::new();
        let mut i: usize = 0;
        while i < DIM
            invariant
                boxes@.len() == LANES,
                forall|k: int| 0 <= k < LANES ==> boxes@[k].wf(),
                i <= DIM,
                mins@.len() == i,
                maxs@.len() == i,
                forall|a: int| 0 <= a < i ==> mins@[a]@.len() == LANES && maxs@[a]@.len() == LANES,
                forall|a: int, k: int|
                    0 <= a < i && 0 <= k < LANES ==> mins@[a]@[k] == boxes@[k].mins.at(a)
                        && maxs@[a]@[k] == boxes@[k].maxs.at(a),
            decreases DIM - i,
        {
            let mut min_row: Vec<i64> = Vec::new();
            let mut max_row: Vec<i64> = Vec::new();
            let mut k: usize = 0;
            while k < LANES
                invariant
                    boxes@.len() == LANES,
                    forall|m: int| 0 <= m < LANES ==> boxes@[m].wf(),
                    i < DIM,
                    k <= LANES,
                    min_row@.len() == k,
                    max_row@.len() == k,
                    forall|m: int|
                        0 <= m < k ==> min_row@[m] == boxes@[m].mins.at(i as int) && max_row@[m]
                            == boxes@[m].maxs.at(i as int),
                decreases LANES - k,
            {
                min_row.push(boxes[k].mins.coords[i]);
                max_row.push(boxes[k].maxs.coords[i]);
                k = k + 1;
            }
            mins.push(min_row);
            maxs.push(max_row);
            i = i + 1;
        }
        WAABB { mins, maxs }
    }

    /// Overwrite lane `i` with a scalar box, leaving every other lane
    /// untouched.
    pub fn replace(&mut self, i: usize, aabb: Aabb)
        requires
            old(self).wf(),
            i < LANES,
            aabb.wf(),
        ensures
            final(self).wf(),
            forall|a: int|
                0 <= a < DIM ==> final(self).min_at(a, i as int) == aabb.mins.at(a)
                    && final(self).max_at(a, i as int) == aabb.maxs.at(a),
            forall|a: int, k: int|
                0 <= a < DIM && 0 <= k < LANES && k != i ==> final(self).min_at(a, k)
                    == old(self).min_at(a, k) && final(self).max_at(a, k) == old(self).max_at(
                    a,
                    k,
                ),
    {
        let mut a: usize = 0;
        while a < DIM
            invariant
                i < LANES,
                aabb.wf(),
                a <= DIM,
                self.mins@.len() == DIM,
                self.maxs@.len() == DIM,
                forall|j: int|
                    0 <= j < DIM ==> self.mins@[j]@.len() == LANES && self.maxs@[j]@.len() == LANES,
                forall|j: int|
                    0 <= j < a ==> self.min_at(j, i as int) == aabb.mins.at(j) && self.max_at(
                        j,
                        i as int,
                    ) == aabb.maxs.at(j),
                forall|j: int, k: int|
                    0 <= j < a && 0 <= k < LANES && k != i ==> self.min_at(j, k)
                        == old(self).min_at(j, k) && self.max_at(j, k) == old(self).max_at(j, k),
                forall|j: int|
                    a <= j < DIM ==> self.mins@[j] == old(self).mins@[j] && self.maxs@[j]
                        == old(self).maxs@[j],
            decreases DIM - a,
        {
            let new_min = row_with(&self.mins[a], i, aabb.mins.coords[a]);
            let new_max = row_with(&self.maxs[a], i, aabb.maxs.coords[a]);
            self.mins.set(a, new_min);
            self.maxs.set(a, new_max);
            a = a + 1;
        }
    }

    /// True at lane `k` iff box `k` of `self` overlaps box `k` of `other`
    /// on every axis (separating-axis test; touching boxes count).
    pub open spec fn intersects_lane(&self, other: &WAABB, k: int) -> bool {
        forall|i: int|
            0 <= i < DIM ==> self.min_at(i, k) <= other.max_at(i, k) && other.min_at(i, k)
                <= self.max_at(i, k)
    }

    /// True at lane `k` iff box `k` of `other` lies fully inside box `k` of
    /// `self`.
    pub open spec fn contains_lane(&self, other: &WAABB, k: int) -> bool {
        forall|i: int|
            0 <= i < DIM ==> self.min_at(i, k) <= other.min_at(i, k) && self.max_at(i, k)
                >= other.max_at(i, k)
    }

    /// Per-axis, per-lane dilation amount: `factor[k]` times the extent of
    /// the box at lane `k` on axis `i`.
    pub open spec fn dilation(&self, factor: Seq<i64>, i: int, k: int) -> int {
        factor[k] * (self.max_at(i, k) - self.min_at(i, k))
    }

    /// The dilation arithmetic at axis `i`, lane `k` stays within the
    /// coordinate range.
    pub open spec fn dilation_in_range(&self, factor: Seq<i64>, i: int, k: int) -> bool {
        &&& i64::MIN <= self.max_at(i, k) - self.min_at(i, k) <= i64::MAX
        &&& i64::MIN <= self.dilation(factor, i, k) <= i64::MAX
        &&& i64::MIN <= self.min_at(i, k) - self.dilation(factor, i, k) <= i64::MAX
        &&& i64::MIN <= self.max_at(i, k) + self.dilation(factor, i, k) <= i64::MAX
    }

    /// In place, inflate every lane's box outward by `factor[k]` times its
    /// own per-axis extent on each side, independently per lane and per
    /// axis.  The preconditions keep every intermediate value within the
    /// coordinate range; a sentinel-invalid lane's extent already exceeds
    /// it, so dilation is for packed values whose lanes are all finite.
    pub fn dilate_by_factor(&mut self, factor: &Vec<i64>)
        requires
            old(self).wf(),
            factor@.len() == LANES,
            forall|i: int, k: int|
                0 <= i < DIM && 0 <= k < LANES ==> old(self).dilation_in_range(factor@, i, k),
        ensures
            final(self).wf(),
            forall|i: int, k: int|
                0 <= i < DIM && 0 <= k < LANES ==> final(self).min_at(i, k) == old(self).min_at(
                    i,
                    k,
                ) - old(self).dilation(factor@, i, k) && final(self).max_at(i, k) == old(
                    self,
                ).max_at(i, k) + old(self).dilation(factor@, i, k),
    {
        let mut nmins: Vec<Vec<i64>> = Vec::new();
        let mut nmaxs: Vec<Vec<i64>> = Vec::new();
        let mut i: usize = 0;
        while i < DIM
            invariant
                self == old(self),
                self.wf(),
                factor@.len() == LANES,
                forall|a: int, k: int|
                    0 <= a < DIM && 0 <= k < LANES ==> old(self).dilation_in_range(factor@, a, k),
                i <= DIM,
                nmins@.len() == i,
                nmaxs@.len() == i,
                forall|a: int| 0 <= a < i ==> nmins@[a]@.len() == LANES && nmaxs@[a]@.len() == LANES,
                forall|a: int, k: int|
                    0 <= a < i && 0 <= k < LANES ==> nmins@[a]@[k] == old(self).min_at(a, k) - old(
                        self,
                    ).dilation(factor@, a, k) && nmaxs@[a]@[k] == old(self).max_at(a, k) + old(
                        self,
                    ).dilation(factor@, a, k),
            decreases DIM - i,
        {
            let mut new_min: Vec<i64> = Vec::new();
            let mut new_max: Vec<i64> = Vec::new();
            let mut k: usize = 0;
            while k < LANES
                invariant
                    self == old(self),
                    self.wf(),
                    factor@.len() == LANES,
                    forall|a: int, m: int|
                        0 <= a < DIM && 0 <= m < LANES ==> old(self).dilation_in_range(
                            factor@,
                            a,
                            m,
                        ),
                    i < DIM,
                    k <= LANES,
                    new_min@.len() == k,
                    new_max@.len() == k,
                    forall|m: int|
                        0 <= m < k ==> new_min@[m] == old(self).min_at(i as int, m) - old(
                            self,
                        ).dilation(factor@, i as int, m) && new_max@[m] == old(self).max_at(
                            i as int,
                            m,
                        ) + old(self).dilation(factor@, i as int, m),
                decreases LANES - k,
            {
                let mn = self.mins[i][k];
                let mx = self.maxs[i][k];
                proof {
                    assert(old(self).dilation_in_range(factor@, i as int, k as int));
                }
                let extent = mx - mn;
                let d = factor[k] * extent;
                new_min.push(mn - d);
                new_max.push(mx + d);
                k = k + 1;
            }
            nmins.push(new_min);
            nmaxs.push(new_max);
            i = i + 1;
        }
        self.mins = nmins;
        self.maxs = nmaxs;
    }

    /// Horizontal reduction: the single scalar box bounding every lane's
    /// box, obtained per axis as the minimum of all lanes' `mins` and the
    /// maximum of all lanes' `maxs`.
    pub fn to_merged_aabb(&self) -> (r: Aabb)
        requires
            self.wf(),
        ensures
            r.wf(),
            merged_bounds(&r, self),
    {
        let m0 = row_min(&self.mins[0]);
        let m1 = row_min(&self.mins[1]);
        let m2 = row_min(&self.mins[2]);
        let x0 = row_max(&self.maxs[0]);
        let x1 = row_max(&self.maxs[1]);
        let x2 = row_max(&self.maxs[2]);
        let r = Aabb { mins: Point::new(m0, m1, m2), maxs: Point::new(x0, x1, x2) };
        proof {
            assert forall|i: int, k: int| 0 <= i < DIM && 0 <= k < LANES implies r.mins.at(i)
                <= self.min_at(i, k) && r.maxs.at(i) >= self.max_at(i, k) by {
                assert(i == 0 || i == 1 || i == 2);
            }
            let k0 = choose|k: int| 0 <= k < LANES && m0 == self.mins@[0]@[k];
            let k1 = choose|k: int| 0 <= k < LANES && m1 == self.mins@[1]@[k];
            let k2 = choose|k: int| 0 <= k < LANES && m2 == self.mins@[2]@[k];
            let j0 = choose|k: int| 0 <= k < LANES && x0 == self.maxs@[0]@[k];
            let j1 = choose|k: int| 0 <= k < LANES && x1 == self.maxs@[1]@[k];
            let j2 = choose|k: int| 0 <= k < LANES && x2 == self.maxs@[2]@[k];
            assert forall|i: int| 0 <= i < DIM implies #[trigger] merged_attained(&r, self, i) by {
                assert(r.mins.at(i) == self.min_at(i, if i == 0 { k0 } else if i == 1 { k1 } else { k2 }));
                assert(r.maxs.at(i) == self.max_at(i, if i == 0 { j0 } else if i == 1 { j1 } else { j2 }));
            }
        }
        r
    }

    /// Lane-wise overlap test: one boolean per lane.
    pub fn intersects(&self, other: &WAABB) -> (r: Vec<bool>)
        requires
            self.wf(),
            other.wf(),
        ensures
            r@.len() == LANES,
            forall|k: int| 0 <= k < LANES ==> r@[k] == self.intersects_lane(other, k),
    {
        let mut r: Vec<bool> = Vec::new();
        let mut k: usize = 0;
        while k < LANES
            invariant
                self.wf(),
                other.wf(),
                k <= LANES,
                r@.len() == k,
                forall|m: int| 0 <= m < k ==> r@[m] == self.intersects_lane(other, m),
            decreases LANES - k,
        {
            let c = self.mins[0][k] <= other.maxs[0][k] && other.mins[0][k] <= self.maxs[0][k]
                && self.mins[1][k] <= other.maxs[1][k] && other.mins[1][k] <= self.maxs[1][k]
                && self.mins[2][k] <= other.maxs[2][k] && other.mins[2][k] <= self.maxs[2][k];
            proof {
                let ki = k as int;
                if c {
                    assert forall|i: int| 0 <= i < DIM implies self.min_at(i, ki) <= other.max_at(
                        i,
                        ki,
                    ) && other.min_at(i, ki) <= self.max_at(i, ki) by {
                        assert(i == 0 || i == 1 || i == 2);
                    }
                    assert(self.intersects_lane(other, ki));
                } else {
                    assert(!self.intersects_lane(other, ki)) by {
                        if self.intersects_lane(other, ki) {
                            assert(self.min_at(0, ki) <= other.max_at(0, ki) && other.min_at(0, ki)
                                <= self.max_at(0, ki));
                            assert(self.min_at(1, ki) <= other.max_at(1, ki) && other.min_at(1, ki)
                                <= self.max_at(1, ki));
                            assert(self.min_at(2, ki) <= other.max_at(2, ki) && other.min_at(2, ki)
                                <= self.max_at(2, ki));
                        }
                    }
                }
            }
            r.push(c);
            k = k + 1;
        }
        r
    }

    /// Lane-wise containment test: one boolean per lane.
    pub fn contains(&self, other: &WAABB) -> (r: Vec<bool>)
        requires
            self.wf(),
            other.wf(),
        ensures
            r@.len() == LANES,
            forall|k: int| 0 <= k < LANES ==> r@[k] == self.contains_lane(other, k),
    {
        let mut r: Vec<bool> = Vec::new();
        let mut k: usize = 0;
        while k < LANES
            invariant
                self.wf(),
                other.wf(),
                k <= LANES,
                r@.len() == k,
                forall|m: int| 0 <= m < k ==> r@[m] == self.contains_lane(other, m),
            decreases LANES - k,
        {
            let c = self.mins[0][k] <= other.mins[0][k] && self.mins[1][k] <= other.mins[1][k]
                && self.mins[2][k] <= other.mins[2][k] && self.maxs[0][k] >= other.maxs[0][k]
                && self.maxs[1][k] >= other.maxs[1][k] && self.maxs[2][k] >= other.maxs[2][k];
            proof {
                let ki = k as int;
                if c {
                    assert forall|i: int| 0 <= i < DIM implies self.min_at(i, ki) <= other.min_at(
                        i,
                        ki,
                    ) && self.max_at(i, ki) >= other.max_at(i, ki) by {
                        assert(i == 0 || i == 1 || i == 2);
                    }
                    assert(self.contains_lane(other, ki));
                } else {
                    assert(!self.contains_lane(other, ki)) by {
                        if self.contains_lane(other, ki) {
                            assert(self.min_at(0, ki) <= other.min_at(0, ki) && self.max_at(0, ki)
                                >= other.max_at(0, ki));
                            assert(self.min_at(1, ki) <= other.min_at(1, ki) && self.max_at(1, ki)
                                >= other.max_at(1, ki));
                            assert(self.min_at(2, ki) <= other.min_at(2, ki) && self.max_at(2, ki)
                                >= other.max_at(2, ki));
                        }
                    }
                }
            }
            r.push(c);
            k = k + 1;
        }
        r
    }
}

/// Build the `DIM x LANES` rows that broadcast one scalar point to every
/// lane.
fn splat_rows(p: &Point) -> (r: Vec<Vec<i64>>)
    requires
        p.wf(),
    ensures
        r@.len() == DIM,
        forall|i: int| 0 <= i < DIM ==> r@[i]@.len() == LANES,
        forall|i: int, k: int| 0 <= i < DIM && 0 <= k < LANES ==> r@[i]@[k] == p.at(i),
{
    let mut r: Vec<Vec<i64>> = Vec::new();
    let mut i: usize = 0;
    while i < DIM
        invariant
            p.wf(),
            i <= DIM,
            r@.len() == i,
            forall|a: int| 0 <= a < i ==> r@[a]@.len() == LANES,
            forall|a: int, k: int| 0 <= a < i && 0 <= k < LANES ==> r@[a]@[k] == p.at(a),
        decreases DIM - i,
    {
        let mut row: Vec<i64> = Vec::new();
        let mut k: usize = 0;
        while k < LANES
            invariant
                p.wf(),
                i < DIM,
                k <= LANES,
                row@.len() == k,
                forall|m: int| 0 <= m < k ==> row@[m] == p.at(i as int),
            decreases LANES - k,
        {
            row.push(p.coords[i]);
            k = k + 1;
        }
        r.push(row);
        i = i + 1;
    }
    r
}

/// Copy a row with the entry at `k` replaced by `v`.
fn row_with(row: &Vec<i64>, k: usize, v: i64) -> (r: Vec<i64>)
    requires
        k < row@.len(),
    ensures
        r@.len() == row@.len(),
        r@[k as int] == v,
        forall|j: int| 0 <= j < row@.len() && j != k ==> r@[j] == row@[j],
{
    let mut r: Vec<i64> = Vec::new();
    let mut m: usize = 0;
    while m < row.len()
        invariant
            k < row@.len(),
            m <= row@.len(),
            r@.len() == m,
            forall|j: int| 0 <= j < m && j != k ==> r@[j] == row@[j],
            k < m ==> r@[k as int] == v,
        decreases row@.len() - m,
    {
        if m == k {
            r.push(v);
        } else {
            r.push(row[m]);
        }
        m = m + 1;
    }
    r
}

/// The smallest entry of a row of `LANES` coordinates.
fn row_min(row: &Vec<i64>) -> (m: i64)
    requires
        row@.len() == LANES,
    ensures
        forall|k: int| 0 <= k < LANES ==> m <= row@[k],
        exists|k: int| 0 <= k < LANES && m == row@[k],
{
    let mut m = row[0];
    let mut k: usize = 1;
    while k < LANES
        invariant
            row@.len() == LANES,
            1 <= k <= LANES,
            forall|j: int| 0 <= j < k ==> m <= row@[j],
            exists|j: int| 0 <= j < k && m == row@[j],
        decreases LANES - k,
    {
        if row[k] < m {
            m = row[k];
        }
        k = k + 1;
    }
    m
}

/// The largest entry of a row of `LANES` coordinates.
fn row_max(row: &Vec<i64>) -> (m: i64)
    requires
        row@.len() == LANES,
    ensures
        forall|k: int| 0 <= k < LANES ==> m >= row@[k],
        exists|k: int| 0 <= k < LANES && m == row@[k],
{
    let mut m = row[0];
    let mut k: usize = 1;
    while k < LANES
        invariant
            row@.len() == LANES,
            1 <= k <= LANES,
            forall|j: int| 0 <= j < k ==> m >= row@[j],
            exists|j: int| 0 <= j < k && m == row@[j],
        decreases LANES - k,
    {
        if row[k] > m {
            m = row[k];
        }
        k = k + 1;
    }
    m
}

/// `b` is the packing of the `LANES` scalar boxes in `boxes`, lane by lane.
pub open spec fn packs(b: &WAABB, boxes: Seq<Aabb>) -> bool {
    &&& boxes.len() == LANES
    &&& forall|i: int, k: int|
        0 <= i < DIM && 0 <= k < LANES ==> b.min_at(i, k) == boxes[k].mins.at(i) && b.max_at(i, k)
            == boxes[k].maxs.at(i)
}

/// On axis `i`, both bounds of `m` are attained by some lane of `b`.
pub open spec fn merged_attained(m: &Aabb, b: &WAABB, i: int) -> bool {
    &&& exists|k: int| 0 <= k < LANES && m.mins.at(i) == b.min_at(i, k)
    &&& exists|k: int| 0 <= k < LANES && m.maxs.at(i) == b.max_at(i, k)
}

/// `m` is the horizontal min/max reduction of `b`: per axis, the greatest
/// lower bound and least upper bound over all lanes, each attained.
pub open spec fn merged_bounds(m: &Aabb, b: &WAABB) -> bool {
    &&& forall|i: int, k: int|
        0 <= i < DIM && 0 <= k < LANES ==> m.mins.at(i) <= b.min_at(i, k) && m.maxs.at(i)
            >= b.max_at(i, k)
    &&& forall|i: int| 0 <= i < DIM ==> #[trigger] merged_attained(m, b, i)
}

/// Sentinel absorption, intersection half: a packed value whose every lane
/// is the sentinel-invalid box never intersects the broadcast of a scalar
/// box, in any lane.  The one box excluded is the all-space box whose
/// bounds sit on the infinity sentinels on every axis: against that box
/// the inclusive comparisons hold even at the sentinels.
pub proof fn lemma_sentinel_never_intersects(inv: &WAABB, other: &WAABB, b: &Aabb)
    requires
        inv.wf(),
        other.wf(),
        b.wf(),
        exists|i: int|
            0 <= i < DIM && (NEG_INF < #[trigger] b.mins.at(i) || b.maxs.at(i) < POS_INF),
        forall|i: int, k: int|
            0 <= i < DIM && 0 <= k < LANES ==> inv.min_at(i, k) == POS_INF && inv.max_at(i, k)
                == NEG_INF,
        forall|i: int, k: int|
            0 <= i < DIM && 0 <= k < LANES ==> other.min_at(i, k) == b.mins.at(i) && other.max_at(
                i,
                k,
            ) == b.maxs.at(i),
    ensures
        forall|k: int| 0 <= k < LANES ==> !inv.intersects_lane(other, k),
{
    let i0 = choose|i: int|
        0 <= i < DIM && (NEG_INF < #[trigger] b.mins.at(i) || b.maxs.at(i) < POS_INF);
    assert forall|k: int| 0 <= k < LANES implies !inv.intersects_lane(other, k) by {
        assert(inv.min_at(i0, k) == POS_INF && inv.max_at(i0, k) == NEG_INF);
        assert(other.min_at(i0, k) == b.mins.at(i0) && other.max_at(i0, k) == b.maxs.at(i0));
        if b.maxs.at(i0) < POS_INF {
            assert(!(inv.min_at(i0, k) <= other.max_at(i0, k)));
        } else {
            assert(!(other.min_at(i0, k) <= inv.max_at(i0, k)));
        }
    }
}

/// Sentinel absorption, union half: merging the sentinel-invalid box into
/// any box (axis-wise min of `mins`, max of `maxs`) leaves that box
/// unchanged — the sentinel is the identity of bounding-box union.
pub proof fn lemma_sentinel_union_identity(b: &Aabb)
    requires
        b.wf(),
    ensures
        forall|i: int|
            0 <= i < DIM ==> min2(POS_INF as int, b.mins.at(i) as int) == b.mins.at(i) && max2(
                NEG_INF as int,
                b.maxs.at(i) as int,
            ) == b.maxs.at(i),
{
}

/// On axis `i`, both bounds of `m` coincide with the bound of one of the
/// scalar boxes.
pub open spec fn bound_attained_in(m: &Aabb, boxes: Seq<Aabb>, i: int) -> bool {
    &&& exists|k: int| 0 <= k < LANES && m.mins.at(i) == boxes[k].mins.at(i)
    &&& exists|k: int| 0 <= k < LANES && m.maxs.at(i) == boxes[k].maxs.at(i)
}

/// Reduction correctness: the merged box of a packed value built from
/// `LANES` scalar boxes is the axis-wise min of all the boxes' `mins` and
/// the axis-wise max of all their `maxs`.
pub proof fn lemma_reduction_correct(boxes: Seq<Aabb>, b: &WAABB, m: &Aabb)
    requires
        b.wf(),
        m.wf(),
        packs(b, boxes),
        merged_bounds(m, b),
    ensures
        forall|i: int, k: int|
            0 <= i < DIM && 0 <= k < LANES ==> m.mins.at(i) <= boxes[k].mins.at(i) && m.maxs.at(i)
                >= boxes[k].maxs.at(i),
        forall|i: int| 0 <= i < DIM ==> #[trigger] bound_attained_in(m, boxes, i),
{
    assert forall|i: int, k: int| 0 <= i < DIM && 0 <= k < LANES implies m.mins.at(i)
        <= boxes[k].mins.at(i) && m.maxs.at(i) >= boxes[k].maxs.at(i) by {
        assert(m.mins.at(i) <= b.min_at(i, k));
        assert(b.min_at(i, k) == boxes[k].mins.at(i));
        assert(m.maxs.at(i) >= b.max_at(i, k));
        assert(b.max_at(i, k) == boxes[k].maxs.at(i));
    }
    assert forall|i: int| 0 <= i < DIM implies #[trigger] bound_attained_in(m, boxes, i) by {
        assert(merged_attained(m, b, i));
        let k1 = choose|k: int| 0 <= k < LANES && m.mins.at(i) == b.min_at(i, k);
        assert(b.min_at(i, k1) == boxes[k1].mins.at(i));
        assert(0 <= k1 < LANES && m.mins.at(i) == boxes[k1].mins.at(i));
        let k2 = choose|k: int| 0 <= k < LANES && m.maxs.at(i) == b.max_at(i, k);
        assert(b.max_at(i, k2) == boxes[k2].maxs.at(i));
        assert(0 <= k2 < LANES && m.maxs.at(i) == boxes[k2].maxs.at(i));
    }
}

/// Containment is reflexive: every packed value contains itself in every
/// lane.
pub proof fn lemma_contains_reflexive(a: &WAABB)
    requires
        a.wf(),
    ensures
        forall|k: int| 0 <= k < LANES ==> a.contains_lane(a, k),
{
}

/// Containment is antisymmetric lane-wise: mutual containment at a lane
/// forces the two boxes to be equal at that lane.
pub proof fn lemma_contains_antisymmetric(a: &WAABB, b: &WAABB, k: int)
    requires
        a.wf(),
        b.wf(),
        0 <= k < LANES,
        a.contains_lane(b, k),
        b.contains_lane(a, k),
    ensures
        forall|i: int| 0 <= i < DIM ==> a.min_at(i, k) == b.min_at(i, k) && a.max_at(i, k)
            == b.max_at(i, k),
{
}

/// Mutual overlap is commutative lane-wise.
pub proof fn lemma_intersects_commutative(a: &WAABB, b: &WAABB)
    requires
        a.wf(),
        b.wf(),
    ensures
        forall|k: int| 0 <= k < LANES ==> a.intersects_lane(b, k) == b.intersects_lane(a, k),
{
}

} // verus!
