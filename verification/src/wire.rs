//! Wire form of a packed box.
//!
//! A packed box serializes as a two-field structure `{ mins, maxs }`; each
//! field is a `DIM`-dimensional point whose coordinates are rows of exactly
//! `LANES` values, lane order preserved.  Decoding rejects a sequence with
//! fewer than two fields, naming the missing index, and rejects any
//! coordinate row whose length is not `LANES`; it never quantizes or
//! reorders lanes, so encoding then decoding reproduces the exact
//! per-lane, per-axis coordinates.

use vstd::prelude::*;

use crate::packed::WAABB;
use crate::scalar::{DIM, LANES};

verus! {

/// One serialized field: a `DIM`-dimensional point whose coordinates are
/// rows of `LANES` values each.
pub struct WirePoint {
    pub x: Vec<i64>,
    pub y: Vec<i64>,
    pub z: Vec<i64>,
}

impl WirePoint {
    /// The coordinate row of axis `i`.
    pub open spec fn row(&self, i: int) -> Seq<i64> {
        if i == 0 {
            self.x@
        } else if i == 1 {
            self.y@
        } else {
            self.z@
        }
    }

    /// Every coordinate row carries exactly one value per lane.
    pub open spec fn wf(&self) -> bool {
        self.x@.len() == LANES && self.y@.len() == LANES && self.z@.len() == LANES
    }
}

/// Why a serialized packed box is rejected: a field is absent from the
/// two-element sequence (`mins` is index 0, `maxs` index 1), or some
/// coordinate row does not hold exactly one value per lane.
#[derive(Debug, PartialEq, Eq, Structural)]
pub enum WireError {
    MissingField { index: usize },
    WrongLaneCount,
}

/// Copy of a coordinate row.
fn copy_row(row: &Vec<i64>) -> (r: Vec<i64>)
    ensures
        r@ == row@,
{
    let mut r: Vec<i64> = Vec::new();
    let mut m: usize = 0;
    while m < row.len()
        invariant
            m <= row@.len(),
            r@.len() == m,
            forall|j: int| 0 <= j < m ==> r@[j] == row@[j],
        decreases row@.len() - m,
    {
        r.push(row[m]);
        m = m + 1;
    }
    proof {
        assert(r@ =~= row@);
    }
    r
}

impl WAABB {
    /// Encode to the wire form: the two fields `mins` and `maxs`, in that
    /// order, each carrying this value's coordinate rows unchanged.
    pub fn to_wire(&self) -> (w: Vec<WirePoint>)
        requires
            self.wf(),
        ensures
            w@.len() == 2,
            w@[0].wf(),
            w@[1].wf(),
            forall|i: int, k: int|
                0 <= i < DIM && 0 <= k < LANES ==> w@[0].row(i)[k] == self.min_at(i, k)
                    && w@[1].row(i)[k] == self.max_at(i, k),
    {
        let mins = WirePoint {
            x: copy_row(&self.mins[0]),
            y: copy_row(&self.mins[1]),
            z: copy_row(&self.mins[2]),
        };
        let maxs = WirePoint {
            x: copy_row(&self.maxs[0]),
            y: copy_row(&self.maxs[1]),
            z: copy_row(&self.maxs[2]),
        };
        let w = vec![mins, maxs];
        proof {
            assert forall|i: int, k: int| 0 <= i < DIM && 0 <= k < LANES implies w@[0].row(i)[k]
                == self.min_at(i, k) && w@[1].row(i)[k] == self.max_at(i, k) by {
                assert(i == 0 || i == 1 || i == 2);
            }
        }
        w
    }

    /// Decode from the wire form.  A sequence without both fields is
    /// rejected with the index of the first absent one; a coordinate row
    /// whose length is not `LANES` is rejected as a wrong lane count; a
    /// well-shaped input yields exactly the encoded coordinates, and fields
    /// beyond the first two are ignored.
    pub fn from_wire(w: &Vec<WirePoint>) -> (r: Result<WAABB, WireError>)
        ensures
            r is Err <==> (w@.len() < 2 || !w@[0].wf() || !w@[1].wf()),
            w@.len() == 0 ==> r == Err::<WAABB, WireError>(WireError::MissingField { index: 0 }),
            w@.len() == 1 ==> r == Err::<WAABB, WireError>(WireError::MissingField { index: 1 }),
            w@.len() >= 2 && !(w@[0].wf() && w@[1].wf()) ==> r == Err::<WAABB, WireError>(
                WireError::WrongLaneCount,
            ),
            r matches Ok(b) ==> b.wf() && (forall|i: int, k: int|
                0 <= i < DIM && 0 <= k < LANES ==> b.min_at(i, k) == w@[0].row(i)[k] && b.max_at(
                    i,
                    k,
                ) == w@[1].row(i)[k]),
    {
        if w.len() == 0 {
            return Err(WireError::MissingField { index: 0 });
        }
        if w.len() == 1 {
            return Err(WireError::MissingField { index: 1 });
        }
        let f0 = &w[0];
        let f1 = &w[1];
        if f0.x.len() != LANES || f0.y.len() != LANES || f0.z.len() != LANES || f1.x.len() != LANES
            || f1.y.len() != LANES || f1.z.len() != LANES {
            return Err(WireError::WrongLaneCount);
        }
        let mins = vec![copy_row(&f0.x), copy_row(&f0.y), copy_row(&f0.z)];
        let maxs = vec![copy_row(&f1.x), copy_row(&f1.y), copy_row(&f1.z)];
        let b = WAABB { mins, maxs };
        proof {
            assert forall|i: int, k: int| 0 <= i < DIM && 0 <= k < LANES implies b.min_at(i, k)
                == w@[0].row(i)[k] && b.max_at(i, k) == w@[1].row(i)[k] by {
                assert(i == 0 || i == 1 || i == 2);
            }
        }
        Ok(b)
    }
}

/// Serialization round trip: a wire form that carries exactly the rows of
/// `b` (what `to_wire` emits) decodes to a packed value whose every
/// per-lane, per-axis coordinate equals `b`'s (what `from_wire` returns on
/// it) — no quantization and no lane reordering.
pub proof fn lemma_wire_round_trip(b: &WAABB, w: Seq<WirePoint>, b2: &WAABB)
    requires
        b.wf(),
        w.len() == 2,
        w[0].wf(),
        w[1].wf(),
        forall|i: int, k: int|
            0 <= i < DIM && 0 <= k < LANES ==> w[0].row(i)[k] == b.min_at(i, k) && w[1].row(i)[k]
                == b.max_at(i, k),
        b2.wf(),
        forall|i: int, k: int|
            0 <= i < DIM && 0 <= k < LANES ==> b2.min_at(i, k) == w[0].row(i)[k] && b2.max_at(i, k)
                == w[1].row(i)[k],
    ensures
        forall|i: int, k: int|
            0 <= i < DIM && 0 <= k < LANES ==> b2.min_at(i, k) == b.min_at(i, k) && b2.max_at(i, k)
                == b.max_at(i, k),
{
}

} // verus!
