//! Branch-per-lane slab test: packed ray versus packed box.
//!
//! Per lane, the ray is intersected with each axis's pair of bounding
//! planes, keeping the narrowing parametric interval `[tmin, tmax]` that
//! starts as `[0, max_toi]`.  Axes on which the ray direction is exactly
//! zero contribute a point-in-slab test on the origin instead and leave the
//! interval untouched.  Entry and exit parameters are exact fractions
//! (numerator over the absolute direction component), compared by
//! cross-multiplication in 128-bit arithmetic, so degenerate inputs
//! (axis-aligned directions, zero-width or sentinel-invalid boxes) are
//! handled without rounding.  An inverted (sentinel-invalid) lane keeps an
//! empty interval on every axis the ray crosses and an origin outside every
//! slab on the rest, so it never reports a hit.

use vstd::prelude::*;

use crate::packed::{WAABB, WRay};
use crate::scalar::{DIM, LANES, NEG_INF, POS_INF};

verus! {

/// Origin coordinate of the broadcast ray on axis `i`, as an integer.
pub open spec fn o_at(r: &WRay, i: int) -> int {
    r.origin.at(i) as int
}

/// Direction coordinate of the broadcast ray on axis `i`, as an integer.
pub open spec fn d_at(r: &WRay, i: int) -> int {
    r.dir.at(i) as int
}

/// Lower bound of box `k` on axis `i`, as an integer.
pub open spec fn bmin(b: &WAABB, i: int, k: int) -> int {
    b.min_at(i, k) as int
}

/// Upper bound of box `k` on axis `i`, as an integer.
pub open spec fn bmax(b: &WAABB, i: int, k: int) -> int {
    b.max_at(i, k) as int
}

/// The ray origin lies inside the slab of axis `i` at lane `k`.
pub open spec fn in_slab(b: &WAABB, r: &WRay, i: int, k: int) -> bool {
    bmin(b, i, k) <= o_at(r, i) && o_at(r, i) <= bmax(b, i, k)
}

/// Positive denominator of the entry/exit fractions on axis `i`: the
/// absolute value of the direction component.
pub open spec fn slab_den(r: &WRay, i: int) -> int {
    if d_at(r, i) < 0 {
        -d_at(r, i)
    } else {
        d_at(r, i)
    }
}

/// Numerator of the near (entry) parameter on axis `i` at lane `k`, over
/// denominator `slab_den`: the parameter of the plane the ray meets first,
/// selected by the direction's sign.  On an inverted (invalid) slab this
/// stays above `slab_hi`, so the lane's interval is empty and the lane can
/// never report a hit.
pub open spec fn slab_lo(b: &WAABB, r: &WRay, i: int, k: int) -> int {
    if d_at(r, i) > 0 {
        bmin(b, i, k) - o_at(r, i)
    } else {
        o_at(r, i) - bmax(b, i, k)
    }
}

/// Numerator of the far (exit) parameter on axis `i` at lane `k`, over
/// denominator `slab_den`: the parameter of the plane the ray leaves last,
/// selected by the direction's sign.
pub open spec fn slab_hi(b: &WAABB, r: &WRay, i: int, k: int) -> int {
    if d_at(r, i) > 0 {
        bmax(b, i, k) - o_at(r, i)
    } else {
        o_at(r, i) - bmin(b, i, k)
    }
}

/// `an/ad <= bn/bd` for fractions with positive denominators, by
/// cross-multiplication.
pub open spec fn frac_le(an: int, ad: int, bn: int, bd: int) -> bool {
    an * bd <= bn * ad
}

/// Shape of every fraction the slab test manipulates: denominator positive
/// and at most `2^63`, numerator below `2^64` in magnitude.  Within these
/// bounds cross-multiplication fits in 128 bits.
pub open spec fn frac_wf(n: int, d: int) -> bool {
    &&& 0 < d <= i64::MAX as int + 1
    &&& -(u64::MAX as int) <= n <= u64::MAX as int
}

/// What the slab test returns at lane `k` for a parametric range
/// `[0, toi]`: the origin sits inside every slab whose axis the ray is
/// parallel to, and the interval `[0, toi]`, narrowed by the entry/exit
/// fractions of every other axis, is non-empty — said pairwise: every lower
/// bound is at most every upper bound.
pub open spec fn ray_hit_lane(b: &WAABB, r: &WRay, toi: int, k: int) -> bool {
    &&& forall|i: int| 0 <= i < DIM && d_at(r, i) == 0 ==> #[trigger] in_slab(b, r, i, k)
    &&& ((exists|i: int| 0 <= i < DIM && #[trigger] d_at(r, i) != 0) ==> 0 <= toi)
    &&& forall|i: int| 0 <= i < DIM && d_at(r, i) != 0 ==> 0 <= #[trigger] slab_hi(b, r, i, k)
    &&& forall|i: int|
        0 <= i < DIM && d_at(r, i) != 0 ==> #[trigger] slab_lo(b, r, i, k) <= toi * slab_den(r, i)
    &&& forall|i: int, j: int|
        #![trigger slab_lo(b, r, i, k), slab_hi(b, r, j, k)]
        0 <= i < DIM && 0 <= j < DIM && d_at(r, i) != 0 && d_at(r, j) != 0 ==> slab_lo(b, r, i, k)
            * slab_den(r, j) <= slab_hi(b, r, j, k) * slab_den(r, i)
}

/// Ordering of fractions with positive denominators is transitive.
proof fn lemma_frac_le_trans(an: int, ad: int, bn: int, bd: int, cn: int, cd: int)
    by (nonlinear_arith)
    requires
        ad > 0,
        bd > 0,
        cd > 0,
        frac_le(an, ad, bn, bd),
        frac_le(bn, bd, cn, cd),
    ensures
        frac_le(an, ad, cn, cd),
{
}

/// At the end of the axis sweep, the running interval and hit flag decide
/// the lane result: the flag equals the pairwise characterization.
proof fn lemma_final_hit(
    b: &WAABB,
    r: &WRay,
    toi: int,
    k: int,
    tn: int,
    td: int,
    xn: int,
    xd: int,
    hit: bool,
)
    requires
        frac_wf(tn, td),
        frac_wf(xn, xd),
        (tn == 0 && td == 1) || (exists|j: int|
            0 <= j < DIM && #[trigger] d_at(r, j) != 0 && tn == slab_lo(b, r, j, k) && td
                == slab_den(r, j)),
        (xn == toi && xd == 1) || (exists|j: int|
            0 <= j < DIM && #[trigger] d_at(r, j) != 0 && xn == slab_hi(b, r, j, k) && xd
                == slab_den(r, j)),
        frac_le(0, 1, tn, td),
        forall|j: int|
            0 <= j < DIM && d_at(r, j) != 0 ==> frac_le(
                #[trigger] slab_lo(b, r, j, k),
                slab_den(r, j),
                tn,
                td,
            ),
        frac_le(xn, xd, toi, 1),
        forall|j: int|
            0 <= j < DIM && d_at(r, j) != 0 ==> frac_le(
                xn,
                xd,
                #[trigger] slab_hi(b, r, j, k),
                slab_den(r, j),
            ),
        hit == ((forall|j: int|
            0 <= j < DIM && d_at(r, j) == 0 ==> #[trigger] in_slab(b, r, j, k)) && ((exists|j: int|
            0 <= j < DIM && #[trigger] d_at(r, j) != 0) ==> frac_le(tn, td, xn, xd))),
    ensures
        hit == ray_hit_lane(b, r, toi, k),
{
    if hit {
        if exists|j: int| 0 <= j < DIM && #[trigger] d_at(r, j) != 0 {
            assert(frac_le(tn, td, xn, xd));
            lemma_frac_le_trans(0, 1, tn, td, xn, xd);
            lemma_frac_le_trans(0, 1, xn, xd, toi, 1);
            assert(0 <= toi);
            assert forall|i2: int| 0 <= i2 < DIM && d_at(r, i2) != 0 implies 0
                <= #[trigger] slab_hi(b, r, i2, k) by {
                assert(frac_le(xn, xd, slab_hi(b, r, i2, k), slab_den(r, i2)));
                lemma_frac_le_trans(0, 1, xn, xd, slab_hi(b, r, i2, k), slab_den(r, i2));
            }
            assert forall|i2: int| 0 <= i2 < DIM && d_at(r, i2) != 0 implies #[trigger] slab_lo(
                b,
                r,
                i2,
                k,
            ) <= toi * slab_den(r, i2) by {
                assert(frac_le(slab_lo(b, r, i2, k), slab_den(r, i2), tn, td));
                lemma_frac_le_trans(slab_lo(b, r, i2, k), slab_den(r, i2), tn, td, xn, xd);
                lemma_frac_le_trans(slab_lo(b, r, i2, k), slab_den(r, i2), xn, xd, toi, 1);
            }
            assert forall|i2: int, j2: int|
                #![trigger slab_lo(b, r, i2, k), slab_hi(b, r, j2, k)]
                0 <= i2 < DIM && 0 <= j2 < DIM && d_at(r, i2) != 0 && d_at(r, j2)
                    != 0 implies slab_lo(b, r, i2, k) * slab_den(r, j2) <= slab_hi(b, r, j2, k)
                * slab_den(r, i2) by {
                assert(frac_le(slab_lo(b, r, i2, k), slab_den(r, i2), tn, td));
                assert(frac_le(xn, xd, slab_hi(b, r, j2, k), slab_den(r, j2)));
                lemma_frac_le_trans(slab_lo(b, r, i2, k), slab_den(r, i2), tn, td, xn, xd);
                lemma_frac_le_trans(
                    slab_lo(b, r, i2, k),
                    slab_den(r, i2),
                    xn,
                    xd,
                    slab_hi(b, r, j2, k),
                    slab_den(r, j2),
                );
            }
        } else {
            assert forall|j: int| 0 <= j < DIM implies #[trigger] d_at(r, j) == 0 by {
                if d_at(r, j) != 0 {
                    assert(exists|j2: int| 0 <= j2 < DIM && #[trigger] d_at(r, j2) != 0);
                }
            }
        }
        assert(ray_hit_lane(b, r, toi, k));
    } else {
        assert(!ray_hit_lane(b, r, toi, k)) by {
            if ray_hit_lane(b, r, toi, k) {
                assert(forall|j: int|
                    0 <= j < DIM && d_at(r, j) == 0 ==> #[trigger] in_slab(b, r, j, k));
                if exists|j: int| 0 <= j < DIM && #[trigger] d_at(r, j) != 0 {
                    assert(!frac_le(tn, td, xn, xd));
                    if tn == 0 && td == 1 {
                        if xn == toi && xd == 1 {
                            assert(0 <= toi);
                            assert(frac_le(0, 1, toi, 1));
                        } else {
                            let j0 = choose|j: int|
                                0 <= j < DIM && #[trigger] d_at(r, j) != 0 && xn == slab_hi(
                                    b,
                                    r,
                                    j,
                                    k,
                                ) && xd == slab_den(r, j);
                            assert(0 <= slab_hi(b, r, j0, k));
                            assert(frac_le(0, 1, xn, xd));
                        }
                    } else {
                        let i0 = choose|j: int|
                            0 <= j < DIM && #[trigger] d_at(r, j) != 0 && tn == slab_lo(b, r, j, k)
                                && td == slab_den(r, j);
                        if xn == toi && xd == 1 {
                            assert(slab_lo(b, r, i0, k) <= toi * slab_den(r, i0));
                            assert(frac_le(tn, td, toi, 1));
                        } else {
                            let j0 = choose|j: int|
                                0 <= j < DIM && #[trigger] d_at(r, j) != 0 && xn == slab_hi(
                                    b,
                                    r,
                                    j,
                                    k,
                                ) && xd == slab_den(r, j);
                            assert(slab_lo(b, r, i0, k) * slab_den(r, j0) <= slab_hi(b, r, j0, k)
                                * slab_den(r, i0));
                            assert(frac_le(tn, td, xn, xd));
                        }
                    }
                    assert(false);
                }
            }
        }
    }
}

/// Compare two fractions with positive denominators by cross-multiplying
/// in 128-bit arithmetic.
fn frac_le_exec(an: i128, ad: i128, bn: i128, bd: i128) -> (r: bool)
    requires
        frac_wf(an as int, ad as int),
        frac_wf(bn as int, bd as int),
    ensures
        r == frac_le(an as int, ad as int, bn as int, bd as int),
{
    proof {
        assert(i128::MIN as int <= an * bd <= i128::MAX as int) by (nonlinear_arith)
            requires
                0 < bd <= i64::MAX as int + 1,
                -(u64::MAX as int) <= an <= u64::MAX as int,
        ;
        assert(i128::MIN as int <= bn * ad <= i128::MAX as int) by (nonlinear_arith)
            requires
                0 < ad <= i64::MAX as int + 1,
                -(u64::MAX as int) <= bn <= u64::MAX as int,
        ;
    }
    an * bd <= bn * ad
}

/// The slab test for one lane: entry/exit fractions per axis with nonzero
/// direction, point-in-slab tests for the others.
#[verifier::rlimit(100)]
fn hit_one_lane(b: &WAABB, r: &WRay, toi: i64, k: usize) -> (h: bool)
    requires
        b.wf(),
        r.wf(),
        k < LANES,
    ensures
        h == ray_hit_lane(b, r, toi as int, k as int),
{
    let mut hit = true;
    let mut tn: i128 = 0;
    let mut td: i128 = 1;
    let mut xn: i128 = toi as i128;
    let mut xd: i128 = 1;
    let mut i: usize = 0;
    while i < DIM
        invariant
            b.wf(),
            r.wf(),
            k < LANES,
            i <= DIM,
            frac_wf(tn as int, td as int),
            frac_wf(xn as int, xd as int),
            (tn == 0 && td == 1) || (exists|j: int|
                0 <= j < i && #[trigger] d_at(r, j) != 0 && tn as int == slab_lo(b, r, j, k as int)
                    && td as int == slab_den(r, j)),
            (xn as int == toi as int && xd == 1) || (exists|j: int|
                0 <= j < i && #[trigger] d_at(r, j) != 0 && xn as int == slab_hi(b, r, j, k as int)
                    && xd as int == slab_den(r, j)),
            frac_le(0, 1, tn as int, td as int),
            forall|j: int|
                0 <= j < i && d_at(r, j) != 0 ==> frac_le(
                    #[trigger] slab_lo(b, r, j, k as int),
                    slab_den(r, j),
                    tn as int,
                    td as int,
                ),
            frac_le(xn as int, xd as int, toi as int, 1),
            forall|j: int|
                0 <= j < i && d_at(r, j) != 0 ==> frac_le(
                    xn as int,
                    xd as int,
                    #[trigger] slab_hi(b, r, j, k as int),
                    slab_den(r, j),
                ),
            hit == ((forall|j: int|
                0 <= j < i && d_at(r, j) == 0 ==> #[trigger] in_slab(b, r, j, k as int)) && ((
            exists|j: int| 0 <= j < i && #[trigger] d_at(r, j) != 0) ==> frac_le(
                tn as int,
                td as int,
                xn as int,
                xd as int,
            ))),
        decreases DIM - i,
    {
        let o = r.origin.coords[i];
        let d = r.dir.coords[i];
        let mn = b.mins[i][k];
        let mx = b.maxs[i][k];
        let ghost otn = tn as int;
        let ghost otd = td as int;
        let ghost oxn = xn as int;
        let ghost oxd = xd as int;
        let ghost ohit = hit;
        if d == 0 {
            let ok = mn <= o && o <= mx;
            hit = hit && ok;
            proof {
                assert(ok == in_slab(b, r, i as int, k as int));
                assert forall|j: int|
                    0 <= j < i + 1 && d_at(r, j) == 0 implies #[trigger] in_slab(
                    b,
                    r,
                    j,
                    k as int,
                ) == (if j == i as int {
                    ok
                } else {
                    in_slab(b, r, j, k as int)
                }) by {}
                assert((exists|j: int| 0 <= j < i + 1 && #[trigger] d_at(r, j) != 0) == (exists|
                    j: int,
                |
                    0 <= j < i && #[trigger] d_at(r, j) != 0)) by {
                    if exists|j: int| 0 <= j < i + 1 && #[trigger] d_at(r, j) != 0 {
                        let j0 = choose|j: int| 0 <= j < i + 1 && #[trigger] d_at(r, j) != 0;
                        assert(j0 != i as int);
                        assert(0 <= j0 < i && d_at(r, j0) != 0);
                    }
                }
            }
        } else {
            let (lo, hi, den): (i128, i128, i128) = if d > 0 {
                (mn as i128 - o as i128, mx as i128 - o as i128, d as i128)
            } else {
                (o as i128 - mx as i128, o as i128 - mn as i128, -(d as i128))
            };
            proof {
                assert(den as int == slab_den(r, i as int));
                assert(lo as int == slab_lo(b, r, i as int, k as int));
                assert(hi as int == slab_hi(b, r, i as int, k as int));
                assert(frac_wf(lo as int, den as int));
                assert(frac_wf(hi as int, den as int));
            }
            let up_min = frac_le_exec(tn, td, lo, den);
            if up_min {
                tn = lo;
                td = den;
            }
            let up_max = frac_le_exec(hi, den, xn, xd);
            if up_max {
                xn = hi;
                xd = den;
            }
            let cont = frac_le_exec(tn, td, xn, xd);
            hit = hit && cont;
            proof {
                let ii = i as int;
                let ki = k as int;
                // the interval only narrows
                assert(frac_le(otn, otd, tn as int, td as int));
                assert(frac_le(xn as int, xd as int, oxn, oxd));
                // lower-bound dominance and membership
                assert(frac_le(0, 1, tn as int, td as int)) by {
                    if up_min {
                        lemma_frac_le_trans(0, 1, otn, otd, tn as int, td as int);
                    }
                }
                assert forall|j: int| 0 <= j < i + 1 && d_at(r, j) != 0 implies frac_le(
                    #[trigger] slab_lo(b, r, j, ki),
                    slab_den(r, j),
                    tn as int,
                    td as int,
                ) by {
                    if j == ii {
                        if !up_min {
                            assert(!frac_le(otn, otd, lo as int, den as int));
                        }
                    } else {
                        assert(frac_le(slab_lo(b, r, j, ki), slab_den(r, j), otn, otd));
                        if up_min {
                            lemma_frac_le_trans(
                                slab_lo(b, r, j, ki),
                                slab_den(r, j),
                                otn,
                                otd,
                                tn as int,
                                td as int,
                            );
                        }
                    }
                }
                if up_min {
                    assert(0 <= ii < i + 1 && d_at(r, ii) != 0 && tn as int == slab_lo(b, r, ii, ki)
                        && td as int == slab_den(r, ii));
                } else {
                    if !(otn == 0 && otd == 1) {
                        let j0 = choose|j: int|
                            0 <= j < i && #[trigger] d_at(r, j) != 0 && otn == slab_lo(b, r, j, ki)
                                && otd == slab_den(r, j);
                        assert(0 <= j0 < i + 1 && d_at(r, j0) != 0 && tn as int == slab_lo(
                            b,
                            r,
                            j0,
                            ki,
                        ) && td as int == slab_den(r, j0));
                    }
                }
                // upper-bound dominance and membership
                assert(frac_le(xn as int, xd as int, toi as int, 1)) by {
                    if up_max {
                        lemma_frac_le_trans(xn as int, xd as int, oxn, oxd, toi as int, 1);
                    }
                }
                assert forall|j: int| 0 <= j < i + 1 && d_at(r, j) != 0 implies frac_le(
                    xn as int,
                    xd as int,
                    #[trigger] slab_hi(b, r, j, ki),
                    slab_den(r, j),
                ) by {
                    if j == ii {
                        if !up_max {
                            assert(!frac_le(hi as int, den as int, oxn, oxd));
                        }
                    } else {
                        assert(frac_le(oxn, oxd, slab_hi(b, r, j, ki), slab_den(r, j)));
                        if up_max {
                            lemma_frac_le_trans(
                                xn as int,
                                xd as int,
                                oxn,
                                oxd,
                                slab_hi(b, r, j, ki),
                                slab_den(r, j),
                            );
                        }
                    }
                }
                if up_max {
                    assert(0 <= ii < i + 1 && d_at(r, ii) != 0 && xn as int == slab_hi(b, r, ii, ki)
                        && xd as int == slab_den(r, ii));
                } else {
                    if !(oxn == toi as int && oxd == 1) {
                        let j0 = choose|j: int|
                            0 <= j < i && #[trigger] d_at(r, j) != 0 && oxn == slab_hi(b, r, j, ki)
                                && oxd == slab_den(r, j);
                        assert(0 <= j0 < i + 1 && d_at(r, j0) != 0 && xn as int == slab_hi(
                            b,
                            r,
                            j0,
                            ki,
                        ) && xd as int == slab_den(r, j0));
                    }
                }
                // the per-lane hit flag keeps its meaning
                assert((forall|j: int|
                    0 <= j < i + 1 && d_at(r, j) == 0 ==> #[trigger] in_slab(b, r, j, ki))
                    == (forall|j: int|
                    0 <= j < i && d_at(r, j) == 0 ==> #[trigger] in_slab(b, r, j, ki))) by {
                    if forall|j: int| 0 <= j < i && d_at(r, j) == 0 ==> #[trigger] in_slab(
                        b,
                        r,
                        j,
                        ki,
                    ) {
                        assert forall|j: int|
                            0 <= j < i + 1 && d_at(r, j) == 0 implies #[trigger] in_slab(
                            b,
                            r,
                            j,
                            ki,
                        ) by {
                            assert(j != ii);
                        }
                    }
                }
                if !ohit {
                    if (forall|j: int|
                        0 <= j < i && d_at(r, j) == 0 ==> #[trigger] in_slab(b, r, j, ki)) {
                        assert((exists|j: int| 0 <= j < i && #[trigger] d_at(r, j) != 0)
                            && !frac_le(otn, otd, oxn, oxd));
                        assert(!frac_le(tn as int, td as int, xn as int, xd as int)) by {
                            if frac_le(tn as int, td as int, xn as int, xd as int) {
                                lemma_frac_le_trans(
                                    otn,
                                    otd,
                                    tn as int,
                                    td as int,
                                    xn as int,
                                    xd as int,
                                );
                                lemma_frac_le_trans(otn, otd, xn as int, xd as int, oxn, oxd);
                            }
                        }
                    }
                }
            }
        }
        i = i + 1;
    }
    proof {
        lemma_final_hit(
            b,
            r,
            toi as int,
            k as int,
            tn as int,
            td as int,
            xn as int,
            xd as int,
            hit,
        );
    }
    hit
}

/// The slab-test conditions with the point-in-slab test of one axis left
/// out.  Only axes with zero direction contribute such tests, so for a
/// zero-direction axis this is "the test passes on every other axis".
pub open spec fn ray_hit_lane_ignoring(b: &WAABB, r: &WRay, toi: int, k: int, skip: int) -> bool {
    &&& forall|i: int|
        0 <= i < DIM && i != skip && d_at(r, i) == 0 ==> #[trigger] in_slab(b, r, i, k)
    &&& ((exists|i: int| 0 <= i < DIM && #[trigger] d_at(r, i) != 0) ==> 0 <= toi)
    &&& forall|i: int| 0 <= i < DIM && d_at(r, i) != 0 ==> 0 <= #[trigger] slab_hi(b, r, i, k)
    &&& forall|i: int|
        0 <= i < DIM && d_at(r, i) != 0 ==> #[trigger] slab_lo(b, r, i, k) <= toi * slab_den(r, i)
    &&& forall|i: int, j: int|
        #![trigger slab_lo(b, r, i, k), slab_hi(b, r, j, k)]
        0 <= i < DIM && 0 <= j < DIM && d_at(r, i) != 0 && d_at(r, j) != 0 ==> slab_lo(b, r, i, k)
            * slab_den(r, j) <= slab_hi(b, r, j, k) * slab_den(r, i)
}

/// Axis-aligned-ray degeneracy: on an axis whose direction component is
/// zero, the lane hits exactly when the origin lies inside that axis's
/// slab and the test passes on the remaining axes; in particular an origin
/// outside that slab is a miss regardless of the parametric range.
pub proof fn lemma_axis_parallel_degeneracy(b: &WAABB, r: &WRay, toi: int, k: int, i: int)
    requires
        0 <= i < DIM,
        d_at(r, i) == 0,
    ensures
        !in_slab(b, r, i, k) ==> !ray_hit_lane(b, r, toi, k),
        ray_hit_lane(b, r, toi, k) == (in_slab(b, r, i, k) && ray_hit_lane_ignoring(
            b,
            r,
            toi,
            k,
            i,
        )),
{
    if in_slab(b, r, i, k) && ray_hit_lane_ignoring(b, r, toi, k, i) {
        assert forall|j: int| 0 <= j < DIM && d_at(r, j) == 0 implies #[trigger] in_slab(
            b,
            r,
            j,
            k,
        ) by {
            if j != i {
                assert(in_slab(b, r, j, k));
            }
        }
        assert(ray_hit_lane(b, r, toi, k));
    }
}

/// At parameter `p/q` (a nonnegative rational), the point of the broadcast
/// ray lies inside the box at lane `k` on every axis, all inequalities
/// cleared of the denominator `q`.
pub open spec fn param_in_box(b: &WAABB, r: &WRay, k: int, p: int, q: int) -> bool {
    forall|i: int|
        #![trigger bmin(b, i, k)]
        0 <= i < DIM ==> bmin(b, i, k) * q <= o_at(r, i) * q + p * d_at(r, i) && o_at(r, i) * q + p
            * d_at(r, i) <= bmax(b, i, k) * q
}

/// The scalar parametric ray-box test: some rational parameter in
/// `[0, toi]` puts the ray point inside the box at lane `k`.
pub open spec fn ray_param_hit(b: &WAABB, r: &WRay, toi: int, k: int) -> bool {
    exists|p: int, q: int|
        q > 0 && 0 <= p && p <= toi * q && #[trigger] param_in_box(b, r, k, p, q)
}

/// On an axis the ray crosses, the parametric point-in-box inequalities
/// give the entry/exit fraction bounds.
proof fn lemma_axis_from_param(b: &WAABB, r: &WRay, k: int, i: int, p: int, q: int)
    requires
        0 <= i < DIM,
        d_at(r, i) != 0,
        q > 0,
        bmin(b, i, k) * q <= o_at(r, i) * q + p * d_at(r, i),
        o_at(r, i) * q + p * d_at(r, i) <= bmax(b, i, k) * q,
    ensures
        slab_lo(b, r, i, k) * q <= p * slab_den(r, i),
        p * slab_den(r, i) <= slab_hi(b, r, i, k) * q,
{
    let mn = bmin(b, i, k);
    let mx = bmax(b, i, k);
    let o = o_at(r, i);
    let d = d_at(r, i);
    if d > 0 {
        assert(slab_lo(b, r, i, k) == mn - o && slab_hi(b, r, i, k) == mx - o && slab_den(r, i)
            == d);
        assert((mn - o) * q <= p * d && p * d <= (mx - o) * q) by (nonlinear_arith)
            requires
                mn * q <= o * q + p * d,
                o * q + p * d <= mx * q,
        ;
    } else {
        assert(slab_lo(b, r, i, k) == o - mx && slab_hi(b, r, i, k) == o - mn && slab_den(r, i)
            == -d);
        assert((o - mx) * q <= p * (-d) && p * (-d) <= (o - mn) * q) by (nonlinear_arith)
            requires
                mn * q <= o * q + p * d,
                o * q + p * d <= mx * q,
        ;
    }
}

/// The converse of `lemma_axis_from_param`: fraction bounds at an axis give
/// back the parametric point-in-box inequalities.
proof fn lemma_param_from_axis(b: &WAABB, r: &WRay, k: int, i: int, p: int, q: int)
    requires
        0 <= i < DIM,
        d_at(r, i) != 0,
        q > 0,
        slab_lo(b, r, i, k) * q <= p * slab_den(r, i),
        p * slab_den(r, i) <= slab_hi(b, r, i, k) * q,
    ensures
        bmin(b, i, k) * q <= o_at(r, i) * q + p * d_at(r, i),
        o_at(r, i) * q + p * d_at(r, i) <= bmax(b, i, k) * q,
{
    let mn = bmin(b, i, k);
    let mx = bmax(b, i, k);
    let o = o_at(r, i);
    let d = d_at(r, i);
    if d > 0 {
        assert(slab_lo(b, r, i, k) == mn - o && slab_hi(b, r, i, k) == mx - o && slab_den(r, i)
            == d);
        assert(mn * q <= o * q + p * d && o * q + p * d <= mx * q) by (nonlinear_arith)
            requires
                (mn - o) * q <= p * d,
                p * d <= (mx - o) * q,
        ;
    } else {
        assert(slab_lo(b, r, i, k) == o - mx && slab_hi(b, r, i, k) == o - mn && slab_den(r, i)
            == -d);
        assert(mn * q <= o * q + p * d && o * q + p * d <= mx * q) by (nonlinear_arith)
            requires
                (o - mx) * q <= p * (-d),
                p * (-d) <= (o - mn) * q,
        ;
    }
}

/// The largest lower bound among `[0, _]` and the entry fractions of the
/// first `i` axes, as a fraction.
spec fn tmin_fold(b: &WAABB, r: &WRay, k: int, i: int) -> (int, int)
    decreases i,
{
    if i <= 0 {
        (0int, 1int)
    } else {
        let prev = tmin_fold(b, r, k, i - 1);
        if d_at(r, i - 1) != 0 && frac_le(prev.0, prev.1, slab_lo(b, r, i - 1, k), slab_den(
            r,
            i - 1,
        )) {
            (slab_lo(b, r, i - 1, k), slab_den(r, i - 1))
        } else {
            prev
        }
    }
}

/// The fold really is the maximum of the lower bounds: it dominates all of
/// them and is one of them.
proof fn lemma_tmin_fold_props(b: &WAABB, r: &WRay, k: int, i: int)
    requires
        0 <= i,
    ensures
        tmin_fold(b, r, k, i).1 > 0,
        frac_le(0, 1, tmin_fold(b, r, k, i).0, tmin_fold(b, r, k, i).1),
        forall|j: int|
            0 <= j < i && d_at(r, j) != 0 ==> frac_le(
                #[trigger] slab_lo(b, r, j, k),
                slab_den(r, j),
                tmin_fold(b, r, k, i).0,
                tmin_fold(b, r, k, i).1,
            ),
        (tmin_fold(b, r, k, i) == (0int, 1int)) || (exists|j: int|
            0 <= j < i && #[trigger] d_at(r, j) != 0 && tmin_fold(b, r, k, i).0 == slab_lo(
                b,
                r,
                j,
                k,
            ) && tmin_fold(b, r, k, i).1 == slab_den(r, j)),
    decreases i,
{
    if i == 0 {
    } else {
        lemma_tmin_fold_props(b, r, k, i - 1);
        let prev = tmin_fold(b, r, k, i - 1);
        let cur = tmin_fold(b, r, k, i);
        if d_at(r, i - 1) != 0 && frac_le(prev.0, prev.1, slab_lo(b, r, i - 1, k), slab_den(
            r,
            i - 1,
        )) {
            assert(cur == (slab_lo(b, r, i - 1, k), slab_den(r, i - 1)));
            lemma_frac_le_trans(0, 1, prev.0, prev.1, cur.0, cur.1);
            assert forall|j: int| 0 <= j < i && d_at(r, j) != 0 implies frac_le(
                #[trigger] slab_lo(b, r, j, k),
                slab_den(r, j),
                cur.0,
                cur.1,
            ) by {
                if j < i - 1 {
                    lemma_frac_le_trans(
                        slab_lo(b, r, j, k),
                        slab_den(r, j),
                        prev.0,
                        prev.1,
                        cur.0,
                        cur.1,
                    );
                }
            }
            assert(0 <= i - 1 < i && d_at(r, i - 1) != 0 && cur.0 == slab_lo(b, r, i - 1, k)
                && cur.1 == slab_den(r, i - 1));
        } else {
            assert(cur == prev);
            assert forall|j: int| 0 <= j < i && d_at(r, j) != 0 implies frac_le(
                #[trigger] slab_lo(b, r, j, k),
                slab_den(r, j),
                cur.0,
                cur.1,
            ) by {
                if j == i - 1 {
                    assert(!frac_le(cur.0, cur.1, slab_lo(b, r, j, k), slab_den(r, j)));
                }
            }
            if !(cur == (0int, 1int)) {
                let j0 = choose|j: int|
                    0 <= j < i - 1 && #[trigger] d_at(r, j) != 0 && prev.0 == slab_lo(b, r, j, k)
                        && prev.1 == slab_den(r, j);
                assert(0 <= j0 < i && d_at(r, j0) != 0 && cur.0 == slab_lo(b, r, j0, k) && cur.1
                    == slab_den(r, j0));
            }
        }
    }
}

/// Lane-wise agreement of the packed slab test with the scalar parametric
/// ray-box test: for any box lane — valid, zero-extent or inverted — and a
/// nonnegative parametric range, the slab test reports a hit exactly when
/// some rational parameter in `[0, toi]` puts the ray point inside the box.
pub proof fn lemma_slab_test_parametric(b: &WAABB, r: &WRay, toi: int, k: int)
    requires
        b.wf(),
        r.wf(),
        0 <= k < LANES,
        0 <= toi,
    ensures
        ray_hit_lane(b, r, toi, k) == ray_param_hit(b, r, toi, k),
{
    if ray_param_hit(b, r, toi, k) {
        let (p, q) = choose|p: int, q: int|
            q > 0 && 0 <= p && p <= toi * q && #[trigger] param_in_box(b, r, k, p, q);
        assert forall|i: int| 0 <= i < DIM && d_at(r, i) == 0 implies #[trigger] in_slab(
            b,
            r,
            i,
            k,
        ) by {
            assert(bmin(b, i, k) * q <= o_at(r, i) * q + p * d_at(r, i));
            assert(o_at(r, i) * q <= bmax(b, i, k) * q) by {
                assert(o_at(r, i) * q + p * d_at(r, i) <= bmax(b, i, k) * q);
                assert(p * d_at(r, i) == 0) by (nonlinear_arith)
                    requires
                        d_at(r, i) == 0,
                ;
            }
            assert(bmin(b, i, k) <= o_at(r, i) && o_at(r, i) <= bmax(b, i, k))
                by (nonlinear_arith)
                requires
                    q > 0,
                    bmin(b, i, k) * q <= o_at(r, i) * q,
                    o_at(r, i) * q <= bmax(b, i, k) * q,
            ;
        }
        assert forall|i: int| 0 <= i < DIM && d_at(r, i) != 0 implies 0 <= #[trigger] slab_hi(
            b,
            r,
            i,
            k,
        ) by {
            assert(param_in_box(b, r, k, p, q));
            assert(bmin(b, i, k) * q <= o_at(r, i) * q + p * d_at(r, i));
            assert(o_at(r, i) * q + p * d_at(r, i) <= bmax(b, i, k) * q);
            lemma_axis_from_param(b, r, k, i, p, q);
            assert(0 <= slab_hi(b, r, i, k)) by (nonlinear_arith)
                requires
                    q > 0,
                    0 <= p,
                    slab_den(r, i) > 0,
                    p * slab_den(r, i) <= slab_hi(b, r, i, k) * q,
            ;
        }
        assert forall|i: int| 0 <= i < DIM && d_at(r, i) != 0 implies #[trigger] slab_lo(b, r, i, k)
            <= toi * slab_den(r, i) by {
            assert(bmin(b, i, k) * q <= o_at(r, i) * q + p * d_at(r, i));
            assert(o_at(r, i) * q + p * d_at(r, i) <= bmax(b, i, k) * q);
            lemma_axis_from_param(b, r, k, i, p, q);
            assert(slab_lo(b, r, i, k) <= toi * slab_den(r, i)) by (nonlinear_arith)
                requires
                    q > 0,
                    p <= toi * q,
                    slab_den(r, i) > 0,
                    slab_lo(b, r, i, k) * q <= p * slab_den(r, i),
            ;
        }
        assert forall|i: int, j: int|
            #![trigger slab_lo(b, r, i, k), slab_hi(b, r, j, k)]
            0 <= i < DIM && 0 <= j < DIM && d_at(r, i) != 0 && d_at(r, j) != 0 implies slab_lo(
            b,
            r,
            i,
            k,
        ) * slab_den(r, j) <= slab_hi(b, r, j, k) * slab_den(r, i) by {
            assert(bmin(b, i, k) * q <= o_at(r, i) * q + p * d_at(r, i));
            assert(o_at(r, i) * q + p * d_at(r, i) <= bmax(b, i, k) * q);
            assert(bmin(b, j, k) * q <= o_at(r, j) * q + p * d_at(r, j));
            assert(o_at(r, j) * q + p * d_at(r, j) <= bmax(b, j, k) * q);
            lemma_axis_from_param(b, r, k, i, p, q);
            lemma_axis_from_param(b, r, k, j, p, q);
            assert(slab_lo(b, r, i, k) * slab_den(r, j) <= slab_hi(b, r, j, k) * slab_den(r, i))
                by (nonlinear_arith)
                requires
                    q > 0,
                    slab_den(r, i) > 0,
                    slab_den(r, j) > 0,
                    slab_lo(b, r, i, k) * q <= p * slab_den(r, i),
                    p * slab_den(r, j) <= slab_hi(b, r, j, k) * q,
            ;
        }
        assert(ray_hit_lane(b, r, toi, k));
    }
    if ray_hit_lane(b, r, toi, k) {
        lemma_tmin_fold_props(b, r, k, DIM as int);
        let (p, q) = tmin_fold(b, r, k, DIM as int);
        assert(0 <= p) by {
            assert(frac_le(0, 1, p, q));
        }
        assert(p <= toi * q) by {
            if (p, q) == (0int, 1int) {
            } else {
                let j0 = choose|j: int|
                    0 <= j < DIM && #[trigger] d_at(r, j) != 0 && p == slab_lo(b, r, j, k) && q
                        == slab_den(r, j);
                assert(slab_lo(b, r, j0, k) <= toi * slab_den(r, j0));
            }
        }
        assert forall|i: int|
            #![trigger bmin(b, i, k)]
            0 <= i < DIM implies bmin(b, i, k) * q <= o_at(r, i) * q + p * d_at(r, i) && o_at(r, i)
            * q + p * d_at(r, i) <= bmax(b, i, k) * q by {
            if d_at(r, i) == 0 {
                assert(in_slab(b, r, i, k));
                assert(p * d_at(r, i) == 0) by (nonlinear_arith)
                    requires
                        d_at(r, i) == 0,
                ;
                assert(bmin(b, i, k) * q <= o_at(r, i) * q && o_at(r, i) * q <= bmax(b, i, k) * q)
                    by (nonlinear_arith)
                    requires
                        q > 0,
                        bmin(b, i, k) <= o_at(r, i),
                        o_at(r, i) <= bmax(b, i, k),
                ;
            } else {
                assert(frac_le(slab_lo(b, r, i, k), slab_den(r, i), p, q));
                assert(p * slab_den(r, i) <= slab_hi(b, r, i, k) * q) by {
                    if (p, q) == (0int, 1int) {
                        assert(0 <= slab_hi(b, r, i, k));
                        assert(p * slab_den(r, i) == 0) by (nonlinear_arith)
                            requires
                                p == 0,
                        ;
                    } else {
                        let j0 = choose|j: int|
                            0 <= j < DIM && #[trigger] d_at(r, j) != 0 && p == slab_lo(b, r, j, k)
                                && q == slab_den(r, j);
                        assert(slab_lo(b, r, j0, k) * slab_den(r, i) <= slab_hi(b, r, i, k)
                            * slab_den(r, j0));
                    }
                }
                lemma_param_from_axis(b, r, k, i, p, q);
            }
        }
        assert(param_in_box(b, r, k, p, q));
        assert(ray_param_hit(b, r, toi, k));
    }
}

/// Sentinel absorption for the ray test: a packed value whose every lane
/// is the sentinel-invalid box reports no ray hit in any lane, for every
/// ray and every parametric range.  On an axis the ray crosses, the
/// sentinel slab is inverted and its interval empty; on an axis the ray is
/// parallel to, the origin cannot sit between the two infinity sentinels.
pub proof fn lemma_sentinel_never_ray_hits(inv: &WAABB, r: &WRay, toi: int)
    requires
        inv.wf(),
        r.wf(),
        forall|i: int, k: int|
            0 <= i < DIM && 0 <= k < LANES ==> inv.min_at(i, k) == POS_INF && inv.max_at(i, k)
                == NEG_INF,
    ensures
        forall|k: int| 0 <= k < LANES ==> !ray_hit_lane(inv, r, toi, k),
{
    assert forall|k: int| 0 <= k < LANES implies !ray_hit_lane(inv, r, toi, k) by {
        assert(bmin(inv, 0, k) == POS_INF as int && bmax(inv, 0, k) == NEG_INF as int);
        if d_at(r, 0) == 0 {
            assert(!in_slab(inv, r, 0, k));
        } else {
            assert(slab_lo(inv, r, 0, k) > slab_hi(inv, r, 0, k));
            assert(slab_lo(inv, r, 0, k) * slab_den(r, 0) > slab_hi(inv, r, 0, k) * slab_den(r, 0))
                by (nonlinear_arith)
                requires
                    slab_lo(inv, r, 0, k) > slab_hi(inv, r, 0, k),
                    slab_den(r, 0) > 0,
            ;
        }
    }
}

impl WAABB {
    /// Lane-wise slab test: one boolean per lane, true exactly where the
    /// broadcast ray hits that lane's box within the parametric range
    /// `[0, max_toi[k]]`.
    pub fn intersects_ray(&self, ray: &WRay, max_toi: &Vec<i64>) -> (r: Vec<bool>)
        requires
            self.wf(),
            ray.wf(),
            max_toi@.len() == LANES,
        ensures
            r@.len() == LANES,
            forall|k: int|
                0 <= k < LANES ==> r@[k] == ray_hit_lane(self, ray, max_toi@[k] as int, k),
    {
        let mut r: Vec<bool> = Vec::new();
        let mut k: usize = 0;
        while k < LANES
            invariant
                self.wf(),
                ray.wf(),
                max_toi@.len() == LANES,
                k <= LANES,
                r@.len() == k,
                forall|m: int|
                    0 <= m < k ==> r@[m] == ray_hit_lane(self, ray, max_toi@[m] as int, m),
            decreases LANES - k,
        {
            let h = hit_one_lane(self, ray, max_toi[k], k);
            r.push(h);
            k = k + 1;
        }
        r
    }
}

} // verus!
