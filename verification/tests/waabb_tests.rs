use waabb::{Aabb, Point, Ray, WireError, WirePoint, WAABB, LANES, NEG_INF, POS_INF};

fn aabb(mins: (i64, i64, i64), maxs: (i64, i64, i64)) -> Aabb {
    Aabb::new(
        Point::new(mins.0, mins.1, mins.2),
        Point::new(maxs.0, maxs.1, maxs.2),
    )
}

fn ray(origin: (i64, i64, i64), dir: (i64, i64, i64)) -> Ray {
    Ray::new(
        Point::new(origin.0, origin.1, origin.2),
        Point::new(dir.0, dir.1, dir.2),
    )
}

/// Coordinates of lane `k`, read back through the wire form.
fn lane_of(b: &WAABB, k: usize) -> ([i64; 3], [i64; 3]) {
    let w = b.to_wire();
    (
        [w[0].x[k], w[0].y[k], w[0].z[k]],
        [w[1].x[k], w[1].y[k], w[1].z[k]],
    )
}

/// Scalar reference slab test in floating point, clipped to `[0, toi]`.
fn scalar_slab_hit(b: &Aabb, r: &Ray, toi: i64) -> bool {
    let mut tmin = 0.0f64;
    let mut tmax = toi as f64;
    for i in 0..3 {
        let mn = b.mins.coords[i] as f64;
        let mx = b.maxs.coords[i] as f64;
        let o = r.origin.coords[i] as f64;
        let d = r.dir.coords[i] as f64;
        if d == 0.0 {
            if !(o >= mn && o <= mx) {
                return false;
            }
        } else {
            let mut near = (mn - o) / d;
            let mut far = (mx - o) / d;
            if near > far {
                std::mem::swap(&mut near, &mut far);
            }
            tmin = tmin.max(near);
            tmax = tmax.min(far);
            if tmin > tmax {
                return false;
            }
        }
    }
    true
}

#[test]
fn splat_ray_broadcasts_unchanged() {
    let r = waabb::WRay::splat(ray((1, 2, -3), (0, 0, 5)));
    assert_eq!(r.origin.coords, vec![1, 2, -3]);
    assert_eq!(r.dir.coords, vec![0, 0, 5]);
}

#[test]
fn new_invalid_merges_to_sentinel() {
    let b = WAABB::new_invalid();
    let m = b.to_merged_aabb();
    assert_eq!(m.mins.coords, vec![POS_INF, POS_INF, POS_INF]);
    assert_eq!(m.maxs.coords, vec![NEG_INF, NEG_INF, NEG_INF]);
}

#[test]
fn sentinel_absorption() {
    let boxes = [
        aabb((0, 0, 0), (1, 1, 1)),
        aabb((-7, 3, 2), (9, 4, 5)),
        aabb((5, 5, 5), (5, 5, 5)),
    ];
    for b in boxes.iter() {
        let inv = WAABB::new_invalid();
        let other = WAABB::splat(b.duplicate());
        assert_eq!(inv.intersects(&other), vec![false; LANES]);
        // merging the sentinel's reduction into b (axis-wise union) leaves b unchanged
        let m = inv.to_merged_aabb();
        for i in 0..3 {
            assert_eq!(m.mins.coords[i].min(b.mins.coords[i]), b.mins.coords[i]);
            assert_eq!(m.maxs.coords[i].max(b.maxs.coords[i]), b.maxs.coords[i]);
        }
    }
}

#[test]
fn reduction_matches_axiswise_min_max() {
    let boxes = vec![
        aabb((0, 0, 0), (1, 1, 1)),
        aabb((5, -2, 5), (6, 6, 6)),
        aabb((-3, 4, 0), (0, 9, 0)),
        aabb((2, 2, -8), (2, 2, 12)),
    ];
    let b = WAABB::from(&boxes);
    let m = b.to_merged_aabb();
    assert_eq!(m.mins.coords, vec![-3, -2, -8]);
    assert_eq!(m.maxs.coords, vec![6, 9, 12]);
}

#[test]
fn contains_is_reflexive_per_lane() {
    let boxes = vec![
        aabb((0, 0, 0), (1, 1, 1)),
        aabb((5, 5, 5), (6, 6, 6)),
        aabb((0, 0, 0), (0, 0, 0)),
        Aabb::new_invalid(),
    ];
    let b = WAABB::from(&boxes);
    assert_eq!(b.contains(&b), vec![true; LANES]);
}

#[test]
fn mutual_containment_forces_equality() {
    let a = WAABB::splat(aabb((1, 2, 3), (4, 5, 6)));
    let b = WAABB::splat(aabb((1, 2, 3), (4, 5, 6)));
    assert_eq!(a.contains(&b), vec![true; LANES]);
    assert_eq!(b.contains(&a), vec![true; LANES]);
    let (amin, amax) = lane_of(&a, 0);
    let (bmin, bmax) = lane_of(&b, 0);
    assert_eq!(amin, bmin);
    assert_eq!(amax, bmax);
    // strict containment holds one way only
    let c = WAABB::splat(aabb((0, 2, 3), (4, 5, 6)));
    assert_eq!(c.contains(&a), vec![true; LANES]);
    assert_eq!(a.contains(&c), vec![false; LANES]);
}

#[test]
fn intersects_commutes() {
    let a = WAABB::from(&vec![
        aabb((0, 0, 0), (2, 2, 2)),
        aabb((0, 0, 0), (2, 2, 2)),
        aabb((-5, -5, -5), (-3, -3, -3)),
        Aabb::new_invalid(),
    ]);
    let b = WAABB::from(&vec![
        aabb((2, 2, 2), (3, 3, 3)),
        aabb((3, 0, 0), (4, 1, 1)),
        aabb((-4, -4, -4), (0, 0, 0)),
        aabb((0, 0, 0), (9, 9, 9)),
    ]);
    let ab = a.intersects(&b);
    let ba = b.intersects(&a);
    assert_eq!(ab, ba);
    // touching boxes count as intersecting; disjoint ones do not
    assert_eq!(ab, vec![true, false, true, false]);
}

#[test]
fn ray_agrees_with_scalar_slab_test() {
    let boxes = [
        aabb((0, 0, 0), (2, 2, 2)),
        aabb((-1, -1, -1), (1, 1, 1)),
        aabb((0, 0, 0), (0, 4, 4)),
    ];
    let dirs: [i64; 3] = [-1, 0, 1];
    for b in boxes.iter() {
        for &dx in dirs.iter() {
            for &dy in dirs.iter() {
                for &dz in dirs.iter() {
                    for &toi in [0i64, 1, 3, 10].iter() {
                        let r = ray((1, 1, -2), (dx, dy, dz));
                        let packed = WAABB::splat(b.duplicate());
                        let wray = waabb::WRay::splat(ray((1, 1, -2), (dx, dy, dz)));
                        let hits = packed.intersects_ray(&wray, &vec![toi; LANES]);
                        let expect = scalar_slab_hit(b, &r, toi);
                        assert_eq!(hits, vec![expect; LANES], "box {:?} dir ({},{},{}) toi {}",
                            (b.mins.coords.clone(), b.maxs.coords.clone()), dx, dy, dz, toi);
                    }
                }
            }
        }
    }
}

#[test]
fn axis_aligned_ray_degeneracy() {
    // direction zero on x and y; origin inside those slabs: hit
    let b = WAABB::splat(aabb((0, 0, 0), (2, 2, 2)));
    let inside = waabb::WRay::splat(ray((1, 1, -2), (0, 0, 1)));
    assert_eq!(b.intersects_ray(&inside, &vec![10; LANES]), vec![true; LANES]);
    // origin outside the x slab: miss, however large the range
    let outside = waabb::WRay::splat(ray((3, 1, -2), (0, 0, 1)));
    assert_eq!(b.intersects_ray(&outside, &vec![10; LANES]), vec![false; LANES]);
    assert_eq!(
        b.intersects_ray(&outside, &vec![i64::MAX; LANES]),
        vec![false; LANES]
    );
}

#[test]
fn packed_ray_scenario() {
    // four boxes: a unit-sized box, a distant box, a zero-extent box at the
    // origin, and the sentinel; a +z ray starting below them
    // (coordinates doubled so the ray origin stays integral)
    let boxes = vec![
        aabb((0, 0, 0), (2, 2, 2)),
        aabb((10, 10, 10), (12, 12, 12)),
        aabb((0, 0, 0), (0, 0, 0)),
        Aabb::new_invalid(),
    ];
    let b = WAABB::from(&boxes);
    let r = waabb::WRay::splat(ray((1, 1, -2), (0, 0, 1)));
    let hits = b.intersects_ray(&r, &vec![20; LANES]);
    // the zero-extent box misses: the ray passes beside it, not through it
    assert_eq!(hits, vec![true, false, false, false]);
    // a zero-extent box directly on the ray's path is hit as a point
    let boxes2 = vec![
        aabb((1, 1, 0), (1, 1, 0)),
        aabb((1, 1, 0), (1, 1, 0)),
        aabb((1, 1, 0), (1, 1, 0)),
        aabb((1, 1, 0), (1, 1, 0)),
    ];
    let b2 = WAABB::from(&boxes2);
    assert_eq!(b2.intersects_ray(&r, &vec![20; LANES]), vec![true; LANES]);
}

#[test]
fn sentinel_never_ray_hits() {
    let inv = WAABB::new_invalid();
    let dirs = [(1, 1, 1), (-1, 2, 5), (0, 0, 1), (0, 0, 0)];
    for &dir in dirs.iter() {
        for &toi in [0i64, 10, i64::MAX].iter() {
            let r = waabb::WRay::splat(ray((0, 0, 0), dir));
            assert_eq!(
                inv.intersects_ray(&r, &vec![toi; LANES]),
                vec![false; LANES],
                "dir {:?} toi {}",
                dir,
                toi
            );
        }
    }
}

#[test]
fn invalid_lane_misses_diagonal_ray() {
    let boxes = vec![
        aabb((0, 0, 0), (4, 4, 4)),
        Aabb::new_invalid(),
        aabb((2, 2, 2), (3, 3, 3)),
        Aabb::new_invalid(),
    ];
    let b = WAABB::from(&boxes);
    let r = waabb::WRay::splat(ray((0, 0, 0), (1, 1, 1)));
    assert_eq!(
        b.intersects_ray(&r, &vec![10; LANES]),
        vec![true, false, true, false]
    );
}

#[test]
fn replace_overwrites_one_lane() {
    let mut b = WAABB::new_invalid();
    b.replace(1, aabb((3, 4, 5), (6, 7, 8)));
    let (mins1, maxs1) = lane_of(&b, 1);
    assert_eq!(mins1, [3, 4, 5]);
    assert_eq!(maxs1, [6, 7, 8]);
    let (mins0, maxs0) = lane_of(&b, 0);
    assert_eq!(mins0, [POS_INF; 3]);
    assert_eq!(maxs0, [NEG_INF; 3]);
}

#[test]
fn dilate_by_factor_inflates_each_side() {
    let mut b = WAABB::splat(aabb((0, -1, 2), (2, 1, 2)));
    b.dilate_by_factor(&vec![1, 2, 0, 3]);
    // lane 0, factor 1: extent per axis 2, 2, 0
    let (mins0, maxs0) = lane_of(&b, 0);
    assert_eq!(mins0, [-2, -3, 2]);
    assert_eq!(maxs0, [4, 3, 2]);
    // lane 2, factor 0: unchanged
    let (mins2, maxs2) = lane_of(&b, 2);
    assert_eq!(mins2, [0, -1, 2]);
    assert_eq!(maxs2, [2, 1, 2]);
    // lane 3, factor 3: each side moves by three extents
    let (mins3, maxs3) = lane_of(&b, 3);
    assert_eq!(mins3, [-6, -7, 2]);
    assert_eq!(maxs3, [8, 7, 2]);
}

#[test]
fn wire_round_trip_is_exact() {
    let boxes = vec![
        aabb((0, 0, 0), (1, 1, 1)),
        aabb((5, 5, 5), (6, 6, 6)),
        aabb((-9, 3, 7), (0, 3, 11)),
        Aabb::new_invalid(),
    ];
    let b = WAABB::from(&boxes);
    let w = b.to_wire();
    let b2 = WAABB::from_wire(&w).expect("well-shaped wire form decodes");
    for k in 0..LANES {
        assert_eq!(lane_of(&b, k), lane_of(&b2, k));
    }
}

#[test]
fn truncated_wire_form_names_missing_field() {
    let b = WAABB::splat(aabb((0, 0, 0), (1, 1, 1)));
    let mut w = b.to_wire();
    w.pop();
    match WAABB::from_wire(&w) {
        Err(WireError::MissingField { index }) => assert_eq!(index, 1),
        other => panic!("expected the missing-field error, got {:?}", other.is_ok()),
    }
    let empty: Vec<WirePoint> = Vec::new();
    match WAABB::from_wire(&empty) {
        Err(WireError::MissingField { index }) => assert_eq!(index, 0),
        other => panic!("expected the missing-field error, got {:?}", other.is_ok()),
    }
}

#[test]
fn wrong_lane_count_is_rejected() {
    let b = WAABB::splat(aabb((0, 0, 0), (1, 1, 1)));
    let mut w = b.to_wire();
    w[0].y.pop();
    match WAABB::from_wire(&w) {
        Err(WireError::WrongLaneCount) => {}
        other => panic!("expected the lane-count error, got {:?}", other.is_ok()),
    }
}
