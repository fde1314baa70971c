use truster::intersection::{occluded_before, sort_by_t, t_key_from_bits, Hit, Intersection};

/// The distance key of a measured distance.
fn key(t: f64) -> i64 {
    t_key_from_bits(t.to_bits())
}

#[test]
fn hit_all_positive() {
    let i1 = Intersection::new(key(1.0), 0, 0);
    let i2 = Intersection::new(key(2.0), 1, 0);
    let mut is = vec![i1, i2];
    sort_by_t(&mut is);
    let i = is.hit().unwrap();
    assert_eq!(i, i1);
}

#[test]
fn hit_some_negative() {
    let i1 = Intersection::new(key(-1.0), 0, 0);
    let i2 = Intersection::new(key(1.0), 1, 0);
    let mut is = vec![i2, i1];
    sort_by_t(&mut is);
    let i = is.hit().unwrap();
    assert_eq!(i, i2);
}

#[test]
fn hit_all_negative() {
    let i1 = Intersection::new(key(-2.0), 0, 0);
    let i2 = Intersection::new(key(-1.0), 1, 0);
    let mut is = vec![i2, i1];
    sort_by_t(&mut is);
    let i = is.hit();
    assert_eq!(i, None);
}

#[test]
fn hit_many() {
    let i1 = Intersection::new(key(5.0), 0, 0);
    let i2 = Intersection::new(key(7.0), 1, 0);
    let i3 = Intersection::new(key(-3.0), 2, 0);
    let i4 = Intersection::new(key(2.0), 3, 0);
    let mut is = vec![i4, i1, i2, i3];
    sort_by_t(&mut is);
    let i = is.hit().unwrap();
    assert_eq!(i, i4);
}

#[test]
fn sort_orders_by_distance() {
    let a = Intersection::new(key(4.0), 0, 0);
    let b = Intersection::new(key(4.5), 1, 1);
    let c = Intersection::new(key(5.5), 2, 1);
    let d = Intersection::new(key(6.0), 3, 0);
    let mut is = vec![d, b, a, c];
    sort_by_t(&mut is);
    assert_eq!(is, vec![a, b, c, d]);
}

#[test]
fn sort_keeps_insertion_order_on_ties() {
    let first = Intersection::new(key(3.0), 0, 7);
    let second = Intersection::new(key(3.0), 1, 9);
    let earlier = Intersection::new(key(-1.0), 2, 4);
    let mut is = vec![first, second, earlier];
    sort_by_t(&mut is);
    assert_eq!(is, vec![earlier, first, second]);
}

#[test]
fn distance_keys_order_like_distances() {
    let samples = [-1000.5, -3.0, -1.0, -0.25, 0.0, 0.25, 1.0, 5.0, 1000.5];
    for w in samples.windows(2) {
        assert!(key(w[0]) < key(w[1]));
    }
    assert_eq!(key(0.0), 0);
    assert_eq!(key(-0.0), 0);
    for t in samples {
        assert_eq!(key(t) > 0, t > 0.0);
    }
}

#[test]
fn occluded_before_blocker_between() {
    let near = Intersection::new(key(4.0), 0, 0);
    let far = Intersection::new(key(6.0), 1, 0);
    let is = vec![near, far];
    assert!(occluded_before(&is, key(10.0)));
}

#[test]
fn occluded_before_blocker_beyond_light() {
    let beyond = Intersection::new(key(14.0), 0, 0);
    let is = vec![beyond];
    assert!(!occluded_before(&is, key(10.0)));
}

#[test]
fn occluded_before_blocker_behind() {
    let behind = Intersection::new(key(-2.0), 0, 0);
    let is = vec![behind];
    assert!(!occluded_before(&is, key(10.0)));
}

#[test]
fn gather_sorted_merges_shape_lists() {
    let s0 = vec![
        Intersection::new(key(4.0), 0, 0),
        Intersection::new(key(6.0), 1, 0),
    ];
    let s1 = vec![
        Intersection::new(key(4.5), 2, 1),
        Intersection::new(key(5.5), 3, 1),
    ];
    let merged = truster::intersection::gather_sorted(&vec![s0.clone(), s1.clone()]);
    assert_eq!(merged, vec![s0[0], s1[0], s1[1], s0[1]]);
}
