use rmi_lib::cache_fix::{cache_fix, Spline};
use rmi_lib::data::ModelData;

#[test]
fn test_scale() {
    let mut v = ModelData::IntKeyToIntPos(vec![(0, 0), (1, 1), (3, 2), (100, 3)]);

    v.scale_targets_to(50, 4);

    let results = v.iter_int_int();
    assert_eq!(results[0].1, 0);
    assert_eq!(results[1].1, 12);
    assert_eq!(results[2].1, 25);
    assert_eq!(results[3].1, 37);
}

#[test]
fn test_iter() {
    let data = vec![(0, 1), (1, 2), (3, 3), (100, 4)];

    let v = ModelData::IntKeyToIntPos(data.clone());

    let iterated: Vec<(u64, u64)> = v.iter_int_int().into_iter().collect();
    assert_eq!(data, iterated);
}

#[test]
fn unique_keys_keep_their_first_position() {
    let v = ModelData::IntKeyToIntPos(vec![(0, 0), (0, 1), (0, 2), (1, 3)]);
    assert_eq!(v.iter_unique(), vec![(0, 0), (1, 3)]);
    assert_eq!(v.len(), 4);
    assert_eq!(v.get_key(3), 1);
}

/// Piecewise-linear prediction through the joints, as the spline defines it.
fn spline_at(j: &[(u64, u64)], x: u64) -> u128 {
    for w in j.windows(2) {
        if x <= w[1].0 {
            if w[1].0 <= w[0].0 {
                return w[0].1 as u128;
            }
            let dx = (x - w[0].0) as u128;
            return w[0].1 as u128 + dx * (w[1].1 - w[0].1) as u128 / (w[1].0 - w[0].0) as u128;
        }
    }
    j[j.len() - 1].1 as u128
}

#[test]
fn cache_fix_squares_is_correct_and_repeatable() {
    let mut d: Vec<(u64, u64)> = Vec::new();
    for i in 0..10000u64 {
        d.push((i * i, i));
    }
    let md = ModelData::IntKeyToIntPos(d.clone());
    let a = cache_fix(&md, 64);
    let b = cache_fix(&md, 64);
    assert_eq!(a, b);
    assert!(a.len() < d.len());
    for w in a.windows(2) {
        assert!(w[0].0 < w[1].0);
    }
    for &(k, p) in d.iter() {
        assert_eq!(spline_at(&a, k) / 64, (p / 64) as u128);
    }
}

#[test]
fn cache_fix_with_duplicate_runs() {
    let mut d: Vec<(u64, u64)> = Vec::new();
    let mut pos = 0u64;
    for k in 0..300u64 {
        let copies = 1 + (k % 7);
        for _ in 0..copies {
            d.push((10 * k + 5, pos));
        }
        pos += copies;
    }
    // positions of equal keys all name the first of the run
    let md = ModelData::IntKeyToIntPos(d.clone());
    let uniq = md.iter_unique();
    let mut fixed: Vec<(u64, u64)> = Vec::new();
    for &(k, _) in d.iter() {
        let first = uniq.iter().find(|u| u.0 == k).unwrap();
        fixed.push((k, first.1));
    }
    let md = ModelData::IntKeyToIntPos(fixed.clone());
    let s = cache_fix(&md, 16);
    for &(k, p) in fixed.iter() {
        assert_eq!(spline_at(&s, k) / 16, (p / 16) as u128);
    }
}

#[test]
fn spline_interpolates_exactly() {
    let s = Spline::from((10, 100), (20, 200));
    assert_eq!(s.predict(10), 100);
    assert_eq!(s.predict(15), 150);
    assert_eq!(s.predict(20), 200);
    let t = s.with_new_dest((13, 101));
    assert_eq!(t.predict(12), 100);
    assert_eq!(t.end(), (13, 101));
}

#[test]
fn cache_fix_single_key_gives_one_joint() {
    let md = ModelData::IntKeyToIntPos(vec![(0, 0), (0, 0)]);
    assert_eq!(cache_fix(&md, 1), vec![(0, 0)]);
    let md = ModelData::IntKeyToIntPos(vec![(1, 0), (1, 0)]);
    assert_eq!(cache_fix(&md, 1), vec![(1, 0)]);
    let md = ModelData::IntKeyToIntPos(vec![(5, 0), (5, 0)]);
    assert_eq!(cache_fix(&md, 1), vec![(4, 0), (5, 0)]);
}
