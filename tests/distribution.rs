use std::collections::BTreeMap;
use std::collections::BTreeSet;
use weighted_distribution::{closest_key_below, Distribution, DistributionError};

// Weights are integers: 0.5, 1.0, 3.5 and 4.8 are written in tenths.
fn input_data() -> Vec<(u128, String)> {
    vec![
        (5, "b".to_string()),
        (10, "a".to_string()),
        (35, "c".to_string()),
        (48, "d".to_string()),
    ]
}

fn example_dist() -> Distribution<String> {
    let mut dist = Distribution::new();
    for (weight, value) in input_data().iter() {
        dist.add(value, *weight as i64).unwrap();
    }
    dist
}

// Thresholds 0.5, 1.0, 3.5 and 4.8 written in units of 0.00001.
fn thresholds() -> Vec<(u128, String)> {
    vec![
        (50000, "b".to_string()),
        (100000, "a".to_string()),
        (350000, "c".to_string()),
        (480000, "d".to_string()),
    ]
}

fn ranking(counts: &BTreeMap<String, usize>) -> Vec<String> {
    let mut pairs: Vec<(usize, String)> = counts.iter().map(|(k, c)| (*c, k.clone())).collect();
    pairs.sort_by(|x, y| y.0.cmp(&x.0).then(x.1.cmp(&y.1)));
    pairs.into_iter().map(|(_, k)| k).collect()
}

fn num_match_target(
    dist: &Distribution<String>,
    num_exprs: usize,
    num_picks: usize,
    expected: Vec<String>,
) -> usize {
    let mut matched = 0;
    for _ in 0..num_exprs {
        let mut counts: BTreeMap<String, usize> = BTreeMap::new();
        for _ in 0..num_picks {
            *counts.entry(dist.random_pick().unwrap()).or_insert(0) += 1;
        }
        if ranking(&counts) == expected {
            matched += 1;
        }
    }
    matched
}

#[test]
fn test_closest_key_below() {
    let t = thresholds();
    assert_eq!(closest_key_below(&t, 60000).unwrap(), 50000);
    assert_eq!(closest_key_below(&t, 100000).unwrap(), 100000);
    assert_eq!(closest_key_below(&t, 100001).unwrap(), 100000);
    assert_eq!(closest_key_below(&t, 1000000).unwrap(), 480000);
    assert_eq!(closest_key_below(&t, 410000).unwrap(), 350000);
    assert_eq!(closest_key_below(&t, 340000).unwrap(), 100000);
}

#[test]
fn closest_key_below_smallest_key() {
    let t = thresholds();
    assert_eq!(closest_key_below(&t, 49999), None);
    assert_eq!(closest_key_below(&t, 0), None);
    assert_eq!(closest_key_below(&t, 50000), Some(50000));
    let empty: Vec<(u128, String)> = Vec::new();
    assert_eq!(closest_key_below(&empty, 7), None);
}

#[test]
fn general_weight_test() {
    let dist = example_dist();
    let matched = num_match_target(
        &dist,
        20,
        200,
        vec!["d".to_owned(), "c".to_owned(), "a".to_owned(), "b".to_owned()],
    );
    assert!(matched >= 16);
}

#[test]
fn test_without() {
    let dist = example_dist();
    let removals: BTreeSet<String> = ["a".to_owned(), "c".to_owned()].iter().cloned().collect();
    let dist = dist.without(removals);
    let matched = num_match_target(&dist, 20, 200, vec!["d".to_owned(), "b".to_owned()]);
    assert_eq!(matched, 20);
}

#[test]
fn total_is_sum_of_weights() {
    let dist = example_dist();
    assert_eq!(dist.total_weight(), 5 + 10 + 35 + 48);
    let mut d: Distribution<u32> = Distribution::new();
    assert_eq!(d.total_weight(), 0);
    d.add(&1, 7).unwrap();
    d.add(&2, 1).unwrap();
    d.add(&3, i64::MAX).unwrap();
    assert_eq!(d.total_weight(), 8 + i64::MAX as u128);
}

#[test]
fn nonpositive_weight_is_refused() {
    let mut d: Distribution<String> = Distribution::new();
    assert_eq!(d.add(&"x".to_string(), 0), Err(DistributionError::InvalidWeight));
    assert_eq!(d.add(&"x".to_string(), -3), Err(DistributionError::InvalidWeight));
    assert_eq!(d.total_weight(), 0);
    assert_eq!(d.random_pick(), Err(DistributionError::EmptyDistribution));
    assert_eq!(d.add(&"x".to_string(), 2), Ok(()));
    assert_eq!(d.total_weight(), 2);
}

#[test]
fn empty_distribution_is_refused() {
    let d: Distribution<u8> = Distribution::new();
    assert_eq!(d.random_pick(), Err(DistributionError::EmptyDistribution));
    let e = d.without(BTreeSet::new());
    assert_eq!(e.random_pick(), Err(DistributionError::EmptyDistribution));
}

#[test]
fn pick_at_follows_intervals() {
    let dist = example_dist();
    assert_eq!(dist.pick_at(0), "b");
    assert_eq!(dist.pick_at(4), "b");
    assert_eq!(dist.pick_at(5), "a");
    assert_eq!(dist.pick_at(14), "a");
    assert_eq!(dist.pick_at(15), "c");
    assert_eq!(dist.pick_at(49), "c");
    assert_eq!(dist.pick_at(50), "d");
    assert_eq!(dist.pick_at(97), "d");
}

#[test]
fn without_renormalizes_and_keeps_receiver() {
    let dist = example_dist();
    let removals: BTreeSet<String> = ["a".to_owned(), "c".to_owned()].iter().cloned().collect();
    let kept = dist.without(removals);
    assert_eq!(kept.total_weight(), 5 + 48);
    // Values are re-added in their order: "b" then "d".
    assert_eq!(kept.pick_at(0), "b");
    assert_eq!(kept.pick_at(4), "b");
    assert_eq!(kept.pick_at(5), "d");
    assert_eq!(kept.pick_at(52), "d");
    for _ in 0..200 {
        let v = kept.random_pick().unwrap();
        assert!(v == "b" || v == "d");
    }
    // The receiver is unchanged.
    assert_eq!(dist.total_weight(), 98);
    assert_eq!(dist.pick_at(5), "a");
    assert_eq!(dist.pick_at(15), "c");
    let all = dist.without(BTreeSet::new());
    assert_eq!(all.total_weight(), 98);
}

#[test]
fn repeated_value_keeps_latest_weight_for_rebuild() {
    let mut d: Distribution<String> = Distribution::new();
    d.add(&"x".to_string(), 1).unwrap();
    d.add(&"y".to_string(), 2).unwrap();
    d.add(&"x".to_string(), 3).unwrap();
    // Sampling honours both insertions of "x".
    assert_eq!(d.total_weight(), 6);
    assert_eq!(d.pick_at(0), "x");
    assert_eq!(d.pick_at(1), "y");
    assert_eq!(d.pick_at(3), "x");
    // A rebuild keeps only the latest weight of "x".
    let r = d.without(BTreeSet::new());
    assert_eq!(r.total_weight(), 5);
    assert_eq!(r.pick_at(0), "x");
    assert_eq!(r.pick_at(2), "x");
    assert_eq!(r.pick_at(3), "y");
}

#[test]
fn random_pick_reaches_a_heavy_first_value() {
    let mut d: Distribution<String> = Distribution::new();
    d.add(&"heavy".to_string(), 1000).unwrap();
    d.add(&"light".to_string(), 1).unwrap();
    let mut heavy = 0;
    for _ in 0..50 {
        if d.random_pick().unwrap() == "heavy" {
            heavy += 1;
        }
    }
    assert!(heavy > 0);
}

#[test]
fn random_pick_single_value() {
    let mut d: Distribution<u64> = Distribution::new();
    d.add(&42, 3).unwrap();
    for _ in 0..20 {
        assert_eq!(d.random_pick(), Ok(42));
    }
}
