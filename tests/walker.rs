use droptables::{AliasTable, IndexSampler, ProbError, WeightedSampler};
use rand::rngs::StdRng;
use rand::SeedableRng;

fn frequencies(counts: &[usize], draws: usize) -> Vec<f64> {
    counts.iter().map(|&c| c as f64 / draws as f64).collect()
}

#[test]
fn rejects_bad_inputs() {
    assert!(matches!(AliasTable::new(&[]), Err(ProbError::Empty)));
    assert!(matches!(AliasTable::new(&[0, 0]), Err(ProbError::ZeroSum)));
    assert!(matches!(
        AliasTable::new(&[-1, 2]),
        Err(ProbError::Negative { .. })
    ));
}

#[test]
fn roughly_matches_distribution() {
    let weights = [1i64, 2, 3, 4];
    let alias = AliasTable::new(&weights).unwrap();

    let mut rng = StdRng::seed_from_u64(42);
    let draws = 2_000_0usize;
    let counts = alias.sample_counts(&mut rng, draws);

    let sum_w: i64 = weights.iter().sum();
    for (i, &c) in counts.iter().enumerate() {
        let p = weights[i] as f64 / sum_w as f64;
        let emp = c as f64 / draws as f64;
        assert!((emp - p).abs() < 0.05, "i={i} emp={emp} p={p}");
    }
}

#[test]
fn degenerate_singleton() {
    let alias = AliasTable::new(&[5]).unwrap();
    let mut rng = StdRng::from_os_rng();
    for _ in 0..1000 {
        assert_eq!(alias.sample_index(&mut rng), 0);
    }
}

#[test]
fn empty_weights_fail_with_empty() {
    assert_eq!(AliasTable::new(&[]).unwrap_err(), ProbError::Empty);
}

#[test]
fn negative_reports_first_offending_index_and_value() {
    assert_eq!(
        AliasTable::new(&[3, -2, -5]).unwrap_err(),
        ProbError::Negative { index: 1, value: -2 }
    );
    assert_eq!(
        AliasTable::new(&[-7]).unwrap_err(),
        ProbError::Negative { index: 0, value: -7 }
    );
}

#[test]
fn negative_is_reported_before_zero_sum() {
    assert_eq!(
        AliasTable::new(&[0, 0, -1]).unwrap_err(),
        ProbError::Negative { index: 2, value: -1 }
    );
}

#[test]
fn all_zero_weights_fail_with_zero_sum() {
    assert_eq!(AliasTable::new(&[0]).unwrap_err(), ProbError::ZeroSum);
    assert_eq!(AliasTable::new(&[0, 0, 0, 0]).unwrap_err(), ProbError::ZeroSum);
}

#[test]
fn singleton_returns_zero_for_many_seeds() {
    let alias = AliasTable::new(&[1]).unwrap();
    for seed in 0..50u64 {
        let mut rng = StdRng::seed_from_u64(seed);
        for _ in 0..20 {
            assert_eq!(alias.sample_index(&mut rng), 0);
        }
    }
}

#[test]
fn buckets_pick_exact_outcomes() {
    // Weights 1 and 3: n = 2, total 4, so 8 equally likely (bucket, coin) pairs,
    // of which 2 must give outcome 0 and 6 outcome 1.
    let alias = AliasTable::new(&[1, 3]).unwrap();
    assert_eq!(alias.sample_with(0, 0), 0);
    assert_eq!(alias.sample_with(0, 1), 0);
    assert_eq!(alias.sample_with(0, 2), 1);
    assert_eq!(alias.sample_with(0, 3), 1);
    for u in 0..4u128 {
        assert_eq!(alias.sample_with(1, u), 1);
    }
}

#[test]
fn every_pair_count_matches_weights() {
    let weights = [5i64, 0, 2, 9, 1, 3];
    let alias = AliasTable::new(&weights).unwrap();
    let n = weights.len();
    let total: i64 = weights.iter().sum();
    let mut hits = vec![0i64; n];
    for b in 0..n {
        for u in 0..total as u128 {
            hits[alias.sample_with(b, u)] += 1;
        }
    }
    for j in 0..n {
        assert_eq!(hits[j], n as i64 * weights[j]);
    }
}

#[test]
fn zero_weight_outcome_is_never_drawn() {
    let alias = AliasTable::new(&[0, 5, 0]).unwrap();
    let mut rng = StdRng::seed_from_u64(7);
    for _ in 0..2000 {
        assert_eq!(alias.sample_index(&mut rng), 1);
    }
}

#[test]
fn largest_weights_build_and_sample() {
    let alias = AliasTable::new(&[i64::MAX, i64::MAX, 1, i64::MAX]).unwrap();
    assert_eq!(alias.len(), 4);
    let mut rng = StdRng::seed_from_u64(3);
    let counts = alias.sample_counts(&mut rng, 4000);
    assert_eq!(counts.iter().sum::<usize>(), 4000);
    assert!(counts[2] < 10);
    for j in [0usize, 1, 3] {
        let emp = counts[j] as f64 / 4000.0;
        assert!((emp - 1.0 / 3.0).abs() < 0.05, "j={j} emp={emp}");
    }
}

#[test]
fn scale_invariance_of_frequencies() {
    let small = AliasTable::new(&[1, 2, 3]).unwrap();
    let big = AliasTable::new(&[10, 20, 30]).unwrap();
    let draws = 30_000usize;
    let a = frequencies(&small.sample_counts(&mut StdRng::seed_from_u64(11), draws), draws);
    let b = frequencies(&big.sample_counts(&mut StdRng::seed_from_u64(12), draws), draws);
    for j in 0..3 {
        assert!((a[j] - b[j]).abs() < 0.03, "j={j} {} {}", a[j], b[j]);
        assert!((a[j] - (j as f64 + 1.0) / 6.0).abs() < 0.03);
    }
}

#[test]
fn scaled_weights_give_the_same_buckets() {
    let small = AliasTable::new(&[1, 2, 3]).unwrap();
    let big = AliasTable::new(&[10, 20, 30]).unwrap();
    for b in 0..3 {
        for u in 0..6u128 {
            assert_eq!(small.sample_with(b, u), big.sample_with(b, u * 10));
        }
    }
}

#[test]
fn interleaved_streams_share_one_table() {
    let alias = AliasTable::new(&[1, 2, 3, 4]).unwrap();
    let mut r1 = StdRng::seed_from_u64(1);
    let mut r2 = StdRng::seed_from_u64(2);
    let mut c1 = [0usize; 4];
    let mut c2 = [0usize; 4];
    let draws = 20_000usize;
    for _ in 0..draws {
        c1[alias.sample_index(&mut r1)] += 1;
        c2[alias.sample_index(&mut r2)] += 1;
    }
    for j in 0..4 {
        let p = (j as f64 + 1.0) / 10.0;
        assert!((c1[j] as f64 / draws as f64 - p).abs() < 0.05);
        assert!((c2[j] as f64 / draws as f64 - p).abs() < 0.05);
    }
    assert_eq!(alias.len(), 4);
}

#[test]
fn len_and_is_empty() {
    let alias = AliasTable::new(&[2, 2, 2]).unwrap();
    assert_eq!(alias.len(), 3);
    assert!(!alias.is_empty());
    let copy = alias.clone();
    assert_eq!(copy.len(), 3);
    assert_eq!(copy.sample_with(1, 1), alias.sample_with(1, 1));
}

#[test]
fn weighted_sampler_through_index_sampler() {
    let s: WeightedSampler = AliasTable::new(&[1, 1]).unwrap();
    assert_eq!(IndexSampler::len(&s), 2);
    let mut rng = StdRng::seed_from_u64(5);
    for _ in 0..100 {
        assert!(IndexSampler::sample_index(&s, &mut rng) < 2);
    }
}
