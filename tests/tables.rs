use droptables::{
    DropTable, IndexSampler, ProbError, StaticDropTable, UniformEnum, UniformSampler,
    UniformTable, WeightedEnum,
};
use rand::rngs::StdRng;
use rand::SeedableRng;

#[test]
fn smoke_pairs() {
    let dt = DropTable::from_pairs(vec![("a", 1), ("b", 3)]).unwrap();
    let mut rng = StdRng::from_os_rng();
    let _ = dt.sample(&mut rng);
}

#[test]
fn pairs_only_sample_their_items_in_proportion() {
    let dt = DropTable::from_pairs(vec![("a", 1), ("b", 3)]).unwrap();
    let mut rng = StdRng::seed_from_u64(9);
    let (mut a, mut b) = (0usize, 0usize);
    for _ in 0..20_000 {
        match *dt.sample(&mut rng) {
            "a" => a += 1,
            "b" => b += 1,
            other => panic!("unexpected item {other}"),
        }
    }
    let ratio = b as f64 / a as f64;
    assert!((ratio - 3.0).abs() < 0.3, "ratio={ratio}");
}

#[test]
fn pairs_sample_owned_clones_an_item() {
    let dt = DropTable::from_pairs(vec![(String::from("x"), 0), (String::from("y"), 4)]).unwrap();
    let mut rng = StdRng::seed_from_u64(1);
    for _ in 0..100 {
        assert_eq!(dt.sample_owned(&mut rng), "y");
    }
    assert_eq!(dt.len(), 2);
    assert!(!dt.is_empty());
}

#[test]
fn pairs_report_construction_errors() {
    assert_eq!(
        DropTable::<&str>::from_pairs(vec![]).unwrap_err(),
        ProbError::Empty
    );
    assert_eq!(
        DropTable::from_pairs(vec![("a", 2), ("b", -4)]).unwrap_err(),
        ProbError::Negative { index: 1, value: -4 }
    );
    assert_eq!(
        DropTable::from_pairs(vec![("a", 0), ("b", 0)]).unwrap_err(),
        ProbError::ZeroSum
    );
}

#[test]
fn uniform_sampler_rejects_zero() {
    assert_eq!(UniformSampler::new(0).unwrap_err(), ProbError::Empty);
}

#[test]
fn uniform_sampler_single_outcome_is_zero() {
    let s = UniformSampler::new(1).unwrap();
    let mut rng = StdRng::seed_from_u64(4);
    for _ in 0..100 {
        assert_eq!(s.sample_index(&mut rng), 0);
    }
}

#[test]
fn uniform_sampler_three_outcomes_are_even() {
    let s = UniformSampler::new(3).unwrap();
    assert_eq!(s.len(), 3);
    let mut rng = StdRng::seed_from_u64(42);
    let draws = 30_000usize;
    let mut counts = [0usize; 3];
    for _ in 0..draws {
        counts[s.sample_index(&mut rng)] += 1;
    }
    for c in counts {
        let emp = c as f64 / draws as f64;
        assert!((emp - 1.0 / 3.0).abs() < 0.05, "emp={emp}");
    }
}

#[test]
fn uniform_table_from_items() {
    assert_eq!(
        UniformTable::<u8>::from_items(vec![]).unwrap_err(),
        ProbError::Empty
    );
    let t = UniformTable::from_items(vec![7, 8, 9]).unwrap();
    assert_eq!(t.len(), 3);
    assert!(!t.is_empty());
    assert_eq!(t.as_slice(), &[7, 8, 9]);
    let mut rng = StdRng::seed_from_u64(2);
    let mut seen = [false; 3];
    for _ in 0..300 {
        let x = *t.sample(&mut rng);
        seen[(x - 7) as usize] = true;
        let y = t.sample_owned(&mut rng);
        assert!((7..=9).contains(&y));
    }
    assert_eq!(seen, [true, true, true]);
}

#[test]
fn uniform_table_from_array() {
    let empty: [u8; 0] = [];
    assert_eq!(UniformTable::from_array(empty).unwrap_err(), ProbError::Empty);
    let t = UniformTable::from_array(["p", "q"]).unwrap();
    assert_eq!(t.as_slice(), &["p", "q"]);
    assert_eq!(t.len(), 2);
}

const LETTERS: &[char] = &['x', 'y', 'z'];

#[test]
fn static_table_over_uniform_sampler() {
    let t = StaticDropTable::new(UniformSampler::new(3).unwrap(), LETTERS);
    assert_eq!(t.len(), 3);
    assert_eq!(t.items(), LETTERS);
    let mut rng = StdRng::seed_from_u64(8);
    for _ in 0..200 {
        assert!(LETTERS.contains(t.sample(&mut rng)));
        assert!(LETTERS.contains(&t.sample_owned(&mut rng)));
    }
}

#[test]
fn static_table_over_alias_table() {
    let sampler = droptables::AliasTable::new(&[0, 0, 1]).unwrap();
    let t = StaticDropTable::new(sampler, LETTERS);
    let mut rng = StdRng::seed_from_u64(8);
    for _ in 0..200 {
        assert_eq!(t.sample_owned(&mut rng), 'z');
    }
}

#[derive(Clone, Copy, Debug, PartialEq)]
enum Loot {
    Common,
    Rare,
    Legendary,
}

impl WeightedEnum for Loot {
    const ENTRIES: &'static [(Loot, i64)] = &[(Loot::Common, 90), (Loot::Rare, 10), (Loot::Legendary, 0)];
}

impl UniformEnum for Loot {
    const VARS: &'static [Loot] = &[Loot::Common, Loot::Rare, Loot::Legendary];
}

#[test]
fn weighted_enum_builds_a_drop_table() {
    let t = <Loot as WeightedEnum>::droptable().unwrap();
    assert_eq!(t.len(), 3);
    let mut rng = StdRng::seed_from_u64(6);
    let mut rare = 0usize;
    for _ in 0..10_000 {
        let x = t.sample_owned(&mut rng);
        assert_ne!(x, Loot::Legendary);
        if x == Loot::Rare {
            rare += 1;
        }
    }
    let emp = rare as f64 / 10_000.0;
    assert!((emp - 0.1).abs() < 0.03, "emp={emp}");
}

#[test]
fn uniform_enum_builds_both_tables() {
    let t = <Loot as UniformEnum>::droptable().unwrap();
    assert_eq!(t.len(), 3);
    assert_eq!(t.items(), Loot::VARS);
    let owned = Loot::droptable_stateful().unwrap();
    assert_eq!(owned.as_slice(), Loot::VARS);
    let mut rng = StdRng::seed_from_u64(6);
    let mut seen = [false; 3];
    for _ in 0..300 {
        seen[t.sample_owned(&mut rng) as usize] = true;
    }
    assert_eq!(seen, [true, true, true]);
}
