use my_library::{Random, RandomNumberGenerator};

#[test]
fn random_test_range_bounds() {
    let mut rng = RandomNumberGenerator::new();
    for _ in 0..1000 {
        let n = rng.range(1..10);
        assert!(n >= 1);
        assert!(n < 10);
    }
}

#[test]
fn random_test_inclusive_range_bounds() {
    let mut rng = RandomNumberGenerator::new();
    for _ in 0..1000 {
        let n = rng.range(1..10);
        assert!(n >= 1);
        assert!(n <= 10);
    }
}

#[test]
fn random_test_reproducibility() {
    let mut rng = (RandomNumberGenerator::seeded(1), RandomNumberGenerator::seeded(1));
    (0..1000).for_each(|_| {
        assert_eq!(
            rng.0.range(u32::MIN as i64..u32::MAX as i64),
            rng.1.range(u32::MIN as i64..u32::MAX as i64),
        );
    });
}

#[test]
fn random_test_next_types() {
    let mut rng = RandomNumberGenerator::new();
    let _: u64 = rng.next();
    let _ = rng.next();
}

#[test]
fn closed_range_includes_both_ends() {
    let mut rng = RandomNumberGenerator::seeded(7);
    let mut seen = [false; 6];
    for _ in 0..1000 {
        let n = rng.range_inclusive(1..=6);
        assert!(n >= 1);
        assert!(n <= 6);
        seen[(n - 1) as usize] = true;
    }
    assert!(seen.iter().all(|s| *s));
}

#[test]
fn half_open_range_reaches_all_but_the_upper_end() {
    let mut rng = RandomNumberGenerator::seeded(7);
    let mut seen = [false; 4];
    for _ in 0..1000 {
        let n = rng.range(-2..2);
        assert!(n >= -2);
        assert!(n < 2);
        seen[(n + 2) as usize] = true;
    }
    assert!(seen.iter().all(|s| *s));
}

#[test]
fn range_of_one_number_gives_that_number() {
    let mut rng = RandomNumberGenerator::default();
    assert_eq!(rng.range(41..42), 41);
    assert_eq!(rng.range_inclusive(-5..=-5), -5);
}

#[test]
fn next_numbers_repeat_with_the_seed_and_vary_along_the_stream() {
    let mut first = RandomNumberGenerator::seeded(99);
    let mut second = RandomNumberGenerator::seeded(99);
    let a: Vec<u64> = (0..20).map(|_| first.next()).collect();
    let b: Vec<u64> = (0..20).map(|_| second.next()).collect();
    assert_eq!(a, b);
    assert!(a.iter().any(|n| *n != a[0]));
}

#[test]
fn the_plugin_hands_out_a_working_generator() {
    let mut rng = Random.build();
    let n = rng.range(0..100);
    assert!((0..100).contains(&n));
}

#[test]
fn closed_ranges_repeat_with_the_seed() {
    let mut first = RandomNumberGenerator::seeded(2024);
    let mut second = RandomNumberGenerator::seeded(2024);
    for _ in 0..1000 {
        assert_eq!(first.range_inclusive(-1000..=1000), second.range_inclusive(-1000..=1000));
    }
    assert_eq!(first.next(), second.next());
}

#[test]
fn mixed_requests_repeat_with_the_seed() {
    let mut first = RandomNumberGenerator::seeded(5);
    let mut second = RandomNumberGenerator::seeded(5);
    for round in 0..200i64 {
        assert_eq!(first.next(), second.next());
        assert_eq!(first.range(-round - 1..round + 1), second.range(-round - 1..round + 1));
        assert_eq!(first.range_inclusive(0..=round), second.range_inclusive(0..=round));
    }
}
