use prime::engine::reach_limit;
use prime::{BigPrime, PrimeCalc, PrimeCalcExtended};

#[test]
fn new_sieve_holds_one_flag() {
    assert_eq!(BigPrime::new().sieve_len(), 1);
    assert_eq!(BigPrime::default().sieve_len(), 1);
}

#[test]
fn ensure_base_grows_to_the_index_of_the_bound() {
    let mut engine = BigPrime::new();
    engine.ensure_base(999);
    assert_eq!(engine.sieve_len(), 499);
    engine.ensure_base(100);
    assert_eq!(engine.sieve_len(), 499);
    engine.ensure_base(2);
    assert_eq!(engine.sieve_len(), 499);
    engine.ensure_base(1_001);
    assert_eq!(engine.sieve_len(), 500);
}

#[test]
fn covered_numbers_are_read_from_the_sieve() {
    let mut engine = BigPrime::new();
    engine.ensure_base(200);
    let len = engine.sieve_len();
    let primes: Vec<u128> = (0..=200u128).filter(|n| engine.is_prime(*n) == Some(true)).collect();
    assert_eq!(primes.len(), 46);
    assert_eq!(primes[..10], [2, 3, 5, 7, 11, 13, 17, 19, 23, 29]);
    assert_eq!(*primes.last().unwrap(), 199);
    assert_eq!(engine.sieve_len(), len);
}

#[test]
fn below_two_is_never_prime() {
    let mut engine = BigPrime::new();
    assert_eq!(engine.is_prime(0), Some(false));
    assert_eq!(engine.is_prime(1), Some(false));
}

#[test]
fn even_numbers_above_two_are_not_prime() {
    let mut engine = BigPrime::new();
    for n in [4u128, 100, 1_000_000, u128::MAX - 1] {
        assert_eq!(engine.is_prime(n), Some(false));
    }
    assert_eq!(engine.sieve_len(), 1);
}

#[test]
fn odd_composites_and_primes() {
    let mut engine = BigPrime::new();
    for n in [9u128, 15, 25, 1_000_001, 999_999_999_999] {
        assert_eq!(engine.is_prime(n), Some(false));
    }
    for n in [7u128, 11, 131, 1_000_003, 1_000_000_007] {
        assert_eq!(engine.is_prime(n), Some(true));
    }
    assert_eq!(engine.is_prime(1_000_003 * 1_000_033), Some(false));
}

#[test]
fn odd_numbers_out_of_reach_are_indeterminate() {
    let mut engine = BigPrime::new();
    assert_eq!(engine.is_prime(u128::MAX), None);
    assert_eq!(engine.is_prime(reach_limit()), None);
    assert_eq!(engine.sieve_len(), 1);
}

#[test]
fn reach_limit_on_this_machine() {
    let root_limit = (usize::MAX / 8) as u128 * 2 + 2;
    assert_eq!(reach_limit(), (root_limit + 1) * (root_limit + 1));
}

#[test]
fn asking_twice_keeps_answer_and_length() {
    let mut engine = BigPrime::new();
    let first = engine.is_prime(1_000_003);
    let len = engine.sieve_len();
    assert_eq!(len, 499);
    let second = engine.is_prime(1_000_003);
    assert_eq!(first, second);
    assert_eq!(engine.sieve_len(), len);
}

#[test]
fn trial_division_sieves_up_to_the_root() {
    let mut engine = BigPrime::new();
    assert_eq!(engine.is_prime(10_201), Some(false));
    assert_eq!(engine.sieve_len(), 50);
    assert_eq!(engine.is_prime(49), Some(false));
    assert_eq!(engine.sieve_len(), 50);
}

#[test]
fn previous_prime_edges() {
    let mut engine = BigPrime::new();
    assert_eq!(engine.previous_prime(3), Some(2));
    assert_eq!(engine.previous_prime(2), None);
    assert_eq!(engine.previous_prime(0), None);
    assert_eq!(engine.previous_prime(1_000_003), Some(999_983));
}

#[test]
fn next_prime_edges() {
    let mut engine = BigPrime::new();
    assert_eq!(engine.next_prime(0), Some(2));
    assert_eq!(engine.next_prime(2), Some(3));
    assert_eq!(engine.next_prime(u128::MAX), None);
    assert_eq!(engine.next_prime(u128::MAX - 1), None);
    assert_eq!(engine.next_prime(999_983), Some(1_000_003));
}

#[test]
fn next_then_previous_round_trip() {
    let mut engine = BigPrime::new();
    for n in [2u128, 3, 10, 24, 89, 90, 1_000_000] {
        let p = engine.next_prime(n).unwrap();
        let q = engine.previous_prime(p).unwrap();
        assert!(q <= n);
        assert_eq!(engine.is_prime(q), Some(true));
        assert!((q + 1..p).all(|k| engine.is_prime(k) == Some(false)));
    }
    let p = engine.next_prime(1).unwrap();
    assert_eq!(engine.previous_prime(p), None);
}

#[test]
fn scenarios_keep_the_sieve_from_shrinking() {
    let mut engine = BigPrime::new();
    assert_eq!(engine.is_prime(997), Some(true));
    assert_eq!(engine.is_prime(999), Some(false));
    assert_eq!(engine.is_prime(999_983), Some(true));
    let len = engine.sieve_len();
    assert_eq!(engine.previous_prime(1_000_004), Some(1_000_003));
    assert!(engine.sieve_len() >= len);
    let len = engine.sieve_len();
    assert_eq!(engine.next_prime(1_000_002), Some(1_000_003));
    assert!(engine.sieve_len() >= len);
    let len = engine.sieve_len();
    assert_eq!(engine.is_prime(5), Some(true));
    assert_eq!(engine.sieve_len(), len);
}
