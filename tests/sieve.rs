use prime::index::{index_to_num, num_to_index};
use prime::{BigPrime, PrimeCalc, PrimeCalcExtended};

#[test]
fn test_index_calc() {
    assert_eq!(num_to_index(3), 0);
    assert_eq!(num_to_index(4), 0);
    assert_eq!(num_to_index(5), 1);
    assert_eq!(num_to_index(6), 1);
    assert_eq!(index_to_num(0), 3);
    assert_eq!(index_to_num(1), 5);
}

#[test]
fn test_sieve() {
    assert_eq!(BigPrime::new().is_prime(0), Some(false));
    assert_eq!(BigPrime::new().is_prime(1), Some(false));
    assert_eq!(BigPrime::new().is_prime(2), Some(true));
    assert_eq!(BigPrime::new().is_prime(3), Some(true));
    assert_eq!(BigPrime::new().is_prime(4), Some(false));
    assert_eq!(BigPrime::new().is_prime(5), Some(true));
    assert_eq!(BigPrime::new().is_prime(6), Some(false));
    assert_eq!(BigPrime::new().is_prime(7), Some(true));
    assert_eq!(BigPrime::new().is_prime(8), Some(false));
    assert_eq!(BigPrime::new().is_prime(9), Some(false));
    assert_eq!(BigPrime::new().is_prime(10), Some(false));
    assert_eq!(BigPrime::new().is_prime(11), Some(true));
    assert_eq!(BigPrime::new().is_prime(12), Some(false));
    assert_eq!(BigPrime::new().is_prime(25), Some(false));
    assert_eq!(BigPrime::new().is_prime(131), Some(true));
    assert_eq!(BigPrime::new().is_prime(1_000_001), Some(false));
    assert_eq!(BigPrime::new().is_prime(1_000_003), Some(true));
}

#[test]
fn test_sieve_previous() {
    assert_eq!(BigPrime::new().previous_prime(0), None);
    assert_eq!(BigPrime::new().previous_prime(1), None);
    assert_eq!(BigPrime::new().previous_prime(2), None);
    assert_eq!(BigPrime::new().previous_prime(3), Some(2));
    assert_eq!(BigPrime::new().previous_prime(4), Some(3));
    assert_eq!(BigPrime::new().previous_prime(5), Some(3));
    assert_eq!(BigPrime::new().previous_prime(6), Some(5));
    assert_eq!(BigPrime::new().previous_prime(7), Some(5));
    assert_eq!(BigPrime::new().previous_prime(8), Some(7));
    assert_eq!(BigPrime::new().previous_prime(9), Some(7));
    assert_eq!(BigPrime::new().previous_prime(10), Some(7));
    assert_eq!(BigPrime::new().previous_prime(11), Some(7));
    assert_eq!(BigPrime::new().previous_prime(12), Some(11));
    assert_eq!(BigPrime::new().previous_prime(25), Some(23));
    assert_eq!(BigPrime::new().previous_prime(132), Some(131));
    assert_eq!(BigPrime::new().previous_prime(1_000_004), Some(1_000_003));
}

#[test]
fn test_sieve_next() {
    assert_eq!(BigPrime::new().next_prime(0), Some(2));
    assert_eq!(BigPrime::new().next_prime(1), Some(2));
    assert_eq!(BigPrime::new().next_prime(2), Some(3));
    assert_eq!(BigPrime::new().next_prime(3), Some(5));
    assert_eq!(BigPrime::new().next_prime(4), Some(5));
    assert_eq!(BigPrime::new().next_prime(5), Some(7));
    assert_eq!(BigPrime::new().next_prime(6), Some(7));
    assert_eq!(BigPrime::new().next_prime(7), Some(11));
    assert_eq!(BigPrime::new().next_prime(8), Some(11));
    assert_eq!(BigPrime::new().next_prime(9), Some(11));
    assert_eq!(BigPrime::new().next_prime(10), Some(11));
    assert_eq!(BigPrime::new().next_prime(11), Some(13));
    assert_eq!(BigPrime::new().next_prime(12), Some(13));
    assert_eq!(BigPrime::new().next_prime(25), Some(29));
    assert_eq!(BigPrime::new().next_prime(130), Some(131));
    assert_eq!(BigPrime::new().next_prime(1_000_002), Some(1_000_003));
    assert_eq!(BigPrime::new().next_prime(u128::MAX), None);
}

#[test]
fn test_filled() {
    let mut sieve = BigPrime::new();
    sieve.ensure_base(999);
    let len = sieve.sieve_len();
    assert_eq!(sieve.is_prime(997), Some(true));
    assert_eq!(sieve.is_prime(998), Some(false));
    assert_eq!(sieve.is_prime(999), Some(false));
    assert_eq!(sieve.is_prime(1_000), Some(false));
    assert_eq!(sieve.is_prime(999_983), Some(true));
    assert_eq!(sieve.is_prime(5), Some(true));
    assert_eq!(sieve.sieve_len(), len);
}
