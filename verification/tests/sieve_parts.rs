use prime_sieve::arith::{bit_len, isqrt};
use prime_sieve::sieve::BitSieve;

#[test]
fn test_isqrt_boundaries() {
    assert_eq!(isqrt(0), 0);
    assert_eq!(isqrt(1), 1);
    assert_eq!(isqrt(2), 1);
    assert_eq!(isqrt(3), 1);
    assert_eq!(isqrt(4), 2);
    for k in 1..1000usize {
        assert_eq!(isqrt(k * k), k);
        assert_eq!(isqrt(k * k - 1), k - 1);
        assert_eq!(isqrt(k * k + 1), k);
    }
}

#[test]
fn test_bit_len_values() {
    assert_eq!(bit_len(0), 0);
    assert_eq!(bit_len(1), 1);
    assert_eq!(bit_len(2), 2);
    assert_eq!(bit_len(3), 2);
    assert_eq!(bit_len(4), 3);
    assert_eq!(bit_len(255), 8);
    assert_eq!(bit_len(256), 9);
    for n in 1..64u32 {
        assert_eq!(bit_len(1usize << n), (n + 1) as usize);
    }
}

#[test]
fn test_sieve_marks_exactly_primes() {
    let mut sieve = BitSieve::new(50);
    sieve.run_sieve();
    let primes = [2, 3, 5, 7, 11, 13, 17, 19, 23, 29, 31, 37, 41, 43, 47];
    for n in 0..=50usize {
        assert_eq!(sieve.is_set(n), primes.contains(&n));
    }
}

#[test]
fn test_run_sieve_idempotent() {
    let mut once = BitSieve::new(300);
    once.run_sieve();
    let mut twice = BitSieve::new(300);
    twice.run_sieve();
    twice.run_sieve();
    for n in 0..=300usize {
        assert_eq!(once.is_set(n), twice.is_set(n));
    }
    assert_eq!(once.count_primes(), twice.count_primes());
}

#[test]
fn test_out_of_range_queries_are_safe() {
    let mut sieve = BitSieve::new(0);
    sieve.run_sieve();
    assert!(!sieve.is_set(0));
    assert!(!sieve.is_set(1));
    assert!(!sieve.is_set(1000));
    assert_eq!(sieve.count_primes(), 0);
    assert_eq!(sieve.nth_prime(1), None);

    let mut small = BitSieve::new(2);
    small.run_sieve();
    small.clear(17);
    assert!(small.is_set(2));
    assert!(!small.is_set(3));
    assert_eq!(small.count_primes(), 1);
}

#[test]
fn test_clear_is_idempotent() {
    let mut sieve = BitSieve::new(20);
    sieve.clear(10);
    sieve.clear(10);
    assert!(!sieve.is_set(10));
    assert!(sieve.is_set(11));
    sieve.run_sieve();
    assert_eq!(sieve.count_primes(), 8);
}

#[test]
fn test_sieve_nth_prime_walks_marks() {
    let mut sieve = BitSieve::new(30);
    sieve.run_sieve();
    assert_eq!(sieve.nth_prime(0), None);
    assert_eq!(sieve.nth_prime(1), Some(2));
    assert_eq!(sieve.nth_prime(10), Some(29));
    assert_eq!(sieve.nth_prime(11), None);
}
