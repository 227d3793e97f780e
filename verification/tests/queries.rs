use prime_sieve::{count_primes, estimate_nth_prime_upper_bound, nth_prime};

#[test]
fn test_count_primes_small() {
    assert_eq!(count_primes(0), 0);
    assert_eq!(count_primes(1), 0);
    assert_eq!(count_primes(2), 1);
    assert_eq!(count_primes(3), 2);
    assert_eq!(count_primes(10), 4);
}

#[test]
fn test_count_primes_100() {
    assert_eq!(count_primes(100), 25);
}

#[test]
fn test_count_primes_1000() {
    assert_eq!(count_primes(1000), 168);
}

#[test]
fn test_count_primes_10000() {
    assert_eq!(count_primes(10_000), 1229);
}

#[test]
fn test_nth_prime_small() {
    assert_eq!(nth_prime(1), Some(2));
    assert_eq!(nth_prime(2), Some(3));
    assert_eq!(nth_prime(3), Some(5));
    assert_eq!(nth_prime(4), Some(7));
    assert_eq!(nth_prime(5), Some(11));
}

#[test]
fn test_nth_prime_100() {
    assert_eq!(nth_prime(100), Some(541));
}

#[test]
fn test_nth_prime_1000() {
    assert_eq!(nth_prime(1000), Some(7919));
}

#[test]
fn test_nth_prime_invalid() {
    assert_eq!(nth_prime(0), None);
}

fn is_prime_by_trial_division(n: usize) -> bool {
    if n < 2 {
        return false;
    }
    let mut d = 2;
    while d * d <= n {
        if n % d == 0 {
            return false;
        }
        d += 1;
    }
    true
}

#[test]
fn test_count_primes_matches_trial_division() {
    let mut expected = 0;
    for limit in 0..200 {
        if is_prime_by_trial_division(limit) {
            expected += 1;
        }
        assert_eq!(count_primes(limit), expected);
    }
}

#[test]
fn test_count_primes_monotonic() {
    let mut previous = 0;
    for limit in 0..500 {
        let current = count_primes(limit);
        assert!(previous <= current);
        previous = current;
    }
}

#[test]
fn test_nth_prime_consistent_with_count() {
    for n in 1..200 {
        let p = nth_prime(n).expect("estimate covers small n");
        assert!(is_prime_by_trial_division(p));
        assert_eq!(count_primes(p), n);
    }
}

#[test]
fn test_estimator_covers_nth_prime() {
    for n in 1..2000 {
        let bound = estimate_nth_prime_upper_bound(n);
        let p = nth_prime(n).expect("estimate large enough for tested range");
        assert!(p <= bound);
    }
}
