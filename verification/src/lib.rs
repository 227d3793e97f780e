//! Prime counting and n-th prime lookup built on a bit-packed sieve of
//! Eratosthenes, using integer arithmetic only.

use vstd::prelude::*;

pub mod arith;
pub mod primality;
pub mod sieve;

verus! {

use crate::arith::{bit_len, bit_length};
use crate::primality::{is_prime, lemma_prime_count_step, prime_count};
use crate::sieve::{BitSieve, lemma_marked_below_counts_primes};

/// The size of a sieve expected to contain the n-th prime: 15 covers the
/// first five primes, and for larger `n` the bound `2 * n * bit_length(n)`
/// coarsens `p_n < n * (ln n + ln ln n)` to a base-2 logarithm with a factor
/// of two as margin. A heuristic, not a theorem: `nth_prime` reports when it
/// falls short.
pub open spec fn nth_prime_bound(n: int) -> int {
    if n < 6 {
        15
    } else {
        2 * n * bit_length(n)
    }
}

/// Estimate an upper bound for the n-th prime, using integers only.
pub fn estimate_nth_prime_upper_bound(n: usize) -> (r: usize)
    requires
        nth_prime_bound(n as int) <= usize::MAX,
    ensures
        r == nth_prime_bound(n as int),
{
    if n < 6 {
        return 15;
    }
    let log2_n = bit_len(n);
    proof {
        assert(0 <= n * log2_n && n * log2_n <= 2 * n * log2_n && (n * log2_n) * 2 == 2 * n
            * log2_n) by (nonlinear_arith)
            requires
                n >= 6,
                log2_n >= 0,
        ;
    }
    n * log2_n * 2
}

/// Count of the primes in `[0, limit]`.
pub fn count_primes(limit: usize) -> (r: usize)
    requires
        limit < usize::MAX,
    ensures
        r == prime_count(limit as int + 1),
{
    if limit < 2 {
        proof {
            assert(prime_count(0) == 0);
            assert(!is_prime(0) && !is_prime(1));
            assert(prime_count(1) == 0);
            assert(prime_count(2) == 0);
        }
        return 0;
    }
    let mut sieve = BitSieve::new(limit);
    sieve.run_sieve();
    proof {
        lemma_marked_below_counts_primes(&sieve, limit as int + 1);
    }
    sieve.count_primes()
}

/// The n-th prime, 1-indexed (`n == 1` gives 2). `None` for `n == 0`, and
/// also when the estimated sieve bound turns out to hold fewer than `n`
/// primes.
pub fn nth_prime(n: usize) -> (r: Option<usize>)
    requires
        nth_prime_bound(n as int) < usize::MAX,
    ensures
        match r {
            Some(p) => 1 <= n && is_prime(p as int) && prime_count(p as int) == n - 1,
            None => n == 0 || prime_count(nth_prime_bound(n as int) + 1) < n,
        },
{
    if n == 0 {
        return None;
    }
    let limit = estimate_nth_prime_upper_bound(n);
    let mut sieve = BitSieve::new(limit);
    sieve.run_sieve();
    let r = sieve.nth_prime(n);
    proof {
        match r {
            Some(p) => lemma_marked_below_counts_primes(&sieve, p as int),
            None => lemma_marked_below_counts_primes(&sieve, limit as int + 1),
        }
    }
    r
}

/// The two queries are consistent: when the n-th prime is `p` — `p` prime
/// with exactly `n - 1` primes below it — the primes in `[0, p]` number
/// exactly `n`, so `count_primes(p)` returns `n`.
pub proof fn lemma_nth_prime_count_consistent(n: int, p: int)
    requires
        1 <= n,
        is_prime(p),
        prime_count(p) == n - 1,
    ensures
        prime_count(p + 1) == n,
{
    lemma_prime_count_step(p);
}

} // verus!
