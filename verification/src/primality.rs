//! The mathematical model: primality and the prime-counting function.

use vstd::prelude::*;

verus! {

/// A number is prime when it is at least 2 and no smaller number of at
/// least 2 divides it.
pub open spec fn is_prime(n: int) -> bool {
    &&& 2 <= n
    &&& forall|d: int| 2 <= d < n ==> #[trigger] (n % d) != 0
}

/// The number of primes strictly below `n`.
pub open spec fn prime_count(n: int) -> nat
    decreases n,
{
    if n <= 0 {
        0
    } else {
        prime_count(n - 1) + if is_prime(n - 1) {
            1nat
        } else {
            0nat
        }
    }
}

/// Some number `d` with `2 <= d < bound` divides `n`, and its square does
/// not exceed `n`.
pub open spec fn has_factor_below(n: int, bound: int) -> bool {
    exists|d: int| 2 <= d < bound && d * d <= n && #[trigger] (n % d) == 0
}

/// A number with a proper divisor is not prime.
pub proof fn lemma_factor_not_prime(n: int, d: int)
    requires
        2 <= d < n,
        n % d == 0,
    ensures
        !is_prime(n),
{
}

/// Divisibility is transitive: if `a` divides `b` and `b` divides `c`,
/// then `a` divides `c`.
pub proof fn lemma_divides_transitive(a: int, b: int, c: int)
    requires
        1 <= a,
        1 <= b,
        0 <= c,
        b % a == 0,
        c % b == 0,
    ensures
        c % a == 0,
{
    vstd::arithmetic::div_mod::lemma_fundamental_div_mod(b, a);
    vstd::arithmetic::div_mod::lemma_fundamental_div_mod(c, b);
    let k = b / a;
    let m = c / b;
    assert(c == (k * m) * a) by (nonlinear_arith)
        requires
            b == a * k,
            c == b * m,
    ;
    vstd::arithmetic::div_mod::lemma_mod_multiples_basic(k * m, a);
}

/// A composite number has a proper factor of at least 2 whose square does
/// not exceed the number itself.
pub proof fn lemma_composite_has_small_factor(n: int)
    requires
        2 <= n,
        !is_prime(n),
    ensures
        exists|d: int| 2 <= d && d * d <= n && #[trigger] (n % d) == 0 && d < n,
{
    let d = choose|d: int| 2 <= d < n && #[trigger] (n % d) == 0;
    assert(2 <= d < n && n % d == 0);
    vstd::arithmetic::div_mod::lemma_fundamental_div_mod(n, d);
    let q = n / d;
    vstd::arithmetic::div_mod::lemma_div_pos_is_pos(n, d);
    assert(2 <= q) by (nonlinear_arith)
        requires
            2 <= d < n,
            n == d * q,
            0 <= q,
    ;
    // n == q * d, so q divides n as well.
    assert(n == q * d) by (nonlinear_arith)
        requires
            n == d * q,
    ;
    vstd::arithmetic::div_mod::lemma_mod_multiples_basic(d, q);
    // The smaller of d and q is a factor whose square is at most n.
    let f = if d <= q {
        d
    } else {
        q
    };
    assert(f * f <= n && f < n) by (nonlinear_arith)
        requires
            n == d * q,
            2 <= d,
            2 <= q,
            f == if d <= q {
                d
            } else {
                q
            },
    ;
    assert(2 <= f && f * f <= n && n % f == 0 && f < n);
}

/// A number of at least 2 with no factor up to `s` is prime, provided `s`
/// covers the square root of the number.
pub proof fn lemma_no_small_factor_is_prime(n: int, s: int)
    requires
        2 <= n,
        0 <= s,
        n < (s + 1) * (s + 1),
        !has_factor_below(n, s + 1),
    ensures
        is_prime(n),
{
    if !is_prime(n) {
        lemma_composite_has_small_factor(n);
        let f = choose|d: int| 2 <= d && d * d <= n && #[trigger] (n % d) == 0 && d < n;
        assert(f <= s) by (nonlinear_arith)
            requires
                f * f <= n,
                n < (s + 1) * (s + 1),
                0 <= s,
                0 <= f,
        ;
        assert(2 <= f < s + 1 && f * f <= n && n % f == 0);
        assert(false);
    }
}

/// Counting past a prime raises the count by exactly one.
pub proof fn lemma_prime_count_step(p: int)
    requires
        is_prime(p),
    ensures
        prime_count(p + 1) == prime_count(p) + 1,
{
}

/// The set of primes up to and including `limit`.
pub open spec fn primes_upto(limit: int) -> Set<int> {
    Set::new(|p: int| p <= limit && is_prime(p))
}

/// The prime-counting function agrees with the cardinality of the set of
/// primes: `prime_count(limit + 1)` is the number of elements of
/// `{ p <= limit : p prime }`, which in particular is finite.
pub proof fn lemma_prime_count_is_cardinality(limit: int)
    ensures
        primes_upto(limit).finite(),
        primes_upto(limit).len() == prime_count(limit + 1),
    decreases limit + 2,
{
    broadcast use vstd::set::axiom_set_empty_len;
    broadcast use vstd::set::axiom_set_empty_finite;

    if limit <= 1 {
        assert(primes_upto(limit) =~= Set::<int>::empty());
        assert(prime_count(0) == 0);
        assert(!is_prime(0) && !is_prime(1));
        assert(prime_count(1) == 0);
        assert(prime_count(2) == 0);
    } else {
        lemma_prime_count_is_cardinality(limit - 1);
        vstd::set::axiom_set_insert_finite(primes_upto(limit - 1), limit);
        vstd::set::axiom_set_insert_len(primes_upto(limit - 1), limit);
        if is_prime(limit) {
            assert(primes_upto(limit) =~= primes_upto(limit - 1).insert(limit));
        } else {
            assert(primes_upto(limit) =~= primes_upto(limit - 1));
        }
    }
}

/// The prime-counting function never decreases.
pub proof fn lemma_prime_count_monotonic(a: int, b: int)
    requires
        a <= b,
    ensures
        prime_count(a) <= prime_count(b),
    decreases b - a,
{
    if a < b {
        lemma_prime_count_monotonic(a, b - 1);
    }
}

} // verus!
