//! A bit-packed sieve of Eratosthenes over `[0, size)`.

use vstd::prelude::*;

use crate::arith::isqrt;
use crate::primality::{
    has_factor_below, is_prime, lemma_composite_has_small_factor, lemma_divides_transitive,
    lemma_factor_not_prime, lemma_no_small_factor_is_prime, prime_count,
};

verus! {

/// Whether bit `k` of `byte` is set.
pub open spec fn bit_set(byte: u8, k: u8) -> bool {
    (byte >> k) & 1u8 == 1u8
}

/// A packed boolean array over `[0, size)`: one bit per number, a set bit
/// meaning "still a prime candidate".
pub struct BitSieve {
    bits: Vec<u8>,
    size: usize,
}

impl BitSieve {
    /// The exclusive upper bound of the domain.
    pub closed spec fn spec_size(&self) -> int {
        self.size as int
    }

    /// The byte buffer holds exactly one bit for each number below `size`.
    pub closed spec fn wf(&self) -> bool {
        &&& 1 <= self.size
        &&& self.bits@.len() == (self.size - 1) as int / 8 + 1
    }

    /// Whether number `n` is currently marked as a prime candidate.
    pub closed spec fn marked(&self, n: int) -> bool {
        &&& 0 <= n < self.size
        &&& bit_set(self.bits@[n / 8], (n % 8) as u8)
    }

    /// How many numbers in `[0, n)` are marked.
    pub open spec fn marked_below(&self, n: int) -> nat
        decreases n,
    {
        if n <= 0 {
            0
        } else {
            self.marked_below(n - 1) + if self.marked(n - 1) {
                1nat
            } else {
                0nat
            }
        }
    }

    /// The sieve has run to completion: exactly the primes below `size`
    /// are marked.
    pub open spec fn is_sieved(&self) -> bool {
        forall|n: int|
            #![trigger self.marked(n)]
            #![trigger is_prime(n)]
            self.marked(n) <==> (n < self.spec_size() && is_prime(n))
    }

    /// Marks exist only inside the domain: any query beyond `size` is
    /// `false`, and clearing there is a no-op.
    pub proof fn lemma_marked_in_domain(&self)
        ensures
            forall|n: int| #[trigger] self.marked(n) ==> 0 <= n < self.spec_size(),
    {
    }

    /// Create a sieve for the numbers `0..=limit`, with every number from 2
    /// up marked as a candidate and 0 and 1 cleared.
    pub fn new(limit: usize) -> (s: BitSieve)
        requires
            limit < usize::MAX,
        ensures
            s.wf(),
            s.spec_size() == limit + 1,
            forall|n: int| s.marked(n) <==> 2 <= n <= limit,
    {
        let num_bytes = limit / 8 + 1;
        let mut bits: Vec<u8> = Vec::new();
        let mut k: usize = 0;
        while k < num_bytes
            invariant
                k <= num_bytes,
                bits@.len() == k,
                forall|t: int| 0 <= t < k ==> bits@[t] == 0xFFu8,
            decreases num_bytes - k,
        {
            bits.push(0xFF);
            k = k + 1;
        }
        let mut s = BitSieve { bits, size: limit + 1 };
        proof {
            assert(forall|b: u8| b < 8 ==> bit_set(0xFFu8, b)) by (bit_vector);
            assert forall|n: int| 0 <= n <= limit implies s.marked(n) by {
                vstd::arithmetic::div_mod::lemma_div_is_ordered(n, limit as int, 8);
                assert(0 <= n / 8 < s.bits@.len());
                assert(0 <= n % 8 < 8);
            }
        }
        s.clear(0);
        s.clear(1);
        s
    }

    /// Whether `n` is marked; `false` for any `n` outside the domain.
    pub fn is_set(&self, n: usize) -> (r: bool)
        requires
            self.wf(),
        ensures
            r == self.marked(n as int),
            n >= self.spec_size() ==> !r,
    {
        if n >= self.size {
            return false;
        }
        let byte_idx = n / 8;
        let bi: u8 = (n % 8) as u8;
        proof {
            vstd::arithmetic::div_mod::lemma_div_is_ordered(
                n as int,
                (self.size - 1) as int,
                8,
            );
        }
        let b = self.bits[byte_idx];
        let r = (b & (1u8 << bi)) != 0;
        proof {
            assert(((b & (1u8 << bi)) != 0) == bit_set(b, bi)) by (bit_vector)
                requires
                    bi < 8,
            ;
        }
        r
    }

    /// Clear the mark on `n`; a no-op for any `n` outside the domain.
    pub fn clear(&mut self, n: usize)
        requires
            old(self).wf(),
        ensures
            final(self).wf(),
            final(self).spec_size() == old(self).spec_size(),
            forall|m: int|
                #![trigger final(self).marked(m)]
                final(self).marked(m) <==> (old(self).marked(m) && m != n),
    {
        if n >= self.size {
            return;
        }
        let byte_idx = n / 8;
        let bi: u8 = (n % 8) as u8;
        proof {
            vstd::arithmetic::div_mod::lemma_div_is_ordered(
                n as int,
                (self.size - 1) as int,
                8,
            );
        }
        let b = self.bits[byte_idx];
        let nb = b & !(1u8 << bi);
        self.bits[byte_idx] = nb;
        proof {
            assert(!bit_set(nb, bi)) by (bit_vector)
                requires
                    nb == b & !(1u8 << bi),
                    bi < 8,
            ;
            assert(forall|k: u8| k < 8 && k != bi ==> bit_set(nb, k) == bit_set(b, k))
                by (bit_vector)
                requires
                    nb == b & !(1u8 << bi),
            ;
            assert forall|m: int| final(self).marked(m) <==> (old(self).marked(m) && m != n)
            by {
                if 0 <= m < self.size {
                    assert(0 <= m % 8 < 8);
                    if m / 8 == byte_idx {
                        if (m % 8) as u8 == bi {
                            assert(m == 8 * (m / 8) + m % 8);
                            assert(n == 8 * (n as int / 8) + n as int % 8);
                            assert(m == n);
                        } else {
                            assert(m != n);
                        }
                    } else {
                        assert(m != n);
                    }
                }
            }
        }
    }

    /// Run the sieve of Eratosthenes, leaving exactly the primes marked.
    ///
    /// The precondition admits both a freshly constructed sieve and one that
    /// has already been run: no prime may be missing a mark, and 0 and 1 may
    /// not carry one. Under it, the outcome is always the same marking, so
    /// running the sieve a second time changes nothing.
    pub fn run_sieve(&mut self)
        requires
            old(self).wf(),
            forall|n: int| old(self).marked(n) ==> 2 <= n,
            forall|n: int|
                2 <= n < old(self).spec_size() && is_prime(n) ==> old(self).marked(n),
        ensures
            final(self).wf(),
            final(self).spec_size() == old(self).spec_size(),
            final(self).is_sieved(),
    {
        let limit = self.size - 1;
        let sqrt_limit = isqrt(limit);
        proof {
            assert(sqrt_limit <= limit) by (nonlinear_arith)
                requires
                    sqrt_limit * sqrt_limit <= limit,
                    0 <= sqrt_limit,
            ;
        }
        let mut i: usize = 2;
        while i <= sqrt_limit
            invariant
                self.wf(),
                self.spec_size() == old(self).spec_size(),
                limit == self.spec_size() - 1,
                sqrt_limit * sqrt_limit <= limit < (sqrt_limit + 1) * (sqrt_limit + 1),
                sqrt_limit <= limit < usize::MAX,
                2 <= i,
                forall|n: int| self.marked(n) ==> 2 <= n,
                forall|n: int| 2 <= n < self.spec_size() && is_prime(n) ==> self.marked(n),
                forall|n: int| self.marked(n) ==> !has_factor_below(n, i as int),
            decreases sqrt_limit + 1 - i,
        {
            let ghost ii = i as int;
            if self.is_set(i) {
                proof {
                    assert(i * i <= limit) by (nonlinear_arith)
                        requires
                            2 <= i <= sqrt_limit,
                            sqrt_limit * sqrt_limit <= limit,
                    ;
                }
                let mut j = i * i;
                proof {
                    vstd::arithmetic::div_mod::lemma_mod_multiples_basic(ii, ii);
                }
                while j <= limit
                    invariant
                        self.wf(),
                        self.spec_size() == old(self).spec_size(),
                        limit == self.spec_size() - 1,
                        limit < usize::MAX,
                        2 <= i,
                        i * i <= limit,
                        j <= limit + 1,
                        j <= limit ==> (i * i <= j && j as int % ii == 0),
                        ii == i as int,
                        forall|n: int| self.marked(n) ==> 2 <= n,
                        forall|n: int|
                            2 <= n < self.spec_size() && is_prime(n) ==> self.marked(n),
                        forall|n: int| self.marked(n) ==> !has_factor_below(n, ii),
                        forall|n: int|
                            self.marked(n) && n % ii == 0 && ii * ii <= n ==> j <= n,
                    decreases limit + 1 - j,
                {
                    proof {
                        // The current multiple is composite: i divides it and
                        // is strictly smaller.
                        assert(i < j) by (nonlinear_arith)
                            requires
                                2 <= i,
                                i * i <= j,
                        ;
                        lemma_factor_not_prime(j as int, ii);
                    }
                    let ghost pre = *self;
                    self.clear(j);
                    proof {
                        assert forall|n: int|
                            self.marked(n) && n % ii == 0 && ii * ii <= n implies j + i <= n
                        by {
                            assert(pre.marked(n) && n != j);
                            let qn = n / ii;
                            let qj = j as int / ii;
                            vstd::arithmetic::div_mod::lemma_fundamental_div_mod(n, ii);
                            vstd::arithmetic::div_mod::lemma_fundamental_div_mod(
                                j as int,
                                ii,
                            );
                            assert(n >= j + i) by (nonlinear_arith)
                                requires
                                    n == ii * qn,
                                    j == ii * qj,
                                    n > j,
                                    ii == i,
                                    1 <= ii,
                            ;
                        }
                    }
                    if limit - j < i {
                        j = limit + 1;
                    } else {
                        proof {
                            vstd::arithmetic::div_mod::lemma_mod_add_multiples_vanish(
                                j as int,
                                ii,
                            );
                        }
                        j = j + i;
                    }
                }
                proof {
                    // Every multiple of i from i*i up is now cleared, so no
                    // marked number has i as a factor of the relevant kind.
                    assert forall|n: int| self.marked(n) implies !has_factor_below(
                        n,
                        ii + 1,
                    ) by {
                        if has_factor_below(n, ii + 1) {
                            let d = choose|d: int|
                                2 <= d < ii + 1 && d * d <= n && #[trigger] (n % d) == 0;
                            if d < ii {
                                assert(has_factor_below(n, ii));
                            } else {
                                assert(d == ii);
                                assert(j <= n);
                                assert(n < self.spec_size());
                            }
                        }
                    }
                }
            } else {
                proof {
                    // i itself is unmarked, so it is composite, and any
                    // multiple of i already has a smaller factor.
                    assert(2 <= ii < self.spec_size());
                    assert(!is_prime(ii));
                    lemma_composite_has_small_factor(ii);
                    let f = choose|d: int|
                        2 <= d && d * d <= ii && #[trigger] (ii % d) == 0 && d < ii;
                    assert forall|n: int| self.marked(n) implies !has_factor_below(
                        n,
                        ii + 1,
                    ) by {
                        if has_factor_below(n, ii + 1) {
                            let d = choose|d: int|
                                2 <= d < ii + 1 && d * d <= n && #[trigger] (n % d) == 0;
                            if d < ii {
                                assert(has_factor_below(n, ii));
                            } else {
                                assert(d == ii);
                                lemma_divides_transitive(f, ii, n);
                                assert(ii <= n) by (nonlinear_arith)
                                    requires
                                        2 <= ii,
                                        ii * ii <= n,
                                ;
                                assert(f * f <= n);
                                assert(has_factor_below(n, ii));
                            }
                        }
                    }
                }
            }
            i = i + 1;
        }
        proof {
            assert forall|n: int|
                self.marked(n) <==> (n < self.spec_size() && is_prime(n)) by {
                if self.marked(n) {
                    assert(!has_factor_below(n, i as int));
                    if has_factor_below(n, sqrt_limit as int + 1) {
                        let d = choose|d: int|
                            2 <= d < sqrt_limit as int + 1 && d * d <= n && #[trigger] (n
                                % d) == 0;
                        assert(has_factor_below(n, i as int));
                    }
                    lemma_no_small_factor_is_prime(n, sqrt_limit as int);
                }
            }
        }
    }

    /// Count the marked numbers: a single linear pass over the domain.
    pub fn count_primes(&self) -> (r: usize)
        requires
            self.wf(),
        ensures
            r == self.marked_below(self.spec_size()),
    {
        let mut count: usize = 0;
        let mut idx: usize = 0;
        while idx < self.size
            invariant
                self.wf(),
                idx <= self.size,
                count <= idx,
                count == self.marked_below(idx as int),
            decreases self.size - idx,
        {
            if self.is_set(idx) {
                count = count + 1;
            }
            idx = idx + 1;
        }
        count
    }

    /// The n-th marked number, 1-indexed: the index at which a running count
    /// of marks first reaches `n`. `None` for `n == 0` and when fewer than
    /// `n` numbers are marked.
    pub fn nth_prime(&self, n: usize) -> (r: Option<usize>)
        requires
            self.wf(),
        ensures
            match r {
                Some(p) => {
                    &&& 1 <= n
                    &&& self.marked(p as int)
                    &&& self.marked_below(p as int) == n - 1
                    &&& p < self.spec_size()
                },
                None => n == 0 || self.marked_below(self.spec_size()) < n,
            },
    {
        if n == 0 {
            return None;
        }
        let mut count: usize = 0;
        let mut idx: usize = 0;
        while idx < self.size
            invariant
                self.wf(),
                idx <= self.size,
                count < n,
                count == self.marked_below(idx as int),
            decreases self.size - idx,
        {
            if self.is_set(idx) {
                count = count + 1;
                if count == n {
                    return Some(idx);
                }
            }
            idx = idx + 1;
        }
        None
    }
}

/// On a fully sieved instance the running count of marks below `n` is the
/// prime-counting function.
pub proof fn lemma_marked_below_counts_primes(s: &BitSieve, n: int)
    requires
        s.is_sieved(),
        n <= s.spec_size(),
    ensures
        s.marked_below(n) == prime_count(n),
    decreases n,
{
    if n > 0 {
        lemma_marked_below_counts_primes(s, n - 1);
    }
}

/// Sieving is idempotent: the fully sieved state over a given domain is
/// unique, so running the sieve a second time yields the same set of marked
/// bits as running it once.
pub proof fn lemma_sieved_marks_unique(first: &BitSieve, second: &BitSieve)
    requires
        first.is_sieved(),
        second.is_sieved(),
        first.spec_size() == second.spec_size(),
    ensures
        forall|n: int| first.marked(n) == second.marked(n),
{
}

} // verus!
