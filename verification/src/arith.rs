//! Integer-only arithmetic helpers: an exact square root and bit lengths.

use vstd::prelude::*;

verus! {

/// One Newton step from a value above the square root lands at or above the
/// floor of the square root: `(y + 1)^2` still exceeds `n`.
proof fn lemma_newton_step_stays_above(n: int, x: int, y: int)
    requires
        1 <= x,
        0 <= n,
        y == (x + n / x) / 2,
    ensures
        n < (y + 1) * (y + 1),
{
    let q = n / x;
    vstd::arithmetic::div_mod::lemma_fundamental_div_mod(n, x);
    vstd::arithmetic::div_mod::lemma_mod_division_less_than_divisor(n, x);
    vstd::arithmetic::div_mod::lemma_div_pos_is_pos(n, x);
    assert(q * x <= n < (q + 1) * x) by (nonlinear_arith)
        requires
            1 <= x,
            0 <= n,
            q == n / x,
            n == x * q + n % x,
            0 <= n % x < x,
    ;
    // y is the floor of (x + q) / 2.
    assert(2 * y <= x + q <= 2 * y + 1);
    if n >= (y + 1) * (y + 1) {
        if 2 * y + 2 - x <= 0 {
            // Then x alone already exceeds x + q, which is impossible.
            assert(q >= 0);
            assert(false);
        } else {
            let t = 2 * y + 2 - x;
            // (x - (y + 1))^2 >= 0 gives x * t <= n.
            assert(x * t <= n) by (nonlinear_arith)
                requires
                    t == 2 * y + 2 - x,
                    n >= (y + 1) * (y + 1),
            ;
            // Dividing by x: q >= t, so x + q >= 2y + 2, contradiction.
            assert(q >= t) by (nonlinear_arith)
                requires
                    1 <= x,
                    1 <= t,
                    x * t <= n,
                    n < (q + 1) * x,
            ;
            assert(false);
        }
    }
}

/// The sum `x + n / x` never exceeds `n + 1` for `1 <= x <= n`.
proof fn lemma_newton_sum_bounded(n: int, x: int)
    requires
        1 <= x <= n,
    ensures
        x + n / x <= n + 1,
        1 <= n / x,
{
    let q = n / x;
    vstd::arithmetic::div_mod::lemma_fundamental_div_mod(n, x);
    vstd::arithmetic::div_mod::lemma_mod_division_less_than_divisor(n, x);
    assert(1 <= q && x + q <= n + 1) by (nonlinear_arith)
        requires
            1 <= x <= n,
            n == x * q + n % x,
            0 <= n % x < x,
    ;
}

/// Exact integer square root by Newton's method; no floating point anywhere.
/// Returns the floor of the square root of `n`.
pub fn isqrt(n: usize) -> (r: usize)
    requires
        n < usize::MAX,
    ensures
        r * r <= n < (r + 1) * (r + 1),
{
    if n < 2 {
        proof {
            assert(n * n <= n < (n + 1) * (n + 1)) by (nonlinear_arith)
                requires
                    0 <= n < 2,
            ;
        }
        return n;
    }
    let mut x = n;
    let mut y = (x + 1) / 2;
    proof {
        vstd::arithmetic::div_mod::lemma_div_by_self(n as int);
        assert(n < (n + 1) * (n + 1)) by (nonlinear_arith)
            requires
                n >= 2,
        ;
    }
    while y < x
        invariant
            2 <= n < usize::MAX,
            1 <= x <= n,
            y == (x as int + n as int / x as int) / 2,
            n < (x + 1) * (x + 1),
        decreases x,
    {
        proof {
            lemma_newton_step_stays_above(n as int, x as int, y as int);
            // y >= 1 because n / x >= 1, and the sum stays small enough that
            // the next Newton step cannot overflow.
            lemma_newton_sum_bounded(n as int, x as int);
            assert(1 <= y);
            lemma_newton_sum_bounded(n as int, y as int);
        }
        x = y;
        y = (x + n / x) / 2;
    }
    proof {
        let q = n as int / x as int;
        vstd::arithmetic::div_mod::lemma_fundamental_div_mod(n as int, x as int);
        vstd::arithmetic::div_mod::lemma_mod_division_less_than_divisor(n as int, x as int);
        // y >= x means n / x >= x, hence x * x <= n.
        assert(x * x <= n) by (nonlinear_arith)
            requires
                1 <= x,
                q >= x as int,
                n as int == x as int * q + n as int % x as int,
                0 <= n as int % x as int,
        ;
    }
    x
}

/// The floor of a square root is unique: two values that both bracket `n`
/// between consecutive squares are equal.
pub proof fn lemma_isqrt_unique(n: int, a: int, b: int)
    by (nonlinear_arith)
    requires
        0 <= a,
        0 <= b,
        a * a <= n < (a + 1) * (a + 1),
        b * b <= n < (b + 1) * (b + 1),
    ensures
        a == b,
{
}

/// On a perfect square the square-root bracket pins the root exactly: any
/// `r` with `r * r <= k * k < (r + 1) * (r + 1)` equals `k`, so `isqrt`
/// returns `k` on `k * k`.
pub proof fn lemma_isqrt_of_square(k: int, r: int)
    requires
        0 <= k,
        0 <= r,
        r * r <= k * k < (r + 1) * (r + 1),
    ensures
        r == k,
{
    assert(k * k <= k * k < (k + 1) * (k + 1)) by (nonlinear_arith)
        requires
            0 <= k,
    ;
    lemma_isqrt_unique(k * k, r, k);
}

/// Just below a positive perfect square the bracket pins the root to one
/// less: any `r` bracketing `k * k - 1` equals `k - 1`, so `isqrt` returns
/// `k - 1` on `k * k - 1`.
pub proof fn lemma_isqrt_below_square(k: int, r: int)
    requires
        1 <= k,
        0 <= r,
        r * r <= k * k - 1 < (r + 1) * (r + 1),
    ensures
        r == k - 1,
{
    assert((k - 1) * (k - 1) <= k * k - 1 < k * k) by (nonlinear_arith)
        requires
            1 <= k,
    ;
    lemma_isqrt_unique(k * k - 1, r, k - 1);
}

/// The bit length of `n`: zero for `n <= 0`, otherwise one more than the bit
/// length of `n / 2`. For positive `n` this is `floor(log2(n)) + 1`.
pub open spec fn bit_length(n: int) -> nat
    decreases n,
{
    if n <= 0 {
        0
    } else {
        1 + bit_length(n / 2)
    }
}

/// A number bounds its own bit length.
pub proof fn lemma_bit_length_le_self(n: int)
    requires
        0 <= n,
    ensures
        bit_length(n) <= n,
    decreases n,
{
    if n > 0 {
        lemma_bit_length_le_self(n / 2);
    }
}

/// Computes the bit length of `n`: the number of binary digits needed to
/// write it, with 0 taking none.
pub fn bit_len(n: usize) -> (r: usize)
    ensures
        r == bit_length(n as int),
{
    proof {
        lemma_bit_length_le_self(n as int);
    }
    let mut v = n;
    let mut len: usize = 0;
    while v > 0
        invariant
            len + bit_length(v as int) == bit_length(n as int),
            bit_length(n as int) <= n,
            v <= n,
        decreases v,
    {
        v = v / 2;
        len = len + 1;
    }
    len
}

} // verus!
