//! Mathematical facts about primes and integer square roots.

use vstd::prelude::*;

verus! {

/// `n` is a prime number: at least two, and no divisor strictly between one and itself.
pub open spec fn is_prime_number(n: int) -> bool {
    n >= 2 && forall|d: int| 2 <= d < n ==> #[trigger] (n % d) != 0
}

/// No prime lies strictly between `lo` and `hi`.
pub open spec fn no_prime_between(lo: int, hi: int) -> bool {
    forall|k: int| lo < k < hi ==> !#[trigger] is_prime_number(k)
}

/// No odd number `d` with `3 <= d < bound` and `d < m` divides `m`.
pub open spec fn no_odd_divisor_below(m: int, bound: int) -> bool {
    forall|d: int| 3 <= d < bound && d % 2 == 1 && d < m ==> #[trigger] (m % d) != 0
}

/// The integer square root: the largest `r` with `r * r <= n`.
pub open spec fn isqrt(n: nat) -> nat
    decreases n,
{
    if n == 0 {
        0
    } else {
        let r = isqrt((n - 1) as nat);
        if (r + 1) * (r + 1) <= n {
            r + 1
        } else {
            r
        }
    }
}

/// `isqrt(n)` is the floor of the square root of `n`.
pub proof fn lemma_isqrt_bounds(n: nat)
    ensures
        isqrt(n) * isqrt(n) <= n,
        n < (isqrt(n) + 1) * (isqrt(n) + 1),
    decreases n,
{
    if n == 0 {
        assert(isqrt(n) == 0);
        assert((0nat + 1) * (0nat + 1) == 1) by (nonlinear_arith);
    } else {
        lemma_isqrt_bounds((n - 1) as nat);
        let r = isqrt((n - 1) as nat);
        if (r + 1) * (r + 1) > n {
            assert(isqrt(n) == r);
            assert(r * r <= n);
            assert(n < (isqrt(n) + 1) * (isqrt(n) + 1));
        } else {
            assert(isqrt(n) == r + 1);
            assert((r + 1) * (r + 1) == n) by (nonlinear_arith)
                requires
                    (r + 1) * (r + 1) <= n,
                    n - 1 < (r + 1) * (r + 1),
            ;
            assert(n < (r + 2) * (r + 2)) by (nonlinear_arith)
                requires
                    (r + 1) * (r + 1) == n,
            ;
            assert(r + 2 == isqrt(n) + 1);
            assert(n < (isqrt(n) + 1) * (isqrt(n) + 1));
        }
    }
}

/// The floor of the square root is the only `r` with `r * r <= n < (r + 1) * (r + 1)`.
pub proof fn lemma_isqrt_unique(n: nat, r: nat)
    requires
        r * r <= n,
        n < (r + 1) * (r + 1),
    ensures
        isqrt(n) == r,
{
    lemma_isqrt_bounds(n);
    let s = isqrt(n);
    if s < r {
        assert((s + 1) * (s + 1) <= r * r) by (nonlinear_arith)
            requires
                s < r,
        ;
    } else if s > r {
        assert((r + 1) * (r + 1) <= s * s) by (nonlinear_arith)
            requires
                s > r,
        ;
    }
}

/// A number that is at least two and not prime has a divisor `d >= 2` with `d * d <= m`.
pub proof fn lemma_small_divisor(m: int)
    requires
        m >= 2,
        !is_prime_number(m),
    ensures
        exists|d: int| 2 <= d && d * d <= m && #[trigger] (m % d) == 0,
{
    let d = choose|d: int| 2 <= d < m && #[trigger] (m % d) == 0;
    let e = m / d;
    assert(m == d * e) by {
        vstd::arithmetic::div_mod::lemma_fundamental_div_mod(m, d);
    }
    if d * d <= m {
        assert(m % d == 0);
    } else {
        assert(2 <= e && e * e <= m) by (nonlinear_arith)
            requires
                m == d * e,
                d * d > m,
                2 <= d < m,
        ;
        assert(m % e == 0) by {
            vstd::arithmetic::div_mod::lemma_mod_multiples_basic(d, e);
            vstd::arithmetic::mul::lemma_mul_is_commutative(d, e);
        }
    }
}

/// A divisor of an odd number is odd.
pub proof fn lemma_divisor_of_odd(m: int, d: int)
    requires
        m % 2 == 1,
        d >= 1,
        m % d == 0,
    ensures
        d % 2 == 1,
{
    let k = m / d;
    assert(m == d * k) by {
        vstd::arithmetic::div_mod::lemma_fundamental_div_mod(m, d);
    }
    if d % 2 == 0 {
        let j = d / 2;
        assert(m == (j * k) * 2) by (nonlinear_arith)
            requires
                m == d * k,
                d == 2 * j,
        ;
        vstd::arithmetic::div_mod::lemma_mod_multiples_basic(j * k, 2);
    }
}

/// Divisibility is transitive.
pub proof fn lemma_divides_trans(a: int, b: int, c: int)
    requires
        a >= 1,
        b >= 1,
        b % a == 0,
        c % b == 0,
    ensures
        c % a == 0,
{
    let k = b / a;
    let l = c / b;
    assert(b == a * k) by {
        vstd::arithmetic::div_mod::lemma_fundamental_div_mod(b, a);
    }
    assert(c == b * l) by {
        vstd::arithmetic::div_mod::lemma_fundamental_div_mod(c, b);
    }
    assert(c == a * (k * l)) by (nonlinear_arith)
        requires
            b == a * k,
            c == b * l,
    ;
    vstd::arithmetic::div_mod::lemma_mod_multiples_basic(k * l, a);
    vstd::arithmetic::mul::lemma_mul_is_commutative(k * l, a);
}

/// An odd number above one is prime exactly when no odd `d >= 3` below `bound`
/// divides it, once `bound * bound` exceeds it.
pub proof fn lemma_prime_by_odd_divisors(m: int, bound: int)
    requires
        m >= 3,
        m % 2 == 1,
        bound >= 0,
        bound * bound > m,
    ensures
        is_prime_number(m) == no_odd_divisor_below(m, bound),
{
    if !is_prime_number(m) {
        lemma_small_divisor(m);
        let d = choose|d: int| 2 <= d && d * d <= m && #[trigger] (m % d) == 0;
        lemma_divisor_of_odd(m, d);
        assert(d < bound) by (nonlinear_arith)
            requires
                d * d <= m,
                bound * bound > m,
                d >= 0,
                bound >= 0,
        ;
        assert(d < m) by (nonlinear_arith)
            requires
                d * d <= m,
                d >= 2,
        ;
        assert(!no_odd_divisor_below(m, bound));
    } else {
        assert forall|d: int| 3 <= d < bound && d % 2 == 1 && d < m implies #[trigger] (m % d)
            != 0 by {
            assert(2 <= d < m);
        }
    }
}

/// If an odd `p` divides `2 * k`, it divides `k`.
pub proof fn lemma_odd_divides_double(p: int, k: int)
    requires
        p >= 3,
        p % 2 == 1,
    ensures
        (2 * k) % p == 0 <==> k % p == 0,
{
    if k % p == 0 {
        assert(k == p * (k / p)) by {
            vstd::arithmetic::div_mod::lemma_fundamental_div_mod(k, p);
        }
        assert(2 * k == (2 * (k / p)) * p) by (nonlinear_arith)
            requires
                k == p * (k / p),
        ;
        vstd::arithmetic::div_mod::lemma_mod_multiples_basic(2 * (k / p), p);
    }
    if (2 * k) % p == 0 {
        let q = (2 * k) / p;
        assert(2 * k == p * q) by {
            vstd::arithmetic::div_mod::lemma_fundamental_div_mod(2 * k, p);
        }
        if q % 2 != 0 {
            let h = p / 2;
            let t = q / 2;
            assert(p * q == 2 * (2 * h * t + h + t) + 1) by (nonlinear_arith)
                requires
                    p == 2 * h + 1,
                    q == 2 * t + 1,
            ;
        }
        let r = q / 2;
        assert(k == r * p) by (nonlinear_arith)
            requires
                2 * k == p * q,
                q == 2 * r,
        ;
        vstd::arithmetic::div_mod::lemma_mod_multiples_basic(r, p);
    }
}

/// Relies on `num::integer::Roots::sqrt` for `u128`: the truncated square
/// root, `r * r <= n < (r + 1) * (r + 1)`.
#[verifier::external_body]
pub(crate) fn integer_sqrt(n: u128) -> (r: u128)
    ensures
        r * r <= n,
        n < (r + 1) * (r + 1),
{
    num::integer::Roots::sqrt(&n)
}

} // verus!
