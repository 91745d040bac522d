//! The primality engine: sieve lookups and trial division, and the searches
//! for the previous and the next prime of a number.

use vstd::prelude::*;

use crate::arith::{
    integer_sqrt, is_prime_number, isqrt, lemma_divides_trans, lemma_divisor_of_odd,
    lemma_isqrt_bounds, lemma_isqrt_unique, lemma_prime_by_odd_divisors, lemma_small_divisor,
    no_odd_divisor_below, no_prime_between,
};
use crate::bits::MAX_BITS;
use crate::index::{index_of, index_to_num, num_of, num_to_index};
use crate::sieve::{grown_len, top_index, SieveOfEratosthenes};

verus! {

/// The largest square root for which the sieve of trial divisors still fits
/// in a bit vector.
pub const ROOT_LIMIT: usize = MAX_BITS * 2 + 2;

/// Odd numbers from here on are out of reach: their square root exceeds
/// `ROOT_LIMIT`.
pub open spec fn reach_bound() -> int {
    (ROOT_LIMIT + 1) * (ROOT_LIMIT + 1)
}

/// The bound of reach, `reach_bound()`.
pub fn reach_limit() -> (r: u128)
    ensures
        r == reach_bound(),
{
    proof {
        lemma_reach_bound();
    }
    let l = ROOT_LIMIT as u128 + 1;
    l * l
}

/// What `is_prime` answers for `n`: whether it is prime, or `None` where `n`
/// is odd and out of reach.
pub open spec fn prime_answer(n: int) -> Option<bool> {
    if n % 2 == 1 && n >= reach_bound() {
        None
    } else {
        Some(is_prime_number(n))
    }
}

/// `r` is what `previous_prime(n)` owes: the largest prime below `n`, or
/// `None` where `n <= 2`.
pub open spec fn is_previous_prime(n: int, r: Option<u128>) -> bool {
    match r {
        Some(q) => q < n && is_prime_number(q as int) && no_prime_between(q as int, n),
        None => n <= 2,
    }
}

/// `r` is what `next_prime(n)` owes: the smallest prime above `n`, or `None`
/// where no prime lies between `n` and the bound of reach.
pub open spec fn is_next_prime(n: int, r: Option<u128>) -> bool {
    match r {
        Some(p) => n < p < reach_bound() && is_prime_number(p as int) && no_prime_between(
            n,
            p as int,
        ),
        None => no_prime_between(n, reach_bound()),
    }
}

/// The square root that trial division of the odd number `n` reaches, at
/// least three.
pub open spec fn trial_root(n: int) -> int {
    if isqrt(n as nat) < 3 {
        3
    } else {
        isqrt(n as nat) as int
    }
}

/// The sieve length after `is_prime(n)` on a sieve of `len` flags.
pub open spec fn len_after_query(len: int, n: int) -> int {
    if n % 2 == 1 && 5 <= n < reach_bound() {
        grown_len(len, trial_root(n))
    } else {
        len
    }
}

/// The bound of reach fits in `u128` and lies above every number that a
/// sieve can cover.
pub proof fn lemma_reach_bound()
    ensures
        reach_bound() <= u128::MAX,
        reach_bound() > 2 * MAX_BITS + 1,
        reach_bound() % 2 == 1,
{
    let l = ROOT_LIMIT as int;
    assert(l <= 0x4000_0000_0000_0000);
    assert((l + 1) * (l + 1) <= 0x4000_0000_0000_0001 * 0x4000_0000_0000_0001) by (nonlinear_arith)
        requires
            0 <= l <= 0x4000_0000_0000_0000,
    ;
    assert((l + 1) * (l + 1) >= l + 1) by (nonlinear_arith)
        requires
            l >= 0,
    ;
    let h = l / 2;
    assert(l == 2 * h);
    assert((l + 1) * (l + 1) == 2 * (2 * h * h + 2 * h) + 1) by (nonlinear_arith)
        requires
            l == 2 * h,
    ;
}

proof fn lemma_even_not_prime(k: int)
    requires
        k > 2,
        k % 2 == 0,
    ensures
        !is_prime_number(k),
{
    assert(k % 2 == 0);
}

/// Answers whether a number is prime.
pub trait PrimeCalc {
    /// The calculator's state is consistent.
    spec fn inv(&self) -> bool;

    /// Whether `num` is prime, or `None` where it cannot be calculated.
    fn is_prime(&mut self, num: u128) -> (r: Option<bool>)
        requires
            old(self).inv(),
        ensures
            final(self).inv(),
            r == prime_answer(num as int),
    ;
}

/// Finds the primes next to a number.
pub trait PrimeCalcExtended: PrimeCalc {
    /// The largest prime below `num`, or `None` where there is none. Every
    /// number up to `reach_bound()` is accepted; `lemma_reach_bound` tells
    /// how large that bound is.
    fn previous_prime(&mut self, num: u128) -> (r: Option<u128>)
        requires
            old(self).inv(),
            num <= reach_bound(),
        ensures
            final(self).inv(),
            is_previous_prime(num as int, r),
    ;

    /// The smallest prime above `num`, or `None` where the search leaves the
    /// range it can calculate.
    fn next_prime(&mut self, num: u128) -> (r: Option<u128>)
        requires
            old(self).inv(),
        ensures
            final(self).inv(),
            is_next_prime(num as int, r),
    ;
}

/// A prime calculator built on a Sieve of Eratosthenes.
pub struct BigPrime {
    base: SieveOfEratosthenes,
}

impl BigPrime {
    /// The number of flags that the sieve holds.
    pub closed spec fn extent(&self) -> nat {
        self.base.flags().len()
    }

    pub fn new() -> (r: Self)
        ensures
            r.inv(),
            r.extent() == 1,
    {
        BigPrime { base: SieveOfEratosthenes::new() }
    }

    /// The number of flags that the sieve holds.
    pub fn sieve_len(&self) -> (r: usize)
        ensures
            r == self.extent(),
    {
        self.base.len()
    }

    /// Makes the sieve cover every odd number up to `max`.
    pub fn ensure_base(&mut self, max: usize)
        requires
            old(self).inv(),
            top_index(max as int) < MAX_BITS,
        ensures
            final(self).inv(),
            final(self).extent() == grown_len(old(self).extent() as int, max as int),
    {
        self.base.calc_until(max);
    }
}

impl Default for BigPrime {
    fn default() -> (r: Self)
        ensures
            r.inv(),
            r.extent() == 1,
    {
        Self::new()
    }
}

impl PrimeCalc for BigPrime {
    closed spec fn inv(&self) -> bool {
        self.base.wf()
    }

    fn is_prime(&mut self, number: u128) -> (r: Option<bool>)
        ensures
            final(self).extent() == len_after_query(old(self).extent() as int, number as int),
            final(self).extent() >= old(self).extent(),
    {
        proof {
            lemma_reach_bound();
        }
        if number == 2 || number == 3 {
            assert(is_prime_number(number as int)) by {
                assert forall|d: int| 2 <= d < number implies #[trigger] ((number as int) % d)
                    != 0 by {
                    assert(d == 2);
                }
            }
            return Some(true);
        }
        if number < 2 || number % 2 == 0 {
            return Some(false);
        }
        if let Some(result) = self.base.is_prime_nocalc(number) {
            proof {
                let len = self.base.flags().len() as int;
                lemma_isqrt_bounds(number as nat);
                let s = isqrt(number as nat);
                assert(s <= number) by (nonlinear_arith)
                    requires
                        s * s <= number,
                ;
                assert(index_of(trial_root(number as int)) <= index_of(number as int));
                assert(grown_len(len, trial_root(number as int)) == len);
            }
            return Some(result);
        }
        let s = integer_sqrt(number);
        proof {
            lemma_isqrt_unique(number as nat, s as nat);
        }
        if s > ROOT_LIMIT as u128 {
            proof {
                let l = ROOT_LIMIT as int;
                assert(number >= (l + 1) * (l + 1)) by (nonlinear_arith)
                    requires
                        s * s <= number,
                        s >= l + 1,
                        l >= 0,
                ;
            }
            return None;
        }
        proof {
            let l = ROOT_LIMIT as int;
            assert((s + 1) * (s + 1) <= (l + 1) * (l + 1)) by (nonlinear_arith)
                requires
                    s <= l,
                    s >= 0,
            ;
            assert(s < number) by (nonlinear_arith)
                requires
                    s * s <= number,
                    number >= 5,
            ;
            assert(number < reach_bound());
        }
        let mut root: usize = s as usize;
        if root < 3 {
            root = 3;
        }
        assert(root == trial_root(number as int));
        self.ensure_base(root);
        let root_index = num_to_index(root);
        let mut i: usize = 0;
        while i <= root_index
            invariant
                self.base.wf(),
                self.base.flags().len() == len_after_query(
                    old(self).base.flags().len() as int,
                    number as int,
                ),
                self.base.flags().len() >= old(self).base.flags().len(),
                root_index < self.base.flags().len(),
                root_index == index_of(root as int),
                3 <= root < number,
                number < reach_bound(),
                number % 2 == 1,
                i <= root_index + 1,
                no_odd_divisor_below(number as int, num_of(i as int)),
            decreases root_index + 1 - i,
        {
            let p = index_to_num(i);
            if self.base.flag(i) {
                if number % (p as u128) == 0 {
                    assert(!is_prime_number(number as int)) by {
                        assert(2 <= p < number);
                        assert((number as int) % (p as int) == 0);
                    }
                    return Some(false);
                }
            } else {
                proof {
                    lemma_small_divisor(p as int);
                    let d = choose|d: int| 2 <= d && d * d <= p && #[trigger] ((p as int) % d) == 0;
                    lemma_divisor_of_odd(p as int, d);
                    assert(d < p) by (nonlinear_arith)
                        requires
                            d * d <= p,
                            d >= 2,
                    ;
                    if (number as int) % (p as int) == 0 {
                        lemma_divides_trans(d, p as int, number as int);
                        assert((number as int) % d == 0);
                    }
                }
            }
            proof {
                assert forall|d: int|
                    3 <= d < p + 2 && d % 2 == 1 && d < number implies #[trigger] ((
                    number as int) % d) != 0 by {
                    if d >= p {
                        assert(d == p);
                    }
                }
            }
            i = i + 1;
        }
        proof {
            let bound = num_of(i as int);
            assert(bound >= s + 1);
            assert(bound * bound >= (s + 1) * (s + 1)) by (nonlinear_arith)
                requires
                    bound >= s + 1,
                    s >= 0,
            ;
            lemma_prime_by_odd_divisors(number as int, bound);
        }
        Some(true)
    }
}

impl PrimeCalcExtended for BigPrime {
    fn previous_prime(&mut self, num: u128) -> (r: Option<u128>)
        ensures
            final(self).extent() >= old(self).extent(),
    {
        proof {
            lemma_reach_bound();
        }
        if num <= 2 {
            return None;
        }
        if num == 3 {
            assert(is_prime_number(2));
            return Some(2);
        }
        let mut cur = num - 1;
        if cur % 2 == 0 {
            proof {
                lemma_even_not_prime(cur as int);
            }
            cur = cur - 1;
        }
        loop
            invariant
                self.inv(),
                self.extent() >= old(self).extent(),
                num <= reach_bound(),
                3 <= cur < num,
                cur % 2 == 1,
                no_prime_between(cur as int, num as int),
            decreases cur,
        {
            let answer = self.is_prime(cur);
            assert(answer.is_some());
            if answer == Some(true) {
                return Some(cur);
            }
            proof {
                if cur == 3 {
                    assert(is_prime_number(3)) by {
                        assert forall|d: int| 2 <= d < 3 implies #[trigger] (3int % d) != 0 by {
                            assert(d == 2);
                        }
                    }
                }
                lemma_even_not_prime(cur - 1);
            }
            cur = cur - 2;
        }
    }

    fn next_prime(&mut self, num: u128) -> (r: Option<u128>)
        ensures
            final(self).extent() >= old(self).extent(),
    {
        proof {
            lemma_reach_bound();
        }
        if num < 2 {
            assert(is_prime_number(2));
            return Some(2);
        }
        let mut cur = match num.checked_add(1) {
            Some(c) => c,
            None => return None,
        };
        if cur % 2 == 0 {
            proof {
                lemma_even_not_prime(cur as int);
            }
            cur = cur + 1;
        }
        loop
            invariant
                self.inv(),
                self.extent() >= old(self).extent(),
                2 <= num < cur,
                cur % 2 == 1,
                no_prime_between(num as int, cur as int),
            decreases u128::MAX - cur,
        {
            match self.is_prime(cur) {
                None => return None,
                Some(true) => return Some(cur),
                Some(false) => {},
            }
            proof {
                if cur < u128::MAX {
                    lemma_even_not_prime(cur + 1);
                }
            }
            cur = match cur.checked_add(2) {
                Some(c) => c,
                None => {
                    assert(cur == u128::MAX);
                    proof {
                        lemma_reach_bound();
                    }
                    assert forall|k: int| num < k < reach_bound() implies !#[trigger] is_prime_number(
                        k,
                    ) by {
                        if k >= cur {
                            assert(k == cur);
                        }
                    }
                    return None;
                },
            };
        }
    }
}

/// Zero and one are not prime: `is_prime` answers `Some(false)` below two.
pub proof fn lemma_below_two_not_prime(n: u128)
    requires
        n < 2,
    ensures
        prime_answer(n as int) == Some(false),
{
    lemma_reach_bound();
}

/// Two and three are prime, and every even number above two is not.
pub proof fn lemma_two_three_and_even(n: u128)
    ensures
        prime_answer(2) == Some(true),
        prime_answer(3) == Some(true),
        n > 2 && n % 2 == 0 ==> prime_answer(n as int) == Some(false),
{
    lemma_reach_bound();
    assert(is_prime_number(2));
    assert(is_prime_number(3)) by {
        assert forall|d: int| 2 <= d < 3 implies #[trigger] (3int % d) != 0 by {
            assert(d == 2);
        }
    }
    if n > 2 && n % 2 == 0 {
        lemma_even_not_prime(n as int);
    }
}

/// Within reach, `is_prime` answers `Some(false)` on every odd composite from
/// five on, and `Some(true)` on every prime.
pub proof fn lemma_odd_numbers_in_reach(n: u128)
    requires
        n < reach_bound(),
    ensures
        n >= 5 && n % 2 == 1 && !is_prime_number(n as int) ==> prime_answer(n as int) == Some(
            false,
        ),
        is_prime_number(n as int) ==> prime_answer(n as int) == Some(true),
{
}

/// Asking `is_prime` twice for the same number gives the same answer, and the
/// second query leaves the sieve as long as the first made it.
pub proof fn lemma_is_prime_idempotent(
    n: u128,
    len0: int,
    first: Option<bool>,
    len1: int,
    second: Option<bool>,
    len2: int,
)
    requires
        first == prime_answer(n as int),
        len1 == len_after_query(len0, n as int),
        second == prime_answer(n as int),
        len2 == len_after_query(len1, n as int),
    ensures
        first == second,
        len2 == len1,
        len1 >= len0,
{
}

/// The prime that `next_prime(n)` finds may be handed to `previous_prime`,
/// which then finds the largest prime below it; that prime is at most `n`.
/// Only the prime two, found above zero and one, has no prime below it.
pub proof fn lemma_next_then_previous(n: u128, p: u128, r: Option<u128>)
    requires
        is_next_prime(n as int, Some(p)),
        is_previous_prime(p as int, r),
    ensures
        p <= reach_bound(),
        match r {
            Some(q) => is_prime_number(q as int) && q < p && no_prime_between(q as int, p as int)
                && q <= n,
            None => p == 2 && n < 2,
        },
{
    match r {
        Some(q) => {
            if q > n {
                assert(!is_prime_number(q as int));
            }
        },
        None => {
            if n >= 2 {
                assert(p > 2);
            }
        },
    }
}

} // verus!
