//! A Sieve of Eratosthenes over the odd numbers from three on, regrown in
//! full whenever a larger bound is asked for.

use vstd::prelude::*;

use crate::arith::{
    integer_sqrt, is_prime_number, lemma_divides_trans, lemma_isqrt_unique,
    lemma_odd_divides_double, lemma_prime_by_odd_divisors, no_odd_divisor_below,
};
use crate::bits::{bits_get, bits_len, bits_of, bits_repeat, bits_set, Bits, MAX_BITS};
use crate::index::{index_of, index_to_num, num_of, num_to_index};

verus! {

/// The sieve position that has to exist for `max_value` to be covered.
pub open spec fn top_index(max_value: int) -> int {
    if max_value < 3 {
        0
    } else {
        index_of(max_value)
    }
}

/// The number of flags after a sieve of `len` flags has been asked to reach
/// `max_value`.
pub open spec fn grown_len(len: int, max_value: int) -> int {
    if top_index(max_value) < len {
        len
    } else {
        top_index(max_value) + 1
    }
}

/// Primality flags for the odd numbers `3, 5, 7, ...`: flag `i` is set
/// exactly when `num_of(i)` is prime.
pub(crate) struct SieveOfEratosthenes {
    pub(crate) primes: Bits,
}

impl SieveOfEratosthenes {
    pub(crate) open spec fn flags(&self) -> Seq<bool> {
        bits_of(self.primes)
    }

    pub(crate) open spec fn wf(&self) -> bool {
        &&& 1 <= self.flags().len() <= MAX_BITS
        &&& forall|i: int|
            0 <= i < self.flags().len() ==> #[trigger] self.flags()[i] == is_prime_number(
                num_of(i),
            )
    }

    /// The sieve holds a flag for `n`.
    pub(crate) open spec fn covers(&self, n: int) -> bool {
        n <= num_of(self.flags().len() - 1)
    }

    pub(crate) fn new() -> (s: Self)
        ensures
            s.wf(),
            s.flags().len() == 1,
    {
        let primes = bits_repeat(true, 1);
        let s = SieveOfEratosthenes { primes };
        assert(is_prime_number(3)) by {
            assert forall|d: int| 2 <= d < 3 implies #[trigger] (3int % d) != 0 by {
                assert(d == 2);
            }
        }
        s
    }

    pub(crate) fn len(&self) -> (r: usize)
        ensures
            r == self.flags().len(),
    {
        bits_len(&self.primes)
    }

    /// Whether the sieve holds a flag for `number`.
    pub(crate) fn is_included(&self, number: usize) -> (r: bool)
        requires
            self.wf(),
        ensures
            r == self.covers(number as int),
    {
        index_to_num(self.len() - 1) >= number
    }

    /// The flag for the odd number `num`, or `None` where the sieve does not
    /// reach it yet.
    pub(crate) fn is_prime_nocalc(&self, num: u128) -> (r: Option<bool>)
        requires
            self.wf(),
            num >= 3,
            num % 2 == 1,
        ensures
            r == (if self.covers(num as int) {
                Some(is_prime_number(num as int))
            } else {
                None
            }),
    {
        if num > usize::MAX as u128 {
            return None;
        }
        if !self.is_included(num as usize) {
            return None;
        }
        let idx = num_to_index(num as usize);
        Some(bits_get(&self.primes, idx))
    }

    /// The flag at position `i`.
    pub(crate) fn flag(&self, i: usize) -> (r: bool)
        requires
            self.wf(),
            i < self.flags().len(),
        ensures
            r == is_prime_number(num_of(i as int)),
    {
        bits_get(&self.primes, i)
    }

    /// Makes the sieve cover `max_value`. Where it does not yet, the flags
    /// are computed anew for every odd number up to `max_value`.
    pub(crate) fn calc_until(&mut self, max_value: usize)
        requires
            old(self).wf(),
            top_index(max_value as int) < MAX_BITS,
        ensures
            final(self).wf(),
            final(self).flags().len() == grown_len(old(self).flags().len() as int, max_value as int),
    {
        let max_index: usize = if max_value < 3 {
            0
        } else {
            num_to_index(max_value)
        };
        if max_index < self.len() {
            return;
        }
        let s = integer_sqrt(max_value as u128);
        proof {
            lemma_isqrt_unique(max_value as nat, s as nat);
            assert(s <= max_value) by (nonlinear_arith)
                requires
                    s * s <= max_value,
            ;
        }
        let mut root: usize = s as usize;
        if root < 3 {
            root = 3;
        }
        let root_index = num_to_index(root);
        let mut primes = bits_repeat(true, max_index + 1);
        let mut i: usize = 0;
        while i <= root_index
            invariant
                max_value >= 3,
                max_index == index_of(max_value as int),
                max_index < MAX_BITS,
                root_index <= max_index,
                i <= root_index + 1,
                bits_of(primes).len() == max_index + 1,
                forall|j: int|
                    0 <= j <= max_index ==> #[trigger] bits_of(primes)[j] == no_odd_divisor_below(
                        num_of(j),
                        num_of(i as int),
                    ),
            decreases root_index + 1 - i,
        {
            let ghost before = bits_of(primes);
            let p = index_to_num(i);
            if bits_get(&primes, i) {
                let mut mul: usize = i + p;
                proof {
                    vstd::arithmetic::div_mod::lemma_mod_self_0(p as int);
                    assert forall|j: int| 0 <= j <= max_index implies #[trigger] bits_of(primes)[j]
                        == (before[j] && !(i < j < mul && (j - i) % (p as int) == 0)) by {
                        if i < j < mul {
                            vstd::arithmetic::div_mod::lemma_small_mod((j - i) as nat, p as nat);
                        }
                    }
                }
                while mul <= max_index
                    invariant
                        max_index < MAX_BITS,
                        i <= max_index,
                        p == num_of(i as int),
                        mul > i,
                        (mul - i) % (p as int) == 0,
                        mul <= max_index + p,
                        bits_of(primes).len() == max_index + 1,
                        forall|j: int|
                            0 <= j <= max_index ==> #[trigger] bits_of(primes)[j] == (before[j]
                                && !(i < j < mul && (j - i) % (p as int) == 0)),
                    decreases max_index + p - mul,
                {
                    bits_set(&mut primes, mul, false);
                    proof {
                        assert forall|j: int| 0 <= j <= max_index implies #[trigger] bits_of(
                            primes,
                        )[j] == (before[j] && !(i < j < mul + p && (j - i) % (p as int) == 0)) by {
                            if j != mul && mul < j < mul + p {
                                assert((j - i) % (p as int) != 0) by {
                                    vstd::arithmetic::div_mod::lemma_mod_add_multiples_vanish(
                                        j - mul,
                                        p as int,
                                    );
                                    vstd::arithmetic::div_mod::lemma_fundamental_div_mod(
                                        mul - i,
                                        p as int,
                                    );
                                    vstd::arithmetic::div_mod::lemma_mod_multiples_vanish(
                                        (mul - i) / (p as int),
                                        j - mul,
                                        p as int,
                                    );
                                    vstd::arithmetic::div_mod::lemma_small_mod(
                                        (j - mul) as nat,
                                        p as nat,
                                    );
                                }
                            }
                        }
                        vstd::arithmetic::div_mod::lemma_mod_add_multiples_vanish(
                            mul - i,
                            p as int,
                        );
                    }
                    mul = mul + p;
                }
                proof {
                    assert forall|j: int| 0 <= j <= max_index implies #[trigger] bits_of(primes)[j]
                        == no_odd_divisor_below(num_of(j), p + 2) by {
                        let m = num_of(j);
                        if i < j {
                            assert(m - p == 2 * (j - i));
                            vstd::arithmetic::div_mod::lemma_mod_add_multiples_vanish(
                                m - p,
                                p as int,
                            );
                            lemma_odd_divides_double(p as int, j - i);
                        }
                        if no_odd_divisor_below(m, p as int) && !(i < j && (j - i) % (p as int)
                            == 0) {
                            assert forall|d: int|
                                3 <= d < p + 2 && d % 2 == 1 && d < m implies #[trigger] (m % d)
                                != 0 by {
                                if d >= p {
                                    assert(d == p);
                                }
                            }
                        }
                    }
                }
            } else {
                proof {
                    let d0 = choose|d: int|
                        3 <= d < p && d % 2 == 1 && d < p && #[trigger] ((p as int) % d) == 0;
                    assert forall|j: int| 0 <= j <= max_index implies #[trigger] bits_of(primes)[j]
                        == no_odd_divisor_below(num_of(j), p + 2) by {
                        let m = num_of(j);
                        if no_odd_divisor_below(m, p as int) {
                            assert forall|d: int|
                                3 <= d < p + 2 && d % 2 == 1 && d < m implies #[trigger] (m % d)
                                != 0 by {
                                if d == p && m % d == 0 {
                                    lemma_divides_trans(d0, p as int, m);
                                    assert(m % d0 == 0);
                                }
                            }
                        }
                    }
                }
            }
            i = i + 1;
        }
        proof {
            let bound = num_of(i as int);
            assert(bound >= s + 1);
            assert(bound * bound >= (s + 1) * (s + 1)) by (nonlinear_arith)
                requires
                    bound >= s + 1,
                    s >= 0,
            ;
            assert forall|j: int| 0 <= j <= max_index implies #[trigger] bits_of(primes)[j]
                == is_prime_number(num_of(j)) by {
                lemma_prime_by_odd_divisors(num_of(j), bound);
            }
        }
        self.primes = primes;
    }
}

} // verus!
