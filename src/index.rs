//! The bijection between odd numbers `>= 3` and the positions of the sieve.

use vstd::prelude::*;

verus! {

/// The odd number stored at sieve position `i`.
pub open spec fn num_of(i: int) -> int {
    (i + 1) * 2 + 1
}

/// The sieve position of the odd number `n`; an even `n` maps to the position of `n - 1`.
pub open spec fn index_of(n: int) -> int {
    (n - 1) / 2 - 1
}

/// Converts a number to its sieve position.
pub fn num_to_index(number: usize) -> (r: usize)
    requires
        number >= 3,
    ensures
        r == index_of(number as int),
        number % 2 == 1 ==> num_of(r as int) == number,
        number % 2 == 0 ==> num_of(r as int) == number - 1,
{
    (number - 1) / 2 - 1
}

/// Converts a sieve position to the odd number it stands for.
pub fn index_to_num(index: usize) -> (r: usize)
    requires
        num_of(index as int) <= usize::MAX,
    ensures
        r == num_of(index as int),
        index_of(r as int) == index,
{
    (index + 1) * 2 + 1
}

} // verus!
