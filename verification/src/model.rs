//! What the operations compute, stated on natural numbers.
//!
//! A number stands for the row of its binary digits, the least significant
//! first. Nothing here depends on an operand width: a 32-bit and a 64-bit
//! operation share one definition.

use vstd::prelude::*;
use vstd::arithmetic::power2::pow2;

verus! {

/// Whether the binary digit of `x` at position `i` is a one.
pub open spec fn bit(x: nat, i: nat) -> bool {
    (x / pow2(i)) % 2 == 1
}

/// The number of ones among the binary digits of `x`.
pub open spec fn ones(x: nat) -> nat
    decreases x,
{
    if x == 0 {
        0
    } else {
        x % 2 + ones(x / 2)
    }
}

/// The number of ones among the binary digits of `x` below position `i`.
pub open spec fn ones_below(x: nat, i: nat) -> nat {
    ones(bzhi(x, i))
}

/// `a` with every binary digit at position `index` or above cleared: the
/// remainder of `a` by `2^index`.
pub open spec fn bzhi(a: nat, index: nat) -> nat {
    a % pow2(index)
}

/// Parallel extract: the digits of `a` that stand where `mask` has a one,
/// packed into the low positions of the result in the order they have in `a`.
///
/// Digit by digit from the low end: where the mask's digit is one, the digit
/// of `a` becomes the next digit of the result; where it is zero, the digit of
/// `a` is dropped.
pub open spec fn pext(a: nat, mask: nat) -> nat
    decreases mask,
{
    if mask == 0 {
        0
    } else if mask % 2 == 1 {
        a % 2 + 2 * pext(a / 2, mask / 2)
    } else {
        pext(a / 2, mask / 2)
    }
}

/// Parallel deposit: the low digits of `a`, spread over the positions where
/// `mask` has a one, the lowest digit of `a` at the lowest such position;
/// every other digit of the result is zero.
///
/// Digit by digit from the low end: where the mask's digit is one, the result
/// takes the next unused digit of `a`; where it is zero, the result's digit is
/// zero and no digit of `a` is used up.
pub open spec fn pdep(a: nat, mask: nat) -> nat
    decreases mask,
{
    if mask == 0 {
        0
    } else if mask % 2 == 1 {
        a % 2 + 2 * pdep(a / 2, mask / 2)
    } else {
        2 * pdep(a, mask / 2)
    }
}

/// Digit-wise conjunction: the number that has a one exactly where both `a`
/// and `b` have one.
pub open spec fn bit_and(a: nat, b: nat) -> nat
    decreases b,
{
    if b == 0 {
        0
    } else if a % 2 == 1 && b % 2 == 1 {
        1 + 2 * bit_and(a / 2, b / 2)
    } else {
        2 * bit_and(a / 2, b / 2)
    }
}

} // verus!
