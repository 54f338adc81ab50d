//! How the model behaves one binary digit at a time: the steps that the
//! loops of [`crate::x86::bmi2`] take.

use vstd::prelude::*;
use vstd::arithmetic::div_mod::lemma_div_denominator;
use vstd::arithmetic::mul::{lemma_mul_is_associative, lemma_mul_is_distributive_add};
use vstd::arithmetic::power2::{pow2, lemma_pow2_unfold, lemma_pow2_pos};
use crate::laws::lemma_pext_le_mask;
use crate::model::{pdep, pext};

verus! {

/// Dropping `i + 1` low digits is dropping `i` of them and then one more.
pub(crate) proof fn lemma_drop_one_more(x: nat, i: nat)
    ensures
        x / pow2(i + 1) == (x / pow2(i)) / 2,
        pow2(i + 1) == 2 * pow2(i),
        pow2(i) > 0,
{
    lemma_pow2_pos(i);
    lemma_pow2_unfold(i + 1);
    lemma_div_denominator(x as int, pow2(i) as int, 2);
    assert(pow2(i) * 2 == 2 * pow2(i));
}

/// One step of extraction, taken from the high end: what is extracted from
/// the digits at position `i` and above, given what is extracted from those
/// above `i`.
pub(crate) proof fn lemma_pext_step(a: nat, mask: nat, i: nat)
    ensures
        ({
            let rest: nat = pext(a / pow2(i + 1), mask / pow2(i + 1));
            &&& rest <= (mask / pow2(i)) / 2
            &&& pext(a / pow2(i), mask / pow2(i)) == if (mask / pow2(i)) % 2 == 1 {
                (a / pow2(i)) % 2 + 2 * rest
            } else {
                rest
            }
        }),
{
    lemma_drop_one_more(a, i);
    lemma_drop_one_more(mask, i);
    lemma_pext_le_mask(a / pow2(i + 1), mask / pow2(i + 1));
}

/// One step of deposit, taken from the low end: the part of the result at
/// position `i` and above, split into the digit at `i` and the part above it.
pub(crate) proof fn lemma_pdep_step(x: nat, mask: nat, i: nat)
    ensures
        pow2(i) * pdep(x, mask / pow2(i)) == if (mask / pow2(i)) % 2 == 1 {
            pow2(i) * (x % 2) + pow2(i + 1) * pdep(x / 2, mask / pow2(i + 1))
        } else {
            pow2(i + 1) * pdep(x, mask / pow2(i + 1))
        },
{
    lemma_drop_one_more(mask, i);
    let m: nat = mask / pow2(i);
    let p: int = pow2(i) as int;
    if m % 2 == 1 {
        let q: int = pdep(x / 2, m / 2) as int;
        lemma_mul_is_distributive_add(p, (x % 2) as int, 2 * q);
        lemma_mul_is_associative(p, 2, q);
    } else {
        let q: int = pdep(x, m / 2) as int;
        lemma_mul_is_associative(p, 2, q);
    }
}

} // verus!
