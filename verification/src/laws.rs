//! Theorems about the model of [`crate::model`].

use vstd::prelude::*;
use vstd::arithmetic::div_mod::{
    lemma_basic_div, lemma_div_denominator, lemma_mod_breakdown, lemma_small_mod,
};
use vstd::arithmetic::power2::{pow2, lemma_pow2_unfold, lemma_pow2_pos, lemma2_to64};
use vstd::bits::{lemma_u32_shr_is_div, lemma_u64_shr_is_div};
use crate::model::{bit, bit_and, bzhi, ones, ones_below, pdep, pext};

verus! {

/// Extracting never yields more than the mask itself.
pub proof fn lemma_pext_le_mask(a: nat, mask: nat)
    ensures
        pext(a, mask) <= mask,
    decreases mask,
{
    if mask != 0 {
        lemma_pext_le_mask(a / 2, mask / 2);
    }
}

/// Depositing never yields more than the mask itself.
pub proof fn lemma_pdep_le_mask(a: nat, mask: nat)
    ensures
        pdep(a, mask) <= mask,
    decreases mask,
{
    if mask != 0 {
        if mask % 2 == 1 {
            lemma_pdep_le_mask(a / 2, mask / 2);
        } else {
            lemma_pdep_le_mask(a, mask / 2);
        }
    }
}

/// Round trip: depositing under a mask what was extracted under the same mask
/// gives back the digits of `a` that the mask selects, and zero elsewhere.
pub proof fn lemma_pdep_pext(a: nat, mask: nat)
    ensures
        pdep(pext(a, mask), mask) == bit_and(a, mask),
    decreases mask,
{
    if mask != 0 {
        lemma_pdep_pext(a / 2, mask / 2);
    }
}

/// Under a mask of `width` ones, extracting leaves a number below `2^width`
/// as it is.
pub proof fn lemma_pext_full_mask(a: nat, width: nat)
    requires
        a < pow2(width),
    ensures
        pext(a, (pow2(width) - 1) as nat) == a,
    decreases width,
{
    if width == 0 {
        lemma2_to64();
    } else {
        lemma_pow2_unfold(width);
        lemma_pow2_pos((width - 1) as nat);
        lemma_pext_full_mask(a / 2, (width - 1) as nat);
    }
}

/// Under a mask of `width` ones, depositing leaves a number below `2^width`
/// as it is.
pub proof fn lemma_pdep_full_mask(a: nat, width: nat)
    requires
        a < pow2(width),
    ensures
        pdep(a, (pow2(width) - 1) as nat) == a,
    decreases width,
{
    if width == 0 {
        lemma2_to64();
    } else {
        lemma_pow2_unfold(width);
        lemma_pow2_pos((width - 1) as nat);
        lemma_pdep_full_mask(a / 2, (width - 1) as nat);
    }
}

/// Clearing from position `width` upwards leaves a number below `2^width` as
/// it is, and clearing from position zero leaves nothing.
pub proof fn lemma_bzhi_ends(a: nat, width: nat)
    requires
        a < pow2(width),
    ensures
        bzhi(a, width) == a,
        bzhi(a, 0) == 0,
{
    lemma2_to64();
    lemma_small_mod(a, pow2(width));
}

/// On 32-bit words the digit-wise conjunction of the model is the `&` of the
/// machine.
pub proof fn lemma_bit_and_u32(a: u32, b: u32)
    ensures
        bit_and(a as nat, b as nat) == a & b,
    decreases b,
{
    if b == 0 {
        assert(a & 0 == 0) by (bit_vector);
    } else {
        lemma_bit_and_u32(a / 2, b / 2);
        assert(a & b == 2 * ((a / 2) & (b / 2)) + (if a % 2 == 1 && b % 2 == 1 {
            1u32
        } else {
            0u32
        })) by (bit_vector);
    }
}

/// On 64-bit words the digit-wise conjunction of the model is the `&` of the
/// machine.
pub proof fn lemma_bit_and_u64(a: u64, b: u64)
    ensures
        bit_and(a as nat, b as nat) == a & b,
    decreases b,
{
    if b == 0 {
        assert(a & 0 == 0) by (bit_vector);
    } else {
        lemma_bit_and_u64(a / 2, b / 2);
        assert(a & b == 2 * ((a / 2) & (b / 2)) + (if a % 2 == 1 && b % 2 == 1 {
            1u64
        } else {
            0u64
        })) by (bit_vector);
    }
}

/// Round trip on 32-bit words: depositing under `m` what was extracted from
/// `n` under `m` gives `n & m`.
pub proof fn lemma_pdep_pext_u32(n: u32, m: u32)
    ensures
        pdep(pext(n as nat, m as nat), m as nat) == n & m,
{
    lemma_pdep_pext(n as nat, m as nat);
    lemma_bit_and_u32(n, m);
}

/// Round trip on 64-bit words: depositing under `m` what was extracted from
/// `n` under `m` gives `n & m`.
pub proof fn lemma_pdep_pext_u64(n: u64, m: u64)
    ensures
        pdep(pext(n as nat, m as nat), m as nat) == n & m,
{
    lemma_pdep_pext(n as nat, m as nat);
    lemma_bit_and_u64(n, m);
}

/// The digits of `x`, one at a time: the lowest says whether `x` is odd, and
/// the digit at `i + 1` is the digit at `i` of the half of `x`.
pub proof fn lemma_bit_unfold(x: nat, i: nat)
    ensures
        bit(x, 0) == (x % 2 == 1),
        bit(x, i + 1) == bit(x / 2, i),
{
    lemma2_to64();
    lemma_pow2_pos(i);
    lemma_pow2_unfold(i + 1);
    lemma_div_denominator(x as int, 2, pow2(i) as int);
}

/// On 32-bit words the digit at position `i` is the bit that the machine
/// finds there by shifting.
pub proof fn lemma_bit_u32(x: u32, i: u32)
    requires
        i < 32,
    ensures
        bit(x as nat, i as nat) == ((x >> i) & 1 == 1),
{
    lemma_u32_shr_is_div(x, i);
    let s: u32 = x >> i;
    assert(s & 1 == s % 2) by (bit_vector);
}

/// On 64-bit words the digit at position `i` is the bit that the machine
/// finds there by shifting.
pub proof fn lemma_bit_u64(x: u64, i: u64)
    requires
        i < 64,
    ensures
        bit(x as nat, i as nat) == ((x >> i) & 1 == 1),
{
    lemma_u64_shr_is_div(x, i);
    let s: u64 = x >> i;
    assert(s & 1 == s % 2) by (bit_vector);
}

/// Zero has no digit that is a one.
pub proof fn lemma_bit_of_zero(i: nat)
    ensures
        !bit(0, i),
{
    lemma_pow2_pos(i);
    lemma_basic_div(0, pow2(i) as int);
}

/// Clearing from position `index + 1` upwards keeps the lowest digit and
/// clears the half of `a` from position `index` upwards.
pub proof fn lemma_bzhi_unfold(a: nat, index: nat)
    ensures
        bzhi(a, 0) == 0,
        bzhi(a, index + 1) == a % 2 + 2 * bzhi(a / 2, index),
{
    lemma2_to64();
    lemma_pow2_pos(index);
    lemma_pow2_unfold(index + 1);
    lemma_mod_breakdown(a as int, 2, pow2(index) as int);
}

/// The count of ones below position `i + 1` is the lowest digit plus the
/// count of ones of the half below position `i`.
pub proof fn lemma_ones_below_unfold(x: nat, i: nat)
    ensures
        ones_below(x, 0) == 0,
        ones_below(x, i + 1) == x % 2 + ones_below(x / 2, i),
{
    lemma_bzhi_unfold(x, i);
}

/// The digits of `bzhi(a, index)`: those of `a` below position `index`, and
/// zero from there on.
pub proof fn lemma_bzhi_digit(a: nat, index: nat, i: nat)
    ensures
        bit(bzhi(a, index), i) == (i < index && bit(a, i)),
    decreases i,
{
    if index == 0 {
        lemma_bzhi_unfold(a, 0);
        lemma_bit_of_zero(i);
    } else {
        lemma_bzhi_unfold(a, (index - 1) as nat);
        if i == 0 {
            lemma_bit_unfold(bzhi(a, index), 0);
            lemma_bit_unfold(a, 0);
        } else {
            lemma_bit_unfold(bzhi(a, index), (i - 1) as nat);
            lemma_bit_unfold(a, (i - 1) as nat);
            lemma_bzhi_digit(a / 2, (index - 1) as nat, (i - 1) as nat);
        }
    }
}

/// The digits of `pdep(a, mask)`: where the mask has a zero, a zero; where
/// the mask has a one, the digit of `a` at the position that counts the ones
/// of the mask below. So the lowest digit of `a` lands on the lowest one of
/// the mask, the next on the next one, and so on.
pub proof fn lemma_pdep_digit(a: nat, mask: nat, i: nat)
    ensures
        bit(pdep(a, mask), i) == (bit(mask, i) && bit(a, ones_below(mask, i))),
    decreases i,
{
    if mask == 0 {
        lemma_bit_of_zero(i);
    } else if i == 0 {
        lemma_bit_unfold(pdep(a, mask), 0);
        lemma_bit_unfold(mask, 0);
        lemma_bit_unfold(a, 0);
        lemma_ones_below_unfold(mask, 0);
    } else {
        let j: nat = (i - 1) as nat;
        lemma_bit_unfold(pdep(a, mask), j);
        lemma_bit_unfold(mask, j);
        lemma_ones_below_unfold(mask, j);
        if mask % 2 == 1 {
            lemma_bit_unfold(a, ones_below(mask / 2, j));
            lemma_pdep_digit(a / 2, mask / 2, j);
        } else {
            lemma_pdep_digit(a, mask / 2, j);
        }
    }
}

/// The digits of `pext(a, mask)`, first half: the digit of `a` at a position
/// where the mask has a one is found in the result at the position that
/// counts the ones of the mask below. So the selected digits stand packed at
/// the low end, in the order they have in `a`.
pub proof fn lemma_pext_digit(a: nat, mask: nat, i: nat)
    requires
        bit(mask, i),
    ensures
        bit(pext(a, mask), ones_below(mask, i)) == bit(a, i),
    decreases i,
{
    if mask == 0 {
        lemma_bit_of_zero(i);
    } else if i == 0 {
        lemma_bit_unfold(pext(a, mask), 0);
        lemma_bit_unfold(mask, 0);
        lemma_bit_unfold(a, 0);
        lemma_ones_below_unfold(mask, 0);
    } else {
        let j: nat = (i - 1) as nat;
        lemma_bit_unfold(mask, j);
        lemma_bit_unfold(a, j);
        lemma_ones_below_unfold(mask, j);
        lemma_pext_digit(a / 2, mask / 2, j);
        if mask % 2 == 1 {
            lemma_bit_unfold(pext(a, mask), ones_below(mask / 2, j));
        }
    }
}

/// The digits of `pext(a, mask)`, second half: the result has no more digits
/// than the mask has ones, so every digit above the packed ones is zero.
pub proof fn lemma_pext_below_pow2_ones(a: nat, mask: nat)
    ensures
        pext(a, mask) < pow2(ones(mask)),
    decreases mask,
{
    if mask == 0 {
        lemma2_to64();
    } else {
        lemma_pext_below_pow2_ones(a / 2, mask / 2);
        if mask % 2 == 1 {
            lemma_pow2_unfold(ones(mask));
        }
    }
}

} // verus!
