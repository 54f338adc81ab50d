//! Bit Manipulation Instruction Set 2 (BMI2), computed in software.
//!
//! Every function here is total and free of side effects. The contracts are
//! stated over [`crate::model`] and fix the result for every operand that the
//! operation defines.

use vstd::prelude::*;
use vstd::arithmetic::div_mod::{lemma_basic_div, lemma_small_mod};
use vstd::arithmetic::power2::{pow2, lemma2_to64};
use vstd::bits::{
    lemma_u32_low_bits_mask_is_mod, lemma_u32_pow2_no_overflow, lemma_u32_shl_is_mul,
    lemma_u32_shr_is_div, lemma_u64_low_bits_mask_is_mod, lemma_u64_pow2_no_overflow,
    lemma_u64_shl_is_mul, lemma_u64_shr_is_div,
};
use crate::laws::{
    lemma_pdep_full_mask, lemma_pdep_pext_u32, lemma_pdep_pext_u64, lemma_pext_full_mask,
};
use crate::model::{bzhi, pdep, pext};
use crate::shifts::{lemma_drop_one_more, lemma_pdep_step, lemma_pext_step};

verus! {

/// Unsigned multiplication of `a` by `b` without loss: returns the pair
/// `(lo, hi)` of the low and the high 32 bits of the 64-bit product.
pub fn _mulx_u32(a: u32, b: u32) -> (r: (u32, u32))
    ensures
        r.0 == (a * b) % 0x1_0000_0000,
        r.1 == (a * b) / 0x1_0000_0000,
        r.0 + r.1 * 0x1_0000_0000 == a * b,
        ((r.1 as u64) << 32) | (r.0 as u64) == a * b,
{
    assert(0 <= a * b <= 0xffff_ffff * 0xffff_ffff) by (nonlinear_arith)
        requires
            0 <= a <= 0xffff_ffff,
            0 <= b <= 0xffff_ffff,
    ;
    let result: u64 = (a as u64) * (b as u64);
    let hi: u32 = (result >> 32) as u32;
    let lo: u32 = #[verifier::truncate] (result as u32);
    assert({
        &&& (result >> 32) <= 0xffff_ffff
        &&& (result >> 32) == result / 0x1_0000_0000
        &&& (result as u32) == result % 0x1_0000_0000
        &&& ((((result >> 32) as u32) as u64) << 32) | ((result as u32) as u64) == result
    }) by (bit_vector);
    (lo, hi)
}

/// Unsigned multiplication of `a` by `b` without loss: returns the pair
/// `(lo, hi)` of the low and the high 64 bits of the 128-bit product.
pub fn _mulx_u64(a: u64, b: u64) -> (r: (u64, u64))
    ensures
        r.0 == (a * b) % 0x1_0000_0000_0000_0000,
        r.1 == (a * b) / 0x1_0000_0000_0000_0000,
        r.0 + r.1 * 0x1_0000_0000_0000_0000 == a * b,
        ((r.1 as u128) << 64) | (r.0 as u128) == a * b,
{
    assert(0 <= a * b <= 0xffff_ffff_ffff_ffff * 0xffff_ffff_ffff_ffff) by (nonlinear_arith)
        requires
            0 <= a <= 0xffff_ffff_ffff_ffff,
            0 <= b <= 0xffff_ffff_ffff_ffff,
    ;
    let result: u128 = (a as u128) * (b as u128);
    let hi: u64 = (result >> 64) as u64;
    let lo: u64 = #[verifier::truncate] (result as u64);
    assert({
        &&& (result >> 64) <= 0xffff_ffff_ffff_ffff
        &&& (result >> 64) == result / 0x1_0000_0000_0000_0000
        &&& (result as u64) == result % 0x1_0000_0000_0000_0000
        &&& ((((result >> 64) as u64) as u128) << 64) | ((result as u64) as u128) == result
    }) by (bit_vector);
    (lo, hi)
}

/// Zeroes the bits of `a` at position `index` and above.
///
/// The contract covers `index` from 0 to 32. A larger `index` lies outside
/// what the operation defines: the value returned for it goes by the
/// processor's own rule, is no part of the contract, and no caller may rely on
/// it.
pub fn _bzhi_u32(a: u32, index: u32) -> (r: u32)
    ensures
        index <= 32 ==> r == bzhi(a as nat, index as nat),
        index == 32 ==> r == a,
        index == 0 ==> r == 0,
{
    // The instruction reads the low eight bits of the index.
    let n: u32 = index & 0xff;
    assert(index <= 32 ==> index & 0xff == index) by (bit_vector);
    proof {
        lemma2_to64();
        lemma_small_mod(a as nat, pow2(32));
    }
    if n >= 32 {
        a
    } else {
        proof {
            lemma_u32_pow2_no_overflow(n as nat);
            lemma_u32_shl_is_mul(1, n);
            lemma_u32_low_bits_mask_is_mod(a, n as nat);
        }
        a & ((1u32 << n) - 1)
    }
}

/// Scatters the contiguous low-order bits of `a` to the positions of the
/// result where `mask` has a one, lowest bit to lowest position; the other
/// bits of the result are zero.
pub fn _pdep_u32(a: u32, mask: u32) -> (r: u32)
    ensures
        r == pdep(a as nat, mask as nat),
        mask == 0xffff_ffff ==> r == a,
{
    let mut r: u32 = 0;
    let mut x: u32 = a;
    let mut i: u32 = 0;
    proof {
        lemma2_to64();
    }
    while i < 32
        invariant
            i <= 32,
            r < pow2(i as nat),
            pdep(a as nat, mask as nat) == r + pow2(i as nat) * pdep(
                x as nat,
                mask as nat / pow2(i as nat),
            ),
        decreases 32 - i,
    {
        proof {
            lemma_u32_shr_is_div(mask, i);
            lemma_drop_one_more(mask as nat, i as nat);
            lemma_pdep_step(x as nat, mask as nat, i as nat);
            lemma_u32_pow2_no_overflow(i as nat);
            lemma_u32_shl_is_mul(1, i);
        }
        let m: u32 = mask >> i;
        assert(m & 1 == m % 2) by (bit_vector);
        if m & 1 == 1 {
            let low: u32 = x & 1;
            let bit: u32 = 1u32 << i;
            assert(x & 1 == x % 2 && x >> 1 == x / 2) by (bit_vector);
            assert(r | (low << i) == r + (if low == 1 { bit } else { 0 })) by (bit_vector)
                requires
                    i < 32,
                    low <= 1,
                    bit == 1u32 << i,
                    r < bit,
            ;
            assert(pow2(i as nat) * (x as nat % 2) == (if low == 1 { bit } else { 0 }))
                by (nonlinear_arith)
                requires
                    bit == pow2(i as nat),
                    low == x as nat % 2,
                    low <= 1,
            ;
            r = r | (low << i);
            x = x >> 1;
        }
        i += 1;
    }
    proof {
        lemma2_to64();
        lemma_basic_div(mask as int, pow2(32) as int);
        assert(pdep(x as nat, 0) == 0);
        assert(pow2(32) * pdep(x as nat, 0) == 0);
        if mask == 0xffff_ffff {
            lemma_pdep_full_mask(a as nat, 32);
        }
    }
    r
}

/// Gathers the bits of `a` at the positions where `mask` has a one into the
/// contiguous low-order bits of the result, in the order they have in `a`; the
/// other bits of the result are zero.
pub fn _pext_u32(a: u32, mask: u32) -> (r: u32)
    ensures
        r == pext(a as nat, mask as nat),
        pdep(r as nat, mask as nat) == a & mask,
        mask == 0xffff_ffff ==> r == a,
{
    let mut r: u32 = 0;
    let mut i: u32 = 32;
    proof {
        lemma2_to64();
        lemma_basic_div(a as int, pow2(32) as int);
        lemma_basic_div(mask as int, pow2(32) as int);
    }
    while i > 0
        invariant
            i <= 32,
            r == pext(a as nat / pow2(i as nat), mask as nat / pow2(i as nat)),
        decreases i,
    {
        i -= 1;
        proof {
            lemma_u32_shr_is_div(mask, i);
            lemma_u32_shr_is_div(a, i);
            lemma_pext_step(a as nat, mask as nat, i as nat);
        }
        let m: u32 = mask >> i;
        assert(m & 1 == m % 2) by (bit_vector);
        if m & 1 == 1 {
            let s: u32 = a >> i;
            let low: u32 = s & 1;
            assert(s & 1 == s % 2) by (bit_vector);
            assert((r << 1) | low == 2 * r + low) by (bit_vector)
                requires
                    r <= m / 2,
                    low <= 1,
            ;
            r = (r << 1) | low;
        }
    }
    proof {
        lemma2_to64();
        assert(a as nat / pow2(0) == a as nat && mask as nat / pow2(0) == mask as nat);
        lemma_pdep_pext_u32(a, mask);
        if mask == 0xffff_ffff {
            lemma_pext_full_mask(a as nat, 32);
        }
    }
    r
}

/// Zeroes the bits of `a` at position `index` and above.
///
/// The contract covers `index` from 0 to 64. A larger `index` lies outside
/// what the operation defines: the value returned for it goes by the
/// processor's own rule, is no part of the contract, and no caller may rely on
/// it.
pub fn _bzhi_u64(a: u64, index: u64) -> (r: u64)
    ensures
        index <= 64 ==> r == bzhi(a as nat, index as nat),
        index == 64 ==> r == a,
        index == 0 ==> r == 0,
{
    // The instruction reads the low eight bits of the index.
    let n: u64 = index & 0xff;
    assert(index <= 64 ==> index & 0xff == index) by (bit_vector);
    proof {
        lemma2_to64();
        lemma_small_mod(a as nat, pow2(64));
    }
    if n >= 64 {
        a
    } else {
        proof {
            lemma_u64_pow2_no_overflow(n as nat);
            lemma_u64_shl_is_mul(1, n);
            lemma_u64_low_bits_mask_is_mod(a, n as nat);
        }
        a & ((1u64 << n) - 1)
    }
}

/// Scatters the contiguous low-order bits of `a` to the positions of the
/// result where `mask` has a one, lowest bit to lowest position; the other
/// bits of the result are zero.
pub fn _pdep_u64(a: u64, mask: u64) -> (r: u64)
    ensures
        r == pdep(a as nat, mask as nat),
        mask == 0xffff_ffff_ffff_ffff ==> r == a,
{
    let mut r: u64 = 0;
    let mut x: u64 = a;
    let mut i: u64 = 0;
    proof {
        lemma2_to64();
    }
    while i < 64
        invariant
            i <= 64,
            r < pow2(i as nat),
            pdep(a as nat, mask as nat) == r + pow2(i as nat) * pdep(
                x as nat,
                mask as nat / pow2(i as nat),
            ),
        decreases 64 - i,
    {
        proof {
            lemma_u64_shr_is_div(mask, i);
            lemma_drop_one_more(mask as nat, i as nat);
            lemma_pdep_step(x as nat, mask as nat, i as nat);
            lemma_u64_pow2_no_overflow(i as nat);
            lemma_u64_shl_is_mul(1, i);
        }
        let m: u64 = mask >> i;
        assert(m & 1 == m % 2) by (bit_vector);
        if m & 1 == 1 {
            let low: u64 = x & 1;
            let bit: u64 = 1u64 << i;
            assert(x & 1 == x % 2 && x >> 1 == x / 2) by (bit_vector);
            assert(r | (low << i) == r + (if low == 1 { bit } else { 0 })) by (bit_vector)
                requires
                    i < 64,
                    low <= 1,
                    bit == 1u64 << i,
                    r < bit,
            ;
            assert(pow2(i as nat) * (x as nat % 2) == (if low == 1 { bit } else { 0 }))
                by (nonlinear_arith)
                requires
                    bit == pow2(i as nat),
                    low == x as nat % 2,
                    low <= 1,
            ;
            r = r | (low << i);
            x = x >> 1;
        }
        i += 1;
    }
    proof {
        lemma2_to64();
        lemma_basic_div(mask as int, pow2(64) as int);
        assert(pdep(x as nat, 0) == 0);
        assert(pow2(64) * pdep(x as nat, 0) == 0);
        if mask == 0xffff_ffff_ffff_ffff {
            lemma_pdep_full_mask(a as nat, 64);
        }
    }
    r
}

/// Gathers the bits of `a` at the positions where `mask` has a one into the
/// contiguous low-order bits of the result, in the order they have in `a`; the
/// other bits of the result are zero.
pub fn _pext_u64(a: u64, mask: u64) -> (r: u64)
    ensures
        r == pext(a as nat, mask as nat),
        pdep(r as nat, mask as nat) == a & mask,
        mask == 0xffff_ffff_ffff_ffff ==> r == a,
{
    let mut r: u64 = 0;
    let mut i: u64 = 64;
    proof {
        lemma2_to64();
        lemma_basic_div(a as int, pow2(64) as int);
        lemma_basic_div(mask as int, pow2(64) as int);
    }
    while i > 0
        invariant
            i <= 64,
            r == pext(a as nat / pow2(i as nat), mask as nat / pow2(i as nat)),
        decreases i,
    {
        i -= 1;
        proof {
            lemma_u64_shr_is_div(mask, i);
            lemma_u64_shr_is_div(a, i);
            lemma_pext_step(a as nat, mask as nat, i as nat);
        }
        let m: u64 = mask >> i;
        assert(m & 1 == m % 2) by (bit_vector);
        if m & 1 == 1 {
            let s: u64 = a >> i;
            let low: u64 = s & 1;
            assert(s & 1 == s % 2) by (bit_vector);
            assert((r << 1) | low == 2 * r + low) by (bit_vector)
                requires
                    r <= m / 2,
                    low <= 1,
            ;
            r = (r << 1) | low;
        }
    }
    proof {
        lemma2_to64();
        assert(a as nat / pow2(0) == a as nat && mask as nat / pow2(0) == mask as nat);
        lemma_pdep_pext_u64(a, mask);
        if mask == 0xffff_ffff_ffff_ffff {
            lemma_pext_full_mask(a as nat, 64);
        }
    }
    r
}

} // verus!
