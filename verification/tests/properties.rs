use stdsimd::x86::bmi2;

const WORDS_32: [u32; 8] = [
    0,
    1,
    0b1011_1110_1001_0011,
    0x8000_0000,
    0x7fff_ffff,
    0xdead_beef,
    0x1234_5678,
    0xffff_ffff,
];

const WORDS_64: [u64; 9] = [
    0,
    1,
    0b1011_1110_1001_0011,
    0x8000_0000,
    0x8000_0000_0000_0000,
    0x7fff_ffff_ffff_ffff,
    0xdead_beef_cafe_f00d,
    0x0123_4567_89ab_cdef,
    0xffff_ffff_ffff_ffff,
];

#[test]
fn deposit_of_extract_is_masked_operand_u32() {
    for &n in WORDS_32.iter() {
        for &m in WORDS_32.iter() {
            assert_eq!(bmi2::_pdep_u32(bmi2::_pext_u32(n, m), m), n & m);
        }
    }
}

#[test]
fn deposit_of_extract_is_masked_operand_u64() {
    for &n in WORDS_64.iter() {
        for &m in WORDS_64.iter() {
            assert_eq!(bmi2::_pdep_u64(bmi2::_pext_u64(n, m), m), n & m);
        }
    }
}

#[test]
fn full_mask_is_identity_u32() {
    for &n in WORDS_32.iter() {
        assert_eq!(bmi2::_pext_u32(n, 0xffff_ffff), n);
        assert_eq!(bmi2::_pdep_u32(n, 0xffff_ffff), n);
    }
}

#[test]
fn full_mask_is_identity_u64() {
    for &n in WORDS_64.iter() {
        assert_eq!(bmi2::_pext_u64(n, 0xffff_ffff_ffff_ffff), n);
        assert_eq!(bmi2::_pdep_u64(n, 0xffff_ffff_ffff_ffff), n);
    }
}

#[test]
fn empty_mask_gives_zero() {
    for &n in WORDS_32.iter() {
        assert_eq!(bmi2::_pext_u32(n, 0), 0);
        assert_eq!(bmi2::_pdep_u32(n, 0), 0);
    }
    for &n in WORDS_64.iter() {
        assert_eq!(bmi2::_pext_u64(n, 0), 0);
        assert_eq!(bmi2::_pdep_u64(n, 0), 0);
    }
}

#[test]
fn single_bit_masks() {
    assert_eq!(bmi2::_pext_u32(0x8000_0000, 0x8000_0000), 1);
    assert_eq!(bmi2::_pext_u32(0x7fff_ffff, 0x8000_0000), 0);
    assert_eq!(bmi2::_pdep_u32(1, 0x8000_0000), 0x8000_0000);
    assert_eq!(bmi2::_pdep_u32(0xffff_fffe, 0x8000_0000), 0);
    assert_eq!(bmi2::_pext_u64(0x8000_0000_0000_0000, 0x8000_0000_0000_0000), 1);
    assert_eq!(bmi2::_pext_u64(0x7fff_ffff_ffff_ffff, 0x8000_0000_0000_0000), 0);
    assert_eq!(bmi2::_pdep_u64(1, 0x8000_0000_0000_0000), 0x8000_0000_0000_0000);
    assert_eq!(bmi2::_pdep_u64(0xffff_ffff_ffff_fffe, 0x8000_0000_0000_0000), 0);
}

#[test]
fn extract_packs_in_mask_order() {
    // Mask selects positions 4..8 and 28..32; the operand's nibbles there are
    // 0xe and 0xd.
    assert_eq!(bmi2::_pext_u32(0xdead_beef, 0xf000_00f0), 0xde);
    assert_eq!(bmi2::_pdep_u32(0xde, 0xf000_00f0), 0xd000_00e0);
    assert_eq!(bmi2::_pext_u64(0xdead_beef_cafe_f00d, 0xf000_0000_0000_000f), 0xdd);
    assert_eq!(bmi2::_pdep_u64(0xa5, 0xf000_0000_0000_000f), 0xa000_0000_0000_0005);
}

#[test]
fn deposit_ignores_high_operand_bits() {
    // Only as many low bits of the operand as the mask has ones are used.
    assert_eq!(bmi2::_pdep_u32(0xffff_ffff, 0x0000_0f00), 0x0000_0f00);
    assert_eq!(bmi2::_pdep_u32(0xffff_fff5, 0x0000_0f00), 0x0000_0500);
    assert_eq!(bmi2::_pdep_u64(0xffff_ffff_ffff_fff5, 0x0f00_0000_0000_0000), 0x0500_0000_0000_0000);
}

#[test]
fn bzhi_at_the_ends_u32() {
    for &n in WORDS_32.iter() {
        assert_eq!(bmi2::_bzhi_u32(n, 32), n);
        assert_eq!(bmi2::_bzhi_u32(n, 0), 0);
    }
}

#[test]
fn bzhi_at_the_ends_u64() {
    for &n in WORDS_64.iter() {
        assert_eq!(bmi2::_bzhi_u64(n, 64), n);
        assert_eq!(bmi2::_bzhi_u64(n, 0), 0);
    }
}

#[test]
fn bzhi_is_remainder_by_power_of_two() {
    for &n in WORDS_32.iter() {
        for index in 0u32..32 {
            assert_eq!(bmi2::_bzhi_u32(n, index), n % (1u32 << index));
        }
    }
    for &n in WORDS_64.iter() {
        for index in 0u64..64 {
            assert_eq!(bmi2::_bzhi_u64(n, index), n % (1u64 << index));
        }
    }
    assert_eq!(bmi2::_bzhi_u32(0xffff_ffff, 31), 0x7fff_ffff);
    assert_eq!(bmi2::_bzhi_u32(0xffff_ffff, 1), 1);
    assert_eq!(bmi2::_bzhi_u64(0xffff_ffff_ffff_ffff, 63), 0x7fff_ffff_ffff_ffff);
    assert_eq!(bmi2::_bzhi_u64(0xffff_ffff_ffff_ffff, 33), 0x1_ffff_ffff);
}

#[test]
fn mulx_halves_make_the_wide_product_u32() {
    for &a in WORDS_32.iter() {
        for &b in WORDS_32.iter() {
            let (lo, hi): (u32, u32) = bmi2::_mulx_u32(a, b);
            assert_eq!(((hi as u64) << 32) | (lo as u64), (a as u64) * (b as u64));
        }
    }
}

#[test]
fn mulx_halves_make_the_wide_product_u64() {
    for &a in WORDS_64.iter() {
        for &b in WORDS_64.iter() {
            let (lo, hi): (u64, u64) = bmi2::_mulx_u64(a, b);
            assert_eq!(((hi as u128) << 64) | (lo as u128), (a as u128) * (b as u128));
        }
    }
}

#[test]
fn mulx_extremes() {
    assert_eq!(bmi2::_mulx_u32(0, 0xffff_ffff), (0, 0));
    assert_eq!(bmi2::_mulx_u32(1, 0xffff_ffff), (0xffff_ffff, 0));
    assert_eq!(bmi2::_mulx_u32(0xffff_ffff, 0xffff_ffff), (1, 0xffff_fffe));
    assert_eq!(bmi2::_mulx_u32(0x1_0000, 0x1_0000), (0, 1));
    assert_eq!(bmi2::_mulx_u64(0, 0xffff_ffff_ffff_ffff), (0, 0));
    assert_eq!(bmi2::_mulx_u64(1, 0xffff_ffff_ffff_ffff), (0xffff_ffff_ffff_ffff, 0));
    assert_eq!(
        bmi2::_mulx_u64(0xffff_ffff_ffff_ffff, 0xffff_ffff_ffff_ffff),
        (1, 0xffff_ffff_ffff_fffe)
    );
    assert_eq!(bmi2::_mulx_u64(0x1_0000_0000, 0x1_0000_0000), (0, 1));
}
