use fastlanes::{transpose, BitPacking, Delta, FoR, Transpose, FL_ORDER};

/// Position of `row` of `lane` in FastLanes order.
fn index(row: usize, lane: usize) -> usize {
    FL_ORDER[row / 8] * 16 + (row % 8) * 128 + lane
}

#[test]
fn round_trip_every_width_u8() {
    for w in 0..=8usize {
        let values: [u8; 1024] = core::array::from_fn(|i| ((i * 37) % (1usize << w)) as u8);
        let mut packed = vec![0u8; 128 * w];
        BitPacking::unchecked_pack(w, &values, &mut packed);
        let mut out = [0u8; 1024];
        BitPacking::unchecked_unpack(w, &packed, &mut out);
        assert_eq!(values, out, "width {}", w);
        for i in 0..1024 {
            assert_eq!(BitPacking::unchecked_unpack_single(w, &packed, i), values[i]);
        }
    }
}

#[test]
fn round_trip_every_width_u16() {
    for w in 0..=16usize {
        let values: [u16; 1024] = core::array::from_fn(|i| ((i * 7919) % (1usize << w)) as u16);
        let mut packed = vec![0u16; 64 * w];
        BitPacking::unchecked_pack(w, &values, &mut packed);
        let mut out = [0u16; 1024];
        BitPacking::unchecked_unpack(w, &packed, &mut out);
        assert_eq!(values, out, "width {}", w);
    }
}

#[test]
fn round_trip_every_width_u32() {
    for w in 0..=32usize {
        let values: [u32; 1024] =
            core::array::from_fn(|i| ((i as u64 * 2_654_435_761) % (1u64 << w)) as u32);
        let mut packed = vec![0u32; 32 * w];
        BitPacking::unchecked_pack(w, &values, &mut packed);
        let mut out = [0u32; 1024];
        BitPacking::unchecked_unpack(w, &packed, &mut out);
        assert_eq!(values, out, "width {}", w);
        for i in (0..1024).step_by(7) {
            assert_eq!(BitPacking::unchecked_unpack_single(w, &packed, i), values[i]);
        }
    }
}

#[test]
fn round_trip_every_width_u64() {
    for w in 0..=64usize {
        let mask = if w == 64 { u64::MAX } else { (1u64 << w) - 1 };
        let values: [u64; 1024] =
            core::array::from_fn(|i| (i as u64).wrapping_mul(0x9E37_79B9_7F4A_7C15) & mask);
        let mut packed = vec![0u64; 16 * w];
        BitPacking::unchecked_pack(w, &values, &mut packed);
        let mut out = [0u64; 1024];
        BitPacking::unchecked_unpack(w, &packed, &mut out);
        assert_eq!(values, out, "width {}", w);
        for i in (0..1024).step_by(5) {
            assert_eq!(BitPacking::unchecked_unpack_single(w, &packed, i), values[i]);
        }
    }
}

#[test]
fn pack_masks_high_bits() {
    let values: [u16; 1024] = core::array::from_fn(|i| (0xFFF8 | (i % 8)) as u16);
    let mut packed = [0u16; 192];
    BitPacking::pack::<3>(&values, &mut packed);
    let mut out = [0u16; 1024];
    BitPacking::unpack::<3>(&packed, &mut out);
    for i in 0..1024 {
        assert_eq!(out[i], (i % 8) as u16);
    }
}

#[test]
fn pack_u16_width3_exact_words() {
    // Every value of lane l is l % 8, so lane 1 packs sixteen 3-bit ones.
    let values: [u16; 1024] = core::array::from_fn(|i| (i % 8) as u16);
    let mut packed = [0u16; 192];
    BitPacking::pack::<3>(&values, &mut packed);
    assert_eq!(packed.len(), 192);
    assert_eq!(packed[1], 0x9249);
    assert_eq!(packed[64 + 1], 0x4924);
    assert_eq!(packed[128 + 1], 0x2492);
    assert_eq!(packed[0], 0);
    for i in 0..1024 {
        assert_eq!(BitPacking::unpack_single::<3>(&packed, i), values[i]);
    }
}

#[test]
fn unpack_runtime_width_u32_w10() {
    let values: [u32; 1024] = core::array::from_fn(|i| i as u32);
    let mut packed = [0u32; 320];
    BitPacking::pack::<10>(&values, &mut packed);
    let mut out = [0u32; 1024];
    BitPacking::unchecked_unpack(10, &packed, &mut out);
    assert_eq!(values, out);
}

#[test]
fn width_zero_u8() {
    let values = [0u8; 1024];
    let mut packed: [u8; 0] = [];
    BitPacking::pack::<0>(&values, &mut packed);
    let mut out = [7u8; 1024];
    BitPacking::unpack::<0>(&packed, &mut out);
    assert_eq!(out, [0u8; 1024]);
    assert_eq!(BitPacking::unpack_single::<0>(&packed, 999), 0u8);
}

#[test]
fn full_width_u64_is_positional() {
    let values: [u64; 1024] = core::array::from_fn(|i| (i as u64) << 40 | 0xABCD);
    let mut packed = [0u64; 1024];
    BitPacking::pack::<64>(&values, &mut packed);
    for row in 0..64 {
        for lane in 0..16 {
            assert_eq!(packed[16 * row + lane], values[index(row, lane)]);
        }
    }
    let mut out = [0u64; 1024];
    BitPacking::unpack::<64>(&packed, &mut out);
    assert_eq!(values, out);
}

#[test]
fn transpose_index_values() {
    assert_eq!(transpose(0), 0);
    assert_eq!(transpose(1), 64);
    assert_eq!(transpose(16), 32);
    assert_eq!(transpose(32), 16);
    assert_eq!(transpose(128), 1);
    assert_eq!(transpose(1023), 15 * 64 + 7 * 8 + 7);
}

#[test]
fn transpose_round_trip() {
    let values: [u32; 1024] = core::array::from_fn(|i| (i * 31 + 5) as u32);
    let mut transposed = [0u32; 1024];
    Transpose::transpose(&values, &mut transposed);
    assert_eq!(transposed[1], values[64]);
    let mut back = [0u32; 1024];
    Transpose::untranspose(&transposed, &mut back);
    assert_eq!(values, back);
    let mut again = [0u32; 1024];
    Transpose::transpose(&back, &mut again);
    assert_eq!(again, transposed);
}

#[test]
fn delta_exact_values_and_wrapping() {
    let values: [u8; 1024] = core::array::from_fn(|i| (i % 251) as u8);
    let base: [u8; 128] = core::array::from_fn(|l| (l * 3) as u8);
    let mut deltas = [0u8; 1024];
    Delta::delta(&values, &base, &mut deltas);
    for lane in 0..128 {
        assert_eq!(deltas[index(0, lane)], values[index(0, lane)].wrapping_sub(base[lane]));
        for row in 1..8 {
            assert_eq!(
                deltas[index(row, lane)],
                values[index(row, lane)].wrapping_sub(values[index(row - 1, lane)])
            );
        }
    }
    let mut back = [0u8; 1024];
    Delta::undelta(&deltas, &base, &mut back);
    assert_eq!(values, back);
}

#[test]
fn delta_round_trip_u64_with_base() {
    let values: [u64; 1024] = core::array::from_fn(|i| (i as u64).wrapping_mul(u64::MAX / 3));
    let base: [u64; 16] = core::array::from_fn(|l| u64::MAX - l as u64);
    let mut deltas = [0u64; 1024];
    Delta::delta(&values, &base, &mut deltas);
    let mut back = [0u64; 1024];
    Delta::undelta(&deltas, &base, &mut back);
    assert_eq!(values, back);
}

#[test]
fn fused_undelta_matches_unfused_u32() {
    let values: [u32; 1024] = core::array::from_fn(|i| 1_000_000 + (i as u32) * 3);
    let mut transposed = [0u32; 1024];
    Transpose::transpose(&values, &mut transposed);
    let base: [u32; 32] = core::array::from_fn(|l| transposed[l]);
    let mut deltas = [0u32; 1024];
    Delta::delta(&transposed, &base, &mut deltas);
    let mut packed = [0u32; 32 * 12];
    BitPacking::pack::<12>(&deltas, &mut packed);
    let mut fused = [0u32; 1024];
    Delta::undelta_pack::<12>(&packed, &base, &mut fused);
    let mut unpacked = [0u32; 1024];
    BitPacking::unpack::<12>(&packed, &mut unpacked);
    let mut unfused = [0u32; 1024];
    Delta::undelta(&unpacked, &base, &mut unfused);
    assert_eq!(fused, unfused);
    let mut back = [0u32; 1024];
    Transpose::untranspose(&fused, &mut back);
    assert_eq!(back, values);
}

#[test]
fn fused_undelta_full_and_zero_width() {
    let values: [u8; 1024] = core::array::from_fn(|i| (i * 13) as u8);
    let base = [5u8; 128];
    let mut deltas = [0u8; 1024];
    Delta::delta(&values, &base, &mut deltas);
    let mut packed = [0u8; 1024];
    BitPacking::pack::<8>(&deltas, &mut packed);
    let mut out = [0u8; 1024];
    Delta::undelta_pack::<8>(&packed, &base, &mut out);
    assert_eq!(out, values);

    let none: [u8; 0] = [];
    Delta::undelta_pack::<0>(&none, &base, &mut out);
    for lane in 0..128 {
        for row in 0..8 {
            assert_eq!(out[index(row, lane)], 5);
        }
    }
}

#[test]
fn for_round_trip_u16_w15() {
    let values: [u16; 1024] = core::array::from_fn(|i| (i % (1 << 15)) as u16);
    let mut packed = [0u16; 960];
    FoR::for_bitpack::<15>(&values, 10, &mut packed);
    let mut out = [0u16; 1024];
    FoR::unfor_bitpack::<15>(&packed, 10, &mut out);
    for i in 10..1024 {
        assert_eq!(out[i], values[i]);
    }
    // Below the reference the difference wraps past 15 bits and keeps only
    // its low 15.
    for i in 0..10 {
        assert_eq!(out[i], 32768 + i as u16);
    }
}

#[test]
fn for_exact_values_u32() {
    let values: [u32; 1024] = core::array::from_fn(|i| 500 + i as u32);
    let mut packed = [0u32; 32 * 10];
    FoR::for_bitpack::<10>(&values, 500, &mut packed);
    let mut plain = [0u32; 1024];
    BitPacking::unpack::<10>(&packed, &mut plain);
    for i in 0..1024 {
        assert_eq!(plain[i], i as u32);
    }
    let mut out = [0u32; 1024];
    FoR::unfor_bitpack::<10>(&packed, 500, &mut out);
    assert_eq!(values, out);
}

#[test]
fn for_wraps_below_reference() {
    let values: [u8; 1024] = core::array::from_fn(|i| (i % 4) as u8);
    let mut packed = [0u8; 128 * 8];
    FoR::for_bitpack::<8>(&values, 2, &mut packed);
    let mut plain = [0u8; 1024];
    BitPacking::unpack::<8>(&packed, &mut plain);
    for i in 0..1024 {
        assert_eq!(plain[i], ((i % 4) as u8).wrapping_sub(2));
    }
    let mut out = [0u8; 1024];
    FoR::unfor_bitpack::<8>(&packed, 2, &mut out);
    assert_eq!(values, out);
}
