use fastlanes::{transpose, BitPacking, Delta, FoR, Transpose, FL_ORDER};

#[test]
fn test_ordering_is_own_inverse() {
    // FL_ORDER is its own inverse permutation.
    for i in 0..8 {
        assert_eq!(FL_ORDER[FL_ORDER[i]], i);
    }
}

#[test]
fn pack_u16_into_u3_no_unsafe() {
    const WIDTH: usize = 3;

    let mut values: [u16; 1024] = [0; 1024];
    for i in 0..1024 {
        values[i] = (i % (1 << WIDTH)) as u16;
    }

    let mut packed = [0; 128 * WIDTH / size_of::<u16>()];
    BitPacking::pack::<WIDTH>(&values, &mut packed);

    let mut unpacked = [0u16; 1024];
    BitPacking::unpack::<WIDTH>(&packed, &mut unpacked);
    assert_eq!(values, unpacked);

    for i in 0..1024 {
        assert_eq!(BitPacking::unpack_single::<WIDTH>(&packed, i), values[i]);
    }
}

#[test]
fn test_unchecked_pack() {
    let input: [u32; 1024] = core::array::from_fn(|i| i as u32);
    let mut packed = [0; 320];
    BitPacking::unchecked_pack(10, &input, &mut packed);
    let mut output = [0; 1024];
    BitPacking::unchecked_unpack(10, &packed, &mut output);
    assert_eq!(input, output);
}

#[test]
fn test_unpack_single() {
    let values: [u32; 1024] = core::array::from_fn(|i| i as u32);
    let mut packed = [0; 512];
    BitPacking::pack::<16>(&values, &mut packed);

    for i in 0..1024 {
        assert_eq!(BitPacking::unpack_single::<16>(&packed, i), values[i]);
        assert_eq!(BitPacking::unchecked_unpack_single(16, &packed, i), values[i]);
    }
}

#[test]
fn test_pack() {
    let mut values: [u16; 1024] = [0; 1024];
    for i in 0..1024 {
        values[i] = (i % (1 << 15)) as u16;
    }

    let mut packed: [u16; 960] = [0; 960];
    BitPacking::pack::<15>(&values, &mut packed);

    let mut unpacked: [u16; 1024] = [0; 1024];
    BitPacking::unpack::<15>(&packed, &mut unpacked);

    assert_eq!(values, unpacked);
}

#[test]
fn test_delta() {
    const W: usize = 15;
    let mut values: [u16; 1024] = [0; 1024];
    for i in 0..1024 {
        values[i] = (i / 8) as u16;
    }

    let mut transposed = [0; 1024];
    Transpose::transpose(&values, &mut transposed);

    let mut deltas = [0; 1024];
    Delta::delta(&transposed, &[0; 64], &mut deltas);

    let mut packed = [0; 128 * W / size_of::<u16>()];
    BitPacking::pack::<W>(&deltas, &mut packed);

    // Fused kernel
    let mut unpacked = [0; 1024];
    Delta::undelta_pack::<W>(&packed, &[0; 64], &mut unpacked);
    assert_eq!(transposed, unpacked);

    // Unfused kernel
    BitPacking::unpack::<W>(&packed, &mut unpacked);
    let mut undelta = [0; 1024];
    Delta::undelta(&unpacked, &[0; 64], &mut undelta);
    assert_eq!(transposed, undelta);
}

#[test]
fn test_ffor() {
    const W: usize = 15;
    let mut values: [u16; 1024] = [0; 1024];
    for i in 0..1024 {
        values[i] = (i % (1 << W)) as u16;
    }

    let mut packed = [0; 128 * W / size_of::<u16>()];
    FoR::for_bitpack::<W>(&values, 10, &mut packed);

    let mut unpacked = [0; 1024];
    BitPacking::unpack::<W>(&packed, &mut unpacked);

    for (i, (a, b)) in values.iter().zip(unpacked.iter()).enumerate() {
        assert_eq!(
            // The unpacked array is 10 less than the original, modulo 2^15.
            a.wrapping_sub(10) & ((1 << W) - 1),
            *b,
            "Mismatch at index {}",
            i
        );
    }
}
