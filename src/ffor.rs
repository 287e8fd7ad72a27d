//! Frame of reference: values stored as their distance from one reference
//! value, modulo `2^T`, fused with bit-packing.
use crate::bitpacking::{
    lemma_pack_round_trip, pack_batch, packed, unpack_batch, unpacked, BitPacking,
};
use crate::word::fits;
use crate::{valid_bits, values};
use vstd::arithmetic::div_mod::*;
use vstd::arithmetic::power2::*;
use vstd::prelude::*;

verus! {

/// Each value of `x` less `r`, modulo `2^t`.
pub open spec fn minus_ref(x: Seq<nat>, r: nat, t: nat) -> Seq<nat> {
    Seq::new(x.len(), |i: int| sub_mod(x[i], r, t))
}

/// `a - b` modulo `2^t`.
pub open spec fn sub_mod(a: nat, b: nat, t: nat) -> nat {
    ((a - b) % (pow2(t) as int)) as nat
}

/// `a + b` modulo `2^t`.
pub open spec fn add_mod(a: nat, b: nat, t: nat) -> nat {
    ((a + b) as int % (pow2(t) as int)) as nat
}

/// Each value of `x` plus `r`, modulo `2^t`.
pub open spec fn plus_ref(x: Seq<nat>, r: nat, t: nat) -> Seq<nat> {
    Seq::new(x.len(), |i: int| add_mod(x[i], r, t))
}

/// A reference of zero changes no value below `2^t`.
pub proof fn lemma_zero_ref(x: Seq<nat>, t: nat)
    requires
        forall|i: int| 0 <= i < x.len() ==> #[trigger] x[i] < pow2(t),
    ensures
        minus_ref(x, 0, t) == x,
        plus_ref(x, 0, t) == x,
{
    lemma_pow2_pos(t);
    assert forall|i: int| 0 <= i < x.len() implies #[trigger] minus_ref(x, 0, t)[i] == x[i] && plus_ref(x, 0, t)[i] == x[i] by {
        lemma_small_mod(x[i], pow2(t));
    }
    assert(minus_ref(x, 0, t) =~= x);
    assert(plus_ref(x, 0, t) =~= x);
}

/// Values reduced modulo `2^t` fit in `t` bits.
pub proof fn lemma_minus_ref_fits(x: Seq<nat>, r: nat, t: nat)
    ensures
        forall|i: int| 0 <= i < x.len() ==> #[trigger] minus_ref(x, r, t)[i] < pow2(t),
{
    lemma_pow2_pos(t);
    assert forall|i: int| 0 <= i < x.len() implies #[trigger] minus_ref(x, r, t)[i] < pow2(t) by {
        lemma_mod_bound(x[i] - r, pow2(t) as int);
    }
}

/// Adding back the reference to what was packed after taking it away gives
/// back the batch, when every difference fits in `w` bits.
pub proof fn lemma_for_round_trip(x: Seq<nat>, r: nat, t: nat, w: nat)
    requires
        valid_bits(t as int),
        w <= t,
        x.len() == 1024,
        forall|i: int| 0 <= i < 1024 ==> #[trigger] x[i] < pow2(t),
        fits(minus_ref(x, r, t), w),
    ensures
        plus_ref(unpacked(packed(minus_ref(x, r, t), t, w), t, w), r, t) == x,
{
    lemma_pack_round_trip(minus_ref(x, r, t), t, w);
    lemma_pow2_pos(t);
    let m = pow2(t) as int;
    assert forall|i: int| 0 <= i < 1024 implies #[trigger] plus_ref(minus_ref(x, r, t), r, t)[i]
        == x[i] by {
        lemma_mod_bound(x[i] - r, m);
        lemma_add_mod_noop_right(r as int, x[i] - r, m);
        lemma_small_mod(x[i], m as nat);
    }
    assert(plus_ref(minus_ref(x, r, t), r, t) =~= x);
}

/// Frame of reference fused with bit-packing: values are packed as their
/// distance from a reference.
pub trait FoR: BitPacking {
    /// Packs each value less `reference`, modulo `2^T`, into `W` bits.
    fn for_bitpack<const W: usize>(input: &[Self; 1024], reference: Self, output: &mut [Self])
        requires
            W <= Self::T,
            old(output)@.len() == Self::LANES * W,
        ensures
            values(final(output)@) == packed(
                minus_ref(values(input@), reference.value(), Self::T as nat),
                Self::T as nat,
                W as nat,
            ),
    ;

    /// Unpacks `W`-bit values and adds `reference` back, modulo `2^T`.
    fn unfor_bitpack<const W: usize>(input: &[Self], reference: Self, output: &mut [Self; 1024])
        requires
            W <= Self::T,
            input@.len() == Self::LANES * W,
        ensures
            values(final(output)@) == plus_ref(
                unpacked(values(input@), Self::T as nat, W as nat),
                reference.value(),
                Self::T as nat,
            ),
    ;
}

impl<T: crate::FastLanes> FoR for T {
    fn for_bitpack<const W: usize>(input: &[Self; 1024], reference: Self, output: &mut [Self]) {
        pack_batch(input, reference, W, output);
    }

    fn unfor_bitpack<const W: usize>(input: &[Self], reference: Self, output: &mut [Self; 1024]) {
        unpack_batch(input, reference, W, output);
    }
}

} // verus!
