//! Delta encoding along the lanes of a batch: each value is stored as its
//! difference, modulo `2^T`, from the value before it in its lane, the first
//! row from the lane's base. Decoding can be fused with unpacking.
use crate::bitpacking::{unpack_row, unpack_single_at, unpacked, BitPacking};
use crate::ffor::{add_mod, sub_mod};
use crate::word::{chunk, digits, lemma_chunk_as_mod};
use crate::{
    fl_index, fl_index_at, fl_lane, fl_row, lemma_fl_index_bijective, valid_bits, values,
    FastLanes,
};
use vstd::arithmetic::div_mod::*;
use vstd::arithmetic::power2::*;
use vstd::prelude::*;

verus! {

/// The value before row `row` of lane `lane`: the lane's base for row 0.
pub open spec fn predecessor(x: Seq<nat>, base: Seq<nat>, row: int, lane: int) -> nat {
    if row == 0 {
        base[lane]
    } else {
        x[fl_index(row - 1, lane)]
    }
}

/// The delta stored at batch position `i`.
pub open spec fn encoded_at(x: Seq<nat>, base: Seq<nat>, t: nat, i: int) -> nat {
    sub_mod(x[i], predecessor(x, base, fl_row(i, t as int), fl_lane(i, t as int)), t)
}

/// Every value less the one before it in its lane, modulo `2^t`.
pub open spec fn delta_encoded(x: Seq<nat>, base: Seq<nat>, t: nat) -> Seq<nat> {
    Seq::new(1024, |i: int| encoded_at(x, base, t, i))
}

/// The sum modulo `2^t` of the lane's base and its values up to `row`.
pub open spec fn running_sum(x: Seq<nat>, base: Seq<nat>, t: nat, row: int, lane: int) -> nat
    decreases row,
{
    if row <= 0 {
        add_mod(base[lane], x[fl_index(0, lane)], t)
    } else {
        add_mod(running_sum(x, base, t, row - 1, lane), x[fl_index(row, lane)], t)
    }
}

/// The running sum of every lane, at each position of the batch.
pub open spec fn delta_decoded(x: Seq<nat>, base: Seq<nat>, t: nat) -> Seq<nat> {
    Seq::new(1024, |i: int| running_sum(x, base, t, fl_row(i, t as int), fl_lane(i, t as int)))
}

/// Decoding the deltas of a batch with the same bases gives back the batch.
pub proof fn lemma_delta_round_trip(x: Seq<nat>, base: Seq<nat>, t: nat)
    requires
        valid_bits(t as int),
        x.len() == 1024,
        base.len() == 1024int / (t as int),
        forall|i: int| 0 <= i < 1024 ==> #[trigger] x[i] < pow2(t),
    ensures
        delta_decoded(delta_encoded(x, base, t), base, t) == x,
{
    lemma_fl_index_bijective(t as int);
    let d = delta_encoded(x, base, t);
    assert forall|i: int| 0 <= i < 1024 implies #[trigger] delta_decoded(d, base, t)[i] == x[i] by {
        lemma_running_sum_of_deltas(x, base, t, fl_row(i, t as int), fl_lane(i, t as int));
    }
    assert(delta_decoded(d, base, t) =~= x);
}

/// Summing the deltas of a lane up to `row` gives the value at `row`.
proof fn lemma_running_sum_of_deltas(x: Seq<nat>, base: Seq<nat>, t: nat, row: int, lane: int)
    requires
        valid_bits(t as int),
        x.len() == 1024,
        forall|i: int| 0 <= i < 1024 ==> #[trigger] x[i] < pow2(t),
        0 <= row < t,
        0 <= lane < 1024int / (t as int),
    ensures
        running_sum(delta_encoded(x, base, t), base, t, row, lane) == x[fl_index(row, lane)],
    decreases row,
{
    lemma_fl_index_bijective(t as int);
    lemma_pow2_pos(t);
    let m = pow2(t) as int;
    let d = delta_encoded(x, base, t);
    let cur = x[fl_index(row, lane)];
    let prev = predecessor(x, base, row, lane);
    assert(d[fl_index(row, lane)] == sub_mod(cur, prev, t));
    if row > 0 {
        lemma_running_sum_of_deltas(x, base, t, row - 1, lane);
    }
    lemma_mod_bound(cur - prev, m);
    lemma_add_mod_noop_right(prev as int, cur - prev, m);
    lemma_small_mod(cur, pow2(t));
}

/// Fused decoding of deltas that were packed into `w` bits gives back the
/// batch, when every delta fits in `w` bits.
pub proof fn lemma_fused_delta_round_trip(x: Seq<nat>, base: Seq<nat>, t: nat, w: nat)
    requires
        valid_bits(t as int),
        w <= t,
        x.len() == 1024,
        base.len() == 1024int / (t as int),
        forall|i: int| 0 <= i < 1024 ==> #[trigger] x[i] < pow2(t),
        crate::word::fits(delta_encoded(x, base, t), w),
    ensures
        delta_decoded(
            unpacked(crate::bitpacking::packed(delta_encoded(x, base, t), t, w), t, w),
            base,
            t,
        ) == x,
{
    crate::bitpacking::lemma_pack_round_trip(delta_encoded(x, base, t), t, w);
    lemma_delta_round_trip(x, base, t);
}

/// Delta-encodes lane `lane` of `input` into `output`.
fn delta_lane<T: FastLanes>(input: &[T; 1024], base: &[T], output: &mut [T; 1024], lane: usize)
    requires
        base@.len() == T::LANES,
        lane < T::LANES,
    ensures
        forall|i: int|
            0 <= i < 1024 ==> #[trigger] final(output)@[i] == old(output)@[i] || fl_lane(
                i,
                T::T as int,
            ) == lane,
        forall|i: int|
            0 <= i < 1024 && fl_lane(i, T::T as int) == lane ==> (#[trigger] final(output)@[i]).value()
                == delta_encoded(values(input@), values(base@), T::T as nat)[i],
{
    proof {
        T::lemma_shape();
    }
    let t: usize = T::T;
    let ghost want = delta_encoded(values(input@), values(base@), t as nat);
    let mut prev = base[lane];
    let mut row: usize = 0;
    while row < t
        invariant
            t == T::T,
            valid_bits(t as int),
            T::LANES == 1024int / (t as int),
            T::LANES <= 128,
            base@.len() == T::LANES,
            lane < T::LANES,
            row <= t,
            want == delta_encoded(values(input@), values(base@), t as nat),
            prev.value() == predecessor(values(input@), values(base@), row as int, lane as int),
            forall|i: int|
                0 <= i < 1024 ==> #[trigger] output@[i] == old(output)@[i] || (fl_lane(i, t as int)
                    == lane && fl_row(i, t as int) < row),
            forall|r: int|
                0 <= r < row ==> (#[trigger] output@[fl_index(r, lane as int)]).value() == want[fl_index(
                    r,
                    lane as int,
                )],
        decreases t - row,
    {
        proof {
            lemma_fl_index_bijective(t as int);
        }
        let idx = fl_index_at(row, lane);
        let next = input[idx];
        output[idx] = next.sub_wrapping(prev);
        prev = next;
        row = row + 1;
    }
    proof {
        lemma_fl_index_bijective(t as int);
        assert forall|i: int|
            0 <= i < 1024 && fl_lane(i, T::T as int) == lane implies (#[trigger] output@[i]).value()
            == want[i] by {
            assert(output@[fl_index(fl_row(i, t as int), lane as int)].value() == want[fl_index(
                fl_row(i, t as int),
                lane as int,
            )]);
        }
    }
}

/// Delta-decodes lane `lane` of `input` into `output`.
fn undelta_lane<T: FastLanes>(input: &[T; 1024], base: &[T], output: &mut [T; 1024], lane: usize)
    requires
        base@.len() == T::LANES,
        lane < T::LANES,
    ensures
        forall|i: int|
            0 <= i < 1024 ==> #[trigger] final(output)@[i] == old(output)@[i] || fl_lane(
                i,
                T::T as int,
            ) == lane,
        forall|i: int|
            0 <= i < 1024 && fl_lane(i, T::T as int) == lane ==> (#[trigger] final(output)@[i]).value()
                == delta_decoded(values(input@), values(base@), T::T as nat)[i],
{
    proof {
        T::lemma_shape();
    }
    let t: usize = T::T;
    let ghost x = values(input@);
    let ghost want = delta_decoded(x, values(base@), t as nat);
    let mut prev = base[lane];
    let mut row: usize = 0;
    while row < t
        invariant
            t == T::T,
            valid_bits(t as int),
            T::LANES == 1024int / (t as int),
            T::LANES <= 128,
            base@.len() == T::LANES,
            lane < T::LANES,
            row <= t,
            x == values(input@),
            want == delta_decoded(x, values(base@), t as nat),
            row == 0 ==> prev == base@[lane as int],
            row > 0 ==> prev.value() == running_sum(
                x,
                values(base@),
                t as nat,
                row - 1,
                lane as int,
            ),
            forall|i: int|
                0 <= i < 1024 ==> #[trigger] output@[i] == old(output)@[i] || (fl_lane(i, t as int)
                    == lane && fl_row(i, t as int) < row),
            forall|r: int|
                0 <= r < row ==> (#[trigger] output@[fl_index(r, lane as int)]).value() == want[fl_index(
                    r,
                    lane as int,
                )],
        decreases t - row,
    {
        proof {
            lemma_fl_index_bijective(t as int);
        }
        let idx = fl_index_at(row, lane);
        let next = input[idx].add_wrapping(prev);
        output[idx] = next;
        prev = next;
        row = row + 1;
    }
    proof {
        lemma_fl_index_bijective(t as int);
        assert forall|i: int|
            0 <= i < 1024 && fl_lane(i, T::T as int) == lane implies (#[trigger] output@[i]).value()
            == want[i] by {
            assert(output@[fl_index(fl_row(i, t as int), lane as int)].value() == want[fl_index(
                fl_row(i, t as int),
                lane as int,
            )]);
        }
    }
}

/// Unpacks lane `lane` of the packed deltas `input` and decodes it into
/// `output` in the same pass.
fn undelta_unpack_lane<T: FastLanes>(
    input: &[T],
    w: usize,
    base: &[T],
    output: &mut [T; 1024],
    lane: usize,
)
    requires
        w <= T::T,
        input@.len() == T::LANES * w,
        base@.len() == T::LANES,
        lane < T::LANES,
    ensures
        forall|i: int|
            0 <= i < 1024 ==> #[trigger] final(output)@[i] == old(output)@[i] || fl_lane(
                i,
                T::T as int,
            ) == lane,
        forall|i: int|
            0 <= i < 1024 && fl_lane(i, T::T as int) == lane ==> (#[trigger] final(output)@[i]).value()
                == delta_decoded(
                unpacked(values(input@), T::T as nat, w as nat),
                values(base@),
                T::T as nat,
            )[i],
{
    proof {
        T::lemma_shape();
    }
    let t: usize = T::T;
    let ghost x = unpacked(values(input@), t as nat, w as nat);
    let ghost want = delta_decoded(x, values(base@), t as nat);
    let streamed = 0 < w && w < t;
    let mut src: u64 = 0;
    if streamed {
        proof {
            assert(T::LANES * w >= T::LANES) by (nonlinear_arith)
                requires
                    w > 0,
            ;
        }
        src = input[lane].to_u64();
    }
    let mut prev = base[lane];
    let mut row: usize = 0;
    proof {
        assert((0 * (w as int)) / (t as int) == 0);
    }
    while row < t
        invariant
            t == T::T,
            valid_bits(t as int),
            T::LANES == 1024int / (t as int),
            T::LANES <= 128,
            w <= t,
            streamed == (0 < w && w < t),
            input@.len() == T::LANES * w,
            base@.len() == T::LANES,
            lane < T::LANES,
            row <= t,
            x == unpacked(values(input@), t as nat, w as nat),
            want == delta_decoded(x, values(base@), t as nat),
            streamed && (row * w) / (t as int) < w ==> src == input@[((row * w) / (t as int))
                * T::LANES + lane].value(),
            row == 0 ==> prev == base@[lane as int],
            row > 0 ==> prev.value() == running_sum(x, values(base@), t as nat, row - 1, lane as int),
            forall|i: int|
                0 <= i < 1024 ==> #[trigger] output@[i] == old(output)@[i] || (fl_lane(i, t as int)
                    == lane && fl_row(i, t as int) < row),
            forall|r: int|
                0 <= r < row ==> (#[trigger] output@[fl_index(r, lane as int)]).value() == want[fl_index(
                    r,
                    lane as int,
                )],
        decreases t - row,
    {
        proof {
            lemma_fl_index_bijective(t as int);
        }
        let idx = fl_index_at(row, lane);
        let elem = if streamed {
            proof {
                crate::bitpacking::lemma_row_bits(row as nat, w as nat, t as nat);
            }
            let e = unpack_row(input, w, lane, row, &mut src);
            proof {
                lemma_chunk_as_mod(
                    digits(
                        crate::bitpacking::lane_words(values(input@), t as nat, w as nat, lane as int),
                        t as nat,
                    ),
                    (row * w) as nat,
                    w as nat,
                );
                lemma_pow2_strictly_increases(w as nat, t as nat);
            }
            T::from_u64(e)
        } else {
            unpack_single_at(input, w, idx)
        };
        assert(elem.value() == x[idx as int]);
        let next = elem.add_wrapping(prev);
        output[idx] = next;
        prev = next;
        row = row + 1;
    }
    proof {
        lemma_fl_index_bijective(t as int);
        assert forall|i: int|
            0 <= i < 1024 && fl_lane(i, T::T as int) == lane implies (#[trigger] output@[i]).value()
            == want[i] by {
            assert(output@[fl_index(fl_row(i, t as int), lane as int)].value() == want[fl_index(
                fl_row(i, t as int),
                lane as int,
            )]);
        }
    }
}

/// Delta encoding of batches along their lanes, with one base value per lane.
pub trait Delta: BitPacking {
    /// Stores each value as its difference from the one before it in its lane.
    fn delta(input: &[Self; 1024], base: &[Self], output: &mut [Self; 1024])
        requires
            base@.len() == Self::LANES,
        ensures
            values(final(output)@) == delta_encoded(values(input@), values(base@), Self::T as nat),
    ;

    /// Turns deltas back into values: the running sum of each lane.
    fn undelta(input: &[Self; 1024], base: &[Self], output: &mut [Self; 1024])
        requires
            base@.len() == Self::LANES,
        ensures
            values(final(output)@) == delta_decoded(values(input@), values(base@), Self::T as nat),
    ;

    /// Unpacks deltas packed into `W` bits and decodes them in one pass.
    fn undelta_pack<const W: usize>(input: &[Self], base: &[Self], output: &mut [Self; 1024])
        requires
            W <= Self::T,
            input@.len() == Self::LANES * W,
            base@.len() == Self::LANES,
        ensures
            values(final(output)@) == delta_decoded(
                unpacked(values(input@), Self::T as nat, W as nat),
                values(base@),
                Self::T as nat,
            ),
    ;
}

impl<T: FastLanes> Delta for T {
    fn delta(input: &[Self; 1024], base: &[Self], output: &mut [Self; 1024]) {
        proof {
            T::lemma_shape();
        }
        let ghost want = delta_encoded(values(input@), values(base@), T::T as nat);
        let mut lane: usize = 0;
        while lane < T::LANES
            invariant
                base@.len() == T::LANES,
                lane <= T::LANES,
                want == delta_encoded(values(input@), values(base@), T::T as nat),
                forall|i: int|
                    0 <= i < 1024 && fl_lane(i, T::T as int) < lane ==> (
                    #[trigger] output@[i]).value() == want[i],
            decreases T::LANES - lane,
        {
            delta_lane(input, base, output, lane);
            lane = lane + 1;
        }
        proof {
            lemma_fl_index_bijective(T::T as int);
        }
        assert forall|i: int| 0 <= i < 1024 implies (#[trigger] output@[i]).value() == want[i] by {
            assert(fl_lane(i, T::T as int) < T::LANES);
        }
        assert(values(output@) =~= want);
    }

    fn undelta(input: &[Self; 1024], base: &[Self], output: &mut [Self; 1024]) {
        proof {
            T::lemma_shape();
        }
        let ghost want = delta_decoded(values(input@), values(base@), T::T as nat);
        let mut lane: usize = 0;
        while lane < T::LANES
            invariant
                base@.len() == T::LANES,
                lane <= T::LANES,
                want == delta_decoded(values(input@), values(base@), T::T as nat),
                forall|i: int|
                    0 <= i < 1024 && fl_lane(i, T::T as int) < lane ==> (
                    #[trigger] output@[i]).value() == want[i],
            decreases T::LANES - lane,
        {
            undelta_lane(input, base, output, lane);
            lane = lane + 1;
        }
        proof {
            lemma_fl_index_bijective(T::T as int);
        }
        assert forall|i: int| 0 <= i < 1024 implies (#[trigger] output@[i]).value() == want[i] by {
            assert(fl_lane(i, T::T as int) < T::LANES);
        }
        assert(values(output@) =~= want);
    }

    fn undelta_pack<const W: usize>(input: &[Self], base: &[Self], output: &mut [Self; 1024]) {
        proof {
            T::lemma_shape();
        }
        let ghost want = delta_decoded(
            unpacked(values(input@), T::T as nat, W as nat),
            values(base@),
            T::T as nat,
        );
        let mut lane: usize = 0;
        while lane < T::LANES
            invariant
                W <= T::T,
                input@.len() == T::LANES * W,
                base@.len() == T::LANES,
                lane <= T::LANES,
                want == delta_decoded(
                    unpacked(values(input@), T::T as nat, W as nat),
                    values(base@),
                    T::T as nat,
                ),
                forall|i: int|
                    0 <= i < 1024 && fl_lane(i, T::T as int) < lane ==> (
                    #[trigger] output@[i]).value() == want[i],
            decreases T::LANES - lane,
        {
            undelta_unpack_lane(input, W, base, output, lane);
            lane = lane + 1;
        }
        proof {
            lemma_fl_index_bijective(T::T as int);
        }
        assert forall|i: int| 0 <= i < 1024 implies (#[trigger] output@[i]).value() == want[i] by {
            assert(fl_lane(i, T::T as int) < T::LANES);
        }
        assert(values(output@) =~= want);
    }
}

} // verus!
