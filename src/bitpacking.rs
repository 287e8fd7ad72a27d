//! Bit-packing of a batch into `W` bits per value, following the FastLanes
//! order: row by row within each lane, so that the loop over lanes vectorises.
//!
//! The words of one lane stand `LANES` apart in the packed buffer. Joined end
//! to end, lowest first, they form the lane's bit stream, in which the value
//! at row `r` of the lane takes bits `[r * W, (r + 1) * W)`.
use crate::ffor::{lemma_minus_ref_fits, lemma_zero_ref, minus_ref, plus_ref};
use crate::word::{
    chunks, lemma_digits_of_chunks, truncate, chunk, digits, fits, join, lemma_chunk_as_mod, lemma_chunk_below, lemma_chunk_of_chunk,
    lemma_chunk_split, lemma_digits_bound, lemma_digits_extract, lemma_digits_prefix,
    lemma_pow2_split, low_bits, shr,
};
use crate::{
    fl_index, fl_index_at, fl_lane, fl_order_at, fl_row, lemma_fl_index_bijective,
    lemma_values_fit, valid_bits, values, FastLanes,
};
use vstd::arithmetic::div_mod::*;
use vstd::arithmetic::mul::*;
use vstd::arithmetic::power2::*;
use vstd::prelude::*;

verus! {

/// The values of lane `lane`, row by row, each cut to its low `w` bits.
pub open spec fn lane_values(x: Seq<nat>, t: nat, w: nat, lane: int) -> Seq<nat> {
    Seq::new(t, |row: int| truncate(x[fl_index(row, lane)], w))
}

/// The bit stream of lane `lane`: its values, `w` bits each, end to end.
pub open spec fn lane_stream(x: Seq<nat>, t: nat, w: nat, lane: int) -> nat {
    digits(lane_values(x, t, w, lane), w)
}

/// The batch `x` of `t`-bit values packed into `w` bits each: word `k` of
/// lane `lane` stands at `k * lanes + lane` and holds bits `[k * t, (k + 1) * t)`
/// of the lane's stream.
pub open spec fn packed(x: Seq<nat>, t: nat, w: nat) -> Seq<nat> {
    Seq::new(((1024int / (t as int)) * w) as nat, |j: int| packed_word(x, t, w, j))
}

/// Word `j` of `packed(x, t, w)`.
pub open spec fn packed_word(x: Seq<nat>, t: nat, w: nat, j: int) -> nat {
    let lanes = 1024int / (t as int);
    chunk(lane_stream(x, t, w, j % lanes), ((j / lanes) * t) as nat, t)
}

/// The words of lane `lane` of a packed buffer, lowest first.
pub open spec fn lane_words(p: Seq<nat>, t: nat, w: nat, lane: int) -> Seq<nat> {
    Seq::new(w, |k: int| lane_word(p, t, lane, k))
}

/// Word `k` of lane `lane` of a packed buffer.
pub open spec fn lane_word(p: Seq<nat>, t: nat, lane: int, k: int) -> nat {
    p[k * (1024int / (t as int)) + lane]
}

/// The value at batch position `i` of the packed buffer `p`.
pub open spec fn unpacked_at(p: Seq<nat>, t: nat, w: nat, i: int) -> nat {
    chunk(digits(lane_words(p, t, w, fl_lane(i, t as int)), t), (fl_row(i, t as int) * w) as nat, w)
}

/// The batch that the packed buffer `p` holds.
pub open spec fn unpacked(p: Seq<nat>, t: nat, w: nat) -> Seq<nat> {
    Seq::new(1024, |i: int| unpacked_at(p, t, w, i))
}

/// Packed values stay below `2^w`.
proof fn lemma_unpacked_fits(p: Seq<nat>, t: nat, w: nat)
    requires
        w <= t,
    ensures
        forall|i: int| 0 <= i < 1024 ==> #[trigger] unpacked(p, t, w)[i] < pow2(t),
{
    assert forall|i: int| 0 <= i < 1024 implies #[trigger] unpacked(p, t, w)[i] < pow2(t) by {
        lemma_chunk_as_mod(
            digits(lane_words(p, t, w, fl_lane(i, t as int)), t),
            (fl_row(i, t as int) * w) as nat,
            w,
        );
        if w < t {
            lemma_pow2_strictly_increases(w, t);
        }
    }
}

/// Bit-packing of batches of 1024 values into `W` bits each, `W` at most `T`.
///
/// A packed buffer holds `LANES * W` words: `1024 * W` bits, with no header
/// and no padding. Values are cut to their low `W` bits on the way in.
pub trait BitPacking: FastLanes {
    /// Packs 1024 elements into `W` bits each.
    fn pack<const W: usize>(input: &[Self; 1024], output: &mut [Self])
        requires
            W <= Self::T,
            old(output)@.len() == Self::LANES * W,
        ensures
            values(final(output)@) == packed(values(input@), Self::T as nat, W as nat),
    ;

    /// Packs 1024 elements into `width` bits each, with `width` known only at
    /// run time.
    fn unchecked_pack(width: usize, input: &[Self], output: &mut [Self])
        requires
            width <= Self::T,
            input@.len() == 1024,
            old(output)@.len() == Self::LANES * width,
        ensures
            values(final(output)@) == packed(values(input@), Self::T as nat, width as nat),
    ;

    /// Unpacks 1024 elements from `W` bits each.
    fn unpack<const W: usize>(input: &[Self], output: &mut [Self; 1024])
        requires
            W <= Self::T,
            input@.len() == Self::LANES * W,
        ensures
            values(final(output)@) == unpacked(values(input@), Self::T as nat, W as nat),
    ;

    /// Unpacks 1024 elements from `width` bits each, with `width` known only
    /// at run time.
    fn unchecked_unpack(width: usize, input: &[Self], output: &mut [Self])
        requires
            width <= Self::T,
            input@.len() == Self::LANES * width,
            old(output)@.len() == 1024,
        ensures
            values(final(output)@) == unpacked(values(input@), Self::T as nat, width as nat),
    ;

    /// Unpacks the single element at `index` from 1024 packed `W`-bit elements.
    fn unpack_single<const W: usize>(packed: &[Self], index: usize) -> (r: Self)
        requires
            W <= Self::T,
            packed@.len() == Self::LANES * W,
            index < 1024,
        ensures
            r.value() == unpacked(values(packed@), Self::T as nat, W as nat)[index as int],
    ;

    /// Unpacks the single element at `index` from 1024 packed elements of
    /// `width` bits, with `width` known only at run time.
    fn unchecked_unpack_single(width: usize, packed: &[Self], index: usize) -> (r: Self)
        requires
            width <= Self::T,
            packed@.len() == Self::LANES * width,
            index < 1024,
        ensures
            r.value() == unpacked(values(packed@), Self::T as nat, width as nat)[index as int],
    ;
}

impl<T: FastLanes> BitPacking for T {
    fn pack<const W: usize>(input: &[Self; 1024], output: &mut [Self]) {
        Self::unchecked_pack(W, input, output);
    }

    fn unchecked_pack(width: usize, input: &[Self], output: &mut [Self]) {
        proof {
            lemma2_to64();
            lemma_values_fit(input@);
            lemma_zero_ref(values(input@), T::T as nat);
        }
        proof {
            lemma_pow2_pos(T::T as nat);
        }
        let zero = T::from_u64(0);
        pack_batch(input, zero, width, output);
    }

    fn unpack<const W: usize>(input: &[Self], output: &mut [Self; 1024]) {
        Self::unchecked_unpack(W, input, output);
    }

    fn unchecked_unpack(width: usize, input: &[Self], output: &mut [Self]) {
        proof {
            lemma2_to64();
            lemma_unpacked_fits(values(input@), T::T as nat, width as nat);
            lemma_zero_ref(unpacked(values(input@), T::T as nat, width as nat), T::T as nat);
        }
        proof {
            lemma_pow2_pos(T::T as nat);
        }
        let zero = T::from_u64(0);
        unpack_batch(input, zero, width, output);
    }

    fn unpack_single<const W: usize>(packed: &[Self], index: usize) -> (r: Self) {
        unpack_single_at(packed, W, index)
    }

    fn unchecked_unpack_single(width: usize, packed: &[Self], index: usize) -> (r: Self) {
        unpack_single_at(packed, width, index)
    }
}

/// Unpacking what `packed` produced gives back every value that fits in `w`
/// bits.
pub proof fn lemma_pack_round_trip(x: Seq<nat>, t: nat, w: nat)
    requires
        valid_bits(t as int),
        w <= t,
        x.len() == 1024,
        fits(x, w),
    ensures
        unpacked(packed(x, t, w), t, w) == x,
{
    lemma_fl_index_bijective(t as int);
    lemma_lanes_times_bits(t as int);
    let lanes = 1024int / (t as int);
    let p = packed(x, t, w);
    assert forall|i: int| 0 <= i < 1024 implies #[trigger] unpacked(p, t, w)[i] == x[i] by {
        let lane = fl_lane(i, t as int);
        let row = fl_row(i, t as int);
        let vals = lane_values(x, t, w, lane);
        let s = digits(vals, w);
        assert(fits(vals, w)) by {
            assert forall|r: int| 0 <= r < vals.len() implies #[trigger] vals[r] < pow2(w) by {
                lemma_pow2_pos(w);
                lemma_mod_pos_bound(x[fl_index(r, lane)] as int, pow2(w) as int);
            }
        }
        lemma_digits_bound(vals, w);
        lemma_mul_is_commutative(t as int, w as int);
        lemma_digits_of_chunks(s, t, w);
        let words = lane_words(p, t, w, lane);
        assert(words =~= chunks(s, t, w)) by {
            assert forall|k: int| 0 <= k < w implies #[trigger] words[k] == chunks(s, t, w)[k] by {
                let j = k * lanes + lane;
                assert(0 <= j < lanes * w) by (nonlinear_arith)
                    requires
                        j == k * lanes + lane,
                        0 <= k < w,
                        0 <= lane < lanes,
                ;
                lemma_mul_is_commutative(k, lanes);
                lemma_fundamental_div_mod_converse(j, lanes, k, lane);
            }
        }
        lemma_digits_extract(vals, w, row as nat);
        lemma_small_mod(x[i], pow2(w));
    }
    assert(unpacked(p, t, w) =~= x);
}

/// Packing into no bits gives an empty buffer, and unpacking one gives zeros.
pub proof fn lemma_pack_width_zero(x: Seq<nat>, p: Seq<nat>, t: nat)
    requires
        valid_bits(t as int),
    ensures
        packed(x, t, 0).len() == 0,
        forall|i: int| 0 <= i < 1024 ==> #[trigger] unpacked(p, t, 0)[i] == 0,
{
    lemma2_to64();
    assert forall|i: int| 0 <= i < 1024 implies #[trigger] unpacked(p, t, 0)[i] == 0 by {
        assert(unpacked_at(p, t, 0, i) < pow2(0)) by {
            lemma_chunk_as_mod(
                digits(lane_words(p, t, 0, fl_lane(i, t as int)), t),
                (fl_row(i, t as int) * 0) as nat,
                0,
            );
        }
    }
}

/// Packing into all `t` bits copies each value to the word of its row and
/// lane, and unpacking copies it back.
pub proof fn lemma_pack_full_width(x: Seq<nat>, p: Seq<nat>, t: nat)
    requires
        valid_bits(t as int),
        x.len() == 1024,
        fits(x, t),
        p.len() == 1024,
        fits(p, t),
    ensures
        forall|row: int, lane: int|
            0 <= row < t && 0 <= lane < 1024int / (t as int) ==> #[trigger] packed(x, t, t)[row * (
            1024int / (t as int)) + lane] == x[fl_index(row, lane)],
        forall|row: int, lane: int|
            0 <= row < t && 0 <= lane < 1024int / (t as int) ==> #[trigger] unpacked(p, t, t)[fl_index(
                row,
                lane,
            )] == p[row * (1024int / (t as int)) + lane],
{
    lemma_fl_index_bijective(t as int);
    lemma_lanes_times_bits(t as int);
    let lanes = 1024int / (t as int);
    assert forall|row: int, lane: int| 0 <= row < t && 0 <= lane < lanes implies #[trigger] packed(
        x,
        t,
        t,
    )[row * lanes + lane] == x[fl_index(row, lane)] by {
        let j = row * lanes + lane;
        assert(0 <= j < 1024) by (nonlinear_arith)
            requires
                j == row * lanes + lane,
                0 <= row < t,
                0 <= lane < lanes,
                lanes * t == 1024,
        ;
        lemma_mul_is_commutative(row, lanes);
        lemma_fundamental_div_mod_converse(j, lanes, row, lane);
        lemma_full_width_word(x, t, j);
    }
    assert forall|row: int, lane: int| 0 <= row < t && 0 <= lane < lanes implies #[trigger] unpacked(
        p,
        t,
        t,
    )[fl_index(row, lane)] == p[row * lanes + lane] by {
        let words = lane_words(p, t, t, lane);
        assert(fits(words, t)) by {
            assert forall|k: int| 0 <= k < words.len() implies #[trigger] words[k] < pow2(t) by {
                assert(0 <= k * lanes + lane < 1024) by (nonlinear_arith)
                    requires
                        0 <= k < t,
                        0 <= lane < lanes,
                        lanes * t == 1024,
                ;
            }
        }
        lemma_digits_extract(words, t, row as nat);
    }
}

/// How the row index splits into a word and a bit offset.
pub(crate) proof fn lemma_row_bits(r: nat, w: nat, t: nat)
    requires
        0 < w < t,
        r < t,
    ensures
        ({
            let c = (r * w) / t;
            let shift = (r * w) % t;
            &&& r * w == c * t + shift
            &&& 0 <= shift < t
            &&& c < w
            &&& shift + w < t ==> ((r + 1) * w) / t == c
            &&& shift + w >= t ==> ((r + 1) * w) / t == c + 1 && ((r + 1) * w) % t == shift + w
                - t && shift > 0
            &&& shift + w > t ==> c + 1 < w
        }),
{
    let c = (r * w) / t;
    let shift = (r * w) % t;
    lemma_fundamental_div_mod((r * w) as int, t as int);
    lemma_mod_pos_bound((r * w) as int, t as int);
    lemma_mul_is_commutative(t as int, c as int);
    assert(r * w == c * t + shift);
    assert((r + 1) * w == r * w + w) by (nonlinear_arith);
    assert(c < w) by (nonlinear_arith)
        requires
            r * w == c * t + shift,
            r < t,
            0 < w < t,
            shift >= 0,
    ;
    if shift + w < t {
        assert((r + 1) * w == c * t + (shift + w));
        lemma_fundamental_div_mod_converse(((r + 1) * w) as int, t as int, c as int, (shift + w) as int);
    } else {
        assert((r + 1) * w == (c + 1) * t + (shift + w - t)) by (nonlinear_arith)
            requires
                (r + 1) * w == r * w + w,
                r * w == c * t + shift,
        ;
        lemma_fundamental_div_mod_converse(
            ((r + 1) * w) as int,
            t as int,
            (c + 1) as int,
            (shift + w - t) as int,
        );
        if shift + w > t {
            assert(c + 1 < w) by (nonlinear_arith)
                requires
                    (r + 1) * w == (c + 1) * t + (shift + w - t),
                    shift + w > t,
                    r < t,
                    0 < w < t,
            ;
        }
    }
}

/// One row of the packing loop. Before it, `tmp` holds the bits of the
/// lane's stream so far that lie above the words already written, `p`; the
/// row appends `v`. The low `t` bits of `tmp` with `v` shifted in are the
/// stream's word at `c`; what is left once that word is full is `v`'s top.
proof fn lemma_pack_step(p: nat, v: nat, tmp: nat, r: nat, w: nat, t: nat)
    requires
        0 < w < t,
        r < t,
        p < pow2(r * w),
        v < pow2(w),
        tmp == p / pow2(((r * w) / t) * t),
    ensures
        ({
            let c = (r * w) / t;
            let shift = ((r * w) % t) as nat;
            let q = p + v * pow2(r * w);
            let acc = tmp + (v % pow2((t - shift) as nat)) * pow2(shift);
            &&& tmp < pow2(shift)
            &&& acc == chunk(q, c * t, t)
            &&& ((r + 1) * w) / t == c ==> acc == q / pow2(c * t)
            &&& ((r + 1) * w) / t != c ==> ((r + 1) * w) / t == c + 1 && shift > 0 && v / pow2(
                (t - shift) as nat,
            ) == q / pow2((c + 1) * t) && (c + 1) * t <= (r + 1) * w
        }),
{
    lemma_row_bits(r, w, t);
    let c = (r * w) / t;
    let shift = ((r * w) % t) as nat;
    let big = pow2(c * t);
    let scale = pow2(shift);
    let rest = pow2((t - shift) as nat);
    let q = p + v * pow2(r * w);
    lemma_pow2_split(c * t, shift);
    lemma_pow2_split(shift, (t - shift) as nat);
    assert(pow2(r * w) == big * scale);
    lemma_fundamental_div_mod(p as int, big as int);
    lemma_mod_pos_bound(p as int, big as int);
    let low = p % big;
    assert(tmp < scale) by (nonlinear_arith)
        requires
            p == big * tmp + low,
            low >= 0,
            p < big * scale,
            big > 0,
    ;
    let qq = tmp + v * scale;
    assert(q == big * qq + low) by (nonlinear_arith)
        requires
            q == p + v * (big * scale),
            p == big * tmp + low,
            qq == tmp + v * scale,
    ;
    lemma_div_multiples_vanish_fancy(qq as int, low as int, big as int);
    assert(q / big == qq);
    lemma_mul_is_commutative(v as int, scale as int);
    lemma_div_multiples_vanish_fancy(v as int, tmp as int, scale as int);
    lemma_mod_multiples_vanish(v as int, tmp as int, scale as int);
    lemma_small_mod(tmp, scale);
    lemma_mod_breakdown(qq as int, scale as int, rest as int);
    let acc = tmp + (v % rest) * scale;
    assert(acc == chunk(q, c * t, t)) by {
        assert(t == shift + (t - shift));
        assert(qq % pow2(t) == scale * ((qq / scale) % rest) + qq % scale);
        lemma_mul_is_commutative((v % rest) as int, scale as int);
    }
    if ((r + 1) * w) / t == c {
        lemma_pow2_strictly_increases(shift + w, t);
        lemma_pow2_split(shift, w);
        assert(qq < pow2(shift + w)) by (nonlinear_arith)
            requires
                qq == tmp + v * scale,
                tmp < scale,
                v < pow2(w),
                pow2(shift + w) == scale * pow2(w),
        ;
        lemma_small_mod(qq, pow2(t));
        assert(acc == qq);
    } else {
        lemma_pow2_split(c * t, t);
        assert((c + 1) * t == c * t + t) by (nonlinear_arith);
        lemma_div_denominator(q as int, big as int, pow2(t) as int);
        lemma_div_denominator(qq as int, scale as int, rest as int);
        assert((r + 1) * w == r * w + w) by (nonlinear_arith);
    }
}

/// The value at row `r` of a lane read off its words: from word `c` alone,
/// or from the top of word `c` and the bottom of word `c + 1`.
proof fn lemma_unpack_row(words: Seq<nat>, t: nat, w: nat, r: nat)
    requires
        0 < w < t,
        r < t,
        words.len() == w,
        fits(words, t),
    ensures
        ({
            let c = (r * w) / t;
            let shift = ((r * w) % t) as nat;
            let s = digits(words, t);
            &&& c < w
            &&& words[c as int] / pow2(shift) < pow2((t - shift) as nat)
            &&& shift + w <= t ==> chunk(s, r * w, w) == chunk(words[c as int], shift, w)
            &&& shift + w > t ==> c + 1 < w && chunk(s, r * w, w) == words[c as int] / pow2(shift)
                + pow2((t - shift) as nat) * (words[(c + 1) as int] % pow2((shift + w - t) as nat))
        }),
{
    lemma_row_bits(r, w, t);
    let c = (r * w) / t;
    let shift = ((r * w) % t) as nat;
    let s = digits(words, t);
    lemma_digits_extract(words, t, c);
    lemma_chunk_of_chunk(s, c * t, t, shift, (t - shift) as nat);
    lemma_chunk_as_mod(s, c * t + shift, (t - shift) as nat);
    lemma_chunk_as_mod(words[c as int], shift, (t - shift) as nat);
    lemma_pow2_split(shift, (t - shift) as nat);
    assert(words[c as int] < pow2(t));
    lemma_small_mod(words[c as int], pow2(t));
    assert(words[c as int] / pow2(shift) < pow2((t - shift) as nat)) by {
        let x = words[c as int];
        let scale = pow2(shift);
        let rest = pow2((t - shift) as nat);
        lemma_fundamental_div_mod(x as int, scale as int);
        lemma_mod_pos_bound(x as int, scale as int);
        let d = x / scale;
        let m = x % scale;
        assert(d < rest) by (nonlinear_arith)
            requires
                x == scale * d + m,
                m >= 0,
                x < scale * rest,
                scale > 0,
        ;
    }
    if shift + w <= t {
        lemma_chunk_of_chunk(s, c * t, t, shift, w);
    } else {
        let low = (t - shift) as nat;
        let high = (shift + w - t) as nat;
        lemma_chunk_split(s, r * w, low, high);
        assert(r * w + low == (c + 1) * t) by (nonlinear_arith)
            requires
                r * w == c * t + shift,
                low == t - shift,
        ;
        lemma_digits_extract(words, t, (c + 1) as nat);
        lemma_chunk_of_chunk(s, (c + 1) * t, t, 0, high);
        lemma_chunk_of_chunk(s, c * t, t, shift, low);
        lemma_pow2(0);
        assert(pow2(0) == 1) by {
            lemma2_to64();
        }
        assert(chunk(words[c as int], shift, low) == words[c as int] / pow2(shift)) by {
            lemma_small_mod(words[c as int] / pow2(shift), pow2(low));
        }
    }
}

/// A value below `2^n` shifted up by `s` stays below `2^(n + s)`.
proof fn lemma_shifted_bound(a: nat, n: nat, s: nat)
    requires
        a < pow2(n),
    ensures
        a * pow2(s) < pow2(n + s),
{
    lemma_pow2_split(n, s);
    lemma_mul_strict_inequality(a as int, pow2(n) as int, pow2(s) as int);
}

/// A power of two with exponent at most 64 is at most `u64::MAX + 1`.
proof fn lemma_pow2_le_64(n: nat)
    requires
        n <= 64,
    ensures
        pow2(n) <= u64::MAX + 1,
{
    lemma2_to64_rest();
    if n < 64 {
        lemma_pow2_strictly_increases(n, 64);
    }
}

/// Packs lane `lane` of `input`, each value first reduced by `reference`
/// modulo `2^T`, into `w` bits per value.
fn pack_lane<T: FastLanes>(input: &[T], reference: T, w: usize, output: &mut [T], lane: usize)
    requires
        input@.len() == 1024,
        0 < w < T::T,
        old(output)@.len() == T::LANES * w,
        lane < T::LANES,
    ensures
        final(output)@.len() == old(output)@.len(),
        forall|j: int|
            0 <= j < final(output)@.len() ==> #[trigger] final(output)@[j] == old(output)@[j] || j
                % (T::LANES as int) == lane,
        forall|j: int|
            0 <= j < final(output)@.len() && j % (T::LANES as int) == lane ==> (
            #[trigger] final(output)@[j]).value() == packed(
                minus_ref(values(input@), reference.value(), T::T as nat),
                T::T as nat,
                w as nat,
            )[j],
{
    proof {
        T::lemma_shape();
        lemma_fl_index_bijective(T::T as int);
    }
    let t: usize = T::T;
    let lanes: usize = T::LANES;
    let ghost x = minus_ref(values(input@), reference.value(), t as nat);
    let ghost rows = lane_values(x, t as nat, w as nat, lane as int);
    let ghost s = digits(rows, w as nat);
    assert(fits(rows, w as nat)) by {
        assert forall|i: int| 0 <= i < rows.len() implies #[trigger] rows[i] < pow2(w as nat) by {
            lemma_pow2_pos(w as nat);
            lemma_mod_pos_bound(x[fl_index(i, lane as int)] as int, pow2(w as nat) as int);
        }
    }
    let mut tmp: u64 = 0;
    let mut row: usize = 0;
    proof {
        assert(rows.len() == t as nat);
        assert(rows.take(0) =~= Seq::<nat>::empty());
        lemma_pow2_pos(0);
        assert((0 * (w as int)) / (t as int) == 0);
    }
    while row < t
        invariant
            input@.len() == 1024,
            0 < w < t,
            t == T::T,
            lanes == T::LANES,
            valid_bits(t as int),
            lanes == 1024int / (t as int),
            lanes <= 128,
            output@.len() == lanes * w,
            lane < lanes,
            x == minus_ref(values(input@), reference.value(), t as nat),
            rows == lane_values(x, t as nat, w as nat, lane as int),
            rows.len() == t,
            lanes * t == 1024,
            output@.len() == old(output)@.len(),
            s == digits(rows, w as nat),
            fits(rows, w as nat),
            row <= t,
            tmp == digits(rows.take(row as int), w as nat) / pow2(
                (((row * w) as int / (t as int)) * t) as nat,
            ),
            forall|j: int|
                0 <= j < output@.len() ==> #[trigger] output@[j] == old(output)@[j] || j
                    % (lanes as int) == lane,
            forall|k: int|
                0 <= k < (row * w) / (t as int) ==> (#[trigger] output@[k * lanes + lane]).value()
                    == chunk(s, (k * t) as nat, t as nat),
        decreases t - row,
    {
        let ghost p = digits(rows.take(row as int), w as nat);
        let ghost before = output@;
        proof {
            lemma_fl_index_bijective(t as int);
            assert(row * w < 4096 && (row + 1) * w <= 4096) by (nonlinear_arith)
                requires
                    row < t,
                    w < t,
                    t <= 64,
            ;
        }
        let idx = fl_index_at(row, lane);
        let v = input[idx].sub_wrapping(reference).to_u64();
        let src = low_bits(v, w as u64);
        assert(src == rows[row as int]) by {
            assert(values(input@)[idx as int] == input@[idx as int].value());
            assert(v == x[idx as int]);
            assert(idx == fl_index(row as int, lane as int));
        }
        let shift = (row * w) % t;
        let curr = (row * w) / t;
        let next = ((row + 1) * w) / t;
        proof {
            lemma_fits_prefix(rows, w as nat, row as nat);
            lemma_digits_bound(rows.take(row as int), w as nat);
            assert(rows.take(row as int).len() * w == row * w);
            lemma_pack_step(p, src as nat, tmp as nat, row as nat, w as nat, t as nat);
            lemma_row_bits(row as nat, w as nat, t as nat);
            lemma_digits_take_next(rows, w as nat, row as nat);
            lemma_pow2_pos((t - shift) as nat);
            lemma_mod_pos_bound(src as int, pow2((t - shift) as nat) as int);
            lemma_shifted_bound((src as nat % pow2((t - shift) as nat)) as nat, (t - shift) as nat, shift as nat);
            lemma_pow2_le_64(t as nat);
        }
        let part = low_bits(src, (t - shift) as u64);
        tmp = join(tmp, part, shift as u64);
        if next > curr {
            proof {
                lemma_pow2_le_64(t as nat);
                lemma_digits_prefix(rows, w as nat, (row + 1) as nat);
                lemma_chunk_below(s, ((row + 1) * w) as nat, (curr * t) as nat, t as nat);
                lemma_chunk_as_mod(digits(rows.take(row as int + 1), w as nat), (curr * t) as nat, t as nat);
                assert(lanes * curr + lane < lanes * w <= 1024) by (nonlinear_arith)
                    requires
                        curr < w,
                        lane < lanes,
                        w < t,
                        lanes * t == 1024,
                ;
                lemma_mod_multiples_vanish(curr as int, lane as int, lanes as int);
                lemma_small_mod(lane as nat, lanes as nat);
                assert(((curr + 1) * t) as nat == (curr * t) as nat + t) by (nonlinear_arith);
                assert(tmp == chunk(s, (curr * t) as nat, t as nat));
            }
            output[lanes * curr + lane] = T::from_u64(tmp);
            assert(output@[lanes * curr + lane].value() == chunk(s, (curr * t) as nat, t as nat));
            tmp = shr(src, (t - shift) as u64);
        }
        proof {
            assert forall|k: int|
                0 <= k < ((row + 1) * w) / (t as int) implies (#[trigger] output@[k * lanes
                + lane]).value() == chunk(s, (k * t) as nat, t as nat) by {
                assert(k * lanes + lane < lanes * w) by (nonlinear_arith)
                    requires
                        0 <= k < w,
                        lane < lanes,
                ;
                if k < curr {
                    assert(k * lanes + lane != lanes * curr + lane) by (nonlinear_arith)
                        requires
                            k < curr,
                            lanes > 0,
                    ;
                    assert(output@[k * lanes + lane] == before[k * lanes + lane]);
                } else {
                    assert(k * lanes == lanes * curr) by (nonlinear_arith)
                        requires
                            k == curr,
                    ;
                }
            }
            assert forall|j: int| 0 <= j < output@.len() implies #[trigger] output@[j] == old(
                output,
            )@[j] || j % (lanes as int) == lane by {
                if next > curr && j == lanes * curr + lane {
                    lemma_mod_multiples_vanish(curr as int, lane as int, lanes as int);
                    lemma_small_mod(lane as nat, lanes as nat);
                }
            }
        }
        row = row + 1;
    }
    proof {
        assert((t * w) / (t as int) == w) by {
            lemma_div_multiples_vanish(w as int, t as int);
            lemma_mul_is_commutative(w as int, t as int);
        }
        let full = packed(x, t as nat, w as nat);
        assert forall|j: int|
            0 <= j < output@.len() && j % (lanes as int) == lane implies (
            #[trigger] output@[j]).value() == full[j] by {
            let k = j / (lanes as int);
            lemma_fundamental_div_mod(j, lanes as int);
            assert(0 <= k < w) by (nonlinear_arith)
                requires
                    j == lanes * k + lane,
                    0 <= j < lanes * w,
                    0 <= lane < lanes,
            ;
            lemma_mul_is_commutative(k, lanes as int);
            assert(output@[k * lanes + lane].value() == chunk(s, (k * t) as nat, t as nat));
        }
    }
}

/// The words of a packed buffer each fit in `T` bits.
proof fn lemma_lane_words_fit<T: FastLanes>(p: Seq<T>, w: nat, lane: int)
    requires
        p.len() == T::LANES * w,
        0 <= lane < T::LANES,
    ensures
        fits(lane_words(values(p), T::T as nat, w, lane), T::T as nat),
        forall|k: int|
            0 <= k < w ==> #[trigger] lane_words(values(p), T::T as nat, w, lane)[k] == p[k
                * T::LANES + lane].value(),
{
    T::lemma_shape();
    let words = lane_words(values(p), T::T as nat, w, lane);
    assert forall|k: int| 0 <= k < w implies #[trigger] words[k] == p[k * T::LANES + lane].value() by {
        assert(k * T::LANES + lane < T::LANES * w) by (nonlinear_arith)
            requires
                0 <= k < w,
                0 <= lane < T::LANES,
        ;
    }
    assert forall|k: int| 0 <= k < words.len() implies #[trigger] words[k] < pow2(T::T as nat) by {
        assert(k * T::LANES + lane < T::LANES * w) by (nonlinear_arith)
            requires
                0 <= k < w,
                0 <= lane < T::LANES,
        ;
        p[k * T::LANES + lane].lemma_value();
    }
}

/// Reads the value at `row` of lane `lane` from the packed buffer `input`,
/// with `src` holding the lane's word that the row starts in; `src` moves on
/// to the next word once the row reaches it.
#[inline(always)]
pub(crate) fn unpack_row<T: FastLanes>(
    input: &[T],
    w: usize,
    lane: usize,
    row: usize,
    src: &mut u64,
) -> (r: u64)
    requires
        0 < w < T::T,
        input@.len() == T::LANES * w,
        lane < T::LANES,
        row < T::T,
        (row * w) / (T::T as int) < w,
        *old(src) == input@[((row * w) / (T::T as int)) * T::LANES + lane].value(),
    ensures
        r == chunk(
            digits(lane_words(values(input@), T::T as nat, w as nat, lane as int), T::T as nat),
            (row * w) as nat,
            w as nat,
        ),
        ((row + 1) * w) / (T::T as int) < w ==> *final(src) == input@[(((row + 1) * w) / (
        T::T as int)) * T::LANES + lane].value(),
{
    let t: usize = T::T;
    let lanes: usize = T::LANES;
    let ghost words = lane_words(values(input@), t as nat, w as nat, lane as int);
    proof {
        T::lemma_shape();
        lemma_lanes_times_bits(t as int);
        lemma_row_bits(row as nat, w as nat, t as nat);
        lemma_lane_words_fit(input@, w as nat, lane as int);
        lemma_unpack_row(words, t as nat, w as nat, row as nat);
        assert(row * w < 4096 && (row + 1) * w <= 4096) by (nonlinear_arith)
            requires
                row < t,
                w < t,
                t <= 64,
        ;
        lemma_pow2_le_64(w as nat);
    }
    let shift = (row * w) % t;
    let curr = (row * w) / t;
    let next = ((row + 1) * w) / t;
    if next > curr {
        let remaining = ((row + 1) * w) % t;
        let current_bits = w - remaining;
        let mut tmp = low_bits(shr(*src, shift as u64), current_bits as u64);
        let ghost first = tmp;
        assert(first == (*old(src) as nat / pow2(shift as nat)) % pow2(current_bits as nat));
        proof {
            lemma_pow2_pos(current_bits as nat);
            lemma_mod_pos_bound((*src as nat / pow2(shift as nat)) as int, pow2(current_bits as nat) as int);
        }
        if next < w {
            proof {
                assert(lanes * next + lane < lanes * w <= 1024) by (nonlinear_arith)
                    requires
                        next < w,
                        lane < lanes,
                        w < t,
                        lanes * t == 1024,
                ;
                lemma_mul_is_commutative(next as int, lanes as int);
            }
            *src = input[lanes * next + lane].to_u64();
            proof {
                lemma_pow2_pos(remaining as nat);
                lemma_mod_pos_bound(*src as int, pow2(remaining as nat) as int);
                lemma_shifted_bound((*src as nat % pow2(remaining as nat)) as nat, remaining as nat, current_bits as nat);
            }
            let high = low_bits(*src, remaining as u64);
            tmp = join(tmp, high, current_bits as u64);
            proof {
                if remaining == 0 {
                    lemma2_to64();
                    assert(high == 0);
                    lemma_mul_by_zero_is_zero(pow2(current_bits as nat) as int);
                    assert(tmp == first);
                } else {
                    lemma_small_mod(*old(src) as nat / pow2(shift as nat), pow2(current_bits as nat));
                    lemma_mul_is_commutative(high as int, pow2(current_bits as nat) as int);
                }
            }
        } else {
            // A row that ends in the lane's last word ends at its top.
            assert(remaining == 0);
        }
        proof {
            lemma_mul_is_commutative(curr as int, lanes as int);
            assert(*old(src) == words[curr as int]);
        }
        tmp
    } else {
        proof {
            lemma_mul_is_commutative(curr as int, lanes as int);
        }
        low_bits(shr(*src, shift as u64), w as u64)
    }
}

/// Unpacks lane `lane` of the packed buffer `input` into `output`, adding
/// `reference` modulo `2^T` to each value.
fn unpack_lane<T: FastLanes>(input: &[T], reference: T, w: usize, output: &mut [T], lane: usize)
    requires
        0 < w < T::T,
        input@.len() == T::LANES * w,
        old(output)@.len() == 1024,
        lane < T::LANES,
    ensures
        final(output)@.len() == 1024,
        forall|i: int|
            0 <= i < 1024 ==> #[trigger] final(output)@[i] == old(output)@[i] || fl_lane(
                i,
                T::T as int,
            ) == lane,
        forall|i: int|
            0 <= i < 1024 && fl_lane(i, T::T as int) == lane ==> (#[trigger] final(output)@[i]).value()
                == plus_ref(
                unpacked(values(input@), T::T as nat, w as nat),
                reference.value(),
                T::T as nat,
            )[i],
{
    proof {
        T::lemma_shape();
    }
    let t: usize = T::T;
    let ghost vals = values(input@);
    let ghost want = plus_ref(unpacked(vals, t as nat, w as nat), reference.value(), t as nat);
    proof {
        assert(T::LANES * w >= T::LANES) by (nonlinear_arith)
            requires
                w > 0,
        ;
    }
    let mut src: u64 = input[lane].to_u64();
    let mut row: usize = 0;
    proof {
        assert((0 * (w as int)) / (t as int) == 0);
    }
    while row < t
        invariant
            0 < w < t,
            t == T::T,
            valid_bits(t as int),
            T::LANES == 1024int / (t as int),
            T::LANES <= 128,
            input@.len() == T::LANES * w,
            output@.len() == 1024,
            lane < T::LANES,
            row <= t,
            vals == values(input@),
            want == plus_ref(unpacked(vals, t as nat, w as nat), reference.value(), t as nat),
            (row * w) / (t as int) < w ==> src == input@[((row * w) / (t as int)) * T::LANES
                + lane].value(),
            forall|i: int|
                0 <= i < 1024 ==> #[trigger] output@[i] == old(output)@[i] || (fl_lane(i, t as int)
                    == lane && fl_row(i, t as int) < row),
            forall|r: int|
                0 <= r < row ==> (#[trigger] output@[fl_index(r, lane as int)]).value() == want[fl_index(
                    r,
                    lane as int,
                )],
        decreases t - row,
    {
        proof {
            lemma_fl_index_bijective(t as int);
            lemma_row_bits(row as nat, w as nat, t as nat);
        }
        let elem = unpack_row(input, w, lane, row, &mut src);
        let idx = fl_index_at(row, lane);
        proof {
            lemma_chunk_as_mod(
                digits(lane_words(vals, t as nat, w as nat, lane as int), t as nat),
                (row * w) as nat,
                w as nat,
            );
            lemma_pow2_strictly_increases(w as nat, t as nat);
            assert(unpacked(vals, t as nat, w as nat)[idx as int] == elem);
        }
        output[idx] = T::from_u64(elem).add_wrapping(reference);
        row = row + 1;
    }
    proof {
        lemma_fl_index_bijective(t as int);
        assert forall|i: int|
            0 <= i < 1024 && fl_lane(i, T::T as int) == lane implies (#[trigger] output@[i]).value()
            == want[i] by {
            assert(output@[fl_index(fl_row(i, t as int), lane as int)].value() == want[fl_index(
                fl_row(i, t as int),
                lane as int,
            )]);
        }
    }
}

/// The batch position of the value at `index`: its lane and row.
#[inline(always)]
fn fl_position<T: FastLanes>(index: usize) -> (r: (usize, usize))
    requires
        index < 1024,
    ensures
        r.0 == fl_lane(index as int, T::T as int),
        r.1 == fl_row(index as int, T::T as int),
        r.0 < T::LANES,
        r.1 < T::T,
{
    proof {
        T::lemma_shape();
        lemma_fl_index_bijective(T::T as int);
    }
    let lane = index % T::LANES;
    let s = index / 128;
    proof {
        let k: int = if T::T == 8 {
            1
        } else if T::T == 16 {
            2
        } else if T::T == 32 {
            4
        } else {
            8
        };
        assert(T::LANES * k == 128);
        lemma_fundamental_div_mod(index as int, 128);
        lemma_mod_mod(index as int, T::LANES as int, k);
        lemma_mod_decreases((index % 128) as nat, T::LANES as nat);
    }
    let f = (index - s * 128 - lane) / 16;
    proof {
        assert(fl_row(index as int, T::T as int) < T::T);
        assert(f < 8);
    }
    let o = fl_order_at(f);
    (lane, o * 8 + s)
}

/// Packs `input`, each value first reduced by `reference` modulo `2^T`, into
/// `w` bits per value.
pub(crate) fn pack_batch<T: FastLanes>(input: &[T], reference: T, w: usize, output: &mut [T])
    requires
        input@.len() == 1024,
        w <= T::T,
        old(output)@.len() == T::LANES * w,
    ensures
        values(final(output)@) == packed(
            minus_ref(values(input@), reference.value(), T::T as nat),
            T::T as nat,
            w as nat,
        ),
{
    proof {
        T::lemma_shape();
    }
    let ghost x = minus_ref(values(input@), reference.value(), T::T as nat);
    let ghost want = packed(x, T::T as nat, w as nat);
    if w == 0 {
        assert(values(output@) =~= want);
    } else if w == T::T {
        let n: usize = T::LANES * w;
        let mut j: usize = 0;
        while j < n
            invariant
                w == T::T,
                T::LANES * T::T == 1024,
                T::LANES <= 128,
                valid_bits(T::T as int),
                T::LANES == 1024int / (T::T as int),
                n == T::LANES * w,
                input@.len() == 1024,
                output@.len() == n,
                j <= n,
                x == minus_ref(values(input@), reference.value(), T::T as nat),
                want == packed(x, T::T as nat, w as nat),
                forall|k: int| 0 <= k < j ==> (#[trigger] output@[k]).value() == want[k],
            decreases n - j,
        {
            let row = j / T::LANES;
            let lane = j % T::LANES;
            proof {
                lemma_fl_index_bijective(T::T as int);
                assert(row < T::T) by (nonlinear_arith)
                    requires
                        j < T::LANES * T::T,
                        row == (j as int) / (T::LANES as int),
                        T::LANES > 0,
                ;
                lemma_minus_ref_fits(values(input@), reference.value(), T::T as nat);
                lemma_full_width_word(x, T::T as nat, j as int);
            }
            let idx = fl_index_at(row, lane);
            output[j] = input[idx].sub_wrapping(reference);
            proof {
                assert(values(input@)[idx as int] == input@[idx as int].value());
            }
            j = j + 1;
        }
        assert(values(output@) =~= want);
    } else {
        let mut lane: usize = 0;
        while lane < T::LANES
            invariant
                0 < w < T::T,
                valid_bits(T::T as int),
                T::LANES == 1024int / (T::T as int),
                input@.len() == 1024,
                output@.len() == T::LANES * w,
                lane <= T::LANES,
                x == minus_ref(values(input@), reference.value(), T::T as nat),
                want == packed(x, T::T as nat, w as nat),
                forall|j: int|
                    0 <= j < output@.len() && j % (T::LANES as int) < lane ==> (
                    #[trigger] output@[j]).value() == want[j],
            decreases T::LANES - lane,
        {
            pack_lane(input, reference, w, output, lane);
            lane = lane + 1;
        }
        assert forall|j: int| 0 <= j < output@.len() implies (#[trigger] output@[j]).value() == want[j] by {
            lemma_mod_pos_bound(j, T::LANES as int);
        }
        assert(values(output@) =~= want);
    }
}

/// The value at `index` of the packed buffer `packed`, read without
/// unpacking the rest.
pub(crate) fn unpack_single_at<T: FastLanes>(packed: &[T], w: usize, index: usize) -> (r: T)
    requires
        w <= T::T,
        packed@.len() == T::LANES * w,
        index < 1024,
    ensures
        r.value() == unpacked(values(packed@), T::T as nat, w as nat)[index as int],
{
    proof {
        T::lemma_shape();
        lemma_lanes_times_bits(T::T as int);
        lemma_fl_index_bijective(T::T as int);
    }
    let t: usize = T::T;
    let lanes: usize = T::LANES;
    let ghost vals = values(packed@);
    if w == 0 {
        proof {
            lemma2_to64();
        }
        return T::from_u64(0);
    }
    let (lane, row) = fl_position::<T>(index);
    let ghost words = lane_words(vals, t as nat, w as nat, lane as int);
    proof {
        lemma_lane_words_fit(packed@, w as nat, lane as int);
    }
    if w == t {
        proof {
            assert(lanes * row + lane < lanes * w) by (nonlinear_arith)
                requires
                    row < w,
                    lane < lanes,
            ;
            lemma_mul_is_commutative(row as int, lanes as int);
            lemma_digits_extract(words, t as nat, row as nat);
        }
        return packed[lanes * row + lane];
    }
    proof {
        lemma_row_bits(row as nat, w as nat, t as nat);
        lemma_unpack_row(words, t as nat, w as nat, row as nat);
        lemma_pow2_le_64(w as nat);
        lemma_pow2_strictly_increases(w as nat, t as nat);
        assert(row * w < 4096) by (nonlinear_arith)
            requires
                row < t,
                w < t,
                t <= 64,
        ;
    }
    let start_bit = row * w;
    let start_word = start_bit / t;
    let lo_shift = start_bit % t;
    let remaining = t - lo_shift;
    proof {
        assert(lanes * start_word + lane < lanes * w <= 1024) by (nonlinear_arith)
            requires
                start_word < w,
                lane < lanes,
                w < t,
                lanes * t == 1024,
        ;
        lemma_mul_is_commutative(start_word as int, lanes as int);
    }
    let lo = shr(packed[lanes * start_word + lane].to_u64(), lo_shift as u64);
    if remaining >= w {
        let v = low_bits(lo, w as u64);
        proof {
            lemma_chunk_as_mod(words[start_word as int], lo_shift as nat, w as nat);
        }
        T::from_u64(v)
    } else {
        proof {
            assert(lanes * (start_word + 1) + lane < lanes * w <= 1024) by (nonlinear_arith)
                requires
                    start_word + 1 < w,
                    lane < lanes,
                    w < t,
                    lanes * t == 1024,
            ;
            lemma_mul_is_commutative((start_word + 1) as int, lanes as int);
        }
        let next_word = packed[lanes * (start_word + 1) + lane].to_u64();
        let hi = low_bits(next_word, (w - remaining) as u64);
        proof {
            lemma_pow2_pos((w - remaining) as nat);
            lemma_mod_pos_bound(next_word as int, pow2((w - remaining) as nat) as int);
            lemma_shifted_bound(hi as nat, (w - remaining) as nat, remaining as nat);
            lemma_mul_is_commutative(hi as int, pow2(remaining as nat) as int);
            lemma_chunk_as_mod(
                digits(words, t as nat),
                (row * w) as nat,
                w as nat,
            );
        }
        T::from_u64(join(lo, hi, remaining as u64))
    }
}

/// Unpacks the packed buffer `input` into `output`, adding `reference`
/// modulo `2^T` to each value.
pub(crate) fn unpack_batch<T: FastLanes>(input: &[T], reference: T, w: usize, output: &mut [T])
    requires
        w <= T::T,
        input@.len() == T::LANES * w,
        old(output)@.len() == 1024,
    ensures
        values(final(output)@) == plus_ref(
            unpacked(values(input@), T::T as nat, w as nat),
            reference.value(),
            T::T as nat,
        ),
{
    proof {
        T::lemma_shape();
    }
    let ghost want = plus_ref(unpacked(values(input@), T::T as nat, w as nat), reference.value(), T::T as nat);
    if w == 0 || w == T::T {
        let mut i: usize = 0;
        while i < 1024
            invariant
                w <= T::T,
                input@.len() == T::LANES * w,
                output@.len() == 1024,
                i <= 1024,
                want == plus_ref(unpacked(values(input@), T::T as nat, w as nat), reference.value(), T::T as nat),
                forall|k: int| 0 <= k < i ==> (#[trigger] output@[k]).value() == want[k],
            decreases 1024 - i,
        {
            let v = unpack_single_at(input, w, i);
            output[i] = v.add_wrapping(reference);
            i = i + 1;
        }
        assert(values(output@) =~= want);
    } else {
        let mut lane: usize = 0;
        while lane < T::LANES
            invariant
                0 < w < T::T,
                input@.len() == T::LANES * w,
                output@.len() == 1024,
                lane <= T::LANES,
                want == plus_ref(unpacked(values(input@), T::T as nat, w as nat), reference.value(), T::T as nat),
                forall|i: int|
                    0 <= i < 1024 && fl_lane(i, T::T as int) < lane ==> (
                    #[trigger] output@[i]).value() == want[i],
            decreases T::LANES - lane,
        {
            unpack_lane(input, reference, w, output, lane);
            lane = lane + 1;
        }
        proof {
            lemma_fl_index_bijective(T::T as int);
        }
        assert forall|i: int| 0 <= i < 1024 implies (#[trigger] output@[i]).value() == want[i] by {
            assert(fl_lane(i, T::T as int) < T::LANES);
        }
        assert(values(output@) =~= want);
    }
}

/// Lanes times rows is the batch size.
proof fn lemma_lanes_times_bits(t: int)
    requires
        valid_bits(t),
    ensures
        (1024int / t) * t == 1024,
{
    if t == 8 {
        assert(1024int / 8int == 128);
    } else if t == 16 {
        assert(1024int / 16int == 64);
    } else if t == 32 {
        assert(1024int / 32int == 32);
    } else {
        assert(t == 64);
        assert(1024int / 64int == 16);
    }
}

/// At full width, word `j` of the packed buffer is the value at row
/// `j / lanes` of lane `j % lanes`.
proof fn lemma_full_width_word(x: Seq<nat>, t: nat, j: int)
    requires
        valid_bits(t as int),
        0 <= j < 1024,
        x.len() == 1024,
        forall|i: int| 0 <= i < 1024 ==> #[trigger] x[i] < pow2(t),
    ensures
        packed(x, t, t)[j] == x[fl_index(j / (1024int / (t as int)), j % (1024int / (t as int)))],
{
    let lanes = 1024int / (t as int);
    let lane = j % lanes;
    let row = j / lanes;
    lemma_fl_index_bijective(t as int);
    lemma_lanes_times_bits(t as int);
    lemma_fundamental_div_mod(j, lanes);
    lemma_mod_pos_bound(j, lanes);
    assert(row < t) by (nonlinear_arith)
        requires
            j == lanes * row + lane,
            j < 1024,
            lanes * t == 1024,
            lane >= 0,
            lanes > 0,
    ;
    let vals = lane_values(x, t, t, lane);
    assert(fits(vals, t)) by {
        assert forall|r: int| 0 <= r < vals.len() implies #[trigger] vals[r] < pow2(t) by {
            lemma_pow2_pos(t);
            lemma_mod_pos_bound(x[fl_index(r, lane)] as int, pow2(t) as int);
        }
    }
    lemma_digits_extract(vals, t, row as nat);
    lemma_small_mod(x[fl_index(row, lane)], pow2(t));
}

/// The join of the first `n + 1` rows is the join of the first `n` with row
/// `n` above them.
proof fn lemma_digits_take_next(s: Seq<nat>, b: nat, n: nat)
    requires
        n < s.len(),
    ensures
        digits(s.take(n as int + 1), b) == digits(s.take(n as int), b) + s[n as int] * pow2(n * b),
{
    let t = s.take(n as int + 1);
    assert(t.drop_last() =~= s.take(n as int));
    assert(t.last() == s[n as int]);
    assert(((t.len() - 1) * b) as nat == n * b);
}

/// A prefix of a sequence of `b`-bit values holds `b`-bit values.
proof fn lemma_fits_prefix(s: Seq<nat>, b: nat, n: nat)
    requires
        fits(s, b),
        n <= s.len(),
    ensures
        fits(s.take(n as int), b),
{
    assert forall|i: int| 0 <= i < n implies #[trigger] s.take(n as int)[i] < pow2(b) by {
        assert(s.take(n as int)[i] == s[i]);
    }
}

} // verus!
