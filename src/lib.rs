//! Vectorisable integer compression over batches of 1024 values: a fixed
//! interleaved iteration order, bit-packing, delta and frame-of-reference
//! encodings, and their fused kernels.
use vstd::arithmetic::div_mod::*;
use vstd::arithmetic::power2::*;
use vstd::prelude::*;

pub mod bitpacking;
pub mod delta;
pub mod ffor;
pub mod transpose;
pub mod word;

pub use bitpacking::BitPacking;
pub use delta::Delta;
pub use ffor::FoR;
pub use transpose::{transpose, Transpose};

verus! {

/// The interleaving of the eight row groups; it is its own inverse.
pub const FL_ORDER: [usize; 8] = [0, 4, 2, 6, 1, 5, 3, 7];

/// `FL_ORDER` as a mathematical function on `[0, 8)`.
pub open spec fn fl_order(o: int) -> int {
    if o == 0 {
        0
    } else if o == 1 {
        4
    } else if o == 2 {
        2
    } else if o == 3 {
        6
    } else if o == 4 {
        1
    } else if o == 5 {
        5
    } else if o == 6 {
        3
    } else {
        7
    }
}

/// Position in a batch of the element at `row` of `lane` in FastLanes order.
pub open spec fn fl_index(row: int, lane: int) -> int {
    fl_order(row / 8) * 16 + (row % 8) * 128 + lane
}

/// The lane of batch position `i`, for elements of `t` bits.
pub open spec fn fl_lane(i: int, t: int) -> int {
    i % (1024int / t)
}

/// The row of batch position `i`, for elements of `t` bits.
pub open spec fn fl_row(i: int, t: int) -> int {
    let s = i / 128;
    let f = (i - s * 128 - fl_lane(i, t)) / 16;
    fl_order(f) * 8 + s
}

/// The element widths that a batch supports.
pub open spec fn valid_bits(t: int) -> bool {
    t == 8 || t == 16 || t == 32 || t == 64
}

/// `FL_ORDER` holds `fl_order`, and reading it twice gives back the index.
pub proof fn lemma_fl_order_involution()
    ensures
        forall|i: int| 0 <= i < 8 ==> #[trigger] FL_ORDER@[i] == fl_order(i),
        forall|i: int| 0 <= i < 8 ==> #[trigger] FL_ORDER@[FL_ORDER@[i] as int] == i,
        forall|i: int| 0 <= i < 8 ==> #[trigger] fl_order(fl_order(i)) == i,
        forall|i: int| 0 <= i < 8 ==> 0 <= #[trigger] fl_order(i) < 8,
{
}

/// `fl_index` maps the (row, lane) grid one to one onto the batch, with
/// `fl_row` and `fl_lane` as its inverse.
pub proof fn lemma_fl_index_bijective(t: int)
    requires
        valid_bits(t),
    ensures
        forall|row: int, lane: int|
            0 <= row < t && 0 <= lane < 1024int / t ==> {
                let i = #[trigger] fl_index(row, lane);
                &&& 0 <= i < 1024
                &&& fl_row(i, t) == row
                &&& fl_lane(i, t) == lane
            },
        forall|i: int|
            0 <= i < 1024 ==> {
                &&& 0 <= #[trigger] fl_row(i, t) < t
                &&& 0 <= fl_lane(i, t) < 1024int / t
                &&& fl_index(fl_row(i, t), fl_lane(i, t)) == i
            },
{
    assert forall|row: int, lane: int| 0 <= row < t && 0 <= lane < 1024int / t implies {
        let i = #[trigger] fl_index(row, lane);
        &&& 0 <= i < 1024
        &&& fl_row(i, t) == row
        &&& fl_lane(i, t) == lane
    } by {
        lemma_fl_index_cell(t, row, lane);
    }
    assert forall|i: int| 0 <= i < 1024 implies {
        &&& 0 <= #[trigger] fl_row(i, t) < t
        &&& 0 <= fl_lane(i, t) < 1024int / t
        &&& fl_index(fl_row(i, t), fl_lane(i, t)) == i
    } by {
        lemma_fl_index_position(t, i);
    }
}

/// `fl_row` and `fl_lane` recover the row and lane of a grid cell.
proof fn lemma_fl_index_cell(t: int, row: int, lane: int)
    requires
        valid_bits(t),
        0 <= row < t,
        0 <= lane < 1024int / t,
    ensures
        0 <= fl_index(row, lane) < 1024,
        fl_row(fl_index(row, lane), t) == row,
        fl_lane(fl_index(row, lane), t) == lane,
{
    let o = row / 8;
    let s = row % 8;
    let f = fl_order(o);
    let i = fl_index(row, lane);
    let lanes = 1024int / t;
    assert(0 <= o < 8);
    assert(i == f * 16 + s * 128 + lane);
    let q = if t == 8 {
        s
    } else if t == 16 {
        f / 4 + s * 2
    } else if t == 32 {
        f / 2 + s * 4
    } else {
        f + s * 8
    };
    assert(i == lanes * q + lane && f * 16 + lane < 128) by {
        if t == 8 {
            assert(lanes == 128 && o == 0);
        } else if t == 16 {
            assert(lanes == 64 && o < 2);
            if o == 0 {
            } else {
            }
        } else if t == 32 {
            assert(lanes == 32 && o < 4);
            if o == 0 {
            } else if o == 1 {
            } else if o == 2 {
            } else {
            }
        } else {
            assert(t == 64);
            assert(lanes == 16);
            if o == 0 {
            } else if o == 1 {
            } else if o == 2 {
            } else if o == 3 {
            } else if o == 4 {
            } else if o == 5 {
            } else if o == 6 {
            } else {
            }
        }
    }
    lemma_fundamental_div_mod_converse(i, lanes, q, lane);
    lemma_fundamental_div_mod_converse(i, 128, s, f * 16 + lane);
    assert((i - s * 128 - lane) / 16 == f);
    assert(fl_order(f) == o);
}

/// Every batch position is the image of its row and lane.
proof fn lemma_fl_index_position(t: int, i: int)
    requires
        valid_bits(t),
        0 <= i < 1024,
    ensures
        0 <= fl_row(i, t) < t,
        0 <= fl_lane(i, t) < 1024int / t,
        fl_index(fl_row(i, t), fl_lane(i, t)) == i,
{
    let lane = fl_lane(i, t);
    let s = i / 128;
    let f = (i - s * 128 - lane) / 16;
    assert(0 <= s < 8);
    if t == 8 {
        assert(lane == i % 128);
        assert(f == 0);
    } else if t == 16 {
        assert(lane == i % 64);
        assert(f == 0 || f == 4);
        assert(f * 16 + lane == i % 128);
    } else if t == 32 {
        assert(lane == i % 32);
        assert(f == 0 || f == 2 || f == 4 || f == 6);
        assert(f * 16 + lane == i % 128);
    } else {
        assert(lane == i % 16);
        assert(0 <= f < 8);
        assert(f * 16 + lane == i % 128);
    }
    let o = fl_order(f);
    assert(fl_order(o) == f);
    assert(fl_row(i, t) == o * 8 + s);
    assert((o * 8 + s) / 8 == o);
    assert((o * 8 + s) % 8 == s);
}

/// Reduction modulo `m` of a number in `[-m, 2m)`.
pub proof fn lemma_mod_wrap(a: int, m: int)
    requires
        0 < m,
        -m <= a < 2 * m,
    ensures
        a % m == (if a < 0 {
            a + m
        } else if a >= m {
            a - m
        } else {
            a
        }),
{
    if a < 0 {
        lemma_fundamental_div_mod_converse(a, m, -1, a + m);
    } else if a >= m {
        lemma_fundamental_div_mod_converse(a, m, 1, a - m);
    } else {
        lemma_fundamental_div_mod_converse(a, m, 0, a);
    }
}

/// The element types of a batch: unsigned integers of `T` bits, with
/// `LANES` lanes of `T` rows each.
pub trait FastLanes: Sized + Copy {
    const T: usize;
    const LANES: usize;

    /// The number that an element stands for.
    spec fn value(self) -> nat;

    proof fn lemma_shape()
        ensures
            valid_bits(Self::T as int),
            Self::LANES == 1024int / (Self::T as int),
            Self::LANES * Self::T == 1024,
            Self::LANES <= 128,
    ;

    proof fn lemma_value(self)
        ensures
            self.value() < pow2(Self::T as nat),
    ;

    proof fn lemma_value_injective(a: Self, b: Self)
        requires
            a.value() == b.value(),
        ensures
            a == b,
    ;

    fn to_u64(self) -> (r: u64)
        ensures
            r == self.value(),
    ;

    fn from_u64(x: u64) -> (r: Self)
        requires
            x < pow2(Self::T as nat),
        ensures
            r.value() == x,
    ;

    /// Addition modulo `2^T`.
    fn add_wrapping(self, other: Self) -> (r: Self)
        ensures
            r.value() == (self.value() + other.value()) as int % (pow2(Self::T as nat) as int),
    ;

    /// Subtraction modulo `2^T`.
    fn sub_wrapping(self, other: Self) -> (r: Self)
        ensures
            r.value() == (self.value() - other.value()) as int % (pow2(Self::T as nat) as int),
    ;
}

impl FastLanes for u8 {
    const T: usize = 8;
    const LANES: usize = 128;

    open spec fn value(self) -> nat {
        self as nat
    }

    proof fn lemma_shape() {
    }

    proof fn lemma_value(self) {
        lemma2_to64();
    }

    proof fn lemma_value_injective(a: Self, b: Self) {
    }

    fn to_u64(self) -> (r: u64) {
        self as u64
    }

    fn from_u64(x: u64) -> (r: Self) {
        proof {
            lemma2_to64();
        }
        x as u8
    }

    fn add_wrapping(self, other: Self) -> (r: Self) {
        proof {
            lemma2_to64();
            lemma_mod_wrap(self + other, pow2(Self::T as nat) as int);
        }
        self.wrapping_add(other)
    }

    fn sub_wrapping(self, other: Self) -> (r: Self) {
        proof {
            lemma2_to64();
            lemma_mod_wrap(self - other, pow2(Self::T as nat) as int);
        }
        self.wrapping_sub(other)
    }
}

impl FastLanes for u16 {
    const T: usize = 16;
    const LANES: usize = 64;

    open spec fn value(self) -> nat {
        self as nat
    }

    proof fn lemma_shape() {
    }

    proof fn lemma_value(self) {
        lemma2_to64();
    }

    proof fn lemma_value_injective(a: Self, b: Self) {
    }

    fn to_u64(self) -> (r: u64) {
        self as u64
    }

    fn from_u64(x: u64) -> (r: Self) {
        proof {
            lemma2_to64();
        }
        x as u16
    }

    fn add_wrapping(self, other: Self) -> (r: Self) {
        proof {
            lemma2_to64();
            lemma_mod_wrap(self + other, pow2(Self::T as nat) as int);
        }
        self.wrapping_add(other)
    }

    fn sub_wrapping(self, other: Self) -> (r: Self) {
        proof {
            lemma2_to64();
            lemma_mod_wrap(self - other, pow2(Self::T as nat) as int);
        }
        self.wrapping_sub(other)
    }
}

impl FastLanes for u32 {
    const T: usize = 32;
    const LANES: usize = 32;

    open spec fn value(self) -> nat {
        self as nat
    }

    proof fn lemma_shape() {
    }

    proof fn lemma_value(self) {
        lemma2_to64();
    }

    proof fn lemma_value_injective(a: Self, b: Self) {
    }

    fn to_u64(self) -> (r: u64) {
        self as u64
    }

    fn from_u64(x: u64) -> (r: Self) {
        proof {
            lemma2_to64();
        }
        x as u32
    }

    fn add_wrapping(self, other: Self) -> (r: Self) {
        proof {
            lemma2_to64();
            lemma_mod_wrap(self + other, pow2(Self::T as nat) as int);
        }
        self.wrapping_add(other)
    }

    fn sub_wrapping(self, other: Self) -> (r: Self) {
        proof {
            lemma2_to64();
            lemma_mod_wrap(self - other, pow2(Self::T as nat) as int);
        }
        self.wrapping_sub(other)
    }
}

impl FastLanes for u64 {
    const T: usize = 64;
    const LANES: usize = 16;

    open spec fn value(self) -> nat {
        self as nat
    }

    proof fn lemma_shape() {
    }

    proof fn lemma_value(self) {
        lemma2_to64_rest();
    }

    proof fn lemma_value_injective(a: Self, b: Self) {
    }

    fn to_u64(self) -> (r: u64) {
        self
    }

    fn from_u64(x: u64) -> (r: Self) {
        x
    }

    fn add_wrapping(self, other: Self) -> (r: Self) {
        proof {
            lemma2_to64_rest();
            lemma_mod_wrap(self + other, pow2(Self::T as nat) as int);
        }
        self.wrapping_add(other)
    }

    fn sub_wrapping(self, other: Self) -> (r: Self) {
        proof {
            lemma2_to64_rest();
            lemma_mod_wrap(self - other, pow2(Self::T as nat) as int);
        }
        self.wrapping_sub(other)
    }
}

/// The numbers that a sequence of elements stands for.
pub open spec fn values<T: FastLanes>(s: Seq<T>) -> Seq<nat> {
    s.map_values(|x: T| x.value())
}

/// Two element sequences with the same numbers are equal.
pub proof fn lemma_values_injective<T: FastLanes>(a: Seq<T>, b: Seq<T>)
    requires
        values(a) == values(b),
    ensures
        a == b,
{
    assert(a.len() == values(a).len());
    assert forall|i: int| 0 <= i < a.len() implies a[i] == b[i] by {
        assert(values(a)[i] == a[i].value());
        assert(values(b)[i] == b[i].value());
        T::lemma_value_injective(a[i], b[i]);
    }
    assert(a =~= b);
}

/// Every element's number fits in `T` bits.
pub proof fn lemma_values_fit<T: FastLanes>(s: Seq<T>)
    ensures
        forall|i: int| 0 <= i < s.len() ==> #[trigger] values(s)[i] < pow2(T::T as nat),
{
    assert forall|i: int| 0 <= i < s.len() implies #[trigger] values(s)[i] < pow2(T::T as nat) by {
        s[i].lemma_value();
    }
}

/// `FL_ORDER[o]`.
#[inline(always)]
pub fn fl_order_at(o: usize) -> (r: usize)
    requires
        o < 8,
    ensures
        r == fl_order(o as int),
{
    FL_ORDER[o]
}

/// The batch position of `row` of `lane`.
#[inline(always)]
pub fn fl_index_at(row: usize, lane: usize) -> (r: usize)
    requires
        row < 64,
        lane < 128,
    ensures
        r == fl_index(row as int, lane as int),
{
    fl_order_at(row / 8) * 16 + (row % 8) * 128 + lane
}

} // verus!
