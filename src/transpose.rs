//! The transposed order: a fixed permutation of a batch under which a delta
//! taken along each lane follows the original order of the values.
use crate::{fl_order, lemma_fl_order_involution, FastLanes};
use vstd::arithmetic::div_mod::*;
use vstd::prelude::*;

verus! {

/// The position of the original batch that position `idx` of the transposed
/// batch holds.
pub open spec fn transpose_index(idx: int) -> int {
    let lane = idx % 16;
    let order = (idx / 16) % 8;
    let row = idx / 128;
    lane * 64 + fl_order(order) * 8 + row
}

/// The inverse of `transpose_index` on `[0, 1024)`.
pub open spec fn untranspose_index(j: int) -> int {
    let lane = j / 64;
    let f = (j / 8) % 8;
    let row = j % 8;
    lane + fl_order(f) * 16 + row * 128
}

/// A batch in transposed order.
pub open spec fn transposed<T>(u: Seq<T>) -> Seq<T> {
    Seq::new(1024, |i: int| u[transpose_index(i)])
}

/// A transposed batch back in its original order.
pub open spec fn untransposed<T>(x: Seq<T>) -> Seq<T> {
    Seq::new(1024, |j: int| x[untranspose_index(j)])
}

/// `untranspose_index` undoes `transpose_index` at `i`.
proof fn lemma_transpose_index_at(i: int)
    requires
        0 <= i < 1024,
    ensures
        0 <= transpose_index(i) < 1024,
        untranspose_index(transpose_index(i)) == i,
{
    lemma_fl_order_involution();
    let lane = i % 16;
    let order = (i / 16) % 8;
    let row = i / 128;
    let f = fl_order(order);
    let j = transpose_index(i);
    assert(0 <= order < 8);
    assert(0 <= f < 8);
    assert(i == lane + order * 16 + row * 128);
    lemma_fundamental_div_mod_converse(j, 64, lane, f * 8 + row);
    lemma_fundamental_div_mod_converse(j, 8, lane * 8 + f, row);
    lemma_fundamental_div_mod_converse(j / 8, 8, lane, f);
}

/// `transpose_index` undoes `untranspose_index` at `j`.
proof fn lemma_untranspose_index_at(j: int)
    requires
        0 <= j < 1024,
    ensures
        0 <= untranspose_index(j) < 1024,
        transpose_index(untranspose_index(j)) == j,
{
    lemma_fl_order_involution();
    let lane = j / 64;
    let f = (j / 8) % 8;
    let row = j % 8;
    let order = fl_order(f);
    let i = untranspose_index(j);
    assert(0 <= order < 8);
    assert(j == lane * 64 + f * 8 + row);
    lemma_fundamental_div_mod_converse(i, 16, order + row * 8, lane);
    lemma_fundamental_div_mod_converse(i, 128, row, lane + order * 16);
    lemma_fundamental_div_mod_converse(i / 16, 8, row, order);
}

/// `transpose_index` permutes `[0, 1024)`, and `untranspose_index` undoes it.
pub proof fn lemma_transpose_index_bijective()
    ensures
        forall|i: int|
            0 <= i < 1024 ==> 0 <= #[trigger] transpose_index(i) < 1024 && untranspose_index(
                transpose_index(i),
            ) == i,
        forall|j: int|
            0 <= j < 1024 ==> 0 <= #[trigger] untranspose_index(j) < 1024 && transpose_index(
                untranspose_index(j),
            ) == j,
{
    assert forall|i: int| 0 <= i < 1024 implies 0 <= #[trigger] transpose_index(i) < 1024
        && untranspose_index(transpose_index(i)) == i by {
        lemma_transpose_index_at(i);
    }
    assert forall|j: int| 0 <= j < 1024 implies 0 <= #[trigger] untranspose_index(j) < 1024
        && transpose_index(untranspose_index(j)) == j by {
        lemma_untranspose_index_at(j);
    }
}

/// Transposing and then untransposing a batch, or the other way round,
/// gives back the batch.
pub proof fn lemma_transpose_round_trip<T>(u: Seq<T>)
    requires
        u.len() == 1024,
    ensures
        untransposed(transposed(u)) == u,
        transposed(untransposed(u)) == u,
{
    lemma_transpose_index_bijective();
    assert(untransposed(transposed(u)) =~= u);
    assert(transposed(untransposed(u)) =~= u);
}

/// Return the corresponding index in a transposed `FastLanes` vector.
#[inline(always)]
pub fn transpose(idx: usize) -> (r: usize)
    ensures
        r == transpose_index(idx as int),
{
    let lane = idx % 16;
    let order = (idx / 16) % 8;
    let row = idx / 128;
    lane * 64 + crate::fl_order_at(order) * 8 + row
}

/// Moving a batch into transposed order and back.
pub trait Transpose: FastLanes {
    fn transpose(input: &[Self; 1024], output: &mut [Self; 1024])
        ensures
            final(output)@ == transposed(input@),
    ;

    fn untranspose(input: &[Self; 1024], output: &mut [Self; 1024])
        ensures
            final(output)@ == untransposed(input@),
    ;
}

impl<T: FastLanes> Transpose for T {
    fn transpose(input: &[Self; 1024], output: &mut [Self; 1024]) {
        for i in 0..1024
            invariant
                forall|k: int| 0 <= k < i ==> output@[k] == input@[transpose_index(k)],
        {
            proof {
                lemma_transpose_index_at(i as int);
            }
            output[i] = input[transpose(i)];
        }
        assert(output@ =~= transposed(input@));
    }

    fn untranspose(input: &[Self; 1024], output: &mut [Self; 1024]) {
        for i in 0..1024
            invariant
                forall|k: int| 0 <= k < i ==> output@[#[trigger] transpose_index(k)] == input@[k],
        {
            proof {
                lemma_transpose_index_bijective();
            }
            output[transpose(i)] = input[i];
        }
        proof {
            lemma_transpose_index_bijective();
        }
        assert forall|j: int| 0 <= j < 1024 implies output@[j] == untransposed(input@)[j] by {
            let k = untranspose_index(j);
            assert(output@[transpose_index(k)] == input@[k]);
        }
        assert(output@ =~= untransposed(input@));
    }
}

} // verus!
