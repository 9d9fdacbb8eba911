//! Mixed-radix counting: how digit vectors, one digit per dimension, line
//! up with positions in the sequence of all tuples.

use crate::model::{tuples, volume};
use vstd::arithmetic::div_mod::lemma_fundamental_div_mod_converse;

use vstd::prelude::*;

verus! {

/// Whether there is one digit per dimension, each below the length of its
/// dimension.
pub open spec fn in_range<T>(dims: Seq<Seq<T>>, digits: Seq<int>) -> bool {
    &&& digits.len() == dims.len()
    &&& forall|i: int| 0 <= i < dims.len() ==> 0 <= #[trigger] digits[i] < dims[i].len()
}

/// The number that the digits spell, digit 0 being the least significant
/// and the length of a dimension its radix.
pub open spec fn position<T>(dims: Seq<Seq<T>>, digits: Seq<int>) -> int
    decreases dims.len(),
{
    if dims.len() == 0 {
        0
    } else {
        digits[0] + dims[0].len() * position(dims.drop_first(), digits.drop_first())
    }
}

/// The tuple that the digits pick: from each dimension the element at its
/// digit.
pub open spec fn chosen<T>(dims: Seq<Seq<T>>, digits: Seq<int>) -> Seq<T> {
    Seq::new(dims.len(), |i: int| dims[i][digits[i]])
}

/// There are as many tuples as the lengths of the dimensions multiply to.
pub proof fn lemma_tuples_len<T>(dims: Seq<Seq<T>>)
    ensures
        tuples(dims).len() == volume(dims),
    decreases dims.len(),
{
    if dims.len() > 0 {
        lemma_tuples_len(dims.drop_first());
    }
}

/// An empty dimension leaves no tuple.
pub proof fn lemma_empty_dimension<T>(dims: Seq<Seq<T>>, k: int)
    requires
        0 <= k < dims.len(),
        dims[k].len() == 0,
    ensures
        volume(dims) == 0,
        tuples(dims).len() == 0,
    decreases dims.len(),
{
    lemma_tuples_len(dims);
    if k > 0 {
        lemma_empty_dimension(dims.drop_first(), k - 1);
        assert(dims[0].len() * 0 == 0);
    } else {
        assert(0 * volume(dims.drop_first()) == 0);
    }
}

/// Digits in range spell a position below the number of tuples.
pub proof fn lemma_position_bound<T>(dims: Seq<Seq<T>>, digits: Seq<int>)
    requires
        in_range(dims, digits),
    ensures
        0 <= position(dims, digits) < volume(dims),
    decreases dims.len(),
{
    if dims.len() > 0 {
        let rest = dims.drop_first();
        let low = digits.drop_first();
        assert(in_range(rest, low)) by {
            assert forall|i: int| 0 <= i < rest.len() implies 0 <= #[trigger] low[i] < rest[i].len() by {
                assert(low[i] == digits[i + 1]);
            }
        }
        lemma_position_bound(rest, low);
        let n = dims[0].len() as int;
        let q = position(rest, low);
        let v = volume(rest) as int;
        assert(0 <= digits[0] < n);
        assert(0 <= n * q && digits[0] + n * q < n * v) by (nonlinear_arith)
            requires
                0 <= digits[0] < n,
                0 <= q < v,
        ;
    }
}

/// The tuple at the position that the digits spell is the tuple that the
/// digits pick.
pub proof fn lemma_tuple_at<T>(dims: Seq<Seq<T>>, digits: Seq<int>)
    requires
        in_range(dims, digits),
    ensures
        0 <= position(dims, digits) < tuples(dims).len(),
        tuples(dims)[position(dims, digits)] == chosen(dims, digits),
    decreases dims.len(),
{
    lemma_tuples_len(dims);
    lemma_position_bound(dims, digits);
    if dims.len() == 0 {
        assert(tuples(dims)[0] =~= chosen(dims, digits));
    } else {
        let rest = dims.drop_first();
        let low = digits.drop_first();
        assert(in_range(rest, low)) by {
            assert forall|i: int| 0 <= i < rest.len() implies 0 <= #[trigger] low[i] < rest[i].len() by {
                assert(low[i] == digits[i + 1]);
            }
        }
        lemma_tuple_at(rest, low);
        lemma_tuples_len(rest);
        let n = dims[0].len() as int;
        let q = position(rest, low);
        let p = position(dims, digits);
        assert(0 <= digits[0] < n);
        assert(p == q * n + digits[0]) by (nonlinear_arith)
            requires
                p == digits[0] + n * q,
        ;
        lemma_fundamental_div_mod_converse(p, n, q, digits[0]);
        assert(tuples(dims)[p] == seq![dims[0][digits[0]]] + tuples(rest)[q]);
        assert(chosen(dims, digits) =~= seq![dims[0][digits[0]]] + chosen(rest, low));
    }
}

/// All digits at zero spell position zero.
pub proof fn lemma_position_zero<T>(dims: Seq<Seq<T>>, digits: Seq<int>)
    requires
        digits.len() == dims.len(),
        forall|i: int| 0 <= i < digits.len() ==> digits[i] == 0,
    ensures
        position(dims, digits) == 0,
    decreases dims.len(),
{
    if dims.len() > 0 {
        lemma_position_zero(dims.drop_first(), digits.drop_first());
        assert(dims[0].len() * 0 == 0);
    }
}

/// Counting up by one: where every digit below `k` stands at its last value
/// and falls back to zero, and digit `k` goes up by one, the position goes
/// up by one.
pub proof fn lemma_position_carry<T>(dims: Seq<Seq<T>>, before: Seq<int>, after: Seq<int>, k: int)
    requires
        in_range(dims, before),
        after.len() == dims.len(),
        0 <= k < dims.len(),
        forall|j: int| 0 <= j < k ==> before[j] == dims[j].len() - 1 && after[j] == 0,
        after[k] == before[k] + 1,
        forall|j: int| k < j < dims.len() ==> after[j] == before[j],
    ensures
        position(dims, after) == position(dims, before) + 1,
    decreases dims.len(),
{
    let rest = dims.drop_first();
    if k == 0 {
        assert(after.drop_first() =~= before.drop_first());
    } else {
        let low_before = before.drop_first();
        let low_after = after.drop_first();
        assert(in_range(rest, low_before)) by {
            assert forall|i: int| 0 <= i < rest.len() implies 0 <= #[trigger] low_before[i]
                < rest[i].len() by {
                assert(low_before[i] == before[i + 1]);
            }
        }
        assert forall|j: int| 0 <= j < k - 1 implies low_before[j] == rest[j].len() - 1
            && low_after[j] == 0 by {
            assert(low_before[j] == before[j + 1]);
            assert(low_after[j] == after[j + 1]);
        }
        lemma_position_carry(rest, low_before, low_after, k - 1);
        let n = dims[0].len() as int;
        let q = position(rest, low_before);
        assert(before[0] == n - 1 && after[0] == 0);
        assert(n * (q + 1) == (n - 1) + n * q + 1) by (nonlinear_arith);
    }
}

/// Where every digit stands at its last value, the position is the last.
pub proof fn lemma_position_last<T>(dims: Seq<Seq<T>>, digits: Seq<int>)
    requires
        in_range(dims, digits),
        forall|j: int| 0 <= j < dims.len() ==> digits[j] == dims[j].len() - 1,
    ensures
        position(dims, digits) + 1 == volume(dims),
    decreases dims.len(),
{
    if dims.len() > 0 {
        let rest = dims.drop_first();
        let low = digits.drop_first();
        assert(in_range(rest, low)) by {
            assert forall|i: int| 0 <= i < rest.len() implies 0 <= #[trigger] low[i] < rest[i].len() by {
                assert(low[i] == digits[i + 1]);
            }
        }
        assert forall|j: int| 0 <= j < rest.len() implies low[j] == rest[j].len() - 1 by {
            assert(low[j] == digits[j + 1]);
        }
        lemma_position_last(rest, low);
        let n = dims[0].len() as int;
        let q = position(rest, low);
        assert(digits[0] == n - 1);
        assert((n - 1) + n * q + 1 == n * (q + 1)) by (nonlinear_arith);
    }
}

} // verus!
