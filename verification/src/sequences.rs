//! Facts about the sequences of the model: filtering, joining, classes and
//! powers.

use crate::model::{
    bytes, copies, encoded, fits, join, joined, keep, power, powers, scalars, single_bytes, tuples,
    volume,
};
use crate::radix::lemma_tuples_len;

use vstd::prelude::*;

use vstd::utf8::{encode_scalar, is_scalar};

verus! {

/// Filtering goes through a sequence front to back: the first candidate
/// stays if it fits, then comes what is kept of the others.
pub proof fn lemma_keep_step(items: Seq<Seq<u8>>, max_length: Option<usize>)
    requires
        items.len() > 0,
    ensures
        keep(items, max_length) == (if fits(items[0], max_length) {
            seq![items[0]]
        } else {
            Seq::empty()
        }) + keep(items.drop_first(), max_length),
{
    assert(items =~= seq![items[0]] + items.drop_first());
    items.drop_first().lemma_filter_prepend(items[0], |c: Seq<u8>| fits(c, max_length));
}

/// Filtering a concatenation filters each side.
pub proof fn lemma_keep_add(a: Seq<Seq<u8>>, b: Seq<Seq<u8>>, max_length: Option<usize>)
    ensures
        keep(a + b, max_length) == keep(a, max_length) + keep(b, max_length),
{
    Seq::filter_distributes_over_add(a, b, |c: Seq<u8>| fits(c, max_length));
}

/// Nothing is kept of a sequence in which no candidate fits.
pub proof fn lemma_keep_none(items: Seq<Seq<u8>>, max_length: Option<usize>)
    requires
        forall|i: int| 0 <= i < items.len() ==> !fits(#[trigger] items[i], max_length),
    ensures
        keep(items, max_length) =~= Seq::empty(),
    decreases items.len(),
{
    if items.len() > 0 {
        lemma_keep_step(items, max_length);
        lemma_keep_none(items.drop_first(), max_length);
    } else {
        lemma_keep_empty(max_length);
    }
}

/// Nothing is kept of the empty sequence.
pub proof fn lemma_keep_empty(max_length: Option<usize>)
    ensures
        keep(Seq::empty(), max_length) =~= Seq::empty(),
{
    Seq::<Seq<u8>>::empty().lemma_filter_len(|c: Seq<u8>| fits(c, max_length));
}

/// Every candidate that is kept fits, and was among the candidates given.
pub proof fn lemma_keep_members(items: Seq<Seq<u8>>, max_length: Option<usize>)
    ensures
        keep(items, max_length).len() <= items.len(),
        forall|i: int|
            0 <= i < keep(items, max_length).len() ==> fits(
                #[trigger] keep(items, max_length)[i],
                max_length,
            ) && items.contains(keep(items, max_length)[i]),
    decreases items.len(),
{
    if items.len() == 0 {
        lemma_keep_empty(max_length);
    } else {
        let tail = items.drop_first();
        lemma_keep_step(items, max_length);
        lemma_keep_members(tail, max_length);
        let kept = keep(items, max_length);
        assert forall|i: int| 0 <= i < kept.len() implies fits(#[trigger] kept[i], max_length)
            && items.contains(kept[i]) by {
            if fits(items[0], max_length) && i == 0 {
                assert(kept[i] == items[0]);
            } else {
                let j = if fits(items[0], max_length) { i - 1 } else { i };
                assert(kept[i] == keep(tail, max_length)[j]);
                assert(tail.contains(kept[i]));
                let k = choose|k: int| 0 <= k < tail.len() && tail[k] == kept[i];
                assert(items[k + 1] == kept[i]);
            }
        }
    }
}

/// A sequence in which every candidate fits is kept whole.
pub proof fn lemma_keep_all(items: Seq<Seq<u8>>, max_length: Option<usize>)
    requires
        forall|i: int| 0 <= i < items.len() ==> fits(#[trigger] items[i], max_length),
    ensures
        keep(items, max_length) =~= items,
    decreases items.len(),
{
    if items.len() > 0 {
        lemma_keep_step(items, max_length);
        lemma_keep_all(items.drop_first(), max_length);
    } else {
        lemma_keep_empty(max_length);
    }
}

/// Joining each tuple after dropping the first is dropping the first of the
/// joined tuples.
pub proof fn lemma_joined_drop_first(tuples: Seq<Seq<Seq<u8>>>)
    requires
        tuples.len() > 0,
    ensures
        joined(tuples).len() == tuples.len(),
        joined(tuples)[0] == join(tuples[0]),
        joined(tuples.drop_first()) =~= joined(tuples).drop_first(),
{
}

/// The scalar values of a range that starts above its end: none.
pub proof fn lemma_scalars_empty(low: u32, high: u32)
    requires
        low > high,
    ensures
        scalars(low, high) =~= Seq::empty(),
{
}

/// The scalar values of a range that starts at a scalar value begin with
/// it.
pub proof fn lemma_scalars_first(low: u32, high: u32)
    requires
        low <= high,
        is_scalar(low),
    ensures
        scalars(low, high) =~= seq![low] + (if low < high {
            scalars((low + 1) as u32, high)
        } else {
            Seq::empty()
        }),
{
}

/// No scalar value lies in the surrogate gap.
pub proof fn lemma_scalars_gap(low: u32, high: u32)
    requires
        0xD800 <= low <= 0xE000 <= high,
    ensures
        scalars(low, high) =~= scalars(0xE000, high),
    decreases 0xE000 - low,
{
    if low < 0xE000 {
        lemma_scalars_gap((low + 1) as u32, high);
    }
}

/// The byte values of a range in order begin with its start.
pub proof fn lemma_bytes_first(low: u8, high: u8)
    requires
        low <= high,
    ensures
        bytes(low, high) =~= seq![low] + (if low < high {
            bytes((low + 1) as u8, high)
        } else {
            Seq::empty()
        }),
{
}

/// Encoding goes element by element.
pub proof fn lemma_encoded_first(first: u32, others: Seq<u32>)
    ensures
        encoded(seq![first] + others).len() == others.len() + 1,
        encoded(seq![first] + others)[0] == encode_scalar(first),
        encoded(seq![first] + others).drop_first() =~= encoded(others),
{
}

/// Each byte becomes a candidate of its own, element by element.
pub proof fn lemma_single_bytes_first(first: u8, others: Seq<u8>)
    ensures
        single_bytes(seq![first] + others).len() == others.len() + 1,
        single_bytes(seq![first] + others)[0] == seq![first],
        single_bytes(seq![first] + others).drop_first() =~= single_bytes(others),
{
}

/// What follows an element of a sequence of sequences, flattened: the rest
/// of that element's successor and on.
pub proof fn lemma_flatten_skip<T>(parts: Seq<Seq<T>>, k: int)
    requires
        0 <= k < parts.len(),
    ensures
        parts.skip(k).flatten() =~= parts[k] + parts.skip(k + 1).flatten(),
{
    assert(parts.skip(k).drop_first() =~= parts.skip(k + 1));
}

/// The powers from `low` on begin with the power of `low`.
pub proof fn lemma_powers_first(items: Seq<Seq<u8>>, low: nat, high: nat)
    requires
        low <= high,
    ensures
        powers(items, low, high) == power(items, low) + powers(items, low + 1, high),
{
}

/// No powers lie above the highest.
pub proof fn lemma_powers_empty(items: Seq<Seq<u8>>, low: nat, high: nat)
    requires
        low > high,
    ensures
        powers(items, low, high) =~= Seq::empty(),
{
}

/// With something to repeat, every power holds something.
pub proof fn lemma_volume_copies(items: Seq<Seq<u8>>, count: nat)
    requires
        items.len() > 0,
    ensures
        volume(copies(items, count)) > 0,
    decreases count,
{
    if count > 0 {
        assert(copies(items, count).drop_first() =~= copies(items, (count - 1) as nat));
        lemma_volume_copies(items, (count - 1) as nat);
        let rest = volume(copies(items, (count - 1) as nat));
        assert(items.len() * rest > 0) by (nonlinear_arith)
            requires
                items.len() > 0,
                rest > 0,
        ;
    }
}

/// A power that holds nothing repeats nothing.
pub proof fn lemma_power_nothing(items: Seq<Seq<u8>>, count: nat)
    requires
        tuples(copies(items, count)).len() == 0,
    ensures
        items.len() == 0,
        count > 0,
{
    lemma_tuples_len(copies(items, count));
    if items.len() > 0 {
        lemma_volume_copies(items, count);
    }
}

/// With nothing to repeat, the powers from one on hold nothing.
pub proof fn lemma_powers_nothing(items: Seq<Seq<u8>>, low: nat, high: nat)
    requires
        items.len() == 0,
        low > 0,
    ensures
        powers(items, low, high) =~= Seq::empty(),
    decreases high + 1 - low,
{
    if low <= high {
        crate::radix::lemma_empty_dimension(copies(items, low), 0);
        lemma_powers_nothing(items, low + 1, high);
    }
}

} // verus!
