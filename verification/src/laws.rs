//! What holds of every enumeration, stated over the model and proved.

use crate::encode::width;
use crate::model::{
    byte_elements, bytes, candidates, class_items, copies, dimensions, fits, join, joined, keep,
    power, powers, tuples, unfiltered, unicode_elements, volume,
};
use crate::radix::{
    chosen, in_range, lemma_empty_dimension, lemma_tuple_at, lemma_tuples_len, position,
};
use crate::sequences::{lemma_keep_add, lemma_keep_all, lemma_keep_members};
use crate::syntax::{ByteRange, Class, ScalarRange, Tree};
use vstd::arithmetic::div_mod::{lemma_div_denominator, lemma_fundamental_div_mod};
use vstd::prelude::*;
use vstd::utf8::encode_scalar;

verus! {

/// A literal within the length limit yields one candidate: its bytes.
pub proof fn law_literal(bytes: Seq<u8>, max_length: Option<usize>)
    requires
        fits(bytes, max_length),
    ensures
        candidates(Tree::Literal(bytes), max_length) == seq![bytes],
{
    lemma_keep_all(seq![bytes], max_length);
}

/// The empty node and a look-around assertion each yield one candidate, the
/// empty one, whatever the length limit.
pub proof fn law_empty(max_length: Option<usize>)
    ensures
        candidates(Tree::Empty, max_length) == seq![Seq::<u8>::empty()],
        candidates(Tree::Lookaround, max_length) == seq![Seq::<u8>::empty()],
{
    lemma_keep_all(seq![Seq::<u8>::empty()], max_length);
}

/// Filtering what was filtered changes nothing.
pub proof fn law_keep_twice(items: Seq<Seq<u8>>, max_length: Option<usize>)
    ensures
        keep(keep(items, max_length), max_length) == keep(items, max_length),
{
    lemma_keep_members(items, max_length);
    lemma_keep_all(keep(items, max_length), max_length);
}

/// Every candidate of a tree is within the length limit.
pub proof fn law_within_limit(tree: Tree, max_length: Option<usize>, i: int)
    requires
        0 <= i < candidates(tree, max_length).len(),
    ensures
        fits(candidates(tree, max_length)[i], max_length),
{
    lemma_keep_members(unfiltered(tree, max_length), max_length);
}

/// A group yields what the tree inside it yields.
pub proof fn law_group(sub: Tree, max_length: Option<usize>)
    ensures
        candidates(Tree::Group(Box::new(sub)), max_length) == candidates(sub, max_length),
{
    law_keep_twice(unfiltered(sub, max_length), max_length);
}

/// Under a length limit of four bytes or more, or none, a Unicode class
/// yields one candidate per element, in order: the UTF-8 form of the
/// element, as long as the element is wide.
pub proof fn law_unicode_class(ranges: Seq<ScalarRange>, max_length: Option<usize>, i: int)
    requires
        max_length matches Some(limit) ==> limit >= 4,
        0 <= i < unicode_elements(ranges, 0).len(),
    ensures
        candidates(Tree::Class(Class::Unicode(ranges)), max_length).len() == unicode_elements(
            ranges,
            0,
        ).len(),
        candidates(Tree::Class(Class::Unicode(ranges)), max_length)[i] == encode_scalar(
            unicode_elements(ranges, 0)[i],
        ),
        candidates(Tree::Class(Class::Unicode(ranges)), max_length)[i].len() == width(
            unicode_elements(ranges, 0)[i],
        ),
{
    let items = class_items(Class::Unicode(ranges));
    lemma_keep_all(items, max_length);
}

/// A byte class yields one candidate per element, in order: the byte
/// itself. A length limit of zero leaves none of them.
pub proof fn law_byte_class(ranges: Seq<ByteRange>, max_length: Option<usize>, i: int)
    requires
        max_length matches Some(limit) ==> limit >= 1,
        0 <= i < byte_elements(ranges, 0).len(),
    ensures
        candidates(Tree::Class(Class::Bytes(ranges)), max_length).len() == byte_elements(
            ranges,
            0,
        ).len(),
        candidates(Tree::Class(Class::Bytes(ranges)), max_length)[i] == seq![
            byte_elements(ranges, 0)[i],
        ],
{
    let items = class_items(Class::Bytes(ranges));
    lemma_keep_all(items, max_length);
}

/// A repetition with an upper bound yields the powers of what is repeated,
/// from the lower bound through the upper, one after the other: each power
/// the joined tuples of that many copies, in mixed-radix order.
pub proof fn law_repetition(sub: Tree, min: u32, max: u32, max_length: Option<usize>)
    ensures
        candidates(Tree::Repetition { sub: Box::new(sub), min, max: Some(max) }, max_length)
            == keep(powers(candidates(sub, max_length), min as nat, max as nat), max_length),
        forall|count: nat| #[trigger]
            power(candidates(sub, max_length), count) == joined(
                tuples(copies(candidates(sub, max_length), count)),
            ),
{
}

/// The tuples of a product stand in mixed-radix order, dimension 0 the
/// least significant: the tuple at position `i` takes from dimension `k`
/// the element at `i`, divided by the number of tuples of the dimensions
/// before `k`, modulo the length of dimension `k`.
pub proof fn law_mixed_radix<T>(dims: Seq<Seq<T>>, i: int, k: int)
    requires
        0 <= i < volume(dims),
        0 <= k < dims.len(),
    ensures
        tuples(dims).len() == volume(dims),
        tuples(dims)[i].len() == dims.len(),
        dims[k].len() > 0,
        volume(dims.take(k)) > 0,
        tuples(dims)[i][k] == dims[k][(i / (volume(dims.take(k)) as int)) % (dims[k].len() as int)],
    decreases dims.len(),
{
    let first = dims[0];
    let rest = dims.drop_first();
    let n = first.len() as int;
    lemma_tuples_len(dims);
    lemma_tuples_len(rest);
    let m = volume(rest) as int;
    assert(n > 0 && m > 0) by (nonlinear_arith)
        requires
            0 <= i < n * m,
            n >= 0,
            m >= 0,
    ;
    assert(0 <= i / n < m) by (nonlinear_arith)
        requires
            0 <= i < n * m,
            n > 0,
    ;
    let tuple = tuples(dims)[i];
    assert(tuple == seq![first[i % n]] + tuples(rest)[i / n]);
    if rest.len() == 0 {
        assert(tuples(rest)[i / n].len() == 0);
    } else {
        law_mixed_radix(rest, i / n, 0);
    }
    if k == 0 {
        assert(dims.take(0) =~= Seq::<Seq<T>>::empty());
        assert(volume(dims.take(0)) == 1);
    } else {
        law_mixed_radix(rest, i / n, k - 1);
        let before = volume(rest.take(k - 1)) as int;
        assert(dims.take(k).drop_first() =~= rest.take(k - 1));
        assert(volume(dims.take(k)) == n * before);
        assert(n * before > 0) by (nonlinear_arith)
            requires
                n > 0,
                before > 0,
        ;
        lemma_div_denominator(i, n, before);
        assert(tuple[k] == tuples(rest)[i / n][k - 1]);
    }
}

/// A concatenation of two parts yields, before the pass over the length
/// limit, every candidate of the first followed by every candidate of the
/// second, each pair at a position of its own: the first part changes
/// fastest.
pub proof fn law_concat_pair(
    first: Tree,
    second: Tree,
    max_length: Option<usize>,
    i: int,
    j: int,
)
    requires
        0 <= i < candidates(first, max_length).len(),
        0 <= j < candidates(second, max_length).len(),
    ensures
        unfiltered(Tree::Concat(seq![first, second]), max_length).len() == candidates(
            first,
            max_length,
        ).len() * candidates(second, max_length).len(),
        0 <= i + candidates(first, max_length).len() * j < unfiltered(
            Tree::Concat(seq![first, second]),
            max_length,
        ).len(),
        unfiltered(Tree::Concat(seq![first, second]), max_length)[i + candidates(
            first,
            max_length,
        ).len() * j] == candidates(first, max_length)[i] + candidates(second, max_length)[j],
        candidates(Tree::Concat(seq![first, second]), max_length) == keep(
            unfiltered(Tree::Concat(seq![first, second]), max_length),
            max_length,
        ),
{
    let a = candidates(first, max_length);
    let b = candidates(second, max_length);
    let dims = dimensions(seq![first, second], max_length);
    assert(dims =~= seq![a, b]);
    let digits = seq![i, j];
    assert(in_range(dims, digits));
    lemma_tuple_at(dims, digits);
    lemma_tuples_len(dims);
    let rest = dims.drop_first();
    assert(rest =~= seq![b]);
    assert(rest.drop_first() =~= Seq::<Seq<Seq<u8>>>::empty());
    assert(volume(rest.drop_first()) == 1);
    assert(volume(rest) == b.len() * 1);
    assert(volume(dims) == a.len() * b.len()) by {
        assert(b.len() * 1 == b.len());
    }
    assert(position(rest.drop_first(), digits.drop_first().drop_first()) == 0);
    assert(position(rest, digits.drop_first()) == j + b.len() * 0);
    assert(position(dims, digits) == i + a.len() * j) by {
        assert(b.len() * 0 == 0);
    }
    let tuple = chosen(dims, digits);
    assert(tuple =~= seq![a[i], b[j]]);
    assert(join(tuple) =~= a[i] + b[j]) by {
        assert(tuple.drop_first() =~= seq![b[j]]);
        assert(tuple.drop_first().drop_first() =~= Seq::<Seq<u8>>::empty());
        assert(join(tuple.drop_first().drop_first()) =~= Seq::<u8>::empty());
        assert(join(tuple.drop_first()) =~= b[j] + Seq::<u8>::empty());
    }
}

/// An alternation of two branches yields every candidate of the first, then
/// every candidate of the second: nothing of one is combined with anything
/// of the other.
pub proof fn law_alternation_pair(first: Tree, second: Tree, max_length: Option<usize>)
    ensures
        candidates(Tree::Alternation(seq![first, second]), max_length) == candidates(
            first,
            max_length,
        ) + candidates(second, max_length),
{
    let a = candidates(first, max_length);
    let b = candidates(second, max_length);
    let dims = dimensions(seq![first, second], max_length);
    assert(dims =~= seq![a, b]);
    assert(dims.drop_first() =~= seq![b]);
    assert(dims.drop_first().drop_first() =~= Seq::<Seq<Seq<u8>>>::empty());
    assert(dims.drop_first().drop_first().flatten() =~= Seq::<Seq<u8>>::empty());
    assert(dims.drop_first().flatten() =~= b);
    assert(dims.flatten() =~= a + b);
    lemma_keep_add(a, b, max_length);
    law_keep_twice(unfiltered(first, max_length), max_length);
    law_keep_twice(unfiltered(second, max_length), max_length);
}

/// Every candidate that a concatenation of two parts yields before the pass
/// over the length limit is a candidate of the first part followed by one
/// of the second: at position `p`, those at `p` modulo and `p` divided by
/// the number of candidates of the first part.
pub proof fn law_concat_pair_at(first: Tree, second: Tree, max_length: Option<usize>, p: int)
    requires
        0 <= p < unfiltered(Tree::Concat(seq![first, second]), max_length).len(),
    ensures
        candidates(first, max_length).len() > 0,
        0 <= p / (candidates(first, max_length).len() as int) < candidates(
            second,
            max_length,
        ).len(),
        unfiltered(Tree::Concat(seq![first, second]), max_length)[p] == candidates(
            first,
            max_length,
        )[p % (candidates(first, max_length).len() as int)] + candidates(second, max_length)[p / (
        candidates(first, max_length).len() as int)],
{
    let a = candidates(first, max_length);
    let b = candidates(second, max_length);
    let dims = dimensions(seq![first, second], max_length);
    assert(dims =~= seq![a, b]);
    lemma_tuples_len(dims);
    let rest = dims.drop_first();
    assert(rest =~= seq![b]);
    assert(rest.drop_first() =~= Seq::<Seq<Seq<u8>>>::empty());
    assert(volume(rest.drop_first()) == 1);
    assert(volume(rest) == b.len() * 1);
    assert(b.len() * 1 == b.len());
    let n = a.len() as int;
    let m = b.len() as int;
    assert(n > 0 && m > 0) by (nonlinear_arith)
        requires
            0 <= p < n * m,
            n >= 0,
            m >= 0,
    ;
    assert(0 <= p / n < m) by (nonlinear_arith)
        requires
            0 <= p < n * m,
            n > 0,
    ;
    lemma_fundamental_div_mod(p, n);
    law_concat_pair(first, second, max_length, p % n, p / n);
}

/// Without a length limit nothing is filtered out.
pub proof fn law_unlimited(tree: Tree)
    ensures
        candidates(tree, None) == unfiltered(tree, None),
{
    lemma_keep_all(unfiltered(tree, None), None);
}

/// Without dimensions a product has one tuple, the empty one.
pub proof fn law_no_dimension<T>()
    ensures
        tuples(Seq::<Seq<T>>::empty()) == seq![Seq::<T>::empty()],
{
}

/// With an empty dimension a product has no tuple.
pub proof fn law_empty_dimension<T>(dims: Seq<Seq<T>>, k: int)
    requires
        0 <= k < dims.len(),
        dims[k].len() == 0,
    ensures
        tuples(dims) == Seq::<Seq<T>>::empty(),
{
    lemma_empty_dimension(dims, k);
    assert(tuples(dims) =~= Seq::<Seq<T>>::empty());
}

} // verus!
