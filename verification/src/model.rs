//! What an enumeration yields, as mathematical sequences.
//!
//! A candidate is a `Seq<u8>`. The candidates of a tree form a sequence, in
//! the order in which they are produced. The sequence is finite: a
//! repetition without an upper bound counts through the largest `usize`, as
//! far as a machine can count and further than any run gets.

use crate::syntax::{ByteRange, Class, ScalarRange, Tree};
use vstd::prelude::*;
use vstd::utf8::{encode_scalar, is_scalar};

verus! {

/// Whether a candidate is within the length limit, if there is one.
pub open spec fn fits(candidate: Seq<u8>, max_length: Option<usize>) -> bool {
    match max_length {
        Some(limit) => candidate.len() <= limit,
        None => true,
    }
}

/// The candidates of `items` that are within the length limit, in order.
pub open spec fn keep(items: Seq<Seq<u8>>, max_length: Option<usize>) -> Seq<Seq<u8>> {
    items.filter(|c: Seq<u8>| fits(c, max_length))
}

/// The number of tuples that choose one element from each dimension.
pub open spec fn volume<T>(dims: Seq<Seq<T>>) -> nat
    decreases dims.len(),
{
    if dims.len() == 0 {
        1
    } else {
        dims[0].len() * volume(dims.drop_first())
    }
}

/// Every tuple that chooses one element from each dimension, counted in
/// mixed radix: dimension 0 is the least significant digit and changes
/// fastest. Without dimensions there is one tuple, the empty one.
pub open spec fn tuples<T>(dims: Seq<Seq<T>>) -> Seq<Seq<T>>
    decreases dims.len(),
{
    if dims.len() == 0 {
        seq![Seq::empty()]
    } else {
        let first = dims[0];
        let rest = tuples(dims.drop_first());
        Seq::new(
            first.len() * rest.len(),
            |i: int| seq![first[i % (first.len() as int)]] + rest[i / (first.len() as int)],
        )
    }
}

/// The elements of a tuple, one after the other.
pub open spec fn join(tuple: Seq<Seq<u8>>) -> Seq<u8> {
    tuple.flatten()
}

/// Each tuple joined into one candidate.
pub open spec fn joined(tuples: Seq<Seq<Seq<u8>>>) -> Seq<Seq<u8>> {
    tuples.map_values(|t: Seq<Seq<u8>>| join(t))
}

/// `count` copies of one sequence, as the dimensions of a product.
pub open spec fn copies(items: Seq<Seq<u8>>, count: nat) -> Seq<Seq<Seq<u8>>> {
    Seq::new(count, |i: int| items)
}

/// The `count`-fold product of a sequence with itself, each tuple joined.
pub open spec fn power(items: Seq<Seq<u8>>, count: nat) -> Seq<Seq<u8>> {
    joined(tuples(copies(items, count)))
}

/// The powers of a sequence from `low` through `high`, one after the other.
pub open spec fn powers(items: Seq<Seq<u8>>, low: nat, high: nat) -> Seq<Seq<u8>>
    decreases high + 1 - low,
{
    if low > high {
        Seq::empty()
    } else {
        power(items, low) + powers(items, low + 1, high)
    }
}

/// The Unicode scalar values from `low` through `high`, ascending.
pub open spec fn scalars(low: u32, high: u32) -> Seq<u32>
    decreases high + 1 - low,
{
    if low > high {
        Seq::empty()
    } else if low == high {
        if is_scalar(low) { seq![low] } else { Seq::empty() }
    } else {
        (if is_scalar(low) { seq![low] } else { Seq::empty() }) + scalars((low + 1) as u32, high)
    }
}

/// The byte values from `low` through `high`, ascending.
pub open spec fn bytes(low: u8, high: u8) -> Seq<u8> {
    if low > high {
        Seq::empty()
    } else {
        Seq::new((high - low + 1) as nat, |i: int| (low + i) as u8)
    }
}

/// The scalar values that the ranges from index `from` on cover, range by
/// range.
pub open spec fn unicode_elements(ranges: Seq<ScalarRange>, from: nat) -> Seq<u32>
    decreases ranges.len() - from,
{
    if from >= ranges.len() {
        Seq::empty()
    } else {
        scalars(ranges[from as int].start as u32, ranges[from as int].end as u32)
            + unicode_elements(ranges, from + 1)
    }
}

/// The byte values that the ranges from index `from` on cover, range by
/// range.
pub open spec fn byte_elements(ranges: Seq<ByteRange>, from: nat) -> Seq<u8>
    decreases ranges.len() - from,
{
    if from >= ranges.len() {
        Seq::empty()
    } else {
        bytes(ranges[from as int].start, ranges[from as int].end) + byte_elements(
            ranges,
            from + 1,
        )
    }
}

/// Each scalar value in its UTF-8 form.
pub open spec fn encoded(elements: Seq<u32>) -> Seq<Seq<u8>> {
    elements.map_values(|v: u32| encode_scalar(v))
}

/// Each byte as a candidate of its own.
pub open spec fn single_bytes(elements: Seq<u8>) -> Seq<Seq<u8>> {
    elements.map_values(|b: u8| seq![b])
}

/// One candidate per element of the class: a scalar value in its UTF-8
/// form, a raw byte as itself.
pub open spec fn class_items(class: Class) -> Seq<Seq<u8>> {
    match class {
        Class::Unicode(ranges) => encoded(unicode_elements(ranges, 0)),
        Class::Bytes(ranges) => single_bytes(byte_elements(ranges, 0)),
    }
}

/// The highest repeat count of a repetition: its upper bound, or, without
/// one, the largest count that the machine can hold.
pub open spec fn top(max: Option<u32>) -> nat {
    match max {
        Some(m) => m as nat,
        None => usize::MAX as nat,
    }
}

/// The candidates of each tree, tree by tree.
pub open spec fn dimensions(trees: Seq<Tree>, max_length: Option<usize>) -> Seq<Seq<Seq<u8>>>
    decreases trees, 2nat,
{
    Seq::new(
        trees.len(),
        |i: int|
            if 0 <= i < trees.len() {
                candidates(trees[i], max_length)
            } else {
                Seq::empty()
            },
    )
}

/// What a tree yields before the final pass over the length limit.
pub open spec fn unfiltered(tree: Tree, max_length: Option<usize>) -> Seq<Seq<u8>>
    decreases tree, 0nat,
{
    match tree {
        Tree::Empty => seq![Seq::empty()],
        Tree::Lookaround => seq![Seq::empty()],
        Tree::Literal(bytes) => seq![bytes],
        Tree::Class(class) => class_items(class),
        Tree::Repetition { sub, min, max } => powers(
            candidates(*sub, max_length),
            min as nat,
            top(max),
        ),
        Tree::Group(sub) => candidates(*sub, max_length),
        Tree::Concat(parts) => joined(tuples(dimensions(parts, max_length))),
        Tree::Alternation(branches) => dimensions(branches, max_length).flatten(),
    }
}

/// The candidates of a tree, in the order in which they are produced: what
/// the tree yields, without the candidates longer than `max_length`.
pub open spec fn candidates(tree: Tree, max_length: Option<usize>) -> Seq<Seq<u8>>
    decreases tree, 1nat,
{
    keep(unfiltered(tree, max_length), max_length)
}

} // verus!
