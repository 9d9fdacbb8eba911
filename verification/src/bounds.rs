//! A lower bound on the length of every candidate of a node, read off the
//! tree without enumerating anything.

use crate::classes::law_unicode_only;
use crate::encode::width;
use crate::model::{
    bytes, candidates, copies, dimensions, fits, join, joined, keep, power, powers, top, tuples,
    unfiltered, unicode_elements,
};
use crate::radix::lemma_tuples_len;
use crate::sequences::{lemma_keep_add, lemma_keep_empty, lemma_keep_members, lemma_keep_none};
use crate::syntax::{lemma_rank, rank, views, CharClass, Class, ScalarRange, SyntaxNode, Tree};
use vstd::prelude::*;
use vstd::utf8::is_scalar;

verus! {

/// The sum of a sequence of numbers.
pub open spec fn total(numbers: Seq<nat>) -> nat
    decreases numbers.len(),
{
    if numbers.len() == 0 {
        0
    } else {
        numbers[0] + total(numbers.drop_first())
    }
}

/// The smallest of the first `n` numbers; zero when `n` is zero.
pub open spec fn smallest(numbers: Seq<nat>, n: nat) -> nat
    decreases n,
{
    if n == 0 || n > numbers.len() {
        0
    } else if n == 1 {
        numbers[0]
    } else {
        let before = smallest(numbers, (n - 1) as nat);
        if numbers[n - 1] < before { numbers[n - 1] } else { before }
    }
}

/// The smallest width among the starts of the first `n` ranges; four, the
/// largest width there is, when `n` is zero.
pub open spec fn least_width(ranges: Seq<ScalarRange>, n: nat) -> nat
    decreases n,
{
    if n == 0 || n > ranges.len() {
        4
    } else {
        let here = width(ranges[n - 1].start as u32);
        let before = least_width(ranges, (n - 1) as nat);
        if here < before { here } else { before }
    }
}

/// The least length of each tree, tree by tree.
pub open spec fn least_lengths(trees: Seq<Tree>) -> Seq<nat>
    decreases trees, 1nat,
{
    Seq::new(
        trees.len(),
        |i: int|
            if 0 <= i < trees.len() {
                least_length(trees[i])
            } else {
                0
            },
    )
}

/// A length that no candidate of the tree falls below.
pub open spec fn least_length(tree: Tree) -> nat
    decreases tree, 0nat,
{
    match tree {
        Tree::Empty => 0,
        Tree::Lookaround => 0,
        Tree::Literal(bytes) => bytes.len(),
        Tree::Class(Class::Unicode(ranges)) => least_width(ranges, ranges.len()),
        Tree::Class(Class::Bytes(ranges)) => 1,
        Tree::Repetition { sub, min, max } => (min as nat) * least_length(*sub),
        Tree::Group(sub) => least_length(*sub),
        Tree::Concat(parts) => total(least_lengths(parts)),
        Tree::Alternation(branches) => smallest(least_lengths(branches), branches.len()),
    }
}

/// A number cut down to what a `usize` holds.
pub open spec fn clip(n: nat) -> nat {
    if n <= usize::MAX {
        n
    } else {
        usize::MAX as nat
    }
}

/// Whether every candidate of every dimension is at least as long as the
/// bound of its dimension.
pub open spec fn bounded_below(dims: Seq<Seq<Seq<u8>>>, lows: Seq<nat>) -> bool {
    &&& dims.len() == lows.len()
    &&& forall|k: int, j: int|
        0 <= k < dims.len() && 0 <= j < dims[k].len() ==> (#[trigger] dims[k][j]).len() >= lows[k]
}

/// A joined tuple is at least as long as the bounds of its dimensions add
/// up to.
pub proof fn lemma_tuple_lower(dims: Seq<Seq<Seq<u8>>>, lows: Seq<nat>, i: int)
    requires
        bounded_below(dims, lows),
        0 <= i < tuples(dims).len(),
    ensures
        join(tuples(dims)[i]).len() >= total(lows),
    decreases dims.len(),
{
    if dims.len() == 0 {
        assert(tuples(dims)[i] =~= Seq::<Seq<u8>>::empty());
    } else {
        let first = dims[0];
        let rest = dims.drop_first();
        let n = first.len() as int;
        lemma_tuples_len(dims);
        lemma_tuples_len(rest);
        let m = tuples(rest).len() as int;
        assert(n > 0 && m > 0) by (nonlinear_arith)
            requires
                0 <= i < n * m,
                n >= 0,
                m >= 0,
        ;
        assert(0 <= i / n < m) by (nonlinear_arith)
            requires
                0 <= i < n * m,
                n > 0,
        ;
        assert(0 <= i % n < n);
        assert(bounded_below(rest, lows.drop_first())) by {
            assert forall|k: int, j: int| 0 <= k < rest.len() && 0 <= j < rest[k].len() implies (
            #[trigger] rest[k][j]).len() >= lows.drop_first()[k] by {
                assert(rest[k][j] == dims[k + 1][j]);
            }
        }
        lemma_tuple_lower(rest, lows.drop_first(), i / n);
        let head = first[i % n];
        let tail = tuples(rest)[i / n];
        let tuple = tuples(dims)[i];
        assert(tuple == seq![head] + tail);
        assert(tuple.drop_first() =~= tail);
        assert(join(tuple) == head + join(tail));
        assert(head == dims[0][i % n]);
    }
}

/// The sum of `count` copies of one number is their product.
pub proof fn lemma_total_copies(count: nat, low: nat)
    ensures
        total(Seq::new(count, |i: int| low)) == count * low,
    decreases count,
{
    let all = Seq::new(count, |i: int| low);
    if count == 0 {
        assert(0 * low == 0);
    } else {
        assert(all.drop_first() =~= Seq::new((count - 1) as nat, |i: int| low));
        lemma_total_copies((count - 1) as nat, low);
        assert(low + (count - 1) * low == count * low) by (nonlinear_arith);
    }
}

/// Every candidate of a power is at least as long as the repeat count times
/// a lower bound of the candidates repeated.
pub proof fn lemma_power_lower(items: Seq<Seq<u8>>, count: nat, low: nat, i: int)
    requires
        forall|j: int| 0 <= j < items.len() ==> (#[trigger] items[j]).len() >= low,
        0 <= i < power(items, count).len(),
    ensures
        power(items, count)[i].len() >= count * low,
{
    let dims = copies(items, count);
    let lows = Seq::new(count, |k: int| low);
    assert(bounded_below(dims, lows));
    lemma_tuple_lower(dims, lows, i);
    lemma_total_copies(count, low);
}

/// With a length limit that the power of `low` already exceeds throughout,
/// nothing of the powers from `low` on is kept.
pub proof fn lemma_powers_too_long(
    items: Seq<Seq<u8>>,
    low: nat,
    high: nat,
    least: nat,
    limit: usize,
)
    requires
        forall|j: int| 0 <= j < items.len() ==> (#[trigger] items[j]).len() >= least,
        low * least > limit,
    ensures
        keep(powers(items, low, high), Some(limit)) =~= Seq::empty(),
    decreases high + 1 - low,
{
    if low > high {
        lemma_keep_empty(Some(limit));
    } else {
        let here = power(items, low);
        assert forall|i: int| 0 <= i < here.len() implies !fits(#[trigger] here[i], Some(limit)) by {
            lemma_power_lower(items, low, least, i);
        }
        lemma_keep_none(here, Some(limit));
        assert((low + 1) * least > limit) by (nonlinear_arith)
            requires
                low * least > limit,
        ;
        lemma_powers_too_long(items, low + 1, high, least, limit);
        lemma_keep_add(here, powers(items, low + 1, high), Some(limit));
    }
}

/// A scalar value is at least as wide as a smaller one.
pub proof fn lemma_width_grows(a: u32, b: u32)
    requires
        a <= b,
        is_scalar(a),
    ensures
        width(a) <= width(b),
{
}

/// The start of each of the ranges counted is at least as wide as the least
/// width.
pub proof fn lemma_least_width(ranges: Seq<ScalarRange>, n: nat, k: int)
    requires
        0 <= k < n <= ranges.len(),
    ensures
        least_width(ranges, n) <= width(ranges[k].start as u32),
    decreases n,
{
    if k < n - 1 {
        lemma_least_width(ranges, (n - 1) as nat, k);
    }
}

/// Every element of a Unicode class is at least as wide as the least width
/// of the class.
pub proof fn lemma_unicode_lower(ranges: Seq<ScalarRange>, i: int)
    requires
        0 <= i < unicode_elements(ranges, 0).len(),
    ensures
        width(unicode_elements(ranges, 0)[i]) >= least_width(ranges, ranges.len()),
{
    let k = law_unicode_only(ranges, 0, i);
    lemma_least_width(ranges, ranges.len(), k);
    lemma_width_grows(ranges[k].start as u32, unicode_elements(ranges, 0)[i]);
}

/// The smallest of the numbers counted is at most each of them.
pub proof fn lemma_smallest(numbers: Seq<nat>, n: nat, k: int)
    requires
        0 <= k < n <= numbers.len(),
    ensures
        smallest(numbers, n) <= numbers[k],
    decreases n,
{
    if n > 1 && k < n - 1 {
        lemma_smallest(numbers, (n - 1) as nat, k);
    }
}

/// An element of a flattened sequence comes from one of its parts.
pub proof fn lemma_flatten_member<T>(parts: Seq<Seq<T>>, i: int) -> (at: (int, int))
    requires
        0 <= i < parts.flatten().len(),
    ensures
        0 <= at.0 < parts.len(),
        0 <= at.1 < parts[at.0].len(),
        parts.flatten()[i] == parts[at.0][at.1],
    decreases parts.len(),
{
    if i < parts[0].len() {
        (0, i)
    } else {
        let at = lemma_flatten_member(parts.drop_first(), i - parts[0].len());
        (at.0 + 1, at.1)
    }
}

/// A candidate among the powers from `low` through `high` belongs to the
/// power of one count between them.
pub proof fn lemma_powers_member(items: Seq<Seq<u8>>, low: nat, high: nat, i: int) -> (at: (
    nat,
    int,
))
    requires
        0 <= i < powers(items, low, high).len(),
    ensures
        low <= at.0 <= high,
        0 <= at.1 < power(items, at.0).len(),
        powers(items, low, high)[i] == power(items, at.0)[at.1],
    decreases high + 1 - low,
{
    if i < power(items, low).len() {
        (low, i)
    } else {
        lemma_powers_member(items, low + 1, high, i - power(items, low).len())
    }
}

/// What a tree yields is never shorter than its least length.
pub proof fn lemma_unfiltered_lower(tree: Tree, max_length: Option<usize>, i: int)
    requires
        0 <= i < unfiltered(tree, max_length).len(),
    ensures
        unfiltered(tree, max_length)[i].len() >= least_length(tree),
    decreases tree, 0nat,
{
    match tree {
        Tree::Empty => {},
        Tree::Lookaround => {},
        Tree::Literal(bytes) => {},
        Tree::Class(Class::Unicode(ranges)) => {
            lemma_unicode_lower(ranges, i);
        },
        Tree::Class(Class::Bytes(ranges)) => {},
        Tree::Repetition { sub, min, max } => {
            let items = candidates(*sub, max_length);
            let low = least_length(*sub);
            let at = lemma_powers_member(items, min as nat, top(max), i);
            assert forall|j: int| 0 <= j < items.len() implies (#[trigger] items[j]).len()
                >= low by {
                lemma_candidates_lower(*sub, max_length, j);
            }
            lemma_power_lower(items, at.0, low, at.1);
            assert(at.0 * low >= min * low) by (nonlinear_arith)
                requires
                    at.0 >= min,
            ;
        },
        Tree::Group(sub) => {
            lemma_candidates_lower(*sub, max_length, i);
        },
        Tree::Concat(parts) => {
            let dims = dimensions(parts, max_length);
            let lows = least_lengths(parts);
            assert(bounded_below(dims, lows)) by {
                assert forall|k: int, j: int|
                    0 <= k < dims.len() && 0 <= j < dims[k].len() implies (
                #[trigger] dims[k][j]).len() >= lows[k] by {
                    lemma_candidates_lower(parts[k], max_length, j);
                }
            }
            lemma_tuple_lower(dims, lows, i);
        },
        Tree::Alternation(branches) => {
            let dims = dimensions(branches, max_length);
            let at = lemma_flatten_member(dims, i);
            lemma_candidates_lower(branches[at.0], max_length, at.1);
            lemma_smallest(least_lengths(branches), branches.len(), at.0);
        },
    }
}

/// No candidate of a tree is shorter than the least length of the tree.
pub proof fn lemma_candidates_lower(tree: Tree, max_length: Option<usize>, i: int)
    requires
        0 <= i < candidates(tree, max_length).len(),
    ensures
        candidates(tree, max_length)[i].len() >= least_length(tree),
    decreases tree, 1nat,
{
    let raw = unfiltered(tree, max_length);
    lemma_keep_members(raw, max_length);
    let c = candidates(tree, max_length)[i];
    assert(raw.contains(c));
    let j = choose|j: int| 0 <= j < raw.len() && raw[j] == c;
    lemma_unfiltered_lower(tree, max_length, j);
}

/// The sum of a sequence with one more number at its end.
pub proof fn lemma_total_push(numbers: Seq<nat>, last: nat)
    ensures
        total(numbers.push(last)) == total(numbers) + last,
    decreases numbers.len(),
{
    if numbers.len() == 0 {
        let tail = numbers.push(last).drop_first();
        assert(tail =~= Seq::<nat>::empty());
        assert(total(tail) == 0);
        assert(total(numbers) == 0);
    } else {
        assert(numbers.push(last).drop_first() =~= numbers.drop_first().push(last));
        lemma_total_push(numbers.drop_first(), last);
    }
}

/// The width of a scalar value, computed.
pub fn scalar_width(scalar: u32) -> (r: usize)
    ensures
        r == width(scalar),
{
    if scalar <= 0x7F {
        1
    } else if scalar <= 0x7FF {
        2
    } else if scalar <= 0xFFFF && !(0xD800 <= scalar && scalar <= 0xDFFF) {
        3
    } else {
        4
    }
}

/// Computes a length that no candidate of the node falls below: the least
/// length of the node, or the largest `usize` where that is smaller.
pub fn minimum_length(node: &SyntaxNode) -> (r: usize)
    ensures
        r == clip(least_length(node@)),
    decreases node@.height(), 1nat,
{
    match node {
        SyntaxNode::Empty => 0,
        SyntaxNode::Lookaround => 0,
        SyntaxNode::Literal(bytes) => bytes.len(),
        SyntaxNode::Class(CharClass::Unicode(ranges)) => {
            let mut least: usize = 4;
            let mut i: usize = 0;
            while i < ranges.len()
                invariant
                    i <= ranges.len(),
                    least == least_width(ranges@, i as nat),
                decreases ranges.len() - i,
            {
                let here = scalar_width(ranges[i].start as u32);
                if here < least {
                    least = here;
                }
                i += 1;
            }
            least
        },
        SyntaxNode::Class(CharClass::Bytes(ranges)) => 1,
        SyntaxNode::Repetition { sub, min, max } => {
            let each = minimum_length(sub);
            let count = *min as usize;
            assert(clip((min as nat) * least_length(sub@)) == clip(
                (count * clip(least_length(sub@))) as nat,
            )) by (nonlinear_arith)
                requires
                    count == min,
                    each == clip(least_length(sub@)),
            {
                let a = least_length(sub@);
                if a > usize::MAX && count >= 1 {
                    assert(count * a > usize::MAX);
                    assert(count * (usize::MAX as nat) >= usize::MAX);
                }
            }
            match count.checked_mul(each) {
                Some(product) => product,
                None => usize::MAX,
            }
        },
        SyntaxNode::Group(sub) => minimum_length(sub),
        SyntaxNode::Concat(parts) => {
            let mut sum: usize = 0;
            let mut i: usize = 0;
            while i < parts.len()
                invariant
                    i <= parts.len(),
                    sum == clip(total(least_lengths(views(parts@)).take(i as int))),
                    rank(views(parts@), parts@.len()) <= node@.height(),
                decreases parts.len() - i,
            {
                proof {
                    lemma_rank(views(parts@), parts@.len(), i as int);
                    let lows = least_lengths(views(parts@));
                    assert(lows.take(i + 1) =~= lows.take(i as int).push(lows[i as int]));
                    lemma_total_push(lows.take(i as int), lows[i as int]);
                }
                let here = minimum_length(&parts[i]);
                sum = sum.saturating_add(here);
                i += 1;
            }
            proof {
                let lows = least_lengths(views(parts@));
                assert(lows.take(parts@.len() as int) =~= lows);
            }
            sum
        },
        SyntaxNode::Alternation(branches) => {
            let mut least: usize = 0;
            let mut i: usize = 0;
            while i < branches.len()
                invariant
                    i <= branches.len(),
                    least == clip(smallest(least_lengths(views(branches@)), i as nat)),
                    rank(views(branches@), branches@.len()) <= node@.height(),
                decreases branches.len() - i,
            {
                proof {
                    lemma_rank(views(branches@), branches@.len(), i as int);
                }
                let here = minimum_length(&branches[i]);
                if i == 0 || here < least {
                    least = here;
                }
                i += 1;
            }
            least
        },
    }
}

} // verus!
