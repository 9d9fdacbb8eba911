//! The enumeration engine: lazy sequences of candidates and the odometer
//! that multiplies them.
//!
//! A [`Candidates`] value is a cursor into the candidates of one node. It
//! holds what it needs to go on and nothing else: for a concatenation or a
//! repetition a [`MultiCartesianProduct`], which in turn holds one cursor and
//! one head per dimension.

use crate::bounds::{least_length, lemma_candidates_lower, lemma_powers_too_long, minimum_length};
use crate::model::{
    candidates, copies, dimensions, joined, keep, powers, top, tuples, unfiltered,
};
use crate::radix::{
    chosen, in_range, lemma_empty_dimension, lemma_position_carry, lemma_position_last,
    lemma_position_zero, lemma_tuple_at, lemma_tuples_len, position,
};
use crate::sequences::{
    lemma_flatten_skip, lemma_joined_drop_first, lemma_keep_empty, lemma_keep_step,
    lemma_power_nothing, lemma_powers_empty, lemma_powers_first, lemma_powers_nothing,
};
use crate::syntax::{lemma_rank, rank, views, SyntaxNode};
use crate::tuple::{copy_bytes, copy_tuple, join_tuple, within};
use crate::walk::{class_at, class_len, class_rest, class_seek, class_step};
use vstd::prelude::*;

verus! {

/// Makes fresh sequences of the candidates of one node: each one yields the
/// same candidates in the same order.
#[derive(Clone, Copy)]
pub struct Factory<'a> {
    pub node: &'a SyntaxNode,
    pub max_length: Option<usize>,
}

impl<'a> Factory<'a> {
    /// The candidates that every sequence of this factory yields.
    pub open spec fn items(&self) -> Seq<Seq<u8>> {
        candidates(self.node@, self.max_length)
    }
}

/// The candidates of each factory, factory by factory.
pub open spec fn factory_dims(factories: Seq<Factory>) -> Seq<Seq<Seq<u8>>> {
    Seq::new(factories.len(), |i: int| factories[i].items())
}

/// The largest height among the nodes of the first `n` factories, plus one.
pub open spec fn reach(factories: Seq<Factory>, n: nat) -> nat
    decreases n,
{
    if n == 0 || n > factories.len() {
        0
    } else {
        let here = factories[n - 1].node@.height() + 1;
        let before = reach(factories, (n - 1) as nat);
        if here > before { here } else { before }
    }
}

/// The factories of a concatenation: one per part.
spec fn part_factories<'a>(parts: Seq<SyntaxNode>, max_length: Option<usize>) -> Seq<
    Factory<'a>,
> {
    Seq::new(parts.len(), |i: int| Factory { node: &parts[i], max_length })
}

/// The factories of one repeat count: the same factory `count` times.
spec fn copy_factories<'a>(factory: Factory<'a>, count: nat) -> Seq<Factory<'a>> {
    Seq::new(count, |i: int| factory)
}

/// Where a sequence stands in its node.
#[allow(inconsistent_fields)]
enum State<'a> {
    /// A node with one candidate, and whether it was drawn.
    Once { done: bool },
    /// A class: the range in turn and the next value of it.
    Class { range: usize, value: u32 },
    /// A repetition: the repeat count in turn, a length that no candidate of
    /// what is repeated falls below, and the product for the count in turn,
    /// or no product once every count is through.
    Repeat { count: usize, least: usize, product: Option<MultiCartesianProduct<'a>> },
    /// A group: the sequence of what it holds.
    Group { inner: Box<Candidates<'a>> },
    /// A concatenation: the product of its parts.
    Concat { product: MultiCartesianProduct<'a> },
    /// An alternation: the branch in turn and its sequence, or none once
    /// every branch is through.
    Alternation { branch: usize, current: Option<Box<Candidates<'a>>> },
}

/// A lazy sequence of the candidates of one node, pulled one at a time.
pub struct Candidates<'a> {
    source: Factory<'a>,
    state: State<'a>,
    taken: Ghost<Seq<Seq<u8>>>,
}

/// A lazy product of sequences: every tuple of one candidate per factory,
/// dimension 0 changing fastest.
pub struct MultiCartesianProduct<'a> {
    factories: Vec<Factory<'a>>,
    iters: Vec<Candidates<'a>>,
    heads: Vec<Vec<u8>>,
    done: bool,
}

/// What a repetition has yet to draw: the tuples left of the product for
/// the count in turn, joined, then the powers of the counts after it.
spec fn repeat_rest(
    items: Seq<Seq<u8>>,
    high: nat,
    count: usize,
    product: Option<MultiCartesianProduct>,
) -> Seq<Seq<u8>>
    decreases product, 2nat,
{
    match product {
        Some(p) => joined(p.view()) + powers(items, (count + 1) as nat, high),
        None => Seq::empty(),
    }
}

/// Whether the state of a repetition fits it: the count in turn lies within
/// the bounds, and the product is that of `count` copies.
spec fn repeat_inv(
    inner: Factory,
    min: u32,
    max: Option<u32>,
    count: usize,
    least: usize,
    product: Option<MultiCartesianProduct>,
) -> bool
    decreases product, 2nat,
{
    match product {
        Some(p) => {
            &&& min <= count <= top(max)
            &&& least <= least_length(inner.node@)
            &&& p.wf()
            &&& p.factories@ == copy_factories(inner, count as nat)
        },
        None => true,
    }
}

/// What an alternation has yet to draw: what is left of the branch in turn,
/// then the candidates of the branches after it.
spec fn alternation_rest(
    dims: Seq<Seq<Seq<u8>>>,
    branch: usize,
    current: Option<Box<Candidates>>,
) -> Seq<Seq<u8>>
    decreases current, 2nat,
{
    match current {
        Some(c) => c.view() + dims.skip(branch + 1).flatten(),
        None => Seq::empty(),
    }
}

/// Whether the state of an alternation fits it: the sequence in turn is
/// that of the branch in turn.
spec fn alternation_inv(
    branches: Seq<SyntaxNode>,
    max_length: Option<usize>,
    branch: usize,
    current: Option<Box<Candidates>>,
) -> bool
    decreases current, 2nat,
{
    match current {
        Some(c) => {
            &&& branch < branches.len()
            &&& c.wf()
            &&& c.source == Factory { node: &branches[branch as int], max_length }
        },
        None => true,
    }
}

impl<'a> Candidates<'a> {
    /// The factory that made this sequence.
    pub closed spec fn source(&self) -> Factory<'a> {
        self.source
    }

    /// The candidates pulled so far.
    pub closed spec fn emitted(&self) -> Seq<Seq<u8>> {
        self.taken@
    }

    /// What is still to be drawn, before the pass over the length limit.
    spec fn rest(&self) -> Seq<Seq<u8>>
        decreases self, 0nat,
    {
        let max_length = self.source.max_length;
        match (self.state, *self.source.node) {
            (State::Once { done }, _) => if done {
                Seq::empty()
            } else {
                unfiltered(self.source.node@, max_length)
            },
            (State::Class { range, value }, SyntaxNode::Class(class)) => class_rest(
                class@,
                range as nat,
                value,
            ),
            (
                State::Repeat { count, least, product },
                SyntaxNode::Repetition { sub, min, max },
            ) => repeat_rest(candidates(sub@, max_length), top(max), count, product),
            (State::Group { inner }, _) => inner.view(),
            (State::Concat { product }, _) => joined(product.view()),
            (
                State::Alternation { branch, current },
                SyntaxNode::Alternation(branches),
            ) => alternation_rest(dimensions(views(branches@), max_length), branch, current),
            _ => Seq::empty(),
        }
    }

    /// The candidates still to come, in order.
    pub closed spec fn view(&self) -> Seq<Seq<u8>>
        decreases self, 1nat,
    {
        keep(self.rest(), self.source.max_length)
    }

    /// Whether the state fits the node and every sequence below is well
    /// formed.
    spec fn inv(&self) -> bool
        decreases self, 0nat,
    {
        let max_length = self.source.max_length;
        match (self.state, *self.source.node) {
            (State::Once { done }, SyntaxNode::Empty) => true,
            (State::Once { done }, SyntaxNode::Lookaround) => true,
            (State::Once { done }, SyntaxNode::Literal(_)) => true,
            (State::Class { range, value }, SyntaxNode::Class(class)) => class_at(
                class@,
                range as nat,
                value,
            ),
            (
                State::Repeat { count, least, product },
                SyntaxNode::Repetition { sub, min, max },
            ) => repeat_inv(Factory { node: &*sub, max_length }, min, max, count, least, product),
            (State::Group { inner }, SyntaxNode::Group(sub)) => {
                &&& inner.wf()
                &&& inner.source == Factory { node: &*sub, max_length }
            },
            (State::Concat { product }, SyntaxNode::Concat(parts)) => {
                &&& product.wf()
                &&& product.factories@ == part_factories(parts@, max_length)
            },
            (
                State::Alternation { branch, current },
                SyntaxNode::Alternation(branches),
            ) => alternation_inv(branches@, max_length, branch, current),
            _ => false,
        }
    }

    /// Whether this sequence is well formed: its state fits its node, and
    /// what was pulled and what is still to come make up the candidates of
    /// the node.
    pub closed spec fn wf(&self) -> bool
        decreases self, 1nat,
    {
        &&& self.inv()
        &&& self.taken@ + self.view() == self.source.items()
    }
}

impl<'a> MultiCartesianProduct<'a> {
    /// The factories of the dimensions.
    pub closed spec fn factories(&self) -> Seq<Factory<'a>> {
        self.factories@
    }

    /// The candidates of each dimension.
    pub open spec fn dims(&self) -> Seq<Seq<Seq<u8>>> {
        factory_dims(self.factories())
    }

    /// The digit of each dimension: the place of its head in its sequence.
    spec fn digits(&self) -> Seq<int>
        decreases self, 0nat,
    {
        Seq::new(
            self.iters@.len(),
            |i: int|
                if 0 <= i < self.iters@.len() {
                    self.iters@[i].taken@.len() - 1
                } else {
                    0
                },
        )
    }

    /// Whether this product is well formed: unless it is exhausted, every
    /// dimension holds a live sequence and the head drawn from it last.
    pub closed spec fn wf(&self) -> bool
        decreases self, 0nat,
    {
        self.done || {
            &&& self.iters@.len() == self.factories@.len()
            &&& self.heads@.len() == self.factories@.len()
            &&& forall|i: int|
                0 <= i < self.iters@.len() ==> {
                    &&& (#[trigger] self.iters@[i]).wf()
                    &&& self.iters@[i].source == self.factories@[i]
                    &&& self.iters@[i].taken@.len() >= 1
                    &&& self.heads@[i]@ == self.iters@[i].taken@.last()
                }
        }
    }

    /// The tuples still to come, in order: all tuples of the dimensions from
    /// the one that the digits spell.
    pub closed spec fn view(&self) -> Seq<Seq<Seq<u8>>>
        decreases self, 0nat,
    {
        if self.done {
            Seq::empty()
        } else {
            tuples(self.dims()).skip(position(self.dims(), self.digits()))
        }
    }
}

/// Every factory counted by `reach` has a node lower than the reach.
proof fn lemma_reach(factories: Seq<Factory>, n: nat, i: int)
    requires
        0 <= i < n <= factories.len(),
    ensures
        factories[i].node@.height() < reach(factories, n),
    decreases n,
{
    if i < n - 1 {
        lemma_reach(factories, (n - 1) as nat, i);
    }
}

/// The factories of the parts of a concatenation reach as high as the
/// parts rank.
proof fn lemma_reach_parts(parts: Seq<SyntaxNode>, max_length: Option<usize>, n: nat)
    requires
        n <= parts.len(),
    ensures
        reach(part_factories(parts, max_length), n) == rank(views(parts), n),
    decreases n,
{
    if n > 0 {
        lemma_reach_parts(parts, max_length, (n - 1) as nat);
    }
}

/// Copies of one factory reach no higher than its node, plus one.
proof fn lemma_reach_copies(factory: Factory, count: nat, n: nat)
    requires
        n <= count,
    ensures
        reach(copy_factories(factory, count), n) <= factory.node@.height() + 1,
    decreases n,
{
    if n > 0 {
        lemma_reach_copies(factory, count, (n - 1) as nat);
    }
}

/// The same factory, `count` times.
fn repeat_factories<'a>(factory: Factory<'a>, count: usize) -> (r: Vec<Factory<'a>>)
    ensures
        r@ == copy_factories(factory, count as nat),
{
    let mut out: Vec<Factory<'a>> = Vec::new();
    let mut i: usize = 0;
    while i < count
        invariant
            i <= count,
            out.len() == i,
            forall|j: int| 0 <= j < i ==> out[j] == factory,
        decreases count - i,
    {
        out.push(factory);
        i += 1;
    }
    assert(out@ =~= copy_factories(factory, count as nat));
    out
}

/// One factory per part of a concatenation.
fn concat_factories<'a>(parts: &'a Vec<SyntaxNode>, max_length: Option<usize>) -> (r: Vec<
    Factory<'a>,
>)
    ensures
        r@ == part_factories(parts@, max_length),
{
    let mut out: Vec<Factory<'a>> = Vec::new();
    let mut i: usize = 0;
    while i < parts.len()
        invariant
            i <= parts.len(),
            out.len() == i,
            forall|j: int| 0 <= j < i ==> out[j] == (Factory { node: &parts@[j], max_length }),
        decreases parts.len() - i,
    {
        out.push(Factory { node: &parts[i], max_length });
        i += 1;
    }
    assert(out@ =~= part_factories(parts@, max_length));
    out
}

/// Says whether `count` copies of candidates of `least` bytes or more
/// cannot stay within the length limit.
fn exceeds(count: usize, least: usize, max_length: Option<usize>) -> (r: bool)
    ensures
        r == (max_length matches Some(limit) && count * least > limit),
{
    match max_length {
        None => false,
        Some(limit) => match count.checked_mul(least) {
            Some(product) => product > limit,
            None => true,
        },
    }
}

impl<'a> Factory<'a> {
    /// Makes a fresh sequence of the candidates of the node.
    pub fn make(&self) -> (r: Candidates<'a>)
        ensures
            r.wf(),
            r.source() == *self,
            r.emitted() == Seq::<Seq<u8>>::empty(),
            r@ == self.items(),
        decreases self.node@.height(), 1nat,
    {
        let node: &'a SyntaxNode = self.node;
        let max_length = self.max_length;
        let ghost raw = unfiltered(node@, max_length);
        let state = match node {
            SyntaxNode::Empty => State::Once { done: false },
            SyntaxNode::Lookaround => State::Once { done: false },
            SyntaxNode::Literal(_) => State::Once { done: false },
            SyntaxNode::Class(class) => {
                let (range, value) = class_seek(class, 0);
                State::Class { range, value }
            },
            SyntaxNode::Repetition { sub, min, max } => {
                let inner = Factory { node: &**sub, max_length };
                let count = *min as usize;
                let least = minimum_length(sub);
                let limit = match max {
                    Some(m) => *m as usize,
                    None => usize::MAX,
                };
                if count > limit || exceeds(count, least, max_length) {
                    proof {
                        let items = inner.items();
                        if count > limit {
                            lemma_powers_empty(items, min as nat, top(*max));
                            lemma_keep_empty(max_length);
                        } else {
                            assert forall|j: int| 0 <= j < items.len() implies (
                            #[trigger] items[j]).len() >= least by {
                                lemma_candidates_lower(sub@, max_length, j);
                            }
                            lemma_powers_too_long(
                                items,
                                min as nat,
                                top(*max),
                                least as nat,
                                max_length.unwrap(),
                            );
                        }
                    }
                    State::Repeat { count, least, product: None }
                } else {
                    proof {
                        lemma_reach_copies(inner, count as nat, count as nat);
                    }
                    let product = MultiCartesianProduct::new(repeat_factories(inner, count));
                    proof {
                        assert(factory_dims(copy_factories(inner, count as nat)) =~= copies(
                            inner.items(),
                            count as nat,
                        ));
                        lemma_powers_first(inner.items(), min as nat, top(*max));
                    }
                    State::Repeat { count, least, product: Some(product) }
                }
            },
            SyntaxNode::Group(sub) => {
                let inner = Factory { node: &**sub, max_length };
                State::Group { inner: Box::new(inner.make()) }
            },
            SyntaxNode::Concat(parts) => {
                proof {
                    lemma_reach_parts(parts@, max_length, parts@.len());
                    assert(factory_dims(part_factories(parts@, max_length)) =~= dimensions(
                        views(parts@),
                        max_length,
                    ));
                }
                let product = MultiCartesianProduct::new(concat_factories(parts, max_length));
                State::Concat { product }
            },
            SyntaxNode::Alternation(branches) => {
                if branches.len() == 0 {
                    proof {
                        assert(dimensions(views(branches@), max_length).flatten() =~= Seq::empty());
                    }
                    State::Alternation { branch: 0, current: None }
                } else {
                    proof {
                        lemma_rank(views(branches@), branches@.len(), 0);
                        let dims = dimensions(views(branches@), max_length);
                        assert(dims.skip(0) =~= dims);
                        lemma_flatten_skip(dims, 0);
                    }
                    let first = Factory { node: &branches[0], max_length };
                    State::Alternation { branch: 0, current: Some(Box::new(first.make())) }
                }
            },
        };
        let r = Candidates { source: *self, state, taken: Ghost(Seq::empty()) };
        proof {
            assert(r.inv());
            assert(keep(r.rest(), max_length) == keep(raw, max_length));
            assert(r.taken@ + r.view() =~= self.items());
        }
        r
    }
}

/// Draws the next of what a repetition yields: the next tuple of the product
/// for the count in turn, joined; where that product is through, the first
/// tuple of the next count, unless the upper bound is reached, the length
/// limit rules out every tuple from there on, or the next count yields
/// nothing, as then does every count after it.
fn draw_repeat<'a>(
    inner: Factory<'a>,
    min: u32,
    max: Option<u32>,
    count: &mut usize,
    least: usize,
    product: &mut Option<MultiCartesianProduct<'a>>,
) -> (r: Option<Vec<u8>>)
    requires
        repeat_inv(inner, min, max, *old(count), least, *old(product)),
    ensures
        repeat_inv(inner, min, max, *final(count), least, *final(product)),
        match r {
            Some(c) => {
                &&& repeat_rest(inner.items(), top(max), *old(count), *old(product)).len() > 0
                &&& c@ == repeat_rest(inner.items(), top(max), *old(count), *old(product))[0]
                &&& repeat_rest(inner.items(), top(max), *final(count), *final(product))
                    == repeat_rest(
                    inner.items(),
                    top(max),
                    *old(count),
                    *old(product),
                ).drop_first()
            },
            None => {
                &&& keep(
                    repeat_rest(inner.items(), top(max), *old(count), *old(product)),
                    inner.max_length,
                ).len() == 0
                &&& repeat_rest(inner.items(), top(max), *final(count), *final(product)).len()
                    == 0
            },
        },
    decreases inner.node@.height() + 1, 1nat,
{
    let max_length = inner.max_length;
    let ghost items = inner.items();
    let ghost later = powers(items, (*count + 1) as nat, top(max));
    proof {
        lemma_keep_empty(max_length);
    }
    let level = match product {
        Some(level) => level,
        None => {
            return None;
        },
    };
    let ghost before = level@;
    proof {
        lemma_reach_copies(inner, *count as nat, *count as nat);
    }
    match level.next() {
        Some(tuple) => {
            proof {
                lemma_joined_drop_first(before);
                assert((joined(before) + later).drop_first() =~= joined(before.drop_first())
                    + later);
            }
            return Some(join_tuple(&tuple));
        },
        None => {},
    }
    assert(joined(before) + later =~= later);
    let limit = match max {
        Some(m) => m as usize,
        None => usize::MAX,
    };
    if *count >= limit || exceeds(*count + 1, least, max_length) {
        proof {
            if *count >= limit {
                lemma_powers_empty(items, (*count + 1) as nat, top(max));
            } else {
                assert forall|j: int| 0 <= j < items.len() implies (#[trigger] items[j]).len()
                    >= least by {
                    lemma_candidates_lower(inner.node@, max_length, j);
                }
                lemma_powers_too_long(
                    items,
                    (*count + 1) as nat,
                    top(max),
                    least as nat,
                    max_length.unwrap(),
                );
            }
        }
        *product = None;
        return None;
    }
    *count = *count + 1;
    proof {
        lemma_reach_copies(inner, *count as nat, *count as nat);
    }
    let mut next = MultiCartesianProduct::new(repeat_factories(inner, *count));
    let ghost fresh = next@;
    let ghost after = powers(items, (*count + 1) as nat, top(max));
    proof {
        assert(factory_dims(copy_factories(inner, *count as nat)) =~= copies(
            items,
            *count as nat,
        ));
        lemma_powers_first(items, *count as nat, top(max));
    }
    match next.next() {
        Some(tuple) => {
            proof {
                lemma_joined_drop_first(fresh);
                assert((joined(fresh) + after).drop_first() =~= joined(fresh.drop_first())
                    + after);
            }
            *product = Some(next);
            Some(join_tuple(&tuple))
        },
        None => {
            proof {
                lemma_power_nothing(items, *count as nat);
                lemma_powers_nothing(items, *count as nat, top(max));
            }
            *product = None;
            None
        },
    }
}

/// Draws the next of what an alternation yields: the next candidate of the
/// branch in turn, or, where that branch is through, of the first branch
/// after it that yields anything.
fn draw_alternation<'a>(
    branches: &'a Vec<SyntaxNode>,
    max_length: Option<usize>,
    branch: &mut usize,
    current: &mut Option<Box<Candidates<'a>>>,
) -> (r: Option<Vec<u8>>)
    requires
        alternation_inv(branches@, max_length, *old(branch), *old(current)),
    ensures
        alternation_inv(branches@, max_length, *final(branch), *final(current)),
        match r {
            Some(c) => {
                &&& alternation_rest(
                    dimensions(views(branches@), max_length),
                    *old(branch),
                    *old(current),
                ).len() > 0
                &&& c@ == alternation_rest(
                    dimensions(views(branches@), max_length),
                    *old(branch),
                    *old(current),
                )[0]
                &&& alternation_rest(
                    dimensions(views(branches@), max_length),
                    *final(branch),
                    *final(current),
                ) == alternation_rest(
                    dimensions(views(branches@), max_length),
                    *old(branch),
                    *old(current),
                ).drop_first()
            },
            None => {
                &&& alternation_rest(
                    dimensions(views(branches@), max_length),
                    *old(branch),
                    *old(current),
                ).len() == 0
                &&& alternation_rest(
                    dimensions(views(branches@), max_length),
                    *final(branch),
                    *final(current),
                ).len() == 0
            },
        },
    decreases rank(views(branches@), branches@.len()), 1nat,
{
    let ghost dims = dimensions(views(branches@), max_length);
    loop
        invariant
            dims == dimensions(views(branches@), max_length),
            alternation_inv(branches@, max_length, *branch, *current),
            alternation_rest(dims, *branch, *current) == alternation_rest(
                dims,
                *old(branch),
                *old(current),
            ),
        decreases
                (if *current is Some {
                    branches.len() - *branch
                } else {
                    0
                }),
    {
        let sequence = match current {
            Some(sequence) => sequence,
            None => {
                return None;
            },
        };
        proof {
            lemma_rank(views(branches@), branches@.len(), *branch as int);
        }
        match sequence.next() {
            Some(candidate) => {
                return Some(candidate);
            },
            None => {},
        }
        if *branch + 1 < branches.len() {
            *branch = *branch + 1;
            proof {
                lemma_rank(views(branches@), branches@.len(), *branch as int);
                lemma_flatten_skip(dims, *branch as int);
            }
            let next = Factory { node: &branches[*branch], max_length };
            *current = Some(Box::new(next.make()));
        } else {
            proof {
                assert(dims.skip(*branch + 1).flatten() =~= Seq::empty());
            }
            *current = None;
            return None;
        }
    }
}

impl<'a> Candidates<'a> {
    /// Draws the next of what the node yields, before the pass over the
    /// length limit.
    fn draw(&mut self) -> (r: Option<Vec<u8>>)
        requires
            old(self).inv(),
        ensures
            final(self).inv(),
            final(self).source == old(self).source,
            final(self).taken == old(self).taken,
            match r {
                Some(c) => {
                    &&& old(self).rest().len() > 0
                    &&& c@ == old(self).rest()[0]
                    &&& final(self).rest() == old(self).rest().drop_first()
                },
                None => {
                    &&& keep(old(self).rest(), old(self).source.max_length).len() == 0
                    &&& final(self).rest().len() == 0
                },
            },
        decreases old(self).source.node@.height(), 2nat,
    {
        let node: &'a SyntaxNode = self.source.node;
        let max_length = self.source.max_length;
        proof {
            lemma_keep_empty(max_length);
        }
        match (&mut self.state, node) {
            (State::Once { done }, _) => {
                if *done {
                    None
                } else {
                    *done = true;
                    match node {
                        SyntaxNode::Literal(bytes) => Some(copy_bytes(bytes)),
                        _ => Some(Vec::new()),
                    }
                }
            },
            (State::Class { range, value }, SyntaxNode::Class(class)) => {
                if *range < class_len(class) {
                    let (candidate, next_range, next_value) = class_step(class, *range, *value);
                    *range = next_range;
                    *value = next_value;
                    Some(candidate)
                } else {
                    None
                }
            },
            (
                State::Repeat { count, least, product },
                SyntaxNode::Repetition { sub, min, max },
            ) => draw_repeat(Factory { node: &**sub, max_length }, *min, *max, count, *least, product),
            (State::Group { inner }, _) => inner.next(),
            (State::Concat { product }, SyntaxNode::Concat(parts)) => {
                let ghost before = product@;
                proof {
                    lemma_reach_parts(parts@, max_length, parts@.len());
                }
                match product.next() {
                    Some(tuple) => {
                        proof {
                            lemma_joined_drop_first(before);
                        }
                        Some(join_tuple(&tuple))
                    },
                    None => None,
                }
            },
            (State::Alternation { branch, current }, SyntaxNode::Alternation(branches)) => {
                draw_alternation(branches, max_length, branch, current)
            },
            _ => None,
        }
    }

    /// Pulls the next candidate, or nothing once the sequence is through.
    pub fn next(&mut self) -> (r: Option<Vec<u8>>)
        requires
            old(self).wf(),
        ensures
            final(self).wf(),
            final(self).source() == old(self).source(),
            match r {
                Some(c) => {
                    &&& old(self)@.len() > 0
                    &&& c@ == old(self)@[0]
                    &&& final(self)@ == old(self)@.drop_first()
                    &&& final(self).emitted() == old(self).emitted().push(c@)
                },
                None => {
                    &&& old(self)@.len() == 0
                    &&& final(self)@.len() == 0
                    &&& final(self).emitted() == old(self).emitted()
                },
            },
        decreases old(self).source().node@.height(), 3nat,
    {
        let max_length = self.source.max_length;
        loop
            invariant
                self.inv(),
                self.source == old(self).source,
                max_length == self.source.max_length,
                self.taken == old(self).taken,
                keep(self.rest(), max_length) == old(self).view(),
                old(self).taken@ + old(self).view() == old(self).source.items(),
            decreases self.rest().len(),
        {
            let ghost before = self.rest();
            match self.draw() {
                None => {
                    proof {
                        lemma_keep_empty(max_length);
                        assert(self.rest() =~= Seq::empty());
                        assert(old(self).view() =~= Seq::empty());
                    }
                    return None;
                },
                Some(candidate) => {
                    proof {
                        lemma_keep_step(before, max_length);
                    }
                    if within(&candidate, max_length) {
                        proof {
                            assert(old(self).view().drop_first() =~= keep(
                                self.rest(),
                                max_length,
                            ));
                            assert(old(self).taken@.push(candidate@) + self.view() =~= old(
                                self,
                            ).taken@ + old(self).view());
                        }
                        self.taken = Ghost(self.taken@.push(candidate@));
                        return Some(candidate);
                    }
                },
            }
        }
    }
}

impl<'a> MultiCartesianProduct<'a> {
    /// Starts the product of the sequences that the factories make: one
    /// live sequence per factory, and the first candidate of each as its
    /// head. With an empty sequence among them the product is exhausted at
    /// once.
    pub fn new(factories: Vec<Factory<'a>>) -> (r: Self)
        ensures
            r.wf(),
            r.factories() == factories@,
            r@ == tuples(factory_dims(factories@)),
        decreases reach(factories@, factories@.len()), 0nat,
    {
        let n = factories.len();
        let ghost dims = factory_dims(factories@);
        let mut iters: Vec<Candidates<'a>> = Vec::new();
        let mut i: usize = 0;
        while i < n
            invariant
                n == factories.len(),
                i <= n,
                iters.len() == i,
                forall|j: int|
                    0 <= j < i ==> {
                        &&& (#[trigger] iters[j]).wf()
                        &&& iters[j].source == factories[j]
                        &&& iters[j].taken@.len() == 0
                    },
            decreases n - i,
        {
            proof {
                lemma_reach(factories@, n as nat, i as int);
            }
            let fresh = factories[i].make();
            iters.push(fresh);
            i += 1;
        }
        let mut heads: Vec<Vec<u8>> = Vec::new();
        let mut k: usize = 0;
        while k < n
            invariant
                n == factories.len(),
                k <= n,
                iters.len() == n,
                heads.len() == k,
                dims == factory_dims(factories@),
                forall|j: int|
                    0 <= j < n ==> {
                        &&& (#[trigger] iters[j]).wf()
                        &&& iters[j].source == factories[j]
                    },
                forall|j: int|
                    0 <= j < k ==> {
                        &&& (#[trigger] iters[j]).taken@.len() == 1
                        &&& heads[j]@ == iters[j].taken@[0]
                    },
                forall|j: int| k <= j < n ==> (#[trigger] iters[j]).taken@.len() == 0,
            decreases n - k,
        {
            proof {
                lemma_reach(factories@, n as nat, k as int);
            }
            match iters[k].next() {
                Some(head) => {
                    heads.push(head);
                },
                None => {
                    proof {
                        assert(dims[k as int].len() == 0);
                        lemma_empty_dimension(dims, k as int);
                    }
                    return MultiCartesianProduct { factories, iters, heads, done: true };
                },
            }
            k += 1;
        }
        let r = MultiCartesianProduct { factories, iters, heads, done: false };
        proof {
            assert(r.wf());
            lemma_position_zero(dims, r.digits());
            assert(tuples(dims).skip(0) =~= tuples(dims));
        }
        r
    }

    /// Pulls the next tuple, or nothing once the product is exhausted. The
    /// heads are the tuple; then the odometer advances: dimension 0 moves
    /// on, and a dimension that is through starts over and carries into the
    /// one after it.
    pub fn next(&mut self) -> (r: Option<Vec<Vec<u8>>>)
        requires
            old(self).wf(),
        ensures
            final(self).wf(),
            final(self).factories() == old(self).factories(),
            match r {
                Some(tuple) => {
                    &&& old(self)@.len() > 0
                    &&& tuple.deep_view() == old(self)@[0]
                    &&& final(self)@ == old(self)@.drop_first()
                },
                None => old(self)@.len() == 0 && final(self)@.len() == 0,
            },
        decreases reach(old(self).factories(), old(self).factories().len()), 0nat,
    {
        if self.done {
            return None;
        }
        let ghost dims = self.dims();
        let ghost before = self.digits();
        let result = copy_tuple(&self.heads);
        let n = self.factories.len();
        proof {
            assert(in_range(dims, before)) by {
                assert forall|j: int| 0 <= j < dims.len() implies 0 <= #[trigger] before[j]
                    < dims[j].len() by {
                    let it = self.iters@[j];
                    assert(it.wf());
                    assert((it.taken@ + it.view()).len() == dims[j].len());
                }
            }
            lemma_tuple_at(dims, before);
            assert(result.deep_view() =~= chosen(dims, before)) by {
                assert forall|j: int| 0 <= j < dims.len() implies result.deep_view()[j] == chosen(
                    dims,
                    before,
                )[j] by {
                    let it = self.iters@[j];
                    assert(it.wf());
                    assert((it.taken@ + it.view())[before[j]] == it.taken@.last());
                }
            }
        }
        let ghost here = position(dims, before);
        let mut i: usize = 0;
        while i < n
            invariant
                i <= n,
                n == self.factories@.len(),
                !self.done,
                self.wf(),
                self.factories == old(self).factories,
                dims == factory_dims(self.factories@),
                in_range(dims, before),
                here == position(dims, before),
                0 <= here < tuples(dims).len(),
                old(self)@ == tuples(dims).skip(here),
                result.deep_view() == tuples(dims)[here],
                self.iters@.len() == n,
                forall|j: int|
                    0 <= j < i ==> before[j] == dims[j].len() - 1 && (
                    #[trigger] self.iters@[j]).taken@.len() == 1,
                forall|j: int| i <= j < n ==> (#[trigger] self.iters@[j]).taken@.len() - 1 == before[j],
            decreases n - i,
        {
            let ghost live = self.iters@;
            proof {
                lemma_reach(self.factories@, n as nat, i as int);
                assert(live[i as int].wf());
            }
            match self.iters[i].next() {
                Some(head) => {
                    self.heads[i] = head;
                    proof {
                        let after = self.digits();
                        assert forall|j: int| 0 <= j < n && j != i implies self.iters@[j]
                            == live[j] by {}
                        assert forall|j: int| 0 <= j < i implies before[j] == dims[j].len() - 1
                            && after[j] == 0 by {
                            assert(self.iters@[j] == live[j]);
                        }
                        assert forall|j: int| i < j < dims.len() implies after[j] == before[j] by {
                            assert(self.iters@[j] == live[j]);
                        }
                        assert(after[i as int] == before[i as int] + 1);
                        lemma_position_carry(dims, before, after, i as int);
                        assert(tuples(dims).skip(here).drop_first() =~= tuples(dims).skip(here + 1));
                        assert(self.wf());
                    }
                    return Some(result);
                },
                None => {
                    proof {
                        let it = live[i as int];
                        assert((it.taken@ + it.view()).len() == dims[i as int].len());
                    }
                    let fresh = self.factories[i].make();
                    self.iters[i] = fresh;
                    let head = self.iters[i].next().unwrap();
                    self.heads[i] = head;
                    proof {
                        assert forall|j: int| 0 <= j < n && j != i implies self.iters@[j]
                            == live[j] by {}
                    }
                },
            }
            i += 1;
        }
        self.done = true;
        proof {
            assert forall|j: int| 0 <= j < dims.len() implies before[j] == dims[j].len() - 1 by {
                let it = self.iters@[j];
            }
            lemma_position_last(dims, before);
            lemma_tuples_len(dims);
            assert(old(self)@.drop_first() =~= Seq::empty());
        }
        Some(result)
    }
}

/// Compiles a node into the lazy sequence of its candidates.
pub fn iterate_all<'a>(node: &'a SyntaxNode, max_length: Option<usize>) -> (r: Candidates<'a>)
    ensures
        r.wf(),
        r.source() == (Factory { node, max_length }),
        r.emitted() == Seq::<Seq<u8>>::empty(),
        r@ == candidates(node@, max_length),
{
    let factory = Factory { node, max_length };
    factory.make()
}

/// What a sequence has yielded and what it has yet to yield make up the
/// candidates of its node.
pub proof fn law_whole(sequence: Candidates)
    requires
        sequence.wf(),
    ensures
        sequence.emitted() + sequence@ == candidates(
            sequence.source().node@,
            sequence.source().max_length,
        ),
{
}

/// Restarting changes nothing: two sequences of the same node under the
/// same length limit that have yielded equally many candidates have yielded
/// the same ones, and have the same ones yet to yield.
pub proof fn law_restart(first: Candidates, second: Candidates)
    requires
        first.wf(),
        second.wf(),
        first.source() == second.source(),
        first.emitted().len() == second.emitted().len(),
    ensures
        first.emitted() == second.emitted(),
        first@ == second@,
{
    let whole = first.source().items();
    let n = first.emitted().len() as int;
    assert(first.emitted() =~= whole.take(n));
    assert(second.emitted() =~= whole.take(n));
    assert(first@ =~= whole.skip(n));
    assert(second@ =~= whole.skip(n));
}

} // verus!
