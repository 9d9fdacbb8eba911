//! The syntax tree that the enumeration reads, and its mathematical model.

use vstd::prelude::*;

verus! {

/// An inclusive range of Unicode scalar values. A range whose `start` lies
/// above its `end` holds nothing.
#[derive(Clone, Copy, Debug, PartialEq, Eq)]
pub struct ScalarRange {
    pub start: char,
    pub end: char,
}

/// An inclusive range of raw byte values. A range whose `start` lies above
/// its `end` holds nothing.
#[derive(Clone, Copy, Debug, PartialEq, Eq)]
pub struct ByteRange {
    pub start: u8,
    pub end: u8,
}

/// A character class: an ordered list of ranges, either of Unicode scalar
/// values or of raw bytes.
#[derive(Debug, PartialEq, Eq)]
pub enum CharClass {
    Unicode(Vec<ScalarRange>),
    Bytes(Vec<ByteRange>),
}

/// One node of a parsed regular expression.
#[derive(Debug, PartialEq, Eq)]
pub enum SyntaxNode {
    /// Matches the empty string.
    Empty,
    /// A zero-width assertion. Its predicate is never evaluated: it is taken
    /// to hold everywhere.
    Lookaround,
    /// A fixed byte string.
    Literal(Vec<u8>),
    /// One element of a character class.
    Class(CharClass),
    /// Between `min` and `max` copies of `sub`; without `max`, `min` or more.
    Repetition { sub: Box<SyntaxNode>, min: u32, max: Option<u32> },
    /// A group. Capturing does not change what is matched.
    Group(Box<SyntaxNode>),
    /// Each part in turn.
    Concat(Vec<SyntaxNode>),
    /// Any one of the branches.
    Alternation(Vec<SyntaxNode>),
}

/// The model of a character class.
pub enum Class {
    Unicode(Seq<ScalarRange>),
    Bytes(Seq<ByteRange>),
}

/// The model of a syntax tree: the same node kinds over sequences.
pub enum Tree {
    Empty,
    Lookaround,
    Literal(Seq<u8>),
    Class(Class),
    Repetition { sub: Box<Tree>, min: u32, max: Option<u32> },
    Group(Box<Tree>),
    Concat(Seq<Tree>),
    Alternation(Seq<Tree>),
}

impl View for CharClass {
    type V = Class;

    open spec fn view(&self) -> Class {
        match *self {
            CharClass::Unicode(ranges) => Class::Unicode(ranges@),
            CharClass::Bytes(ranges) => Class::Bytes(ranges@),
        }
    }
}

/// The models of a list of nodes, node by node.
pub open spec fn views(nodes: Seq<SyntaxNode>) -> Seq<Tree>
    decreases nodes, 1nat,
{
    Seq::new(
        nodes.len(),
        |i: int|
            if 0 <= i < nodes.len() {
                node_view(nodes[i])
            } else {
                Tree::Empty
            },
    )
}

/// The model of a node.
pub open spec fn node_view(node: SyntaxNode) -> Tree
    decreases node, 0nat,
{
    match node {
        SyntaxNode::Empty => Tree::Empty,
        SyntaxNode::Lookaround => Tree::Lookaround,
        SyntaxNode::Literal(bytes) => Tree::Literal(bytes@),
        SyntaxNode::Class(class) => Tree::Class(class@),
        SyntaxNode::Repetition { sub, min, max } => Tree::Repetition {
            sub: Box::new(node_view(*sub)),
            min,
            max,
        },
        SyntaxNode::Group(sub) => Tree::Group(Box::new(node_view(*sub))),
        SyntaxNode::Concat(parts) => Tree::Concat(views(parts@)),
        SyntaxNode::Alternation(branches) => Tree::Alternation(views(branches@)),
    }
}

impl View for SyntaxNode {
    type V = Tree;

    open spec fn view(&self) -> Tree {
        node_view(*self)
    }
}

/// Whether one of the first `n` trees is unbounded.
pub open spec fn any_unbounded(trees: Seq<Tree>, n: nat) -> bool
    decreases trees, n,
{
    if n == 0 || n > trees.len() {
        false
    } else {
        trees[n - 1].unbounded() || any_unbounded(trees, (n - 1) as nat)
    }
}

/// The largest height among the first `n` trees, plus one; zero when `n` is
/// zero.
pub open spec fn rank(trees: Seq<Tree>, n: nat) -> nat
    decreases trees, n,
{
    if n == 0 || n > trees.len() {
        0
    } else {
        let here = trees[n - 1].height() + 1;
        let before = rank(trees, (n - 1) as nat);
        if here > before { here } else { before }
    }
}

impl Tree {
    /// Whether a repetition without an upper bound occurs anywhere in the
    /// tree.
    pub open spec fn unbounded(self) -> bool
        decreases self,
    {
        match self {
            Tree::Repetition { sub, min, max } => max is None || sub.unbounded(),
            Tree::Group(sub) => sub.unbounded(),
            Tree::Concat(parts) => any_unbounded(parts, parts.len()),
            Tree::Alternation(branches) => any_unbounded(branches, branches.len()),
            _ => false,
        }
    }

    /// The number of nodes on the longest path from the root down to a leaf,
    /// the root not counted.
    pub open spec fn height(self) -> nat
        decreases self,
    {
        match self {
            Tree::Repetition { sub, min, max } => sub.height() + 1,
            Tree::Group(sub) => sub.height() + 1,
            Tree::Concat(parts) => rank(parts, parts.len()),
            Tree::Alternation(branches) => rank(branches, branches.len()),
            _ => 0,
        }
    }
}

/// `any_unbounded` holds exactly when one of the trees counted is unbounded.
pub proof fn lemma_any_unbounded(trees: Seq<Tree>, n: nat)
    requires
        n <= trees.len(),
    ensures
        any_unbounded(trees, n) <==> exists|i: int| 0 <= i < n && (#[trigger] trees[i]).unbounded(),
    decreases n,
{
    if n > 0 {
        lemma_any_unbounded(trees, (n - 1) as nat);
        if any_unbounded(trees, n) {
            if trees[n - 1].unbounded() {
            } else {
                let i = choose|i: int| 0 <= i < n - 1 && (#[trigger] trees[i]).unbounded();
                assert(0 <= i < n && trees[i].unbounded());
            }
        }
    }
}

/// Every tree counted by `rank` is lower than the rank.
pub proof fn lemma_rank(trees: Seq<Tree>, n: nat, i: int)
    requires
        0 <= i < n <= trees.len(),
    ensures
        trees[i].height() < rank(trees, n),
    decreases n,
{
    if i < n - 1 {
        lemma_rank(trees, (n - 1) as nat, i);
    }
}

/// Says whether the tree holds a repetition without an upper bound, at any
/// depth.
pub fn is_unbounded(node: &SyntaxNode) -> (r: bool)
    ensures
        r == node@.unbounded(),
    decreases node@.height(), 1nat,
{
    match node {
        SyntaxNode::Repetition { sub, min, max } => max.is_none() || is_unbounded(sub),
        SyntaxNode::Group(sub) => is_unbounded(sub),
        SyntaxNode::Concat(parts) => any_is_unbounded(parts),
        SyntaxNode::Alternation(branches) => any_is_unbounded(branches),
        _ => false,
    }
}

/// Says whether one of the nodes holds a repetition without an upper bound.
fn any_is_unbounded(nodes: &Vec<SyntaxNode>) -> (r: bool)
    ensures
        r == any_unbounded(views(nodes@), nodes@.len()),
    decreases rank(views(nodes@), nodes@.len()), 0nat,
{
    let ghost trees = views(nodes@);
    let mut i: usize = 0;
    while i < nodes.len()
        invariant
            i <= nodes.len(),
            trees == views(nodes@),
            !any_unbounded(trees, i as nat),
        decreases nodes.len() - i,
    {
        proof {
            lemma_rank(trees, trees.len(), i as int);
        }
        if is_unbounded(&nodes[i]) {
            proof {
                lemma_any_unbounded(trees, trees.len());
            }
            return true;
        }
        i += 1;
    }
    false
}

} // verus!
