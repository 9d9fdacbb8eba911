//! From pattern text to a syntax tree, by way of the `regex-syntax` crate.
//!
//! The crate's parser and its expression type are taken on trust, one level
//! at a time; the walk over an expression that builds a [`SyntaxNode`] is
//! verified against them.

use crate::syntax::{
    lemma_rank, rank, views, ByteRange, CharClass, Class, ScalarRange, SyntaxNode, Tree,
};
use regex_syntax::hir::{Hir, HirKind};
use vstd::prelude::*;

verus! {

/// `regex_syntax::hir::Hir`, a parsed expression. Nothing inside it is
/// visible here.
#[verifier::external_type_specification]
#[verifier::external_body]
pub struct ExHir(regex_syntax::hir::Hir);

/// `regex_syntax::Error`, the reason why a pattern was refused. Nothing
/// inside it is visible here.
#[verifier::external_type_specification]
#[verifier::external_body]
pub struct ExError(regex_syntax::Error);

/// The tree that a parsed expression stands for: its kind and fields as
/// `Hir::kind` gives them, a capture group as a group, a look-around
/// assertion as a node without operand.
pub uninterp spec fn tree_of(hir: Hir) -> Tree;

/// What `regex_syntax::Parser::parse`, with the default configuration, makes
/// of a pattern: the tree of the expression, or nothing where the pattern is
/// refused.
pub uninterp spec fn parsed(pattern: Seq<char>) -> Option<Tree>;

/// The top level of a parsed expression: its kind, and what the kind holds
/// but for the ranges of a class.
enum Shape<'a> {
    Empty,
    Lookaround,
    Literal(Vec<u8>),
    Unicode,
    Bytes,
    Repetition { sub: &'a Hir, min: u32, max: Option<u32> },
    Group(&'a Hir),
    Concat(Vec<&'a Hir>),
    Alternation(Vec<&'a Hir>),
}

/// The trees of a list of parsed expressions.
spec fn trees_of(subs: Seq<&Hir>) -> Seq<Tree> {
    Seq::new(subs.len(), |i: int| tree_of(*subs[i]))
}

/// Whether a shape is the top level of a tree, and what it holds stands for
/// the subtrees.
spec fn agrees(shape: Shape, tree: Tree) -> bool {
    match shape {
        Shape::Empty => tree is Empty,
        Shape::Lookaround => tree is Lookaround,
        Shape::Literal(bytes) => tree == Tree::Literal(bytes@),
        Shape::Unicode => tree matches Tree::Class(Class::Unicode(_)),
        Shape::Bytes => tree matches Tree::Class(Class::Bytes(_)),
        Shape::Repetition { sub, min, max } => tree == (Tree::Repetition {
            sub: Box::new(tree_of(*sub)),
            min,
            max,
        }),
        Shape::Group(sub) => tree == Tree::Group(Box::new(tree_of(*sub))),
        Shape::Concat(subs) => tree == Tree::Concat(trees_of(subs@)),
        Shape::Alternation(subs) => tree == Tree::Alternation(trees_of(subs@)),
    }
}

/// Calls `regex_syntax::Parser::parse` on a parser with the default
/// configuration. Taken on trust: the outcome depends on the pattern alone.
#[verifier::external_body]
fn parse_hir(pattern: &str) -> (r: Result<Hir, regex_syntax::Error>)
    ensures
        match r {
            Ok(hir) => parsed(pattern@) == Some(tree_of(hir)),
            Err(_) => parsed(pattern@) is None,
        },
{
    regex_syntax::Parser::new().parse(pattern)
}

/// Reads `Hir::kind` and tells its variants apart. Taken on trust: the
/// variant and its fields are the top level of the expression's tree.
#[verifier::external_body]
fn shape<'a>(hir: &'a Hir) -> (r: Shape<'a>)
    ensures
        agrees(r, tree_of(*hir)),
{
    match hir.kind() {
        HirKind::Empty => Shape::Empty,
        HirKind::Look(_) => Shape::Lookaround,
        HirKind::Literal(literal) => Shape::Literal(literal.0.to_vec()),
        HirKind::Class(regex_syntax::hir::Class::Unicode(_)) => Shape::Unicode,
        HirKind::Class(regex_syntax::hir::Class::Bytes(_)) => Shape::Bytes,
        HirKind::Repetition(rep) => Shape::Repetition { sub: &rep.sub, min: rep.min, max: rep.max },
        HirKind::Capture(capture) => Shape::Group(&capture.sub),
        HirKind::Concat(subs) => Shape::Concat(subs.iter().collect()),
        HirKind::Alternation(subs) => Shape::Alternation(subs.iter().collect()),
    }
}

/// Reads `ClassUnicode::ranges` of a Unicode class, with the `start` and
/// `end` of each range. Taken on trust: these are the ranges of the class
/// in the expression's tree, in order.
#[verifier::external_body]
fn scalar_ranges(hir: &Hir) -> (r: Vec<ScalarRange>)
    ensures
        tree_of(*hir) matches Tree::Class(Class::Unicode(ranges)) ==> r@ == ranges,
{
    match hir.kind() {
        HirKind::Class(regex_syntax::hir::Class::Unicode(class)) => class.ranges().iter().map(
            |range| ScalarRange { start: range.start(), end: range.end() },
        ).collect(),
        _ => Vec::new(),
    }
}

/// Reads `ClassBytes::ranges` of a byte class, with the `start` and `end`
/// of each range. Taken on trust: these are the ranges of the class in the
/// expression's tree, in order.
#[verifier::external_body]
fn byte_ranges(hir: &Hir) -> (r: Vec<ByteRange>)
    ensures
        tree_of(*hir) matches Tree::Class(Class::Bytes(ranges)) ==> r@ == ranges,
{
    match hir.kind() {
        HirKind::Class(regex_syntax::hir::Class::Bytes(class)) => class.ranges().iter().map(
            |range| ByteRange { start: range.start(), end: range.end() },
        ).collect(),
        _ => Vec::new(),
    }
}

/// Why a pattern has no syntax tree.
#[derive(Debug)]
pub enum ParseError {
    /// The parser refused the pattern.
    Syntax(regex_syntax::Error),
}

/// Builds the syntax tree of a parsed expression.
pub fn lower(hir: &Hir) -> (r: SyntaxNode)
    ensures
        r@ == tree_of(*hir),
    decreases tree_of(*hir).height(), 1nat,
{
    match shape(hir) {
        Shape::Empty => SyntaxNode::Empty,
        Shape::Lookaround => SyntaxNode::Lookaround,
        Shape::Literal(bytes) => SyntaxNode::Literal(bytes),
        Shape::Unicode => SyntaxNode::Class(CharClass::Unicode(scalar_ranges(hir))),
        Shape::Bytes => SyntaxNode::Class(CharClass::Bytes(byte_ranges(hir))),
        Shape::Repetition { sub, min, max } => SyntaxNode::Repetition {
            sub: Box::new(lower(sub)),
            min,
            max,
        },
        Shape::Group(sub) => SyntaxNode::Group(Box::new(lower(sub))),
        Shape::Concat(subs) => SyntaxNode::Concat(lower_each(&subs)),
        Shape::Alternation(subs) => SyntaxNode::Alternation(lower_each(&subs)),
    }
}

/// Builds the syntax tree of each parsed expression.
fn lower_each(subs: &Vec<&Hir>) -> (r: Vec<SyntaxNode>)
    ensures
        views(r@) == trees_of(subs@),
    decreases rank(trees_of(subs@), subs@.len()), 0nat,
{
    let ghost trees = trees_of(subs@);
    let mut out: Vec<SyntaxNode> = Vec::new();
    let mut i: usize = 0;
    while i < subs.len()
        invariant
            i <= subs.len(),
            trees == trees_of(subs@),
            out.len() == i,
            forall|j: int| 0 <= j < i ==> (#[trigger] out[j])@ == trees[j],
        decreases subs.len() - i,
    {
        proof {
            lemma_rank(trees, trees.len(), i as int);
        }
        out.push(lower(subs[i]));
        i += 1;
    }
    assert(views(out@) =~= trees);
    out
}

/// Parses a pattern into its syntax tree.
pub fn parse(pattern: &str) -> (r: Result<SyntaxNode, ParseError>)
    ensures
        match r {
            Ok(node) => parsed(pattern@) == Some(node@),
            Err(_) => parsed(pattern@) is None,
        },
{
    match parse_hir(pattern) {
        Ok(hir) => Ok(lower(&hir)),
        Err(error) => Err(ParseError::Syntax(error)),
    }
}

} // verus!
