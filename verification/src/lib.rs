//! Enumerates the byte strings that a regular expression can match.
//!
//! A pattern is parsed by [`parse`] into a [`SyntaxNode`]. [`iterate_all`]
//! compiles a node into [`Candidates`], a lazy and restartable sequence that
//! is pulled one candidate at a time; [`enumerate`] does the same behind a
//! guard that refuses a pattern without any bound. Concatenations and
//! repetitions are driven by [`MultiCartesianProduct`], an odometer over such
//! sequences that holds one live sequence and one head per dimension.
//!
//! What a sequence yields is stated over a model: [`model::candidates`] gives
//! the candidates of a [`Tree`], the view of a node, as a mathematical
//! sequence. The modules:
//!
//! - [`syntax`]: the tree, its model, and whether it is bounded;
//! - [`model`]: what each kind of node yields, and in which order;
//! - [`radix`], [`sequences`], [`classes`], [`bounds`]: facts about the
//!   model, among them a lower bound on the length of every candidate;
//! - [`encode`]: UTF-8;
//! - [`engine`]: the sequences and the odometer;
//! - [`guard`]: the guard in front of an enumeration;
//! - [`parse`]: from pattern text to a tree;
//! - [`laws`]: what holds of every enumeration.

pub mod bounds;
pub mod classes;
pub mod encode;
pub mod engine;
pub mod guard;
pub mod laws;
pub mod model;
pub mod parse;
pub mod radix;
pub mod sequences;
pub mod syntax;
mod tuple;
mod walk;

pub use engine::{iterate_all, Candidates, Factory, MultiCartesianProduct};
pub use guard::{enumerate, ConfigError};
pub use parse::{lower, parse, ParseError};
pub use syntax::{is_unbounded, ByteRange, CharClass, Class, ScalarRange, SyntaxNode, Tree};
