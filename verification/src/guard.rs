//! The guard in front of an enumeration: a tree that can repeat without end
//! is only enumerated under a limit.

use crate::engine::{iterate_all, Candidates, Factory};
use crate::model::candidates;
use crate::syntax::{is_unbounded, SyntaxNode, Tree};
use vstd::prelude::*;

verus! {

/// Why an enumeration was not started.
#[derive(Debug, Clone, Copy, PartialEq, Eq, Structural)]
pub enum ConfigError {
    /// The tree holds a repetition without an upper bound, and neither a
    /// maximum length nor a maximum number of results was given.
    Unlimited,
}

impl ConfigError {
    /// What to tell the user.
    pub fn message(&self) -> (r: &'static str)
        ensures
            r@ == "Regex contains infinite range: program will spin forever unless a max length or number of results is specified."@,
    {
        "Regex contains infinite range: program will spin forever unless a max length or number of results is specified."
    }
}

/// Whether an enumeration of the tree under these limits is refused.
pub open spec fn refused(tree: Tree, max_length: Option<usize>, num: Option<usize>) -> bool {
    tree.unbounded() && max_length is None && num is None
}

/// Starts the enumeration of a tree, unless the tree can repeat without end
/// and nothing limits the run: then no candidate is produced. `num` is the
/// cap on the number of results that the consumer applies; only whether
/// there is one matters here.
pub fn enumerate<'a>(node: &'a SyntaxNode, max_length: Option<usize>, num: Option<usize>) -> (r:
    Result<Candidates<'a>, ConfigError>)
    ensures
        r is Err <==> refused(node@, max_length, num),
        match r {
            Ok(sequence) => {
                &&& sequence.wf()
                &&& sequence.source() == (Factory { node, max_length })
                &&& sequence.emitted() == Seq::<Seq<u8>>::empty()
                &&& sequence@ == candidates(node@, max_length)
            },
            Err(e) => e == ConfigError::Unlimited,
        },
{
    if is_unbounded(node) && num.is_none() && max_length.is_none() {
        Err(ConfigError::Unlimited)
    } else {
        Ok(iterate_all(node, max_length))
    }
}

} // verus!
