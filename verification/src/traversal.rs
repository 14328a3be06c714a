//! Traversal engines: what samples the next atom position of a trie of weights.
use vstd::prelude::*;
use crate::trie::PathTrie;

verus! {

/// A traversal engine failed to produce an atom position.
#[derive(Clone, Copy, Debug, PartialEq, Eq, Structural)]
pub struct TraversalError {}

impl TraversalError {
    /// The error's message.
    pub fn message(&self) -> (s: &'static str)
        ensures
            s@ == "traversal error"@,
    {
        "traversal error"
    }
}

/// What samples atoms: given the trie of weights at the sweep's root, return the
/// path of the next atom to process.
pub trait TraversalEngine: Send + Sync {
    /// The engine's name, as its specification gives it. An engine that does not
    /// define it here is held to an unspecified name, which its own `name` is
    /// then assumed to return: implement it wherever the name matters to a proof.
    closed spec fn spec_name(&self) -> Seq<char> {
        arbitrary()
    }

    /// The engine's name.
    fn name(&self) -> (r: &str)
        ensures
            r@ == self.spec_name(),
    ;

    /// The engine may answer the position `p` for the weights `m`. An engine
    /// that does not define it here allows every position.
    closed spec fn allows(&self, m: Map<Seq<u8>, u64>, p: Seq<u8>) -> bool {
        true
    }

    /// The engine may fail on the weights `m`. An engine that does not define it
    /// here may fail on any.
    closed spec fn may_fail(&self, m: Map<Seq<u8>, u64>) -> bool {
        true
    }

    /// Sample the next atom position.
    fn next_atom(&self, trie: &PathTrie<u64>) -> (r: Result<Vec<u8>, TraversalError>)
        requires
            trie.wf(),
        ensures
            r matches Ok(p) ==> self.allows(trie@, p@),
            r is Err ==> self.may_fail(trie@),
    ;
}

} // verus!
