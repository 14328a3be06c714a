//! Operations: what the sweep applies to the subtrie at each sampled atom.
use vstd::prelude::*;
use crate::trie::PathTrie;

verus! {

/// An operation that transforms the subtrie at a sampled atom.
///
/// `apply` is handed the whole trie and the atom's position `atom_path`; it may
/// change only paths at or below `atom_path`, never above or beside it.
pub trait TransformOp<H>: Send + Sync {
    /// The operation's name, as its specification gives it. An operation that
    /// does not define it here is held to an unspecified name, which its own
    /// `name` is then assumed to return.
    closed spec fn op_name(&self) -> Seq<char> {
        arbitrary()
    }

    /// The operation's name, used to identify it.
    fn name(&self) -> (r: &str)
        ensures
            r@ == self.op_name(),
    ;

    /// Apply the operation to the subtrie at the atom.
    fn apply(&mut self, trie: &mut PathTrie<H>, atom_path: &[u8])
        requires
            old(trie).wf(),
        ensures
            final(trie).wf(),
            forall|k: Seq<u8>|
                !atom_path@.is_prefix_of(k) ==> {
                    &&& #[trigger] final(trie)@.dom().contains(k) == old(trie)@.dom().contains(k)
                    &&& final(trie)@.dom().contains(k) ==> final(trie)@[k] == old(trie)@[k]
                },
    ;
}

/// Keeps the operations subscribed to a sweep process.
pub trait OperationObserver<H, O: ?Sized = dyn TransformOp<H>> {
    /// Subscribe an operation, to be applied after those already subscribed.
    fn subscribe(&mut self, operation: Box<O>);

    /// Unsubscribe every operation with the given name.
    fn unsubscribe_by_name(&mut self, name: &str);
}

} // verus!
