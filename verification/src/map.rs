//! The map of weighted atoms that a sweep works on.
use vstd::prelude::*;
use crate::trie::PathTrie;

verus! {

/// The trie of atoms: values of type `H` at byte paths.
pub struct WeightedMap<H> {
    pub inner: PathTrie<H>,
}

impl<H> WeightedMap<H> {
    /// The atoms.
    pub open spec fn spec_map(&self) -> Map<Seq<u8>, H> {
        self.inner@
    }

    /// The trie is well formed.
    pub open spec fn wf(&self) -> bool {
        self.inner.wf()
    }

    /// An empty map.
    pub fn new() -> (m: Self)
        ensures
            m.wf(),
            m.spec_map() == Map::<Seq<u8>, H>::empty(),
    {
        WeightedMap { inner: PathTrie::new() }
    }

    /// A clone of the value at `path`, if any.
    pub fn get_val(&self, path: &[u8]) -> (r: Option<H>)
        where H: Clone,
        requires
            self.wf(),
        ensures
            r is Some <==> self.spec_map().dom().contains(path@),
            r matches Some(v) ==> cloned(self.spec_map()[path@], v),
    {
        match self.inner.get(path) {
            Some(v) => Some(v.clone()),
            None => None,
        }
    }

    /// Store `val` at `path`.
    pub fn set_weighted_val(&mut self, path: &[u8], val: H) -> (r: Result<(), ()>)
        requires
            old(self).wf(),
        ensures
            r is Ok,
            final(self).wf(),
            final(self).spec_map() == old(self).spec_map().insert(path@, val),
    {
        self.inner.set(path, val);
        Ok(())
    }
}

} // verus!
