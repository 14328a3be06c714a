//! The sweep: traversal processes, each an engine with its subscribed operations.
use vstd::prelude::*;
use core::marker::PhantomData;
use crate::map::WeightedMap;
use crate::operation::{OperationObserver, TransformOp};
use crate::traversal::TraversalEngine;

verus! {

/// The position of an atom: its path in the trie.
pub type AtomPosition = Vec<u8>;

/// The values stored in the sweep's trie.
pub trait AtomHeader: core::fmt::Debug + Clone + Send + Sync + 'static {}

/// Weights are atom values.
impl AtomHeader for u64 {}

/// Settings of a sweep (none yet).
#[derive(Default)]
pub struct WeightedAtomSweepSettings {}


/// An operation as a sweep process holds it.
pub struct Subscribed<O: ?Sized> {
    /// The operation's name, as it gave it when subscribed.
    pub name: String,
    /// The operation.
    pub op: Box<O>,
}

impl<O: ?Sized> Subscribed<O> {
    /// The operation's name.
    pub open spec fn op_name(&self) -> Seq<char> {
        self.name@
    }
}

/// Whether an operation's name differs from `name`.
pub open spec fn not_named<O: ?Sized>(name: Seq<char>) -> spec_fn(Subscribed<O>) -> bool {
    |s: Subscribed<O>| s.op_name() != name
}

/// A traversal engine together with the operations subscribed to it.
///
/// When the sweep runs, the engine samples atoms and the operations are applied,
/// in the order of subscription, at each sampled atom. `O` is the type of the
/// operations and `E` that of the engine, trait objects unless a caller fixes them.
#[verifier::reject_recursive_types(O)]
#[verifier::reject_recursive_types(E)]
pub struct SweepProcess<H, O: ?Sized = dyn TransformOp<H>, E: ?Sized = dyn TraversalEngine> {
    engine: Box<E>,
    operations: Vec<Subscribed<O>>,
    _values: PhantomData<H>,
}

impl<H, O: ?Sized, E: ?Sized> SweepProcess<H, O, E> {
    /// The engine the process runs.
    pub closed spec fn engine(&self) -> Box<E> {
        self.engine
    }
}

impl<H, O: ?Sized> SweepProcess<H, O> {
    /// The subscribed operations, in order.
    pub closed spec fn ops(&self) -> Seq<Subscribed<O>> {
        self.operations@
    }

    /// The name of the process's engine, as its specification gives it.
    pub closed spec fn engine_spec_name(&self) -> Seq<char> {
        (*self.engine).spec_name()
    }

    /// A process for `engine` with no operations.
    pub fn new(engine: Box<dyn TraversalEngine>) -> (p: Self)
        ensures
            p.ops() == Seq::<Subscribed<O>>::empty(),
            p.engine() == engine,
            p.engine_spec_name() == (*engine).spec_name(),
    {
        let ghost given = engine;
        let p = SweepProcess { engine, operations: Vec::new(), _values: PhantomData };
        assert(p.engine == given);
        assert(given == engine);
        assert(p.engine() == given);
        p
    }

    /// The number of subscribed operations.
    pub fn operation_count(&self) -> (n: usize)
        ensures
            n == self.ops().len(),
    {
        self.operations.len()
    }

    /// The name of the process's engine.
    pub fn engine_name(&self) -> (r: &str)
        ensures
            r@ == self.engine_spec_name(),
    {
        self.engine.name()
    }

    /// Take the process apart into its engine and its operations, in order.
    pub fn into_parts(self) -> (parts: (Box<dyn TraversalEngine>, Vec<Subscribed<O>>))
        ensures
            parts.0 == self.engine(),
            (*parts.0).spec_name() == self.engine_spec_name(),
            parts.1@ == self.ops(),
    {
        let ghost before = self.engine;
        let parts = (self.engine, self.operations);
        assert(parts.0 == before);
        assert(self.engine() == before);
        parts
    }
}

impl<H, O: ?Sized + TransformOp<H>> OperationObserver<H, O> for SweepProcess<H, O> {
    /// Append `operation` to the subscribed operations.
    fn subscribe(&mut self, operation: Box<O>)
        ensures
            final(self).ops().len() == old(self).ops().len() + 1,
            final(self).ops().drop_last() == old(self).ops(),
            final(self).ops().last().op == operation,
            final(self).ops().last().op_name() == (*operation).op_name(),
    {
        let name = operation.name().to_owned();
        self.operations.push(Subscribed { name, op: operation });
        assert(self.operations@.drop_last() =~= old(self).operations@);
    }

    /// Keep exactly the operations whose name differs from `name`, in their order.
    fn unsubscribe_by_name(&mut self, name: &str)
        ensures
            final(self).ops() == old(self).ops().filter(not_named(name@)),
    {
        let ghost all = self.operations@;
        let mut rest: Vec<Subscribed<O>> = Vec::new();
        core::mem::swap(&mut rest, &mut self.operations);
        let target = name.to_owned();
        let mut i: usize = 0;
        let n = rest.len();
        while rest.len() > 0
            invariant
                all.len() == n,
                i + rest@.len() == n,
                rest@ == all.skip(i as int),
                self.operations@ == all.take(i as int).filter(not_named(name@)),
                target@ == name@,
            decreases rest@.len(),
        {
            let sub = rest.remove(0);
            let ghost sub_g = sub;
            let op_name = sub.name.clone();
            let kept = !(op_name == target);
            if kept {
                self.operations.push(sub);
            }
            proof {
                assert(all.take(i + 1) =~= all.take(i as int).push(sub_g));
                all.take(i as int).lemma_filter_push(sub_g, not_named(name@));
            }
            i = i + 1;
            proof {
                assert(rest@ =~= all.skip(i as int));
            }
        }
        proof {
            assert(all.take(n as int) =~= all);
        }
    }
}

/// After unsubscribing `name`, no remaining operation has that name.
pub proof fn lemma_unsubscribed_name_is_gone<O>(ops: Seq<Subscribed<O>>, name: Seq<char>)
    ensures
        forall|i: int|
            0 <= i < ops.filter(not_named::<O>(name)).len() ==> #[trigger] ops.filter(
                not_named::<O>(name),
            )[i].op_name() != name,
{
    assert forall|i: int| 0 <= i < ops.filter(not_named::<O>(name)).len() implies #[trigger] ops.filter(
        not_named::<O>(name),
    )[i].op_name() != name by {
        ops.lemma_filter_pred(not_named::<O>(name), i);
    }
}

/// Unsubscribing a name that no operation has keeps every operation.
pub proof fn lemma_unsubscribe_absent_name<O>(ops: Seq<Subscribed<O>>, name: Seq<char>)
    requires
        forall|i: int| 0 <= i < ops.len() ==> #[trigger] ops[i].op_name() != name,
    ensures
        ops.filter(not_named::<O>(name)) == ops,
    decreases ops.len(),
{
    if ops.len() > 0 {
        let init = ops.drop_last();
        assert forall|i: int| 0 <= i < init.len() implies #[trigger] init[i].op_name() != name by {
            assert(init[i] == ops[i]);
        }
        lemma_unsubscribe_absent_name(init, name);
        assert(init.push(ops.last()) =~= ops);
        init.lemma_filter_push(ops.last(), not_named::<O>(name));
    } else {
        assert(ops.filter(not_named::<O>(name)) =~= ops) by {
            reveal(Seq::filter);
        }
    }
}

/// Subscribing an operation under a name that no subscribed operation has, then
/// unsubscribing that name, gives back the operations that were subscribed.
pub proof fn lemma_subscribe_then_unsubscribe<O>(
    ops: Seq<Subscribed<O>>,
    op: Subscribed<O>,
    name: Seq<char>,
)
    requires
        op.op_name() == name,
        forall|i: int| 0 <= i < ops.len() ==> #[trigger] ops[i].op_name() != name,
    ensures
        ops.push(op).filter(not_named::<O>(name)) == ops,
{
    ops.lemma_filter_push(op, not_named::<O>(name));
    lemma_unsubscribe_absent_name(ops, name);
}

/// A sweep: the trie of atoms, and the processes that will run over it.
#[verifier::reject_recursive_types(O)]
pub struct WeightedAtomSweep<H, O: ?Sized = dyn TransformOp<H>> {
    processes: Vec<SweepProcess<H, O>>,
    settings: WeightedAtomSweepSettings,
    map: WeightedMap<H>,
}

impl<H, O: ?Sized> WeightedAtomSweep<H, O> {
    /// The processes, in the order they were added.
    pub closed spec fn procs(&self) -> Seq<SweepProcess<H, O>> {
        self.processes@
    }

    /// The trie of atoms.
    pub closed spec fn trie(&self) -> Map<Seq<u8>, H> {
        self.map.spec_map()
    }

    /// The trie is well formed.
    pub closed spec fn wf(&self) -> bool {
        self.map.wf()
    }

    /// A sweep with an empty trie and no processes.
    pub fn new(settings: WeightedAtomSweepSettings) -> (s: Self)
        ensures
            s.wf(),
            s.procs() == Seq::<SweepProcess<H, O>>::empty(),
            s.trie() == Map::<Seq<u8>, H>::empty(),
    {
        WeightedAtomSweep { processes: Vec::new(), settings, map: WeightedMap::new() }
    }

    /// Add a process for `engine`, with no operations yet, and return it so that
    /// operations can be subscribed to it.
    pub fn add_engine(&mut self, engine: Box<dyn TraversalEngine>) -> (p: &mut SweepProcess<H, O>)
        ensures
            p.ops() == Seq::<Subscribed<O>>::empty(),
            p.engine() == engine,
            p.engine_spec_name() == (*engine).spec_name(),
            final(self).procs() == old(self).procs().push(*final(p)),
            final(self).trie() == old(self).trie(),
            final(self).wf() == old(self).wf(),
    {
        let ghost given = engine;
        let process = SweepProcess { engine, operations: Vec::new(), _values: PhantomData };
        assert(process.engine == given);
        assert(given == engine);
        assert(process.engine() == given);
        self.processes.push(process);
        let n = self.processes.len();
        &mut self.processes[n - 1]
    }

    /// The number of processes.
    pub fn process_count(&self) -> (n: usize)
        ensures
            n == self.procs().len(),
    {
        self.processes.len()
    }

    /// The map of atoms.
    pub fn map(&self) -> (m: &WeightedMap<H>)
        ensures
            m.spec_map() == self.trie(),
            m.wf() == self.wf(),
    {
        &self.map
    }

    /// The map of atoms, to change it before the sweep runs.
    pub fn map_mut(&mut self) -> (m: &mut WeightedMap<H>)
        ensures
            m.spec_map() == old(self).trie(),
            m.wf() == old(self).wf(),
            final(self).trie() == final(m).spec_map(),
            final(self).wf() == final(m).wf(),
            final(self).procs() == old(self).procs(),
    {
        &mut self.map
    }

    /// Take the sweep apart into its processes, in order, and its map.
    pub fn into_parts(self) -> (parts: (Vec<SweepProcess<H, O>>, WeightedMap<H>))
        ensures
            parts.0@ == self.procs(),
            parts.1.spec_map() == self.trie(),
            parts.1.wf() == self.wf(),
    {
        (self.processes, self.map)
    }
}

} // verus!
