//! Weighted atom sweep: operations and traversal engines over a byte-path trie.
//!
//! A sweep holds a trie of atoms (values at byte paths) and processes, each a
//! traversal engine that samples atom positions together with the operations
//! applied at every sampled position. Operations given by an mm2 s-expression
//! ([`SExprOperation`]) add the expression's path to the trie, remove it, or count
//! the ways it matches as a pattern.

pub mod tag;
pub mod trie;
pub mod matching;
pub mod instances;
pub mod sexpr_operation;
pub mod traversal;
pub mod random_walk;
pub mod cpq;
pub mod operation;
pub mod sweep;
pub mod map;
pub mod new_eng_op;

pub use cpq::ChunkedPQTraverse;
pub use map::WeightedMap;
pub use new_eng_op::build_strategy;
pub use operation::{OperationObserver, TransformOp};
pub use random_walk::RandomWalk;
pub use sexpr_operation::{SExprMode, SExprOperation};
pub use sweep::{
    AtomHeader, AtomPosition, Subscribed, SweepProcess, WeightedAtomSweep,
    WeightedAtomSweepSettings,
};
pub use tag::{byte_item, item_byte, Tag};
pub use traversal::{TraversalEngine, TraversalError};
pub use trie::PathTrie;

