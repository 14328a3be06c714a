//! Tests of the library's trie, encoding, operations, random walk and sweep.

use weighted_atom_sweep::{
    build_strategy, ChunkedPQTraverse, byte_item, item_byte, AtomHeader, OperationObserver, PathTrie, RandomWalk,
    SExprMode, SExprOperation, Tag, TransformOp, TraversalEngine, TraversalError,
    WeightedAtomSweep, WeightedAtomSweepSettings, WeightedMap,
};
use weighted_atom_sweep::random_walk::{trie_weight, walk_to_atom};

#[derive(Debug, Clone, Default, PartialEq)]
pub struct Header;

impl AtomHeader for Header {}

#[test]
fn tag_bytes_round_trip() {
    assert_eq!(item_byte(Tag::NewVar), 0xC0);
    assert_eq!(item_byte(Tag::SymbolSize(3)), 0xC3);
    assert_eq!(item_byte(Tag::VarRef(5)), 0x85);
    assert_eq!(item_byte(Tag::Arity(2)), 0x02);
    assert_eq!(byte_item(0xC0), Tag::NewVar);
    assert_eq!(byte_item(0xFF), Tag::SymbolSize(63));
    assert_eq!(byte_item(0x80), Tag::VarRef(0));
    assert_eq!(byte_item(0xBF), Tag::VarRef(63));
    assert_eq!(byte_item(0x00), Tag::Arity(0));
    assert_eq!(byte_item(0x3F), Tag::Arity(63));
    for b in 0u8..=255 {
        if !(64..128).contains(&b) {
            assert_eq!(item_byte(byte_item(b)), b);
        }
    }
}

#[test]
fn trie_set_get_remove() {
    let mut t = PathTrie::<u64>::new();
    assert_eq!(t.len(), 0);
    assert!(!t.contains(&[1, 2]));
    t.set(&[1, 2], 7);
    t.set(&[1, 3], 8);
    t.set(&[1, 2], 9);
    assert_eq!(t.len(), 2);
    assert_eq!(t.get(&[1, 2]), Some(&9));
    assert_eq!(t.get(&[1, 3]), Some(&8));
    assert_eq!(t.get(&[1]), None);
    assert_eq!(t.remove(&[1, 2]), Some(9));
    assert_eq!(t.remove(&[1, 2]), None);
    assert_eq!(t.len(), 1);
    assert!(t.contains(&[1, 3]));
}

#[test]
fn trie_paths_and_children() {
    let mut t = PathTrie::<u64>::new();
    t.set(&[1, 2, 3], 1);
    t.set(&[1, 5], 1);
    assert!(t.path_exists(&[]));
    assert!(t.path_exists(&[1]));
    assert!(t.path_exists(&[1, 2]));
    assert!(t.path_exists(&[1, 2, 3]));
    assert!(!t.path_exists(&[1, 2, 3, 4]));
    assert!(!t.path_exists(&[2]));
    let mask = t.child_mask(&[1]);
    assert_eq!(mask.len(), 256);
    for b in 0..256usize {
        assert_eq!(mask[b], b == 2 || b == 5);
    }
    assert_eq!(t.child_count(&[1]), 2);
    assert_eq!(t.child_count(&[]), 1);
    assert_eq!(t.child_count(&[1, 2, 3]), 0);
}

#[test]
fn sexpr_accessors() {
    let op = SExprOperation::<Header>::from_bytes("op", &[0xC1, b'a'], SExprMode::Remove);
    assert_eq!(op.name(), "op");
    assert_eq!(op.expr_bytes(), &[0xC1, b'a']);
    assert_eq!(*op.mode(), SExprMode::Remove);
    assert_eq!(op.match_count(), 0);
}

#[test]
fn sexpr_empty_expression_does_nothing() {
    let mut t = PathTrie::<Header>::new();
    t.set(&[1], Header);
    let mut add = SExprOperation::<Header>::from_bytes("add", &[], SExprMode::Add);
    assert!(add.try_apply(&mut t));
    assert_eq!(t.len(), 1);
    let mut rm = SExprOperation::<Header>::from_bytes("rm", &[], SExprMode::Remove);
    assert!(rm.try_apply(&mut t));
    assert_eq!(t.len(), 1);
    let mut m = SExprOperation::<Header>::from_bytes("m", &[], SExprMode::Match);
    assert!(m.try_apply(&mut t));
    assert_eq!(m.match_count(), 0);
}

#[test]
fn sexpr_reserved_byte_fails_without_change() {
    let mut t = PathTrie::<Header>::new();
    t.set(&[0x02, 0xC1, b'a', 0xC1, b'b'], Header);
    let mut m = SExprOperation::<Header>::from_bytes("m", &[0x40], SExprMode::Match);
    assert!(!m.try_apply(&mut t));
    assert_eq!(m.match_count(), 0);
    assert_eq!(t.len(), 1);
}

#[test]
fn sexpr_arity_count_beyond_a_byte_fails() {
    let mut pattern = vec![0x3F; 6];
    pattern.extend(std::iter::repeat(0xC0).take(63 + 62 * 5));
    let mut t = PathTrie::<Header>::new();
    t.set(&[0x3F; 6], Header);
    let mut m = SExprOperation::<Header>::from_bytes("deep", &pattern, SExprMode::Match);
    assert!(!m.try_apply(&mut t));
    assert_eq!(m.match_count(), 0);
}

#[test]
fn sexpr_new_var_matches_every_item() {
    let mut t = PathTrie::<Header>::new();
    t.set(&[0xC1, b'x'], Header);
    t.set(&[0xC1, b'y'], Header);
    t.set(&[0x02, 0xC1, b'a', 0xC1, b'b'], Header);
    let mut m = SExprOperation::<Header>::from_bytes("var", &[0xC0], SExprMode::Match);
    assert!(m.try_apply(&mut t));
    assert_eq!(m.match_count(), 3);
}

#[test]
fn sexpr_new_var_binds_a_whole_arity_item() {
    let mut t = PathTrie::<Header>::new();
    t.set(&[0x02, 0xC1, b'f', 0x02, 0xC1, b'g', 0xC1, b'a'], Header);
    t.set(&[0x02, 0xC1, b'f', 0x02, 0xC1, b'g', 0xC1, b'b'], Header);
    let mut m = SExprOperation::<Header>::from_bytes("f_var", &[0x02, 0xC1, b'f', 0xC0], SExprMode::Match);
    assert!(m.try_apply(&mut t));
    assert_eq!(m.match_count(), 2);
}

#[test]
fn sexpr_reference_rematches_the_bound_item() {
    let pattern = [0x03, 0xC0, 0xC1, b'x', 0x80];
    let mut t = PathTrie::<Header>::new();
    t.set(&[0x03, 0xC1, b'a', 0xC1, b'x', 0xC1, b'a'], Header);
    let mut m = SExprOperation::<Header>::from_bytes("coref", &pattern, SExprMode::Match);
    assert!(m.try_apply(&mut t));
    assert_eq!(m.match_count(), 1);
    let mut u = PathTrie::<Header>::new();
    u.set(&[0x03, 0xC1, b'a', 0xC1, b'x', 0xC1, b'b'], Header);
    let mut m2 = SExprOperation::<Header>::from_bytes("coref", &pattern, SExprMode::Match);
    assert!(m2.try_apply(&mut u));
    assert_eq!(m2.match_count(), 0);
    let mut w = PathTrie::<Header>::new();
    w.set(&[0x03, 0x02, 0xC1, b'g', 0xC1, b'a', 0xC1, b'x', 0x02, 0xC1, b'g', 0xC1, b'a'], Header);
    let mut m3 = SExprOperation::<Header>::from_bytes("coref", &pattern, SExprMode::Match);
    assert!(m3.try_apply(&mut w));
    assert_eq!(m3.match_count(), 1);
}

#[test]
fn sexpr_add_stores_the_default_value() {
    let mut t = PathTrie::<u64>::new();
    t.set(&[0x07, 0xC1, b'f', 0xC1, b'a'], 9);
    let mut add = SExprOperation::<u64>::from_bytes("add", &[0xC1, b'a'], SExprMode::Add);
    assert!(add.try_apply_at(&mut t, &[0x07, 0xC1, b'f']));
    assert_eq!(t.get(&[0x07, 0xC1, b'f', 0xC1, b'a']), Some(&0));
    assert!(add.try_apply_at(&mut t, &[0x07, 0xC1, b'f']));
    assert_eq!(t.len(), 1);
    assert_eq!(t.get(&[0x07, 0xC1, b'f', 0xC1, b'a']), Some(&0));
}

#[test]
fn sexpr_ground_pattern_matches_once() {
    let e = vec![0x03, 0xC1, b'f', 0x02, 0xC1, b'g', 0xC1, b'a', 0xC1, b'b'];
    let mut t = PathTrie::<Header>::new();
    t.set(&e, Header);
    let mut m = SExprOperation::<Header>::from_bytes("ground", &e, SExprMode::Match);
    assert!(m.try_apply(&mut t));
    assert_eq!(m.match_count(), 1);
    let absent = vec![0x03, 0xC1, b'f', 0x02, 0xC1, b'g', 0xC1, b'a', 0xC1, b'c'];
    let mut m2 = SExprOperation::<Header>::from_bytes("absent", &absent, SExprMode::Match);
    assert!(m2.try_apply(&mut t));
    assert_eq!(m2.match_count(), 0);
}

#[test]
fn sexpr_applies_below_the_atom() {
    let expr = vec![0xC1, b'a'];
    let mut t = PathTrie::<Header>::new();
    t.set(&[8, 0xC1, b'a'], Header);
    let mut add = SExprOperation::<Header>::from_bytes("add", &expr, SExprMode::Add);
    assert!(add.try_apply_at(&mut t, &[9]));
    assert!(t.contains(&[8, 0xC1, b'a']));
    assert_eq!(t.len(), 2);
    assert!(t.contains(&[9, 0xC1, b'a']));
    assert!(!t.contains(&expr));
    let mut m = SExprOperation::<Header>::from_bytes("m", &expr, SExprMode::Match);
    assert!(m.try_apply_at(&mut t, &[9]));
    assert_eq!(m.match_count(), 1);
    assert!(m.try_apply_at(&mut t, &[]));
    assert_eq!(m.match_count(), 1);
    let mut as_op: Box<dyn TransformOp<Header>> =
        Box::new(SExprOperation::<Header>::from_bytes("rm", &expr, SExprMode::Remove));
    assert_eq!(as_op.name(), "rm");
    as_op.apply(&mut t, &[9]);
    assert!(!t.contains(&[9, 0xC1, b'a']));
    assert!(t.contains(&[8, 0xC1, b'a']));
}

#[test]
fn sexpr_add_then_remove_restores() {
    let e = vec![0x02, 0xC1, b'p', 0xC1, b'q'];
    let mut t = PathTrie::<Header>::new();
    t.set(&[5], Header);
    let mut add = SExprOperation::<Header>::from_bytes("add", &e, SExprMode::Add);
    let mut rm = SExprOperation::<Header>::from_bytes("rm", &e, SExprMode::Remove);
    add.apply(&mut t);
    assert_eq!(t.len(), 2);
    rm.apply(&mut t);
    assert_eq!(t.len(), 1);
    assert!(t.contains(&[5]));
    assert!(!t.contains(&e));
}

fn weights() -> PathTrie<u64> {
    let mut t = PathTrie::<u64>::new();
    t.set(&[], 2);
    t.set(&[1], 5);
    t.set(&[2], 3);
    t
}

#[test]
fn random_walk_intervals() {
    let t = weights();
    assert_eq!(trie_weight(&t), Some(10));
    assert_eq!(walk_to_atom(&t, 0), Vec::<u8>::new());
    assert_eq!(walk_to_atom(&t, 1), Vec::<u8>::new());
    assert_eq!(walk_to_atom(&t, 2), vec![1]);
    assert_eq!(walk_to_atom(&t, 6), vec![1]);
    assert_eq!(walk_to_atom(&t, 7), vec![2]);
    assert_eq!(walk_to_atom(&t, 9), vec![2]);
}

#[test]
fn random_walk_samples_stored_atoms() {
    let mut t = PathTrie::<u64>::new();
    t.set(&[1], 5);
    let engine = RandomWalk;
    assert_eq!(engine.name(), "random_walk");
    for _ in 0..50 {
        assert_eq!(engine.next_atom(&t), Ok(vec![1]));
    }
    let t2 = weights();
    for _ in 0..50 {
        let p = engine.next_atom(&t2).unwrap();
        assert!(t2.get(&p).map_or(false, |w| *w > 0));
    }
}

#[test]
fn random_walk_edge_cases() {
    let engine = RandomWalk;
    let empty = PathTrie::<u64>::new();
    assert_eq!(engine.next_atom(&empty), Ok(Vec::new()));
    let mut zero = PathTrie::<u64>::new();
    zero.set(&[4, 4], 0);
    assert_eq!(engine.next_atom(&zero), Ok(Vec::new()));
    let mut big = PathTrie::<u64>::new();
    big.set(&[1], u64::MAX);
    big.set(&[2], 1);
    assert_eq!(trie_weight(&big), None);
    assert_eq!(engine.next_atom(&big), Err(TraversalError {}));
    assert_eq!(TraversalError {}.message(), "traversal error");
}

#[test]
fn sweep_processes_and_subscriptions() {
    let mut sweep = WeightedAtomSweep::<Header>::new(WeightedAtomSweepSettings::default());
    assert_eq!(sweep.process_count(), 0);
    {
        let process = sweep.add_engine(Box::new(RandomWalk));
        assert_eq!(process.operation_count(), 0);
        assert_eq!(process.engine_name(), "random_walk");
        process.subscribe(Box::new(SExprOperation::<Header>::from_bytes("a", &[0xC0], SExprMode::Match)));
        process.subscribe(Box::new(SExprOperation::<Header>::from_bytes("b", &[0xC0], SExprMode::Match)));
        process.subscribe(Box::new(SExprOperation::<Header>::from_bytes("a", &[0xC0], SExprMode::Add)));
        assert_eq!(process.operation_count(), 3);
        process.unsubscribe_by_name("a");
        assert_eq!(process.operation_count(), 1);
        process.unsubscribe_by_name("zzz");
        assert_eq!(process.operation_count(), 1);
    }
    sweep.add_engine(Box::new(RandomWalk));
    assert_eq!(sweep.process_count(), 2);
    let (processes, map) = sweep.into_parts();
    assert_eq!(processes.len(), 2);
    let (_engine, ops) = processes.into_iter().next().unwrap().into_parts();
    assert_eq!(ops.len(), 1);
    assert_eq!(ops[0].op.name(), "b");
    assert_eq!(map.inner.len(), 0);
}

#[test]
fn weighted_map_get_set() {
    let mut m = WeightedMap::<u64>::new();
    assert_eq!(m.get_val(&[1]), None);
    assert_eq!(m.set_weighted_val(&[1], 4), Ok(()));
    assert_eq!(m.get_val(&[1]), Some(4));
    assert_eq!(m.set_weighted_val(&[1], 6), Ok(()));
    assert_eq!(m.get_val(&[1]), Some(6));
}

#[test]
fn strategies_by_name() {
    let rw = build_strategy("random_walk");
    assert!(rw.is_some());
    assert_eq!(rw.unwrap().name(), "random_walk");
    let cpq = build_strategy("cpq");
    assert!(cpq.is_some());
    assert_eq!(cpq.unwrap().name(), "cpq");
    assert!(build_strategy("Random_Walk").is_none());
    assert!(build_strategy("").is_none());
}

#[test]
fn subscribe_then_unsubscribe_restores() {
    let mut sweep = WeightedAtomSweep::<Header>::new(WeightedAtomSweepSettings::default());
    let process = sweep.add_engine(Box::new(RandomWalk));
    process.subscribe(Box::new(SExprOperation::<Header>::from_bytes("keep1", &[0xC0], SExprMode::Match)));
    process.subscribe(Box::new(SExprOperation::<Header>::from_bytes("keep2", &[0xC0], SExprMode::Match)));
    process.subscribe(Box::new(SExprOperation::<Header>::from_bytes("fresh", &[0xC0], SExprMode::Match)));
    assert_eq!(process.operation_count(), 3);
    process.unsubscribe_by_name("fresh");
    assert_eq!(process.operation_count(), 2);
    let (processes, _map) = sweep.into_parts();
    let (_engine, ops) = processes.into_iter().next().unwrap().into_parts();
    let names: Vec<&str> = ops.iter().map(|s| s.name.as_str()).collect();
    assert_eq!(names, vec!["keep1", "keep2"]);
}

#[test]
fn cpq_draws_among_the_heaviest() {
    let mut t = PathTrie::<u64>::new();
    t.set(&[0xC1, b'a'], 1);
    t.set(&[0xC1, b'b'], 9);
    t.set(&[0xC1, b'c'], 5);
    t.set(&[0xC1, b'd'], 2);
    let engine = ChunkedPQTraverse::new(2);
    assert_eq!(engine.name(), "cpq");
    for _ in 0..50 {
        let p = engine.next_atom(&t).unwrap();
        assert!(p == vec![0xC1, b'b'] || p == vec![0xC1, b'c']);
    }
    let one = ChunkedPQTraverse::new(1);
    assert_eq!(one.next_atom(&t).unwrap(), vec![0xC1, b'b']);
    let empty = PathTrie::<u64>::new();
    assert_eq!(engine.next_atom(&empty).unwrap(), Vec::<u8>::new());
    assert_eq!(ChunkedPQTraverse::new(0).next_atom(&t).unwrap(), Vec::<u8>::new());
}

#[test]
fn u64_weights_are_atom_values() {
    let mut sweep = WeightedAtomSweep::<u64>::new(WeightedAtomSweepSettings::default());
    let process = sweep.add_engine(Box::new(RandomWalk));
    process.subscribe(Box::new(SExprOperation::<u64>::from_bytes("add", &[0xC1, b'a'], SExprMode::Add)));
    assert_eq!(process.operation_count(), 1);
    assert_eq!(process.engine_name(), "random_walk");
}
