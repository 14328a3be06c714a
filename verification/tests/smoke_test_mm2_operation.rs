//! The three modes of `SExprOperation` applied to a trie.

use weighted_atom_sweep::{item_byte, AtomHeader, PathTrie, SExprMode, SExprOperation, Tag};

#[derive(Debug, Clone, Default)]
pub struct Header;

impl AtomHeader for Header {}

const ARITY_2: u8 = 0x02;
const ARITY_3: u8 = 0x03;
const SYM_1: u8 = 0xC1;
const SYM_3: u8 = 0xC3;
const NEW_VAR: u8 = 0xC0;
const VAR_REF_0: u8 = 0x80;

/// `(foo bar)`: arity 2, symbol "foo", symbol "bar"
fn expr_foo_bar() -> Vec<u8> {
    vec![ARITY_2, SYM_3, b'f', b'o', b'o', SYM_3, b'b', b'a', b'r']
}

/// `(= a a)`
fn expr_eq_a_a() -> Vec<u8> {
    vec![ARITY_3, SYM_1, b'=', SYM_1, b'a', SYM_1, b'a']
}

/// `(= b b)`
fn expr_eq_b_b() -> Vec<u8> {
    vec![ARITY_3, SYM_1, b'=', SYM_1, b'b', SYM_1, b'b']
}

/// `(= a b)`
fn expr_eq_a_b() -> Vec<u8> {
    vec![ARITY_3, SYM_1, b'=', SYM_1, b'a', SYM_1, b'b']
}

/// `(= $ _1)`: the co-referential pattern
fn pattern_eq_x_x() -> Vec<u8> {
    vec![ARITY_3, SYM_1, b'=', NEW_VAR, VAR_REF_0]
}

/// `(f (g a) b)`
fn expr_f_ga_b() -> Vec<u8> {
    vec![ARITY_3, SYM_1, b'f', ARITY_2, SYM_1, b'g', SYM_1, b'a', SYM_1, b'b']
}

#[test]
fn test_sexpr_add_direct() {
    let expr_bytes = expr_foo_bar();
    let mut space = PathTrie::<Header>::new();
    let mut op = SExprOperation::<Header>::from_bytes("add_foo_bar", &expr_bytes, SExprMode::Add);
    op.apply(&mut space);
    let val = space.get(&expr_bytes);
    assert!(
        val.is_some(),
        "expected a value at the expression path after Add; got None"
    );
}

#[test]
fn test_sexpr_remove_direct() {
    let expr_bytes = expr_foo_bar();
    let mut map = PathTrie::<Header>::new();
    map.set(&expr_bytes, Header);
    assert!(
        map.get(&expr_bytes).is_some(),
        "precondition: value should exist before Remove"
    );
    let mut op =
        SExprOperation::<Header>::from_bytes("remove_foo_bar", &expr_bytes, SExprMode::Remove);
    op.apply(&mut map);
    let val = map.get(&expr_bytes);
    assert!(
        val.is_none(),
        "expected no value at the expression path after Remove; got {:?}",
        val
    );
}

#[test]
fn test_sexpr_match_direct() {
    let mut map = PathTrie::<Header>::new();
    map.set(&expr_eq_a_a(), Header);
    map.set(&expr_eq_b_b(), Header);
    map.set(&expr_eq_a_b(), Header);
    let pattern = pattern_eq_x_x();
    let mut op = SExprOperation::<Header>::from_bytes("match_eq_x_x", &pattern, SExprMode::Match);
    assert_eq!(op.match_count(), 0, "match count should start at 0");
    op.apply(&mut map);
    assert_eq!(
        op.match_count(),
        2,
        "expected 2 co-referential matches for pattern (= $ _1)"
    );
}

#[test]
fn test_sexpr_match_with_noise() {
    let mut map = PathTrie::<Header>::new();
    map.set(&expr_eq_a_a(), Header);
    map.set(&expr_eq_b_b(), Header);
    map.set(&expr_eq_a_b(), Header);
    map.set(&expr_f_ga_b(), Header);
    let pattern = pattern_eq_x_x();
    let mut op = SExprOperation::<Header>::from_bytes("match_eq_x_x", &pattern, SExprMode::Match);
    op.apply(&mut map);
    assert_eq!(
        op.match_count(),
        2,
        "noise expressions should not affect co-referential match count"
    );
}

#[test]
fn test_sexpr_add_then_remove() {
    let expr_bytes = expr_f_ga_b();
    let mut space = PathTrie::<Header>::new();
    let mut add_op = SExprOperation::<Header>::from_bytes("add_expr", &expr_bytes, SExprMode::Add);
    add_op.apply(&mut space);
    assert!(space.child_count(&[]) > 0, "trie should have children after Add");
    let mut remove_op =
        SExprOperation::<Header>::from_bytes("remove_expr", &expr_bytes, SExprMode::Remove);
    remove_op.apply(&mut space);
    assert!(
        space.get(&expr_bytes).is_none(),
        "expression path should be gone after Remove"
    );
}

#[test]
fn test_sexpr_match_count_accumulates() {
    let mut map = PathTrie::<Header>::new();
    map.set(&expr_eq_a_a(), Header);
    map.set(&expr_eq_b_b(), Header);
    let pattern = pattern_eq_x_x();
    let mut op = SExprOperation::<Header>::from_bytes("match_accum", &pattern, SExprMode::Match);
    op.apply(&mut map);
    assert_eq!(op.match_count(), 2);
    op.apply(&mut map);
    assert_eq!(op.match_count(), 4, "match_count should accumulate");
    op.reset_match_count();
    assert_eq!(op.match_count(), 0);
    op.apply(&mut map);
    assert_eq!(
        op.match_count(),
        2,
        "match_count should be 2 after reset + apply"
    );
}

#[test]
fn test_manual_encoding_matches_parse() {
    let manual_bytes = vec![
        item_byte(Tag::Arity(3)),
        item_byte(Tag::SymbolSize(1)),
        b'=',
        item_byte(Tag::SymbolSize(1)),
        b'a',
        item_byte(Tag::SymbolSize(1)),
        b'a',
    ];
    let parsed_bytes = expr_eq_a_a();
    assert_eq!(
        manual_bytes, parsed_bytes,
        "manual byte encoding should match parse! output"
    );
    let manual_pattern = vec![
        item_byte(Tag::Arity(3)),
        item_byte(Tag::SymbolSize(1)),
        b'=',
        item_byte(Tag::NewVar),
        item_byte(Tag::VarRef(0)),
    ];
    let parsed_pattern = pattern_eq_x_x();
    assert_eq!(
        manual_pattern, parsed_pattern,
        "manual pattern encoding should match parse! output"
    );
}
