//! What matching an mm2 pattern against a trie counts.
//!
//! The pattern is walked item by item along the paths of the trie, starting at
//! the trie's root:
//! - a symbol (its tag byte and its bytes) and an arity tag must be found exactly;
//! - a new variable matches any one whole item of the trie at the current
//!   position: a symbol with all its bytes, an arity with all its items, or a
//!   variable byte;
//! - a variable reference matches again exactly the bytes of the item that its
//!   variable (the `k`-th new variable of the pattern) was bound to.
//! Each way of reaching the end of the pattern is one match; `instances.rs`
//! proves that the matches are exactly the pattern's instances in the trie.
//!
//! Three kinds of continuation describe what is left of the pattern:
//! `Item(off)` matches items from `off` to the end; `Children(off, rem)` matches
//! `rem` items from `off` and then goes on as `Item`; `Nested(off, inner, sib, outer)`
//! matches `inner` items from `off`, then `outer` items from `sib`, then goes on
//! as `Item`. A reserved byte where a tag is read, or an arity count that no
//! longer fits in a byte, makes the whole walk fail (`None`).
use vstd::prelude::*;
use crate::tag::{decode, Tag};
use crate::trie::path_exists_in;

verus! {

/// What is left of the pattern at some point of the walk.
pub enum Cont {
    /// Items from the offset to the end of the pattern.
    Item(nat),
    /// This many items from the offset, then the rest of the pattern.
    Children(nat, nat),
    /// `inner` items from the offset, then `outer` items from `sib`, then the rest.
    Nested(nat, nat, nat, nat),
}

/// Sum of two counts, failing if either fails.
pub open spec fn plus(a: Option<nat>, b: Option<nat>) -> Option<nat> {
    match (a, b) {
        (Some(x), Some(y)) => Some(x + y),
        _ => None,
    }
}

/// A counter at `c` after adding `r`, failing if `r` fails or the sum exceeds `usize::MAX`.
pub open spec fn lift(c: nat, r: Option<nat>) -> Option<nat> {
    match r {
        Some(n) => if c + n <= usize::MAX {
            Some(c + n)
        } else {
            None
        },
        None => None,
    }
}

/// Adding a sum at once is adding its parts one after the other.
pub proof fn lemma_lift_plus(c: nat, x: Option<nat>, y: Option<nat>)
    ensures
        lift(c, plus(x, y)) == (match lift(c, x) {
            Some(c2) => lift(c2, y),
            None => None,
        }),
{
}

/// The position `q` can be walked to: it exists in the trie and stays within the bound.
pub open spec fn live(t: Set<Seq<u8>>, h: nat, q: Seq<u8>) -> bool {
    path_exists_in(t, q) && q.len() <= h
}

/// The size in bytes of the pattern item at `off`: `Some(0)` when the item is
/// cut short by the end of the pattern, `None` when a reserved byte is read.
pub open spec fn item_size(p: Seq<u8>, off: int) -> Option<nat>
    decreases (if off < p.len() {
        p.len() - off
    } else {
        0
    }), 0int, 0int,
{
    if off < 0 || off >= p.len() {
        Some(0)
    } else {
        match decode(p[off]) {
            None => None,
            Some(Tag::NewVar) => Some(1),
            Some(Tag::VarRef(_)) => Some(1),
            Some(Tag::SymbolSize(n)) => Some((1 + n) as nat),
            Some(Tag::Arity(a)) => arity_size(p, off, a as nat, 1),
        }
    }
}

/// The size of an arity item at `off` whose first `size` bytes are accounted for
/// and which has `a` items still to measure.
pub open spec fn arity_size(p: Seq<u8>, off: int, a: nat, size: nat) -> Option<nat>
    decreases (if off + size < p.len() {
        p.len() - (off + size)
    } else {
        0
    }), 1int, a,
{
    if a == 0 {
        Some(size)
    } else if off < 0 || off + size >= p.len() {
        Some(0)
    } else {
        match item_size(p, off + size) {
            None => None,
            Some(cs) => if cs == 0 {
                Some(0)
            } else {
                arity_size(p, off, (a - 1) as nat, size + cs)
            },
        }
    }
}

/// The number of the continuation, which orders the calls made at one position.
pub open spec fn rank(c: Cont) -> int {
    match c {
        Cont::Item(_) => 1,
        Cont::Children(_, _) => 2,
        Cont::Nested(_, _, _, _) => 3,
    }
}

/// The continuation after one item that ends at `next`.
pub open spec fn after_item(c: Cont, next: nat) -> Cont {
    match c {
        Cont::Item(_) => Cont::Item(next),
        Cont::Children(_, rem) => Cont::Children(next, (rem - 1) as nat),
        Cont::Nested(_, inner, sib, outer) => Cont::Nested(next, (inner - 1) as nat, sib, outer),
    }
}

/// Matches of the continuation `c` from the position `focus`, with the variables
/// bound so far to the spans `refs` (start and end positions) of the walk.
pub open spec fn run(t: Set<Seq<u8>>, h: nat, p: Seq<u8>, focus: Seq<u8>, refs: Seq<(usize, usize)>, c: Cont) -> Option<
    nat,
>
    decreases h - focus.len(), rank(c), 0int,
{
    match c {
        Cont::Item(off) => {
            if off >= p.len() {
                Some(1)
            } else {
                match decode(p[off as int]) {
                    None => None,
                    Some(Tag::Arity(a)) => {
                        let q = focus.push(p[off as int]);
                        if live(t, h, q) {
                            run(t, h, p, q, refs, Cont::Children(off + 1, a as nat))
                        } else {
                            Some(0)
                        }
                    },
                    Some(tag) => {
                        let next_off = match tag {
                            Tag::SymbolSize(n) => (off + 1 + n) as nat,
                            _ => (off + 1) as nat,
                        };
                        step(t, h, p, focus, refs, tag, off, Cont::Item(next_off))
                    },
                }
            }
        },
        Cont::Children(off, rem) => {
            if rem == 0 {
                run(t, h, p, focus, refs, Cont::Item(off))
            } else if off >= p.len() {
                Some(0)
            } else {
                match item_size(p, off as int) {
                    None => None,
                    Some(cs) => if cs == 0 {
                        Some(0)
                    } else {
                        match decode(p[off as int]) {
                            Some(Tag::Arity(sub)) => {
                                let q = focus.push(p[off as int]);
                                if live(t, h, q) {
                                    run(
                                        t,
                                        h,
                                        p,
                                        q,
                                        refs,
                                        Cont::Nested(off + 1, sub as nat, off + cs, (rem - 1) as nat),
                                    )
                                } else {
                                    Some(0)
                                }
                            },
                            Some(tag) => step(t, h, p, focus, refs, tag, off, after_item(c, off + cs)),
                            None => None,
                        }
                    },
                }
            }
        },
        Cont::Nested(off, inner, sib, outer) => {
            if inner == 0 {
                run(t, h, p, focus, refs, Cont::Children(sib, outer))
            } else if off >= p.len() {
                Some(0)
            } else {
                match item_size(p, off as int) {
                    None => None,
                    Some(cs) => if cs == 0 {
                        Some(0)
                    } else {
                        match decode(p[off as int]) {
                            Some(Tag::Arity(sub)) => {
                                let q = focus.push(p[off as int]);
                                if live(t, h, q) {
                                    if sub + inner - 1 > 255 {
                                        None
                                    } else {
                                        run(
                                            t,
                                            h,
                                            p,
                                            q,
                                            refs,
                                            Cont::Nested(off + 1, (sub + inner - 1) as nat, sib, outer),
                                        )
                                    }
                                } else {
                                    Some(0)
                                }
                            },
                            Some(tag) => step(t, h, p, focus, refs, tag, off, after_item(c, off + cs)),
                            None => None,
                        }
                    },
                }
            }
        },
    }
}

/// Matches of one item that is no arity (a new variable, a reference or a
/// symbol, with tag `tag` at `off`), then of the continuation `next`.
pub open spec fn step(
    t: Set<Seq<u8>>,
    h: nat,
    p: Seq<u8>,
    focus: Seq<u8>,
    refs: Seq<(usize, usize)>,
    tag: Tag,
    off: nat,
    next: Cont,
) -> Option<nat>
    decreases h - focus.len(), 0int, 257int,
{
    match tag {
        Tag::NewVar => var_child(t, h, p, focus, refs, focus.len(), 1, next, 0),
        Tag::VarRef(k) => {
            if (k as int) < refs.len() && refs[k as int].0 < refs[k as int].1 <= focus.len() {
                let q = focus + focus.subrange(refs[k as int].0 as int, refs[k as int].1 as int);
                if live(t, h, q) {
                    run(t, h, p, q, refs, next)
                } else {
                    Some(0)
                }
            } else {
                Some(0)
            }
        },
        Tag::SymbolSize(n) => {
            let end = off + 1 + n;
            if end > p.len() {
                Some(0)
            } else {
                let q = focus.push(p[off as int]) + p.subrange(off + 1 as int, end as int);
                if live(t, h, q) {
                    run(t, h, p, q, refs, next)
                } else {
                    Some(0)
                }
            }
        },
        Tag::Arity(_) => Some(0),
    }
}

/// Matches of a new variable that started at `start` and still has `n` whole
/// items of the trie to take below `focus`: when none is left, the variable is
/// bound to the bytes from `start` to `focus` and the walk goes on with `next`.
pub open spec fn var_items(
    t: Set<Seq<u8>>,
    h: nat,
    p: Seq<u8>,
    focus: Seq<u8>,
    refs: Seq<(usize, usize)>,
    start: nat,
    n: nat,
    next: Cont,
) -> Option<nat>
    decreases h - focus.len(), 4int, 0int,
{
    if n == 0 {
        run(t, h, p, focus, refs.push((start as usize, focus.len() as usize)), next)
    } else {
        var_child(t, h, p, focus, refs, start, n, next, 0)
    }
}

/// The part of `var_items` (with `n > 0`) that goes through the children
/// `b, ..., 255` of `focus`: a child byte is the tag of the next trie item, which
/// is a symbol with its bytes, an arity followed by its items, or a variable.
pub open spec fn var_child(
    t: Set<Seq<u8>>,
    h: nat,
    p: Seq<u8>,
    focus: Seq<u8>,
    refs: Seq<(usize, usize)>,
    start: nat,
    n: nat,
    next: Cont,
    b: nat,
) -> Option<nat>
    decreases h - focus.len(), 0int, 256 - b,
{
    if b >= 256 || n == 0 {
        Some(0)
    } else {
        let q = focus.push(b as u8);
        let here = if live(t, h, q) {
            match decode(b as u8) {
                None => None,
                Some(Tag::SymbolSize(k)) => var_bytes(t, h, p, q, refs, start, k as nat, (n - 1) as nat, next),
                Some(Tag::Arity(a)) => if n - 1 + a > usize::MAX {
                    None
                } else {
                    var_items(t, h, p, q, refs, start, (n - 1 + a) as nat, next)
                },
                Some(_) => var_items(t, h, p, q, refs, start, (n - 1) as nat, next),
            }
        } else {
            Some(0)
        };
        plus(here, var_child(t, h, p, focus, refs, start, n, next, b + 1))
    }
}

/// Matches of a new variable that must take any `k` more bytes below `focus`
/// (the rest of a symbol) and then `n` more whole items.
pub open spec fn var_bytes(
    t: Set<Seq<u8>>,
    h: nat,
    p: Seq<u8>,
    focus: Seq<u8>,
    refs: Seq<(usize, usize)>,
    start: nat,
    k: nat,
    n: nat,
    next: Cont,
) -> Option<nat>
    decreases h - focus.len(), 6int, 0int,
{
    if k == 0 {
        var_items(t, h, p, focus, refs, start, n, next)
    } else {
        var_bytes_from(t, h, p, focus, refs, start, k, n, next, 0)
    }
}

/// The part of `var_bytes` (with `k > 0`) that goes through the children
/// `b, ..., 255` of `focus`.
pub open spec fn var_bytes_from(
    t: Set<Seq<u8>>,
    h: nat,
    p: Seq<u8>,
    focus: Seq<u8>,
    refs: Seq<(usize, usize)>,
    start: nat,
    k: nat,
    n: nat,
    next: Cont,
    b: nat,
) -> Option<nat>
    decreases h - focus.len(), 5int, 256 - b,
{
    if b >= 256 || k == 0 {
        Some(0)
    } else {
        let q = focus.push(b as u8);
        let here = if live(t, h, q) {
            var_bytes(t, h, p, q, refs, start, (k - 1) as nat, n, next)
        } else {
            Some(0)
        };
        plus(here, var_bytes_from(t, h, p, focus, refs, start, k, n, next, b + 1))
    }
}

/// The offset after `n` ground items from `off` (symbols and arities only, an
/// arity's items counted in place of the arity), when they all lie within the
/// pattern and no count of items still to match passes 255.
pub open spec fn ground_end(p: Seq<u8>, off: nat, n: nat) -> Option<nat>
    decreases p.len() - off,
{
    if n == 0 {
        Some(off)
    } else if off >= p.len() {
        None
    } else {
        match decode(p[off as int]) {
            Some(Tag::SymbolSize(k)) => if off + 1 + k <= p.len() {
                ground_end(p, (off + 1 + k) as nat, (n - 1) as nat)
            } else {
                None
            },
            Some(Tag::Arity(a)) => if a + n - 1 <= 255 {
                ground_end(p, off + 1, (a + n - 1) as nat)
            } else {
                None
            },
            _ => None,
        }
    }
}

/// `p` is one ground expression: a symbol, or an arity followed by its ground items.
pub open spec fn is_ground_expr(p: Seq<u8>) -> bool {
    ground_end(p, 0, 1) == Some(p.len())
}

proof fn lemma_ground_end_bounds(p: Seq<u8>, off: nat, n: nat)
    ensures
        ground_end(p, off, n) matches Some(e) ==> off <= e <= p.len() || (n == 0 && e == off),
        ground_end(p, off, n) matches Some(e) ==> (n > 0 ==> off < e),
    decreases p.len() - off,
{
    if n > 0 && off < p.len() {
        match decode(p[off as int]) {
            Some(Tag::SymbolSize(k)) => {
                if off + 1 + k <= p.len() {
                    lemma_ground_end_bounds(p, (off + 1 + k) as nat, (n - 1) as nat);
                }
            },
            Some(Tag::Arity(a)) => {
                if a + n - 1 <= 255 {
                    lemma_ground_end_bounds(p, off + 1, (a + n - 1) as nat);
                }
            },
            _ => {},
        }
    }
}

/// A ground expression is not empty.
pub proof fn lemma_ground_end_nonempty(p: Seq<u8>)
    requires
        is_ground_expr(p),
    ensures
        p.len() > 0,
{
}

/// The first `m` of `m + n` ground items end where the last `n` start.
proof fn lemma_ground_split(p: Seq<u8>, off: nat, m: nat, n: nat, e: nat) -> (e1: nat)
    requires
        ground_end(p, off, m + n) == Some(e),
    ensures
        ground_end(p, off, m) == Some(e1),
        ground_end(p, e1, n) == Some(e),
    decreases p.len() - off, m,
{
    if m == 0 {
        assert((m + n) as nat == n);
        off
    } else {
        assert(off < p.len());
        match decode(p[off as int]) {
            Some(Tag::SymbolSize(k)) => {
                assert((m + n - 1) as nat == ((m - 1) as nat + n) as nat);
                lemma_ground_split(p, (off + 1 + k) as nat, (m - 1) as nat, n, e)
            },
            Some(Tag::Arity(a)) => {
                assert((a + (m + n) - 1) as nat == ((a + m - 1) as nat + n) as nat);
                lemma_ground_split(p, off + 1, (a + m - 1) as nat, n, e)
            },
            _ => {
                off
            },
        }
    }
}

/// The size of a well-formed ground item is the length of its encoding: the
/// distance from its tag byte to its end.
pub proof fn lemma_ground_item_size(p: Seq<u8>, off: nat, e: nat)
    requires
        ground_end(p, off, 1) == Some(e),
    ensures
        item_size(p, off as int) == Some((e - off) as nat),
    decreases p.len() - off, 0int, 0int,
{
    lemma_ground_end_bounds(p, off, 1);
    match decode(p[off as int]) {
        Some(Tag::SymbolSize(k)) => {
            assert(ground_end(p, (off + 1 + k) as nat, 0) == Some((off + 1 + k) as nat));
        },
        Some(Tag::Arity(a)) => {
            lemma_ground_arity_size(p, off, a as nat, 1, e);
        },
        _ => {},
    }
}

proof fn lemma_ground_arity_size(p: Seq<u8>, off: nat, k: nat, size: nat, e: nat)
    requires
        size >= 1,
        ground_end(p, off + size, k) == Some(e),
    ensures
        arity_size(p, off as int, k, size) == Some((e - off) as nat),
    decreases p.len() - (off + size), 1int, k,
{
    lemma_ground_end_bounds(p, off + size, k);
    if k > 0 {
        assert(((1 + (k - 1)) as nat) == k);
        let e1 = lemma_ground_split(p, off + size, 1, (k - 1) as nat, e);
        lemma_ground_end_bounds(p, off + size, 1);
        lemma_ground_item_size(p, off + size, e1);
        let cs = (e1 - off - size) as nat;
        assert(off + size + cs == e1);
        lemma_ground_arity_size(p, off, (k - 1) as nat, size + cs, e);
    }
}

/// A longer position that can be walked to has every prefix walkable too.
pub proof fn lemma_live_prefix(t: Set<Seq<u8>>, h: nat, a: Seq<u8>, b: Seq<u8>)
    requires
        live(t, h, a + b),
    ensures
        live(t, h, a),
{
    let k = choose|k: Seq<u8>| #[trigger] t.contains(k) && (a + b).is_prefix_of(k);
    assert(a.is_prefix_of(k)) by {
        assert(a =~= (a + b).subrange(0, a.len() as int));
        assert(a =~= k.subrange(0, a.len() as int));
    }
}

/// What is left of the pattern for `c` is `n` more ground items to its end.
pub open spec fn ground_cont(p: Seq<u8>, c: Cont, n: nat) -> bool {
    match c {
        Cont::Item(off) => ground_end(p, off, n) == Some(p.len()),
        Cont::Children(off, rem) => match ground_end(p, off, rem) {
            Some(e) => ground_end(p, e, n) == Some(p.len()),
            None => false,
        },
        Cont::Nested(off, inner, sib, outer) => {
            &&& ground_end(p, off, inner) == Some(sib)
            &&& match ground_end(p, sib, outer) {
                Some(e) => ground_end(p, e, n) == Some(p.len()),
                None => false,
            }
        },
    }
}

/// The count a ground rest of the pattern from `off` gets from `focus`: one if its
/// bytes lead to a walkable position, none otherwise.
pub open spec fn ground_count(t: Set<Seq<u8>>, h: nat, p: Seq<u8>, focus: Seq<u8>, off: nat) -> Option<nat> {
    Some(
        if live(t, h, focus + p.subrange(off as int, p.len() as int)) {
            1nat
        } else {
            0nat
        },
    )
}

/// One ground item that is no arity (a symbol at `off`, ending at `end`): the
/// walk goes on from `focus` followed by the symbol, or stops with no match.
proof fn lemma_ground_symbol_step(
    t: Set<Seq<u8>>,
    h: nat,
    p: Seq<u8>,
    focus: Seq<u8>,
    off: nat,
    end: nat,
)
    requires
        off < end <= p.len(),
    ensures
        ({
            let q = focus.push(p[off as int]) + p.subrange(off + 1 as int, end as int);
            &&& q + p.subrange(end as int, p.len() as int) == focus + p.subrange(off as int, p.len() as int)
            &&& !live(t, h, q) ==> ground_count(t, h, p, focus, off) == Some(0nat)
            &&& ground_count(t, h, p, q, end) == ground_count(t, h, p, focus, off)
        }),
{
    let q = focus.push(p[off as int]) + p.subrange(off + 1 as int, end as int);
    let rest = p.subrange(off as int, p.len() as int);
    assert(q + p.subrange(end as int, p.len() as int) =~= focus + rest);
    if !live(t, h, q) && live(t, h, focus + rest) {
        lemma_live_prefix(t, h, q, p.subrange(end as int, p.len() as int));
    }
}

/// An arity tag at `off`: the walk goes on from `focus` followed by the tag, or
/// stops with no match.
proof fn lemma_ground_arity_step(t: Set<Seq<u8>>, h: nat, p: Seq<u8>, focus: Seq<u8>, off: nat)
    requires
        off < p.len(),
    ensures
        ({
            let q = focus.push(p[off as int]);
            &&& !live(t, h, q) ==> ground_count(t, h, p, focus, off) == Some(0nat)
            &&& ground_count(t, h, p, q, off + 1) == ground_count(t, h, p, focus, off)
        }),
{
    lemma_ground_symbol_step(t, h, p, focus, off, off + 1);
    assert(p.subrange(off + 1 as int, off + 1 as int) =~= Seq::<u8>::empty());
    assert(focus.push(p[off as int]) + p.subrange(off + 1 as int, off + 1 as int) =~= focus.push(p[off as int]));
}

/// A ground pattern from `off` to its end matches once below `focus` if its
/// bytes extend `focus` to a walkable position, and not at all otherwise.
pub proof fn lemma_ground_item(
    t: Set<Seq<u8>>,
    h: nat,
    p: Seq<u8>,
    focus: Seq<u8>,
    refs: Seq<(usize, usize)>,
    off: nat,
    n: nat,
)
    requires
        live(t, h, focus) || off < p.len(),
        ground_end(p, off, n) == Some(p.len()),
    ensures
        off <= p.len(),
        run(t, h, p, focus, refs, Cont::Item(off)) == ground_count(t, h, p, focus, off),
    decreases h - focus.len(), 1int,
{
    let len = p.len();
    lemma_ground_end_bounds(p, off, n);
    if off >= len {
        assert(focus + p.subrange(off as int, len as int) =~= focus);
    } else {
        match decode(p[off as int]) {
            Some(Tag::Arity(a)) => {
                let q = focus.push(p[off as int]);
                lemma_ground_arity_step(t, h, p, focus, off);
                if live(t, h, q) {
                    assert((a + n - 1) as nat == (a as nat + (n - 1) as nat) as nat);
                    let e = lemma_ground_split(p, off + 1, a as nat, (n - 1) as nat, len);
                    lemma_ground_children(t, h, p, q, refs, off + 1, a as nat, (n - 1) as nat);
                }
            },
            Some(Tag::SymbolSize(k)) => {
                let end = (off + 1 + k) as nat;
                let q = focus.push(p[off as int]) + p.subrange(off + 1 as int, end as int);
                lemma_ground_symbol_step(t, h, p, focus, off, end);
                if live(t, h, q) {
                    lemma_ground_item(t, h, p, q, refs, end, (n - 1) as nat);
                }
                assert(run(t, h, p, focus, refs, Cont::Item(off)) == step(
                    t,
                    h,
                    p,
                    focus,
                    refs,
                    Tag::SymbolSize(k),
                    off,
                    Cont::Item(end),
                ));
            },
            _ => {},
        }
    }
}

proof fn lemma_ground_children(
    t: Set<Seq<u8>>,
    h: nat,
    p: Seq<u8>,
    focus: Seq<u8>,
    refs: Seq<(usize, usize)>,
    off: nat,
    rem: nat,
    n: nat,
)
    requires
        live(t, h, focus),
        ground_cont(p, Cont::Children(off, rem), n),
    ensures
        off <= p.len(),
        run(t, h, p, focus, refs, Cont::Children(off, rem)) == ground_count(t, h, p, focus, off),
    decreases h - focus.len(), 2int,
{
    let len = p.len();
    let e = ground_end(p, off, rem).unwrap();
    lemma_ground_end_bounds(p, off, rem);
    lemma_ground_end_bounds(p, e, n);
    if rem == 0 {
        lemma_ground_item(t, h, p, focus, refs, off, n);
    } else {
        assert(((1 + (rem - 1)) as nat) == rem);
        let e1 = lemma_ground_split(p, off, 1, (rem - 1) as nat, e);
        lemma_ground_item_size(p, off, e1);
        lemma_ground_end_bounds(p, off, 1);
        match decode(p[off as int]) {
            Some(Tag::Arity(sub)) => {
                let q = focus.push(p[off as int]);
                lemma_ground_arity_step(t, h, p, focus, off);
                if live(t, h, q) {
                    lemma_ground_nested(t, h, p, q, refs, off + 1, sub as nat, e1, (rem - 1) as nat, n);
                }
            },
            Some(Tag::SymbolSize(k)) => {
                let end = (off + 1 + k) as nat;
                let q = focus.push(p[off as int]) + p.subrange(off + 1 as int, end as int);
                lemma_ground_symbol_step(t, h, p, focus, off, end);
                if live(t, h, q) {
                    lemma_ground_children(t, h, p, q, refs, end, (rem - 1) as nat, n);
                }
                assert(run(t, h, p, focus, refs, Cont::Children(off, rem)) == step(
                    t,
                    h,
                    p,
                    focus,
                    refs,
                    Tag::SymbolSize(k),
                    off,
                    Cont::Children(end, (rem - 1) as nat),
                ));
            },
            _ => {},
        }
    }
}

proof fn lemma_ground_nested(
    t: Set<Seq<u8>>,
    h: nat,
    p: Seq<u8>,
    focus: Seq<u8>,
    refs: Seq<(usize, usize)>,
    off: nat,
    inner: nat,
    sib: nat,
    outer: nat,
    n: nat,
)
    requires
        live(t, h, focus),
        ground_cont(p, Cont::Nested(off, inner, sib, outer), n),
    ensures
        off <= p.len(),
        run(t, h, p, focus, refs, Cont::Nested(off, inner, sib, outer)) == ground_count(
            t,
            h,
            p,
            focus,
            off,
        ),
    decreases h - focus.len(), 3int,
{
    let len = p.len();
    let e = ground_end(p, sib, outer).unwrap();
    lemma_ground_end_bounds(p, off, inner);
    lemma_ground_end_bounds(p, sib, outer);
    lemma_ground_end_bounds(p, e, n);
    if inner == 0 {
        lemma_ground_children(t, h, p, focus, refs, sib, outer, n);
    } else {
        assert(((1 + (inner - 1)) as nat) == inner);
        let e1 = lemma_ground_split(p, off, 1, (inner - 1) as nat, sib);
        lemma_ground_item_size(p, off, e1);
        lemma_ground_end_bounds(p, off, 1);
        match decode(p[off as int]) {
            Some(Tag::Arity(sub)) => {
                let q = focus.push(p[off as int]);
                lemma_ground_arity_step(t, h, p, focus, off);
                if live(t, h, q) {
                    lemma_ground_nested(
                        t,
                        h,
                        p,
                        q,
                        refs,
                        off + 1,
                        (sub + inner - 1) as nat,
                        sib,
                        outer,
                        n,
                    );
                }
            },
            Some(Tag::SymbolSize(k)) => {
                let end = (off + 1 + k) as nat;
                let q = focus.push(p[off as int]) + p.subrange(off + 1 as int, end as int);
                lemma_ground_symbol_step(t, h, p, focus, off, end);
                if live(t, h, q) {
                    lemma_ground_nested(t, h, p, q, refs, end, (inner - 1) as nat, sib, outer, n);
                }
                assert(run(t, h, p, focus, refs, Cont::Nested(off, inner, sib, outer)) == step(
                    t,
                    h,
                    p,
                    focus,
                    refs,
                    Tag::SymbolSize(k),
                    off,
                    Cont::Nested(end, (inner - 1) as nat, sib, outer),
                ));
            },
            _ => {},
        }
    }
}

} // verus!
