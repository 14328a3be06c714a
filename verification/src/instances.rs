//! What the match count counts: the instances of a pattern that the trie holds.
//!
//! An instance of a pattern is a byte string written as the pattern prescribes:
//! each symbol and arity of the pattern as it stands, each new variable as one
//! whole item of any kind, and each reference as the very bytes of the item that
//! its variable (the `k`-th new variable of the pattern) stands for. The walk of
//! `matching.rs` counts exactly the instances whose path exists below the
//! position where it starts.
use vstd::prelude::*;
use vstd::set_lib::{lemma_map_size, lemma_set_disjoint_lens};
use crate::matching::{
    after_item, item_size, lemma_live_prefix, live, rank, run, step, var_bytes,
    var_bytes_from, var_child, var_items, Cont,
};
use crate::tag::{decode, Tag};
use crate::sexpr_operation::{applied, match_below, SExprMode};
use crate::trie::{bounded_by, height, lemma_finite_bounded, path_exists_in};

verus! {

/// The length of the first `n` whole items of `s`, if `s` starts with `n` whole
/// items: a symbol is its tag and its bytes, an arity is its tag and its items,
/// and a variable byte is an item by itself.
pub open spec fn items_len(s: Seq<u8>, n: nat) -> Option<nat>
    decreases s.len(), n,
{
    if n == 0 {
        Some(0)
    } else if s.len() == 0 {
        None
    } else {
        match decode(s[0]) {
            None => None,
            Some(Tag::SymbolSize(k)) => if s.len() < 1 + k {
                None
            } else {
                match items_len(s.subrange(1 + k, s.len() as int), (n - 1) as nat) {
                    Some(l) => Some((1 + k + l) as nat),
                    None => None,
                }
            },
            Some(Tag::Arity(a)) => match items_len(s.subrange(1, s.len() as int), (n - 1 + a) as nat) {
                Some(l) => Some((1 + l) as nat),
                None => None,
            },
            Some(_) => match items_len(s.subrange(1, s.len() as int), (n - 1) as nat) {
                Some(l) => Some((1 + l) as nat),
                None => None,
            },
        }
    }
}

/// `s` is an instance of what is left of the pattern `p` (the continuation `c`),
/// where the variables met so far stand for the items `vals`.
pub open spec fn inst(p: Seq<u8>, c: Cont, vals: Seq<Seq<u8>>, s: Seq<u8>) -> bool
    decreases s.len(), rank(c), 0int,
{
    match c {
        Cont::Item(off) => {
            if off >= p.len() {
                s.len() == 0
            } else {
                match decode(p[off as int]) {
                    None => false,
                    Some(Tag::Arity(a)) => s.len() > 0 && s[0] == p[off as int] && inst(
                        p,
                        Cont::Children(off + 1, a as nat),
                        vals,
                        s.subrange(1, s.len() as int),
                    ),
                    Some(tag) => {
                        let next_off = match tag {
                            Tag::SymbolSize(n) => (off + 1 + n) as nat,
                            _ => (off + 1) as nat,
                        };
                        item_inst(p, vals, s, tag, off, Cont::Item(next_off))
                    },
                }
            }
        },
        Cont::Children(off, rem) => {
            if rem == 0 {
                inst(p, Cont::Item(off), vals, s)
            } else if off >= p.len() {
                false
            } else {
                match item_size(p, off as int) {
                    None => false,
                    Some(cs) => if cs == 0 {
                        false
                    } else {
                        match decode(p[off as int]) {
                            Some(Tag::Arity(sub)) => s.len() > 0 && s[0] == p[off as int] && inst(
                                p,
                                Cont::Nested(off + 1, sub as nat, off + cs, (rem - 1) as nat),
                                vals,
                                s.subrange(1, s.len() as int),
                            ),
                            Some(tag) => item_inst(p, vals, s, tag, off, after_item(c, off + cs)),
                            None => false,
                        }
                    },
                }
            }
        },
        Cont::Nested(off, inner, sib, outer) => {
            if inner == 0 {
                inst(p, Cont::Children(sib, outer), vals, s)
            } else if off >= p.len() {
                false
            } else {
                match item_size(p, off as int) {
                    None => false,
                    Some(cs) => if cs == 0 {
                        false
                    } else {
                        match decode(p[off as int]) {
                            Some(Tag::Arity(sub)) => sub + inner - 1 <= 255 && s.len() > 0 && s[0]
                                == p[off as int] && inst(
                                p,
                                Cont::Nested(off + 1, (sub + inner - 1) as nat, sib, outer),
                                vals,
                                s.subrange(1, s.len() as int),
                            ),
                            Some(tag) => item_inst(p, vals, s, tag, off, after_item(c, off + cs)),
                            None => false,
                        }
                    },
                }
            }
        },
    }
}

/// `s` starts with an instance of the pattern item `tag` at `off` (a new
/// variable, a reference or a symbol) and goes on with an instance of `next`.
pub open spec fn item_inst(p: Seq<u8>, vals: Seq<Seq<u8>>, s: Seq<u8>, tag: Tag, off: nat, next: Cont) -> bool
    decreases s.len(), 0int, 0int,
{
    match tag {
        Tag::NewVar => match items_len(s, 1) {
            Some(i) => 0 < i <= s.len() && inst(
                p,
                next,
                vals.push(s.subrange(0, i as int)),
                s.subrange(i as int, s.len() as int),
            ),
            None => false,
        },
        Tag::VarRef(k) => {
            &&& (k as int) < vals.len()
            &&& 0 < vals[k as int].len() <= s.len()
            &&& s.subrange(0, vals[k as int].len() as int) == vals[k as int]
            &&& inst(p, next, vals, s.subrange(vals[k as int].len() as int, s.len() as int))
        },
        Tag::SymbolSize(n) => {
            let end = off + 1 + n;
            &&& end <= p.len()
            &&& 1 + n <= s.len()
            &&& s.subrange(0, 1 + n) == p.subrange(off as int, end as int)
            &&& inst(p, next, vals, s.subrange(1 + n, s.len() as int))
        },
        Tag::Arity(_) => false,
    }
}

/// The instances of the whole pattern `p` whose path below `base` exists in the
/// trie whose value paths are `t`.
pub open spec fn instances(t: Set<Seq<u8>>, base: Seq<u8>, p: Seq<u8>) -> Set<Seq<u8>> {
    Set::new(|s: Seq<u8>| path_exists_in(t, base + s) && inst(p, Cont::Item(0), Seq::empty(), s))
}

/// The items the variables stand for, read off the walk's position by their spans.
pub open spec fn vals_of(focus: Seq<u8>, spans: Seq<(usize, usize)>) -> Seq<Seq<u8>> {
    Seq::new(spans.len(), |i: int| focus.subrange(spans[i].0 as int, spans[i].1 as int))
}

/// Every span is a nonempty stretch of `focus`.
pub open spec fn spans_ok(focus: Seq<u8>, spans: Seq<(usize, usize)>) -> bool {
    forall|i: int| 0 <= i < spans.len() ==> #[trigger] spans[i].0 < spans[i].1 <= focus.len()
}

/// The instances of the continuation `c` from `focus` whose path exists.
pub open spec fn run_set(t: Set<Seq<u8>>, h: nat, p: Seq<u8>, focus: Seq<u8>, vals: Seq<Seq<u8>>, c: Cont) -> Set<
    Seq<u8>,
> {
    Set::new(|s: Seq<u8>| live(t, h, focus + s) && inst(p, c, vals, s))
}

/// The instances of one pattern item followed by `next` from `focus` whose path exists.
pub open spec fn step_set(
    t: Set<Seq<u8>>,
    h: nat,
    p: Seq<u8>,
    focus: Seq<u8>,
    vals: Seq<Seq<u8>>,
    tag: Tag,
    off: nat,
    next: Cont,
) -> Set<Seq<u8>> {
    Set::new(|s: Seq<u8>| live(t, h, focus + s) && item_inst(p, vals, s, tag, off, next))
}

/// `s` is the rest of a variable's item (which began with the bytes `w`), made
/// of `n` whole items, followed by an instance of `next`.
pub open spec fn var_rest(p: Seq<u8>, vals: Seq<Seq<u8>>, w: Seq<u8>, n: nat, next: Cont, s: Seq<u8>) -> bool {
    match items_len(s, n) {
        Some(i) => i <= s.len() && inst(
            p,
            next,
            vals.push(w + s.subrange(0, i as int)),
            s.subrange(i as int, s.len() as int),
        ),
        None => false,
    }
}

/// The strings that `var_items` counts, with their first byte at least `b`.
pub open spec fn var_set(
    t: Set<Seq<u8>>,
    h: nat,
    p: Seq<u8>,
    focus: Seq<u8>,
    vals: Seq<Seq<u8>>,
    w: Seq<u8>,
    n: nat,
    next: Cont,
    b: nat,
) -> Set<Seq<u8>> {
    Set::new(
        |s: Seq<u8>|
            live(t, h, focus + s) && var_rest(p, vals, w, n, next, s) && (b == 0 || (s.len() > 0 && s[0]
                >= b)),
    )
}

/// The strings that `var_bytes` counts: `k` bytes of a symbol, then `n` whole
/// items, then `next`; with their first byte at least `b`.
pub open spec fn bytes_set(
    t: Set<Seq<u8>>,
    h: nat,
    p: Seq<u8>,
    focus: Seq<u8>,
    vals: Seq<Seq<u8>>,
    w: Seq<u8>,
    k: nat,
    n: nat,
    next: Cont,
    b: nat,
) -> Set<Seq<u8>> {
    Set::new(
        |s: Seq<u8>|
            live(t, h, focus + s) && k <= s.len() && var_rest(
                p,
                vals,
                w + s.subrange(0, k as int),
                n,
                next,
                s.subrange(k as int, s.len() as int),
            ) && (b == 0 || (s.len() > 0 && s[0] >= b)),
    )
}

/// A set whose members are `x` followed by the members of a finite set `a` has
/// as many members as `a`.
proof fn lemma_shift(x: Seq<u8>, a: Set<Seq<u8>>, bset: Set<Seq<u8>>)
    requires
        a.finite(),
        forall|s: Seq<u8>|
            #[trigger] bset.contains(s) <==> (x.len() <= s.len() && s.subrange(0, x.len() as int) == x
                && a.contains(s.subrange(x.len() as int, s.len() as int))),
    ensures
        bset.finite(),
        bset.len() == a.len(),
{
    let f = |s: Seq<u8>| x + s;
    assert forall|s1: Seq<u8>, s2: Seq<u8>| a.contains(s1) && a.contains(s2) && #[trigger] f(s1) == #[trigger] f(
        s2,
    ) implies s1 == s2 by {
        assert(s1 =~= (x + s1).subrange(x.len() as int, (x + s1).len() as int));
        assert(s2 =~= (x + s2).subrange(x.len() as int, (x + s2).len() as int));
    }
    assert forall|s: Seq<u8>| #[trigger] bset.contains(s) <==> a.map(f).contains(s) by {
        if bset.contains(s) {
            let r = s.subrange(x.len() as int, s.len() as int);
            assert(s =~= x + r);
            assert(a.contains(r) && f(r) == s);
        }
        if a.map(f).contains(s) {
            let r = choose|r: Seq<u8>| a.contains(r) && f(r) == s;
            assert(s.subrange(0, x.len() as int) =~= x);
            assert(s.subrange(x.len() as int, s.len() as int) =~= r);
        }
    }
    assert(bset =~= a.map(f));
    lemma_map_size(a, a.map(f), f);
}

/// A set that is the disjoint union of two finite sets has their sizes' sum.
proof fn lemma_split(u: Set<Seq<u8>>, a: Set<Seq<u8>>, b: Set<Seq<u8>>)
    requires
        a.finite(),
        b.finite(),
        a.disjoint(b),
        forall|s: Seq<u8>| #[trigger] u.contains(s) <==> (a.contains(s) || b.contains(s)),
    ensures
        u.finite(),
        u.len() == a.len() + b.len(),
{
    assert(u =~= a + b);
    lemma_set_disjoint_lens(a, b);
}

/// A set with no member has size 0.
proof fn lemma_none(u: Set<Seq<u8>>)
    requires
        forall|s: Seq<u8>| !(#[trigger] u.contains(s)),
    ensures
        u.finite(),
        u.len() == 0,
{
    assert(u =~= Set::<Seq<u8>>::empty());
}

/// Going on from a longer position leaves the spans and what they stand for as they were.
proof fn lemma_vals_extend(focus: Seq<u8>, x: Seq<u8>, spans: Seq<(usize, usize)>)
    requires
        spans_ok(focus, spans),
    ensures
        spans_ok(focus + x, spans),
        vals_of(focus + x, spans) == vals_of(focus, spans),
{
    assert(vals_of(focus + x, spans) =~= vals_of(focus, spans)) by {
        assert forall|i: int| 0 <= i < spans.len() implies vals_of(focus + x, spans)[i] == vals_of(
            focus,
            spans,
        )[i] by {
            let a = spans[i].0 as int;
            let e = spans[i].1 as int;
            assert(a < e <= focus.len());
            assert forall|j: int| 0 <= j < e - a implies #[trigger] (focus + x).subrange(a, e)[j] == focus.subrange(a, e)[j] by {
                assert((focus + x)[a + j] == focus[a + j]);
            }
            assert((focus + x).subrange(a, e) =~= focus.subrange(a, e));
        }
    }
}


/// A walkable position fits in memory when every value path does.
proof fn lemma_fits(t: Set<Seq<u8>>, h: nat, focus: Seq<u8>)
    requires
        bounded_by(t, usize::MAX as nat),
        live(t, h, focus),
    ensures
        focus.len() <= usize::MAX,
{
    let k = choose|k: Seq<u8>| #[trigger] t.contains(k) && focus.is_prefix_of(k);
    assert(k.len() <= usize::MAX);
}

/// No string that starts with `x` can be walked from `focus` when `focus + x` cannot.
proof fn lemma_dead(t: Set<Seq<u8>>, h: nat, focus: Seq<u8>, x: Seq<u8>)
    requires
        !live(t, h, focus + x),
    ensures
        forall|s: Seq<u8>|
            x.len() <= s.len() && s.subrange(0, x.len() as int) == x ==> !#[trigger] live(t, h, focus + s),
{
    assert forall|s: Seq<u8>| x.len() <= s.len() && s.subrange(0, x.len() as int) == x implies !#[trigger] live(
        t,
        h,
        focus + s,
    ) by {
        let r = s.subrange(x.len() as int, s.len() as int);
        assert(focus + s =~= (focus + x) + r);
        if live(t, h, focus + s) {
            lemma_live_prefix(t, h, focus + x, r);
        }
    }
}

/// Taking `n > 0` whole items takes at least one byte and at most all of `s`.
proof fn lemma_items_len(s: Seq<u8>, n: nat)
    ensures
        items_len(s, n) matches Some(i) ==> i <= s.len() && (n > 0 ==> 0 < i),
    decreases s.len(), n,
{
    if n > 0 && s.len() > 0 {
        let r1 = s.subrange(1, s.len() as int);
        match decode(s[0]) {
            Some(Tag::SymbolSize(k)) => {
                if s.len() >= 1 + k {
                    lemma_items_len(s.subrange(1 + k, s.len() as int), (n - 1) as nat);
                }
            },
            Some(Tag::Arity(a)) => {
                lemma_items_len(r1, (n - 1 + a) as nat);
            },
            Some(_) => {
                lemma_items_len(r1, (n - 1) as nat);
            },
            None => {},
        }
    }
}

/// The instances of `c` from `focus` are as many as the walk counts.
pub proof fn lemma_run_counts(t: Set<Seq<u8>>, h: nat, p: Seq<u8>, focus: Seq<u8>, spans: Seq<(usize, usize)>, c: Cont)
    requires
        bounded_by(t, usize::MAX as nat),
        live(t, h, focus),
        spans_ok(focus, spans),
        run(t, h, p, focus, spans, c) is Some,
    ensures
        run_set(t, h, p, focus, vals_of(focus, spans), c).finite(),
        run(t, h, p, focus, spans, c) == Some(run_set(t, h, p, focus, vals_of(focus, spans), c).len()),
    decreases h - focus.len(), rank(c), 1int,
{
    let vals = vals_of(focus, spans);
    let u = run_set(t, h, p, focus, vals, c);
    match c {
        Cont::Item(off) => {
            if off >= p.len() {
                assert(focus + Seq::<u8>::empty() =~= focus);
                assert forall|s: Seq<u8>| #[trigger] u.contains(s) <==> s == Seq::<u8>::empty() by {
                    if s.len() == 0 {
                        assert(s =~= Seq::<u8>::empty());
                    }
                }
                assert(u =~= Set::<Seq<u8>>::empty().insert(Seq::<u8>::empty()));
            } else {
                match decode(p[off as int]) {
                    Some(Tag::Arity(a)) => {
                        let x = seq![p[off as int]];
                        let c2 = Cont::Children(off + 1, a as nat);
                        lemma_arity_tag(t, h, p, focus, spans, x, c, c2);
                    },
                    Some(tag) => {
                        let next_off = match tag {
                            Tag::SymbolSize(n) => (off + 1 + n) as nat,
                            _ => (off + 1) as nat,
                        };
                        lemma_step_counts(t, h, p, focus, spans, tag, off, Cont::Item(next_off));
                        assert(u =~= step_set(t, h, p, focus, vals, tag, off, Cont::Item(next_off)));
                    },
                    None => {},
                }
            }
        },
        Cont::Children(off, rem) => {
            if rem == 0 {
                lemma_run_counts(t, h, p, focus, spans, Cont::Item(off));
                assert(u =~= run_set(t, h, p, focus, vals, Cont::Item(off)));
            } else if off >= p.len() {
                lemma_none(u);
            } else {
                match item_size(p, off as int) {
                    Some(cs) => {
                        if cs == 0 {
                            lemma_none(u);
                        } else {
                            match decode(p[off as int]) {
                                Some(Tag::Arity(sub)) => {
                                    let x = seq![p[off as int]];
                                    let c2 = Cont::Nested(off + 1, sub as nat, off + cs, (rem - 1) as nat);
                                    lemma_arity_tag(t, h, p, focus, spans, x, c, c2);
                                },
                                Some(tag) => {
                                    let nc = after_item(c, off + cs);
                                    lemma_step_counts(t, h, p, focus, spans, tag, off, nc);
                                    assert(u =~= step_set(t, h, p, focus, vals, tag, off, nc));
                                },
                                None => {},
                            }
                        }
                    },
                    None => {},
                }
            }
        },
        Cont::Nested(off, inner, sib, outer) => {
            if inner == 0 {
                lemma_run_counts(t, h, p, focus, spans, Cont::Children(sib, outer));
                assert(u =~= run_set(t, h, p, focus, vals, Cont::Children(sib, outer)));
            } else if off >= p.len() {
                lemma_none(u);
            } else {
                match item_size(p, off as int) {
                    Some(cs) => {
                        if cs == 0 {
                            lemma_none(u);
                        } else {
                            match decode(p[off as int]) {
                                Some(Tag::Arity(sub)) => {
                                    if sub + inner - 1 > 255 {
                                        lemma_none(u);
                                    } else {
                                        let x = seq![p[off as int]];
                                        let c2 = Cont::Nested(off + 1, (sub + inner - 1) as nat, sib, outer);
                                        lemma_arity_tag(t, h, p, focus, spans, x, c, c2);
                                    }
                                },
                                Some(tag) => {
                                    let nc = after_item(c, off + cs);
                                    lemma_step_counts(t, h, p, focus, spans, tag, off, nc);
                                    assert(u =~= step_set(t, h, p, focus, vals, tag, off, nc));
                                },
                                None => {},
                            }
                        }
                    },
                    None => {},
                }
            }
        },
    }
}

/// An arity tag of the pattern, the one byte `x`: its instances are `x` followed
/// by those of `c2` from one byte further.
proof fn lemma_arity_tag(
    t: Set<Seq<u8>>,
    h: nat,
    p: Seq<u8>,
    focus: Seq<u8>,
    spans: Seq<(usize, usize)>,
    x: Seq<u8>,
    c: Cont,
    c2: Cont,
)
    requires
        bounded_by(t, usize::MAX as nat),
        live(t, h, focus),
        spans_ok(focus, spans),
        run(t, h, p, focus, spans, c) is Some,
        x.len() == 1,
        run(t, h, p, focus, spans, c) == (if live(t, h, focus.push(x[0])) {
            run(t, h, p, focus.push(x[0]), spans, c2)
        } else {
            Some(0)
        }),
        forall|s: Seq<u8>|
            #[trigger] inst(p, c, vals_of(focus, spans), s) <==> (s.len() > 0 && s[0] == x[0] && inst(
                p,
                c2,
                vals_of(focus, spans),
                s.subrange(1, s.len() as int),
            )),
    ensures
        run_set(t, h, p, focus, vals_of(focus, spans), c).finite(),
        run(t, h, p, focus, spans, c) == Some(run_set(t, h, p, focus, vals_of(focus, spans), c).len()),
    decreases h - focus.len(), rank(c), 0int,
{
    let vals = vals_of(focus, spans);
    let u = run_set(t, h, p, focus, vals, c);
    let q = focus.push(x[0]);
    assert(q =~= focus + x);
    if live(t, h, q) {
        lemma_vals_extend(focus, x, spans);
        lemma_run_counts(t, h, p, q, spans, c2);
        let a = run_set(t, h, p, q, vals, c2);
        assert forall|s: Seq<u8>| #[trigger] u.contains(s) <==> (x.len() <= s.len() && s.subrange(0, x.len() as int)
            == x && a.contains(s.subrange(x.len() as int, s.len() as int))) by {
            let r = s.subrange(1, s.len() as int);
            if s.len() > 0 {
                if s.subrange(0, 1) == x {
                    assert(s.subrange(0, 1)[0] == s[0]);
                }
                if s[0] == x[0] {
                    assert(s.subrange(0, 1) =~= x);
                    assert(focus + s =~= q + r);
                }
            }
        }
        lemma_shift(x, a, u);
    } else {
        lemma_dead(t, h, focus, x);
        assert forall|s: Seq<u8>| !(#[trigger] u.contains(s)) by {
            if s.len() > 0 && s[0] == x[0] {
                assert(s.subrange(0, 1) =~= x);
            }
        }
        lemma_none(u);
    }
}

/// The instances of one pattern item and `next` from `focus` are as many as the
/// walk counts.
pub proof fn lemma_step_counts(
    t: Set<Seq<u8>>,
    h: nat,
    p: Seq<u8>,
    focus: Seq<u8>,
    spans: Seq<(usize, usize)>,
    tag: Tag,
    off: nat,
    next: Cont,
)
    requires
        bounded_by(t, usize::MAX as nat),
        live(t, h, focus),
        spans_ok(focus, spans),
        step(t, h, p, focus, spans, tag, off, next) is Some,
    ensures
        step_set(t, h, p, focus, vals_of(focus, spans), tag, off, next).finite(),
        step(t, h, p, focus, spans, tag, off, next) == Some(
            step_set(t, h, p, focus, vals_of(focus, spans), tag, off, next).len(),
        ),
    decreases h - focus.len(), 0int, 257int,
{
    let vals = vals_of(focus, spans);
    let u = step_set(t, h, p, focus, vals, tag, off, next);
    lemma_fits(t, h, focus);
    match tag {
        Tag::NewVar => {
            let start = focus.len();
            lemma_var_child_counts(t, h, p, focus, spans, start, 1, next, 0);
            let w = focus.subrange(start as int, focus.len() as int);
            assert(w =~= Seq::<u8>::empty());
            assert forall|s: Seq<u8>| #[trigger] u.contains(s) <==> var_set(t, h, p, focus, vals, w, 1, next, 0).contains(s) by {
                lemma_items_len(s, 1);
                if let Some(i) = items_len(s, 1) {
                    assert(w + s.subrange(0, i as int) =~= s.subrange(0, i as int));
                }
            }
            assert(u =~= var_set(t, h, p, focus, vals, w, 1, next, 0));
        },
        Tag::VarRef(k) => {
            if (k as int) < spans.len() {
                let x = vals[k as int];
                let q = focus + focus.subrange(spans[k as int].0 as int, spans[k as int].1 as int);
                assert(q == focus + x);
                if live(t, h, q) {
                    lemma_vals_extend(focus, x, spans);
                    lemma_run_counts(t, h, p, q, spans, next);
                    let a = run_set(t, h, p, q, vals, next);
                    assert forall|s: Seq<u8>| #[trigger] u.contains(s) <==> (x.len() <= s.len() && s.subrange(
                        0,
                        x.len() as int,
                    ) == x && a.contains(s.subrange(x.len() as int, s.len() as int))) by {
                        if x.len() <= s.len() && s.subrange(0, x.len() as int) == x {
                            assert(focus + s =~= q + s.subrange(x.len() as int, s.len() as int));
                        }
                    }
                    lemma_shift(x, a, u);
                } else {
                    lemma_dead(t, h, focus, x);
                    lemma_none(u);
                }
            } else {
                lemma_none(u);
            }
        },
        Tag::SymbolSize(n) => {
            let end = off + 1 + n;
            if end > p.len() {
                lemma_none(u);
            } else {
                let x = p.subrange(off as int, end as int);
                let q = focus.push(p[off as int]) + p.subrange(off + 1 as int, end as int);
                assert(q =~= focus + x);
                if live(t, h, q) {
                    lemma_vals_extend(focus, x, spans);
                    lemma_run_counts(t, h, p, q, spans, next);
                    let a = run_set(t, h, p, q, vals, next);
                    assert forall|s: Seq<u8>| #[trigger] u.contains(s) <==> (x.len() <= s.len() && s.subrange(
                        0,
                        x.len() as int,
                    ) == x && a.contains(s.subrange(x.len() as int, s.len() as int))) by {
                        if x.len() <= s.len() && s.subrange(0, x.len() as int) == x {
                            assert(focus + s =~= q + s.subrange(x.len() as int, s.len() as int));
                        }
                    }
                    lemma_shift(x, a, u);
                } else {
                    lemma_dead(t, h, focus, x);
                    lemma_none(u);
                }
            }
        },
        Tag::Arity(_) => {
            lemma_none(u);
        },
    }
}


/// A new variable that began at `start` and still takes `n` whole items: the
/// strings it goes on with are as many as the walk counts.
pub proof fn lemma_var_items_counts(
    t: Set<Seq<u8>>,
    h: nat,
    p: Seq<u8>,
    focus: Seq<u8>,
    spans: Seq<(usize, usize)>,
    start: nat,
    n: nat,
    next: Cont,
)
    requires
        bounded_by(t, usize::MAX as nat),
        live(t, h, focus),
        spans_ok(focus, spans),
        start <= focus.len(),
        n == 0 ==> start < focus.len(),
        var_items(t, h, p, focus, spans, start, n, next) is Some,
    ensures
        ({
            let u = var_set(
                t,
                h,
                p,
                focus,
                vals_of(focus, spans),
                focus.subrange(start as int, focus.len() as int),
                n,
                next,
                0,
            );
            &&& u.finite()
            &&& var_items(t, h, p, focus, spans, start, n, next) == Some(u.len())
        }),
    decreases h - focus.len(), 4int, 0int,
{
    let vals = vals_of(focus, spans);
    let w = focus.subrange(start as int, focus.len() as int);
    let u = var_set(t, h, p, focus, vals, w, n, next, 0);
    lemma_fits(t, h, focus);
    if n == 0 {
        let spans2 = spans.push((start as usize, focus.len() as usize));
        assert(spans_ok(focus, spans2)) by {
            assert forall|i: int| 0 <= i < spans2.len() implies #[trigger] spans2[i].0 < spans2[i].1 <= focus.len() by {
                if i < spans.len() {
                    assert(spans2[i] == spans[i]);
                }
            }
        }
        assert(vals_of(focus, spans2) =~= vals.push(w));
        lemma_run_counts(t, h, p, focus, spans2, next);
        assert forall|s: Seq<u8>| #[trigger] u.contains(s) <==> run_set(t, h, p, focus, vals.push(w), next).contains(s) by {
            assert(w + s.subrange(0, 0) =~= w);
            assert(s.subrange(0, s.len() as int) =~= s);
        }
        assert(u =~= run_set(t, h, p, focus, vals.push(w), next));
    } else {
        lemma_var_child_counts(t, h, p, focus, spans, start, n, next, 0);
    }
}

/// The part of `lemma_var_items_counts` for the strings whose first byte is at least `b`.
pub proof fn lemma_var_child_counts(
    t: Set<Seq<u8>>,
    h: nat,
    p: Seq<u8>,
    focus: Seq<u8>,
    spans: Seq<(usize, usize)>,
    start: nat,
    n: nat,
    next: Cont,
    b: nat,
)
    requires
        bounded_by(t, usize::MAX as nat),
        live(t, h, focus),
        spans_ok(focus, spans),
        start <= focus.len(),
        n > 0,
        b <= 256,
        var_child(t, h, p, focus, spans, start, n, next, b) is Some,
    ensures
        ({
            let u = var_set(
                t,
                h,
                p,
                focus,
                vals_of(focus, spans),
                focus.subrange(start as int, focus.len() as int),
                n,
                next,
                b,
            );
            &&& u.finite()
            &&& var_child(t, h, p, focus, spans, start, n, next, b) == Some(u.len())
        }),
    decreases h - focus.len(), 0int, 256 - b,
{
    let vals = vals_of(focus, spans);
    let w = focus.subrange(start as int, focus.len() as int);
    let u = var_set(t, h, p, focus, vals, w, n, next, b);
    if b >= 256 {
        assert forall|s: Seq<u8>| !(#[trigger] u.contains(s)) by {
            if u.contains(s) && b == 0 {
            }
        }
        lemma_none(u);
    } else {
        let bb = b as u8;
        let x = seq![bb];
        let q = focus.push(bb);
        assert(q =~= focus + x);
        lemma_var_child_counts(t, h, p, focus, spans, start, n, next, b + 1);
        let rest = var_set(t, h, p, focus, vals, w, n, next, b + 1);
        let part = Set::new(|s: Seq<u8>| u.contains(s) && s.len() > 0 && s[0] == bb);
        assert forall|s: Seq<u8>| #[trigger] u.contains(s) <==> (part.contains(s) || rest.contains(s)) by {
            if u.contains(s) {
                if s.len() == 0 {
                    assert(items_len(s, n) is None);
                }
            }
        }
        let wq = q.subrange(start as int, q.len() as int);
        assert(wq =~= w.push(bb));
        if live(t, h, q) {
            lemma_vals_extend(focus, x, spans);
            lemma_fits(t, h, q);
            match decode(bb) {
                Some(Tag::SymbolSize(k)) => {
                    lemma_var_bytes_counts(t, h, p, q, spans, start, k as nat, (n - 1) as nat, next);
                    let a = bytes_set(t, h, p, q, vals, wq, k as nat, (n - 1) as nat, next, 0);
                    assert forall|s: Seq<u8>| #[trigger] part.contains(s) <==> (x.len() <= s.len() && s.subrange(
                        0,
                        x.len() as int,
                    ) == x && a.contains(s.subrange(x.len() as int, s.len() as int))) by {
                        lemma_var_symbol_member(t, h, p, focus, vals, w, n, next, bb, k, s);
                    }
                    lemma_shift(x, a, part);
                },
                Some(Tag::Arity(ar)) => {
                    let m = (n - 1 + ar) as nat;
                    lemma_var_items_counts(t, h, p, q, spans, start, m, next);
                    let a = var_set(t, h, p, q, vals, wq, m, next, 0);
                    assert forall|s: Seq<u8>| #[trigger] part.contains(s) <==> (x.len() <= s.len() && s.subrange(
                        0,
                        x.len() as int,
                    ) == x && a.contains(s.subrange(x.len() as int, s.len() as int))) by {
                        lemma_var_one_member(t, h, p, focus, vals, w, n, m, next, bb, s);
                    }
                    lemma_shift(x, a, part);
                },
                Some(_) => {
                    let m = (n - 1) as nat;
                    lemma_var_items_counts(t, h, p, q, spans, start, m, next);
                    let a = var_set(t, h, p, q, vals, wq, m, next, 0);
                    assert forall|s: Seq<u8>| #[trigger] part.contains(s) <==> (x.len() <= s.len() && s.subrange(
                        0,
                        x.len() as int,
                    ) == x && a.contains(s.subrange(x.len() as int, s.len() as int))) by {
                        lemma_var_one_member(t, h, p, focus, vals, w, n, m, next, bb, s);
                    }
                    lemma_shift(x, a, part);
                },
                None => {},
            }
        } else {
            lemma_dead(t, h, focus, x);
            assert forall|s: Seq<u8>| !(#[trigger] part.contains(s)) by {
                if s.len() > 0 && s[0] == bb {
                    assert(s.subrange(0, 1) =~= x);
                }
            }
            lemma_none(part);
        }
        lemma_split(u, part, rest);
    }
}

/// Membership in the first-byte part of `var_set` when that byte is the tag of
/// a one-byte-headed item whose rest is `m` whole items (an arity or a variable).
proof fn lemma_var_one_member(
    t: Set<Seq<u8>>,
    h: nat,
    p: Seq<u8>,
    focus: Seq<u8>,
    vals: Seq<Seq<u8>>,
    w: Seq<u8>,
    n: nat,
    m: nat,
    next: Cont,
    bb: u8,
    s: Seq<u8>,
)
    requires
        n > 0,
        decode(bb) is Some,
        !(decode(bb).unwrap() is SymbolSize),
        m == (match decode(bb).unwrap() {
            Tag::Arity(ar) => (n - 1 + ar) as nat,
            _ => (n - 1) as nat,
        }),
    ensures
        (live(t, h, focus + s) && var_rest(p, vals, w, n, next, s) && s.len() > 0 && s[0] == bb) <==> (1 <= s.len()
            && s.subrange(0, 1) == seq![bb] && live(t, h, focus.push(bb) + s.subrange(1, s.len() as int))
            && var_rest(p, vals, w.push(bb), m, next, s.subrange(1, s.len() as int))),
{
    if s.len() > 0 {
        let r = s.subrange(1, s.len() as int);
        assert(focus + s =~= focus.push(s[0]) + r);
        if s.subrange(0, 1) == seq![bb] {
            assert(s.subrange(0, 1)[0] == s[0]);
        }
        if s[0] == bb {
            assert(s.subrange(0, 1) =~= seq![bb]);
            lemma_items_len(r, m);
            if let Some(l) = items_len(r, m) {
                assert(w + s.subrange(0, 1 + l as int) =~= w.push(bb) + r.subrange(0, l as int));
                assert(s.subrange(1 + l as int, s.len() as int) =~= r.subrange(l as int, r.len() as int));
            }
        }
    }
}

/// Membership in the first-byte part of `var_set` when that byte is the tag of a
/// symbol of `k` bytes.
proof fn lemma_var_symbol_member(
    t: Set<Seq<u8>>,
    h: nat,
    p: Seq<u8>,
    focus: Seq<u8>,
    vals: Seq<Seq<u8>>,
    w: Seq<u8>,
    n: nat,
    next: Cont,
    bb: u8,
    k: u8,
    s: Seq<u8>,
)
    requires
        n > 0,
        decode(bb) == Some(Tag::SymbolSize(k)),
    ensures
        (live(t, h, focus + s) && var_rest(p, vals, w, n, next, s) && s.len() > 0 && s[0] == bb) <==> (1 <= s.len()
            && s.subrange(0, 1) == seq![bb] && ({
            let r = s.subrange(1, s.len() as int);
            &&& live(t, h, focus.push(bb) + r)
            &&& k <= r.len()
            &&& var_rest(
                p,
                vals,
                w.push(bb) + r.subrange(0, k as int),
                (n - 1) as nat,
                next,
                r.subrange(k as int, r.len() as int),
            )
        })),
{
    if s.len() > 0 {
        let r = s.subrange(1, s.len() as int);
        assert(focus + s =~= focus.push(s[0]) + r);
        if s.subrange(0, 1) == seq![bb] {
            assert(s.subrange(0, 1)[0] == s[0]);
        }
        if s[0] == bb {
            assert(s.subrange(0, 1) =~= seq![bb]);
            if k <= r.len() {
                let r2 = r.subrange(k as int, r.len() as int);
                assert(s.subrange(1 + k as int, s.len() as int) =~= r2);
                lemma_items_len(r2, (n - 1) as nat);
                if let Some(l) = items_len(r2, (n - 1) as nat) {
                    assert(w + s.subrange(0, 1 + k as int + l as int) =~= w.push(bb) + r.subrange(0, k as int) + r2.subrange(
                        0,
                        l as int,
                    ));
                    assert(s.subrange(1 + k as int + l as int, s.len() as int) =~= r2.subrange(l as int, r2.len() as int));
                }
            }
        }
    }
}

/// A new variable that still takes `k` bytes of a symbol and then `n` whole
/// items: the strings it goes on with are as many as the walk counts.
pub proof fn lemma_var_bytes_counts(
    t: Set<Seq<u8>>,
    h: nat,
    p: Seq<u8>,
    focus: Seq<u8>,
    spans: Seq<(usize, usize)>,
    start: nat,
    k: nat,
    n: nat,
    next: Cont,
)
    requires
        bounded_by(t, usize::MAX as nat),
        live(t, h, focus),
        spans_ok(focus, spans),
        start < focus.len(),
        var_bytes(t, h, p, focus, spans, start, k, n, next) is Some,
    ensures
        ({
            let u = bytes_set(
                t,
                h,
                p,
                focus,
                vals_of(focus, spans),
                focus.subrange(start as int, focus.len() as int),
                k,
                n,
                next,
                0,
            );
            &&& u.finite()
            &&& var_bytes(t, h, p, focus, spans, start, k, n, next) == Some(u.len())
        }),
    decreases h - focus.len(), 6int, 0int,
{
    let vals = vals_of(focus, spans);
    let w = focus.subrange(start as int, focus.len() as int);
    let u = bytes_set(t, h, p, focus, vals, w, k, n, next, 0);
    if k == 0 {
        lemma_var_items_counts(t, h, p, focus, spans, start, n, next);
        assert forall|s: Seq<u8>| #[trigger] u.contains(s) <==> var_set(t, h, p, focus, vals, w, n, next, 0).contains(s) by {
            assert(w + s.subrange(0, 0) =~= w);
            assert(s.subrange(0, s.len() as int) =~= s);
        }
        assert(u =~= var_set(t, h, p, focus, vals, w, n, next, 0));
    } else {
        lemma_var_bytes_from_counts(t, h, p, focus, spans, start, k, n, next, 0);
    }
}

/// The part of `lemma_var_bytes_counts` for the strings whose first byte is at least `b`.
pub proof fn lemma_var_bytes_from_counts(
    t: Set<Seq<u8>>,
    h: nat,
    p: Seq<u8>,
    focus: Seq<u8>,
    spans: Seq<(usize, usize)>,
    start: nat,
    k: nat,
    n: nat,
    next: Cont,
    b: nat,
)
    requires
        bounded_by(t, usize::MAX as nat),
        live(t, h, focus),
        spans_ok(focus, spans),
        start < focus.len(),
        k > 0,
        b <= 256,
        var_bytes_from(t, h, p, focus, spans, start, k, n, next, b) is Some,
    ensures
        ({
            let u = bytes_set(
                t,
                h,
                p,
                focus,
                vals_of(focus, spans),
                focus.subrange(start as int, focus.len() as int),
                k,
                n,
                next,
                b,
            );
            &&& u.finite()
            &&& var_bytes_from(t, h, p, focus, spans, start, k, n, next, b) == Some(u.len())
        }),
    decreases h - focus.len(), 5int, 256 - b,
{
    let vals = vals_of(focus, spans);
    let w = focus.subrange(start as int, focus.len() as int);
    let u = bytes_set(t, h, p, focus, vals, w, k, n, next, b);
    if b >= 256 {
        lemma_none(u);
    } else {
        let bb = b as u8;
        let x = seq![bb];
        let q = focus.push(bb);
        assert(q =~= focus + x);
        lemma_var_bytes_from_counts(t, h, p, focus, spans, start, k, n, next, b + 1);
        let rest = bytes_set(t, h, p, focus, vals, w, k, n, next, b + 1);
        let part = Set::new(|s: Seq<u8>| u.contains(s) && s.len() > 0 && s[0] == bb);
        assert forall|s: Seq<u8>| #[trigger] u.contains(s) <==> (part.contains(s) || rest.contains(s)) by {
        }
        let wq = q.subrange(start as int, q.len() as int);
        assert(wq =~= w.push(bb));
        if live(t, h, q) {
            lemma_vals_extend(focus, x, spans);
            lemma_var_bytes_counts(t, h, p, q, spans, start, (k - 1) as nat, n, next);
            let a = bytes_set(t, h, p, q, vals, wq, (k - 1) as nat, n, next, 0);
            assert forall|s: Seq<u8>| #[trigger] part.contains(s) <==> (x.len() <= s.len() && s.subrange(
                0,
                x.len() as int,
            ) == x && a.contains(s.subrange(x.len() as int, s.len() as int))) by {
                if s.len() > 0 {
                    let r = s.subrange(1, s.len() as int);
                    assert(focus + s =~= focus.push(s[0]) + r);
                    if s.subrange(0, 1) == x {
                        assert(s.subrange(0, 1)[0] == s[0]);
                    }
                    if s[0] == bb {
                        assert(s.subrange(0, 1) =~= x);
                        if k <= s.len() {
                            assert(w + s.subrange(0, k as int) =~= wq + r.subrange(0, k - 1));
                            assert(s.subrange(k as int, s.len() as int) =~= r.subrange(k - 1, r.len() as int));
                        }
                    }
                }
            }
            lemma_shift(x, a, part);
        } else {
            lemma_dead(t, h, focus, x);
            assert forall|s: Seq<u8>| !(#[trigger] part.contains(s)) by {
                if s.len() > 0 && s[0] == bb {
                    assert(s.subrange(0, 1) =~= x);
                }
            }
            lemma_none(part);
        }
        lemma_split(u, part, rest);
    }
}


/// Below a position that does not exist, a new variable finds no item.
proof fn lemma_var_child_dead(
    t: Set<Seq<u8>>,
    h: nat,
    p: Seq<u8>,
    focus: Seq<u8>,
    spans: Seq<(usize, usize)>,
    start: nat,
    n: nat,
    next: Cont,
    b: nat,
)
    requires
        !live(t, h, focus),
        b <= 256,
    ensures
        var_child(t, h, p, focus, spans, start, n, next, b) == Some(0nat),
    decreases 256 - b,
{
    if b < 256 && n > 0 {
        let x = seq![b as u8];
        assert(focus.push(b as u8) =~= focus + x);
        if live(t, h, focus + x) {
            lemma_live_prefix(t, h, focus, x);
        }
        lemma_var_child_dead(t, h, p, focus, spans, start, n, next, b + 1);
    }
}

/// The match count: a nonempty pattern matched below `base` counts exactly its
/// instances whose path below `base` exists in the trie (whose value paths,
/// finitely many, are `t`), where a new variable stands for any one whole item
/// and a reference for the very bytes of the item its variable stands for.
pub proof fn lemma_match_counts_instances(t: Set<Seq<u8>>, base: Seq<u8>, p: Seq<u8>)
    requires
        t.finite(),
        bounded_by(t, usize::MAX as nat),
        p.len() > 0,
        match_below(t, base, p) is Some,
    ensures
        instances(t, base, p).finite(),
        match_below(t, base, p) == Some(instances(t, base, p).len()),
{
    lemma_finite_bounded(t);
    let h = height(t);
    let u = instances(t, base, p);
    let spans = Seq::<(usize, usize)>::empty();
    assert(vals_of(base, spans) =~= Seq::<Seq<u8>>::empty());
    assert forall|s: Seq<u8>| path_exists_in(t, base + s) implies #[trigger] live(t, h, base + s) by {
        let k = choose|k: Seq<u8>| #[trigger] t.contains(k) && (base + s).is_prefix_of(k);
        assert(k.len() <= h);
    }
    if live(t, h, base) {
        lemma_run_counts(t, h, p, base, spans, Cont::Item(0));
        assert(u =~= run_set(t, h, p, base, vals_of(base, spans), Cont::Item(0)));
        assert(match_below(t, base, p) == run(t, h, p, base, spans, Cont::Item(0)));
    } else {
        assert forall|s: Seq<u8>| !(#[trigger] u.contains(s)) by {
            if path_exists_in(t, base + s) {
                lemma_live_prefix(t, h, base, s);
            }
        }
        lemma_none(u);
        let x = seq![p[0]];
        assert(base.push(p[0]) =~= base + x);
        if live(t, h, base + x) {
            lemma_live_prefix(t, h, base, x);
        }
        match decode(p[0]) {
            Some(Tag::SymbolSize(n)) => {
                if 1 + n <= p.len() {
                    let y = p.subrange(0, 1 + n as int);
                    assert(base.push(p[0]) + p.subrange(1, 1 + n as int) =~= base + y);
                    if live(t, h, base + y) {
                        lemma_live_prefix(t, h, base, y);
                    }
                }
                assert(step(t, h, p, base, spans, Tag::SymbolSize(n), 0, Cont::Item((1 + n) as nat)) == Some(0nat));
                assert(run(t, h, p, base, spans, Cont::Item(0)) == Some(0nat));
            },
            Some(Tag::NewVar) => {
                lemma_var_child_dead(t, h, p, base, spans, base.len(), 1, Cont::Item(1), 0);
                assert(step(t, h, p, base, spans, Tag::NewVar, 0, Cont::Item(1)) == Some(0nat));
                assert(run(t, h, p, base, spans, Cont::Item(0)) == Some(0nat));
            },
            Some(Tag::VarRef(k)) => {
                assert(step(t, h, p, base, spans, Tag::VarRef(k), 0, Cont::Item(1)) == Some(0nat));
                assert(run(t, h, p, base, spans, Cont::Item(0)) == Some(0nat));
            },
            _ => {
                assert(run(t, h, p, base, spans, Cont::Item(0)) == Some(0nat));
            },
        }
        assert(match_below(t, base, p) == run(t, h, p, base, spans, Cont::Item(0)));
    }
}


/// A successful application in `Match` mode leaves the trie as it is and adds to
/// the counter the number of instances of the pattern below `base`.
pub proof fn lemma_match_adds_instances<H: Default>(
    p: Seq<u8>,
    base: Seq<u8>,
    before: Map<Seq<u8>, H>,
    after: Map<Seq<u8>, H>,
    c0: nat,
    c1: nat,
)
    requires
        before.dom().finite(),
        bounded_by(before.dom(), usize::MAX as nat),
        p.len() > 0,
        applied(SExprMode::Match, p, base, before, after, c0, c1, true),
    ensures
        after == before,
        c1 == c0 + instances(before.dom(), base, p).len(),
{
    lemma_match_counts_instances(before.dom(), base, p);
}


/// `n` whole items take at least `n` bytes.
proof fn lemma_items_at_least(s: Seq<u8>, n: nat)
    ensures
        items_len(s, n) matches Some(l) ==> n <= l,
    decreases s.len(), n,
{
    if n > 0 && s.len() > 0 {
        match decode(s[0]) {
            Some(Tag::SymbolSize(k)) => {
                if s.len() >= 1 + k {
                    lemma_items_at_least(s.subrange(1 + k, s.len() as int), (n - 1) as nat);
                }
            },
            Some(Tag::Arity(a)) => {
                lemma_items_at_least(s.subrange(1, s.len() as int), (n - 1 + a) as nat);
            },
            Some(_) => {
                lemma_items_at_least(s.subrange(1, s.len() as int), (n - 1) as nat);
            },
            None => {},
        }
    }
}

/// The only value paths below `base` are `base + x` and perhaps `base`: the walk
/// can go on from `base` followed by the first `i` bytes of `x` only with the
/// next byte of `x`.
proof fn lemma_only_path(t: Set<Seq<u8>>, h: nat, base: Seq<u8>, x: Seq<u8>, i: int, b: u8)
    requires
        bounded_by(t, h),
        t.contains(base + x),
        forall|k: Seq<u8>| #[trigger] t.contains(k) && base.is_prefix_of(k) ==> k == base + x || k == base,
        0 <= i < x.len(),
    ensures
        (base + x.subrange(0, i)).push(x[i]) == base + x.subrange(0, i + 1),
        live(t, h, base + x.subrange(0, i + 1)),
        b != x[i] ==> !live(t, h, (base + x.subrange(0, i)).push(b)),
{
    let f = base + x.subrange(0, i);
    assert(f.push(x[i]) =~= base + x.subrange(0, i + 1));
    assert((base + x.subrange(0, i + 1)).is_prefix_of(base + x));
    if b != x[i] {
        let q = f.push(b);
        if path_exists_in(t, q) {
            let k = choose|k: Seq<u8>| #[trigger] t.contains(k) && q.is_prefix_of(k);
            assert(base.is_prefix_of(k)) by {
                assert forall|j: int| 0 <= j < base.len() implies k[j] == base[j] by {
                    assert(q[j] == base[j]);
                }
            }
            if k == base + x {
                assert(k[base.len() + i] == x[i]);
                assert(q[base.len() + i] == b);
            }
        }
    }
}

proof fn lemma_whole_items(
    t: Set<Seq<u8>>,
    h: nat,
    base: Seq<u8>,
    x: Seq<u8>,
    i: int,
    n: nat,
)
    requires
        bounded_by(t, h),
        x.len() <= usize::MAX,
        t.contains(base + x),
        forall|k: Seq<u8>| #[trigger] t.contains(k) && base.is_prefix_of(k) ==> k == base + x || k == base,
        0 <= i <= x.len(),
        n == 0 ==> i > 0,
        items_len(x.subrange(i, x.len() as int), n) == Some((x.len() - i) as nat),
    ensures
        var_items(
            t,
            h,
            seq![0xc0u8],
            base + x.subrange(0, i),
            Seq::empty(),
            base.len(),
            n,
            Cont::Item(1),
        ) == Some(1nat),
    decreases x.len() - i, 2int, 0int,
{
    let f = base + x.subrange(0, i);
    if n == 0 {
        let spans2 = Seq::<(usize, usize)>::empty().push((base.len() as usize, f.len() as usize));
        assert(run(t, h, seq![0xc0u8], f, spans2, Cont::Item(1)) == Some(1nat));
    } else {
        lemma_whole_child(t, h, base, x, i, n, 0);
    }
}

proof fn lemma_whole_child(
    t: Set<Seq<u8>>,
    h: nat,
    base: Seq<u8>,
    x: Seq<u8>,
    i: int,
    n: nat,
    b: nat,
)
    requires
        bounded_by(t, h),
        x.len() <= usize::MAX,
        t.contains(base + x),
        forall|k: Seq<u8>| #[trigger] t.contains(k) && base.is_prefix_of(k) ==> k == base + x || k == base,
        0 <= i <= x.len(),
        n > 0,
        b <= 256,
        items_len(x.subrange(i, x.len() as int), n) == Some((x.len() - i) as nat),
    ensures
        i < x.len(),
        var_child(
            t,
            h,
            seq![0xc0u8],
            base + x.subrange(0, i),
            Seq::empty(),
            base.len(),
            n,
            Cont::Item(1),
            b,
        ) == Some(
            if b <= x[i] {
                1nat
            } else {
                0nat
            },
        ),
    decreases x.len() - i, 0int, 256 - b,
{
    let f = base + x.subrange(0, i);
    let s = x.subrange(i, x.len() as int);
    assert(i < x.len());
    if b < 256 {
        lemma_whole_child(t, h, base, x, i, n, b + 1);
        lemma_only_path(t, h, base, x, i, b as u8);
        if b == x[i] {
            let r1 = x.subrange(i + 1, x.len() as int);
            assert(s.subrange(1, s.len() as int) =~= r1);
            assert(s[0] == x[i]);
            match decode(x[i]) {
                Some(Tag::SymbolSize(k)) => {
                    assert(s.subrange(1 + k, s.len() as int) =~= x.subrange(i + 1 + k, x.len() as int));
                    lemma_whole_bytes(t, h, base, x, i + 1, k as nat, (n - 1) as nat);
                },
                Some(Tag::Arity(a)) => {
                    lemma_items_at_least(r1, (n - 1 + a) as nat);
                    lemma_whole_items(t, h, base, x, i + 1, (n - 1 + a) as nat);
                },
                Some(_) => {
                    lemma_whole_items(t, h, base, x, i + 1, (n - 1) as nat);
                },
                None => {},
            }
        }
    }
}

proof fn lemma_whole_bytes(
    t: Set<Seq<u8>>,
    h: nat,
    base: Seq<u8>,
    x: Seq<u8>,
    i: int,
    k: nat,
    n: nat,
)
    requires
        bounded_by(t, h),
        x.len() <= usize::MAX,
        t.contains(base + x),
        forall|kk: Seq<u8>| #[trigger] t.contains(kk) && base.is_prefix_of(kk) ==> kk == base + x || kk == base,
        0 < i,
        i + k <= x.len(),
        items_len(x.subrange(i + k, x.len() as int), n) == Some((x.len() - i - k) as nat),
    ensures
        var_bytes(
            t,
            h,
            seq![0xc0u8],
            base + x.subrange(0, i),
            Seq::empty(),
            base.len(),
            k,
            n,
            Cont::Item(1),
        ) == Some(1nat),
    decreases x.len() - i, 3int, 0int,
{
    if k == 0 {
        lemma_whole_items(t, h, base, x, i, n);
    } else {
        lemma_whole_bytes_from(t, h, base, x, i, k, n, 0);
    }
}

proof fn lemma_whole_bytes_from(
    t: Set<Seq<u8>>,
    h: nat,
    base: Seq<u8>,
    x: Seq<u8>,
    i: int,
    k: nat,
    n: nat,
    b: nat,
)
    requires
        bounded_by(t, h),
        x.len() <= usize::MAX,
        t.contains(base + x),
        forall|kk: Seq<u8>| #[trigger] t.contains(kk) && base.is_prefix_of(kk) ==> kk == base + x || kk == base,
        0 < i,
        k > 0,
        i + k <= x.len(),
        b <= 256,
        items_len(x.subrange(i + k, x.len() as int), n) == Some((x.len() - i - k) as nat),
    ensures
        var_bytes_from(
            t,
            h,
            seq![0xc0u8],
            base + x.subrange(0, i),
            Seq::empty(),
            base.len(),
            k,
            n,
            Cont::Item(1),
            b,
        ) == Some(
            if b <= x[i] {
                1nat
            } else {
                0nat
            },
        ),
    decreases x.len() - i, 1int, 256 - b,
{
    if b < 256 {
        lemma_whole_bytes_from(t, h, base, x, i, k, n, b + 1);
        lemma_only_path(t, h, base, x, i, b as u8);
        if b == x[i] {
            lemma_whole_bytes(t, h, base, x, i + 1, (k - 1) as nat, n);
        }
    }
}

/// A new variable matches any one whole item, whatever it is: where the only
/// value path below `base` is `base` followed by one whole item `x` (a symbol,
/// an arity with its items, or a variable byte), the pattern `$` matches
/// exactly once.
pub proof fn lemma_new_var_matches_one_whole_item(t: Set<Seq<u8>>, base: Seq<u8>, x: Seq<u8>)
    requires
        t.finite(),
        bounded_by(t, usize::MAX as nat),
        t.contains(base + x),
        items_len(x, 1) == Some(x.len()),
        forall|k: Seq<u8>| #[trigger] t.contains(k) && base.is_prefix_of(k) ==> k == base + x || k == base,
    ensures
        match_below(t, base, seq![0xc0u8]) == Some(1nat),
{
    lemma_finite_bounded(t);
    let h = height(t);
    let p = seq![0xc0u8];
    assert(x.len() <= usize::MAX) by {
        assert((base + x).len() <= usize::MAX);
    }
    assert(x.subrange(0, x.len() as int) =~= x);
    assert(x.subrange(0, 0) =~= Seq::<u8>::empty());
    assert(base + x.subrange(0, 0) =~= base);
    lemma_whole_child(t, h, base, x, 0, 1, 0);
    assert(step(t, h, p, base, Seq::empty(), Tag::NewVar, 0, Cont::Item(1)) == Some(1nat));
    assert(run(t, h, p, base, Seq::empty(), Cont::Item(0)) == Some(1nat));
}

} // verus!
