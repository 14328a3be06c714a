//! A weighted random walk: samples a value path of a trie of weights with a
//! probability proportional to its weight.
//!
//! The weights of a subtrie are laid out in order: first the value at its root,
//! then the subtries of its children by ascending byte. A number `r` below the
//! total weight falls into exactly one value's interval, and the walk descends to
//! that value's path.
use vstd::prelude::*;
use crate::traversal::{TraversalEngine, TraversalError};
use crate::trie::{bounded_by, height, path_exists_in, PathTrie};

verus! {

/// The value stored at `q`, or 0.
pub open spec fn value_at(m: Map<Seq<u8>, u64>, q: Seq<u8>) -> nat {
    if m.dom().contains(q) {
        m[q] as nat
    } else {
        0
    }
}

/// The total weight of the subtrie at `q`: its value plus the weights of its
/// children's subtries, for paths no longer than `h`.
pub open spec fn weight(m: Map<Seq<u8>, u64>, h: nat, q: Seq<u8>) -> nat
    decreases h - q.len(), 257int,
{
    value_at(m, q) + children_weight(m, h, q, 0)
}

/// The weights of the subtries at the children `b, b+1, ..., 255` of `q`.
pub open spec fn children_weight(m: Map<Seq<u8>, u64>, h: nat, q: Seq<u8>, b: nat) -> nat
    decreases h - q.len(), 256 - b,
{
    if b >= 256 || q.len() >= h {
        0
    } else {
        weight(m, h, q.push(b as u8)) + children_weight(m, h, q, b + 1)
    }
}

/// The total weight of a trie.
pub open spec fn total_weight(m: Map<Seq<u8>, u64>) -> nat {
    weight(m, height(m.dom()), Seq::empty())
}

/// Where the walk from `q` ends for the number `r`: at `q` if `r` falls within
/// the value at `q`, otherwise in the child subtrie whose interval holds what is
/// left of `r`; at `q` if no child's does.
pub open spec fn walk(m: Map<Seq<u8>, u64>, h: nat, q: Seq<u8>, r: nat) -> Seq<u8>
    decreases h - q.len(), 257int,
{
    if m.dom().contains(q) && r < m[q] {
        q
    } else {
        walk_children(m, h, q, (r - value_at(m, q)) as nat, 0)
    }
}

/// The walk among the children `b, ..., 255` of `q`, with `r` left to place.
pub open spec fn walk_children(m: Map<Seq<u8>, u64>, h: nat, q: Seq<u8>, r: nat, b: nat) -> Seq<u8>
    decreases h - q.len(), 256 - b,
{
    if b >= 256 || q.len() >= h {
        q
    } else if r < weight(m, h, q.push(b as u8)) {
        walk(m, h, q.push(b as u8), r)
    } else {
        walk_children(m, h, q, (r - weight(m, h, q.push(b as u8))) as nat, b + 1)
    }
}

/// The path the walk of a whole trie ends at for the number `r`.
pub open spec fn walk_result(m: Map<Seq<u8>, u64>, r: nat) -> Seq<u8> {
    walk(m, height(m.dom()), Seq::empty(), r)
}

/// A subtrie with no path carries no weight.
proof fn lemma_weight_absent(m: Map<Seq<u8>, u64>, h: nat, q: Seq<u8>)
    requires
        !path_exists_in(m.dom(), q),
    ensures
        weight(m, h, q) == 0,
    decreases h - q.len(), 257int,
{
    assert(!m.dom().contains(q)) by {
        if m.dom().contains(q) {
            assert(q.is_prefix_of(q));
        }
    }
    lemma_children_weight_absent(m, h, q, 0);
}

proof fn lemma_children_weight_absent(m: Map<Seq<u8>, u64>, h: nat, q: Seq<u8>, b: nat)
    requires
        !path_exists_in(m.dom(), q),
    ensures
        children_weight(m, h, q, b) == 0,
    decreases h - q.len(), 256 - b,
{
    if b < 256 && q.len() < h {
        let c = q.push(b as u8);
        assert(!path_exists_in(m.dom(), c)) by {
            if path_exists_in(m.dom(), c) {
                let k = choose|k: Seq<u8>| #[trigger] m.dom().contains(k) && c.is_prefix_of(k);
                assert(q.is_prefix_of(k)) by {
                    assert(q =~= c.subrange(0, q.len() as int));
                }
            }
        }
        lemma_weight_absent(m, h, c);
        lemma_children_weight_absent(m, h, q, b + 1);
    }
}

/// The weight of a child's subtrie is part of the weight of its parent's.
proof fn lemma_child_weight_le(m: Map<Seq<u8>, u64>, h: nat, q: Seq<u8>, b: nat, c: nat)
    requires
        b <= c < 256,
        q.len() < h,
    ensures
        weight(m, h, q.push(c as u8)) <= children_weight(m, h, q, b),
    decreases 256 - b,
{
    if b < c {
        lemma_child_weight_le(m, h, q, b + 1, c);
    }
}

/// The weight below `q` as a `u64`, or `None` when it does not fit.
fn weight_below(trie: &PathTrie<u64>, q: &mut Vec<u8>) -> (r: Option<u64>)
    requires
        trie.wf(),
        bounded_by(trie@.dom(), height(trie@.dom())),
        old(q)@.len() <= height(trie@.dom()),
    ensures
        final(q)@ == old(q)@,
        match r {
            Some(w) => w as nat == weight(trie@, height(trie@.dom()), old(q)@),
            None => weight(trie@, height(trie@.dom()), old(q)@) > u64::MAX,
        },
    decreases height(trie@.dom()) - old(q)@.len(),
{
    let ghost m = trie@;
    let ghost h = height(m.dom());
    let ghost q0 = q@;
    let mut total: u64 = match trie.get(q.as_slice()) {
        Some(v) => *v,
        None => 0,
    };
    let mask = trie.child_mask(q.as_slice());
    let mut b: usize = 0;
    while b < 256
        invariant
            trie.wf(),
            m == trie@,
            h == height(m.dom()),
            bounded_by(m.dom(), h),
            q@ == q0,
            q0 == old(q)@,
            q0.len() <= h,
            mask@.len() == 256,
            forall|c: int| 0 <= c < 256 ==> #[trigger] mask@[c] == path_exists_in(m.dom(), q0.push(c as u8)),
            0 <= b <= 256,
            weight(m, h, q0) == total + children_weight(m, h, q0, b as nat),
        decreases 256 - b,
    {
        if mask[b] {
            q.push(b as u8);
            proof {
                let k = choose|k: Seq<u8>| #[trigger] m.dom().contains(k) && q@.is_prefix_of(k);
                assert(k.len() <= h);
            }
            let w = weight_below(trie, q);
            q.pop();
            proof {
                assert(q@ =~= q0);
            }
            match w {
                None => {
                    return None;
                },
                Some(w) => {
                    if total > u64::MAX - w {
                        return None;
                    }
                    total = total + w;
                },
            }
        } else {
            proof {
                if q0.len() < h {
                    lemma_weight_absent(m, h, q0.push(b as u8));
                }
            }
        }
        b = b + 1;
    }
    Some(total)
}

/// The path where the walk from `q` ends for the number `r`.
fn walk_from(trie: &PathTrie<u64>, q: &mut Vec<u8>, r: u64, Ghost(total): Ghost<nat>)
    requires
        trie.wf(),
        bounded_by(trie@.dom(), height(trie@.dom())),
        old(q)@.len() <= height(trie@.dom()),
        weight(trie@, height(trie@.dom()), old(q)@) <= total,
        total <= u64::MAX,
    ensures
        final(q)@ == walk(trie@, height(trie@.dom()), old(q)@, r as nat),
    decreases height(trie@.dom()) - old(q)@.len(),
{
    let ghost m = trie@;
    let ghost h = height(m.dom());
    let ghost q0 = q@;
    let mut rest = r;
    match trie.get(q.as_slice()) {
        Some(v) => {
            if rest < *v {
                return;
            }
            rest = rest - *v;
        },
        None => {},
    }
    assert(walk(m, h, q0, r as nat) == walk_children(m, h, q0, rest as nat, 0));
    let mask = trie.child_mask(q.as_slice());
    let mut b: usize = 0;
    while b < 256
        invariant
            trie.wf(),
            m == trie@,
            h == height(m.dom()),
            bounded_by(m.dom(), h),
            q@ == q0,
            q0 == old(q)@,
            q0.len() <= h,
            weight(m, h, q0) <= total,
            total <= u64::MAX,
            mask@.len() == 256,
            forall|c: int| 0 <= c < 256 ==> #[trigger] mask@[c] == path_exists_in(m.dom(), q0.push(c as u8)),
            0 <= b <= 256,
            walk(m, h, q0, r as nat) == walk_children(m, h, q0, rest as nat, b as nat),
        decreases 256 - b,
    {
        if mask[b] {
            q.push(b as u8);
            proof {
                let k = choose|k: Seq<u8>| #[trigger] m.dom().contains(k) && q@.is_prefix_of(k);
                assert(k.len() <= h);
                lemma_child_weight_le(m, h, q0, 0, b as nat);
            }
            let w = match weight_below(trie, q) {
                Some(w) => w,
                None => 0,
            };
            if rest < w {
                walk_from(trie, q, rest, Ghost(total));
                return;
            }
            rest = rest - w;
            q.pop();
            proof {
                assert(q@ =~= q0);
            }
        } else {
            proof {
                if q0.len() < h {
                    lemma_weight_absent(m, h, q0.push(b as u8));
                }
            }
        }
        b = b + 1;
    }
}

/// A walk for a number below the weight of the subtrie at `q` ends at a stored
/// path whose value is positive.
proof fn lemma_walk_lands(m: Map<Seq<u8>, u64>, h: nat, q: Seq<u8>, r: nat)
    requires
        r < weight(m, h, q),
    ensures
        m.dom().contains(walk(m, h, q, r)),
        m[walk(m, h, q, r)] > 0,
    decreases h - q.len(), 257int,
{
    if !(m.dom().contains(q) && r < m[q]) {
        lemma_walk_children_lands(m, h, q, (r - value_at(m, q)) as nat, 0);
    }
}

proof fn lemma_walk_children_lands(m: Map<Seq<u8>, u64>, h: nat, q: Seq<u8>, r: nat, b: nat)
    requires
        r < children_weight(m, h, q, b),
    ensures
        m.dom().contains(walk_children(m, h, q, r, b)),
        m[walk_children(m, h, q, r, b)] > 0,
    decreases h - q.len(), 256 - b,
{
    if !(b >= 256 || q.len() >= h) {
        let c = q.push(b as u8);
        if r < weight(m, h, c) {
            lemma_walk_lands(m, h, c, r);
        } else {
            lemma_walk_children_lands(m, h, q, (r - weight(m, h, c)) as nat, b + 1);
        }
    }
}

/// A walk of the whole trie for a number below its total weight ends at a stored
/// path with a positive weight: the random walk samples atoms only.
pub proof fn lemma_walk_result_is_atom(m: Map<Seq<u8>, u64>, r: nat)
    requires
        r < total_weight(m),
    ensures
        m.dom().contains(walk_result(m, r)),
        m[walk_result(m, r)] > 0,
{
    lemma_walk_lands(m, height(m.dom()), Seq::empty(), r);
}

/// The weights of the subtries at the children `0, ..., b - 1` of `q`.
pub open spec fn weight_before(m: Map<Seq<u8>, u64>, h: nat, q: Seq<u8>, b: nat) -> nat
    decreases b,
{
    if b == 0 || q.len() >= h {
        0
    } else {
        weight_before(m, h, q, (b - 1) as nat) + weight(m, h, q.push((b - 1) as u8))
    }
}

/// Where the interval of the value at `p` starts in the layout of the subtrie at
/// its prefix `q`: after the value at `q`, the subtries of the children before
/// the one on the way to `p`, and what precedes `p` in that child's subtrie.
pub open spec fn offset_of(m: Map<Seq<u8>, u64>, h: nat, q: Seq<u8>, p: Seq<u8>) -> nat
    decreases p.len() - q.len(),
{
    if p.len() <= q.len() {
        0
    } else {
        value_at(m, q) + weight_before(m, h, q, p[q.len() as int] as nat) + offset_of(
            m,
            h,
            q.push(p[q.len() as int]),
            p,
        )
    }
}

proof fn lemma_children_split(m: Map<Seq<u8>, u64>, h: nat, q: Seq<u8>, b: nat)
    requires
        b <= 256,
        q.len() < h,
    ensures
        children_weight(m, h, q, 0) == weight_before(m, h, q, b) + children_weight(m, h, q, b),
    decreases b,
{
    if b > 0 {
        lemma_children_split(m, h, q, (b - 1) as nat);
    }
}

/// The walk from `q` ends below `q`; below a child when it goes into the children.
proof fn lemma_walk_extends(m: Map<Seq<u8>, u64>, h: nat, q: Seq<u8>, r: nat)
    ensures
        q.is_prefix_of(walk(m, h, q, r)),
    decreases h - q.len(), 257int,
{
    if !(m.dom().contains(q) && r < m[q]) {
        lemma_walk_children_extends(m, h, q, (r - value_at(m, q)) as nat, 0);
    }
}

proof fn lemma_walk_children_extends(m: Map<Seq<u8>, u64>, h: nat, q: Seq<u8>, r: nat, b: nat)
    ensures
        q.is_prefix_of(walk_children(m, h, q, r, b)),
        r < children_weight(m, h, q, b) ==> walk_children(m, h, q, r, b).len() > q.len(),
    decreases h - q.len(), 256 - b,
{
    if !(b >= 256 || q.len() >= h) {
        let c = q.push(b as u8);
        if r < weight(m, h, c) {
            lemma_walk_extends(m, h, c, r);
            let w = walk(m, h, c, r);
            assert(q.is_prefix_of(w)) by {
                assert(q =~= c.subrange(0, q.len() as int));
                assert(q =~= w.subrange(0, q.len() as int));
            }
        } else {
            lemma_walk_children_extends(m, h, q, (r - weight(m, h, c)) as nat, b + 1);
        }
    }
}

/// The interval of the value at `p` lies within the weight of the subtrie at `q`.
proof fn lemma_interval_inside(m: Map<Seq<u8>, u64>, h: nat, q: Seq<u8>, p: Seq<u8>)
    requires
        q.is_prefix_of(p),
        p.len() <= h,
    ensures
        offset_of(m, h, q, p) + value_at(m, p) <= weight(m, h, q),
    decreases p.len() - q.len(),
{
    if p.len() > q.len() {
        let b = p[q.len() as int];
        let c = q.push(b);
        assert(c.is_prefix_of(p)) by {
            assert(c =~= p.subrange(0, c.len() as int));
        }
        lemma_interval_inside(m, h, c, p);
        lemma_child_weight_le(m, h, q, b as nat, b as nat);
        lemma_children_split(m, h, q, b as nat);
    } else {
        assert(p =~= q) by {
            assert(q =~= p.subrange(0, q.len() as int));
        }
    }
}

/// Among the children from `b0` on, with `r` left past the weights before `b0`,
/// the walk ends at `p` exactly when `r` falls in the interval of the value at `p`.
proof fn lemma_walk_children_interval(
    m: Map<Seq<u8>, u64>,
    h: nat,
    q: Seq<u8>,
    p: Seq<u8>,
    r: nat,
    b0: nat,
)
    requires
        q.is_prefix_of(p),
        q.len() < p.len() <= h,
        b0 <= 256,
        r < children_weight(m, h, q, b0),
    ensures
        ({
            let b = p[q.len() as int] as nat;
            let c = q.push(p[q.len() as int]);
            let lo = weight_before(m, h, q, b) + offset_of(m, h, c, p);
            (walk_children(m, h, q, r, b0) == p) <==> (b >= b0 && lo <= r + weight_before(
                m,
                h,
                q,
                b0,
            ) < lo + value_at(m, p))
        }),
    decreases h - q.len(), 256 - b0,
{
    let b = p[q.len() as int] as nat;
    let c = q.push(p[q.len() as int]);
    assert(c.is_prefix_of(p)) by {
        assert(c =~= p.subrange(0, c.len() as int));
    }
    let c0 = q.push(b0 as u8);
    let w0 = weight(m, h, c0);
    assert(b0 < 256);
    assert(weight_before(m, h, q, b0 + 1) == weight_before(m, h, q, b0) + w0);
    lemma_interval_inside(m, h, c, p);
    if r < w0 {
        lemma_walk_extends(m, h, c0, r);
        let res = walk(m, h, c0, r);
        if b == b0 {
            assert(c0 == c);
            lemma_walk_interval(m, h, c, p, r);
        } else {
            assert(res != p) by {
                assert(c0.is_prefix_of(res));
                assert(res[q.len() as int] == c0[q.len() as int]);
            }
            if b > b0 {
                lemma_children_split(m, h, q, b);
                lemma_children_split(m, h, q, b0 + 1);
                lemma_weight_before_mono(m, h, q, b0 + 1, b);
            }
        }
    } else {
        lemma_walk_children_interval(m, h, q, p, (r - w0) as nat, b0 + 1);
        if b == b0 {
            assert(c0 == c);
        } else if b > b0 {
        }
    }
}

proof fn lemma_weight_before_mono(m: Map<Seq<u8>, u64>, h: nat, q: Seq<u8>, a: nat, b: nat)
    requires
        a <= b,
    ensures
        weight_before(m, h, q, a) <= weight_before(m, h, q, b),
    decreases b - a,
{
    if a < b {
        lemma_weight_before_mono(m, h, q, a, (b - 1) as nat);
    }
}

/// The walk from `q` for a number below its subtrie's weight ends at `p` exactly
/// when the number falls in the interval of the value at `p`.
proof fn lemma_walk_interval(m: Map<Seq<u8>, u64>, h: nat, q: Seq<u8>, p: Seq<u8>, r: nat)
    requires
        q.is_prefix_of(p),
        p.len() <= h,
        r < weight(m, h, q),
    ensures
        (walk(m, h, q, r) == p) <==> (offset_of(m, h, q, p) <= r < offset_of(m, h, q, p) + value_at(
            m,
            p,
        )),
    decreases h - q.len(), 257int,
{
    if p.len() == q.len() {
        assert(p =~= q) by {
            assert(q =~= p.subrange(0, q.len() as int));
        }
        if !(m.dom().contains(q) && r < m[q]) {
            if q.len() < h {
                lemma_walk_children_extends(m, h, q, (r - value_at(m, q)) as nat, 0);
            }
        }
    } else {
        if m.dom().contains(q) && r < m[q] {
        } else {
            let rr = (r - value_at(m, q)) as nat;
            lemma_walk_children_interval(m, h, q, p, rr, 0);
        }
    }
}

/// For a number below the total weight, the walk of the whole trie ends at a path
/// exactly when the number falls in that path's interval, whose length is the
/// path's value: each atom is sampled in proportion to its weight.
pub proof fn lemma_walk_result_interval(m: Map<Seq<u8>, u64>, p: Seq<u8>, r: nat)
    requires
        m.dom().finite(),
        r < total_weight(m),
        m.dom().contains(p),
    ensures
        (walk_result(m, r) == p) <==> (offset_of(m, height(m.dom()), Seq::empty(), p) <= r
            < offset_of(m, height(m.dom()), Seq::empty(), p) + m[p]),
{
    crate::trie::lemma_finite_bounded(m.dom());
    assert(Seq::<u8>::empty().is_prefix_of(p));
    lemma_walk_interval(m, height(m.dom()), Seq::empty(), p, r);
}

/// A traversal engine that walks down the trie at random, weighted by the
/// weights of the subtries.
#[derive(Clone, Copy, Debug, Default)]
pub struct RandomWalk;

/// The path where a walk of the whole trie of weights ends for the number `r`.
pub fn walk_to_atom(trie: &PathTrie<u64>, r: u64) -> (path: Vec<u8>)
    requires
        trie.wf(),
        total_weight(trie@) <= u64::MAX,
    ensures
        path@ == walk_result(trie@, r as nat),
{
    proof {
        trie.lemma_height();
    }
    let mut q: Vec<u8> = Vec::new();
    walk_from(trie, &mut q, r, Ghost(total_weight(trie@)));
    q
}

/// The total weight of the trie, or `None` when it does not fit in a `u64`.
pub fn trie_weight(trie: &PathTrie<u64>) -> (w: Option<u64>)
    requires
        trie.wf(),
    ensures
        match w {
            Some(w) => w as nat == total_weight(trie@),
            None => total_weight(trie@) > u64::MAX,
        },
{
    proof {
        trie.lemma_height();
    }
    let mut q: Vec<u8> = Vec::new();
    weight_below(trie, &mut q)
}


/// Calls `rand::random_range(0..bound)`, which returns a random number at least 0
/// and below `bound` (and panics on an empty range, which `requires` rules out).
#[verifier::external_body]
pub(crate) fn random_below(bound: u64) -> (r: u64)
    requires
        bound > 0,
    ensures
        r < bound,
{
    rand::random_range(0..bound)
}

/// The positions the random walk may answer for the weights `m`: the root when
/// the total weight is 0, else the end of the walk for some number below it.
pub open spec fn walk_allows(m: Map<Seq<u8>, u64>, p: Seq<u8>) -> bool {
    &&& total_weight(m) == 0 ==> p == Seq::<u8>::empty()
    &&& total_weight(m) > 0 ==> exists|x: nat| x < total_weight(m) && p == #[trigger] walk_result(m, x)
}

impl TraversalEngine for RandomWalk {
    open spec fn spec_name(&self) -> Seq<char> {
        "random_walk"@
    }

    open spec fn allows(&self, m: Map<Seq<u8>, u64>, p: Seq<u8>) -> bool {
        walk_allows(m, p)
    }

    open spec fn may_fail(&self, m: Map<Seq<u8>, u64>) -> bool {
        total_weight(m) > u64::MAX
    }

    fn name(&self) -> (s: &str)
        ensures
            s@ == "random_walk"@,
    {
        "random_walk"
    }

    /// Sample a value path with probability proportional to its weight: fails
    /// when the total weight does not fit in a `u64`, gives the root path when
    /// the total weight is 0, and otherwise ends the walk at a random number
    /// below the total weight.
    fn next_atom(&self, trie: &PathTrie<u64>) -> (r: Result<Vec<u8>, TraversalError>)
        ensures
            r is Err <==> total_weight(trie@) > u64::MAX,
            r matches Ok(p) ==> {
                &&& total_weight(trie@) == 0 ==> p@ == Seq::<u8>::empty()
                &&& total_weight(trie@) > 0 ==> exists|x: nat|
                    x < total_weight(trie@) && p@ == #[trigger] walk_result(trie@, x)
            },
    {
        let total = match trie_weight(trie) {
            None => {
                return Err(TraversalError {});
            },
            Some(w) => w,
        };
        if total == 0 {
            return Ok(Vec::new());
        }
        let x = random_below(total);
        let p = walk_to_atom(trie, x);
        assert(p@ == walk_result(trie@, x as nat));
        Ok(p)
    }
}

} // verus!
