//! The chunked priority-queue traversal: sample among the heaviest atoms.
use vstd::prelude::*;
use crate::random_walk::random_below;
use crate::traversal::{TraversalEngine, TraversalError};
use crate::trie::PathTrie;

verus! {

/// The value paths of `m` whose weight is greater than `w`.
pub open spec fn heavier(m: Map<Seq<u8>, u64>, w: u64) -> Set<Seq<u8>> {
    m.dom().filter(|k: Seq<u8>| m[k] > w)
}

/// The paths among `s` whose weight in `m` is greater than `w`.
spec fn heavier_among(m: Map<Seq<u8>, u64>, s: Seq<Seq<u8>>, w: u64) -> Set<Seq<u8>> {
    s.to_set().filter(|k: Seq<u8>| m[k] > w)
}

/// One more path of a sequence without repeats adds one heavier path exactly
/// when that path is heavier.
proof fn lemma_heavier_step(m: Map<Seq<u8>, u64>, s: Seq<Seq<u8>>, j: int, w: u64)
    requires
        s.no_duplicates(),
        0 <= j < s.len(),
        heavier_among(m, s.subrange(0, j), w).finite(),
    ensures
        heavier_among(m, s.subrange(0, j + 1), w).finite(),
        heavier_among(m, s.subrange(0, j + 1), w).len() == heavier_among(m, s.subrange(0, j), w).len() + (
        if m[s[j]] > w {
            1int
        } else {
            0int
        }),
{
    let a = heavier_among(m, s.subrange(0, j), w);
    let b = heavier_among(m, s.subrange(0, j + 1), w);
    assert(!s.subrange(0, j).contains(s[j])) by {
        if s.subrange(0, j).contains(s[j]) {
            let i = choose|i: int| 0 <= i < j && #[trigger] s.subrange(0, j)[i] == s[j];
            assert(s[i] == s[j]);
        }
    }
    assert(s.subrange(0, j + 1).to_set() =~= s.subrange(0, j).to_set().insert(s[j])) by {
        assert forall|k: Seq<u8>| s.subrange(0, j + 1).to_set().contains(k) implies s.subrange(0, j).to_set().insert(
            s[j],
        ).contains(k) by {
            let i = choose|i: int| 0 <= i < j + 1 && #[trigger] s.subrange(0, j + 1)[i] == k;
            if i < j {
                assert(s.subrange(0, j)[i] == k);
            }
        }
        assert forall|k: Seq<u8>| s.subrange(0, j).to_set().insert(s[j]).contains(k) implies s.subrange(
            0,
            j + 1,
        ).to_set().contains(k) by {
            if k == s[j] {
                assert(s.subrange(0, j + 1)[j] == k);
            } else {
                let i = choose|i: int| 0 <= i < j && #[trigger] s.subrange(0, j)[i] == k;
                assert(s.subrange(0, j + 1)[i] == k);
            }
        }
    }
    if m[s[j]] > w {
        assert(b =~= a.insert(s[j]));
    } else {
        assert(b =~= a);
    }
}

/// A traversal engine that reads the atoms as a priority queue by weight, one
/// chunk at a time: it draws one of the `chunk` heaviest atoms.
pub struct ChunkedPQTraverse {
    chunk: usize,
}

impl ChunkedPQTraverse {
    /// The number of heaviest atoms the engine draws from.
    pub closed spec fn spec_chunk(&self) -> nat {
        self.chunk as nat
    }

    /// An engine that draws from the `chunk` heaviest atoms.
    pub fn new(chunk: usize) -> (e: Self)
        ensures
            e.spec_chunk() == chunk,
    {
        ChunkedPQTraverse { chunk }
    }

    /// The number of value paths of `trie` heavier than `w`.
    fn count_heavier(trie: &PathTrie<u64>, paths: &Vec<Vec<u8>>, w: u64) -> (n: usize)
        requires
            trie.wf(),
            paths@.map_values(|v: Vec<u8>| v@).no_duplicates(),
            paths@.map_values(|v: Vec<u8>| v@).to_set() == trie@.dom(),
        ensures
            heavier(trie@, w).finite(),
            n == heavier(trie@, w).len(),
    {
        let ghost m = trie@;
        let ghost s = paths@.map_values(|v: Vec<u8>| v@);
        let mut n: usize = 0;
        let mut j: usize = 0;
        proof {
            assert(heavier_among(m, s.subrange(0, 0), w) =~= Set::<Seq<u8>>::empty());
        }
        while j < paths.len()
            invariant
                trie.wf(),
                m == trie@,
                s == paths@.map_values(|v: Vec<u8>| v@),
                s.no_duplicates(),
                s.to_set() == m.dom(),
                0 <= j <= s.len(),
                n <= j,
                heavier_among(m, s.subrange(0, j as int), w).finite(),
                n == heavier_among(m, s.subrange(0, j as int), w).len(),
            decreases s.len() - j,
        {
            proof {
                lemma_heavier_step(m, s, j as int, w);
                assert(s.to_set().contains(s[j as int]));
            }
            let wj = match trie.get(paths[j].as_slice()) {
                Some(v) => *v,
                None => 0,
            };
            if wj > w {
                n = n + 1;
            }
            j = j + 1;
        }
        proof {
            assert(s.subrange(0, s.len() as int) =~= s);
            assert(heavier(m, w) =~= heavier_among(m, s, w));
        }
        n
    }
}

/// The positions a chunked priority-queue traversal with chunk `chunk` may
/// answer for the weights `m`: a value path with fewer than `chunk` heavier
/// value paths, or the root when there is none or the chunk is empty.
pub open spec fn pq_allows(chunk: nat, m: Map<Seq<u8>, u64>, p: Seq<u8>) -> bool {
    if m.dom().len() == 0 || chunk == 0 {
        p == Seq::<u8>::empty()
    } else {
        m.dom().contains(p) && heavier(m, m[p]).len() < chunk
    }
}

/// A finite nonempty set of paths has one of greatest weight.
proof fn lemma_heaviest(s: Set<Seq<u8>>, m: Map<Seq<u8>, u64>) -> (top: Seq<u8>)
    requires
        s.finite(),
        s.len() > 0,
    ensures
        s.contains(top),
        forall|q: Seq<u8>| #[trigger] s.contains(q) ==> m[q] <= m[top],
    decreases s.len(),
{
    let a = s.choose();
    if s.len() == 1 {
        assert(s =~= Set::<Seq<u8>>::empty().insert(a)) by {
            assert forall|q: Seq<u8>| s.contains(q) implies q == a by {
                if q != a {
                    assert(s.remove(a).contains(q));
                    assert(s.remove(a).len() == 0);
                }
            }
        }
        a
    } else {
        let b = lemma_heaviest(s.remove(a), m);
        if m[a] > m[b] {
            a
        } else {
            b
        }
    }
}

/// The chunk is a chunk: a traversal with chunk `chunk` may answer at least
/// `min(chunk, n)` of the `n` value paths, not only the heaviest one.
pub proof fn lemma_pq_chunk_size(chunk: nat, m: Map<Seq<u8>, u64>)
    requires
        m.dom().finite(),
    ensures
        ({
            let cands = Set::new(|p: Seq<u8>| m.dom().contains(p) && pq_allows(chunk, m, p));
            &&& cands.finite()
            &&& cands.len() >= (if chunk < m.dom().len() {
                chunk
            } else {
                m.dom().len()
            })
        }),
{
    let d = m.dom();
    let cands = Set::new(|p: Seq<u8>| d.contains(p) && pq_allows(chunk, m, p));
    assert(cands.subset_of(d));
    vstd::set_lib::lemma_len_subset(cands, d);
    if d.len() == 0 || chunk == 0 {
    } else if cands =~= d {
    } else {
        let rest = d.difference(cands);
        assert(rest.len() > 0) by {
            let w = choose|w: Seq<u8>| d.contains(w) && !cands.contains(w);
            assert(rest.contains(w));
        }
        let top = lemma_heaviest(rest, m);
        assert(heavier(m, m[top]).subset_of(cands)) by {
            assert forall|q: Seq<u8>| #[trigger] heavier(m, m[top]).contains(q) implies cands.contains(q) by {
                if !cands.contains(q) {
                    assert(rest.contains(q));
                }
            }
        }
        vstd::set_lib::lemma_len_subset(heavier(m, m[top]), cands);
    }
}

impl TraversalEngine for ChunkedPQTraverse {
    open spec fn spec_name(&self) -> Seq<char> {
        "cpq"@
    }

    open spec fn allows(&self, m: Map<Seq<u8>, u64>, p: Seq<u8>) -> bool {
        pq_allows(self.spec_chunk(), m, p)
    }

    open spec fn may_fail(&self, m: Map<Seq<u8>, u64>) -> bool {
        false
    }

    fn name(&self) -> (s: &str)
        ensures
            s@ == "cpq"@,
    {
        "cpq"
    }

    /// Draw one of the `chunk` heaviest atoms: a value path with fewer than
    /// `chunk` value paths heavier than it. The root path is the answer when the
    /// trie holds no value or the chunk is empty; the engine never fails.
    fn next_atom(&self, trie: &PathTrie<u64>) -> (r: Result<Vec<u8>, TraversalError>)
        ensures
            r is Ok,
            r matches Ok(p) ==> {
                &&& (trie@.dom().len() == 0 || self.spec_chunk() == 0) ==> p@ == Seq::<u8>::empty()
                &&& (trie@.dom().len() > 0 && self.spec_chunk() > 0) ==> {
                    &&& trie@.dom().contains(p@)
                    &&& heavier(trie@, trie@[p@]).len() < self.spec_chunk()
                }
            },
    {
        let paths = trie.paths();
        let ghost m = trie@;
        let ghost s = paths@.map_values(|v: Vec<u8>| v@);
        proof {
            trie.lemma_finite();
            s.unique_seq_to_set();
        }
        if paths.len() == 0 || self.chunk == 0 {
            return Ok(Vec::new());
        }
        // The heaviest atom, which has no heavier atom and so is always a candidate.
        let mut top: usize = 0;
        let mut top_w: u64 = match trie.get(paths[0].as_slice()) {
            Some(v) => *v,
            None => 0,
        };
        proof {
            assert(s.to_set().contains(s[0]));
        }
        let mut i: usize = 1;
        while i < paths.len()
            invariant
                trie.wf(),
                m == trie@,
                s == paths@.map_values(|v: Vec<u8>| v@),
                s.to_set() == m.dom(),
                1 <= i <= s.len(),
                top < i,
                top_w == m[s[top as int]],
                forall|j: int| 0 <= j < i ==> #[trigger] m[s[j]] <= top_w,
            decreases s.len() - i,
        {
            proof {
                assert(s.to_set().contains(s[i as int]));
            }
            let wi = match trie.get(paths[i].as_slice()) {
                Some(v) => *v,
                None => 0,
            };
            if wi > top_w {
                top = i;
                top_w = wi;
            }
            i = i + 1;
        }
        proof {
            assert(heavier(m, top_w) =~= Set::<Seq<u8>>::empty()) by {
                assert forall|k: Seq<u8>| !(#[trigger] heavier(m, top_w).contains(k)) by {
                    if m.dom().contains(k) {
                        let j = choose|j: int| 0 <= j < s.len() && #[trigger] s[j] == k;
                        assert(m[s[j]] <= top_w);
                    }
                }
            }
        }
        // The candidates: every atom with fewer than `chunk` heavier atoms.
        let mut cand: Vec<usize> = Vec::new();
        let mut j: usize = 0;
        while j < paths.len()
            invariant
                trie.wf(),
                m == trie@,
                s == paths@.map_values(|v: Vec<u8>| v@),
                s.no_duplicates(),
                s.to_set() == m.dom(),
                self.chunk > 0,
                0 <= j <= s.len(),
                top < s.len(),
                top_w == m[s[top as int]],
                heavier(m, top_w).len() == 0,
                top < j ==> cand@.len() > 0,
                forall|c: int| 0 <= c < cand@.len() ==> {
                    &&& #[trigger] cand@[c] < s.len()
                    &&& heavier(m, m[s[cand@[c] as int]]).len() < self.chunk
                },
            decreases s.len() - j,
        {
            proof {
                assert(s.to_set().contains(s[j as int]));
            }
            let wj = match trie.get(paths[j].as_slice()) {
                Some(v) => *v,
                None => 0,
            };
            let n = Self::count_heavier(trie, &paths, wj);
            if n < self.chunk {
                cand.push(j);
            }
            j = j + 1;
        }
        let pick = random_below(cand.len() as u64);
        let c = cand[pick as usize];
        proof {
            assert(cand@[pick as int] < s.len());
            assert(s.to_set().contains(s[c as int]));
        }
        let p = crate::trie::bytes_to_vec(paths[c].as_slice());
        Ok(p)
    }
}

} // verus!
