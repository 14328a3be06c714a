//! A byte-path trie: a finite map from byte paths to values.
//!
//! This is the data that the sweep's operations and traversal engines read and
//! write: a set of byte paths, each carrying a value. A path "exists" in the trie
//! when it is a prefix of some path that carries a value, which is how a zipper
//! focused somewhere in the trie sees it.
use vstd::prelude::*;

verus! {

/// `p` exists in the trie whose value paths are `dom`: it is a prefix of one of them.
pub open spec fn path_exists_in(dom: Set<Seq<u8>>, p: Seq<u8>) -> bool {
    exists|k: Seq<u8>| #[trigger] dom.contains(k) && p.is_prefix_of(k)
}

/// A path of the trie is at most `h` bytes long.
pub open spec fn bounded_by(dom: Set<Seq<u8>>, h: nat) -> bool {
    forall|k: Seq<u8>| #[trigger] dom.contains(k) ==> k.len() <= h
}

/// A length that no value path exceeds.
pub open spec fn height(dom: Set<Seq<u8>>) -> nat {
    choose|h: nat| bounded_by(dom, h)
}

/// Every prefix of a path that exists exists too; in particular every value path
/// and each of its prefixes exists.
pub proof fn lemma_exists_prefix_closed(dom: Set<Seq<u8>>, a: Seq<u8>, b: Seq<u8>)
    requires
        path_exists_in(dom, a + b) || dom.contains(a + b),
    ensures
        path_exists_in(dom, a),
{
    let k = if dom.contains(a + b) {
        a + b
    } else {
        choose|k: Seq<u8>| #[trigger] dom.contains(k) && (a + b).is_prefix_of(k)
    };
    assert(dom.contains(k) && (a + b).is_prefix_of(k)) by {
        if dom.contains(a + b) {
            assert((a + b) =~= (a + b).subrange(0, (a + b).len() as int));
        }
    }
    assert(a.is_prefix_of(k)) by {
        assert(a =~= (a + b).subrange(0, a.len() as int));
        assert(a =~= k.subrange(0, a.len() as int));
    }
}

/// A finite set of paths has a bound on their lengths.
pub proof fn lemma_finite_bounded(t: Set<Seq<u8>>)
    requires
        t.finite(),
    ensures
        bounded_by(t, height(t)),
    decreases t.len(),
{
    if t.len() == 0 {
        t.lemma_len0_is_empty();
        assert(bounded_by(t, 0));
    } else {
        let x = t.choose();
        let r = t.remove(x);
        lemma_finite_bounded(r);
        let hr = height(r);
        let h: nat = if x.len() > hr {
            x.len()
        } else {
            hr
        };
        assert forall|k: Seq<u8>| #[trigger] t.contains(k) implies k.len() <= h by {
            if k != x {
                assert(r.contains(k));
            }
        }
        assert(bounded_by(t, h));
    }
}

/// Whether `a` equals `b` byte by byte.
pub(crate) fn bytes_eq(a: &[u8], b: &[u8]) -> (r: bool)
    ensures
        r == (a@ == b@),
{
    if a.len() != b.len() {
        return false;
    }
    let mut i: usize = 0;
    while i < a.len()
        invariant
            a@.len() == b@.len(),
            0 <= i <= a@.len(),
            forall|j: int| 0 <= j < i ==> a@[j] == b@[j],
        decreases a@.len() - i,
    {
        if a[i] != b[i] {
            return false;
        }
        i = i + 1;
    }
    assert(a@ =~= b@);
    true
}

/// Whether `a` is a prefix of `b`.
pub(crate) fn bytes_is_prefix(a: &[u8], b: &[u8]) -> (r: bool)
    ensures
        r == a@.is_prefix_of(b@),
{
    if a.len() > b.len() {
        return false;
    }
    let mut i: usize = 0;
    while i < a.len()
        invariant
            a@.len() <= b@.len(),
            0 <= i <= a@.len(),
            forall|j: int| 0 <= j < i ==> a@[j] == b@[j],
        decreases a@.len() - i,
    {
        if a[i] != b[i] {
            assert(a@[i as int] != b@.subrange(0, a@.len() as int)[i as int]);
            return false;
        }
        i = i + 1;
    }
    assert(a@ =~= b@.subrange(0, a@.len() as int));
    true
}

/// A fresh vector holding the bytes of `a`.
pub(crate) fn bytes_to_vec(a: &[u8]) -> (v: Vec<u8>)
    ensures
        v@ == a@,
{
    let mut v: Vec<u8> = Vec::new();
    let mut i: usize = 0;
    while i < a.len()
        invariant
            0 <= i <= a@.len(),
            v@ == a@.subrange(0, i as int),
        decreases a@.len() - i,
    {
        v.push(a[i]);
        i = i + 1;
        assert(v@ =~= a@.subrange(0, i as int));
    }
    assert(a@.subrange(0, a@.len() as int) =~= a@);
    v
}

/// The trie: value paths with their values, each path at most once.
pub struct PathTrie<V> {
    keys: Vec<Vec<u8>>,
    vals: Vec<V>,
}

impl<V> PathTrie<V> {
    /// The path stored at slot `i`.
    spec fn key_at(&self, i: int) -> Seq<u8> {
        self.keys@[i]@
    }

    /// Keys and values pair up, and no path is stored twice.
    pub closed spec fn wf(&self) -> bool {
        &&& self.keys@.len() == self.vals@.len()
        &&& forall|i: int, j: int|
            0 <= i < self.keys@.len() && 0 <= j < self.keys@.len() && i != j ==> #[trigger] self.key_at(i)
                != #[trigger] self.key_at(j)
    }

    closed spec fn has_key(&self, k: Seq<u8>) -> bool {
        exists|i: int| 0 <= i < self.keys@.len() && #[trigger] self.key_at(i) == k
    }

    closed spec fn slot_of(&self, k: Seq<u8>) -> int {
        choose|i: int| 0 <= i < self.keys@.len() && #[trigger] self.key_at(i) == k
    }

    /// The map from value paths to values.
    pub closed spec fn as_map(&self) -> Map<Seq<u8>, V> {
        Map::new(|k: Seq<u8>| self.has_key(k), |k: Seq<u8>| self.vals@[self.slot_of(k)])
    }

    proof fn lemma_slot_unique(&self, i: int)
        requires
            self.wf(),
            0 <= i < self.keys@.len(),
        ensures
            self.has_key(self.key_at(i)),
            self.slot_of(self.key_at(i)) == i,
            self.as_map().dom().contains(self.key_at(i)),
            self.as_map()[self.key_at(i)] == self.vals@[i],
    {
        let k = self.key_at(i);
        assert(self.has_key(k));
        let j = self.slot_of(k);
        if j != i {
            assert(self.key_at(i) != self.key_at(j));
        }
    }

    proof fn lemma_dom_finite(&self)
        requires
            self.wf(),
        ensures
            self.as_map().dom().finite(),
            self.as_map().dom().len() == self.keys@.len(),
            self.as_map().dom() =~= self.keys@.map_values(|v: Vec<u8>| v@).to_set(),
            self.keys@.map_values(|v: Vec<u8>| v@).no_duplicates(),
    {
        let s = self.keys@.map_values(|v: Vec<u8>| v@);
        assert forall|k: Seq<u8>| self.as_map().dom().contains(k) <==> s.to_set().contains(k) by {
            if self.as_map().dom().contains(k) {
                let i = self.slot_of(k);
                assert(s[i] == k);
            }
            if s.to_set().contains(k) {
                let i = choose|i: int| 0 <= i < s.len() && s[i] == k;
                assert(self.key_at(i) == k);
            }
        }
        assert forall|i: int, j: int| 0 <= i < s.len() && 0 <= j < s.len() && i != j implies s[i]
            != s[j] by {
            assert(self.key_at(i) != self.key_at(j));
        }
        s.unique_seq_to_set();
        vstd::seq_lib::seq_to_set_is_finite(s);
        assert(self.as_map().dom() == s.to_set());
    }

    /// Every value path fits in memory: its length is at most `usize::MAX`.
    pub proof fn lemma_paths_fit(&self)
        ensures
            bounded_by(self@.dom(), usize::MAX as nat),
    {
        assert forall|k: Seq<u8>| #[trigger] self@.dom().contains(k) implies k.len() <= usize::MAX by {
            let i = self.slot_of(k);
            assert(self.keys@[i]@.len() == self.keys@[i].len());
        }
    }

    /// The trie holds finitely many value paths.
    pub proof fn lemma_finite(&self)
        requires
            self.wf(),
        ensures
            self@.dom().finite(),
    {
        self.lemma_dom_finite();
    }

    /// A bound on the length of the value paths exists.
    pub proof fn lemma_height(&self)
        requires
            self.wf(),
        ensures
            bounded_by(self@.dom(), height(self@.dom())),
    {
        let h = self.max_len(self.keys@.len() as int);
        assert forall|k: Seq<u8>| #[trigger] self@.dom().contains(k) implies k.len() <= h by {
            let i = self.slot_of(k);
            self.lemma_max_len(self.keys@.len() as int, i);
        }
        assert(bounded_by(self@.dom(), h));
    }

    spec fn max_len(&self, n: int) -> nat
        decreases n,
    {
        if n <= 0 {
            0
        } else {
            let m = self.max_len(n - 1);
            if self.key_at(n - 1).len() > m {
                self.key_at(n - 1).len()
            } else {
                m
            }
        }
    }

    proof fn lemma_max_len(&self, n: int, i: int)
        requires
            0 <= i < n,
        ensures
            self.key_at(i).len() <= self.max_len(n),
        decreases n,
    {
        if i < n - 1 {
            self.lemma_max_len(n - 1, i);
        }
    }

    /// An empty trie.
    pub fn new() -> (t: Self)
        ensures
            t.wf(),
            t@ == Map::<Seq<u8>, V>::empty(),
    {
        let t = PathTrie { keys: Vec::new(), vals: Vec::new() };
        assert(t@ =~= Map::<Seq<u8>, V>::empty());
        t
    }

    /// The number of value paths.
    pub fn len(&self) -> (n: usize)
        requires
            self.wf(),
        ensures
            n == self@.dom().len(),
    {
        proof {
            self.lemma_dom_finite();
        }
        self.keys.len()
    }

    /// The value paths, each once, in the order the trie holds them.
    pub fn paths(&self) -> (r: Vec<Vec<u8>>)
        requires
            self.wf(),
        ensures
            r@.map_values(|v: Vec<u8>| v@).no_duplicates(),
            r@.map_values(|v: Vec<u8>| v@).to_set() == self@.dom(),
    {
        proof {
            self.lemma_dom_finite();
        }
        let mut r: Vec<Vec<u8>> = Vec::new();
        let mut i: usize = 0;
        while i < self.keys.len()
            invariant
                0 <= i <= self.keys@.len(),
                r@.len() == i,
                forall|j: int| 0 <= j < i ==> #[trigger] r@[j]@ == self.keys@[j]@,
            decreases self.keys@.len() - i,
        {
            let v = bytes_to_vec(self.keys[i].as_slice());
            r.push(v);
            i = i + 1;
        }
        proof {
            assert(r@.map_values(|v: Vec<u8>| v@) =~= self.keys@.map_values(|v: Vec<u8>| v@));
        }
        r
    }

    /// The slot that holds `path`, if any.
    fn find(&self, path: &[u8]) -> (r: Option<usize>)
        requires
            self.wf(),
        ensures
            match r {
                Some(i) => i < self.keys@.len() && self.key_at(i as int) == path@,
                None => !self@.dom().contains(path@),
            },
    {
        let mut i: usize = 0;
        while i < self.keys.len()
            invariant
                self.wf(),
                0 <= i <= self.keys@.len(),
                forall|j: int| 0 <= j < i ==> self.key_at(j) != path@,
            decreases self.keys@.len() - i,
        {
            if bytes_eq(self.keys[i].as_slice(), path) {
                return Some(i);
            }
            i = i + 1;
        }
        proof {
            if self@.dom().contains(path@) {
                let j = self.slot_of(path@);
                assert(self.key_at(j) == path@);
            }
        }
        None
    }

    /// Whether a value is stored at `path`.
    pub fn contains(&self, path: &[u8]) -> (r: bool)
        requires
            self.wf(),
        ensures
            r == self@.dom().contains(path@),
    {
        match self.find(path) {
            Some(i) => {
                proof {
                    self.lemma_slot_unique(i as int);
                }
                true
            },
            None => false,
        }
    }

    /// The value stored at `path`, if any.
    pub fn get(&self, path: &[u8]) -> (r: Option<&V>)
        requires
            self.wf(),
        ensures
            r == (if self@.dom().contains(path@) {
                Some(&self@[path@])
            } else {
                None
            }),
    {
        match self.find(path) {
            Some(i) => {
                proof {
                    self.lemma_slot_unique(i as int);
                }
                Some(&self.vals[i])
            },
            None => None,
        }
    }

    /// Store `val` at `path`, replacing what was there.
    pub fn set(&mut self, path: &[u8], val: V)
        requires
            old(self).wf(),
        ensures
            final(self).wf(),
            final(self)@ == old(self)@.insert(path@, val),
    {
        let ghost m0 = self@;
        match self.find(path) {
            Some(i) => {
                proof {
                    self.lemma_slot_unique(i as int);
                }
                let ghost old_self = *self;
                self.vals.set(i, val);
                proof {
                    assert(self.keys@ == old_self.keys@);
                    assert(self.wf()) by {
                        assert forall|a: int, b: int|
                            0 <= a < self.keys@.len() && 0 <= b < self.keys@.len() && a != b implies #[trigger] self.key_at(a)
                            != #[trigger] self.key_at(b) by {
                            assert(old_self.key_at(a) != old_self.key_at(b));
                        }
                    }
                    assert forall|k: Seq<u8>| #![auto] self@.dom().contains(k) <==> m0.insert(
                        path@,
                        val,
                    ).dom().contains(k) by {
                        if self.has_key(k) {
                            let j = self.slot_of(k);
                            assert(old_self.key_at(j) == k);
                        }
                        if old_self.has_key(k) {
                            let j = old_self.slot_of(k);
                            assert(self.key_at(j) == k);
                        }
                    }
                    assert forall|k: Seq<u8>| #[trigger]
                        self@.dom().contains(k) implies self@[k] == m0.insert(path@, val)[k] by {
                        let j = self.slot_of(k);
                        self.lemma_slot_unique(j);
                        self.lemma_slot_unique(i as int);
                        if k != path@ {
                            assert(j != i);
                            assert(self.vals@[j] == old_self.vals@[j]);
                            old_self.lemma_slot_unique(j);
                        }
                    }
                    assert(self@ =~= m0.insert(path@, val));
                }
            },
            None => {
                let ghost old_self = *self;
                self.keys.push(bytes_to_vec(path));
                self.vals.push(val);
                proof {
                    let n = old_self.keys@.len() as int;
                    assert(self.key_at(n) == path@);
                    assert forall|i: int, j: int|
                        0 <= i < self.keys@.len() && 0 <= j < self.keys@.len() && i != j implies #[trigger] self.key_at(i)
                        != #[trigger] self.key_at(j) by {
                        if i < n && j < n {
                            assert(old_self.key_at(i) != old_self.key_at(j));
                        } else if i < n {
                            old_self.lemma_slot_unique(i);
                        } else {
                            old_self.lemma_slot_unique(j);
                        }
                    }
                    assert forall|k: Seq<u8>| #![auto] self@.dom().contains(k) <==> m0.insert(
                        path@,
                        val,
                    ).dom().contains(k) by {
                        if self.has_key(k) {
                            let j = self.slot_of(k);
                            if j < n {
                                assert(old_self.key_at(j) == k);
                            }
                        }
                        if old_self.has_key(k) {
                            let j = old_self.slot_of(k);
                            assert(self.key_at(j) == k);
                        }
                        if k == path@ {
                            assert(self.key_at(n) == k);
                        }
                    }
                    assert forall|k: Seq<u8>| #[trigger]
                        self@.dom().contains(k) implies self@[k] == m0.insert(path@, val)[k] by {
                        let j = self.slot_of(k);
                        self.lemma_slot_unique(j);
                        if k != path@ {
                            old_self.lemma_slot_unique(j);
                        }
                    }
                    assert(self@ =~= m0.insert(path@, val));
                }
            },
        }
    }

    /// Remove the value at `path`, returning it.
    pub fn remove(&mut self, path: &[u8]) -> (r: Option<V>)
        requires
            old(self).wf(),
        ensures
            final(self).wf(),
            final(self)@ == old(self)@.remove(path@),
            r == (if old(self)@.dom().contains(path@) {
                Some(old(self)@[path@])
            } else {
                None
            }),
    {
        let ghost m0 = self@;
        match self.find(path) {
            Some(i) => {
                proof {
                    self.lemma_slot_unique(i as int);
                }
                let ghost old_self = *self;
                self.keys.remove(i);
                let v = self.vals.remove(i);
                proof {
                    let ii = i as int;
                    // slot j of the new trie is slot (j < i ? j : j + 1) of the old one
                    assert forall|j: int| 0 <= j < self.keys@.len() implies #[trigger] self.key_at(j)
                        == old_self.key_at(if j < ii { j } else { j + 1 }) && self.vals@[j]
                        == old_self.vals@[if j < ii { j } else { j + 1 }] by {}
                    assert forall|a: int, b: int|
                        0 <= a < self.keys@.len() && 0 <= b < self.keys@.len() && a != b implies #[trigger] self.key_at(a)
                        != #[trigger] self.key_at(b) by {
                        let oa = if a < ii { a } else { a + 1 };
                        let ob = if b < ii { b } else { b + 1 };
                        assert(old_self.key_at(oa) != old_self.key_at(ob));
                    }
                    assert forall|k: Seq<u8>| #![auto] self@.dom().contains(k) <==> m0.remove(
                        path@,
                    ).dom().contains(k) by {
                        if self.has_key(k) {
                            let j = self.slot_of(k);
                            let oj = if j < ii { j } else { j + 1 };
                            assert(old_self.key_at(oj) == k);
                            assert(oj != ii);
                        }
                        if old_self.has_key(k) && k != path@ {
                            let oj = old_self.slot_of(k);
                            assert(oj != ii);
                            let j = if oj < ii { oj } else { oj - 1 };
                            assert(self.key_at(j) == k);
                        }
                    }
                    assert forall|k: Seq<u8>| #[trigger]
                        self@.dom().contains(k) implies self@[k] == m0.remove(path@)[k] by {
                        let j = self.slot_of(k);
                        self.lemma_slot_unique(j);
                        let oj = if j < ii { j } else { j + 1 };
                        old_self.lemma_slot_unique(oj);
                    }
                    assert(self@ =~= m0.remove(path@));
                }
                Some(v)
            },
            None => {
                proof {
                    assert(self@ =~= m0.remove(path@));
                }
                None
            },
        }
    }

    /// Whether `path` exists in the trie (is a prefix of a value path).
    pub fn path_exists(&self, path: &[u8]) -> (r: bool)
        requires
            self.wf(),
        ensures
            r == path_exists_in(self@.dom(), path@),
    {
        let mut i: usize = 0;
        while i < self.keys.len()
            invariant
                self.wf(),
                0 <= i <= self.keys@.len(),
                forall|j: int| 0 <= j < i ==> !path@.is_prefix_of(#[trigger] self.key_at(j)),
            decreases self.keys@.len() - i,
        {
            if bytes_is_prefix(path, self.keys[i].as_slice()) {
                proof {
                    self.lemma_slot_unique(i as int);
                }
                return true;
            }
            i = i + 1;
        }
        proof {
            if path_exists_in(self@.dom(), path@) {
                let k = choose|k: Seq<u8>| #[trigger] self@.dom().contains(k) && path@.is_prefix_of(k);
                let j = self.slot_of(k);
                assert(self.key_at(j) == k);
            }
        }
        false
    }

    /// For each byte `b`, whether `path` followed by `b` exists in the trie.
    pub fn child_mask(&self, path: &[u8]) -> (mask: Vec<bool>)
        requires
            self.wf(),
        ensures
            mask@.len() == 256,
            forall|b: int|
                0 <= b < 256 ==> #[trigger] mask@[b] == path_exists_in(
                    self@.dom(),
                    path@.push(b as u8),
                ),
    {
        let mut mask: Vec<bool> = Vec::new();
        let mut b: usize = 0;
        while b < 256
            invariant
                0 <= b <= 256,
                mask@.len() == b,
                forall|c: int| 0 <= c < b ==> !#[trigger] mask@[c],
            decreases 256 - b,
        {
            mask.push(false);
            b = b + 1;
        }
        let n = path.len();
        let mut i: usize = 0;
        while i < self.keys.len()
            invariant
                self.wf(),
                n == path@.len(),
                0 <= i <= self.keys@.len(),
                mask@.len() == 256,
                forall|c: int|
                    0 <= c < 256 ==> (#[trigger] mask@[c] <==> exists|j: int|
                        0 <= j < i && (path@.push(c as u8)).is_prefix_of(#[trigger] self.key_at(j))),
            decreases self.keys@.len() - i,
        {
            let key = &self.keys[i];
            if key.len() > n && bytes_is_prefix(path, key.as_slice()) {
                let c = key[n];
                mask.set(c as usize, true);
                proof {
                    let kk = self.key_at(i as int);
                    assert(path@.push(c).is_prefix_of(kk)) by {
                        assert(path@.push(c) =~= kk.subrange(0, n + 1));
                    }
                }
            }
            proof {
                let kk = self.key_at(i as int);
                assert forall|c: int|
                    0 <= c < 256 && (path@.push(c as u8)).is_prefix_of(kk) implies mask@[c] by {
                    assert(kk.len() > n);
                    assert(path@.is_prefix_of(kk)) by {
                        assert(path@ =~= kk.subrange(0, n as int));
                        assert(path@ =~= path@.push(c as u8).subrange(0, n as int));
                    }
                    assert(path@.push(c as u8)[n as int] == kk[n as int]);
                }
            }
            i = i + 1;
        }
        proof {
            assert forall|c: int| 0 <= c < 256 implies #[trigger] mask@[c] == path_exists_in(
                self@.dom(),
                path@.push(c as u8),
            ) by {
                if mask@[c] {
                    let j = choose|j: int|
                        0 <= j < self.keys@.len() && (path@.push(c as u8)).is_prefix_of(
                            #[trigger] self.key_at(j),
                        );
                    self.lemma_slot_unique(j);
                }
                if path_exists_in(self@.dom(), path@.push(c as u8)) {
                    let k = choose|k: Seq<u8>| #[trigger]
                        self@.dom().contains(k) && path@.push(c as u8).is_prefix_of(k);
                    let j = self.slot_of(k);
                    assert(self.key_at(j) == k);
                }
            }
        }
        mask
    }

    /// The number of bytes `b` for which `path` followed by `b` exists.
    pub fn child_count(&self, path: &[u8]) -> (n: usize)
        requires
            self.wf(),
        ensures
            Set::new(|b: u8| path_exists_in(self@.dom(), path@.push(b))).finite(),
            n == Set::new(|b: u8| path_exists_in(self@.dom(), path@.push(b))).len(),
    {
        let mask = self.child_mask(path);
        let mut n: usize = 0;
        let mut b: usize = 0;
        let ghost mut seen: Set<u8> = Set::empty();
        while b < 256
            invariant
                0 <= b <= 256,
                mask@.len() == 256,
                forall|c: int|
                    0 <= c < 256 ==> #[trigger] mask@[c] == path_exists_in(
                        self@.dom(),
                        path@.push(c as u8),
                    ),
                seen.finite(),
                seen.len() == n,
                n <= b,
                forall|c: u8| #[trigger]
                    seen.contains(c) <==> (c < b && path_exists_in(self@.dom(), path@.push(c))),
            decreases 256 - b,
        {
            if mask[b] {
                proof {
                    seen = seen.insert(b as u8);
                }
                n = n + 1;
            }
            b = b + 1;
        }
        proof {
            assert(seen =~= Set::new(|c: u8| path_exists_in(self@.dom(), path@.push(c))));
        }
        n
    }
}

impl<V> View for PathTrie<V> {
    type V = Map<Seq<u8>, V>;

    closed spec fn view(&self) -> Map<Seq<u8>, V> {
        self.as_map()
    }
}

} // verus!
