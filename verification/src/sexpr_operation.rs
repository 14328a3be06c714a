//! Operations defined by an mm2 s-expression: add its path to the trie, remove
//! it, or count the ways it matches as a pattern.
use vstd::prelude::*;
use core::marker::PhantomData;
use crate::matching::{
    is_ground_expr, lemma_ground_end_nonempty, lemma_ground_item,
    arity_size, item_size, lemma_lift_plus, lift, live, run, step, var_bytes, var_bytes_from,
    var_child, var_items,
    Cont,
};
use crate::instances::{instances, lemma_match_adds_instances};
use crate::operation::TransformOp;
use crate::sweep::AtomHeader;
use crate::tag::{byte_item, decode, is_reserved, Tag};
use crate::trie::{bounded_by, height, lemma_finite_bounded, path_exists_in, PathTrie};

verus! {

/// How an [`SExprOperation`] applies its expression to the trie.
#[derive(Clone, Copy, Debug, PartialEq, Eq, Structural)]
pub enum SExprMode {
    /// Store a value at the expression's path.
    Add,
    /// Remove the value at the expression's path.
    Remove,
    /// Count the matches of the expression, read as a pattern, in the trie:
    /// symbols and arities must be found exactly, a new variable matches any one
    /// whole item, and a reference matches again the item its variable matched.
    Match,
}

/// An operation carrying an mm2 expression (its bytes) and a mode.
pub struct SExprOperation<H> {
    name: String,
    expr_data: Vec<u8>,
    mode: SExprMode,
    match_count: usize,
    _phantom: PhantomData<H>,
}

/// `r` is the counter value that `o` describes, or fails exactly when `o` does.
pub open spec fn same(r: Option<usize>, o: Option<nat>) -> bool {
    match r {
        Some(v) => o == Some(v as nat),
        None => o is None,
    }
}

/// Whether the byte is reserved (starts no item).
fn is_reserved_byte(b: u8) -> (r: bool)
    ensures
        r == is_reserved(b),
{
    64 <= b && b < 128
}

/// The size of an item, when positive, ends at most 63 bytes past the pattern.
proof fn lemma_item_size_bound(p: Seq<u8>, off: int)
    ensures
        item_size(p, off) matches Some(s) ==> (s > 0 ==> 0 <= off < p.len() && off + s <= p.len() + 63),
    decreases (if off < p.len() {
        p.len() - off
    } else {
        0
    }), 0int, 0int,
{
    if 0 <= off < p.len() {
        match decode(p[off]) {
            Some(Tag::Arity(a)) => {
                lemma_arity_size_bound(p, off, a as nat, 1);
            },
            _ => {},
        }
    }
}

proof fn lemma_arity_size_bound(p: Seq<u8>, off: int, a: nat, size: nat)
    requires
        0 <= off,
        off + size <= p.len() + 63,
    ensures
        arity_size(p, off, a, size) matches Some(s) ==> (s > 0 ==> off + s <= p.len() + 63),
    decreases (if off + size < p.len() {
        p.len() - (off + size)
    } else {
        0
    }), 1int, a,
{
    if a != 0 && off + size < p.len() {
        lemma_item_size_bound(p, off + size);
        match item_size(p, off + size) {
            Some(cs) => {
                if cs != 0 {
                    lemma_arity_size_bound(p, off, (a - 1) as nat, size + cs);
                }
            },
            None => {},
        }
    }
}

impl<H> SExprOperation<H> {
    /// The expression bytes fit the machine's offsets with room to spare.
    #[verifier::type_invariant]
    spec fn wf(&self) -> bool {
        self.expr_data@.len() <= isize::MAX
    }

    /// The name of the operation.
    pub closed spec fn spec_name(&self) -> Seq<char> {
        self.name@
    }

    /// The expression bytes.
    pub closed spec fn expr(&self) -> Seq<u8> {
        self.expr_data@
    }

    /// The mode.
    pub closed spec fn spec_mode(&self) -> SExprMode {
        self.mode
    }

    /// The number of matches counted so far.
    pub closed spec fn count(&self) -> nat {
        self.match_count as nat
    }

    /// Create an operation from a name, the raw mm2 bytes of an expression and a mode.
    pub fn from_bytes(name: &str, expr_bytes: &[u8], mode: SExprMode) -> (op: Self)
        requires
            expr_bytes@.len() <= isize::MAX,
        ensures
            op.spec_name() == name@,
            op.expr() == expr_bytes@,
            op.spec_mode() == mode,
            op.count() == 0,
    {
        SExprOperation {
            name: name.to_owned(),
            expr_data: crate::trie::bytes_to_vec(expr_bytes),
            mode,
            match_count: 0,
            _phantom: PhantomData,
        }
    }

    /// The stored expression bytes.
    pub fn expr_bytes(&self) -> (r: &[u8])
        ensures
            r@ == self.expr(),
    {
        self.expr_data.as_slice()
    }

    /// The operation mode.
    pub fn mode(&self) -> (r: &SExprMode)
        ensures
            *r == self.spec_mode(),
    {
        &self.mode
    }

    /// The name of the operation.
    pub fn name(&self) -> (r: &str)
        ensures
            r@ == self.spec_name(),
    {
        self.name.as_str()
    }

    /// The number of matches counted by the applications in `Match` mode so far.
    pub fn match_count(&self) -> (r: usize)
        ensures
            r == self.count(),
    {
        self.match_count
    }

    /// Set the match counter back to zero.
    pub fn reset_match_count(&mut self)
        ensures
            final(self).count() == 0,
            final(self).expr() == old(self).expr(),
            final(self).spec_mode() == old(self).spec_mode(),
            final(self).spec_name() == old(self).spec_name(),
    {
        proof {
            use_type_invariant(&*self);
        }
        self.match_count = 0;
    }

    /// The byte size of the expression item at `offset`: 1 for a variable or a
    /// reference, 1 plus its length for a symbol, 1 plus the sizes of its items for
    /// an arity; 0 when the item is cut short by the end of the expression, and
    /// `None` when a reserved byte stands where a tag is read.
    fn expr_item_size(&self, offset: usize) -> (r: Option<usize>)
        requires
            self.wf(),
        ensures
            same(r, item_size(self.expr(), offset as int)),
        decreases (if offset < self.expr().len() {
            self.expr().len() - offset
        } else {
            0
        }), 0int, 0int,
    {
        let data = &self.expr_data;
        if offset >= data.len() {
            return Some(0);
        }
        let b = data[offset];
        if is_reserved_byte(b) {
            return None;
        }
        match byte_item(b) {
            Tag::NewVar => Some(1),
            Tag::VarRef(_) => Some(1),
            Tag::SymbolSize(n) => Some(1 + n as usize),
            Tag::Arity(a) => {
                let ghost p = self.expr();
                assert(item_size(p, offset as int) == arity_size(p, offset as int, a as nat, 1));
                let mut size: usize = 1;
                let mut i: u8 = 0;
                while i < a
                    invariant
                        self.wf(),
                        p == self.expr(),
                        data@ == p,
                        offset < p.len(),
                        decode(p[offset as int]) == Some(Tag::Arity(a)),
                        0 <= i <= a,
                        size >= 1,
                        offset + size <= p.len() + 63,
                        arity_size(p, offset as int, a as nat, 1) == arity_size(
                            p,
                            offset as int,
                            (a - i) as nat,
                            size as nat,
                        ),
                    decreases a - i,
                {
                    proof {
                        lemma_item_size_bound(p, offset + size);
                    }
                    if offset + size >= data.len() {
                        assert(arity_size(p, offset as int, (a - i) as nat, size as nat) == Some(0nat));
                        return Some(0);
                    }
                    let child = self.expr_item_size(offset + size);
                    match child {
                        None => {
                            return None;
                        },
                        Some(cs) => {
                            if cs == 0 {
                                return Some(0);
                            }
                            size = size + cs;
                        },
                    }
                    i = i + 1;
                }
                Some(size)
            },
        }
    }
}


/// What is left of the pattern, as the matcher carries it.
#[derive(Clone, Copy)]
enum Next {
    Item(usize),
    Children(usize, u8),
    Nested(usize, u8, usize, u8),
}

impl Next {
    spec fn cont(self) -> Cont {
        match self {
            Next::Item(o) => Cont::Item(o as nat),
            Next::Children(o, r) => Cont::Children(o as nat, r as nat),
            Next::Nested(o, i, s, u) => Cont::Nested(o as nat, i as nat, s as nat, u as nat),
        }
    }
}

/// A position that exists in the trie is within its height.
proof fn lemma_exists_live(t: Set<Seq<u8>>, h: nat, q: Seq<u8>)
    requires
        bounded_by(t, h),
        path_exists_in(t, q),
    ensures
        live(t, h, q),
{
    let k = choose|k: Seq<u8>| #[trigger] t.contains(k) && q.is_prefix_of(k);
    assert(k.len() <= h);
}

impl<H> SExprOperation<H> {
    /// The walk can start at `focus`: the operation and the trie are well formed
    /// and `focus` is within the trie's height.
    spec fn ready(&self, trie: &PathTrie<H>, focus: Seq<u8>) -> bool {
        &&& self.wf()
        &&& trie.wf()
        &&& bounded_by(trie@.dom(), height(trie@.dom()))
    }

    /// The matches of the continuation `c` from `focus`.
    spec fn walk(&self, trie: &PathTrie<H>, focus: Seq<u8>, refs: Seq<(usize, usize)>, c: Cont) -> Option<nat> {
        run(trie@.dom(), height(trie@.dom()), self.expr(), focus, refs, c)
    }

    /// Match the items from `off` to the end of the expression at the current
    /// position; reaching the end of the expression is a match.
    fn match_item(
        &self,
        trie: &PathTrie<H>,
        off: usize,
        focus: &mut Vec<u8>,
        refs: &mut Vec<(usize, usize)>,
        count: usize,
    ) -> (r: Option<usize>)
        requires
            self.ready(trie, old(focus)@),
        ensures
            same(r, lift(count as nat, self.walk(trie, old(focus)@, old(refs)@, Cont::Item(off as nat)))),
            r is Some ==> final(focus)@ == old(focus)@ && final(refs)@ == old(refs)@,
        decreases height(trie@.dom()) - old(focus)@.len(), 1int, 0int,
    {
        let data = &self.expr_data;
        if off >= data.len() {
            if count == usize::MAX {
                return None;
            }
            return Some(count + 1);
        }
        let b = data[off];
        if is_reserved_byte(b) {
            return None;
        }
        let tag = byte_item(b);
        match tag {
            Tag::Arity(a) => {
                focus.push(b);
                let r = if trie.path_exists(focus.as_slice()) {
                    proof {
                        lemma_exists_live(trie@.dom(), height(trie@.dom()), focus@);
                    }
                    self.match_arity_children(trie, off + 1, a, focus, refs, count)
                } else {
                    Some(count)
                };
                match r {
                    None => None,
                    Some(c) => {
                        focus.pop();
                        Some(c)
                    },
                }
            },
            Tag::SymbolSize(n) => {
                let next = Next::Item(off + 1 + n as usize);
                self.match_step(trie, tag, off, next, focus, refs, count)
            },
            _ => {
                let next = Next::Item(off + 1);
                self.match_step(trie, tag, off, next, focus, refs, count)
            },
        }
    }

    /// Match `remaining` items from `off`, then go on with the rest of the expression.
    fn match_arity_children(
        &self,
        trie: &PathTrie<H>,
        off: usize,
        remaining: u8,
        focus: &mut Vec<u8>,
        refs: &mut Vec<(usize, usize)>,
        count: usize,
    ) -> (r: Option<usize>)
        requires
            self.ready(trie, old(focus)@),
        ensures
            same(
                r,
                lift(
                    count as nat,
                    self.walk(trie, old(focus)@, old(refs)@, Cont::Children(off as nat, remaining as nat)),
                ),
            ),
            r is Some ==> final(focus)@ == old(focus)@ && final(refs)@ == old(refs)@,
        decreases height(trie@.dom()) - old(focus)@.len(), 2int, 0int,
    {
        if remaining == 0 {
            return self.match_item(trie, off, focus, refs, count);
        }
        let data = &self.expr_data;
        if off >= data.len() {
            return Some(count);
        }
        let cs = match self.expr_item_size(off) {
            None => {
                return None;
            },
            Some(c) => c,
        };
        if cs == 0 {
            return Some(count);
        }
        proof {
            lemma_item_size_bound(self.expr(), off as int);
        }
        let next_child = off + cs;
        let b = data[off];
        if is_reserved_byte(b) {
            return None;
        }
        let tag = byte_item(b);
        match tag {
            Tag::Arity(sub) => {
                focus.push(b);
                let r = if trie.path_exists(focus.as_slice()) {
                    proof {
                        lemma_exists_live(trie@.dom(), height(trie@.dom()), focus@);
                    }
                    self.match_nested_then_siblings(
                        trie,
                        off + 1,
                        sub,
                        next_child,
                        remaining - 1,
                        focus,
                        refs,
                        count,
                    )
                } else {
                    Some(count)
                };
                match r {
                    None => None,
                    Some(c) => {
                        focus.pop();
                        Some(c)
                    },
                }
            },
            _ => {
                let next = Next::Children(next_child, remaining - 1);
                self.match_step(trie, tag, off, next, focus, refs, count)
            },
        }
    }

    /// Match `inner_remaining` items from `off`, then `outer_remaining` items from
    /// `siblings_offset`, then go on with the rest of the expression. An arity met
    /// among the inner items adds its items to the inner count.
    fn match_nested_then_siblings(
        &self,
        trie: &PathTrie<H>,
        off: usize,
        inner_remaining: u8,
        siblings_offset: usize,
        outer_remaining: u8,
        focus: &mut Vec<u8>,
        refs: &mut Vec<(usize, usize)>,
        count: usize,
    ) -> (r: Option<usize>)
        requires
            self.ready(trie, old(focus)@),
        ensures
            same(
                r,
                lift(
                    count as nat,
                    self.walk(
                        trie,
                        old(focus)@,
                        old(refs)@,
                        Cont::Nested(
                            off as nat,
                            inner_remaining as nat,
                            siblings_offset as nat,
                            outer_remaining as nat,
                        ),
                    ),
                ),
            ),
            r is Some ==> final(focus)@ == old(focus)@ && final(refs)@ == old(refs)@,
        decreases height(trie@.dom()) - old(focus)@.len(), 3int, 0int,
    {
        if inner_remaining == 0 {
            return self.match_arity_children(trie, siblings_offset, outer_remaining, focus, refs, count);
        }
        let data = &self.expr_data;
        if off >= data.len() {
            return Some(count);
        }
        let cs = match self.expr_item_size(off) {
            None => {
                return None;
            },
            Some(c) => c,
        };
        if cs == 0 {
            return Some(count);
        }
        proof {
            lemma_item_size_bound(self.expr(), off as int);
        }
        let next_offset = off + cs;
        let b = data[off];
        if is_reserved_byte(b) {
            return None;
        }
        let tag = byte_item(b);
        match tag {
            Tag::Arity(sub) => {
                focus.push(b);
                let r = if trie.path_exists(focus.as_slice()) {
                    proof {
                        lemma_exists_live(trie@.dom(), height(trie@.dom()), focus@);
                    }
                    if sub as u16 + (inner_remaining - 1) as u16 > 255 {
                        None
                    } else {
                        self.match_nested_then_siblings(
                            trie,
                            off + 1,
                            sub + (inner_remaining - 1),
                            siblings_offset,
                            outer_remaining,
                            focus,
                            refs,
                            count,
                        )
                    }
                } else {
                    Some(count)
                };
                match r {
                    None => None,
                    Some(c) => {
                        focus.pop();
                        Some(c)
                    },
                }
            },
            _ => {
                let next = Next::Nested(next_offset, inner_remaining - 1, siblings_offset, outer_remaining);
                self.match_step(trie, tag, off, next, focus, refs, count)
            },
        }
    }

    /// Go on with the continuation `next` at the current position.
    fn match_next(
        &self,
        trie: &PathTrie<H>,
        next: Next,
        focus: &mut Vec<u8>,
        refs: &mut Vec<(usize, usize)>,
        count: usize,
    ) -> (r: Option<usize>)
        requires
            self.ready(trie, old(focus)@),
        ensures
            same(r, lift(count as nat, self.walk(trie, old(focus)@, old(refs)@, next.cont()))),
            r is Some ==> final(focus)@ == old(focus)@ && final(refs)@ == old(refs)@,
        decreases height(trie@.dom()) - old(focus)@.len(), 4int, 0int,
    {
        match next {
            Next::Item(o) => self.match_item(trie, o, focus, refs, count),
            Next::Children(o, rem) => self.match_arity_children(trie, o, rem, focus, refs, count),
            Next::Nested(o, inner, sib, outer) => self.match_nested_then_siblings(
                trie,
                o,
                inner,
                sib,
                outer,
                focus,
                refs,
                count,
            ),
        }
    }

    /// A new variable that started at `start` still takes `n` whole trie items
    /// from the current position; then it is bound and the walk goes on with `next`.
    fn match_var_items(
        &self,
        trie: &PathTrie<H>,
        start: usize,
        n: usize,
        next: Next,
        focus: &mut Vec<u8>,
        refs: &mut Vec<(usize, usize)>,
        count: usize,
    ) -> (r: Option<usize>)
        requires
            self.ready(trie, old(focus)@),
            start <= old(focus)@.len(),
        ensures
            same(
                r,
                lift(
                    count as nat,
                    var_items(
                        trie@.dom(),
                        height(trie@.dom()),
                        self.expr(),
                        old(focus)@,
                        old(refs)@,
                        start as nat,
                        n as nat,
                        next.cont(),
                    ),
                ),
            ),
            r is Some ==> final(focus)@ == old(focus)@ && final(refs)@ == old(refs)@,
        decreases height(trie@.dom()) - old(focus)@.len(), 5int, 0int,
    {
        if n == 0 {
            let end = focus.len();
            refs.push((start, end));
            let r = self.match_next(trie, next, focus, refs, count);
            match r {
                None => None,
                Some(c) => {
                    refs.pop();
                    Some(c)
                },
            }
        } else {
            self.match_var_children(trie, start, n, next, focus, refs, count)
        }
    }

    /// The children of the current position, each the tag byte of the next trie
    /// item that a variable (started at `start`, with `n > 0` items to take) takes.
    fn match_var_children(
        &self,
        trie: &PathTrie<H>,
        start: usize,
        n: usize,
        next: Next,
        focus: &mut Vec<u8>,
        refs: &mut Vec<(usize, usize)>,
        count: usize,
    ) -> (r: Option<usize>)
        requires
            self.ready(trie, old(focus)@),
            start <= old(focus)@.len(),
            n > 0,
        ensures
            same(
                r,
                lift(
                    count as nat,
                    var_child(
                        trie@.dom(),
                        height(trie@.dom()),
                        self.expr(),
                        old(focus)@,
                        old(refs)@,
                        start as nat,
                        n as nat,
                        next.cont(),
                        0,
                    ),
                ),
            ),
            r is Some ==> final(focus)@ == old(focus)@ && final(refs)@ == old(refs)@,
        decreases height(trie@.dom()) - old(focus)@.len(), 0int, 1int,
    {
        let ghost t = trie@.dom();
        let ghost h = height(t);
        let ghost f0 = focus@;
        let ghost r0 = refs@;
        let ghost p = self.expr();
        let mask = trie.child_mask(focus.as_slice());
        let mut cur = count;
        let mut b: usize = 0;
        while b < 256
            invariant
                self.ready(trie, f0),
                t == trie@.dom(),
                h == height(t),
                p == self.expr(),
                n > 0,
                start <= f0.len(),
                f0 == old(focus)@,
                r0 == old(refs)@,
                focus@ == f0,
                refs@ == r0,
                mask@.len() == 256,
                forall|c: int| 0 <= c < 256 ==> #[trigger] mask@[c] == path_exists_in(t, f0.push(c as u8)),
                0 <= b <= 256,
                lift(cur as nat, var_child(t, h, p, f0, r0, start as nat, n as nat, next.cont(), b as nat))
                    == lift(count as nat, var_child(t, h, p, f0, r0, start as nat, n as nat, next.cont(), 0)),
            decreases 256 - b,
        {
            let ghost q = f0.push(b as u8);
            let ghost here = if live(t, h, q) {
                match decode(b as u8) {
                    None => None,
                    Some(Tag::SymbolSize(k)) => var_bytes(
                        t,
                        h,
                        p,
                        q,
                        r0,
                        start as nat,
                        k as nat,
                        (n - 1) as nat,
                        next.cont(),
                    ),
                    Some(Tag::Arity(a)) => if n - 1 + a > usize::MAX {
                        None
                    } else {
                        var_items(t, h, p, q, r0, start as nat, (n - 1 + a) as nat, next.cont())
                    },
                    Some(_) => var_items(t, h, p, q, r0, start as nat, (n - 1) as nat, next.cont()),
                }
            } else {
                Some(0)
            };
            proof {
                lemma_lift_plus(
                    cur as nat,
                    here,
                    var_child(t, h, p, f0, r0, start as nat, n as nat, next.cont(), (b + 1) as nat),
                );
            }
            if mask[b] {
                let byte = b as u8;
                focus.push(byte);
                proof {
                    lemma_exists_live(t, h, focus@);
                }
                let r = if is_reserved_byte(byte) {
                    None
                } else {
                    match byte_item(byte) {
                        Tag::SymbolSize(k) => self.match_var_bytes(
                            trie,
                            start,
                            k as usize,
                            n - 1,
                            next,
                            focus,
                            refs,
                            cur,
                        ),
                        Tag::Arity(a) => {
                            if n - 1 > usize::MAX - (a as usize) {
                                None
                            } else {
                                self.match_var_items(trie, start, n - 1 + a as usize, next, focus, refs, cur)
                            }
                        },
                        _ => self.match_var_items(trie, start, n - 1, next, focus, refs, cur),
                    }
                };
                match r {
                    None => {
                        return None;
                    },
                    Some(c) => {
                        cur = c;
                    },
                }
                focus.pop();
            }
            b = b + 1;
        }
        Some(cur)
    }

    /// A new variable (started at `start`) takes any `k` more bytes below the
    /// current position, then `n` more whole items.
    fn match_var_bytes(
        &self,
        trie: &PathTrie<H>,
        start: usize,
        k: usize,
        n: usize,
        next: Next,
        focus: &mut Vec<u8>,
        refs: &mut Vec<(usize, usize)>,
        count: usize,
    ) -> (r: Option<usize>)
        requires
            self.ready(trie, old(focus)@),
            start <= old(focus)@.len(),
        ensures
            same(
                r,
                lift(
                    count as nat,
                    var_bytes(
                        trie@.dom(),
                        height(trie@.dom()),
                        self.expr(),
                        old(focus)@,
                        old(refs)@,
                        start as nat,
                        k as nat,
                        n as nat,
                        next.cont(),
                    ),
                ),
            ),
            r is Some ==> final(focus)@ == old(focus)@ && final(refs)@ == old(refs)@,
        decreases height(trie@.dom()) - old(focus)@.len(), 6int, 0int,
    {
        if k == 0 {
            return self.match_var_items(trie, start, n, next, focus, refs, count);
        }
        let ghost t = trie@.dom();
        let ghost h = height(t);
        let ghost f0 = focus@;
        let ghost r0 = refs@;
        let ghost p = self.expr();
        let mask = trie.child_mask(focus.as_slice());
        let mut cur = count;
        let mut b: usize = 0;
        while b < 256
            invariant
                self.ready(trie, f0),
                t == trie@.dom(),
                h == height(t),
                p == self.expr(),
                k > 0,
                start <= f0.len(),
                f0 == old(focus)@,
                r0 == old(refs)@,
                focus@ == f0,
                refs@ == r0,
                mask@.len() == 256,
                forall|c: int| 0 <= c < 256 ==> #[trigger] mask@[c] == path_exists_in(t, f0.push(c as u8)),
                0 <= b <= 256,
                lift(
                    cur as nat,
                    var_bytes_from(t, h, p, f0, r0, start as nat, k as nat, n as nat, next.cont(), b as nat),
                ) == lift(
                    count as nat,
                    var_bytes_from(t, h, p, f0, r0, start as nat, k as nat, n as nat, next.cont(), 0),
                ),
            decreases 256 - b,
        {
            let ghost here = if live(t, h, f0.push(b as u8)) {
                var_bytes(t, h, p, f0.push(b as u8), r0, start as nat, (k - 1) as nat, n as nat, next.cont())
            } else {
                Some(0)
            };
            proof {
                lemma_lift_plus(
                    cur as nat,
                    here,
                    var_bytes_from(t, h, p, f0, r0, start as nat, k as nat, n as nat, next.cont(), (b + 1) as nat),
                );
            }
            if mask[b] {
                focus.push(b as u8);
                proof {
                    lemma_exists_live(t, h, focus@);
                }
                let r = self.match_var_bytes(trie, start, k - 1, n, next, focus, refs, cur);
                match r {
                    None => {
                        return None;
                    },
                    Some(c) => {
                        cur = c;
                    },
                }
                focus.pop();
            }
            b = b + 1;
        }
        Some(cur)
    }

    /// Match one item that is no arity, `tag` at `off`, then go on with `next`.
    fn match_step(
        &self,
        trie: &PathTrie<H>,
        tag: Tag,
        off: usize,
        next: Next,
        focus: &mut Vec<u8>,
        refs: &mut Vec<(usize, usize)>,
        count: usize,
    ) -> (r: Option<usize>)
        requires
            self.ready(trie, old(focus)@),
            off < self.expr().len(),
            decode(self.expr()[off as int]) == Some(tag),
            !(tag is Arity),
        ensures
            same(
                r,
                lift(
                    count as nat,
                    step(
                        trie@.dom(),
                        height(trie@.dom()),
                        self.expr(),
                        old(focus)@,
                        old(refs)@,
                        tag,
                        off as nat,
                        next.cont(),
                    ),
                ),
            ),
            r is Some ==> final(focus)@ == old(focus)@ && final(refs)@ == old(refs)@,
        decreases height(trie@.dom()) - old(focus)@.len(), 0int, 2int,
    {
        let ghost t = trie@.dom();
        let ghost h = height(t);
        let ghost f0 = focus@;
        let ghost r0 = refs@;
        let ghost p = self.expr();
        let data = &self.expr_data;
        match tag {
            Tag::NewVar => {
                let n0 = focus.len();
                self.match_var_children(trie, n0, 1, next, focus, refs, count)
            },
            Tag::VarRef(k) => {
                let ku = k as usize;
                if ku < refs.len() {
                    let (start, end) = refs[ku];
                    let n0 = focus.len();
                    if start < end && end <= n0 {
                        let mut i = start;
                        while i < end
                            invariant
                                start <= i <= end,
                                end <= n0,
                                n0 == f0.len(),
                                focus@ == f0 + f0.subrange(start as int, i as int),
                            decreases end - i,
                        {
                            let x = focus[i];
                            focus.push(x);
                            i = i + 1;
                            assert(focus@ =~= f0 + f0.subrange(start as int, i as int));
                        }
                        let r = if trie.path_exists(focus.as_slice()) {
                            proof {
                                lemma_exists_live(t, h, focus@);
                            }
                            self.match_next(trie, next, focus, refs, count)
                        } else {
                            Some(count)
                        };
                        match r {
                            None => None,
                            Some(c) => {
                                focus.truncate(n0);
                                assert(focus@ =~= f0);
                                Some(c)
                            },
                        }
                    } else {
                        Some(count)
                    }
                } else {
                    Some(count)
                }
            },
            Tag::SymbolSize(n) => {
                let end = off + 1 + n as usize;
                if end > data.len() {
                    return Some(count);
                }
                let n0 = focus.len();
                focus.push(data[off]);
                let mut i = off + 1;
                while i < end
                    invariant
                        data@ == p,
                        end <= p.len(),
                        off + 1 <= i <= end,
                        focus@ == f0.push(p[off as int]) + p.subrange(off + 1, i as int),
                    decreases end - i,
                {
                    focus.push(data[i]);
                    i = i + 1;
                    assert(focus@ =~= f0.push(p[off as int]) + p.subrange(off + 1, i as int));
                }
                let r = if trie.path_exists(focus.as_slice()) {
                    proof {
                        lemma_exists_live(t, h, focus@);
                    }
                    self.match_next(trie, next, focus, refs, count)
                } else {
                    Some(count)
                };
                match r {
                    None => None,
                    Some(c) => {
                        focus.truncate(n0);
                        assert(focus@ =~= f0);
                        Some(c)
                    },
                }
            },
            Tag::Arity(_) => Some(count),
        }
    }
}


/// The matches of the pattern `p` below the position `base` of the trie whose
/// value paths are `t`; an empty pattern has none.
pub open spec fn match_below(t: Set<Seq<u8>>, base: Seq<u8>, p: Seq<u8>) -> Option<nat> {
    if p.len() == 0 {
        Some(0)
    } else {
        run(t, height(t), p, base, Seq::empty(), Cont::Item(0))
    }
}

/// The match counter after one application in `Match` mode at `base`, starting
/// from `count`: `None` when matching fails or the counter would pass `usize::MAX`.
pub open spec fn counted(count: nat, t: Set<Seq<u8>>, base: Seq<u8>, p: Seq<u8>) -> Option<nat> {
    lift(count, match_below(t, base, p))
}

/// Whether one application at `base` succeeds: always for `Add` and `Remove`,
/// and for `Match` exactly when matching and counting succeed.
pub open spec fn succeeds(mode: SExprMode, count: nat, t: Set<Seq<u8>>, base: Seq<u8>, p: Seq<u8>) -> bool {
    mode != SExprMode::Match || counted(count, t, base, p) is Some
}

/// What one application at `base` does to the trie and to the counter, in each
/// mode: `ok` is whether it succeeded.
pub open spec fn applied<H: Default>(
    mode: SExprMode,
    p: Seq<u8>,
    base: Seq<u8>,
    before: Map<Seq<u8>, H>,
    after: Map<Seq<u8>, H>,
    count_before: nat,
    count_after: nat,
    ok: bool,
) -> bool {
    match mode {
        SExprMode::Add => {
            &&& ok
            &&& count_after == count_before
            &&& p.len() == 0 ==> after == before
            &&& p.len() > 0 ==> after == before.insert(base + p, after[base + p])
            &&& p.len() > 0 ==> call_ensures(H::default, (), after[base + p])
        },
        SExprMode::Remove => {
            &&& ok
            &&& count_after == count_before
            &&& p.len() == 0 ==> after == before
            &&& p.len() > 0 ==> after == before.remove(base + p)
        },
        SExprMode::Match => {
            &&& after == before
            &&& ok == counted(count_before, before.dom(), base, p) is Some
            &&& ok ==> counted(count_before, before.dom(), base, p) == Some(count_after)
            &&& !ok ==> count_after == count_before
        },
    }
}

/// The bytes of `a` followed by those of `b`.
fn concat(a: &[u8], b: &[u8]) -> (v: Vec<u8>)
    ensures
        v@ == a@ + b@,
{
    let mut v = crate::trie::bytes_to_vec(a);
    let mut i: usize = 0;
    while i < b.len()
        invariant
            0 <= i <= b@.len(),
            v@ == a@ + b@.subrange(0, i as int),
        decreases b@.len() - i,
    {
        v.push(b[i]);
        i = i + 1;
        assert(v@ =~= a@ + b@.subrange(0, i as int));
    }
    assert(b@.subrange(0, b@.len() as int) =~= b@);
    v
}

impl<H: Default> SExprOperation<H> {
    /// Add mode: store a value at the expression's path below `base`.
    fn apply_add(&self, trie: &mut PathTrie<H>, base: &[u8])
        requires
            old(trie).wf(),
        ensures
            final(trie).wf(),
            self.expr().len() == 0 ==> final(trie)@ == old(trie)@,
            self.expr().len() > 0 ==> final(trie)@ == old(trie)@.insert(
                base@ + self.expr(),
                final(trie)@[base@ + self.expr()],
            ),
            self.expr().len() > 0 ==> call_ensures(H::default, (), final(trie)@[base@ + self.expr()]),
    {
        let data = self.expr_data.as_slice();
        if data.len() == 0 {
            return;
        }
        let path = concat(base, data);
        let make = H::default;
        let v = make();
        trie.set(path.as_slice(), v);
    }

    /// Remove mode: remove the value at the expression's path below `base`.
    fn apply_remove(&self, trie: &mut PathTrie<H>, base: &[u8])
        requires
            old(trie).wf(),
        ensures
            final(trie).wf(),
            self.expr().len() == 0 ==> final(trie)@ == old(trie)@,
            self.expr().len() > 0 ==> final(trie)@ == old(trie)@.remove(base@ + self.expr()),
    {
        let data = self.expr_data.as_slice();
        if data.len() == 0 {
            return;
        }
        let path = concat(base, data);
        if trie.contains(path.as_slice()) {
            trie.remove(path.as_slice());
        }
    }

    /// Match mode: count the matches of the expression below `base`.
    fn apply_match(&mut self, trie: &PathTrie<H>, base: &[u8]) -> (ok: bool)
        requires
            trie.wf(),
        ensures
            final(self).expr() == old(self).expr(),
            final(self).spec_mode() == old(self).spec_mode(),
            final(self).spec_name() == old(self).spec_name(),
            ok == counted(old(self).count(), trie@.dom(), base@, old(self).expr()) is Some,
            ok ==> counted(old(self).count(), trie@.dom(), base@, old(self).expr()) == Some(
                final(self).count(),
            ),
            !ok ==> final(self).count() == old(self).count(),
    {
        if self.expr_data.len() == 0 {
            return true;
        }
        proof {
            use_type_invariant(&*self);
            trie.lemma_height();
        }
        let mut focus: Vec<u8> = crate::trie::bytes_to_vec(base);
        let mut refs: Vec<(usize, usize)> = Vec::new();
        let r = self.match_item(trie, 0, &mut focus, &mut refs, self.match_count);
        match r {
            Some(c) => {
                self.match_count = c;
                true
            },
            None => false,
        }
    }

    /// Apply the operation below the position `base` of the trie, unless
    /// matching fails.
    ///
    /// `Add` stores a value that `H::default` returns (0 for `u64` weights) at
    /// `base` followed by the expression's bytes, replacing any value there, and
    /// `Remove` removes the value there; an empty expression leaves the trie as it
    /// is. `Match` leaves the trie as it is and adds the number of matches of the
    /// expression below `base` to the match counter; it returns `false`, and
    /// changes nothing, when matching reads a reserved byte where a tag should be,
    /// meets an arity count beyond a byte, or would take the counter past
    /// `usize::MAX`.
    pub fn try_apply_at(&mut self, trie: &mut PathTrie<H>, base: &[u8]) -> (ok: bool)
        requires
            old(trie).wf(),
        ensures
            final(trie).wf(),
            final(self).expr() == old(self).expr(),
            final(self).spec_mode() == old(self).spec_mode(),
            final(self).spec_name() == old(self).spec_name(),
            applied(
                old(self).spec_mode(),
                old(self).expr(),
                base@,
                old(trie)@,
                final(trie)@,
                old(self).count(),
                final(self).count(),
                ok,
            ),
            old(self).spec_mode() == SExprMode::Match && ok && old(self).expr().len() > 0 ==> final(self).count()
                == old(self).count() + instances(old(trie)@.dom(), base@, old(self).expr()).len(),
    {
        let ghost before = trie@;
        let ghost c0 = self.count();
        let ok = match self.mode {
            SExprMode::Add => {
                self.apply_add(trie, base);
                true
            },
            SExprMode::Remove => {
                self.apply_remove(trie, base);
                true
            },
            SExprMode::Match => self.apply_match(trie, base),
        };
        proof {
            if self.spec_mode() == SExprMode::Match && ok && self.expr().len() > 0 {
                old(trie).lemma_finite();
                old(trie).lemma_paths_fit();
                lemma_match_adds_instances(self.expr(), base@, before, trie@, c0, self.count());
            }
        }
        ok
    }

    /// Apply the operation at the root of the trie (see
    /// [`SExprOperation::try_apply_at`]), unless matching fails.
    pub fn try_apply(&mut self, trie: &mut PathTrie<H>) -> (ok: bool)
        requires
            old(trie).wf(),
        ensures
            final(trie).wf(),
            final(self).expr() == old(self).expr(),
            final(self).spec_mode() == old(self).spec_mode(),
            final(self).spec_name() == old(self).spec_name(),
            applied(
                old(self).spec_mode(),
                old(self).expr(),
                Seq::empty(),
                old(trie)@,
                final(trie)@,
                old(self).count(),
                final(self).count(),
                ok,
            ),
            old(self).spec_mode() == SExprMode::Match && ok && old(self).expr().len() > 0 ==> final(self).count()
                == old(self).count() + instances(old(trie)@.dom(), Seq::empty(), old(self).expr()).len(),
    {
        let root: [u8; 0] = [];
        let r = self.try_apply_at(trie, &root);
        proof {
            assert(root@ =~= Seq::<u8>::empty());
        }
        r
    }

    /// Apply the operation at the root of the trie (see
    /// [`SExprOperation::try_apply_at`]); in `Match` mode, matching must not fail.
    pub fn apply(&mut self, trie: &mut PathTrie<H>)
        requires
            old(trie).wf(),
            old(self).spec_mode() == SExprMode::Match ==> counted(
                old(self).count(),
                old(trie)@.dom(),
                Seq::empty(),
                old(self).expr(),
            ) is Some,
        ensures
            final(trie).wf(),
            final(self).expr() == old(self).expr(),
            final(self).spec_mode() == old(self).spec_mode(),
            final(self).spec_name() == old(self).spec_name(),
            applied(
                old(self).spec_mode(),
                old(self).expr(),
                Seq::empty(),
                old(trie)@,
                final(trie)@,
                old(self).count(),
                final(self).count(),
                true,
            ),
            old(self).spec_mode() == SExprMode::Match && old(self).expr().len() > 0 ==> final(self).count()
                == old(self).count() + instances(old(trie)@.dom(), Seq::empty(), old(self).expr()).len(),
    {
        self.try_apply(trie);
    }
}

impl<H: AtomHeader + Default> TransformOp<H> for SExprOperation<H> {
    open spec fn op_name(&self) -> Seq<char> {
        self.spec_name()
    }

    fn name(&self) -> (r: &str)
        ensures
            r@ == self.spec_name(),
    {
        self.name.as_str()
    }

    /// Apply below the atom's position, as [`SExprOperation::try_apply_at`] does;
    /// a `Match` whose matching fails leaves the operation as it was.
    fn apply(&mut self, trie: &mut PathTrie<H>, atom_path: &[u8])
        ensures
            final(self).expr() == old(self).expr(),
            final(self).spec_mode() == old(self).spec_mode(),
            final(self).spec_name() == old(self).spec_name(),
            applied(
                old(self).spec_mode(),
                old(self).expr(),
                atom_path@,
                old(trie)@,
                final(trie)@,
                old(self).count(),
                final(self).count(),
                succeeds(old(self).spec_mode(), old(self).count(), old(trie)@.dom(), atom_path@, old(self).expr()),
            ),
    {
        let ghost before = trie@;
        let ghost c0 = self.count();
        let ok = self.try_apply_at(trie, atom_path);
        proof {
            assert forall|k: Seq<u8>| !atom_path@.is_prefix_of(k) implies {
                &&& #[trigger] trie@.dom().contains(k) == before.dom().contains(k)
                &&& trie@.dom().contains(k) ==> trie@[k] == before[k]
            } by {
                lemma_changes_stay_below_base(
                    old(self).spec_mode(),
                    old(self).expr(),
                    atom_path@,
                    before,
                    trie@,
                    c0,
                    self.count(),
                    ok,
                    k,
                );
            }
        }
    }
}


/// After `Add` with a nonempty expression, a value is stored at the expression's
/// path below `base`; after `Remove`, none is.
pub proof fn lemma_add_stores_remove_clears<H: Default>(
    p: Seq<u8>,
    base: Seq<u8>,
    before: Map<Seq<u8>, H>,
    added: Map<Seq<u8>, H>,
    removed: Map<Seq<u8>, H>,
    c0: nat,
    c1: nat,
    c2: nat,
)
    requires
        p.len() > 0,
        applied(SExprMode::Add, p, base, before, added, c0, c1, true),
        applied(SExprMode::Remove, p, base, before, removed, c0, c2, true),
    ensures
        added.dom().contains(base + p),
        forall|k: Seq<u8>| k != base + p ==> (#[trigger] added.dom().contains(k) == before.dom().contains(k)),
        !removed.dom().contains(base + p),
        forall|k: Seq<u8>| k != base + p ==> (#[trigger] removed.dom().contains(k) == before.dom().contains(k)),
{
}

/// Adding the same expression twice changes the trie as adding it once does,
/// but for the value at its path, which is each time what `H::default` returns.
pub proof fn lemma_add_twice<H: Default>(
    p: Seq<u8>,
    base: Seq<u8>,
    before: Map<Seq<u8>, H>,
    once: Map<Seq<u8>, H>,
    twice: Map<Seq<u8>, H>,
    c0: nat,
    c1: nat,
    c2: nat,
)
    requires
        applied(SExprMode::Add, p, base, before, once, c0, c1, true),
        applied(SExprMode::Add, p, base, once, twice, c1, c2, true),
    ensures
        twice.dom() == once.dom(),
        forall|k: Seq<u8>| k != base + p && #[trigger] twice.dom().contains(k) ==> twice[k] == once[k],
        p.len() > 0 ==> call_ensures(H::default, (), twice[base + p]),
        c2 == c0,
{
    if p.len() > 0 {
        assert(twice.dom() =~= once.dom());
    }
}

/// With `u64` weights, `Add` stores 0, so adding the same expression twice
/// leaves the trie as adding it once.
pub proof fn lemma_add_twice_u64(
    p: Seq<u8>,
    base: Seq<u8>,
    before: Map<Seq<u8>, u64>,
    once: Map<Seq<u8>, u64>,
    twice: Map<Seq<u8>, u64>,
    c0: nat,
    c1: nat,
    c2: nat,
)
    requires
        applied(SExprMode::Add, p, base, before, once, c0, c1, true),
        applied(SExprMode::Add, p, base, once, twice, c1, c2, true),
    ensures
        p.len() > 0 ==> once[base + p] == 0,
        twice == once,
{
    if p.len() > 0 {
        assert(once[base + p] == 0);
        assert(twice[base + p] == 0);
        assert(twice =~= once);
    }
}

/// Adding an expression that is not in the trie and then removing it gives the
/// trie back.
pub proof fn lemma_add_then_remove<H: Default>(
    p: Seq<u8>,
    base: Seq<u8>,
    before: Map<Seq<u8>, H>,
    mid: Map<Seq<u8>, H>,
    after: Map<Seq<u8>, H>,
    c0: nat,
    c1: nat,
    c2: nat,
    ok1: bool,
    ok2: bool,
)
    requires
        !before.dom().contains(base + p),
        applied(SExprMode::Add, p, base, before, mid, c0, c1, ok1),
        applied(SExprMode::Remove, p, base, mid, after, c1, c2, ok2),
    ensures
        after == before,
        c2 == c0,
{
    if p.len() > 0 {
        assert(after =~= before);
    }
}

/// Each successful application in `Match` mode on the same trie adds the same
/// number to the counter: the number of matches, whatever the counter held.
pub proof fn lemma_match_counts_add_up<H: Default>(
    p: Seq<u8>,
    base: Seq<u8>,
    t: Map<Seq<u8>, H>,
    t1: Map<Seq<u8>, H>,
    t2: Map<Seq<u8>, H>,
    c0: nat,
    c1: nat,
    c2: nat,
)
    requires
        applied(SExprMode::Match, p, base, t, t1, c0, c1, true),
        applied(SExprMode::Match, p, base, t1, t2, c1, c2, true),
    ensures
        t2 == t,
        match_below(t.dom(), base, p) is Some,
        c1 == c0 + match_below(t.dom(), base, p).unwrap(),
        c2 == c1 + match_below(t.dom(), base, p).unwrap(),
{
}

/// An application that fails changes neither the trie nor the counter.
pub proof fn lemma_failure_changes_nothing<H: Default>(
    mode: SExprMode,
    p: Seq<u8>,
    base: Seq<u8>,
    before: Map<Seq<u8>, H>,
    after: Map<Seq<u8>, H>,
    c0: nat,
    c1: nat,
)
    requires
        applied(mode, p, base, before, after, c0, c1, false),
    ensures
        mode == SExprMode::Match,
        after == before,
        c1 == c0,
{
}


/// A ground expression (symbols and arities only) matches exactly once below
/// `base` when its path below `base` exists in the trie, and not at all
/// otherwise: concrete elements must match exactly.
pub proof fn lemma_ground_expression_matches_its_path(t: Set<Seq<u8>>, base: Seq<u8>, p: Seq<u8>)
    requires
        t.finite(),
        is_ground_expr(p),
    ensures
        match_below(t, base, p) == Some(if path_exists_in(t, base + p) { 1nat } else { 0nat }),
{
    lemma_finite_bounded(t);
    let h = height(t);
    lemma_ground_end_nonempty(p);
    lemma_ground_item(t, h, p, base, Seq::empty(), 0, 1);
    assert(p.subrange(0, p.len() as int) =~= p);
    if path_exists_in(t, base + p) {
        let k = choose|k: Seq<u8>| #[trigger] t.contains(k) && (base + p).is_prefix_of(k);
        assert(k.len() <= h);
    }
}


/// An operation applied at `base` changes only paths that start with `base`: it
/// works at and below the atom, never above or beside it.
pub proof fn lemma_changes_stay_below_base<H: Default>(
    mode: SExprMode,
    p: Seq<u8>,
    base: Seq<u8>,
    before: Map<Seq<u8>, H>,
    after: Map<Seq<u8>, H>,
    c0: nat,
    c1: nat,
    ok: bool,
    k: Seq<u8>,
)
    requires
        applied(mode, p, base, before, after, c0, c1, ok),
        !base.is_prefix_of(k),
    ensures
        after.dom().contains(k) == before.dom().contains(k),
        after.dom().contains(k) ==> after[k] == before[k],
{
    if p.len() > 0 {
        assert(k != base + p) by {
            if k == base + p {
                assert(base =~= (base + p).subrange(0, base.len() as int));
            }
        }
    }
}

} // verus!
