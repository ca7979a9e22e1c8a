//! A branded disjoint-set arena.
//!
//! Slots are allocated append-only and addressed by opaque [`Key`]s. Each slot
//! is either a class representative holding a value ([`Value::Leaf`]) or a link
//! toward the representative of the class it was merged into
//! ([`Value::Branch`]). Links always point to strictly larger slot indices, so
//! following them terminates; `get_canonical` compresses paths as it walks.
//!
//! Every arena carries a ghost identity, and every key records the identity of
//! the arena that issued it. All operations require that a key's identity
//! matches the arena's, and nothing relates the identities of two separately
//! created arenas, so a caller can never prove that a key minted by one arena
//! is accepted by another: cross-arena use is rejected at verification time.

use vstd::prelude::*;

verus! {

/// An opaque handle to one slot of one arena. Keys are issued by
/// [`UnionFind::allocate`] and stay usable for the arena's whole life; merging
/// classes never invalidates a key, it only changes what the key resolves to.
#[derive(Copy, Clone)]
pub struct Key {
    pub(crate) idx: usize,
    pub(crate) brand: Ghost<int>,
}

/// One slot of the arena table.
#[derive(Copy, Clone)]
pub enum Value<V> {
    /// This slot is the representative of its class and holds the class value.
    Leaf(V),
    /// This slot was merged away; the key points toward the representative.
    Branch(Key),
}

/// A generic union-find store of values of type `V`.
pub struct UnionFind<V> {
    table: Vec<Value<V>>,
    brand: Ghost<int>,
}

impl Key {
    /// The position of this key's slot, in allocation order.
    pub closed spec fn index(self) -> int {
        self.idx as int
    }

    /// The identity of the arena that issued this key.
    pub closed spec fn minted_by(self) -> int {
        self.brand@
    }

    /// Whether two keys address the same slot.
    pub fn same_index(self, other: Key) -> (r: bool)
        ensures
            r == (self.index() == other.index()),
    {
        self.idx == other.idx
    }
}

/// The link at slot `i`, if any, points to a strictly larger in-bounds slot.
spec fn link_ok<V>(t: Seq<Value<V>>, i: int) -> bool {
    match t[i] {
        Value::Leaf(_) => true,
        Value::Branch(k) => i < k.idx && (k.idx as int) < t.len(),
    }
}

spec fn links_ok<V>(t: Seq<Value<V>>) -> bool {
    forall|i: int| 0 <= i < t.len() ==> #[trigger] link_ok(t, i)
}

/// The link at slot `i`, if any, carries the arena identity `b`.
spec fn brand_ok<V>(t: Seq<Value<V>>, b: int, i: int) -> bool {
    match t[i] {
        Value::Leaf(_) => true,
        Value::Branch(k) => k.brand@ == b,
    }
}

spec fn brands_ok<V>(t: Seq<Value<V>>, b: int) -> bool {
    forall|i: int| 0 <= i < t.len() ==> #[trigger] brand_ok(t, b, i)
}

/// The representative slot reached from `i` by following links.
spec fn seq_root<V>(t: Seq<Value<V>>, i: int) -> int
    decreases t.len() - i
        when links_ok(t) && 0 <= i < t.len()
        via seq_root_dec::<V>
{
    match t[i] {
        Value::Leaf(_) => i,
        Value::Branch(k) => seq_root(t, k.idx as int),
    }
}

#[via_fn]
proof fn seq_root_dec<V>(t: Seq<Value<V>>, i: int) {
    assert(link_ok(t, i));
}

/// The class value stored at the representative reached from `i`.
spec fn seq_value<V>(t: Seq<Value<V>>, i: int) -> V {
    match t[seq_root(t, i)] {
        Value::Leaf(v) => v,
        Value::Branch(_) => arbitrary(),
    }
}

spec fn is_link<V>(v: Value<V>) -> bool {
    v matches Value::Branch(_)
}

/// How many slots have been merged away (are links rather than leaves).
spec fn link_count<V>(t: Seq<Value<V>>) -> nat
    decreases t.len(),
{
    if t.len() == 0 {
        0
    } else {
        link_count(t.drop_last()) + if is_link(t.last()) { 1nat } else { 0nat }
    }
}

proof fn lemma_link_count_le<V>(t: Seq<Value<V>>)
    ensures
        link_count(t) <= t.len(),
    decreases t.len(),
{
    if t.len() > 0 {
        lemma_link_count_le(t.drop_last());
    }
}

proof fn lemma_link_count_lt<V>(t: Seq<Value<V>>, i: int)
    requires
        0 <= i < t.len(),
        !is_link(t[i]),
    ensures
        link_count(t) < t.len(),
    decreases t.len(),
{
    if i == t.len() - 1 {
        lemma_link_count_le(t.drop_last());
    } else {
        lemma_link_count_lt(t.drop_last(), i);
    }
}

proof fn lemma_link_count_update<V>(t: Seq<Value<V>>, m: int, v: Value<V>)
    requires
        0 <= m < t.len(),
    ensures
        link_count(t.update(m, v)) + (if is_link(t[m]) { 1nat } else { 0nat }) == link_count(t)
            + (if is_link(v) { 1nat } else { 0nat }),
    decreases t.len(),
{
    let t2 = t.update(m, v);
    if m == t.len() - 1 {
        assert(t2.drop_last() =~= t.drop_last());
    } else {
        lemma_link_count_update(t.drop_last(), m, v);
        assert(t2.drop_last() =~= t.drop_last().update(m, v));
    }
}

proof fn lemma_link_count_push<V>(t: Seq<Value<V>>, v: Value<V>)
    ensures
        link_count(t.push(v)) == link_count(t) + (if is_link(v) { 1nat } else { 0nat }),
{
    assert(t.push(v).drop_last() =~= t);
}

/// Every chain ends at an in-bounds leaf, and roots are their own roots.
proof fn lemma_root_props<V>(t: Seq<Value<V>>, i: int)
    requires
        links_ok(t),
        0 <= i < t.len(),
    ensures
        i <= seq_root(t, i) < t.len(),
        !is_link(t[seq_root(t, i)]),
        seq_root(t, seq_root(t, i)) == seq_root(t, i),
        seq_value(t, seq_root(t, i)) == seq_value(t, i),
    decreases t.len() - i,
{
    assert(link_ok(t, i));
    match t[i] {
        Value::Leaf(_) => {},
        Value::Branch(k) => {
            lemma_root_props(t, k.idx as int);
        },
    }
}

/// Appending a fresh leaf disturbs no existing chain.
proof fn lemma_push_preserves<V>(t: Seq<Value<V>>, v: V, i: int)
    requires
        links_ok(t),
        0 <= i < t.len(),
    ensures
        links_ok(t.push(Value::Leaf(v))),
        seq_root(t.push(Value::Leaf(v)), i) == seq_root(t, i),
        seq_value(t.push(Value::Leaf(v)), i) == seq_value(t, i),
    decreases t.len() - i,
{
    let t2 = t.push(Value::Leaf(v));
    assert forall|j: int| 0 <= j < t2.len() implies #[trigger] link_ok(t2, j) by {
        if j < t.len() {
            assert(link_ok(t, j));
        }
    }
    assert(link_ok(t, i));
    match t[i] {
        Value::Leaf(_) => {},
        Value::Branch(k) => {
            lemma_push_preserves(t, v, k.idx as int);
        },
    }
    lemma_root_props(t, i);
}

/// Rewriting one link to point directly at its own representative keeps every
/// chain's representative and every class value unchanged.
proof fn lemma_compress_wf<V>(t: Seq<Value<V>>, m: int, k: Key)
    requires
        links_ok(t),
        0 <= m < t.len(),
        is_link(t[m]),
        k.idx as int == seq_root(t, m),
    ensures
        links_ok(t.update(m, Value::Branch(k))),
{
    let t2 = t.update(m, Value::Branch(k));
    lemma_root_props(t, m);
    assert(link_ok(t, m));
    assert forall|j: int| 0 <= j < t2.len() implies #[trigger] link_ok(t2, j) by {
        assert(link_ok(t, j));
        if j == m {
            match t[m] {
                Value::Leaf(_) => {},
                Value::Branch(n) => {
                    lemma_root_props(t, n.idx as int);
                },
            }
        }
    }
}

proof fn lemma_compress_root<V>(t: Seq<Value<V>>, m: int, k: Key, j: int)
    requires
        links_ok(t),
        0 <= m < t.len(),
        is_link(t[m]),
        k.idx as int == seq_root(t, m),
        0 <= j < t.len(),
    ensures
        seq_root(t.update(m, Value::Branch(k)), j) == seq_root(t, j),
        seq_value(t.update(m, Value::Branch(k)), j) == seq_value(t, j),
    decreases t.len() - j,
{
    let t2 = t.update(m, Value::Branch(k));
    lemma_compress_wf(t, m, k);
    lemma_root_props(t, m);
    assert(link_ok(t, j));
    if j == m {
        assert(t2[k.idx as int] == t[k.idx as int]);
        assert(seq_root(t2, k.idx as int) == k.idx as int);
        lemma_root_props(t, j);
    } else {
        match t[j] {
            Value::Leaf(_) => {
                lemma_root_props(t, j);
            },
            Value::Branch(n) => {
                lemma_compress_root(t, m, k, n.idx as int);
            },
        }
    }
    lemma_root_props(t, j);
    assert(t2[seq_root(t, j)] == t[seq_root(t, j)]);
}

/// Making root `lo` a link to root `hi` (which takes the value `x`) merges
/// exactly the two classes, with `hi` the surviving representative.
proof fn lemma_link_roots<V>(t: Seq<Value<V>>, lo: int, hi: int, hk: Key, x: V, j: int)
    requires
        links_ok(t),
        0 <= lo < t.len(),
        0 <= hi < t.len(),
        lo < hi,
        seq_root(t, lo) == lo,
        seq_root(t, hi) == hi,
        hk.idx as int == hi,
        0 <= j < t.len(),
    ensures
        links_ok(t.update(hi, Value::Leaf(x)).update(lo, Value::Branch(hk))),
        seq_root(t.update(hi, Value::Leaf(x)).update(lo, Value::Branch(hk)), j) == (if seq_root(
            t,
            j,
        ) == lo || seq_root(t, j) == hi {
            hi
        } else {
            seq_root(t, j)
        }),
        seq_value(t.update(hi, Value::Leaf(x)).update(lo, Value::Branch(hk)), j) == (if seq_root(
            t,
            j,
        ) == lo || seq_root(t, j) == hi {
            x
        } else {
            seq_value(t, j)
        }),
    decreases t.len() - j,
{
    let t2 = t.update(hi, Value::Leaf(x)).update(lo, Value::Branch(hk));
    lemma_root_props(t, lo);
    lemma_root_props(t, hi);
    assert forall|p: int| 0 <= p < t2.len() implies #[trigger] link_ok(t2, p) by {
        assert(link_ok(t, p));
    }
    assert(link_ok(t, j));
    lemma_root_props(t, j);
    if j == lo {
        assert(seq_root(t2, hi) == hi);
    } else if j == hi {
        assert(seq_root(t2, hi) == hi);
    } else {
        match t[j] {
            Value::Leaf(_) => {},
            Value::Branch(n) => {
                lemma_link_roots(t, lo, hi, hk, x, n.idx as int);
            },
        }
    }
    let r = seq_root(t, j);
    if r != lo && r != hi {
        assert(t2[r] == t[r]);
    }
}

impl<V> UnionFind<V> {
    /// How many slots have been allocated.
    pub closed spec fn len(self) -> int {
        self.table@.len() as int
    }

    /// The ghost identity of this arena.
    pub closed spec fn identity(self) -> int {
        self.brand@
    }

    /// Structural well-formedness: links point forward, in bounds, and carry
    /// this arena's identity.
    pub closed spec fn wf(self) -> bool {
        links_ok(self.table@) && brands_ok(self.table@, self.brand@)
    }

    /// The index of the representative slot of `i`'s class.
    pub closed spec fn root_of(self, i: int) -> int {
        seq_root(self.table@, i)
    }

    /// The value currently held by `i`'s class.
    pub closed spec fn value_at(self, i: int) -> V {
        seq_value(self.table@, i)
    }

    /// How many distinct classes the arena currently holds.
    pub closed spec fn classes(self) -> int {
        self.len() - link_count(self.table@)
    }

    /// Whether `k` was issued by this arena and addresses one of its slots.
    pub open spec fn valid(self, k: Key) -> bool {
        k.minted_by() == self.identity() && 0 <= k.index() < self.len()
    }

    /// Whether `i` and `j` currently resolve to the same representative.
    pub open spec fn same_root(self, i: int, j: int) -> bool {
        self.root_of(i) == self.root_of(j)
    }

    /// Whether slot `i` itself is currently a class representative.
    pub closed spec fn leaf_at(self, i: int) -> bool {
        !is_link(self.table@[i])
    }
}

/// The two stores partition their slots into the same classes with the same
/// values (the observable state of an arena; path compression keeps it).
pub open spec fn unchanged<V>(pre: UnionFind<V>, post: UnionFind<V>) -> bool {
    &&& post.identity() == pre.identity()
    &&& post.len() == pre.len()
    &&& post.classes() == pre.classes()
    &&& forall|i: int| 0 <= i < pre.len() ==> #[trigger] post.root_of(i) == pre.root_of(i)
    &&& forall|i: int| 0 <= i < pre.len() ==> #[trigger] post.value_at(i) == pre.value_at(i)
}

/// `post` is `pre` with the classes of `a` and `b` merged into one class
/// holding `v`, and nothing else disturbed.
pub open spec fn merged<V>(pre: UnionFind<V>, post: UnionFind<V>, a: int, b: int, v: V) -> bool {
    &&& post.identity() == pre.identity()
    &&& post.len() == pre.len()
    &&& post.classes() == pre.classes() - 1
    &&& post.classes() >= 1
    &&& post.same_root(a, b)
    &&& forall|i: int|
        0 <= i < pre.len() ==> #[trigger] post.root_of(i) == (if pre.same_root(i, a)
            || pre.same_root(i, b) {
            post.root_of(a)
        } else {
            pre.root_of(i)
        })
    &&& forall|i: int|
        0 <= i < pre.len() ==> #[trigger] post.value_at(i) == (if pre.same_root(i, a)
            || pre.same_root(i, b) {
            v
        } else {
            pre.value_at(i)
        })
}

/// Merging two representatives merges the classes of any two keys that
/// resolved to them, even across an intervening observation-preserving step.
pub proof fn lemma_merged_shift<V>(
    pre: UnionFind<V>,
    mid: UnionFind<V>,
    post: UnionFind<V>,
    a: int,
    b: int,
    c1: Key,
    c2: Key,
    v: V,
)
    requires
        pre.wf(),
        unchanged(pre, mid),
        0 <= a < pre.len(),
        0 <= b < pre.len(),
        c1.index() == pre.root_of(a),
        c2.index() == pre.root_of(b),
        merged(mid, post, c1.index(), c2.index(), v),
    ensures
        merged(pre, post, a, b, v),
{
    lemma_root_props(pre.table@, a);
    lemma_root_props(pre.table@, b);
    assert(mid.root_of(c1.index()) == pre.root_of(c1.index()));
    assert(mid.root_of(c2.index()) == pre.root_of(c2.index()));
    assert(mid.root_of(a) == pre.root_of(a));
    assert(mid.root_of(b) == pre.root_of(b));
    assert(post.root_of(a) == (if mid.same_root(a, c1.index()) || mid.same_root(a, c2.index()) {
        post.root_of(c1.index())
    } else {
        mid.root_of(a)
    }));
    assert(post.root_of(b) == (if mid.same_root(b, c1.index()) || mid.same_root(b, c2.index()) {
        post.root_of(c1.index())
    } else {
        mid.root_of(b)
    }));
    assert forall|i: int| 0 <= i < pre.len() implies #[trigger] post.root_of(i) == (if pre.same_root(
        i,
        a,
    ) || pre.same_root(i, b) {
        post.root_of(a)
    } else {
        pre.root_of(i)
    }) by {
        assert(mid.root_of(i) == pre.root_of(i));
        assert(post.root_of(i) == (if mid.same_root(i, c1.index()) || mid.same_root(
            i,
            c2.index(),
        ) {
            post.root_of(c1.index())
        } else {
            mid.root_of(i)
        }));
    }
    assert forall|i: int| 0 <= i < pre.len() implies #[trigger] post.value_at(i) == (if
        pre.same_root(i, a) || pre.same_root(i, b) {
        v
    } else {
        pre.value_at(i)
    }) by {
        assert(mid.root_of(i) == pre.root_of(i));
        assert(mid.value_at(i) == pre.value_at(i));
        assert(post.value_at(i) == (if mid.same_root(i, c1.index()) || mid.same_root(
            i,
            c2.index(),
        ) {
            v
        } else {
            mid.value_at(i)
        }));
    }
}

/// Observable preservation composes.
pub proof fn lemma_unchanged_trans<V>(a: UnionFind<V>, b: UnionFind<V>, c: UnionFind<V>)
    requires
        unchanged(a, b),
        unchanged(b, c),
    ensures
        unchanged(a, c),
{
    assert forall|i: int| 0 <= i < a.len() implies #[trigger] c.root_of(i) == a.root_of(i) by {
        assert(b.root_of(i) == a.root_of(i));
        assert(c.root_of(i) == b.root_of(i));
    }
    assert forall|i: int| 0 <= i < a.len() implies #[trigger] c.value_at(i) == a.value_at(i) by {
        assert(b.value_at(i) == a.value_at(i));
        assert(c.value_at(i) == b.value_at(i));
    }
}

/// A key's representative is in bounds, is its own representative, and holds
/// the key's class value.
pub proof fn lemma_value_at_root<V>(a: UnionFind<V>, i: int)
    requires
        a.wf(),
        0 <= i < a.len(),
    ensures
        i <= a.root_of(i) < a.len(),
        a.root_of(a.root_of(i)) == a.root_of(i),
        a.value_at(a.root_of(i)) == a.value_at(i),
{
    lemma_root_props(a.table@, i);
}

/// A non-empty well-formed arena has at least one class: its last slot can
/// link nowhere forward, so it is a representative.
pub proof fn lemma_classes_positive<V>(a: UnionFind<V>)
    requires
        a.wf(),
        a.len() >= 1,
    ensures
        a.classes() >= 1,
{
    assert(link_ok(a.table@, a.len() - 1));
    lemma_link_count_lt(a.table@, a.len() - 1);
}

/// Constructs a fresh, empty arena and hands it to `f`. The arena's ghost
/// identity is not related to any other arena's, so keys minted here are
/// provably usable only here.
pub fn new<V, Out, F: FnOnce(UnionFind<V>) -> Out>(f: F) -> (out: Out)
    requires
        forall|u: UnionFind<V>|
            u.wf() && u.len() == 0 ==> #[trigger] call_requires(f, (u,)),
    ensures
        exists|u: UnionFind<V>|
            (#[trigger] call_ensures(f, (u,), out)) && u.wf() && u.len() == 0,
{
    let u = UnionFind::<V>::fresh();
    f(u)
}

impl<V> UnionFind<V> {
    /// Creates an empty arena. Crate-internal; outside callers go through
    /// [`new`], which scopes the arena's whole life to one closure.
    pub(crate) fn fresh() -> (u: UnionFind<V>)
        ensures
            u.wf(),
            u.len() == 0,
    {
        UnionFind::<V> { table: Vec::new(), brand: Ghost(0int) }
    }
}

impl<V: Copy> UnionFind<V> {
    /// Appends a new singleton class holding `v` and returns its key, which is
    /// strictly newer (larger index) than every key issued before.
    pub fn allocate(&mut self, v: V) -> (k: Key)
        requires
            old(self).wf(),
        ensures
            final(self).wf(),
            final(self).identity() == old(self).identity(),
            final(self).len() == old(self).len() + 1,
            final(self).classes() == old(self).classes() + 1,
            final(self).valid(k),
            k.index() == old(self).len(),
            final(self).root_of(k.index()) == k.index(),
            final(self).value_at(k.index()) == v,
            forall|i: int|
                0 <= i < old(self).len() ==> #[trigger] final(self).root_of(i) == old(self).root_of(i),
            forall|i: int|
                0 <= i < old(self).len() ==> #[trigger] final(self).value_at(i) == old(self).value_at(i),
            forall|i: int| 0 <= i < old(self).len() ==> !final(self).same_root(i, k.index()),
            forall|q: Key| old(self).valid(q) ==> final(self).valid(q),
    {
        let ghost t0 = self.table@;
        let key = Key { idx: self.table.len(), brand: Ghost(self.brand@) };
        self.table.push(Value::Leaf(v));
        proof {
            assert forall|i: int| 0 <= i < t0.len() implies #[trigger] seq_root(
                self.table@,
                i,
            ) == seq_root(t0, i) && seq_value(self.table@, i) == seq_value(t0, i) by {
                lemma_push_preserves(t0, v, i);
            }
            if t0.len() > 0 {
                lemma_push_preserves(t0, v, 0);
            } else {
                assert forall|j: int| 0 <= j < self.table@.len() implies #[trigger] link_ok(
                    self.table@,
                    j,
                ) by {}
            }
            assert forall|j: int| 0 <= j < self.table@.len() implies #[trigger] brand_ok(
                self.table@,
                self.brand@,
                j,
            ) by {
                if j < t0.len() {
                    assert(brand_ok(t0, self.brand@, j));
                }
            }
            lemma_link_count_push(t0, Value::Leaf(v));
            assert(seq_root(self.table@, key.idx as int) == key.idx as int);
            assert forall|i: int| 0 <= i < t0.len() implies !self.same_root(i, key.idx as int) by {
                lemma_root_props(t0, i);
            }
        }
        key
    }

    /// Follows links from `key` to its class representative, returning the
    /// representative's key and the class value, and rewrites every link it
    /// visited to point directly at the representative (path compression). The
    /// partition of keys into classes and every class value are untouched.
    pub fn get_canonical(&mut self, key: Key) -> (res: (Key, V))
        requires
            old(self).wf(),
            old(self).valid(key),
        ensures
            final(self).wf(),
            final(self).identity() == old(self).identity(),
            final(self).len() == old(self).len(),
            final(self).classes() == old(self).classes(),
            unchanged(*old(self), *final(self)),
            forall|q: Key| old(self).valid(q) ==> final(self).valid(q),
            final(self).valid(res.0),
            res.0.index() == old(self).root_of(key.index()),
            final(self).root_of(res.0.index()) == res.0.index(),
            res.1 == old(self).value_at(key.index()),
            forall|i: int|
                0 <= i < final(self).len() ==> (#[trigger] final(self).leaf_at(i) <==> old(
                    self,
                ).leaf_at(i)),
        decreases old(self).len() - key.index(),
    {
        let idx = key.idx;
        let slot = self.table[idx];
        match slot {
            Value::Leaf(v) => {
                proof {
                    assert(seq_root(self.table@, idx as int) == idx as int);
                }
                (key, v)
            },
            Value::Branch(next) => {
                proof {
                    assert(link_ok(self.table@, idx as int));
                    assert(brand_ok(self.table@, self.brand@, idx as int));
                }
                let ghost t0 = self.table@;
                let ghost pre_rec = *self;
                let (root, v) = self.get_canonical(next);
                let ghost mid_rec = *self;
                let ghost t1 = self.table@;
                self.table[idx] = Value::Branch(root);
                proof {
                    assert(!pre_rec.leaf_at(idx as int));
                    assert(t1.len() == t0.len());
                    assert(mid_rec.leaf_at(idx as int) <==> pre_rec.leaf_at(idx as int));
                    assert(is_link(t1[idx as int]));
                    assert(mid_rec.root_of(idx as int) == pre_rec.root_of(idx as int));
                    assert(seq_root(t1, idx as int) == seq_root(t0, idx as int));
                    assert(seq_root(t0, idx as int) == seq_root(t0, next.idx as int));
                    assert(root.idx as int == seq_root(t1, idx as int));
                    lemma_compress_wf(t1, idx as int, root);
                    assert forall|i: int| 0 <= i < t1.len() implies #[trigger] seq_root(
                        self.table@,
                        i,
                    ) == seq_root(t1, i) && seq_value(self.table@, i) == seq_value(t1, i) by {
                        lemma_compress_root(t1, idx as int, root, i);
                    }
                    assert forall|j: int| 0 <= j < self.table@.len() implies #[trigger] brand_ok(
                        self.table@,
                        self.brand@,
                        j,
                    ) by {
                        if j != idx as int {
                            assert(brand_ok(t1, self.brand@, j));
                        }
                    }
                    lemma_link_count_update(t1, idx as int, Value::Branch(root));
                    assert forall|i: int| 0 <= i < self.table@.len() implies (#[trigger] self.leaf_at(
                        i,
                    ) <==> old(self).leaf_at(i)) by {
                        assert(mid_rec.leaf_at(i) <==> pre_rec.leaf_at(i));
                    }
                    assert forall|i: int| 0 <= i < pre_rec.len() implies #[trigger] self.root_of(i)
                        == old(self).root_of(i) by {
                        assert(seq_root(self.table@, i) == seq_root(t1, i));
                        assert(mid_rec.root_of(i) == pre_rec.root_of(i));
                    }
                    assert forall|i: int| 0 <= i < pre_rec.len() implies #[trigger] self.value_at(i)
                        == old(self).value_at(i) by {
                        assert(seq_root(self.table@, i) == seq_root(t1, i) && seq_value(
                            self.table@,
                            i,
                        ) == seq_value(t1, i));
                        assert(mid_rec.root_of(i) == pre_rec.root_of(i));
                        assert(mid_rec.value_at(i) == pre_rec.value_at(i));
                    }
                    assert(self.classes() == old(self).classes());
                }
                (root, v)
            },
        }
    }

    /// The class value that `key` currently resolves to.
    pub fn get(&mut self, key: Key) -> (v: V)
        requires
            old(self).wf(),
            old(self).valid(key),
        ensures
            final(self).wf(),
            unchanged(*old(self), *final(self)),
            forall|q: Key| old(self).valid(q) ==> final(self).valid(q),
            v == old(self).value_at(key.index()),
    {
        let (_root, v) = self.get_canonical(key);
        v
    }

    /// Makes the two distinct representatives `c1` and `c2` one class whose
    /// value is `v`; the larger-indexed representative survives.
    fn merge_at(&mut self, c1: Key, c2: Key, v: V)
        requires
            old(self).wf(),
            old(self).valid(c1),
            old(self).valid(c2),
            old(self).root_of(c1.index()) == c1.index(),
            old(self).root_of(c2.index()) == c2.index(),
            c1.index() != c2.index(),
        ensures
            final(self).wf(),
            final(self).identity() == old(self).identity(),
            final(self).len() == old(self).len(),
            forall|q: Key| old(self).valid(q) ==> final(self).valid(q),
            merged(*old(self), *final(self), c1.index(), c2.index(), v),
    {
        let (lo, hi) = if c1.idx < c2.idx {
            (c1, c2)
        } else {
            (c2, c1)
        };
        let ghost tm = self.table@;
        self.table[hi.idx] = Value::Leaf(v);
        self.table[lo.idx] = Value::Branch(hi);
        proof {
            assert(seq_root(tm, lo.idx as int) == lo.idx as int);
            assert(seq_root(tm, hi.idx as int) == hi.idx as int);
            lemma_root_props(tm, lo.idx as int);
            lemma_root_props(tm, hi.idx as int);
            assert forall|j: int| 0 <= j < tm.len() implies #[trigger] seq_root(
                self.table@,
                j,
            ) == (if seq_root(tm, j) == lo.idx as int || seq_root(tm, j) == hi.idx as int {
                hi.idx as int
            } else {
                seq_root(tm, j)
            }) && seq_value(self.table@, j) == (if seq_root(tm, j) == lo.idx as int || seq_root(
                tm,
                j,
            ) == hi.idx as int {
                v
            } else {
                seq_value(tm, j)
            }) by {
                lemma_link_roots(tm, lo.idx as int, hi.idx as int, hi, v, j);
            }
            lemma_link_roots(tm, lo.idx as int, hi.idx as int, hi, v, lo.idx as int);
            assert forall|j: int| 0 <= j < self.table@.len() implies #[trigger] brand_ok(
                self.table@,
                self.brand@,
                j,
            ) by {
                if j != lo.idx as int && j != hi.idx as int {
                    assert(brand_ok(tm, self.brand@, j));
                }
            }
            assert(is_link(self.table@[lo.idx as int]));
            lemma_link_count_update(tm, hi.idx as int, Value::Leaf(v));
            lemma_link_count_update(
                tm.update(hi.idx as int, Value::Leaf(v)),
                lo.idx as int,
                Value::Branch(hi),
            );
            assert(!is_link(tm[hi.idx as int]));
            assert(!is_link(tm.update(hi.idx as int, Value::Leaf(v))[lo.idx as int]));
            lemma_link_count_lt(self.table@, hi.idx as int);
        }
    }

    /// Merges the classes of `k1` and `k2`. If they already coincide, returns
    /// `default` without consulting `f`. Otherwise calls `f` on the two class
    /// values: if `f` yields a merged value, the two classes become one class
    /// holding it; if `f` declines, the partition is left as it was. Either
    /// way `f`'s second result is returned.
    pub fn union<Out, F: FnOnce(V, V) -> (Option<V>, Out)>(
        &mut self,
        k1: Key,
        k2: Key,
        default: Out,
        f: F,
    ) -> (out: Out)
        requires
            old(self).wf(),
            old(self).valid(k1),
            old(self).valid(k2),
            !old(self).same_root(k1.index(), k2.index()) ==> call_requires(
                f,
                (old(self).value_at(k1.index()), old(self).value_at(k2.index())),
            ),
        ensures
            final(self).wf(),
            final(self).identity() == old(self).identity(),
            final(self).len() == old(self).len(),
            forall|q: Key| old(self).valid(q) ==> final(self).valid(q),
            old(self).same_root(k1.index(), k2.index()) ==> out == default && unchanged(
                *old(self),
                *final(self),
            ),
            !old(self).same_root(k1.index(), k2.index()) ==> exists|m: Option<V>|
                {
                    &&& #[trigger] call_ensures(
                        f,
                        (old(self).value_at(k1.index()), old(self).value_at(k2.index())),
                        (m, out),
                    )
                    &&& (m is None ==> unchanged(*old(self), *final(self)))
                    &&& (m matches Some(v) ==> merged(
                        *old(self),
                        *final(self),
                        k1.index(),
                        k2.index(),
                        v,
                    ))
                },
    {
        let ghost pre = *self;
        let (c1, v1) = self.get_canonical(k1);
        let (c2, v2) = self.get_canonical(k2);
        let ghost mid = *self;
        if c1.same_index(c2) {
            default
        } else {
            let (do_merge, out) = f(v1, v2);
            match do_merge {
                Some(v) => {
                    self.merge_at(c1, c2, v);
                    proof {
                        lemma_merged_shift(pre, mid, *self, k1.index(), k2.index(), c1, c2, v);
                    }
                    out
                },
                None => out,
            }
        }
    }

    /// Merges the classes of `k1` and `k2` unconditionally, the merged class
    /// taking the value `v`; a no-op (and `v` is discarded) if they already
    /// coincide.
    pub fn union_uncond(&mut self, k1: Key, k2: Key, v: V)
        requires
            old(self).wf(),
            old(self).valid(k1),
            old(self).valid(k2),
        ensures
            final(self).wf(),
            final(self).identity() == old(self).identity(),
            final(self).len() == old(self).len(),
            forall|q: Key| old(self).valid(q) ==> final(self).valid(q),
            old(self).same_root(k1.index(), k2.index()) ==> unchanged(*old(self), *final(self)),
            !old(self).same_root(k1.index(), k2.index()) ==> merged(
                *old(self),
                *final(self),
                k1.index(),
                k2.index(),
                v,
            ),
    {
        let ghost pre = *self;
        let (c1, _v1) = self.get_canonical(k1);
        let (c2, _v2) = self.get_canonical(k2);
        let ghost mid = *self;
        if !c1.same_index(c2) {
            self.merge_at(c1, c2, v);
            proof {
                lemma_merged_shift(pre, mid, *self, k1.index(), k2.index(), c1, c2, v);
            }
        }
    }

    /// Whether the two keys currently resolve to the same representative.
    pub fn equivalent(&mut self, k1: Key, k2: Key) -> (r: bool)
        requires
            old(self).wf(),
            old(self).valid(k1),
            old(self).valid(k2),
        ensures
            final(self).wf(),
            unchanged(*old(self), *final(self)),
            forall|q: Key| old(self).valid(q) ==> final(self).valid(q),
            r == old(self).same_root(k1.index(), k2.index()),
    {
        let (c1, _v1) = self.get_canonical(k1);
        let (c2, _v2) = self.get_canonical(k2);
        c1.same_index(c2)
    }
}

} // verus!
