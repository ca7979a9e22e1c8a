//! A unification-based type-equality engine for a minimal type language
//! (the base type `Int` and the function type `Arrow`), built on a branded
//! union-find arena with level-scoped unification variables.
//!
//! A [`System`] interprets arena classes as type variables: a class is either
//! `Unsolved` (a variable not yet equated with a concrete shape, recording the
//! nesting level at which it was created) or `Solved` (a concrete head).
//! [`System::eq`] decides whether two type handles can be made equal, merging
//! variables as equalities are discovered. [`System::subsystem`] opens a
//! strictly deeper scope sharing the same arena; a finished subsystem can
//! export a handle through [`System::quantify`], the only way a handle
//! crosses a scope boundary upward.
//!
//! Scope discipline is enforced in the contracts: every handle carries a
//! ghost scope path, and operations require the handle's path to be a prefix
//! of the engine's. A handle minted in a subsystem is provably usable only
//! there, while parent and quantified handles flow downward freely.

use core::marker::PhantomData;
use vstd::prelude::*;

pub mod union_find;

verus! {

/// Marker for an engine that may still allocate and unify.
pub enum Active {
    /// The single, meaningless witness; the type is only used as a marker.
    Marker,
}

/// Marker for an engine that has been finished: read-only export stage.
pub enum Finished {
    /// The single, meaningless witness; the type is only used as a marker.
    Marker,
}

/// The structural shape of a solved type.
#[derive(Copy, Clone)]
pub enum Head {
    /// The base type.
    Int,
    /// A function type; the keys address the domain and range classes.
    Arrow(union_find::Key, union_find::Key),
}

/// The state of one type-variable class in the arena.
#[derive(Copy, Clone)]
pub enum Var {
    /// Not yet equated with a concrete shape; records the nesting level at
    /// which the variable was created.
    Unsolved(u32),
    /// Determined to denote a concrete type shape.
    Solved(Head),
}

/// A scoped unification engine: an arena of type-variable classes plus the
/// nesting level of the scope it works for.
#[verifier::reject_recursive_types(State)]
pub struct System<State> {
    arena: union_find::UnionFind<Var>,
    level: u32,
    path: Ghost<Seq<int>>,
    marker: PhantomData<State>,
}

/// A transient type handle: an arena key plus the ghost scope path it is
/// valid in. An empty path means the handle is context-free and usable in
/// every scope over the same arena.
#[derive(Copy, Clone)]
pub struct Type {
    key: union_find::Key,
    scope: Ghost<Seq<int>>,
}

impl Type {
    /// The arena key this handle wraps.
    pub closed spec fn key_of(self) -> union_find::Key {
        self.key
    }

    /// The scope path this handle is tagged with.
    pub closed spec fn scope_of(self) -> Seq<int> {
        self.scope@
    }
}

/// The type-variable state that `k`'s class currently holds.
pub open spec fn val_of(a: union_find::UnionFind<Var>, k: union_find::Key) -> Var {
    a.value_at(k.index())
}

/// Whether the two keys' classes have been merged.
pub open spec fn joined(a: union_find::UnionFind<Var>, k1: union_find::Key, k2: union_find::Key) -> bool {
    a.same_root(k1.index(), k2.index())
}

/// A solved arrow stored in the arena only ever references valid keys of the
/// same arena.
pub open spec fn head_ok_at(a: union_find::UnionFind<Var>, i: int) -> bool {
    match a.value_at(i) {
        Var::Solved(Head::Arrow(d, x)) => a.valid(d) && a.valid(x),
        _ => true,
    }
}

pub open spec fn heads_ok(a: union_find::UnionFind<Var>) -> bool {
    forall|i: int| 0 <= i < a.len() ==> #[trigger] head_ok_at(a, i)
}

/// What every engine step preserves about the arena: its identity and size,
/// and every equality already established (unification only ever merges).
pub open spec fn evolves(pre: union_find::UnionFind<Var>, post: union_find::UnionFind<Var>) -> bool {
    &&& post.identity() == pre.identity()
    &&& post.len() == pre.len()
    &&& post.classes() <= pre.classes()
    &&& forall|i: int, j: int|
        0 <= i < pre.len() && 0 <= j < pre.len() && pre.same_root(i, j) ==> #[trigger] post.same_root(i, j)
}

proof fn lemma_frame_unchanged(pre: union_find::UnionFind<Var>, post: union_find::UnionFind<Var>)
    requires
        heads_ok(pre),
        union_find::unchanged(pre, post),
    ensures
        heads_ok(post),
        evolves(pre, post),
{
    assert forall|i: int| 0 <= i < post.len() implies #[trigger] head_ok_at(post, i) by {
        assert(head_ok_at(pre, i));
        assert(post.value_at(i) == pre.value_at(i));
    }
    assert forall|i: int, j: int|
        0 <= i < pre.len() && 0 <= j < pre.len() && pre.same_root(i, j) implies #[trigger] post.same_root(
        i,
        j,
    ) by {
        assert(post.root_of(i) == pre.root_of(i));
        assert(post.root_of(j) == pre.root_of(j));
    }
}

proof fn lemma_frame_merged(
    pre: union_find::UnionFind<Var>,
    post: union_find::UnionFind<Var>,
    a: int,
    b: int,
    v: Var,
)
    requires
        heads_ok(pre),
        0 <= a < pre.len(),
        0 <= b < pre.len(),
        union_find::merged(pre, post, a, b, v),
        v matches Var::Solved(Head::Arrow(d, x)) ==> pre.valid(d) && pre.valid(x),
    ensures
        heads_ok(post),
        evolves(pre, post),
{
    assert forall|i: int| 0 <= i < post.len() implies #[trigger] head_ok_at(post, i) by {
        assert(head_ok_at(pre, i));
        assert(post.value_at(i) == (if pre.same_root(i, a) || pre.same_root(i, b) {
            v
        } else {
            pre.value_at(i)
        }));
    }
    assert forall|i: int, j: int|
        0 <= i < pre.len() && 0 <= j < pre.len() && pre.same_root(i, j) implies #[trigger] post.same_root(
        i,
        j,
    ) by {
        assert(post.root_of(i) == (if pre.same_root(i, a) || pre.same_root(i, b) {
            post.root_of(a)
        } else {
            pre.root_of(i)
        }));
        assert(post.root_of(j) == (if pre.same_root(j, a) || pre.same_root(j, b) {
            post.root_of(a)
        } else {
            pre.root_of(j)
        }));
    }
}

impl<State> System<State> {
    /// The underlying arena.
    pub closed spec fn store(self) -> union_find::UnionFind<Var> {
        self.arena
    }

    /// The nesting level this engine works for (0 at the top).
    pub closed spec fn depth(self) -> u32 {
        self.level
    }

    /// The ghost scope path of this engine; its length equals the level.
    pub closed spec fn scope_path(self) -> Seq<int> {
        self.path@
    }

    /// Well-formedness: the arena is intact, stored arrows reference valid
    /// keys, and the level counts the scope path.
    pub open spec fn wf(self) -> bool {
        &&& self.store().wf()
        &&& self.depth() as int == self.scope_path().len()
        &&& heads_ok(self.store())
    }

    /// Whether the handle may be used by this engine: its key belongs to this
    /// engine's arena and its scope is this scope or an enclosing one.
    pub open spec fn owns(self, t: Type) -> bool {
        &&& self.store().valid(t.key_of())
        &&& t.scope_of().is_prefix_of(self.scope_path())
    }

    /// The type-variable state the handle currently resolves to.
    pub open spec fn resolved(self, t: Type) -> Var {
        val_of(self.store(), t.key_of())
    }

    /// Whether two handles have been equated (their classes merged).
    pub open spec fn same_class(self, t1: Type, t2: Type) -> bool {
        joined(self.store(), t1.key_of(), t2.key_of())
    }
}

/// Reflexivity of the equivalence that `eq` decides and maintains: any handle
/// is in its own class, so `eq(t, t)` is owed `true` by `eq`'s contract.
pub proof fn lemma_same_class_reflexive<State>(s: System<State>, t: Type)
    ensures
        s.same_class(t, t),
{
}

/// Symmetry of the equivalence: two handles are equated in one order exactly
/// when they are equated in the other.
pub proof fn lemma_same_class_symmetric<State>(s: System<State>, a: Type, b: Type)
    ensures
        s.same_class(a, b) == s.same_class(b, a),
{
}

/// Transitivity of the equivalence: with `eq`'s contract (a `true` result
/// equates its arguments, and established equalities persist), two successful
/// calls sharing a middle handle oblige a third on the outer pair to return
/// `true`.
pub proof fn lemma_same_class_transitive<State>(s: System<State>, a: Type, b: Type, c: Type)
    requires
        s.same_class(a, b),
        s.same_class(b, c),
    ensures
        s.same_class(a, c),
{
}

/// A context-free handle (an empty scope path, as `mk_int` and `quantify`
/// produce) is usable in every scope over the same arena: quantifying is what
/// lets a subsystem's result outlive its scope.
pub proof fn lemma_context_free_flows<State>(s: System<State>, t: Type)
    requires
        s.store().valid(t.key_of()),
        t.scope_of() == Seq::<int>::empty(),
    ensures
        s.owns(t),
{
    assert(t.scope_of().is_prefix_of(s.scope_path())) by {
        assert(t.scope_of() =~= s.scope_path().subrange(0, 0));
    }
}

/// Equalities persist: any engine step (`evolves`, which every mutating
/// operation ensures) keeps two equated handles equated, so once `eq` has
/// returned `true` for a pair, every later `eq` on that pair is owed `true`
/// with the arena observably unchanged.
pub proof fn lemma_equalities_persist(
    pre: union_find::UnionFind<Var>,
    post: union_find::UnionFind<Var>,
    t1: Type,
    t2: Type,
)
    requires
        evolves(pre, post),
        0 <= t1.key_of().index() < pre.len(),
        0 <= t2.key_of().index() < pre.len(),
        joined(pre, t1.key_of(), t2.key_of()),
    ensures
        joined(post, t1.key_of(), t2.key_of()),
{
}

/// Constructs a fresh arena and a top-level engine (level 0) owning it. The
/// arena lives exactly as long as the engine tree that grows from this value:
/// dropping the last engine releases it.
pub fn new() -> (s: System<Active>)
    ensures
        s.wf(),
        s.depth() == 0,
        s.store().len() == 0,
{
    let arena = union_find::UnionFind::<Var>::fresh();
    let sys = System::<Active> { arena, level: 0, path: Ghost(Seq::empty()), marker: PhantomData };
    proof {
        assert(sys.wf());
    }
    sys
}

impl System<Active> {
    /// Allocates a fresh arena class holding `var` and wraps it in a handle
    /// tagged with the given scope path.
    fn mk_type(&mut self, var: Var, scope: Ghost<Seq<int>>) -> (t: Type)
        requires
            old(self).wf(),
            var matches Var::Solved(Head::Arrow(d, x)) ==> old(self).store().valid(d) && old(self).store().valid(x),
        ensures
            final(self).wf(),
            final(self).depth() == old(self).depth(),
            final(self).scope_path() == old(self).scope_path(),
            final(self).store().identity() == old(self).store().identity(),
            final(self).store().len() == old(self).store().len() + 1,
            final(self).store().classes() == old(self).store().classes() + 1,
            final(self).store().valid(t.key_of()),
            t.key_of().index() == old(self).store().len(),
            t.scope_of() == scope@,
            final(self).resolved(t) == var,
            final(self).store().root_of(t.key_of().index()) == t.key_of().index(),
            forall|i: int|
                0 <= i < old(self).store().len() ==> #[trigger] final(self).store().root_of(i)
                    == old(self).store().root_of(i),
            forall|i: int|
                0 <= i < old(self).store().len() ==> #[trigger] final(self).store().value_at(i)
                    == old(self).store().value_at(i),
            forall|i: int|
                0 <= i < old(self).store().len() ==> !final(self).store().same_root(
                    i,
                    t.key_of().index(),
                ),
            forall|q: union_find::Key|
                old(self).store().valid(q) ==> final(self).store().valid(q),
    {
        let k = self.arena.allocate(var);
        proof {
            assert forall|i: int| 0 <= i < self.store().len() implies #[trigger] head_ok_at(
                self.store(),
                i,
            ) by {
                if i < old(self).store().len() {
                    assert(head_ok_at(old(self).store(), i));
                    assert(self.store().value_at(i) == old(self).store().value_at(i));
                } else {
                    assert(self.store().value_at(i) == var);
                }
            }
        }
        Type { key: k, scope }
    }

    /// Allocates a fresh unification variable at this engine's level. The
    /// handle is scoped to this engine and its subsystems.
    pub fn mk_var(&mut self) -> (t: Type)
        requires
            old(self).wf(),
        ensures
            final(self).wf(),
            final(self).depth() == old(self).depth(),
            final(self).scope_path() == old(self).scope_path(),
            final(self).store().identity() == old(self).store().identity(),
            final(self).store().len() == old(self).store().len() + 1,
            final(self).owns(t),
            t.scope_of() == old(self).scope_path(),
            final(self).resolved(t) == Var::Unsolved(old(self).depth()),
            forall|i: int|
                0 <= i < old(self).store().len() ==> #[trigger] final(self).store().root_of(i)
                    == old(self).store().root_of(i),
            forall|i: int|
                0 <= i < old(self).store().len() ==> #[trigger] final(self).store().value_at(i)
                    == old(self).store().value_at(i),
            forall|u: Type| old(self).owns(u) ==> final(self).owns(u),
            forall|u: Type| old(self).owns(u) ==> !final(self).same_class(u, t),
    {
        let level = self.level;
        let t = self.mk_type(Var::Unsolved(level), Ghost(self.path@));
        proof {
            assert(t.scope_of().is_prefix_of(self.scope_path())) by {
                assert(self.scope_path().subrange(0, self.scope_path().len() as int) =~= self.scope_path());
            }
        }
        t
    }

    /// Allocates a solved `Int` class. The handle is context-free: valid at
    /// any level of any scope over this arena.
    pub fn mk_int(&mut self) -> (t: Type)
        requires
            old(self).wf(),
        ensures
            final(self).wf(),
            final(self).depth() == old(self).depth(),
            final(self).scope_path() == old(self).scope_path(),
            final(self).store().identity() == old(self).store().identity(),
            final(self).store().len() == old(self).store().len() + 1,
            final(self).owns(t),
            t.scope_of() == Seq::<int>::empty(),
            final(self).resolved(t) == Var::Solved(Head::Int),
            forall|i: int|
                0 <= i < old(self).store().len() ==> #[trigger] final(self).store().root_of(i)
                    == old(self).store().root_of(i),
            forall|i: int|
                0 <= i < old(self).store().len() ==> #[trigger] final(self).store().value_at(i)
                    == old(self).store().value_at(i),
            forall|u: Type| old(self).owns(u) ==> final(self).owns(u),
            forall|u: Type| old(self).owns(u) ==> !final(self).same_class(u, t),
    {
        let t = self.mk_type(Var::Solved(Head::Int), Ghost(Seq::empty()));
        proof {
            assert(t.scope_of().is_prefix_of(self.scope_path()));
        }
        t
    }

    /// Allocates a solved arrow class over the two given handles. Both must
    /// be usable here; the result is scoped like the more deeply scoped of
    /// the two.
    pub fn mk_arrow(&mut self, t1: Type, t2: Type) -> (t: Type)
        requires
            old(self).wf(),
            old(self).owns(t1),
            old(self).owns(t2),
        ensures
            final(self).wf(),
            final(self).depth() == old(self).depth(),
            final(self).scope_path() == old(self).scope_path(),
            final(self).store().identity() == old(self).store().identity(),
            final(self).store().len() == old(self).store().len() + 1,
            final(self).owns(t),
            t.scope_of() == (if t1.scope_of().len() >= t2.scope_of().len() {
                t1.scope_of()
            } else {
                t2.scope_of()
            }),
            final(self).resolved(t) == Var::Solved(Head::Arrow(t1.key_of(), t2.key_of())),
            forall|i: int|
                0 <= i < old(self).store().len() ==> #[trigger] final(self).store().root_of(i)
                    == old(self).store().root_of(i),
            forall|i: int|
                0 <= i < old(self).store().len() ==> #[trigger] final(self).store().value_at(i)
                    == old(self).store().value_at(i),
            forall|u: Type| old(self).owns(u) ==> final(self).owns(u),
            forall|u: Type| old(self).owns(u) ==> !final(self).same_class(u, t),
    {
        let ghost sc = if t1.scope@.len() >= t2.scope@.len() {
            t1.scope@
        } else {
            t2.scope@
        };
        let t = self.mk_type(Var::Solved(Head::Arrow(t1.key, t2.key)), Ghost(sc));
        proof {
            assert(t.scope_of().is_prefix_of(self.scope_path()));
        }
        t
    }

    /// Opens a nested scope: a new engine over the same arena, one level
    /// deeper, with a scope path this engine's path does not reach.
    pub fn subsystem(self) -> (c: System<Active>)
        requires
            self.wf(),
            self.depth() < u32::MAX,
        ensures
            c.wf(),
            c.store() == self.store(),
            c.depth() == self.depth() + 1,
            c.scope_path().len() == self.scope_path().len() + 1,
            self.scope_path().is_prefix_of(c.scope_path()),
            forall|u: Type| self.owns(u) ==> c.owns(u),
    {
        let ghost p = self.path@.push(0int);
        proof {
            assert(self.path@.is_prefix_of(p)) by {
                assert(p.subrange(0, self.path@.len() as int) =~= self.path@);
            }
        }
        let child = System::<Active> {
            arena: self.arena,
            level: self.level + 1,
            path: Ghost(p),
            marker: PhantomData,
        };
        proof {
            assert forall|u: Type| self.owns(u) implies child.owns(u) by {
                assert(u.scope_of() =~= p.subrange(0, u.scope_of().len() as int));
            }
        }
        child
    }

    /// One-way conversion to the read-only export stage: no further
    /// allocation or unification through the result.
    pub fn finish(self) -> (d: System<Finished>)
        requires
            self.wf(),
        ensures
            d.wf(),
            d.store() == self.store(),
            d.depth() == self.depth(),
            d.scope_path() == self.scope_path(),
    {
        System { arena: self.arena, level: self.level, path: self.path, marker: PhantomData }
    }
}

proof fn lemma_evolves_trans(
    a: union_find::UnionFind<Var>,
    b: union_find::UnionFind<Var>,
    c: union_find::UnionFind<Var>,
)
    requires
        evolves(a, b),
        evolves(b, c),
    ensures
        evolves(a, c),
{
    assert forall|i: int, j: int|
        0 <= i < a.len() && 0 <= j < a.len() && a.same_root(i, j) implies #[trigger] c.same_root(
        i,
        j,
    ) by {
        assert(b.same_root(i, j));
    }
}

impl System<Active> {
    /// Decides structural compatibility of two solved heads whose (distinct)
    /// representatives are `c1` and `c2`, unifying as it goes: `Int` matches
    /// `Int`; an arrow matches an arrow when domain unifies with domain and
    /// range with range; `Int` never matches an arrow. Compatible heads have
    /// their classes merged before any recursion, so the walk always
    /// terminates; on a mismatch discovered inside an arrow, merges already
    /// performed are not rolled back.
    fn eq_head(&mut self, c1: union_find::Key, c2: union_find::Key, h1: Head, h2: Head) -> (r:
        bool)
        requires
            old(self).wf(),
            old(self).store().valid(c1),
            old(self).store().valid(c2),
            old(self).store().root_of(c1.index()) == c1.index(),
            old(self).store().root_of(c2.index()) == c2.index(),
            c1.index() != c2.index(),
            val_of(old(self).store(), c1) == Var::Solved(h1),
            val_of(old(self).store(), c2) == Var::Solved(h2),
        ensures
            final(self).wf(),
            final(self).depth() == old(self).depth(),
            final(self).scope_path() == old(self).scope_path(),
            evolves(old(self).store(), final(self).store()),
            r ==> final(self).store().same_root(c1.index(), c2.index()),
            h1 == Head::Int && h2 == Head::Int ==> r && union_find::merged(
                old(self).store(),
                final(self).store(),
                c1.index(),
                c2.index(),
                Var::Solved(Head::Int),
            ),
            h1 == Head::Int && h2 is Arrow ==> !r && union_find::unchanged(
                old(self).store(),
                final(self).store(),
            ),
            h1 is Arrow && h2 == Head::Int ==> !r && union_find::unchanged(
                old(self).store(),
                final(self).store(),
            ),
            h1 is Arrow && h2 is Arrow ==> final(self).store().same_root(c1.index(), c2.index())
                && (r ==> final(self).store().same_root(
                (h1->Arrow_0).index(),
                (h2->Arrow_0).index(),
            ) && final(self).store().same_root((h1->Arrow_1).index(), (h2->Arrow_1).index())),
        decreases old(self).store().classes(), 0int,
    {
        match (h1, h2) {
            (Head::Int, Head::Int) => {
                let ghost pre = self.arena;
                self.arena.union_uncond(c1, c2, Var::Solved(Head::Int));
                proof {
                    lemma_frame_merged(
                        pre,
                        self.arena,
                        c1.index(),
                        c2.index(),
                        Var::Solved(Head::Int),
                    );
                }
                true
            },
            (Head::Int, _) => false,
            (Head::Arrow(d1, x1), Head::Arrow(d2, x2)) => {
                proof {
                    assert(head_ok_at(old(self).store(), c1.index()));
                    assert(head_ok_at(old(self).store(), c2.index()));
                    assert(old(self).store().value_at(c1.index()) == Var::Solved(h1));
                }
                let ghost pre = self.arena;
                self.arena.union_uncond(c1, c2, Var::Solved(Head::Arrow(d1, x1)));
                proof {
                    lemma_frame_merged(
                        pre,
                        self.arena,
                        c1.index(),
                        c2.index(),
                        Var::Solved(Head::Arrow(d1, x1)),
                    );
                    union_find::lemma_classes_positive(self.arena);
                }
                let ghost s1 = *self;
                let r1 = self.eq_ref(d1, d2);
                let ghost s2 = *self;
                proof {
                    lemma_evolves_trans(pre, s1.store(), s2.store());
                    union_find::lemma_classes_positive(self.arena);
                }
                if r1 {
                    let r2 = self.eq_ref(x1, x2);
                    proof {
                        lemma_evolves_trans(pre, s2.store(), self.store());
                        assert(s2.store().same_root(c1.index(), c2.index()));
                        assert(self.store().same_root(c1.index(), c2.index()));
                        if r2 {
                            assert(s2.store().same_root(d1.index(), d2.index()));
                            assert(self.store().same_root(d1.index(), d2.index()));
                            assert(self.store().same_root(x1.index(), x2.index()));
                        }
                    }
                    r2
                } else {
                    proof {
                        assert(s2.store().same_root(c1.index(), c2.index()));
                    }
                    false
                }
            },
            (Head::Arrow(_, _), _) => false,
        }
    }

    /// Unifies the classes of two keys: resolves both representatives, and
    /// either equates them (variable with variable, taking the shallower
    /// level; variable with solved shape; or compatible solved shapes,
    /// recursively) or reports structural incompatibility.
    fn eq_ref(&mut self, k1: union_find::Key, k2: union_find::Key) -> (r: bool)
        requires
            old(self).wf(),
            old(self).store().valid(k1),
            old(self).store().valid(k2),
        ensures
            final(self).wf(),
            final(self).depth() == old(self).depth(),
            final(self).scope_path() == old(self).scope_path(),
            evolves(old(self).store(), final(self).store()),
            r ==> final(self).store().same_root(k1.index(), k2.index()),
            old(self).store().same_root(k1.index(), k2.index()) ==> r && union_find::unchanged(
                old(self).store(),
                final(self).store(),
            ),
            !old(self).store().same_root(k1.index(), k2.index()) && val_of(old(self).store(), k1)
                is Unsolved && val_of(old(self).store(), k2) is Unsolved ==> r
                && union_find::merged(
                old(self).store(),
                final(self).store(),
                k1.index(),
                k2.index(),
                Var::Unsolved(
                    if val_of(old(self).store(), k1)->Unsolved_0 <= val_of(
                        old(self).store(),
                        k2,
                    )->Unsolved_0 {
                        val_of(old(self).store(), k1)->Unsolved_0
                    } else {
                        val_of(old(self).store(), k2)->Unsolved_0
                    },
                ),
            ),
            !old(self).store().same_root(k1.index(), k2.index()) && val_of(old(self).store(), k1)
                is Solved && val_of(old(self).store(), k2) is Unsolved ==> r
                && union_find::merged(
                old(self).store(),
                final(self).store(),
                k1.index(),
                k2.index(),
                val_of(old(self).store(), k1),
            ),
            !old(self).store().same_root(k1.index(), k2.index()) && val_of(old(self).store(), k1)
                is Unsolved && val_of(old(self).store(), k2) is Solved ==> r
                && union_find::merged(
                old(self).store(),
                final(self).store(),
                k1.index(),
                k2.index(),
                val_of(old(self).store(), k2),
            ),
            !old(self).store().same_root(k1.index(), k2.index()) && val_of(old(self).store(), k1)
                == Var::Solved(Head::Int) && val_of(old(self).store(), k2) == Var::Solved(
                Head::Int,
            ) ==> r && union_find::merged(
                old(self).store(),
                final(self).store(),
                k1.index(),
                k2.index(),
                Var::Solved(Head::Int),
            ),
            !old(self).store().same_root(k1.index(), k2.index()) && val_of(old(self).store(), k1)
                == Var::Solved(Head::Int) && val_of(old(self).store(), k2) is Solved && val_of(
                old(self).store(),
                k2,
            )->Solved_0 is Arrow ==> !r && union_find::unchanged(
                old(self).store(),
                final(self).store(),
            ),
            !old(self).store().same_root(k1.index(), k2.index()) && val_of(old(self).store(), k1)
                is Solved && val_of(old(self).store(), k1)->Solved_0 is Arrow && val_of(
                old(self).store(),
                k2,
            ) == Var::Solved(Head::Int) ==> !r && union_find::unchanged(
                old(self).store(),
                final(self).store(),
            ),
            !old(self).store().same_root(k1.index(), k2.index()) && val_of(old(self).store(), k1)
                is Solved && val_of(old(self).store(), k1)->Solved_0 is Arrow && val_of(
                old(self).store(),
                k2,
            ) is Solved && val_of(old(self).store(), k2)->Solved_0 is Arrow ==> final(self).store().same_root(k1.index(), k2.index()) && (r ==> final(self).store().same_root(
                (val_of(old(self).store(), k1)->Solved_0->Arrow_0).index(),
                (val_of(old(self).store(), k2)->Solved_0->Arrow_0).index(),
            ) && final(self).store().same_root(
                (val_of(old(self).store(), k1)->Solved_0->Arrow_1).index(),
                (val_of(old(self).store(), k2)->Solved_0->Arrow_1).index(),
            )),
        decreases old(self).store().classes(), 1int,
    {
        let ghost pre = self.arena;
        let (c1, v1) = self.arena.get_canonical(k1);
        let ghost s1 = *self;
        let (c2, v2) = self.arena.get_canonical(k2);
        let ghost s2 = *self;
        proof {
            union_find::lemma_unchanged_trans(pre, s1.store(), s2.store());
            lemma_frame_unchanged(pre, s2.store());
            union_find::lemma_value_at_root(pre, k1.index());
            union_find::lemma_value_at_root(pre, k2.index());
            assert(s2.store().root_of(c1.index()) == c1.index());
            assert(s2.store().root_of(c2.index()) == c2.index());
            assert(s2.store().value_at(c1.index()) == pre.value_at(c1.index()));
            assert(s2.store().value_at(c2.index()) == pre.value_at(c2.index()));
            assert(val_of(s2.store(), c1) == val_of(pre, k1));
            assert(val_of(s2.store(), c2) == val_of(pre, k2));
            union_find::lemma_classes_positive(self.arena);
        }
        if c1.same_index(c2) {
            true
        } else {
            match (v1, v2) {
                (Var::Unsolved(l1), Var::Unsolved(l2)) => {
                    let lvl = if l1 <= l2 {
                        l1
                    } else {
                        l2
                    };
                    let ghost mid = self.arena;
                    self.arena.union_uncond(c1, c2, Var::Unsolved(lvl));
                    proof {
                        lemma_frame_merged(
                            mid,
                            self.arena,
                            c1.index(),
                            c2.index(),
                            Var::Unsolved(lvl),
                        );
                        lemma_evolves_trans(pre, mid, self.store());
                        union_find::lemma_merged_shift(
                            pre,
                            mid,
                            self.arena,
                            k1.index(),
                            k2.index(),
                            c1,
                            c2,
                            Var::Unsolved(lvl),
                        );
                    }
                    true
                },
                (Var::Solved(h), Var::Unsolved(_)) => {
                    let ghost mid = self.arena;
                    proof {
                        assert(head_ok_at(s2.store(), c1.index()));
                    }
                    self.arena.union_uncond(c1, c2, Var::Solved(h));
                    proof {
                        lemma_frame_merged(
                            mid,
                            self.arena,
                            c1.index(),
                            c2.index(),
                            Var::Solved(h),
                        );
                        lemma_evolves_trans(pre, mid, self.store());
                        union_find::lemma_merged_shift(
                            pre,
                            mid,
                            self.arena,
                            k1.index(),
                            k2.index(),
                            c1,
                            c2,
                            Var::Solved(h),
                        );
                    }
                    true
                },
                (Var::Unsolved(_), Var::Solved(h)) => {
                    let ghost mid = self.arena;
                    proof {
                        assert(head_ok_at(s2.store(), c2.index()));
                    }
                    self.arena.union_uncond(c1, c2, Var::Solved(h));
                    proof {
                        lemma_frame_merged(
                            mid,
                            self.arena,
                            c1.index(),
                            c2.index(),
                            Var::Solved(h),
                        );
                        lemma_evolves_trans(pre, mid, self.store());
                        union_find::lemma_merged_shift(
                            pre,
                            mid,
                            self.arena,
                            k1.index(),
                            k2.index(),
                            c1,
                            c2,
                            Var::Solved(h),
                        );
                    }
                    true
                },
                (Var::Solved(h1), Var::Solved(h2)) => {
                    let ghost mid = *self;
                    let r = self.eq_head(c1, c2, h1, h2);
                    proof {
                        lemma_evolves_trans(pre, mid.store(), self.store());
                        match (h1, h2) {
                            (Head::Int, Head::Int) => {
                                union_find::lemma_merged_shift(
                                    pre,
                                    mid.store(),
                                    self.store(),
                                    k1.index(),
                                    k2.index(),
                                    c1,
                                    c2,
                                    Var::Solved(Head::Int),
                                );
                            },
                            (Head::Int, Head::Arrow(_, _)) => {
                                union_find::lemma_unchanged_trans(
                                    pre,
                                    mid.store(),
                                    self.store(),
                                );
                            },
                            (Head::Arrow(_, _), Head::Int) => {
                                union_find::lemma_unchanged_trans(
                                    pre,
                                    mid.store(),
                                    self.store(),
                                );
                            },
                            (Head::Arrow(_, _), Head::Arrow(_, _)) => {
                                assert(self.store().same_root(c1.index(), c2.index()));
                                assert(self.store().same_root(k1.index(), c1.index()));
                                assert(self.store().same_root(k2.index(), c2.index()));
                            },
                        }
                    }
                    r
                },
            }
        }
    }

    /// Decides whether the two handles can be made equal, merging unresolved
    /// variables as equalities are discovered. Returns `true` exactly when
    /// unification succeeds; on failure, merges performed before the mismatch
    /// was found are kept (unification is not transactional).
    pub fn eq(&mut self, t1: Type, t2: Type) -> (r: bool)
        requires
            old(self).wf(),
            old(self).owns(t1),
            old(self).owns(t2),
        ensures
            final(self).wf(),
            final(self).depth() == old(self).depth(),
            final(self).scope_path() == old(self).scope_path(),
            evolves(old(self).store(), final(self).store()),
            forall|u: Type| old(self).owns(u) ==> final(self).owns(u),
            r ==> final(self).same_class(t1, t2),
            old(self).same_class(t1, t2) ==> r && union_find::unchanged(
                old(self).store(),
                final(self).store(),
            ),
            !old(self).same_class(t1, t2) && old(self).resolved(t1) is Unsolved && old(self).resolved(t2) is Unsolved ==> r && union_find::merged(
                old(self).store(),
                final(self).store(),
                t1.key_of().index(),
                t2.key_of().index(),
                Var::Unsolved(
                    if old(self).resolved(t1)->Unsolved_0 <= old(self).resolved(t2)->Unsolved_0 {
                        old(self).resolved(t1)->Unsolved_0
                    } else {
                        old(self).resolved(t2)->Unsolved_0
                    },
                ),
            ),
            !old(self).same_class(t1, t2) && old(self).resolved(t1) is Solved && old(self).resolved(t2) is Unsolved ==> r && union_find::merged(
                old(self).store(),
                final(self).store(),
                t1.key_of().index(),
                t2.key_of().index(),
                old(self).resolved(t1),
            ),
            !old(self).same_class(t1, t2) && old(self).resolved(t1) is Unsolved && old(self).resolved(t2) is Solved ==> r && union_find::merged(
                old(self).store(),
                final(self).store(),
                t1.key_of().index(),
                t2.key_of().index(),
                old(self).resolved(t2),
            ),
            !old(self).same_class(t1, t2) && old(self).resolved(t1) == Var::Solved(Head::Int)
                && old(self).resolved(t2) == Var::Solved(Head::Int) ==> r && union_find::merged(
                old(self).store(),
                final(self).store(),
                t1.key_of().index(),
                t2.key_of().index(),
                Var::Solved(Head::Int),
            ),
            !old(self).same_class(t1, t2) && old(self).resolved(t1) == Var::Solved(Head::Int)
                && old(self).resolved(t2) is Solved && old(self).resolved(t2)->Solved_0 is Arrow
                ==> !r && union_find::unchanged(old(self).store(), final(self).store()),
            !old(self).same_class(t1, t2) && old(self).resolved(t1) is Solved && old(self).resolved(t1)->Solved_0 is Arrow && old(self).resolved(t2) == Var::Solved(Head::Int)
                ==> !r && union_find::unchanged(old(self).store(), final(self).store()),
            !old(self).same_class(t1, t2) && old(self).resolved(t1) is Solved && old(self).resolved(t1)->Solved_0 is Arrow && old(self).resolved(t2) is Solved && old(self).resolved(t2)->Solved_0 is Arrow ==> final(self).same_class(t1, t2) && (r ==> final(self).store().same_root(
                (old(self).resolved(t1)->Solved_0->Arrow_0).index(),
                (old(self).resolved(t2)->Solved_0->Arrow_0).index(),
            ) && final(self).store().same_root(
                (old(self).resolved(t1)->Solved_0->Arrow_1).index(),
                (old(self).resolved(t2)->Solved_0->Arrow_1).index(),
            )),
    {
        let r = self.eq_ref(t1.key, t2.key);
        proof {
            assert forall|u: Type| old(self).owns(u) implies final(self).owns(u) by {}
        }
        r
    }
}

impl System<Finished> {
    /// Re-tags a handle produced inside this finished scope as context-free,
    /// for use by the parent or sibling scopes. This is the only path by
    /// which a handle crosses a scope boundary upward.
    pub fn quantify(&self, t: Type) -> (q: Type)
        requires
            self.owns(t),
        ensures
            q.key_of() == t.key_of(),
            q.scope_of() == Seq::<int>::empty(),
    {
        Type { key: t.key, scope: Ghost(Seq::empty()) }
    }

    /// Hands the shared arena back to the enclosing scope: an active engine
    /// one level up, as it was before this subsystem was opened.
    pub fn resume(self) -> (p: System<Active>)
        requires
            self.wf(),
            self.depth() >= 1,
        ensures
            p.wf(),
            p.store() == self.store(),
            p.depth() == self.depth() - 1,
            p.scope_path() == self.scope_path().drop_last(),
    {
        let ghost p = self.path@.drop_last();
        System { arena: self.arena, level: self.level - 1, path: Ghost(p), marker: PhantomData }
    }
}

} // verus!
