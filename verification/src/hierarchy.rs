//! The parent/child forest over which scores are computed and agents are found.
//!
//! Entities are handles into a [`Forest`]. A child is always created after its
//! parent, so a well-formed forest has no cycle.

use vstd::prelude::*;

verus! {

/// An opaque handle naming one entity of a [`Forest`].
#[derive(Clone, Copy, Debug, PartialEq, Eq, Structural, Hash)]
pub struct Entity {
    pub id: usize,
}

/// A forest of entities: each has at most one parent and an ordered list of children.
pub struct Forest {
    parents: Vec<Option<Entity>>,
    kids: Vec<Vec<Entity>>,
}

impl Forest {
    /// The number of entities in the forest.
    pub closed spec fn size(&self) -> nat {
        self.parents@.len()
    }

    /// Whether `e` names an entity of this forest.
    pub open spec fn has(&self, e: Entity) -> bool {
        e.id < self.size()
    }

    /// The parent of `e`, if it has one.
    pub closed spec fn parent_of(&self, e: Entity) -> Option<Entity> {
        if e.id < self.parents@.len() {
            self.parents@[e.id as int]
        } else {
            None
        }
    }

    /// The children of `e`, in the order in which they were added.
    pub closed spec fn children_of(&self, e: Entity) -> Seq<Entity> {
        if e.id < self.kids@.len() {
            self.kids@[e.id as int]@
        } else {
            Seq::empty()
        }
    }

    /// The representation is consistent.
    pub closed spec fn inv(&self) -> bool {
        self.parents@.len() == self.kids@.len()
    }

    /// The forest is well formed: parent and children links agree, and every
    /// child was created after its parent.
    pub open spec fn wf(&self) -> bool {
        &&& self.inv()
        &&& forall|e: Entity| !self.has(e) ==> (#[trigger] self.parent_of(e)) is None
        &&& forall|e: Entity| !self.has(e) ==> (#[trigger] self.children_of(e)).len() == 0
        &&& forall|e: Entity, k: int|
            0 <= k < self.children_of(e).len() ==> {
                let c = #[trigger] self.children_of(e)[k];
                &&& e.id < c.id
                &&& self.has(c)
                &&& self.parent_of(c) == Some(e)
            }
        &&& forall|c: Entity|
            (#[trigger] self.parent_of(c)) matches Some(p) ==> self.is_child(p, c)
    }

    /// Whether `c` stands in the list of children of `p`.
    pub open spec fn is_child(&self, p: Entity, c: Entity) -> bool {
        exists|k: int| 0 <= k < self.children_of(p).len() && #[trigger] self.children_of(p)[k] == c
    }

    /// Whether `a` is a proper ancestor of `d`: the parent of `d`, or an ancestor of that parent.
    pub open spec fn is_ancestor(&self, a: Entity, d: Entity) -> bool
        decreases d.id,
    {
        match self.parent_of(d) {
            Some(p) => p.id < d.id && (p == a || self.is_ancestor(a, p)),
            None => false,
        }
    }

    /// An empty forest.
    pub fn new() -> (f: Forest)
        ensures
            f.wf(),
            f.size() == 0,
    {
        Forest { parents: Vec::new(), kids: Vec::new() }
    }

    /// The number of entities in the forest.
    pub fn len(&self) -> (n: usize)
        ensures
            n == self.size(),
    {
        self.parents.len()
    }

    /// Whether `e` names an entity of this forest.
    pub fn contains(&self, e: Entity) -> (b: bool)
        ensures
            b == self.has(e),
    {
        e.id < self.parents.len()
    }

    /// The parent of `e`; `None` for a root and for an entity that is not in the forest.
    pub fn parent(&self, e: Entity) -> (p: Option<Entity>)
        ensures
            p == self.parent_of(e),
    {
        if e.id < self.parents.len() {
            self.parents[e.id]
        } else {
            None
        }
    }

    /// The children of `e`, or `None` if `e` is not in the forest.
    pub fn children(&self, e: Entity) -> (r: Option<&Vec<Entity>>)
        requires
            self.wf(),
        ensures
            r is Some <==> self.has(e),
            r is Some ==> r->0@ == self.children_of(e),
    {
        if e.id < self.kids.len() {
            Some(&self.kids[e.id])
        } else {
            None
        }
    }

    /// Adds a new root entity.
    pub fn spawn(&mut self) -> (e: Entity)
        requires
            old(self).wf(),
        ensures
            final(self).wf(),
            e.id == old(self).size(),
            final(self).size() == old(self).size() + 1,
            final(self).parent_of(e) is None,
            final(self).children_of(e).len() == 0,
            forall|x: Entity| x != e ==> final(self).parent_of(x) == old(self).parent_of(x),
            forall|x: Entity| x != e ==> final(self).children_of(x) == old(self).children_of(x),
    {
        let e = Entity { id: self.parents.len() };
        self.parents.push(None);
        self.kids.push(Vec::new());
        proof {
            assert forall|x: Entity| x != e implies self.children_of(x) == old(self).children_of(
                x,
            ) by {}
            assert forall|x: Entity, k: int| 0 <= k < self.children_of(x).len() implies {
                let c = #[trigger] self.children_of(x)[k];
                &&& x.id < c.id
                &&& self.has(c)
                &&& self.parent_of(c) == Some(x)
            } by {
                assert(self.children_of(x)[k] == old(self).children_of(x)[k]);
            }
            assert forall|c: Entity|
                (#[trigger] self.parent_of(c)) is Some implies self.is_child(
                self.parent_of(c)->0,
                c,
            ) by {
                let p = self.parent_of(c)->0;
                assert(old(self).parent_of(c) == Some(p));
                let k = choose|k: int|
                    0 <= k < old(self).children_of(p).len() && #[trigger] old(self).children_of(
                        p,
                    )[k] == c;
                assert(self.children_of(p)[k] == c);
            }
        }
        e
    }

    /// Adds a new entity as the last child of `parent`.
    ///
    /// Returns `None`, and changes nothing, if `parent` is not in the forest.
    pub fn spawn_child(&mut self, parent: Entity) -> (r: Option<Entity>)
        requires
            old(self).wf(),
        ensures
            final(self).wf(),
            r is Some <==> old(self).has(parent),
            r is None ==> *final(self) == *old(self),
            r matches Some(e) ==> {
                &&& e.id == old(self).size()
                &&& final(self).size() == old(self).size() + 1
                &&& final(self).parent_of(e) == Some(parent)
                &&& final(self).children_of(e).len() == 0
                &&& final(self).children_of(parent) == old(self).children_of(parent).push(e)
                &&& forall|x: Entity| x != e ==> final(self).parent_of(x) == old(self).parent_of(x)
                &&& forall|x: Entity|
                    x != e && x != parent ==> final(self).children_of(x) == old(self).children_of(
                        x,
                    )
            },
    {
        if parent.id >= self.parents.len() {
            return None;
        }
        let e = Entity { id: self.parents.len() };
        self.parents.push(Some(parent));
        self.kids.push(Vec::new());
        let mut siblings: Vec<Entity> = Vec::new();
        std::mem::swap(&mut siblings, &mut self.kids[parent.id]);
        siblings.push(e);
        self.kids.set(parent.id, siblings);
        proof {
            assert(self.children_of(parent) == old(self).children_of(parent).push(e));
            assert forall|x: Entity|
                x != e && x != parent implies self.children_of(x) == old(self).children_of(x) by {}
            assert forall|x: Entity, k: int| 0 <= k < self.children_of(x).len() implies {
                let c = #[trigger] self.children_of(x)[k];
                &&& x.id < c.id
                &&& self.has(c)
                &&& self.parent_of(c) == Some(x)
            } by {
                if x == parent {
                    if k < old(self).children_of(x).len() {
                        assert(self.children_of(x)[k] == old(self).children_of(x)[k]);
                    }
                } else {
                    assert(self.children_of(x)[k] == old(self).children_of(x)[k]);
                }
            }
            assert forall|c: Entity|
                (#[trigger] self.parent_of(c)) is Some implies self.is_child(
                self.parent_of(c)->0,
                c,
            ) by {
                let p = self.parent_of(c)->0;
                if c == e {
                    assert(self.children_of(p)[old(self).children_of(parent).len() as int] == c);
                } else {
                    assert(old(self).parent_of(c) == Some(p));
                    let k = choose|k: int|
                        0 <= k < old(self).children_of(p).len() && #[trigger] old(
                            self,
                        ).children_of(p)[k] == c;
                    assert(self.children_of(p)[k] == c);
                }
            }
        }
        Some(e)
    }
}

/// A set of entities, such as those that hold one capability.
pub struct EntitySet {
    flags: Vec<bool>,
}

impl View for EntitySet {
    type V = Set<Entity>;

    closed spec fn view(&self) -> Set<Entity> {
        Set::new(|e: Entity| e.id < self.flags@.len() && self.flags@[e.id as int])
    }
}

impl EntitySet {
    /// The empty set.
    pub fn new() -> (s: Self)
        ensures
            s@ == Set::<Entity>::empty(),
    {
        let s = EntitySet { flags: Vec::new() };
        assert(s@ =~= Set::<Entity>::empty());
        s
    }

    /// Whether `e` is in the set.
    pub fn contains(&self, e: Entity) -> (b: bool)
        ensures
            b == self@.contains(e),
    {
        e.id < self.flags.len() && self.flags[e.id]
    }

    /// Puts `e` into the set.
    pub fn insert(&mut self, e: Entity)
        ensures
            final(self)@ == old(self)@.insert(e),
    {
        while self.flags.len() <= e.id
            invariant
                self@ == old(self)@,
            decreases e.id + 1 - self.flags@.len(),
        {
            let ghost before = self@;
            self.flags.push(false);
            assert(self@ =~= before);
        }
        self.flags.set(e.id, true);
        assert(self@ =~= old(self)@.insert(e));
    }

    /// Takes `e` out of the set.
    pub fn remove(&mut self, e: Entity)
        ensures
            final(self)@ == old(self)@.remove(e),
    {
        if e.id < self.flags.len() {
            self.flags.set(e.id, false);
        }
        assert(self@ =~= old(self)@.remove(e));
    }
}

} // verus!
