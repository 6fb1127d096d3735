//! Finding the nearest ancestor that holds a capability, with a cache.
//!
//! A capability is given as the set of entities that hold it. The cache maps
//! the id of a start entity to the id of the ancestor found for it, and an
//! entry is trusted only while that ancestor still holds the capability.

use crate::hierarchy::{Entity, EntitySet, Forest};
use vstd::prelude::*;

verus! {

/// The table behind the cache: a `hashbrown::HashMap` from entity id to entity id.
///
/// The verifier does not look inside; what the table holds is named by
/// [`cache_entries`], and only the functions below touch it.
#[verifier::external_body]
pub struct AncestorCache {
    map: hashbrown::HashMap<usize, usize>,
}

/// The entries of the table: for each key that it holds, the value stored last under that key.
pub uninterp spec fn cache_entries(c: AncestorCache) -> Map<usize, usize>;

/// The table without entries.
pub open spec fn no_entries() -> Map<usize, usize> {
    Map::empty()
}

/// `hashbrown::HashMap::new`: a table without entries.
#[verifier::external_body]
fn cache_new() -> (c: AncestorCache)
    ensures
        cache_entries(c) == no_entries(),
{
    AncestorCache { map: hashbrown::HashMap::new() }
}

/// `hashbrown::HashMap::get`: the value stored under `key`, if the table holds that key.
#[verifier::external_body]
fn cache_get(c: &AncestorCache, key: usize) -> (r: Option<usize>)
    ensures
        r == (if cache_entries(*c).contains_key(key) {
            Some(cache_entries(*c)[key])
        } else {
            None
        }),
{
    c.map.get(&key).copied()
}

/// `hashbrown::HashMap::insert`: afterwards the table holds `value` under
/// `key`, and every other key as before.
#[verifier::external_body]
fn cache_insert(c: &mut AncestorCache, key: usize, value: usize)
    ensures
        cache_entries(*final(c)) == cache_entries(*old(c)).insert(key, value),
{
    c.map.insert(key, value);
}

/// `hashbrown::HashMap::remove`: afterwards the table does not hold `key`,
/// and holds every other key as before.
#[verifier::external_body]
fn cache_remove(c: &mut AncestorCache, key: usize)
    ensures
        cache_entries(*final(c)) == cache_entries(*old(c)).remove(key),
{
    c.map.remove(&key);
}

/// `hashbrown::HashMap::clear`: afterwards the table has no entries.
#[verifier::external_body]
fn cache_clear(c: &mut AncestorCache)
    ensures
        cache_entries(*final(c)) == no_entries(),
{
    c.map.clear();
}

/// Why a lookup found no ancestor.
#[derive(Clone, Copy, Debug, PartialEq, Eq, Structural)]
pub enum LookupError {
    /// The search ended at this entity: it is not in the forest, or it does
    /// not hold the capability and has no parent.
    NotFound(Entity),
}

/// Whether `e` is an entity of `f` that holds the capability.
pub open spec fn holds(f: &Forest, holders: Set<Entity>, e: Entity) -> bool {
    f.has(e) && holders.contains(e)
}

/// The first entity on the way from `start` up through its parents that holds
/// the capability, `start` itself included.
pub open spec fn nearest(f: &Forest, holders: Set<Entity>, start: Entity) -> Result<
    Entity,
    LookupError,
>
    decreases start.id,
{
    if !f.has(start) {
        Err(LookupError::NotFound(start))
    } else if holders.contains(start) {
        Ok(start)
    } else {
        match f.parent_of(start) {
            Some(p) => if p.id < start.id {
                nearest(f, holders, p)
            } else {
                Err(LookupError::NotFound(start))
            },
            None => Err(LookupError::NotFound(start)),
        }
    }
}

/// What a walk finds holds the capability, and is the start itself or one of
/// its ancestors; a walk that finds nothing started at an entity that does
/// not hold the capability or is not in the forest.
pub proof fn lemma_nearest(f: &Forest, holders: Set<Entity>, start: Entity)
    ensures
        match nearest(f, holders, start) {
            Ok(a) => holds(f, holders, a) && (a == start || f.is_ancestor(a, start)),
            Err(_) => !holds(f, holders, start),
        },
    decreases start.id,
{
    if f.has(start) && !holders.contains(start) {
        match f.parent_of(start) {
            Some(p) => {
                if p.id < start.id {
                    lemma_nearest(f, holders, p);
                }
            },
            None => {},
        }
    }
}

/// The ancestor that the cache gives for `start`, if it has an entry for it
/// and that ancestor still holds the capability.
pub open spec fn cache_hit(
    cache: Map<usize, usize>,
    f: &Forest,
    holders: Set<Entity>,
    start: Entity,
) -> Option<Entity> {
    if cache.contains_key(start.id) && holds(f, holders, Entity { id: cache[start.id] }) {
        Some(Entity { id: cache[start.id] })
    } else {
        None
    }
}

/// What a lookup for `start` returns.
pub open spec fn lookup(
    cache: Map<usize, usize>,
    f: &Forest,
    holders: Set<Entity>,
    start: Entity,
) -> Result<Entity, LookupError> {
    match cache_hit(cache, f, holders, start) {
        Some(a) => Ok(a),
        None => nearest(f, holders, start),
    }
}

/// The cache after a lookup for `start`: unchanged on a hit; otherwise the
/// entry for `start` is the ancestor found, or gone if none was found.
pub open spec fn cache_after(
    cache: Map<usize, usize>,
    f: &Forest,
    holders: Set<Entity>,
    start: Entity,
) -> Map<usize, usize> {
    match cache_hit(cache, f, holders, start) {
        Some(_) => cache,
        None => match nearest(f, holders, start) {
            Ok(a) => cache.insert(start.id, a.id),
            Err(_) => cache.remove(start.id),
        },
    }
}

/// Finds the nearest ancestor of an entity that holds a capability, and
/// remembers what it found.
pub struct AncestorQuery {
    cache: AncestorCache,
}

impl View for AncestorQuery {
    type V = Map<usize, usize>;

    closed spec fn view(&self) -> Map<usize, usize> {
        cache_entries(self.cache)
    }
}

impl AncestorQuery {
    /// A query with an empty cache.
    pub fn new() -> (q: Self)
        ensures
            q@ == no_entries(),
    {
        AncestorQuery { cache: cache_new() }
    }

    /// Walks from `start` up through the parents to the first entity that
    /// holds the capability, and caches it under `start`.
    fn find(&mut self, f: &Forest, holders: &EntitySet, start: Entity) -> (r: Result<
        Entity,
        LookupError,
    >)
        requires
            f.wf(),
        ensures
            r == nearest(f, holders@, start),
            final(self)@ == (match r {
                Ok(a) => old(self)@.insert(start.id, a.id),
                Err(_) => old(self)@,
            }),
    {
        let mut current = start;
        loop
            invariant
                f.wf(),
                self@ == old(self)@,
                nearest(f, holders@, current) == nearest(f, holders@, start),
            decreases current.id,
        {
            if !f.contains(current) {
                return Err(LookupError::NotFound(current));
            }
            if holders.contains(current) {
                cache_insert(&mut self.cache, start.id, current.id);
                return Ok(current);
            }
            match f.parent(current) {
                Some(p) => {
                    proof {
                        assert(f.is_child(p, current));
                    }
                    current = p;
                },
                None => {
                    return Err(LookupError::NotFound(current));
                },
            }
        }
    }

    /// Forgets every cached ancestor.
    pub fn clear_cache(&mut self)
        ensures
            final(self)@ == no_entries(),
    {
        cache_clear(&mut self.cache);
    }

    /// The nearest ancestor of `start`, itself included, that holds the
    /// capability `holders`.
    ///
    /// A cached ancestor is returned as long as it still holds the capability.
    /// Otherwise the stale entry is dropped and the parents are walked again.
    pub fn get(&mut self, f: &Forest, holders: &EntitySet, start: Entity) -> (r: Result<
        Entity,
        LookupError,
    >)
        requires
            f.wf(),
        ensures
            r == lookup(old(self)@, f, holders@, start),
            final(self)@ == cache_after(old(self)@, f, holders@, start),
    {
        match cache_get(&self.cache, start.id) {
            Some(id) => {
                let cached = Entity { id };
                if f.contains(cached) && holders.contains(cached) {
                    return Ok(cached);
                }
                cache_remove(&mut self.cache, start.id);
            },
            None => {
                assert(self@.remove(start.id) =~= self@);
            },
        }
        let found = self.find(f, holders, start);
        proof {
            if let Ok(a) = found {
                assert(old(self)@.remove(start.id).insert(start.id, a.id) =~= old(self)@.insert(
                    start.id,
                    a.id,
                ));
            }
        }
        found
    }
}

} // verus!
