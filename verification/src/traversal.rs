//! Depth-first post-order traversal of a [`Forest`], without recursion.
//!
//! The traversal keeps one buffer of `(depth, entity)` pairs. The front of the
//! buffer is the path from the root to the entity being expanded; behind it
//! stand the siblings that still wait, deepest first.

use crate::hierarchy::{Entity, Forest};
use std::collections::VecDeque;
use vstd::prelude::*;

verus! {

/// The entities below and including `e`, every one after all of its descendants,
/// siblings in the order of the forest.
pub open spec fn post_order(f: &Forest, e: Entity) -> Seq<Entity>
    decreases f.size() - e.id, 1nat, 0nat,
{
    post_order_from(f, e, 0).push(e)
}

/// The post-orders of the children of `e` from the `k`-th on, one after another.
pub open spec fn post_order_from(f: &Forest, e: Entity, k: nat) -> Seq<Entity>
    decreases f.size() - e.id, 0nat, f.children_of(e).len() - k,
{
    if k >= f.children_of(e).len() {
        Seq::empty()
    } else {
        let c = f.children_of(e)[k as int];
        let head = if e.id < c.id && c.id < f.size() {
            post_order(f, c)
        } else {
            Seq::empty()
        };
        head + post_order_from(f, e, k + 1)
    }
}

/// The entities of `s`, each paired with the depth `d`.
spec fn tagged(s: Seq<Entity>, d: usize) -> Seq<(usize, Entity)> {
    Seq::new(s.len(), |i: int| (d, s[i]))
}

/// The buffer entries that wait behind the path `stack`: for each entity of the
/// path, deepest first, its children from index `next` on.
spec fn pending(f: &Forest, stack: Seq<Entity>, next: Seq<nat>) -> Seq<(usize, Entity)>
    decreases stack.len(),
{
    if stack.len() == 0 || next.len() != stack.len() {
        Seq::empty()
    } else {
        tagged(f.children_of(stack.last()).skip(next.last() as int), stack.len() as usize)
            + pending(f, stack.drop_last(), next.drop_last())
    }
}

/// What a traversal with the path `stack` has yet to emit.
spec fn to_emit(f: &Forest, stack: Seq<Entity>, next: Seq<nat>) -> Seq<Entity>
    decreases stack.len(),
{
    if stack.len() == 0 || next.len() != stack.len() {
        Seq::empty()
    } else {
        post_order_from(f, stack.last(), next.last()).push(stack.last())
            + to_emit(f, stack.drop_last(), next.drop_last())
    }
}

/// No waiting entry lies deeper than the path is long, nor at depth 0.
proof fn lemma_pending_depths(f: &Forest, stack: Seq<Entity>, next: Seq<nat>, i: int)
    requires
        0 <= i < pending(f, stack, next).len(),
        stack.len() <= usize::MAX,
    ensures
        1 <= pending(f, stack, next)[i].0 <= stack.len(),
    decreases stack.len(),
{
    let top = tagged(f.children_of(stack.last()).skip(next.last() as int), stack.len() as usize);
    if i >= top.len() {
        lemma_pending_depths(f, stack.drop_last(), next.drop_last(), i - top.len());
    }
}

/// The first waiting entry is the next child of the path's last entity, if that
/// entity has one left; otherwise it lies less deep than the path is long.
proof fn lemma_front(f: &Forest, stack: Seq<Entity>, next: Seq<nat>)
    requires
        stack.len() >= 1,
        next.len() == stack.len(),
        stack.len() <= usize::MAX,
        next.last() <= f.children_of(stack.last()).len(),
        pending(f, stack, next).len() > 0,
    ensures
        next.last() < f.children_of(stack.last()).len() ==> pending(f, stack, next)[0] == (
            stack.len() as usize,
            f.children_of(stack.last())[next.last() as int],
        ),
        next.last() >= f.children_of(stack.last()).len() ==> 1 <= pending(f, stack, next)[0].0
            < stack.len(),
{
    let top = tagged(f.children_of(stack.last()).skip(next.last() as int), stack.len() as usize);
    if next.last() >= f.children_of(stack.last()).len() {
        assert(top.len() == 0);
        lemma_pending_depths(f, stack.drop_last(), next.drop_last(), 0);
    } else {
        assert(pending(f, stack, next)[0] == top[0]);
    }
}

/// Nothing waits when the buffer behind the path is empty.
proof fn lemma_drained(f: &Forest, stack: Seq<Entity>, next: Seq<nat>)
    requires
        stack.len() >= 1,
        next.len() == stack.len(),
        next.last() <= f.children_of(stack.last()).len(),
        pending(f, stack, next).len() == 0,
    ensures
        next.last() == f.children_of(stack.last()).len(),
{
    let top = tagged(f.children_of(stack.last()).skip(next.last() as int), stack.len() as usize);
    assert(top.len() == 0);
}

/// A path of the root alone, with all its children waiting, has the whole post-order to emit.
proof fn lemma_start(f: &Forest, root: Entity)
    ensures
        to_emit(f, seq![root], seq![0nat]) == post_order(f, root),
        pending(f, seq![root], seq![0nat]) == tagged(f.children_of(root), 1),
{
    let stack = seq![root];
    let next = seq![0nat];
    assert(stack.drop_last() =~= Seq::<Entity>::empty());
    assert(next.drop_last() =~= Seq::<nat>::empty());
    assert(to_emit(f, Seq::<Entity>::empty(), Seq::<nat>::empty()).len() == 0);
    assert(pending(f, Seq::<Entity>::empty(), Seq::<nat>::empty()).len() == 0);
    assert(f.children_of(root).skip(0) =~= f.children_of(root));
    assert(to_emit(f, stack, next) =~= post_order(f, root));
    assert(pending(f, stack, next) =~= tagged(f.children_of(root), 1));
}

/// Moving the next waiting child onto the path changes nothing in what is to
/// be emitted, and replaces that child's buffer entry by its own children.
proof fn lemma_expand(f: &Forest, stack: Seq<Entity>, next: Seq<nat>)
    requires
        f.wf(),
        stack.len() >= 1,
        stack.len() < usize::MAX,
        next.len() == stack.len(),
        next.last() < f.children_of(stack.last()).len(),
    ensures
        ({
            let child = f.children_of(stack.last())[next.last() as int];
            let grown = stack.push(child);
            let marks = next.update(next.len() - 1, next.last() + 1).push(0nat);
            &&& to_emit(f, grown, marks) == to_emit(f, stack, next)
            &&& pending(f, grown, marks) == tagged(
                f.children_of(child),
                (stack.len() + 1) as usize,
            ) + pending(f, stack, next).skip(1)
        }),
{
    let n = next.last();
    let top = stack.last();
    let child = f.children_of(top)[n as int];
    let grown = stack.push(child);
    let mid = next.update(next.len() - 1, n + 1);
    let marks = mid.push(0nat);
    assert(grown.drop_last() =~= stack);
    assert(marks.drop_last() =~= mid);
    assert(mid.drop_last() =~= next.drop_last());
    assert(f.children_of(child).skip(0) =~= f.children_of(child));
    // what is to be emitted
    assert(to_emit(f, stack, mid) == post_order_from(f, top, n + 1).push(top) + to_emit(
        f,
        stack.drop_last(),
        next.drop_last(),
    ));
    assert(post_order_from(f, top, n) == post_order(f, child) + post_order_from(f, top, n + 1));
    assert(to_emit(f, grown, marks) == post_order_from(f, child, 0).push(child) + to_emit(
        f,
        stack,
        mid,
    ));
    assert(to_emit(f, grown, marks) =~= to_emit(f, stack, next));
    // what waits
    let below = pending(f, stack.drop_last(), next.drop_last());
    assert(pending(f, stack, mid) == tagged(f.children_of(top).skip(n as int + 1), stack.len() as usize)
        + below);
    assert(tagged(f.children_of(top).skip(n as int), stack.len() as usize).skip(1) =~= tagged(
        f.children_of(top).skip(n as int + 1),
        stack.len() as usize,
    ));
    assert(pending(f, stack, next).skip(1) =~= pending(f, stack, mid));
    assert(pending(f, grown, marks) =~= tagged(f.children_of(child), (stack.len() + 1) as usize)
        + pending(f, stack, next).skip(1));
}

/// Once the last entity of the path has no child left waiting, it is the next to be emitted.
proof fn lemma_emit(f: &Forest, stack: Seq<Entity>, next: Seq<nat>)
    requires
        stack.len() >= 1,
        next.len() == stack.len(),
        stack.len() <= usize::MAX,
        next.last() == f.children_of(stack.last()).len(),
    ensures
        to_emit(f, stack, next).len() > 0,
        to_emit(f, stack, next)[0] == stack.last(),
        to_emit(f, stack, next).skip(1) == to_emit(f, stack.drop_last(), next.drop_last()),
        pending(f, stack, next) == pending(f, stack.drop_last(), next.drop_last()),
{
    assert(f.children_of(stack.last()).skip(next.last() as int) =~= Seq::<Entity>::empty());
    assert(tagged(Seq::<Entity>::empty(), stack.len() as usize) =~= Seq::<
        (usize, Entity),
    >::empty());
    assert(pending(f, stack, next) =~= pending(f, stack.drop_last(), next.drop_last()));
    assert(post_order_from(f, stack.last(), next.last()) =~= Seq::<Entity>::empty());
    assert(to_emit(f, stack, next) =~= seq![stack.last()] + to_emit(
        f,
        stack.drop_last(),
        next.drop_last(),
    ));
    assert(to_emit(f, stack, next).skip(1) =~= to_emit(f, stack.drop_last(), next.drop_last()));
}

/// Inserts `children`, each paired with `depth`, into `queue` at position `at`, in order.
fn splice(queue: &mut VecDeque<(usize, Entity)>, at: usize, depth: usize, children: &Vec<Entity>)
    requires
        at <= old(queue)@.len(),
    ensures
        final(queue)@ == old(queue)@.subrange(0, at as int) + tagged(children@, depth) + old(
            queue,
        )@.skip(at as int),
{
    let ghost head = queue@.subrange(0, at as int);
    let ghost tail = queue@.skip(at as int);
    assert(queue@ =~= head + tagged(children@.subrange(0, 0), depth) + tail);
    let n = children.len();
    let mut j: usize = 0;
    while j < n
        invariant
            j <= n,
            n == children@.len(),
            head.len() == at,
            queue@ == head + tagged(children@.subrange(0, j as int), depth) + tail,
        decreases n - j,
    {
        assert(queue@.len() == at + j + tail.len());
        assert(queue.len() == queue@.len());
        queue.insert(at + j, (depth, children[j]));
        assert(queue@ =~= head + tagged(children@.subrange(0, j as int + 1), depth) + tail);
        j = j + 1;
    }
    assert(children@.subrange(0, n as int) =~= children@);
}

/// A reusable buffer for post-order traversals.
pub struct DFSPostTraversal {
    queue: VecDeque<(usize, Entity)>,
}

/// One running traversal: hands out the entities of [`post_order`] one at a time.
pub struct DFSPostTraversalIter {
    queue: VecDeque<(usize, Entity)>,
    visited: usize,
    current_depth: usize,
    root: Ghost<Entity>,
    fresh: Ghost<bool>,
    stack: Ghost<Seq<Entity>>,
    next_child: Ghost<Seq<nat>>,
}

impl DFSPostTraversalIter {
    /// The entries of the buffer that the traversal works on: pairs of a
    /// depth and an entity.
    pub closed spec fn buffer(&self) -> Seq<(usize, Entity)> {
        self.queue@
    }

    /// The entities that this traversal has yet to hand out, in order.
    pub closed spec fn remaining(&self, f: &Forest) -> Seq<Entity> {
        if self.fresh@ {
            post_order(f, self.root@)
        } else {
            to_emit(f, self.stack@, self.next_child@)
        }
    }

    /// The buffer holds the path and the waiting siblings that the ghost state describes.
    spec fn shape(&self, f: &Forest) -> bool {
        let q = self.queue@;
        let stack = self.stack@;
        let next = self.next_child@;
        let v = self.visited as int;
        &&& v <= q.len()
        &&& stack.len() == v
        &&& next.len() == v
        &&& forall|k: int| 0 <= k < v ==> #[trigger] q[k] == (k as usize, stack[k])
        &&& forall|k: int| 0 <= k < v ==> next[k] <= f.children_of(#[trigger] stack[k]).len()
        &&& if self.fresh@ {
            v == 0 && q == seq![(0usize, self.root@)]
        } else {
            q.skip(v) == pending(f, stack, next)
        }
    }

    /// The state is one that a traversal of `f` can be in between two calls of `next`.
    pub closed spec fn valid(&self, f: &Forest) -> bool {
        &&& self.shape(f)
        &&& self.current_depth == self.visited
    }

    /// The state while `next` descends: the entry at the end of the path may
    /// just have been expanded, with its first child waiting.
    spec fn descending(&self, f: &Forest) -> bool {
        &&& self.shape(f)
        &&& self.fresh@ || self.visited >= 1 || self.queue@.len() == 0
        &&& self.current_depth == self.visited || (self.current_depth + 1 == self.visited
            && self.next_child@.last() < f.children_of(self.stack@.last()).len())
    }

    /// The last entity of the path has no child left waiting.
    spec fn exhausted(&self, f: &Forest) -> bool {
        &&& self.shape(f)
        &&& !self.fresh@
        &&& self.visited >= 1 ==> self.next_child@.last() == f.children_of(
            self.stack@.last(),
        ).len()
    }

    /// How far the path can still grow.
    spec fn room(&self, f: &Forest) -> int {
        if self.fresh@ {
            f.size() as int + 1
        } else if self.visited >= 1 {
            f.size() - self.stack@.last().id
        } else {
            0
        }
    }

    /// Starts a traversal at `root`, on the buffer `queue`, which is emptied first.
    pub fn new(queue: VecDeque<(usize, Entity)>, f: &Forest, root: Entity) -> (it: Self)
        requires
            f.wf(),
        ensures
            it.valid(f),
            it.remaining(f) == post_order(f, root),
            it.buffer() == seq![(0usize, root)],
    {
        let mut queue = queue;
        queue.clear();
        queue.push_back((0, root));
        assert(queue@ =~= seq![(0usize, root)]);
        DFSPostTraversalIter {
            queue,
            visited: 0,
            current_depth: 0,
            root: Ghost(root),
            fresh: Ghost(true),
            stack: Ghost(Seq::empty()),
            next_child: Ghost(Seq::empty()),
        }
    }

    /// Ends the traversal and gives the buffer back, with the entries that it holds.
    pub fn into_buffer(self) -> (queue: VecDeque<(usize, Entity)>)
        ensures
            queue@ == self.buffer(),
    {
        self.queue
    }

    /// A traversal that has handed out everything has left nothing in its buffer.
    pub proof fn lemma_spent(&self, f: &Forest)
        requires
            self.valid(f),
            self.remaining(f).len() == 0,
        ensures
            self.buffer().len() == 0,
    {
        if self.visited == 0 {
            assert(self.queue@.skip(0) =~= self.queue@);
        }
    }

    /// Moves the next waiting entry onto the path if it lies deep enough, and
    /// puts its children in its place. Says whether the descent goes on.
    fn expand(&mut self, f: &Forest) -> (more: bool)
        requires
            f.wf(),
            old(self).descending(f),
        ensures
            final(self).remaining(f) == old(self).remaining(f),
            more ==> final(self).descending(f) && 0 <= final(self).room(f) < old(self).room(f),
            !more ==> final(self).exhausted(f),
            final(self).queue@.len() == 0 <==> old(self).queue@.len() == 0,
    {
        let i = self.visited;
        if i >= self.queue.len() {
            proof {
                if self.visited >= 1 {
                    assert(self.queue@.skip(i as int).len() == 0);
                    lemma_drained(f, self.stack@, self.next_child@);
                }
            }
            return false;
        }
        let (depth, entity) = self.queue[i];
        proof {
            if !self.fresh@ {
                assert(self.queue@.skip(i as int)[0] == self.queue@[i as int]);
                lemma_front(f, self.stack@, self.next_child@);
            }
        }
        if self.current_depth > depth {
            return false;
        }
        let ghost before = *self;
        self.visited = self.visited + 1;
        self.current_depth = depth;
        let ghost tail = before.queue@.skip(i as int + 1);
        proof {
            if before.fresh@ {
                lemma_start(f, entity);
                self.stack = Ghost(seq![entity]);
                self.next_child = Ghost(seq![0nat]);
                assert(tail =~= Seq::<(usize, Entity)>::empty());
            } else {
                lemma_expand(f, before.stack@, before.next_child@);
                self.stack = Ghost(before.stack@.push(entity));
                self.next_child = Ghost(
                    before.next_child@.update(i - 1, before.next_child@.last() + 1).push(0nat),
                );
                assert(tail =~= pending(f, before.stack@, before.next_child@).skip(1));
            }
            self.fresh = Ghost(false);
        }
        let count = match f.children(entity) {
            Some(children) => {
                splice(&mut self.queue, i + 1, depth + 1, children);
                children.len()
            },
            None => 0,
        };
        proof {
            let head = before.queue@.subrange(0, i as int + 1);
            assert(tagged(Seq::<Entity>::empty(), (i + 1) as usize) =~= Seq::<
                (usize, Entity),
            >::empty());
            assert(self.queue@ =~= head + tagged(f.children_of(entity), (i + 1) as usize) + tail);
            assert(self.queue@.skip(i as int + 1) =~= tagged(
                f.children_of(entity),
                (i + 1) as usize,
            ) + tail);
            assert forall|k: int| 0 <= k < self.visited implies #[trigger] self.queue@[k] == (
                k as usize,
                self.stack@[k],
            ) by {
                assert(self.queue@[k] == head[k]);
                assert(head[k] == before.queue@[k]);
            }
        }
        count > 0
    }

    /// Hands out the next entity of the post-order, or `None` when all were handed out.
    pub fn next(&mut self, f: &Forest) -> (r: Option<Entity>)
        requires
            f.wf(),
            old(self).valid(f),
        ensures
            final(self).valid(f),
            match r {
                Some(e) => {
                    &&& old(self).remaining(f).len() > 0
                    &&& e == old(self).remaining(f)[0]
                    &&& final(self).remaining(f) == old(self).remaining(f).skip(1)
                },
                None => {
                    &&& old(self).remaining(f).len() == 0
                    &&& final(self).remaining(f).len() == 0
                },
            },
    {
        proof {
            if !self.fresh@ && self.visited == 0 {
                assert(self.queue@.skip(0) =~= self.queue@);
            }
        }
        if self.queue.len() == 0 {
            return None;
        }
        loop
            invariant_except_break
                self.descending(f),
            invariant
                f.wf(),
                self.queue@.len() > 0,
                self.remaining(f) == old(self).remaining(f),
            ensures
                self.exhausted(f),
                self.queue@.len() > 0,
                self.remaining(f) == old(self).remaining(f),
            decreases self.room(f),
        {
            let more = self.expand(f);
            if !more {
                break ;
            }
        }
        proof {
            if self.visited == 0 {
                assert(self.queue@.skip(0) =~= self.queue@);
            }
        }
        let ghost before = *self;
        let removed = self.queue.remove(self.visited - 1);
        self.visited = self.visited - 1;
        proof {
            let v = before.visited as int;
            lemma_emit(f, before.stack@, before.next_child@);
            self.stack = Ghost(before.stack@.drop_last());
            self.next_child = Ghost(before.next_child@.drop_last());
            assert(self.queue@.skip(v - 1) =~= before.queue@.skip(v));
            assert forall|k: int| 0 <= k < v - 1 implies #[trigger] self.queue@[k] == (
                k as usize,
                self.stack@[k],
            ) by {
                assert(self.queue@[k] == before.queue@[k]);
            }
            assert forall|k: int| 0 <= k < v - 1 implies self.next_child@[k] <= f.children_of(
                #[trigger] self.stack@[k],
            ).len() by {
                assert(self.stack@[k] == before.stack@[k]);
            }
        }
        match removed {
            Some((depth, entity)) => {
                self.current_depth = depth;
                Some(entity)
            },
            None => None,
        }
    }
}

impl DFSPostTraversal {
    /// The entries that the buffer holds: pairs of a depth and an entity.
    pub closed spec fn buffer(&self) -> Seq<(usize, Entity)> {
        self.queue@
    }

    /// A traversal buffer that holds nothing yet.
    pub fn new() -> (t: Self)
        ensures
            t.buffer().len() == 0,
    {
        DFSPostTraversal { queue: VecDeque::new() }
    }

    /// Starts a traversal at `root` on this buffer. The buffer stays with the
    /// traversal until [`DFSPostTraversal::recycle`] takes it back.
    pub fn iter(&mut self, f: &Forest, root: Entity) -> (it: DFSPostTraversalIter)
        requires
            f.wf(),
        ensures
            it.valid(f),
            it.remaining(f) == post_order(f, root),
            it.buffer() == seq![(0usize, root)],
            final(self).buffer().len() == 0,
    {
        let mut queue: VecDeque<(usize, Entity)> = VecDeque::new();
        std::mem::swap(&mut queue, &mut self.queue);
        DFSPostTraversalIter::new(queue, f, root)
    }

    /// Takes the buffer back from a traversal that is no longer needed, with
    /// the entries that the traversal left in it.
    pub fn recycle(&mut self, it: DFSPostTraversalIter)
        ensures
            final(self).buffer() == it.buffer(),
    {
        self.queue = it.into_buffer();
    }

    /// The whole post-order of `root`: every entity below it, then `root` itself.
    pub fn collect(&mut self, f: &Forest, root: Entity) -> (out: Vec<Entity>)
        requires
            f.wf(),
        ensures
            out@ == post_order(f, root),
            final(self).buffer().len() == 0,
    {
        let mut it = self.iter(f, root);
        let mut out: Vec<Entity> = Vec::new();
        loop
            invariant
                f.wf(),
                it.valid(f),
                out@ + it.remaining(f) == post_order(f, root),
            ensures
                out@ == post_order(f, root),
                it.valid(f),
                it.remaining(f).len() == 0,
            decreases it.remaining(f).len(),
        {
            let ghost rest = it.remaining(f);
            let ghost done = out@;
            match it.next(f) {
                Some(e) => {
                    out.push(e);
                    assert(out@ + rest.skip(1) =~= done + rest);
                },
                None => {
                    assert(out@ + rest =~= out@);
                    break ;
                },
            }
        }
        proof {
            it.lemma_spent(f);
        }
        self.recycle(it);
        out
    }
}

/// Some position of `post_order_from(f, e, m)` holds the `k`-th child of `e`, for `k` from `m` on.
proof fn lemma_from_holds_child(f: &Forest, e: Entity, m: nat, k: int) -> (j: int)
    requires
        f.wf(),
        m <= k < f.children_of(e).len(),
    ensures
        0 <= j < post_order_from(f, e, m).len(),
        post_order_from(f, e, m)[j] == f.children_of(e)[k],
    decreases k - m,
{
    let c = f.children_of(e)[m as int];
    let head = post_order(f, c);
    assert(post_order_from(f, e, m) == head + post_order_from(f, e, m + 1));
    if k == m {
        head.len() - 1
    } else {
        head.len() + lemma_from_holds_child(f, e, m + 1, k)
    }
}

/// Within `post_order_from(f, e, m)`, every child of the entity at position `i` stands before `i`.
proof fn lemma_from_child_first(f: &Forest, e: Entity, m: nat, i: int, k: int) -> (j: int)
    requires
        f.wf(),
        0 <= i < post_order_from(f, e, m).len(),
        0 <= k < f.children_of(post_order_from(f, e, m)[i]).len(),
    ensures
        0 <= j < i,
        post_order_from(f, e, m)[j] == f.children_of(post_order_from(f, e, m)[i])[k],
    decreases f.size() - e.id, 0nat, f.children_of(e).len() - m,
{
    let c = f.children_of(e)[m as int];
    let head = post_order(f, c);
    assert(post_order_from(f, e, m) == head + post_order_from(f, e, m + 1));
    if i < head.len() {
        lemma_block_child_first(f, c, i, k)
    } else {
        head.len() + lemma_from_child_first(f, e, m + 1, i - head.len(), k)
    }
}

/// Within `post_order(f, e)`, every child of the entity at position `i` stands before `i`.
proof fn lemma_block_child_first(f: &Forest, e: Entity, i: int, k: int) -> (j: int)
    requires
        f.wf(),
        0 <= i < post_order(f, e).len(),
        0 <= k < f.children_of(post_order(f, e)[i]).len(),
    ensures
        0 <= j < i,
        post_order(f, e)[j] == f.children_of(post_order(f, e)[i])[k],
    decreases f.size() - e.id, 1nat, 0nat,
{
    let body = post_order_from(f, e, 0);
    if i == body.len() {
        lemma_from_holds_child(f, e, 0, k)
    } else {
        lemma_from_child_first(f, e, 0, i, k)
    }
}

/// Within `post_order_from(f, e, m)`, the parent of the entity at position `i`
/// stands at a later position `j`, or is `e`, which is told by `j` being the length.
proof fn lemma_from_parent_later(f: &Forest, e: Entity, m: nat, i: int) -> (j: int)
    requires
        f.wf(),
        0 <= i < post_order_from(f, e, m).len(),
    ensures
        i < j <= post_order_from(f, e, m).len(),
        f.parent_of(post_order_from(f, e, m)[i]) == Some(
            if j == post_order_from(f, e, m).len() {
                e
            } else {
                post_order_from(f, e, m)[j]
            },
        ),
    decreases f.size() - e.id, 0nat, f.children_of(e).len() - m,
{
    let c = f.children_of(e)[m as int];
    let head = post_order(f, c);
    assert(post_order_from(f, e, m) == head + post_order_from(f, e, m + 1));
    if i < head.len() - 1 {
        lemma_block_parent_later(f, c, i)
    } else if i == head.len() - 1 {
        post_order_from(f, e, m).len() as int
    } else {
        head.len() + lemma_from_parent_later(f, e, m + 1, i - head.len())
    }
}

/// Within `post_order(f, e)`, the parent of the entity at any position `i`
/// but the last stands at a later position `j`.
proof fn lemma_block_parent_later(f: &Forest, e: Entity, i: int) -> (j: int)
    requires
        f.wf(),
        0 <= i < post_order(f, e).len() - 1,
    ensures
        i < j < post_order(f, e).len(),
        f.parent_of(post_order(f, e)[i]) == Some(post_order(f, e)[j]),
    decreases f.size() - e.id, 1nat, 0nat,
{
    lemma_from_parent_later(f, e, 0, i)
}

/// In the post-order of any root of a well-formed forest, every emitted
/// entity but the last, which is the root, has a parent, and that parent is
/// emitted at a later position `j`.
pub proof fn lemma_parent_later(f: &Forest, root: Entity, i: int) -> (j: int)
    requires
        f.wf(),
        0 <= i < post_order(f, root).len() - 1,
    ensures
        i < j < post_order(f, root).len(),
        f.parent_of(post_order(f, root)[i]) == Some(post_order(f, root)[j]),
{
    lemma_block_parent_later(f, root, i)
}

/// No entity of a post-order was created before the root.
pub proof fn lemma_stays_below(f: &Forest, root: Entity, i: int)
    requires
        f.wf(),
        0 <= i < post_order(f, root).len(),
    ensures
        post_order(f, root)[i].id >= root.id,
    decreases post_order(f, root).len() - i,
{
    if i < post_order(f, root).len() - 1 {
        let j = lemma_parent_later(f, root, i);
        lemma_stays_below(f, root, j);
        assert(f.is_child(post_order(f, root)[j], post_order(f, root)[i]));
    }
}

/// Nothing but the root and its descendants is emitted: every entity of a
/// post-order but the last has the root among its ancestors.
pub proof fn lemma_emitted_below_root(f: &Forest, root: Entity, i: int)
    requires
        f.wf(),
        0 <= i < post_order(f, root).len() - 1,
    ensures
        f.is_ancestor(root, post_order(f, root)[i]),
    decreases post_order(f, root).len() - i,
{
    let order = post_order(f, root);
    let j = lemma_parent_later(f, root, i);
    assert(f.is_child(order[j], order[i]));
    if j < order.len() - 1 {
        lemma_emitted_below_root(f, root, j);
    }
}

/// A traversal ends with its root.
pub proof fn lemma_root_last(f: &Forest, root: Entity)
    ensures
        post_order(f, root).len() >= 1,
        post_order(f, root).last() == root,
{
}

/// In the post-order of any root of a well-formed forest, every child of an
/// emitted entity is emitted at an earlier position `j`.
pub proof fn lemma_children_first(f: &Forest, root: Entity, i: int, k: int) -> (j: int)
    requires
        f.wf(),
        0 <= i < post_order(f, root).len(),
        0 <= k < f.children_of(post_order(f, root)[i]).len(),
    ensures
        0 <= j < i,
        post_order(f, root)[j] == f.children_of(post_order(f, root)[i])[k],
{
    lemma_block_child_first(f, root, i, k)
}

/// In the post-order of any root of a well-formed forest, every descendant `d`
/// of an emitted entity is emitted at an earlier position `j`. With the last
/// position, which holds the root, this says that every descendant of the root
/// is emitted, and before the root.
pub proof fn lemma_descendants_first(f: &Forest, root: Entity, i: int, d: Entity) -> (j: int)
    requires
        f.wf(),
        0 <= i < post_order(f, root).len(),
        f.is_ancestor(post_order(f, root)[i], d),
    ensures
        0 <= j < i,
        post_order(f, root)[j] == d,
    decreases d.id,
{
    let a = post_order(f, root)[i];
    let p = f.parent_of(d)->0;
    assert(f.is_child(p, d));
    let k = choose|k: int| 0 <= k < f.children_of(p).len() && #[trigger] f.children_of(p)[k] == d;
    if p == a {
        lemma_children_first(f, root, i, k)
    } else {
        let above = lemma_descendants_first(f, root, i, p);
        lemma_children_first(f, root, above, k)
    }
}

} // verus!
