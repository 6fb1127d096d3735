use observed_utility::hierarchy::{Entity, EntitySet, Forest};
use observed_utility::traversal::{DFSPostTraversal, DFSPostTraversalIter};
use std::collections::VecDeque;

/// r: [a: [c, d], b], and a second root s: [t]
fn sample() -> (Forest, [Entity; 7]) {
    let mut f = Forest::new();
    let r = f.spawn();
    let a = f.spawn_child(r).unwrap();
    let b = f.spawn_child(r).unwrap();
    let c = f.spawn_child(a).unwrap();
    let s = f.spawn();
    let d = f.spawn_child(a).unwrap();
    let t = f.spawn_child(s).unwrap();
    (f, [r, a, b, c, d, s, t])
}

#[test]
fn forest_links_parents_and_children() {
    let (f, [r, a, b, c, d, s, t]) = sample();
    assert_eq!(7, f.len());
    assert_eq!(None, f.parent(r));
    assert_eq!(Some(r), f.parent(a));
    assert_eq!(Some(a), f.parent(d));
    assert_eq!(Some(s), f.parent(t));
    assert_eq!(Some(&vec![a, b]), f.children(r));
    assert_eq!(Some(&vec![c, d]), f.children(a));
    assert_eq!(Some(&vec![]), f.children(b));
    assert_eq!(None, f.children(Entity { id: 7 }));
    assert_eq!(None, f.parent(Entity { id: 7 }));
    assert!(f.contains(t));
    assert!(!f.contains(Entity { id: 7 }));
}

#[test]
fn spawn_child_of_a_missing_parent_changes_nothing() {
    let mut f = Forest::new();
    assert_eq!(None, f.spawn_child(Entity { id: 0 }));
    assert_eq!(0, f.len());
    let r = f.spawn();
    assert_eq!(Entity { id: 0 }, r);
    assert_eq!(None, f.spawn_child(Entity { id: 1 }));
    assert_eq!(1, f.len());
}

#[test]
fn entity_set_inserts_and_removes() {
    let mut set = EntitySet::new();
    assert!(!set.contains(Entity { id: 3 }));
    set.insert(Entity { id: 3 });
    set.insert(Entity { id: 0 });
    assert!(set.contains(Entity { id: 3 }));
    assert!(set.contains(Entity { id: 0 }));
    assert!(!set.contains(Entity { id: 1 }));
    set.remove(Entity { id: 3 });
    set.remove(Entity { id: 50 });
    assert!(!set.contains(Entity { id: 3 }));
    assert!(set.contains(Entity { id: 0 }));
}

#[test]
fn traversal_emits_descendants_before_parents() {
    let (f, [r, a, b, c, d, s, t]) = sample();
    let mut traversal = DFSPostTraversal::new();
    assert_eq!(vec![c, d, a, b, r], traversal.collect(&f, r));
    assert_eq!(vec![c, d, a], traversal.collect(&f, a));
    assert_eq!(vec![b], traversal.collect(&f, b));
    assert_eq!(vec![t, s], traversal.collect(&f, s));
}

#[test]
fn traversal_repeats_the_same_order() {
    let (f, [r, ..]) = sample();
    let mut traversal = DFSPostTraversal::new();
    let first = traversal.collect(&f, r);
    let second = traversal.collect(&f, r);
    assert_eq!(first, second);
    let mut other = DFSPostTraversal::new();
    assert_eq!(first, other.collect(&f, r));
}

#[test]
fn traversal_puts_every_entity_after_its_descendants() {
    let mut f = Forest::new();
    let root = f.spawn();
    let mut all = vec![root];
    // a wider and deeper forest: entity i gets its parent from the entities before it
    for i in 1..40usize {
        let parent = all[(i * 7 + 3) % i];
        all.push(f.spawn_child(parent).unwrap());
    }
    let mut traversal = DFSPostTraversal::new();
    let order = traversal.collect(&f, root);
    assert_eq!(40, order.len());
    assert_eq!(Some(&root), order.last());
    for (at, e) in order.iter().enumerate() {
        let mut up = f.parent(*e);
        while let Some(p) = up {
            let later = order.iter().position(|x| *x == p).unwrap();
            assert!(at < later);
            up = f.parent(p);
        }
    }
}

#[test]
fn traversal_of_an_entity_outside_the_forest_is_that_entity() {
    let (f, _) = sample();
    let mut traversal = DFSPostTraversal::new();
    assert_eq!(vec![Entity { id: 70 }], traversal.collect(&f, Entity { id: 70 }));
}

#[test]
fn iterator_hands_out_one_entity_at_a_time_and_then_none() {
    let (f, [r, a, b, c, d, _, _]) = sample();
    let mut traversal = DFSPostTraversal::new();
    let mut it = traversal.iter(&f, r);
    assert_eq!(Some(c), it.next(&f));
    assert_eq!(Some(d), it.next(&f));
    assert_eq!(Some(a), it.next(&f));
    assert_eq!(Some(b), it.next(&f));
    assert_eq!(Some(r), it.next(&f));
    assert_eq!(None, it.next(&f));
    assert_eq!(None, it.next(&f));
    traversal.recycle(it);
    assert_eq!(vec![b], traversal.collect(&f, b));
}

#[test]
fn iterator_empties_the_buffer_it_is_given() {
    let (f, [_, a, _, c, d, _, _]) = sample();
    let mut buffer: VecDeque<(usize, Entity)> = VecDeque::new();
    buffer.push_back((5, Entity { id: 9 }));
    buffer.push_back((2, Entity { id: 8 }));
    let mut it = DFSPostTraversalIter::new(buffer, &f, a);
    assert_eq!(Some(c), it.next(&f));
    assert_eq!(Some(d), it.next(&f));
    assert_eq!(Some(a), it.next(&f));
    assert_eq!(None, it.next(&f));
    assert!(it.into_buffer().is_empty());
}

#[test]
fn buffer_goes_to_the_traversal_and_comes_back() {
    let (f, [r, a, ..]) = sample();
    let mut traversal = DFSPostTraversal::new();
    // a traversal that has not started holds its root alone
    let it = traversal.iter(&f, r);
    let held: Vec<(usize, Entity)> = it.into_buffer().into_iter().collect();
    assert_eq!(vec![(0, r)], held);
    // after the first entity, the path and the waiting siblings are in the buffer
    let mut it = traversal.iter(&f, a);
    assert!(it.next(&f).is_some());
    traversal.recycle(it);
    let again = traversal.iter(&f, a);
    assert_eq!(1, again.into_buffer().len());
}
