use luarus::heap::{DeadHandle, Handle, Heap, Interner, Trace};

/// A test object that can point at other objects, which is all the
/// collector needs to know about any object.
#[derive(Debug, PartialEq)]
struct Node {
    name: &'static str,
    edges: Vec<Handle>,
}

impl Node {
    fn new(name: &'static str) -> Node {
        Node { name, edges: Vec::new() }
    }
}

impl Trace for Node {
    fn trace(&self, out: &mut Vec<Handle>) {
        out.extend_from_slice(&self.edges);
    }
}

fn link(heap: &mut Heap<Node>, from: Handle, to: Handle) {
    heap.get_mut(from).unwrap().edges.push(to);
}

#[test]
fn stores_and_returns_objects() {
    let mut heap = Heap::new();
    let a = heap.allocate(Node::new("a"));
    assert_eq!(heap.get(a).unwrap().name, "a");
    assert_eq!(heap.len(), 1);
}

#[test]
fn a_freed_object_is_detected_not_reread() {
    let mut heap = Heap::new();
    let a = heap.allocate(Node::new("a"));
    heap.free(a).unwrap();
    assert_eq!(heap.get(a), Err(DeadHandle(a)));
    assert!(!heap.is_live(a));
}

#[test]
fn freeing_twice_is_an_error_not_a_corruption() {
    let mut heap = Heap::new();
    let a = heap.allocate(Node::new("a"));
    assert!(heap.free(a).is_ok());
    assert!(heap.free(a).is_err());
}

#[test]
fn a_reused_slot_does_not_answer_the_old_handle() {
    // The whole reason handles carry a generation: without it, `stale`
    // would silently read `b`.
    let mut heap = Heap::new();
    let stale = heap.allocate(Node::new("first"));
    heap.free(stale).unwrap();
    let b = heap.allocate(Node::new("second"));

    assert_eq!(b.index(), stale.index(), "the slot should have been reused");
    assert_ne!(b.generation(), stale.generation());
    assert_eq!(heap.get(stale), Err(DeadHandle(stale)));
    assert_eq!(heap.get(b).unwrap().name, "second");
}

#[test]
fn collects_what_the_roots_cannot_reach() {
    let mut heap = Heap::new();
    let kept = heap.allocate(Node::new("kept"));
    let _dropped = heap.allocate(Node::new("dropped"));

    assert_eq!(heap.collect(&[kept]), 1);
    assert_eq!(heap.len(), 1);
    assert_eq!(heap.get(kept).unwrap().name, "kept");
}

#[test]
fn keeps_what_the_roots_reach_indirectly() {
    let mut heap = Heap::new();
    let root = heap.allocate(Node::new("root"));
    let mid = heap.allocate(Node::new("mid"));
    let leaf = heap.allocate(Node::new("leaf"));
    link(&mut heap, root, mid);
    link(&mut heap, mid, leaf);

    assert_eq!(heap.collect(&[root]), 0);
    assert_eq!(heap.len(), 3);
}

#[test]
fn collects_an_unreachable_cycle() {
    // This is the case reference counting cannot handle, and the reason
    // the collector traces at all.
    let mut heap = Heap::new();
    let root = heap.allocate(Node::new("root"));
    let a = heap.allocate(Node::new("a"));
    let b = heap.allocate(Node::new("b"));
    link(&mut heap, a, b);
    link(&mut heap, b, a);

    assert_eq!(heap.len(), 3);
    assert_eq!(heap.collect(&[root]), 2);
    assert_eq!(heap.len(), 1);
}

#[test]
fn keeps_a_cycle_that_is_still_reachable() {
    let mut heap = Heap::new();
    let root = heap.allocate(Node::new("root"));
    let a = heap.allocate(Node::new("a"));
    let b = heap.allocate(Node::new("b"));
    link(&mut heap, root, a);
    link(&mut heap, a, b);
    link(&mut heap, b, a); // and back again

    assert_eq!(heap.collect(&[root]), 0);
    assert_eq!(heap.len(), 3);
}

#[test]
fn a_self_reference_terminates() {
    let mut heap = Heap::new();
    let a = heap.allocate(Node::new("a"));
    link(&mut heap, a, a);
    assert_eq!(heap.collect(&[a]), 0);
    assert_eq!(heap.collect(&[]), 1);
}

#[test]
fn a_stale_root_is_ignored_rather_than_resurrecting_a_slot() {
    let mut heap = Heap::new();
    let stale = heap.allocate(Node::new("first"));
    heap.free(stale).unwrap();
    let live = heap.allocate(Node::new("second"));

    // `stale` names the same slot as `live` but an older generation.
    assert_eq!(heap.collect(&[stale]), 1, "the new occupant is not rooted by an old handle");
    assert!(!heap.is_live(live));
}

#[test]
fn collection_reuses_the_slots_it_freed() {
    let mut heap = Heap::new();
    for _ in 0..8 {
        heap.allocate(Node::new("garbage"));
    }
    assert_eq!(heap.capacity(), 8);
    heap.collect(&[]);
    assert_eq!(heap.len(), 0);

    for _ in 0..8 {
        heap.allocate(Node::new("fresh"));
    }
    assert_eq!(heap.capacity(), 8, "the slab should not have grown");
    assert_eq!(heap.len(), 8);
}

#[test]
fn deep_chains_do_not_overflow_the_host_stack() {
    // Marking is iterative, so depth is bounded by the heap, not the stack.
    let mut heap = Heap::new();
    let root = heap.allocate(Node::new("root"));
    let mut prev = root;
    for _ in 0..200_000 {
        let next = heap.allocate(Node::new("link"));
        link(&mut heap, prev, next);
        prev = next;
    }
    assert_eq!(heap.collect(&[root]), 0);
    assert_eq!(heap.len(), 200_001);
}

#[test]
fn collecting_after_a_manual_free_does_not_double_free() {
    let mut heap = Heap::new();
    let root = heap.allocate(Node::new("root"));
    let a = heap.allocate(Node::new("a"));
    link(&mut heap, root, a);
    heap.free(a).unwrap();

    // `root` still points at `a`, whose slot is now empty. Marking must
    // skip it rather than miscount.
    assert_eq!(heap.collect(&[root]), 0);
    assert_eq!(heap.len(), 1);
}

/// Look the key up, allocating it the first time.
fn map_entry(interner: &mut Interner<&'static str>, key: &'static str, heap: &mut Heap<Node>) -> Handle {
    if interner.get(&key).is_none() {
        let h = heap.allocate(Node::new(key));
        interner.insert(key, h);
    }
    interner.get(&key).unwrap()
}

#[test]
fn interning_shares_one_object_per_value() {
    let mut heap = Heap::new();
    let mut interner: Interner<&'static str> = Interner::new();

    let first = map_entry(&mut interner, "hi", &mut heap);
    let second = map_entry(&mut interner, "hi", &mut heap);
    assert_eq!(first, second);
    assert_eq!(heap.len(), 1);
}

#[test]
fn interned_entries_of_dead_objects_are_dropped() {
    let mut heap = Heap::new();
    let mut interner: Interner<&'static str> = Interner::new();
    let kept = map_entry(&mut interner, "kept", &mut heap);
    let _gone = map_entry(&mut interner, "gone", &mut heap);
    assert_eq!(heap.collect(&[kept]), 1);
    interner.retain_live(&heap);
    assert_eq!(interner.handles(), vec![kept]);
    assert!(interner.get(&"gone").is_none());
}

#[test]
fn live_handles_lists_every_live_object_in_slot_order() {
    let mut heap = Heap::new();
    let a = heap.allocate(Node::new("a"));
    let b = heap.allocate(Node::new("b"));
    let c = heap.allocate(Node::new("c"));
    heap.free(b).unwrap();
    assert_eq!(heap.live_handles(), vec![a, c]);
    assert!(!heap.is_empty());
}
