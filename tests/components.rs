use slab_btree::{RefStack, SlabAllocator, SlabBox};

#[test]
fn slab_hands_out_and_takes_back_slots() {
    let mut chunk = vec![0u8; 32 * 10 + 5];
    let mut alloc: SlabAllocator<[u64; 4]> = SlabAllocator::new(&mut chunk[..]);
    assert_eq!(alloc.free_slot_count(), 10);
    let a = alloc.malloc().unwrap();
    let b = alloc.malloc().unwrap();
    assert_eq!(a, 0);
    assert_eq!(b, 32);
    assert_eq!(alloc.free_slot_count(), 8);
    assert_eq!(alloc.slots_in_use(), 2);
    alloc.free(a);
    assert_eq!(alloc.free_slot_count(), 9);
    assert_eq!(alloc.malloc(), Some(a));
}

#[test]
fn slab_runs_dry_and_refills() {
    let mut chunk = vec![0u8; 64];
    let mut alloc: SlabAllocator<[u64; 4]> = SlabAllocator::new(&mut chunk[..]);
    assert!(alloc.needs_new_chunk());
    assert!(alloc.malloc().is_some());
    assert!(alloc.malloc().is_some());
    assert_eq!(alloc.malloc(), None);
    let mut more = vec![0u8; 32 * 100];
    alloc.add_chunk(&mut more[..]);
    assert_eq!(alloc.free_slot_count(), 100);
    assert!(!alloc.needs_new_chunk());
    assert_eq!(alloc.malloc(), Some(64));
}

#[test]
fn slab_skips_a_chunk_too_small_for_a_slot() {
    let mut chunk = vec![0u8; 32 * 2];
    let mut alloc: SlabAllocator<[u64; 4]> = SlabAllocator::new(&mut chunk[..]);
    let mut tiny = vec![0u8; 20];
    alloc.add_chunk(&mut tiny[..]);
    assert_eq!(alloc.free_slot_count(), 2);
    assert_eq!(alloc.malloc(), Some(0));
    assert_eq!(alloc.malloc(), Some(32));
    assert_eq!(alloc.malloc(), None);
}

#[test]
fn slab_box_owns_its_value() {
    let mut chunk = vec![0u8; 32 * 4];
    let mut alloc: SlabAllocator<[u64; 4]> = SlabAllocator::new(&mut chunk[..]);
    let mut b = SlabBox::new(&mut alloc, [1, 2, 3, 4]);
    b.as_mut()[0] = 9;
    assert_eq!(b.as_ref(), &[9, 2, 3, 4]);
    let c = b.clone(&mut alloc);
    assert_eq!(alloc.slots_in_use(), 2);
    assert_eq!(b.free_move(&mut alloc), [9, 2, 3, 4]);
    assert_eq!(c.as_ref(), &[9, 2, 3, 4]);
    c.free(&mut alloc);
    assert_eq!(alloc.slots_in_use(), 0);
    assert_eq!(alloc.free_slot_count(), 4);
}

#[test]
fn ref_stack_grows_from_its_top() {
    let mut s: RefStack<usize, 3> = RefStack::with_root(1);
    assert_eq!(s.len(), 1);
    assert!(!s.is_empty());
    s.push(|t| t * 10);
    assert_eq!(s.top(), Some(&10));
    assert!(s.ret_push(|t| t + 1).is_none());
    assert!(s.is_full());
    assert!(s.ret_push(|t| t + 1).is_some());
    *s.top_mut().unwrap() = 7;
    assert_eq!(s.top(), Some(&7));
    assert_eq!(s.pop(), None);
    assert_eq!(s.pop(), None);
    assert_eq!(s.pop(), Some(1));
    assert!(s.is_empty());
    assert_eq!(s.top(), None);
}

#[test]
fn ref_stack_set_root_replaces_everything() {
    let mut s: RefStack<u32, 4> = RefStack::new();
    assert!(s.ret_push(|t| t + 1).is_some());
    assert_eq!(s.set_root(5), None);
    s.push(|t| t + 1);
    assert_eq!(s.set_root(8), Some(5));
    assert_eq!(s.len(), 1);
    assert_eq!(s.top(), Some(&8));
}

use slab_btree::node::{ChildUnion, KVPair, Leaf, Node};

fn full_leaf(alloc: &mut SlabAllocator<Leaf<u64>>) -> SlabBox<Leaf<u64>> {
    let mut leaf = Leaf::new(alloc);
    for k in 0..19u64 {
        leaf.as_mut().push(KVPair::new(k * 10, k));
    }
    leaf
}

fn keys(leaf: &Leaf<u64>) -> Vec<u64> {
    leaf.entries.iter().map(|e| e.key).collect()
}

#[test]
fn leaf_split_around_the_median() {
    let mut chunk = vec![0u8; 1 << 14];
    let mut alloc: SlabAllocator<Leaf<u64>> = SlabAllocator::new(&mut chunk[..]);
    // new entry left of the median
    let mut leaf = full_leaf(&mut alloc);
    let (sep, right) = leaf.as_mut().insert_split(&mut alloc, 3, KVPair::new(25, 0));
    assert_eq!(sep.key, 90);
    assert_eq!(keys(leaf.as_ref()), vec![0, 10, 20, 25, 30, 40, 50, 60, 70, 80]);
    assert_eq!(keys(right.as_ref()), (10..19).map(|k| k * 10).collect::<Vec<u64>>());
    // new entry at the median becomes the separator
    let mut leaf = full_leaf(&mut alloc);
    let (sep, right) = leaf.as_mut().insert_split(&mut alloc, 10, KVPair::new(95, 0));
    assert_eq!(sep.key, 95);
    assert_eq!(keys(leaf.as_ref()), (0..10).map(|k| k * 10).collect::<Vec<u64>>());
    assert_eq!(keys(right.as_ref()), (10..19).map(|k| k * 10).collect::<Vec<u64>>());
    // new entry right of the median
    let mut leaf = full_leaf(&mut alloc);
    let (sep, right) = leaf.as_mut().insert_split(&mut alloc, 15, KVPair::new(145, 0));
    assert_eq!(sep.key, 100);
    assert_eq!(keys(leaf.as_ref()), (0..10).map(|k| k * 10).collect::<Vec<u64>>());
    assert_eq!(keys(right.as_ref()), vec![110, 120, 130, 140, 145, 150, 160, 170, 180]);
}

#[test]
fn leaf_insert_evicts_last_when_full() {
    let mut chunk = vec![0u8; 1 << 12];
    let mut alloc: SlabAllocator<Leaf<u64>> = SlabAllocator::new(&mut chunk[..]);
    let mut leaf = full_leaf(&mut alloc);
    let evicted = leaf.as_mut().insert(0, KVPair::new(1, 7));
    assert_eq!(evicted.map(|e| e.key), Some(180));
    assert_eq!(leaf.as_ref().entries[0].key, 1);
    let first = leaf.as_mut().insert_overflow_left(5, KVPair::new(35, 0));
    assert_eq!(first.key, 1);
    assert_eq!(keys(leaf.as_ref())[..5].to_vec(), vec![0, 10, 20, 30, 35]);
    assert_eq!(leaf.as_ref().entries.len(), 19);
}

#[test]
fn node_split_moves_children_with_entries() {
    let mut leaf_chunk = vec![0u8; 1 << 14];
    let mut leaf_alloc: SlabAllocator<Leaf<u64>> = SlabAllocator::new(&mut leaf_chunk[..]);
    let mut node_chunk = vec![0u8; 1 << 14];
    let mut node_alloc: SlabAllocator<Node<u64>> = SlabAllocator::new(&mut node_chunk[..]);
    let child = |alloc: &mut SlabAllocator<Leaf<u64>>, tag: u64| {
        let mut l = Leaf::new(alloc);
        l.as_mut().push(KVPair::new(tag, tag));
        ChildUnion::Leaf(l)
    };
    let c0 = child(&mut leaf_alloc, 1000);
    let c1 = child(&mut leaf_alloc, 1001);
    let mut node = Node::new(&mut node_alloc, KVPair::new(0, 0), c0, c1);
    for k in 1..19u64 {
        let c = child(&mut leaf_alloc, 1001 + k);
        node.as_mut().push(KVPair::new(k * 10, k), c);
    }
    let extra = child(&mut leaf_alloc, 5000);
    let (sep, right) = node.as_mut().insert_split(&mut node_alloc, 12, KVPair::new(115, 0), extra);
    assert_eq!(sep.key, 100);
    let tag = |c: &ChildUnion<u64>| match c {
        ChildUnion::Leaf(l) => l.as_ref().entries[0].key,
        ChildUnion::Node(_) => u64::MAX,
    };
    let n = node.as_ref();
    assert_eq!(n.entries.len(), 10);
    assert_eq!(n.children.len(), 11);
    assert_eq!(tag(&n.children[10]), 1010);
    let r = right.as_ref();
    assert_eq!(r.entries.iter().map(|e| e.key).collect::<Vec<u64>>(), vec![110, 115, 120, 130, 140, 150, 160, 170, 180]);
    assert_eq!(r.children.iter().map(|c| tag(c)).collect::<Vec<u64>>(), vec![1011, 1012, 5000, 1013, 1014, 1015, 1016, 1017, 1018, 1019]);
}
