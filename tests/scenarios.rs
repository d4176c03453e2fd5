use slab_btree::BTree;

fn new_tree(bytes: usize) -> BTree<u64> {
    let mut chunk = vec![0u8; bytes];
    BTree::new(&mut chunk[..])
}

fn insert_all(t: &mut BTree<u64>, keys: impl Iterator<Item = u64>) {
    for k in keys {
        assert_eq!(t.insert(k, k), None);
    }
}

#[test]
fn single_key_insert_remove() {
    let mut t = new_tree(1 << 16);
    assert_eq!(t.len(), 0);
    assert_eq!(t.keys(), Vec::<u64>::new());
    assert_eq!(t.insert(5, 5), None);
    assert_eq!(t.len(), 1);
    assert_eq!(t.keys(), vec![5]);
    assert_eq!(t.remove(&5), Some((5, 5)));
    assert_eq!(t.len(), 0);
    assert_eq!(t.keys(), Vec::<u64>::new());
}

#[test]
fn full_leaf_then_one_more_splits_once() {
    let mut t = new_tree(1 << 16);
    assert_eq!(t.depth(), 0);
    assert_eq!(t.insert(0, 0), None);
    assert_eq!(t.depth(), 1);
    insert_all(&mut t, 1..=18);
    assert_eq!(t.depth(), 1);
    let (leaves, _, nodes, _) = t.slot_usage();
    assert_eq!((leaves, nodes), (1, 0));
    assert_eq!(t.insert(19, 19), None);
    assert_eq!(t.depth(), 2);
    assert_eq!(t.keys(), (0..=19).collect::<Vec<u64>>());
    let (leaves, _, nodes, _) = t.slot_usage();
    assert_eq!((leaves, nodes), (2, 1));
}

#[test]
fn remove_from_two_level_tree() {
    let mut t = new_tree(1 << 16);
    insert_all(&mut t, 0..=38);
    assert_eq!(t.depth(), 2);
    assert_eq!(t.len(), 39);
    assert_eq!(t.remove(&9), Some((9, 9)));
    assert_eq!(t.len(), 38);
    assert_eq!(t.depth(), 2);
    let expected: Vec<u64> = (0..=38).filter(|k| *k != 9).collect();
    assert_eq!(t.keys(), expected);
}

#[test]
fn reverse_removal_returns_all_slots() {
    let mut t = new_tree(1 << 16);
    let (_, leaf_free0, _, node_free0) = t.slot_usage();
    insert_all(&mut t, 0..=18);
    for k in (0..=18u64).rev() {
        assert_eq!(t.remove(&k), Some((k, k)));
    }
    assert_eq!(t.depth(), 0);
    assert_eq!(t.len(), 0);
    assert_eq!(t.slot_usage(), (0, leaf_free0, 0, node_free0));
}

#[test]
fn remove_every_even_key() {
    let mut t = new_tree(1 << 20);
    let (_, leaf_free0, _, node_free0) = t.slot_usage();
    insert_all(&mut t, 0..=199);
    for k in (0..=199u64).step_by(2) {
        assert_eq!(t.remove(&k), Some((k, k)));
    }
    let expected: Vec<u64> = (0..=199).filter(|k| k % 2 == 1).collect();
    assert_eq!(t.keys(), expected);
    assert_eq!(t.len(), 100);
    for k in 0..=199u64 {
        assert_eq!(t.get(&k).copied(), if k % 2 == 1 { Some(k) } else { None });
    }
    let (leaves, leaf_free, nodes, node_free) = t.slot_usage();
    assert_eq!(leaves + leaf_free, leaf_free0);
    assert_eq!(nodes + node_free, node_free0);
}

#[test]
fn permutation_lookup() {
    let mut t = new_tree(1 << 20);
    let keys: Vec<u64> = (0..100u64).map(|i| (i * 37) % 100).collect();
    insert_all(&mut t, keys.iter().copied());
    assert_eq!(t.len(), 100);
    for k in 0..100u64 {
        assert_eq!(t.get(&k), Some(&k));
    }
    assert_eq!(t.keys(), (0..100).collect::<Vec<u64>>());
}

#[test]
fn removing_last_entry_frees_root_leaf() {
    let mut t = new_tree(1 << 16);
    let (_, leaf_free0, _, _) = t.slot_usage();
    t.insert(3, 30);
    assert_eq!(t.depth(), 1);
    assert_eq!(t.slot_usage().0, 1);
    assert_eq!(t.remove(&3), Some((3, 30)));
    assert_eq!(t.depth(), 0);
    assert_eq!(t.slot_usage().0, 0);
    assert_eq!(t.slot_usage().1, leaf_free0);
}

#[test]
fn interior_removal_with_minimal_leaves_merges() {
    let mut t = new_tree(1 << 16);
    insert_all(&mut t, 0..=19);
    // the root holds 10 between a leaf of 0..=9 and a leaf of 11..=19
    assert_eq!(t.remove(&0), Some((0, 0)));
    assert_eq!(t.depth(), 2);
    assert_eq!(t.slot_usage().0, 2);
    assert_eq!(t.remove(&10), Some((10, 10)));
    assert_eq!(t.depth(), 1);
    assert_eq!(t.slot_usage().0, 1);
    assert_eq!(t.slot_usage().2, 0);
    let expected: Vec<u64> = (1..=19).filter(|k| *k != 10).collect();
    assert_eq!(t.keys(), expected);
}

#[test]
fn clear_returns_every_slot() {
    let mut t = new_tree(1 << 20);
    let (_, leaf_free0, _, node_free0) = t.slot_usage();
    insert_all(&mut t, (0..500u64).map(|i| (i * 7) % 500));
    assert!(t.depth() >= 2);
    t.clear();
    assert_eq!(t.len(), 0);
    assert_eq!(t.depth(), 0);
    assert_eq!(t.keys(), Vec::<u64>::new());
    assert_eq!(t.slot_usage(), (0, leaf_free0, 0, node_free0));
    assert_eq!(t.insert(1, 1), None);
    assert_eq!(t.get(&1), Some(&1));
}

#[test]
fn rotation_into_sibling_takes_no_slot() {
    let mut t = new_tree(1 << 16);
    insert_all(&mut t, 0..=29);
    // the right leaf now holds 11..=29 and is full; its left sibling has room
    let usage = t.slot_usage();
    assert_eq!(t.insert(30, 30), None);
    assert_eq!(t.slot_usage(), usage);
    assert_eq!(t.depth(), 2);
    assert_eq!(t.keys(), (0..=30).collect::<Vec<u64>>());
}

#[test]
fn replace_takes_no_slot() {
    let mut t = new_tree(1 << 16);
    insert_all(&mut t, 0..=40);
    let usage = t.slot_usage();
    let depth = t.depth();
    assert_eq!(t.insert(7, 700), Some((7, 7)));
    assert_eq!(t.slot_usage(), usage);
    assert_eq!(t.depth(), depth);
    assert_eq!(t.get(&7), Some(&700));
}
