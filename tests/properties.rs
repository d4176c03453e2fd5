use slab_btree::BTree;
use std::collections::BTreeMap;

fn new_tree(bytes: usize) -> BTree<u64> {
    let mut chunk = vec![0u8; bytes];
    BTree::new(&mut chunk[..])
}

/// A small deterministic generator for operation sequences.
fn next(state: &mut u64) -> u64 {
    *state = state.wrapping_mul(6364136223846793005).wrapping_add(1442695040888963407);
    *state >> 33
}

#[test]
fn lookup_matches_model_after_mixed_ops() {
    let mut t = new_tree(1 << 22);
    let mut model: BTreeMap<u64, u64> = BTreeMap::new();
    let mut state = 7u64;
    for step in 0..3000u64 {
        let k = next(&mut state) % 300;
        if next(&mut state) % 3 == 0 {
            assert_eq!(t.remove(&k), model.remove(&k).map(|v| (k, v)));
        } else {
            let prev = model.insert(k, step);
            assert_eq!(t.insert(k, step), prev.map(|v| (k, v)));
        }
        if t.needs_new_chunk() {
            let mut more = vec![0u8; 1 << 16];
            t.add_chunk(&mut more[..]);
        }
    }
    for k in 0..300u64 {
        assert_eq!(t.get(&k), model.get(&k));
    }
    assert_eq!(t.len(), model.len());
    assert_eq!(t.keys(), model.keys().copied().collect::<Vec<u64>>());
}

#[test]
fn keys_strictly_increase() {
    let mut t = new_tree(1 << 20);
    for i in 0..500u64 {
        t.insert((i * 7919) % 1000, i);
    }
    let keys = t.keys();
    assert_eq!(keys.len(), t.len());
    for w in keys.windows(2) {
        assert!(w[0] < w[1]);
    }
}

#[test]
fn size_counts_distinct_keys() {
    let mut t = new_tree(1 << 20);
    for i in 0..200u64 {
        t.insert(i % 50, i);
    }
    assert_eq!(t.len(), 50);
}

#[test]
fn slots_in_use_plus_free_stay_constant() {
    let mut t = new_tree(1 << 20);
    let (l0, lf0, n0, nf0) = t.slot_usage();
    assert_eq!((l0, n0), (0, 0));
    for i in 0..400u64 {
        t.insert((i * 13) % 400, i);
        let (l, lf, n, nf) = t.slot_usage();
        assert_eq!(l + lf, lf0);
        assert_eq!(n + nf, nf0);
    }
    for i in 0..400u64 {
        t.remove(&((i * 31) % 400));
        let (l, lf, n, nf) = t.slot_usage();
        assert_eq!(l + lf, lf0);
        assert_eq!(n + nf, nf0);
    }
    assert_eq!(t.slot_usage(), (0, lf0, 0, nf0));
}

#[test]
fn insert_then_remove_returns_inserted_pair() {
    let mut t = new_tree(1 << 18);
    for k in 0..60u64 {
        t.insert(k * 2, k);
    }
    assert_eq!(t.insert(41, 4100), None);
    assert_eq!(t.remove(&41), Some((41, 4100)));
    assert_eq!(t.get(&41), None);
}

#[test]
fn insert_existing_returns_prior_pair() {
    let mut t = new_tree(1 << 18);
    for k in 0..60u64 {
        t.insert(k, k + 1000);
    }
    assert_eq!(t.len(), 60);
    assert_eq!(t.insert(17, 1), Some((17, 1017)));
    assert_eq!(t.len(), 60);
    assert_eq!(t.get(&17), Some(&1));
}

#[test]
fn remove_absent_changes_nothing() {
    let mut t = new_tree(1 << 18);
    assert_eq!(t.remove(&1), None);
    for k in 0..60u64 {
        t.insert(k * 2, k);
    }
    let keys = t.keys();
    let usage = t.slot_usage();
    let depth = t.depth();
    assert_eq!(t.remove(&33), None);
    assert_eq!(t.remove(&1000), None);
    assert_eq!(t.len(), 60);
    assert_eq!(t.keys(), keys);
    assert_eq!(t.slot_usage(), usage);
    assert_eq!(t.depth(), depth);
}

#[test]
fn get_mut_changes_only_that_value() {
    let mut t = new_tree(1 << 18);
    for k in 0..100u64 {
        t.insert(k, k);
    }
    *t.get_mut(&42).unwrap() = 4242;
    *t.get_mut(&0).unwrap() += 5;
    assert!(t.get_mut(&100).is_none());
    assert_eq!(t.get(&42), Some(&4242));
    assert_eq!(t.get(&0), Some(&5));
    assert_eq!(t.get(&43), Some(&43));
    assert_eq!(t.len(), 100);
}

#[test]
fn empty_tree_lookups() {
    let mut t = new_tree(1 << 12);
    assert_eq!(t.get(&0), None);
    assert!(t.get_mut(&0).is_none());
    assert_eq!(t.remove(&0), None);
    assert_eq!(t.depth(), 0);
}

#[test]
fn extreme_keys() {
    let mut t = new_tree(1 << 16);
    t.insert(u64::MAX, 1);
    t.insert(0, 2);
    t.insert(u64::MAX - 1, 3);
    assert_eq!(t.keys(), vec![0, u64::MAX - 1, u64::MAX]);
    assert_eq!(t.remove(&u64::MAX), Some((u64::MAX, 1)));
    assert_eq!(t.get(&0), Some(&2));
}

#[test]
fn chunk_is_cut_by_slot_weight() {
    let node = std::mem::size_of::<usize>() * 6;
    let leaf = std::mem::size_of::<usize>() * 3;
    let len = 100_000usize;
    let t = new_tree(len);
    let cut = len * node / (node + 9 * leaf);
    let (_, leaf_free, _, node_free) = t.slot_usage();
    assert_eq!(node_free, cut / node);
    assert_eq!(leaf_free, (len - cut) / leaf);
}

#[test]
fn needs_new_chunk_below_64_free_slots() {
    let mut t = new_tree(1 << 12);
    assert!(t.needs_new_chunk());
    let mut more = vec![0u8; 1 << 20];
    t.add_chunk(&mut more[..]);
    assert!(!t.needs_new_chunk());
    let (_, leaf_free, _, node_free) = t.slot_usage();
    assert!(leaf_free >= 64 && node_free >= 64);
}

#[test]
fn entries_give_key_and_value() {
    let mut t = new_tree(1 << 18);
    for k in 0..80u64 {
        t.insert(k * 3, k);
    }
    assert_eq!(t.get_entry(&30), Some((&30, &10)));
    assert_eq!(t.get_entry(&31), None);
    {
        let (k, v) = t.get_entry_mut(&60).unwrap();
        assert_eq!(*k, 60);
        *v = 600;
    }
    assert!(t.get_entry_mut(&61).is_none());
    assert_eq!(t.get(&60), Some(&600));
    assert_eq!(t.len(), 80);
}
