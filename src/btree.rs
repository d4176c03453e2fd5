//! The tree: its root record, height and entry count, the two slab
//! allocators its records live in, and the laws its operations keep.
use vstd::prelude::*;
use crate::slab::{SlabAllocator, valid_slot_size};
use crate::node::{
    KVPair, Leaf, Node, ChildUnion, MAX_NUM_ELEMENTS, MIN_NUM_ELEMENTS, B, sorted, seq_of, leaves,
    nodes, wf_tree, opt_leaves, opt_nodes, fits_below, pending_seq, lemma_flat_single,
    lemma_flat_pair, lemma_height_bound, lemma_flat_front, lemma_around, absorbs,
};
use crate::inorder::{
    is_gap, has_key, map_of, lemma_index_of, lemma_map_insert, lemma_map_update, lemma_map_remove,
    lemma_insert_sorted, lemma_update_sorted, lemma_remove_sorted, index_of, lemma_gap_absent,
};
use vstd::arithmetic::power2::{
    pow2, lemma2_to64, lemma2_to64_rest, lemma_pow2_unfold, lemma_pow2_strictly_increases,
};
use crate::insert::{InsertOutcome, same_pool, insert_rec};
use crate::lookup::{get_in, get_mut_in, keys_of, collect_keys};
use crate::remove::{remove_rec, free_subtree};

verus! {

/// An ordered map from `u64` keys to values of type `V`, kept as a B-tree
/// whose leaves and interior records occupy slots of two slab allocators.
pub struct BTree<V> {
    root: Option<ChildUnion<V>>,
    depth: usize,
    size: usize,
    node_alloc: SlabAllocator<Node<V>>,
    leaf_alloc: SlabAllocator<Leaf<V>>,
}

/// Where a chunk of `len` bytes is cut: the bytes before go to interior
/// records (slots of `sn` bytes), the rest to leaves (slots of `sl` bytes).
pub open spec fn node_share(len: nat, sn: nat, sl: nat) -> nat {
    len * sn / ((sn + (B - 1) * sl) as nat)
}

impl<V> View for BTree<V> {
    type V = Map<u64, V>;

    open spec fn view(&self) -> Map<u64, V> {
        map_of(self.entries())
    }
}

impl<V> BTree<V> {
    /// All entries in increasing order of key.
    pub closed spec fn entries(&self) -> Seq<KVPair<V>> {
        match self.root {
            Some(c) => seq_of(c, self.depth as nat),
            None => Seq::empty(),
        }
    }

    /// The record that the root slot holds, if any.
    pub closed spec fn root_record(&self) -> Option<ChildUnion<V>> {
        self.root
    }

    /// Number of record levels: 0 when empty, 1 when the root is a leaf.
    pub closed spec fn height(&self) -> nat {
        self.depth as nat
    }

    /// Number of leaves in the tree.
    pub closed spec fn leaf_count(&self) -> nat {
        match self.root {
            Some(c) => leaves(c, self.depth as nat),
            None => 0,
        }
    }

    /// Number of interior records in the tree.
    pub closed spec fn node_count(&self) -> nat {
        match self.root {
            Some(c) => nodes(c, self.depth as nat),
            None => 0,
        }
    }

    /// Free slots of the leaf allocator.
    pub closed spec fn free_leaf_slots(&self) -> nat {
        self.leaf_alloc.free_slots()
    }

    /// Free slots of the interior-record allocator.
    pub closed spec fn free_node_slots(&self) -> nat {
        self.node_alloc.free_slots()
    }

    /// Slots that the chunks given to the leaf allocator hold.
    pub closed spec fn leaf_budget(&self) -> nat {
        self.leaf_alloc.budget()
    }

    /// Slots that the chunks given to the interior-record allocator hold.
    pub closed spec fn node_budget(&self) -> nat {
        self.node_alloc.budget()
    }

    /// Bytes of all chunks given so far.
    pub closed spec fn chunk_bytes(&self) -> nat {
        self.node_alloc.total_bytes() + self.leaf_alloc.total_bytes()
    }

    /// Slot size of interior records.
    pub closed spec fn node_slot_size(&self) -> nat {
        self.node_alloc.slot_size()
    }

    /// Slot size of leaves.
    pub closed spec fn leaf_slot_size(&self) -> nat {
        self.leaf_alloc.slot_size()
    }

    /// The tree is well formed: leaves all at the bottom, every record but
    /// the root between `MIN_NUM_ELEMENTS` and `MAX_NUM_ELEMENTS` entries, a
    /// non-empty root, keys increasing in order, the entry count right, and
    /// every slot of both allocators either free or holding one record of the
    /// tree.
    pub closed spec fn wf(&self) -> bool {
        &&& self.leaf_alloc.wf()
        &&& self.node_alloc.wf()
        &&& self.size == self.entries().len()
        &&& sorted(self.entries())
        &&& self.leaf_alloc.in_use() == self.leaf_count()
        &&& self.node_alloc.in_use() == self.node_count()
        &&& match self.root {
            None => self.depth == 0,
            Some(c) => {
                &&& self.depth >= 1
                &&& wf_tree(c, self.depth as nat)
                &&& c.entries().len() >= 1
            },
        }
    }

    /// Creates an empty tree whose slots come from `chunk`. The first
    /// `node_share` bytes go to interior records, the rest to leaves.
    pub fn new(chunk: &mut [u8]) -> (r: Self)
        requires
            valid_slot_size(vstd::layout::size_of::<Node<V>>()),
            valid_slot_size(vstd::layout::size_of::<Leaf<V>>()),
            8 * vstd::layout::size_of::<Node<V>>() < old(chunk)@.len(),
            old(chunk)@.len() * vstd::layout::size_of::<Node<V>>() <= usize::MAX,
            vstd::layout::size_of::<Node<V>>() + (B - 1) * vstd::layout::size_of::<Leaf<V>>() <= usize::MAX,
        ensures
            r.wf(),
            r.entries() == Seq::<KVPair<V>>::empty(),
            r.height() == 0,
            r.node_slot_size() == vstd::layout::size_of::<Node<V>>(),
            r.leaf_slot_size() == vstd::layout::size_of::<Leaf<V>>(),
            r.chunk_bytes() == old(chunk)@.len(),
            ({
                let cut = node_share(old(chunk)@.len(), r.node_slot_size(), r.leaf_slot_size());
                &&& r.node_budget() == cut / r.node_slot_size()
                &&& r.leaf_budget() == ((old(chunk)@.len() - cut) as nat) / r.leaf_slot_size()
            }),
            r.free_node_slots() == r.node_budget(),
            r.free_leaf_slots() == r.leaf_budget(),
    {
        let sn = core::mem::size_of::<Node<V>>();
        let sl = core::mem::size_of::<Leaf<V>>();
        let len = chunk.len();
        proof {
            assert(len * sn / (sn + (B - 1) * sl) <= len) by (nonlinear_arith)
                requires
                    sn >= 16,
                    len >= 0,
                    sl >= 0;
        }
        let cut = len * sn / (sn + (B - 1) * sl);
        let (node_chunk, leaf_chunk) = chunk.split_at_mut(cut);
        let node_alloc = SlabAllocator::new(node_chunk);
        let leaf_alloc = SlabAllocator::new(leaf_chunk);
        BTree { root: None, depth: 0, size: 0, node_alloc, leaf_alloc }
    }

    /// Number of entries.
    pub fn len(&self) -> (r: usize)
        requires
            self.wf(),
        ensures
            r == self.entries().len(),
    {
        self.size
    }

    /// True when either allocator has fewer than 64 free slots; then call
    /// `add_chunk` before the next insertion.
    pub fn needs_new_chunk(&self) -> (r: bool)
        requires
            self.wf(),
        ensures
            r == (self.free_leaf_slots() < 64 || self.free_node_slots() < 64),
    {
        self.leaf_alloc.needs_new_chunk() || self.node_alloc.needs_new_chunk()
    }

    /// Gives both allocators more memory, cut as in `new`.
    pub fn add_chunk(&mut self, chunk: &mut [u8])
        requires
            old(self).wf(),
            old(self).chunk_bytes() + old(chunk)@.len() <= usize::MAX,
            old(chunk)@.len() * old(self).node_slot_size() <= usize::MAX,
            old(self).node_slot_size() + (B - 1) * old(self).leaf_slot_size() <= usize::MAX,
        ensures
            final(self).wf(),
            final(self).entries() == old(self).entries(),
            final(self).height() == old(self).height(),
            final(self).leaf_count() == old(self).leaf_count(),
            final(self).node_count() == old(self).node_count(),
            final(self).node_slot_size() == old(self).node_slot_size(),
            final(self).leaf_slot_size() == old(self).leaf_slot_size(),
            final(self).chunk_bytes() == old(self).chunk_bytes() + old(chunk)@.len(),
            final(self).root_record() == old(self).root_record(),
            ({
                let cut = node_share(old(chunk)@.len(), old(self).node_slot_size(), old(self).leaf_slot_size());
                &&& final(self).node_budget() == old(self).node_budget() + cut / old(self).node_slot_size()
                &&& final(self).leaf_budget() == old(self).leaf_budget() + ((old(chunk)@.len() - cut) as nat)
                    / old(self).leaf_slot_size()
                &&& final(self).free_node_slots() == old(self).free_node_slots() + cut / old(self).node_slot_size()
                &&& final(self).free_leaf_slots() == old(self).free_leaf_slots() + ((old(chunk)@.len() - cut) as nat)
                    / old(self).leaf_slot_size()
            }),
    {
        let sn = core::mem::size_of::<Node<V>>();
        let sl = core::mem::size_of::<Leaf<V>>();
        let len = chunk.len();
        proof {
            self.node_alloc.lemma_slot_size();
            self.leaf_alloc.lemma_slot_size();
            assert(len * sn / (sn + (B - 1) * sl) <= len) by (nonlinear_arith)
                requires
                    sn >= 16,
                    len >= 0,
                    sl >= 0;
        }
        let cut = len * sn / (sn + (B - 1) * sl);
        let (node_chunk, leaf_chunk) = chunk.split_at_mut(cut);
        self.leaf_alloc.add_chunk(leaf_chunk);
        self.node_alloc.add_chunk(node_chunk);
    }

    /// The entry stored under `key`, if any, as its key and value.
    pub fn get_entry(&self, key: &u64) -> (r: Option<(&u64, &V)>)
        requires
            self.wf(),
        ensures
            r is Some <==> self@.contains_key(*key),
            r is Some ==> *r.unwrap().0 == *key && *r.unwrap().1 == self@[*key],
    {
        match &self.root {
            None => None,
            Some(c) => {
                let r = get_in(c, self.depth, *key);
                match r {
                    Some(e) => {
                        proof {
                            let s = self.entries();
                            let i = choose|i: int| 0 <= i < s.len() && s[i].key == *key && *e == s[i];
                            lemma_index_of(s, i);
                        }
                        Some((&e.key, &e.value))
                    },
                    None => None,
                }
            },
        }
    }

    /// The value stored under `key`, if any.
    pub fn get(&self, key: &u64) -> (r: Option<&V>)
        requires
            self.wf(),
        ensures
            r is Some <==> self@.contains_key(*key),
            r is Some ==> *r.unwrap() == self@[*key],
    {
        match self.get_entry(key) {
            Some((_, v)) => Some(v),
            None => None,
        }
    }

    /// The full root takes `e`, with `o` after it, at entry `j`: it is split,
    /// and a new root holds the separator between the two halves.
    fn grow_root(&mut self, j: usize, e: KVPair<V>, o: Option<ChildUnion<V>>)
        requires
            old(self).root is Some,
            1 <= old(self).depth < usize::MAX,
            wf_tree(old(self).root.unwrap(), old(self).depth as nat),
            old(self).root.unwrap().entries().len() == MAX_NUM_ELEMENTS,
            j <= MAX_NUM_ELEMENTS,
            fits_below(o, old(self).depth as nat),
            old(self).leaf_alloc.wf(),
            old(self).node_alloc.wf(),
            old(self).depth == 1 ==> old(self).leaf_alloc.free_slots() >= 1 && old(self).node_alloc.free_slots() >= 1,
            old(self).depth > 1 ==> old(self).node_alloc.free_slots() >= 2,
        ensures
            final(self).root is Some,
            final(self).depth == old(self).depth + 1,
            final(self).size == old(self).size,
            same_pool(old(self).leaf_alloc, final(self).leaf_alloc),
            same_pool(old(self).node_alloc, final(self).node_alloc),
            wf_tree(final(self).root.unwrap(), final(self).depth as nat),
            final(self).root.unwrap().entries().len() == 1,
            old(self).depth == 1 ==> final(self).leaf_alloc.in_use() == old(self).leaf_alloc.in_use() + 1
                && final(self).node_alloc.in_use() == old(self).node_alloc.in_use() + 1,
            old(self).depth > 1 ==> final(self).leaf_alloc == old(self).leaf_alloc
                && final(self).node_alloc.in_use() == old(self).node_alloc.in_use() + 2,
            final(self).root.unwrap().kids().len() == 2,
            final(self).root.unwrap().kids()[0].entries().len() == B,
            final(self).root.unwrap().kids()[1].entries().len() == MIN_NUM_ELEMENTS,
            seq_of(final(self).root.unwrap(), final(self).depth as nat) == pending_seq(old(self).root.unwrap(), old(self).depth as nat, j as nat, e, o),
            leaves(final(self).root.unwrap(), final(self).depth as nat) == leaves(old(self).root.unwrap(), old(self).depth as nat)
                + opt_leaves(o, (old(self).depth - 1) as nat) + final(self).leaf_alloc.in_use() - old(self).leaf_alloc.in_use(),
            nodes(final(self).root.unwrap(), final(self).depth as nat) == nodes(old(self).root.unwrap(), old(self).depth as nat)
                + opt_nodes(o, (old(self).depth - 1) as nat) + final(self).node_alloc.in_use() - old(self).node_alloc.in_use(),
    {
        let ghost d = self.depth as nat;
        let (sep, right) = match &mut self.root {
            Some(c) => c.split(j, e, o, &mut self.leaf_alloc, &mut self.node_alloc, Ghost(d)),
            None => {
                proof {
                    assert(false);
                }
                return;
            },
        };
        let left = self.root.take().unwrap();
        let new_root = Node::new(&mut self.node_alloc, sep, left, right);
        self.root = Some(ChildUnion::Node(new_root));
        self.depth = self.depth + 1;
        proof {
            lemma_flat_pair(sep, left, right, d);
            let nr = self.root.unwrap();
            assert(nr.kids() == seq![left, right]);
            assert(nr.entries() == seq![sep]);
            assert forall|k: int| 0 <= k < nr.kids().len() implies wf_tree(#[trigger] nr.kids()[k], d) && MIN_NUM_ELEMENTS <= nr.kids()[k].entries().len() by {
                if k == 0 {
                    assert(nr.kids()[k] == left);
                } else {
                    assert(nr.kids()[k] == right);
                }
            }
        }
    }

    /// Stores `value` under `key`. When the key was present, its entry is
    /// replaced in place and handed back; nothing else changes. Otherwise the
    /// entry is added, taking at most one slot per level of the tree after the
    /// call: a new key needs one free leaf slot and as many free
    /// interior-record slots as the tree has levels.
    pub fn insert(&mut self, key: u64, value: V) -> (r: Option<(u64, V)>)
        requires
            old(self).wf(),
            !old(self)@.contains_key(key) ==> old(self).free_leaf_slots() >= 1
                && old(self).free_node_slots() >= old(self).height(),
            old(self).entries().len() < usize::MAX,
        ensures
            final(self).wf(),
            final(self)@ == old(self)@.insert(key, value),
            r is Some <==> old(self)@.contains_key(key),
            r is Some ==> r == Some((key, old(self)@[key])),
            final(self).entries().len() == old(self).entries().len() + if r is Some { 0int } else { 1int },
            r is Some ==> {
                &&& final(self).entries() == old(self).entries().update(
                    index_of(old(self).entries(), key),
                    KVPair { key, value },
                )
                &&& final(self).height() == old(self).height()
                &&& final(self).free_leaf_slots() == old(self).free_leaf_slots()
                &&& final(self).free_node_slots() == old(self).free_node_slots()
            },
            final(self).height() == old(self).height() || final(self).height() == old(self).height() + 1,
            old(self).height() == 0 ==> final(self).height() == 1,
            final(self).height() == old(self).height() + 1 ==> {
                &&& final(self).root_record() is Some
                &&& final(self).root_record().unwrap().entries().len() == 1
            },
            final(self).free_leaf_slots() <= old(self).free_leaf_slots(),
            final(self).free_node_slots() <= old(self).free_node_slots(),
            old(self).root_record() is Some && absorbs(old(self).root_record().unwrap(), old(self).height(), key) ==> {
                &&& final(self).height() == old(self).height()
                &&& final(self).free_leaf_slots() == old(self).free_leaf_slots()
                &&& final(self).free_node_slots() == old(self).free_node_slots()
            },
            (old(self).free_leaf_slots() - final(self).free_leaf_slots()) + (old(self).free_node_slots()
                - final(self).free_node_slots()) <= final(self).height(),
            old(self).height() == 1 && old(self).entries().len() == MAX_NUM_ELEMENTS && r is None ==> {
                &&& final(self).height() == 2
                &&& final(self).leaf_count() == 2
                &&& final(self).node_count() == 1
                &&& final(self).free_leaf_slots() + 1 == old(self).free_leaf_slots()
                &&& final(self).free_node_slots() + 1 == old(self).free_node_slots()
                &&& final(self).root_record().unwrap().entries().len() == 1
                &&& final(self).root_record().unwrap().kids().len() == 2
                &&& final(self).root_record().unwrap().kids()[0].entries().len() == B
                &&& final(self).root_record().unwrap().kids()[1].entries().len() == MIN_NUM_ELEMENTS
            },
            final(self).leaf_budget() == old(self).leaf_budget(),
            final(self).node_budget() == old(self).node_budget(),
            final(self).chunk_bytes() == old(self).chunk_bytes(),
            final(self).node_slot_size() == old(self).node_slot_size(),
            final(self).leaf_slot_size() == old(self).leaf_slot_size(),
    {
        let kv = KVPair::new(key, value);
        let ghost s = self.entries();
        if self.depth == 0 {
            let mut leaf = Leaf::new(&mut self.leaf_alloc);
            leaf.as_mut().push(kv);
            self.root = Some(ChildUnion::Leaf(leaf));
            self.depth = 1;
            self.size = 1;
            proof {
                assert(self.entries() =~= s.insert(0, kv));
                assert(is_gap(s, key, 0));
                lemma_map_insert(s, 0, kv);
                lemma_insert_sorted(s, 0, kv);
            }
            return None;
        }
        let ghost d = self.depth as nat;
        proof {
            lemma_height_bound(self.root.unwrap(), d);
        }
        let out = match &mut self.root {
            Some(c) => insert_rec(c, self.depth, kv, &mut self.leaf_alloc, &mut self.node_alloc),
            None => {
                proof {
                    assert(false);
                }
                InsertOutcome::Inserted
            },
        };
        match out {
            InsertOutcome::Replaced(prev) => {
                proof {
                    let i = choose|i: int| 0 <= i < s.len() && s[i].key == kv.key && prev == s[i] && self.entries() == s.update(i, kv);
                    lemma_index_of(s, i);
                    lemma_map_update(s, i, kv);
                    lemma_update_sorted(s, i, kv);
                }
                Some((prev.key, prev.value))
            },
            InsertOutcome::Inserted => {
                proof {
                    let g = choose|g: int| is_gap(s, kv.key, g) && self.entries() == s.insert(g, kv);
                    if d == 1 {
                        assert(seq_of(self.root.unwrap(), 1) == self.root.unwrap().entries());
                    }
                    lemma_map_insert(s, g, kv);
                    lemma_insert_sorted(s, g, kv);
                }
                self.size = self.size + 1;
                None
            },
            InsertOutcome::Full(j, e, o) => {
                let ghost root1 = self.root.unwrap();
                let ghost g = choose|g: int| is_gap(s, kv.key, g) && pending_seq(root1, d, j as nat, e, o) == s.insert(g, kv);
                proof {
                    lemma_gap_absent(s, kv.key, g);
                    if d == 1 {
                        assert(seq_of(root1, 1) == root1.entries());
                    }
                }
                self.grow_root(j, e, o);
                self.size = self.size + 1;
                proof {
                    lemma_map_insert(s, g, kv);
                    lemma_insert_sorted(s, g, kv);
                }
                None
            },
        }
    }

    /// After a removal: an empty root leaf is given back and the tree becomes
    /// empty; an interior root without entries is given back and its one
    /// child becomes the root.
    fn shrink_root(&mut self)
        requires
            old(self).root is Some,
            old(self).depth >= 1,
            wf_tree(old(self).root.unwrap(), old(self).depth as nat),
            old(self).leaf_alloc.wf(),
            old(self).node_alloc.wf(),
            old(self).leaf_alloc.in_use() == leaves(old(self).root.unwrap(), old(self).depth as nat),
            old(self).node_alloc.in_use() == nodes(old(self).root.unwrap(), old(self).depth as nat),
        ensures
            final(self).size == old(self).size,
            final(self).entries() == old(self).entries(),
            final(self).depth <= old(self).depth,
            final(self).depth + 1 >= old(self).depth,
            final(self).leaf_alloc.wf(),
            final(self).node_alloc.wf(),
            same_pool(old(self).leaf_alloc, final(self).leaf_alloc),
            same_pool(old(self).node_alloc, final(self).node_alloc),
            final(self).leaf_alloc.in_use() == final(self).leaf_count(),
            final(self).node_alloc.in_use() == final(self).node_count(),
            match final(self).root {
                None => final(self).depth == 0,
                Some(c) => {
                    &&& final(self).depth >= 1
                    &&& wf_tree(c, final(self).depth as nat)
                    &&& c.entries().len() >= 1
                },
            },
    {
        let n = match &self.root {
            Some(c) => c.len(),
            None => 0,
        };
        if n > 0 {
            return;
        }
        let root = self.root.take().unwrap();
        match root {
            ChildUnion::Leaf(b) => {
                b.free(&mut self.leaf_alloc);
                self.depth = 0;
            },
            ChildUnion::Node(b) => {
                let ghost hc = (self.depth - 1) as nat;
                let ghost cs = b.value().children@;
                proof {
                    lemma_flat_single(cs[0], hc);
                    assert(cs =~= seq![cs[0]]);
                    assert(b.value().entries@ =~= Seq::<KVPair<V>>::empty());
                }
                let mut node = b.free_move(&mut self.node_alloc);
                let child = node.children.pop().unwrap();
                self.root = Some(child);
                self.depth = self.depth - 1;
            },
        }
    }

    /// Removes the entry with key `key` and hands it back, if there is one.
    pub fn remove(&mut self, key: &u64) -> (r: Option<(u64, V)>)
        requires
            old(self).wf(),
        ensures
            final(self).wf(),
            final(self)@ == old(self)@.remove(*key),
            r is Some <==> old(self)@.contains_key(*key),
            r is Some ==> r == Some((*key, old(self)@[*key])),
            final(self).entries().len() == old(self).entries().len() - if r is Some { 1int } else { 0int },
            final(self).entries().len() == 0 ==> {
                &&& final(self).height() == 0
                &&& final(self).leaf_count() == 0
                &&& final(self).node_count() == 0
            },
            final(self).leaf_budget() == old(self).leaf_budget(),
            final(self).node_budget() == old(self).node_budget(),
            final(self).chunk_bytes() == old(self).chunk_bytes(),
            final(self).node_slot_size() == old(self).node_slot_size(),
            final(self).leaf_slot_size() == old(self).leaf_slot_size(),
            final(self).height() <= old(self).height(),
            final(self).height() + 1 >= old(self).height(),
            r is None ==> {
                &&& final(self).root_record() == old(self).root_record()
                &&& final(self).entries() == old(self).entries()
                &&& final(self).height() == old(self).height()
                &&& final(self).free_leaf_slots() == old(self).free_leaf_slots()
                &&& final(self).free_node_slots() == old(self).free_node_slots()
            },
    {
        let ghost s = self.entries();
        if self.depth == 0 {
            return None;
        }
        let found = match &self.root {
            Some(c) => get_in(c, self.depth, *key).is_some(),
            None => false,
        };
        if !found {
            proof {
                assert(map_of(s).remove(*key) =~= map_of(s));
            }
            return None;
        }
        let r = match &mut self.root {
            Some(c) => remove_rec(c, self.depth, *key, &mut self.leaf_alloc, &mut self.node_alloc),
            None => {
                proof {
                    assert(false);
                }
                None
            },
        };
        match r {
            None => {
                proof {
                    assert(!has_key(s, *key));
                    assert(self.entries() == s);
                    assert(map_of(s).remove(*key) =~= map_of(s));
                }
                None
            },
            Some(kv) => {
                proof {
                    let i = choose|i: int| 0 <= i < s.len() && s[i].key == *key && kv == s[i] && self.entries() == s.remove(i);
                    lemma_index_of(s, i);
                    lemma_map_remove(s, i);
                    lemma_remove_sorted(s, i);
                }
                self.size = self.size - 1;
                self.shrink_root();
                proof {
                    if self.root is Some {
                        lemma_height_bound(self.root.unwrap(), self.depth as nat);
                    }
                }
                Some((kv.key, kv.value))
            },
        }
    }

    /// The entry stored under `key`, if any, as its key and mutable access
    /// to its value.
    pub fn get_entry_mut(&mut self, key: &u64) -> (r: Option<(&u64, &mut V)>)
        requires
            old(self).wf(),
        ensures
            final(self).wf(),
            r is Some <==> old(self)@.contains_key(*key),
            match r {
                Some(e) => {
                    &&& *e.0 == *key
                    &&& *e.1 == old(self)@[*key]
                    &&& final(self)@ == old(self)@.insert(*key, *final(e.1))
                },
                None => final(self)@ == old(self)@,
            },
            final(self).entries().len() == old(self).entries().len(),
            final(self).height() == old(self).height(),
            final(self).free_leaf_slots() == old(self).free_leaf_slots(),
            final(self).free_node_slots() == old(self).free_node_slots(),
            final(self).leaf_budget() == old(self).leaf_budget(),
            final(self).node_budget() == old(self).node_budget(),
            final(self).chunk_bytes() == old(self).chunk_bytes(),
            final(self).node_slot_size() == old(self).node_slot_size(),
            final(self).leaf_slot_size() == old(self).leaf_slot_size(),
    {
        if self.depth == 0 {
            return None;
        }
        let found = match &self.root {
            Some(c) => get_in(c, self.depth, *key).is_some(),
            None => false,
        };
        if !found {
            return None;
        }
        let ghost s = self.entries();
        proof {
            let i = index_of(s, *key);
            lemma_index_of(s, i);
            assert forall|v: V| #[trigger] map_of(s.update(i, KVPair { key: *key, value: v })) == map_of(s).insert(*key, v)
                && sorted(s.update(i, KVPair { key: *key, value: v })) by {
                lemma_map_update(s, i, KVPair { key: *key, value: v });
                lemma_update_sorted(s, i, KVPair { key: *key, value: v });
            }
        }
        match &mut self.root {
            Some(c) => Some(get_mut_in(c, self.depth, *key)),
            None => None,
        }
    }

    /// Mutable access to the value stored under `key`, if any.
    pub fn get_mut(&mut self, key: &u64) -> (r: Option<&mut V>)
        requires
            old(self).wf(),
        ensures
            final(self).wf(),
            r is Some <==> old(self)@.contains_key(*key),
            match r {
                Some(m) => {
                    &&& *m == old(self)@[*key]
                    &&& final(self)@ == old(self)@.insert(*key, *final(m))
                },
                None => final(self)@ == old(self)@,
            },
            final(self).entries().len() == old(self).entries().len(),
            final(self).height() == old(self).height(),
            final(self).free_leaf_slots() == old(self).free_leaf_slots(),
            final(self).free_node_slots() == old(self).free_node_slots(),
            final(self).leaf_budget() == old(self).leaf_budget(),
            final(self).node_budget() == old(self).node_budget(),
            final(self).chunk_bytes() == old(self).chunk_bytes(),
            final(self).node_slot_size() == old(self).node_slot_size(),
            final(self).leaf_slot_size() == old(self).leaf_slot_size(),
    {
        match self.get_entry_mut(key) {
            Some((_, v)) => Some(v),
            None => None,
        }
    }

    /// Removes every entry and gives the slot of every record back to its
    /// allocator.
    pub fn clear(&mut self)
        requires
            old(self).wf(),
        ensures
            final(self).wf(),
            final(self).entries() == Seq::<KVPair<V>>::empty(),
            final(self).height() == 0,
            final(self).free_leaf_slots() == final(self).leaf_budget(),
            final(self).free_node_slots() == final(self).node_budget(),
            final(self).leaf_budget() == old(self).leaf_budget(),
            final(self).node_budget() == old(self).node_budget(),
            final(self).chunk_bytes() == old(self).chunk_bytes(),
            final(self).node_slot_size() == old(self).node_slot_size(),
            final(self).leaf_slot_size() == old(self).leaf_slot_size(),
    {
        match self.root.take() {
            Some(c) => free_subtree(c, self.depth, &mut self.leaf_alloc, &mut self.node_alloc),
            None => {},
        }
        self.depth = 0;
        self.size = 0;
    }

    /// Number of record levels: 0 when empty, 1 when the root is a leaf.
    pub fn depth(&self) -> (r: usize)
        requires
            self.wf(),
        ensures
            r == self.height(),
    {
        self.depth
    }

    /// All keys in increasing order.
    pub fn keys(&self) -> (r: Vec<u64>)
        requires
            self.wf(),
        ensures
            r@ == keys_of(self.entries()),
    {
        let mut out: Vec<u64> = Vec::new();
        match &self.root {
            Some(c) => collect_keys(c, self.depth, &mut out),
            None => {},
        }
        proof {
            assert(out@ =~= keys_of(self.entries()));
        }
        out
    }

    /// Slot usage as (leaves in use, free leaf slots, interior records in
    /// use, free interior-record slots).
    pub fn slot_usage(&self) -> (r: (usize, usize, usize, usize))
        requires
            self.wf(),
        ensures
            r.0 == self.leaf_count(),
            r.1 == self.free_leaf_slots(),
            r.2 == self.node_count(),
            r.3 == self.free_node_slots(),
    {
        (
            self.leaf_alloc.slots_in_use(),
            self.leaf_alloc.free_slot_count(),
            self.node_alloc.slots_in_use(),
            self.node_alloc.free_slot_count(),
        )
    }
}

/// The shape that every operation keeps: no root at height 0; otherwise all
/// leaves at height 1 below a root of `height()` levels, every record below
/// the root between `MIN_NUM_ELEMENTS` and `MAX_NUM_ELEMENTS` entries, and a
/// root of 1 to `MAX_NUM_ELEMENTS` entries.
pub open spec fn balanced<V>(t: &BTree<V>) -> bool {
    match t.root_record() {
        None => t.height() == 0,
        Some(c) => {
            &&& t.height() >= 1
            &&& wf_tree(c, t.height())
            &&& 1 <= c.entries().len() <= MAX_NUM_ELEMENTS
        },
    }
}

/// A tree of height 1 is one leaf and no interior record.
pub proof fn law_height_one<V>(t: &BTree<V>)
    requires
        t.wf(),
        t.height() == 1,
    ensures
        t.root_record() is Some,
        t.root_record().unwrap() is Leaf,
        t.leaf_count() == 1,
        t.node_count() == 0,
{
}

/// A subtree of height `h` whose own record is not empty has at least
/// `2^(h-1)` leaves.
proof fn lemma_leaves_pow2<V>(c: ChildUnion<V>, h: nat)
    requires
        wf_tree(c, h),
        c.entries().len() >= 1,
    ensures
        leaves(c, h) >= pow2((h - 1) as nat),
    decreases h,
{
    if h <= 1 {
        lemma2_to64();
    } else {
        let es = c.entries();
        let cs = c.kids();
        let hc = (h - 1) as nat;
        lemma_flat_front(es, cs, hc);
        lemma_around(es.skip(1), cs.skip(1), hc, 0);
        assert(cs.skip(1)[0] == cs[1]);
        lemma_leaves_pow2(cs[0], hc);
        lemma_leaves_pow2(cs[1], hc);
        lemma_pow2_unfold((h - 1) as nat);
    }
}

/// The height of a well-formed tree is at most 60: it has at least
/// `2^(height-1)` leaves, and the chunks cannot hold more slots than that.
pub proof fn law_height_bound<V>(t: &BTree<V>)
    requires
        t.wf(),
    ensures
        t.height() <= 60,
{
    t.leaf_alloc.lemma_budget_bound();
    if t.depth > 60 {
        lemma_leaves_pow2(t.root.unwrap(), t.depth as nat);
        lemma2_to64_rest();
        if t.depth - 1 > 60 {
            lemma_pow2_strictly_increases(60, (t.depth - 1) as nat);
        }
        assert(false);
    }
}

/// With at least 64 free slots in each allocator, which is what
/// `needs_new_chunk` returning false means, `insert` always has the slots it
/// asks for.
pub proof fn law_room_for_insert<V>(t: &BTree<V>)
    requires
        t.wf(),
        t.free_leaf_slots() >= 64,
        t.free_node_slots() >= 64,
    ensures
        t.free_leaf_slots() >= 1,
        t.free_node_slots() >= t.height(),
{
    law_height_bound(t);
}

/// A well-formed tree is balanced.
pub proof fn law_balanced<V>(t: &BTree<V>)
    requires
        t.wf(),
    ensures
        balanced(t),
{
}

/// The entries of a well-formed tree, read in order, have strictly
/// increasing keys.
pub proof fn law_in_order<V>(t: &BTree<V>)
    requires
        t.wf(),
    ensures
        sorted(t.entries()),
        forall|i: int, j: int| 0 <= i < j < t.entries().len() ==> keys_of(t.entries())[i] < keys_of(t.entries())[j],
{
}

/// The number of entries is the number of distinct keys present.
pub proof fn law_size_is_key_count<V>(t: &BTree<V>)
    requires
        t.wf(),
    ensures
        t@.dom().finite(),
        t.entries().len() == t@.dom().len(),
{
    let s = t.entries();
    let ks = keys_of(s);
    assert forall|i: int, j: int| 0 <= i < ks.len() && 0 <= j < ks.len() && i != j implies ks[i] != ks[j] by {
        if i < j {
            assert(s[i].key < s[j].key);
        } else {
            assert(s[j].key < s[i].key);
        }
    }
    assert(ks.no_duplicates());
    ks.unique_seq_to_set();
    assert forall|k: u64| #[trigger] t@.dom().contains(k) <==> ks.to_set().contains(k) by {
        if has_key(s, k) {
            let i = choose|i: int| 0 <= i < s.len() && s[i].key == k;
            assert(ks[i] == k);
        }
        if ks.contains(k) {
            let i = choose|i: int| 0 <= i < ks.len() && ks[i] == k;
            assert(s[i].key == k);
        }
    }
    assert(t@.dom() =~= ks.to_set());
}

/// Every slot of each allocator is either free or holds one record of the
/// tree: records plus free slots make up the slots of all chunks given.
pub proof fn law_slot_accounting<V>(t: &BTree<V>)
    requires
        t.wf(),
    ensures
        t.leaf_count() + t.free_leaf_slots() == t.leaf_budget(),
        t.node_count() + t.free_node_slots() == t.node_budget(),
{
}

/// A well-formed tree without entries has no records: height 0, every slot
/// free.
pub proof fn law_empty_has_no_records<V>(t: &BTree<V>)
    requires
        t.wf(),
        t.entries().len() == 0,
    ensures
        t.height() == 0,
        t.leaf_count() == 0,
        t.node_count() == 0,
        t.free_leaf_slots() == t.leaf_budget(),
        t.free_node_slots() == t.node_budget(),
{
    if t.root is Some {
        lemma_height_bound(t.root.unwrap(), t.depth as nat);
    }
}

/// What `insert` leaves under a key is what `remove` hands back for it:
/// inserting `(k, v)` and then removing `k` yields `(k, v)`, and the map
/// returns to `m` without `k`.
pub proof fn law_insert_then_remove<V>(m: Map<u64, V>, k: u64, v: V)
    ensures
        m.insert(k, v).contains_key(k),
        m.insert(k, v)[k] == v,
        m.insert(k, v).remove(k) == m.remove(k),
{
    assert(m.insert(k, v).remove(k) =~= m.remove(k));
}

/// One insertion or removal.
pub enum Op<V> {
    Insert(u64, V),
    Remove(u64),
}

/// The map after applying `ops` in order to `m`, as `insert` and `remove`
/// state their effect.
pub open spec fn run<V>(m: Map<u64, V>, ops: Seq<Op<V>>) -> Map<u64, V>
    decreases ops.len(),
{
    if ops.len() == 0 {
        m
    } else {
        let before = run(m, ops.drop_last());
        match ops.last() {
            Op::Insert(k, v) => before.insert(k, v),
            Op::Remove(k) => before.remove(k),
        }
    }
}

/// How many insertions of `k` in `ops` outnumber its removals, counting a
/// removal only when there is an insertion left for it to cancel.
pub open spec fn net_count<V>(ops: Seq<Op<V>>, k: u64) -> nat
    decreases ops.len(),
{
    if ops.len() == 0 {
        0
    } else {
        let c = net_count(ops.drop_last(), k);
        match ops.last() {
            Op::Insert(k2, _) => if k2 == k { c + 1 } else { c },
            Op::Remove(k2) => if k2 == k && c > 0 { (c - 1) as nat } else { c },
        }
    }
}

/// No key in `ops` is inserted while it is present.
pub open spec fn fresh_inserts<V>(ops: Seq<Op<V>>) -> bool {
    forall|i: int|
        0 <= i < ops.len() ==> match #[trigger] ops[i] {
            Op::Insert(k, _) => !run(Map::<u64, V>::empty(), ops.take(i)).contains_key(k),
            Op::Remove(_) => true,
        }
}

/// Starting from an empty tree, a key is present after a sequence of
/// insertions and removals exactly when its insertions outnumber its
/// removals, provided no key is inserted while present.
pub proof fn law_lookup_tracks_ops<V>(ops: Seq<Op<V>>, k: u64)
    requires
        fresh_inserts(ops),
    ensures
        run(Map::<u64, V>::empty(), ops).contains_key(k) <==> net_count(ops, k) > 0,
        net_count(ops, k) <= 1,
    decreases ops.len(),
{
    if ops.len() > 0 {
        let pre = ops.drop_last();
        assert forall|i: int| 0 <= i < pre.len() implies match #[trigger] pre[i] {
            Op::Insert(k2, _) => !run(Map::<u64, V>::empty(), pre.take(i)).contains_key(k2),
            Op::Remove(_) => true,
        } by {
            assert(pre[i] == ops[i]);
            assert(pre.take(i) =~= ops.take(i));
        }
        law_lookup_tracks_ops(pre, k);
        let n = (ops.len() - 1) as int;
        assert(ops.take(n) =~= pre);
        assert(ops[n] == ops.last());
    }
}

} // verus!
