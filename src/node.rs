//! Leaf and interior records of the tree, the child handle that owns either,
//! and the in-order view of a subtree.
use vstd::prelude::*;
use crate::slab::{SlabAllocator, SlabBox};

verus! {

/// Branching parameter: a non-root record holds between `B - 1` and
/// `2 * B - 1` entries.
pub const B: usize = 10;

/// Fewest entries a non-root record holds.
pub const MIN_NUM_ELEMENTS: usize = B - 1;

/// Most entries a record holds.
pub const MAX_NUM_ELEMENTS: usize = 2 * B - 1;

/// One key and the value stored under it.
pub struct KVPair<V> {
    pub key: u64,
    pub value: V,
}

impl<V> KVPair<V> {
    pub fn new(key: u64, value: V) -> (r: Self)
        ensures
            r.key == key,
            r.value == value,
    {
        KVPair { key, value }
    }
}

/// A bottom record: entries only.
pub struct Leaf<V> {
    pub entries: Vec<KVPair<V>>,
}

/// An interior record: entry `i` separates `children[i]` from
/// `children[i + 1]`.
pub struct Node<V> {
    pub entries: Vec<KVPair<V>>,
    pub children: Vec<ChildUnion<V>>,
}

/// Owner of one child record. Children at height 1 are leaves, all others
/// are interior records.
pub enum ChildUnion<V> {
    Node(SlabBox<Node<V>>),
    Leaf(SlabBox<Leaf<V>>),
}

impl<V> Leaf<V> {
    /// Takes a slot from `alloc` for an empty leaf.
    pub fn new(alloc: &mut SlabAllocator<Leaf<V>>) -> (r: SlabBox<Leaf<V>>)
        requires
            old(alloc).wf(),
            old(alloc).free_slots() > 0,
        ensures
            old(alloc).took_one(final(alloc)),
            r.value().entries@ == Seq::<KVPair<V>>::empty(),
    {
        SlabBox::new(alloc, Leaf { entries: Vec::new() })
    }

    pub fn len(&self) -> (r: usize)
        ensures
            r == self.entries@.len(),
    {
        self.entries.len()
    }

    /// Puts `kv` in place of entry `idx` and returns the entry it replaced.
    pub fn replace(&mut self, idx: usize, kv: KVPair<V>) -> (r: KVPair<V>)
        requires
            idx < old(self).entries@.len(),
        ensures
            r == old(self).entries@[idx as int],
            final(self).entries@ == old(self).entries@.update(idx as int, kv),
    {
        let r = self.entries.remove(idx);
        self.entries.insert(idx, kv);
        assert(self.entries@ =~= old(self).entries@.update(idx as int, kv));
        r
    }

    /// The key of entry `idx` and mutable access to its value.
    pub fn entry_mut(&mut self, idx: usize) -> (r: (&u64, &mut V))
        requires
            idx < old(self).entries@.len(),
        ensures
            *r.0 == old(self).entries@[idx as int].key,
            *r.1 == old(self).entries@[idx as int].value,
            final(self).entries@ == old(self).entries@.update(
                idx as int,
                KVPair { key: old(self).entries@[idx as int].key, value: *final(r.1) },
            ),
    {
        let e = &mut self.entries[idx];
        (&e.key, &mut e.value)
    }

    /// Appends `kv`.
    pub fn push(&mut self, kv: KVPair<V>)
        ensures
            final(self).entries@ == old(self).entries@.push(kv),
    {
        self.entries.push(kv);
    }

    /// Prepends `kv`.
    pub fn unshift(&mut self, kv: KVPair<V>)
        ensures
            final(self).entries@ == seq![kv] + old(self).entries@,
    {
        self.entries.insert(0, kv);
        assert(final(self).entries@ =~= seq![kv] + old(self).entries@);
    }

    /// Inserts `kv` at `idx`; a full leaf evicts its last entry and returns
    /// it.
    pub fn insert(&mut self, idx: usize, kv: KVPair<V>) -> (r: Option<KVPair<V>>)
        requires
            idx <= old(self).entries@.len() <= MAX_NUM_ELEMENTS,
        ensures
            ({
                let e = old(self).entries@.insert(idx as int, kv);
                if old(self).entries@.len() == MAX_NUM_ELEMENTS {
                    final(self).entries@ == e.drop_last() && r == Some(e.last())
                } else {
                    final(self).entries@ == e && r is None
                }
            }),
    {
        let ghost e = old(self).entries@.insert(idx as int, kv);
        if idx == MAX_NUM_ELEMENTS {
            assert(e.drop_last() =~= old(self).entries@);
            return Some(kv);
        }
        let overflow = if self.entries.len() == MAX_NUM_ELEMENTS {
            self.entries.pop()
        } else {
            None
        };
        self.entries.insert(idx, kv);
        assert(old(self).entries@.len() == MAX_NUM_ELEMENTS ==> self.entries@ =~= e.drop_last());
        overflow
    }

    /// On a full leaf: inserts `kv` at `idx` and hands out the first entry of
    /// the result.
    pub fn insert_overflow_left(&mut self, idx: usize, kv: KVPair<V>) -> (r: KVPair<V>)
        requires
            old(self).entries@.len() == MAX_NUM_ELEMENTS,
            idx <= MAX_NUM_ELEMENTS,
        ensures
            ({
                let e = old(self).entries@.insert(idx as int, kv);
                r == e[0] && final(self).entries@ == e.skip(1)
            }),
    {
        let ghost e = old(self).entries@.insert(idx as int, kv);
        if idx == 0 {
            assert(e.skip(1) =~= old(self).entries@);
            kv
        } else {
            let overflow = self.entries.remove(0);
            self.entries.insert(idx - 1, kv);
            assert(self.entries@ =~= e.skip(1));
            overflow
        }
    }

    /// On a full leaf: inserts `kv` at `idx` and splits the result around
    /// entry `B`, which is handed out with a new right sibling holding the
    /// entries after it.
    pub fn insert_split(&mut self, alloc: &mut SlabAllocator<Leaf<V>>, idx: usize, kv: KVPair<V>) -> (r: (KVPair<V>, SlabBox<Leaf<V>>))
        requires
            old(self).entries@.len() == MAX_NUM_ELEMENTS,
            idx <= MAX_NUM_ELEMENTS,
            old(alloc).wf(),
            old(alloc).free_slots() > 0,
        ensures
            old(alloc).took_one(final(alloc)),
            ({
                let e = old(self).entries@.insert(idx as int, kv);
                &&& final(self).entries@ == e.take(B as int)
                &&& r.0 == e[B as int]
                &&& r.1.value().entries@ == e.skip(B as int + 1)
            }),
    {
        let ghost e = old(self).entries@.insert(idx as int, kv);
        let mut right = Leaf::new(alloc);
        if idx < B {
            let mut moved = self.entries.split_off(B);
            let sep = self.entries.pop().unwrap();
            self.entries.insert(idx, kv);
            right.as_mut().entries.append(&mut moved);
            assert(self.entries@ =~= e.take(B as int));
            assert(right.value().entries@ =~= e.skip(B as int + 1));
            (sep, right)
        } else if idx == B {
            let mut moved = self.entries.split_off(B);
            right.as_mut().entries.append(&mut moved);
            assert(self.entries@ =~= e.take(B as int));
            assert(right.value().entries@ =~= e.skip(B as int + 1));
            (kv, right)
        } else {
            let mut moved = self.entries.split_off(B + 1);
            let sep = self.entries.pop().unwrap();
            moved.insert(idx - B - 1, kv);
            right.as_mut().entries.append(&mut moved);
            assert(self.entries@ =~= e.take(B as int));
            assert(right.value().entries@ =~= e.skip(B as int + 1));
            (sep, right)
        }
    }

    /// Removes and returns the last entry.
    pub fn pop(&mut self) -> (r: KVPair<V>)
        requires
            old(self).entries@.len() > 0,
        ensures
            r == old(self).entries@.last(),
            final(self).entries@ == old(self).entries@.drop_last(),
    {
        self.entries.pop().unwrap()
    }

    /// Removes and returns the first entry.
    pub fn shift(&mut self) -> (r: KVPair<V>)
        requires
            old(self).entries@.len() > 0,
        ensures
            r == old(self).entries@[0],
            final(self).entries@ == old(self).entries@.skip(1),
    {
        let r = self.entries.remove(0);
        assert(self.entries@ =~= old(self).entries@.skip(1));
        r
    }

    /// Removes and returns entry `idx`.
    pub fn remove(&mut self, idx: usize) -> (r: KVPair<V>)
        requires
            idx < old(self).entries@.len(),
        ensures
            r == old(self).entries@[idx as int],
            final(self).entries@ == old(self).entries@.remove(idx as int),
    {
        self.entries.remove(idx)
    }

    /// Appends `sep` and then the entries of `right`, and gives the slot of
    /// `right` back to `alloc`.
    pub fn merge(&mut self, alloc: &mut SlabAllocator<Leaf<V>>, sep: KVPair<V>, right: SlabBox<Leaf<V>>)
        requires
            old(alloc).wf(),
            old(alloc).in_use() > 0,
        ensures
            old(alloc).gave_back_one(final(alloc)),
            final(self).entries@ == old(self).entries@.push(sep) + right.value().entries@,
    {
        let mut r = right.free_move(alloc);
        self.entries.push(sep);
        self.entries.append(&mut r.entries);
    }
}

impl<V> Node<V> {
    /// Takes a slot from `alloc` for a record with the one entry `kv` between
    /// `lchild` and `rchild`.
    pub fn new(alloc: &mut SlabAllocator<Node<V>>, kv: KVPair<V>, lchild: ChildUnion<V>, rchild: ChildUnion<V>) -> (r: SlabBox<Node<V>>)
        requires
            old(alloc).wf(),
            old(alloc).free_slots() > 0,
        ensures
            old(alloc).took_one(final(alloc)),
            r.value().entries@ == seq![kv],
            r.value().children@ == seq![lchild, rchild],
    {
        let mut entries = Vec::new();
        entries.push(kv);
        let mut children = Vec::new();
        children.push(lchild);
        children.push(rchild);
        assert(children@ =~= seq![lchild, rchild]);
        assert(entries@ =~= seq![kv]);
        SlabBox::new(alloc, Node { entries, children })
    }

    pub fn len(&self) -> (r: usize)
        ensures
            r == self.entries@.len(),
    {
        self.entries.len()
    }

    /// Puts `kv` in place of entry `idx` and returns the entry it replaced.
    pub fn replace(&mut self, idx: usize, kv: KVPair<V>) -> (r: KVPair<V>)
        requires
            idx < old(self).entries@.len(),
        ensures
            r == old(self).entries@[idx as int],
            final(self).entries@ == old(self).entries@.update(idx as int, kv),
            final(self).children@ == old(self).children@,
    {
        let r = self.entries.remove(idx);
        self.entries.insert(idx, kv);
        assert(self.entries@ =~= old(self).entries@.update(idx as int, kv));
        r
    }

    /// The key of entry `idx` and mutable access to its value.
    pub fn entry_mut(&mut self, idx: usize) -> (r: (&u64, &mut V))
        requires
            idx < old(self).entries@.len(),
        ensures
            *r.0 == old(self).entries@[idx as int].key,
            *r.1 == old(self).entries@[idx as int].value,
            final(self).entries@ == old(self).entries@.update(
                idx as int,
                KVPair { key: old(self).entries@[idx as int].key, value: *final(r.1) },
            ),
            final(self).children@ == old(self).children@,
    {
        let e = &mut self.entries[idx];
        (&e.key, &mut e.value)
    }

    /// Mutable access to child `idx`.
    pub fn child_mut(&mut self, idx: usize) -> (r: &mut ChildUnion<V>)
        requires
            idx < old(self).children@.len(),
        ensures
            *r == old(self).children@[idx as int],
            final(self).children@ == old(self).children@.update(idx as int, *final(r)),
            final(self).entries@ == old(self).entries@,
    {
        &mut self.children[idx]
    }

    /// Appends `kv` with `rchild` after it.
    pub fn push(&mut self, kv: KVPair<V>, rchild: ChildUnion<V>)
        ensures
            final(self).entries@ == old(self).entries@.push(kv),
            final(self).children@ == old(self).children@.push(rchild),
    {
        self.entries.push(kv);
        self.children.push(rchild);
    }

    /// Prepends `kv` with `lchild` before it.
    pub fn unshift(&mut self, kv: KVPair<V>, lchild: ChildUnion<V>)
        ensures
            final(self).entries@ == seq![kv] + old(self).entries@,
            final(self).children@ == seq![lchild] + old(self).children@,
    {
        self.entries.insert(0, kv);
        self.children.insert(0, lchild);
        assert(self.entries@ =~= seq![kv] + old(self).entries@);
        assert(self.children@ =~= seq![lchild] + old(self).children@);
    }

    /// Inserts `kv` at `idx` with `rchild` after it; a full record evicts its
    /// last entry and last child and returns them.
    pub fn insert(&mut self, idx: usize, kv: KVPair<V>, rchild: ChildUnion<V>) -> (r: Option<(KVPair<V>, ChildUnion<V>)>)
        requires
            idx <= old(self).entries@.len() <= MAX_NUM_ELEMENTS,
            old(self).children@.len() == old(self).entries@.len() + 1,
        ensures
            ({
                let e = old(self).entries@.insert(idx as int, kv);
                let c = old(self).children@.insert(idx as int + 1, rchild);
                if old(self).entries@.len() == MAX_NUM_ELEMENTS {
                    &&& final(self).entries@ == e.drop_last()
                    &&& final(self).children@ == c.drop_last()
                    &&& r == Some((e.last(), c.last()))
                } else {
                    final(self).entries@ == e && final(self).children@ == c && r is None
                }
            }),
    {
        let ghost e = old(self).entries@.insert(idx as int, kv);
        let ghost c = old(self).children@.insert(idx as int + 1, rchild);
        if idx == MAX_NUM_ELEMENTS {
            assert(e.drop_last() =~= old(self).entries@);
            assert(c.drop_last() =~= old(self).children@);
            return Some((kv, rchild));
        }
        let overflow = if self.entries.len() == MAX_NUM_ELEMENTS {
            let k = self.entries.pop().unwrap();
            let ch = self.children.pop().unwrap();
            Some((k, ch))
        } else {
            None
        };
        self.entries.insert(idx, kv);
        self.children.insert(idx + 1, rchild);
        assert(old(self).entries@.len() == MAX_NUM_ELEMENTS ==> self.entries@ =~= e.drop_last());
        assert(old(self).entries@.len() == MAX_NUM_ELEMENTS ==> self.children@ =~= c.drop_last());
        overflow
    }

    /// On a full record: inserts `kv` at `idx` with `rchild` after it and
    /// hands out the first entry and first child of the result.
    pub fn insert_overflow_left(&mut self, idx: usize, kv: KVPair<V>, rchild: ChildUnion<V>) -> (r: (KVPair<V>, ChildUnion<V>))
        requires
            old(self).entries@.len() == MAX_NUM_ELEMENTS,
            old(self).children@.len() == MAX_NUM_ELEMENTS + 1,
            idx <= MAX_NUM_ELEMENTS,
        ensures
            ({
                let e = old(self).entries@.insert(idx as int, kv);
                let c = old(self).children@.insert(idx as int + 1, rchild);
                &&& r == (e[0], c[0])
                &&& final(self).entries@ == e.skip(1)
                &&& final(self).children@ == c.skip(1)
            }),
    {
        let ghost e = old(self).entries@.insert(idx as int, kv);
        let ghost c = old(self).children@.insert(idx as int + 1, rchild);
        if idx == 0 {
            let first = self.children.remove(0);
            self.children.insert(0, rchild);
            assert(self.entries@ =~= e.skip(1));
            assert(self.children@ =~= c.skip(1));
            (kv, first)
        } else {
            let k = self.entries.remove(0);
            let ch = self.children.remove(0);
            self.entries.insert(idx - 1, kv);
            self.children.insert(idx, rchild);
            assert(self.entries@ =~= e.skip(1));
            assert(self.children@ =~= c.skip(1));
            (k, ch)
        }
    }

    /// On a full record: inserts `kv` at `idx` with `rchild` after it and
    /// splits the result around entry `B`, which is handed out with a new
    /// right sibling holding the entries and children after it.
    pub fn insert_split(&mut self, alloc: &mut SlabAllocator<Node<V>>, idx: usize, kv: KVPair<V>, rchild: ChildUnion<V>) -> (r: (KVPair<V>, SlabBox<Node<V>>))
        requires
            old(self).entries@.len() == MAX_NUM_ELEMENTS,
            old(self).children@.len() == MAX_NUM_ELEMENTS + 1,
            idx <= MAX_NUM_ELEMENTS,
            old(alloc).wf(),
            old(alloc).free_slots() > 0,
        ensures
            old(alloc).took_one(final(alloc)),
            ({
                let e = old(self).entries@.insert(idx as int, kv);
                let c = old(self).children@.insert(idx as int + 1, rchild);
                &&& final(self).entries@ == e.take(B as int)
                &&& final(self).children@ == c.take(B as int + 1)
                &&& r.0 == e[B as int]
                &&& r.1.value().entries@ == e.skip(B as int + 1)
                &&& r.1.value().children@ == c.skip(B as int + 1)
            }),
    {
        let ghost e = old(self).entries@.insert(idx as int, kv);
        let ghost c = old(self).children@.insert(idx as int + 1, rchild);
        if idx < B {
            let right_entries = self.entries.split_off(B);
            let right_children = self.children.split_off(B);
            let sep = self.entries.pop().unwrap();
            self.entries.insert(idx, kv);
            self.children.insert(idx + 1, rchild);
            let right = SlabBox::new(alloc, Node { entries: right_entries, children: right_children });
            assert(self.entries@ =~= e.take(B as int));
            assert(self.children@ =~= c.take(B as int + 1));
            assert(right.value().entries@ =~= e.skip(B as int + 1));
            assert(right.value().children@ =~= c.skip(B as int + 1));
            (sep, right)
        } else if idx == B {
            let right_entries = self.entries.split_off(B);
            let mut right_children = self.children.split_off(B + 1);
            right_children.insert(0, rchild);
            let right = SlabBox::new(alloc, Node { entries: right_entries, children: right_children });
            assert(self.entries@ =~= e.take(B as int));
            assert(self.children@ =~= c.take(B as int + 1));
            assert(right.value().entries@ =~= e.skip(B as int + 1));
            assert(right.value().children@ =~= c.skip(B as int + 1));
            (kv, right)
        } else {
            let mut right_entries = self.entries.split_off(B + 1);
            let mut right_children = self.children.split_off(B + 1);
            let sep = self.entries.pop().unwrap();
            right_entries.insert(idx - B - 1, kv);
            right_children.insert(idx - B, rchild);
            let right = SlabBox::new(alloc, Node { entries: right_entries, children: right_children });
            assert(self.entries@ =~= e.take(B as int));
            assert(self.children@ =~= c.take(B as int + 1));
            assert(right.value().entries@ =~= e.skip(B as int + 1));
            assert(right.value().children@ =~= c.skip(B as int + 1));
            (sep, right)
        }
    }

    /// Removes and returns the last entry and the last child.
    pub fn pop(&mut self) -> (r: (KVPair<V>, ChildUnion<V>))
        requires
            old(self).entries@.len() > 0,
            old(self).children@.len() == old(self).entries@.len() + 1,
        ensures
            r == (old(self).entries@.last(), old(self).children@.last()),
            final(self).entries@ == old(self).entries@.drop_last(),
            final(self).children@ == old(self).children@.drop_last(),
    {
        let k = self.entries.pop().unwrap();
        let c = self.children.pop().unwrap();
        (k, c)
    }

    /// Removes and returns the first entry and the first child.
    pub fn shift(&mut self) -> (r: (KVPair<V>, ChildUnion<V>))
        requires
            old(self).entries@.len() > 0,
            old(self).children@.len() == old(self).entries@.len() + 1,
        ensures
            r == (old(self).entries@[0], old(self).children@[0]),
            final(self).entries@ == old(self).entries@.skip(1),
            final(self).children@ == old(self).children@.skip(1),
    {
        let k = self.entries.remove(0);
        let c = self.children.remove(0);
        assert(self.entries@ =~= old(self).entries@.skip(1));
        assert(self.children@ =~= old(self).children@.skip(1));
        (k, c)
    }

    /// Removes and returns entry `idx` and the child after it.
    pub fn remove(&mut self, idx: usize) -> (r: (KVPair<V>, ChildUnion<V>))
        requires
            idx < old(self).entries@.len() <= MAX_NUM_ELEMENTS,
            old(self).children@.len() == old(self).entries@.len() + 1,
        ensures
            r == (old(self).entries@[idx as int], old(self).children@[idx + 1]),
            final(self).entries@ == old(self).entries@.remove(idx as int),
            final(self).children@ == old(self).children@.remove(idx + 1),
    {
        let k = self.entries.remove(idx);
        let c = self.children.remove(idx + 1);
        (k, c)
    }

    /// Appends `sep` and then the entries and children of `right`, and gives
    /// the slot of `right` back to `alloc`.
    pub fn merge(&mut self, alloc: &mut SlabAllocator<Node<V>>, sep: KVPair<V>, right: SlabBox<Node<V>>)
        requires
            old(alloc).wf(),
            old(alloc).in_use() > 0,
        ensures
            old(alloc).gave_back_one(final(alloc)),
            final(self).entries@ == old(self).entries@.push(sep) + right.value().entries@,
            final(self).children@ == old(self).children@ + right.value().children@,
    {
        let mut r = right.free_move(alloc);
        self.entries.push(sep);
        self.entries.append(&mut r.entries);
        self.children.append(&mut r.children);
    }
}

/// Keys strictly increase along `s`.
pub open spec fn sorted<V>(s: Seq<KVPair<V>>) -> bool {
    forall|i: int, j: int| 0 <= i < j < s.len() ==> s[i].key < s[j].key
}

impl<V> ChildUnion<V> {
    /// Entries of the record this handle owns.
    pub open spec fn entries(self) -> Seq<KVPair<V>> {
        match self {
            ChildUnion::Node(b) => b.value().entries@,
            ChildUnion::Leaf(b) => b.value().entries@,
        }
    }

    /// Children of the record this handle owns; none for a leaf.
    pub open spec fn kids(self) -> Seq<ChildUnion<V>> {
        match self {
            ChildUnion::Node(b) => b.value().children@,
            ChildUnion::Leaf(b) => Seq::empty(),
        }
    }
}

/// In-order entries of the subtree of height `h` owned by `c`.
pub open spec fn seq_of<V>(c: ChildUnion<V>, h: nat) -> Seq<KVPair<V>>
    decreases h, 0nat, 0nat,
{
    if h <= 1 {
        c.entries()
    } else {
        flat(c.entries(), c.kids(), (h - 1) as nat)
    }
}

/// In-order entries of a record with entries `es` and children `cs` of
/// height `hc`.
pub open spec fn flat<V>(es: Seq<KVPair<V>>, cs: Seq<ChildUnion<V>>, hc: nat) -> Seq<KVPair<V>>
    decreases hc, 1nat, es.len(),
{
    if es.len() == 0 {
        seq_of(cs[0], hc)
    } else {
        flat(es.drop_last(), cs.drop_last(), hc) + seq![es.last()] + seq_of(cs.last(), hc)
    }
}

/// Number of leaves of the subtree of height `h` owned by `c`.
pub open spec fn leaves<V>(c: ChildUnion<V>, h: nat) -> nat
    decreases h, 0nat, 0nat,
{
    if h <= 1 {
        1
    } else {
        leaves_in(c.kids(), (h - 1) as nat)
    }
}

/// Number of leaves under the children `cs` of height `hc`.
pub open spec fn leaves_in<V>(cs: Seq<ChildUnion<V>>, hc: nat) -> nat
    decreases hc, 1nat, cs.len(),
{
    if cs.len() == 0 {
        0
    } else {
        leaves_in(cs.drop_last(), hc) + leaves(cs.last(), hc)
    }
}

/// Number of interior records of the subtree of height `h` owned by `c`.
pub open spec fn nodes<V>(c: ChildUnion<V>, h: nat) -> nat
    decreases h, 0nat, 0nat,
{
    if h <= 1 {
        0
    } else {
        1 + nodes_in(c.kids(), (h - 1) as nat)
    }
}

/// Number of interior records under the children `cs` of height `hc`.
pub open spec fn nodes_in<V>(cs: Seq<ChildUnion<V>>, hc: nat) -> nat
    decreases hc, 1nat, cs.len(),
{
    if cs.len() == 0 {
        0
    } else {
        nodes_in(cs.drop_last(), hc) + nodes(cs.last(), hc)
    }
}

/// The subtree of height `h` owned by `c` has leaves exactly at the bottom,
/// one more child than entries in each interior record, at most
/// `MAX_NUM_ELEMENTS` entries in its own record and between the two bounds
/// in every record below it. Its own record may hold fewer than
/// `MIN_NUM_ELEMENTS`.
pub open spec fn wf_tree<V>(c: ChildUnion<V>, h: nat) -> bool
    decreases h,
{
    &&& h >= 1
    &&& c.entries().len() <= MAX_NUM_ELEMENTS
    &&& if h == 1 {
        c is Leaf
    } else {
        &&& c is Node
        &&& c.kids().len() == c.entries().len() + 1
        &&& forall|j: int|
            0 <= j < c.kids().len() ==> {
                &&& wf_tree(#[trigger] c.kids()[j], (h - 1) as nat)
                &&& MIN_NUM_ELEMENTS <= c.kids()[j].entries().len()
            }
    }
}

/// Every child in `cs` is a well-formed subtree of height `hc` whose own
/// record holds at least `MIN_NUM_ELEMENTS` entries.
pub open spec fn wf_children<V>(cs: Seq<ChildUnion<V>>, hc: nat) -> bool {
    forall|j: int|
        0 <= j < cs.len() ==> {
            &&& wf_tree(#[trigger] cs[j], hc)
            &&& MIN_NUM_ELEMENTS <= cs[j].entries().len()
        }
}

/// Splitting the entries of a record: `flat` of a concatenation is the
/// concatenation of `flat`s around the joining entry, and so are the counts.
pub proof fn lemma_flat_concat<V>(
    es1: Seq<KVPair<V>>,
    e: KVPair<V>,
    es2: Seq<KVPair<V>>,
    cs1: Seq<ChildUnion<V>>,
    cs2: Seq<ChildUnion<V>>,
    hc: nat,
)
    requires
        cs1.len() == es1.len() + 1,
        cs2.len() == es2.len() + 1,
    ensures
        flat(es1.push(e) + es2, cs1 + cs2, hc) == flat(es1, cs1, hc) + seq![e] + flat(es2, cs2, hc),
        leaves_in(cs1 + cs2, hc) == leaves_in(cs1, hc) + leaves_in(cs2, hc),
        nodes_in(cs1 + cs2, hc) == nodes_in(cs1, hc) + nodes_in(cs2, hc),
    decreases es2.len(),
{
    if es2.len() == 0 {
        let c = cs2[0];
        assert(es1.push(e) + es2 =~= es1.push(e));
        assert(cs1 + cs2 =~= cs1.push(c));
        assert(es1.push(e).drop_last() =~= es1);
        assert(cs1.push(c).drop_last() =~= cs1);
        assert(cs2.drop_last() =~= Seq::<ChildUnion<V>>::empty());
        assert(flat(es1.push(e), cs1.push(c), hc) == flat(es1, cs1, hc) + seq![e] + seq_of(c, hc));
        lemma_flat_single(c, hc);
        assert(cs2 =~= seq![c]);
    } else {
        let es2p = es2.drop_last();
        let cs2p = cs2.drop_last();
        lemma_flat_concat(es1, e, es2p, cs1, cs2p, hc);
        assert((es1.push(e) + es2).drop_last() =~= es1.push(e) + es2p);
        assert((cs1 + cs2).drop_last() =~= cs1 + cs2p);
        assert((es1.push(e) + es2).last() == es2.last());
        assert((cs1 + cs2).last() == cs2.last());
        assert(leaves_in(cs1 + cs2, hc) == leaves_in(cs1 + cs2p, hc) + leaves(cs2.last(), hc));
        assert(nodes_in(cs1 + cs2, hc) == nodes_in(cs1 + cs2p, hc) + nodes(cs2.last(), hc));
        assert(leaves_in(cs2, hc) == leaves_in(cs2p, hc) + leaves(cs2.last(), hc));
        assert(nodes_in(cs2, hc) == nodes_in(cs2p, hc) + nodes(cs2.last(), hc));
        assert(flat(es1.push(e) + es2, cs1 + cs2, hc) == flat(es1.push(e) + es2p, cs1 + cs2p, hc)
            + seq![es2.last()] + seq_of(cs2.last(), hc));
        assert(flat(es2, cs2, hc) == flat(es2p, cs2p, hc) + seq![es2.last()] + seq_of(
            cs2.last(),
            hc,
        ));
        assert(flat(es1.push(e) + es2, cs1 + cs2, hc) =~= flat(es1, cs1, hc) + seq![e] + flat(
            es2,
            cs2,
            hc,
        ));
    }
}

/// A record with no entries and one child has that child's entries.
pub proof fn lemma_flat_single<V>(c: ChildUnion<V>, hc: nat)
    ensures
        flat(Seq::<KVPair<V>>::empty(), seq![c], hc) == seq_of(c, hc),
        leaves_in(seq![c], hc) == leaves(c, hc),
        nodes_in(seq![c], hc) == nodes(c, hc),
{
    assert(seq![c].drop_last() =~= Seq::<ChildUnion<V>>::empty());
    assert(seq![c].last() == c);
    assert(leaves_in(Seq::<ChildUnion<V>>::empty(), hc) == 0);
    assert(nodes_in(Seq::<ChildUnion<V>>::empty(), hc) == 0);
    assert(leaves_in(seq![c], hc) == leaves_in(seq![c].drop_last(), hc) + leaves(c, hc));
    assert(nodes_in(seq![c], hc) == nodes_in(seq![c].drop_last(), hc) + nodes(c, hc));
}

/// Entries of an optional child of height `hc`; none when absent.
pub open spec fn opt_seq<V>(o: Option<ChildUnion<V>>, hc: nat) -> Seq<KVPair<V>> {
    match o {
        Some(c) => seq_of(c, hc),
        None => Seq::empty(),
    }
}

pub open spec fn opt_leaves<V>(o: Option<ChildUnion<V>>, hc: nat) -> nat {
    match o {
        Some(c) => leaves(c, hc),
        None => 0,
    }
}

pub open spec fn opt_nodes<V>(o: Option<ChildUnion<V>>, hc: nat) -> nat {
    match o {
        Some(c) => nodes(c, hc),
        None => 0,
    }
}

/// `o` is what travels with an entry moved in or out of a record of height
/// `h`: nothing for a leaf, a full-sized subtree of height `h - 1` otherwise.
pub open spec fn fits_below<V>(o: Option<ChildUnion<V>>, h: nat) -> bool {
    if h <= 1 {
        o is None
    } else {
        &&& o is Some
        &&& wf_tree(o.unwrap(), (h - 1) as nat)
        &&& MIN_NUM_ELEMENTS <= o.unwrap().entries().len()
    }
}

/// Entries of the subtree `c` of height `h` once `kv` is inserted at entry
/// `idx` of its record, with `o` as the child after it.
pub open spec fn pending_seq<V>(c: ChildUnion<V>, h: nat, idx: nat, kv: KVPair<V>, o: Option<ChildUnion<V>>) -> Seq<KVPair<V>> {
    if h <= 1 {
        c.entries().insert(idx as int, kv)
    } else {
        flat(c.entries().insert(idx as int, kv), c.kids().insert(idx as int + 1, o.unwrap()), (h - 1) as nat)
    }
}

/// Counting children over a concatenation.
pub proof fn lemma_counts_concat<V>(cs1: Seq<ChildUnion<V>>, cs2: Seq<ChildUnion<V>>, hc: nat)
    ensures
        leaves_in(cs1 + cs2, hc) == leaves_in(cs1, hc) + leaves_in(cs2, hc),
        nodes_in(cs1 + cs2, hc) == nodes_in(cs1, hc) + nodes_in(cs2, hc),
    decreases cs2.len(),
{
    if cs2.len() == 0 {
        assert(cs1 + cs2 =~= cs1);
    } else {
        lemma_counts_concat(cs1, cs2.drop_last(), hc);
        assert((cs1 + cs2).drop_last() =~= cs1 + cs2.drop_last());
        assert((cs1 + cs2).last() == cs2.last());
    }
}

/// Inserting one child adds its counts.
pub proof fn lemma_counts_insert<V>(cs: Seq<ChildUnion<V>>, k: int, c: ChildUnion<V>, hc: nat)
    requires
        0 <= k <= cs.len(),
    ensures
        leaves_in(cs.insert(k, c), hc) == leaves_in(cs, hc) + leaves(c, hc),
        nodes_in(cs.insert(k, c), hc) == nodes_in(cs, hc) + nodes(c, hc),
{
    lemma_counts_concat(cs.take(k), cs.skip(k), hc);
    lemma_counts_concat(cs.take(k).push(c), cs.skip(k), hc);
    lemma_counts_concat(cs.take(k), seq![c], hc);
    lemma_flat_single(c, hc);
    assert(cs.take(k) + cs.skip(k) =~= cs);
    assert(cs.take(k).push(c) + cs.skip(k) =~= cs.insert(k, c));
    assert(cs.take(k) + seq![c] =~= cs.take(k).push(c));
}

/// A record with one entry between two children.
pub proof fn lemma_flat_pair<V>(e: KVPair<V>, c1: ChildUnion<V>, c2: ChildUnion<V>, hc: nat)
    ensures
        flat(seq![e], seq![c1, c2], hc) == seq_of(c1, hc) + seq![e] + seq_of(c2, hc),
        leaves_in(seq![c1, c2], hc) == leaves(c1, hc) + leaves(c2, hc),
        nodes_in(seq![c1, c2], hc) == nodes(c1, hc) + nodes(c2, hc),
{
    lemma_flat_concat(Seq::empty(), e, Seq::empty(), seq![c1], seq![c2], hc);
    lemma_flat_single(c1, hc);
    lemma_flat_single(c2, hc);
    assert(Seq::<KVPair<V>>::empty().push(e) + Seq::<KVPair<V>>::empty() =~= seq![e]);
    assert(seq![c1] + seq![c2] =~= seq![c1, c2]);
}

/// Peeling the first entry and child off a record.
pub proof fn lemma_flat_front<V>(es: Seq<KVPair<V>>, cs: Seq<ChildUnion<V>>, hc: nat)
    requires
        es.len() > 0,
        cs.len() == es.len() + 1,
    ensures
        flat(es, cs, hc) == seq_of(cs[0], hc) + seq![es[0]] + flat(es.skip(1), cs.skip(1), hc),
        leaves_in(cs, hc) == leaves(cs[0], hc) + leaves_in(cs.skip(1), hc),
        nodes_in(cs, hc) == nodes(cs[0], hc) + nodes_in(cs.skip(1), hc),
{
    lemma_flat_concat(Seq::empty(), es[0], es.skip(1), seq![cs[0]], cs.skip(1), hc);
    lemma_flat_single(cs[0], hc);
    assert(Seq::<KVPair<V>>::empty().push(es[0]) + es.skip(1) =~= es);
    assert(seq![cs[0]] + cs.skip(1) =~= cs);
}

/// Peeling the last entry and child off a record.
pub proof fn lemma_flat_back<V>(es: Seq<KVPair<V>>, cs: Seq<ChildUnion<V>>, hc: nat)
    requires
        es.len() > 0,
        cs.len() == es.len() + 1,
    ensures
        flat(es, cs, hc) == flat(es.drop_last(), cs.drop_last(), hc) + seq![es.last()] + seq_of(cs.last(), hc),
        leaves_in(cs, hc) == leaves_in(cs.drop_last(), hc) + leaves(cs.last(), hc),
        nodes_in(cs, hc) == nodes_in(cs.drop_last(), hc) + nodes(cs.last(), hc),
{
}

impl<V> ChildUnion<V> {
    /// Number of entries of the owned record.
    pub fn len(&self) -> (r: usize)
        requires
            self.entries().len() <= MAX_NUM_ELEMENTS,
        ensures
            r == self.entries().len(),
    {
        match self {
            ChildUnion::Node(b) => b.as_ref().len(),
            ChildUnion::Leaf(b) => b.as_ref().len(),
        }
    }

    /// Appends `kv` and, below a leaf, the child `o` after it.
    pub fn push_back(&mut self, kv: KVPair<V>, o: Option<ChildUnion<V>>, Ghost(h): Ghost<nat>)
        requires
            wf_tree(*old(self), h),
            old(self).entries().len() < MAX_NUM_ELEMENTS,
            fits_below(o, h),
        ensures
            wf_tree(*final(self), h),
            final(self).entries().len() == old(self).entries().len() + 1,
            seq_of(*final(self), h) == seq_of(*old(self), h) + seq![kv] + opt_seq(o, (h - 1) as nat),
            leaves(*final(self), h) == leaves(*old(self), h) + opt_leaves(o, (h - 1) as nat),
            nodes(*final(self), h) == nodes(*old(self), h) + opt_nodes(o, (h - 1) as nat),
    {
        match self {
            ChildUnion::Node(b) => {
                let ghost es = b.value().entries@;
                let ghost cs = b.value().children@;
                b.as_mut().push(kv, o.unwrap());
                proof {
                    lemma_flat_back(es.push(kv), cs.push(o.unwrap()), (h - 1) as nat);
                    assert(es.push(kv).drop_last() =~= es);
                    assert(cs.push(o.unwrap()).drop_last() =~= cs);
                }
            },
            ChildUnion::Leaf(b) => {
                b.as_mut().push(kv);
            },
        }
    }

    /// Prepends `kv` and, below a leaf, the child `o` before it.
    pub fn push_front(&mut self, kv: KVPair<V>, o: Option<ChildUnion<V>>, Ghost(h): Ghost<nat>)
        requires
            wf_tree(*old(self), h),
            old(self).entries().len() < MAX_NUM_ELEMENTS,
            fits_below(o, h),
        ensures
            wf_tree(*final(self), h),
            final(self).entries().len() == old(self).entries().len() + 1,
            seq_of(*final(self), h) == opt_seq(o, (h - 1) as nat) + seq![kv] + seq_of(*old(self), h),
            leaves(*final(self), h) == leaves(*old(self), h) + opt_leaves(o, (h - 1) as nat),
            nodes(*final(self), h) == nodes(*old(self), h) + opt_nodes(o, (h - 1) as nat),
    {
        match self {
            ChildUnion::Node(b) => {
                let ghost es = b.value().entries@;
                let ghost cs = b.value().children@;
                b.as_mut().unshift(kv, o.unwrap());
                proof {
                    lemma_flat_front(seq![kv] + es, seq![o.unwrap()] + cs, (h - 1) as nat);
                    assert((seq![kv] + es).skip(1) =~= es);
                    assert((seq![o.unwrap()] + cs).skip(1) =~= cs);
                }
            },
            ChildUnion::Leaf(b) => {
                b.as_mut().unshift(kv);
            },
        }
    }

    /// Removes the last entry and, below a leaf, the child after it.
    pub fn pop_back(&mut self, Ghost(h): Ghost<nat>) -> (r: (KVPair<V>, Option<ChildUnion<V>>))
        requires
            wf_tree(*old(self), h),
            old(self).entries().len() > 0,
        ensures
            wf_tree(*final(self), h),
            fits_below(r.1, h),
            final(self).entries().len() + 1 == old(self).entries().len(),
            r.0 == old(self).entries().last(),
            seq_of(*old(self), h) == seq_of(*final(self), h) + seq![r.0] + opt_seq(r.1, (h - 1) as nat),
            leaves(*old(self), h) == leaves(*final(self), h) + opt_leaves(r.1, (h - 1) as nat),
            nodes(*old(self), h) == nodes(*final(self), h) + opt_nodes(r.1, (h - 1) as nat),
    {
        match self {
            ChildUnion::Node(b) => {
                let ghost es = b.value().entries@;
                let ghost cs = b.value().children@;
                proof {
                    lemma_flat_back(es, cs, (h - 1) as nat);
                    assert(cs.last() == cs[cs.len() - 1]);
                }
                let (kv, c) = b.as_mut().pop();
                (kv, Some(c))
            },
            ChildUnion::Leaf(b) => {
                let kv = b.as_mut().pop();
                (kv, None)
            },
        }
    }

    /// Removes the first entry and, below a leaf, the child before it.
    pub fn pop_front(&mut self, Ghost(h): Ghost<nat>) -> (r: (KVPair<V>, Option<ChildUnion<V>>))
        requires
            wf_tree(*old(self), h),
            old(self).entries().len() > 0,
        ensures
            wf_tree(*final(self), h),
            fits_below(r.1, h),
            final(self).entries().len() + 1 == old(self).entries().len(),
            r.0 == old(self).entries()[0],
            seq_of(*old(self), h) == opt_seq(r.1, (h - 1) as nat) + seq![r.0] + seq_of(*final(self), h),
            leaves(*old(self), h) == leaves(*final(self), h) + opt_leaves(r.1, (h - 1) as nat),
            nodes(*old(self), h) == nodes(*final(self), h) + opt_nodes(r.1, (h - 1) as nat),
    {
        match self {
            ChildUnion::Node(b) => {
                let ghost es = b.value().entries@;
                let ghost cs = b.value().children@;
                proof {
                    lemma_flat_front(es, cs, (h - 1) as nat);
                }
                let (kv, c) = b.as_mut().shift();
                (kv, Some(c))
            },
            ChildUnion::Leaf(b) => {
                let kv = b.as_mut().shift();
                (kv, None)
            },
        }
    }

    /// Inserts `kv` at entry `idx` with `o` after it. A full record evicts
    /// its last entry and last child and returns them.
    pub fn insert_at(&mut self, idx: usize, kv: KVPair<V>, o: Option<ChildUnion<V>>, Ghost(h): Ghost<nat>) -> (r: Option<(KVPair<V>, Option<ChildUnion<V>>)>)
        requires
            wf_tree(*old(self), h),
            idx <= old(self).entries().len(),
            fits_below(o, h),
        ensures
            wf_tree(*final(self), h),
            old(self).entries().len() == MAX_NUM_ELEMENTS ==> {
                &&& r is Some
                &&& fits_below(r.unwrap().1, h)
                &&& final(self).entries().len() == MAX_NUM_ELEMENTS
                &&& pending_seq(*old(self), h, idx as nat, kv, o) == seq_of(*final(self), h) + seq![r.unwrap().0]
                    + opt_seq(r.unwrap().1, (h - 1) as nat)
                &&& leaves(*old(self), h) + opt_leaves(o, (h - 1) as nat) == leaves(*final(self), h)
                    + opt_leaves(r.unwrap().1, (h - 1) as nat)
                &&& nodes(*old(self), h) + opt_nodes(o, (h - 1) as nat) == nodes(*final(self), h)
                    + opt_nodes(r.unwrap().1, (h - 1) as nat)
            },
            old(self).entries().len() < MAX_NUM_ELEMENTS ==> {
                &&& r is None
                &&& final(self).entries().len() == old(self).entries().len() + 1
                &&& seq_of(*final(self), h) == pending_seq(*old(self), h, idx as nat, kv, o)
                &&& leaves(*final(self), h) == leaves(*old(self), h) + opt_leaves(o, (h - 1) as nat)
                &&& nodes(*final(self), h) == nodes(*old(self), h) + opt_nodes(o, (h - 1) as nat)
            },
    {
        match self {
            ChildUnion::Node(b) => {
                let ghost es = b.value().entries@;
                let ghost cs = b.value().children@;
                let ghost e = es.insert(idx as int, kv);
                let ghost c = cs.insert(idx as int + 1, o.unwrap());
                proof {
                    lemma_counts_insert(cs, idx as int + 1, o.unwrap(), (h - 1) as nat);
                    lemma_flat_back(e, c, (h - 1) as nat);
                    assert(forall|j: int| 0 <= j < c.len() ==> #[trigger] c[j] == o.unwrap() || exists|k: int| 0 <= k < cs.len() && c[j] == cs[k]);
                }
                match b.as_mut().insert(idx, kv, o.unwrap()) {
                    Some((k, ch)) => Some((k, Some(ch))),
                    None => None,
                }
            },
            ChildUnion::Leaf(b) => {
                match b.as_mut().insert(idx, kv) {
                    Some(k) => Some((k, None)),
                    None => None,
                }
            },
        }
    }

    /// On a full record: inserts `kv` at entry `idx` with `o` after it and
    /// hands out the first entry and first child of the result.
    pub fn overflow_left(&mut self, idx: usize, kv: KVPair<V>, o: Option<ChildUnion<V>>, Ghost(h): Ghost<nat>) -> (r: (KVPair<V>, Option<ChildUnion<V>>))
        requires
            wf_tree(*old(self), h),
            old(self).entries().len() == MAX_NUM_ELEMENTS,
            idx <= MAX_NUM_ELEMENTS,
            fits_below(o, h),
        ensures
            wf_tree(*final(self), h),
            fits_below(r.1, h),
            final(self).entries().len() == MAX_NUM_ELEMENTS,
            pending_seq(*old(self), h, idx as nat, kv, o) == opt_seq(r.1, (h - 1) as nat) + seq![r.0] + seq_of(*final(self), h),
            leaves(*old(self), h) + opt_leaves(o, (h - 1) as nat) == leaves(*final(self), h) + opt_leaves(r.1, (h - 1) as nat),
            nodes(*old(self), h) + opt_nodes(o, (h - 1) as nat) == nodes(*final(self), h) + opt_nodes(r.1, (h - 1) as nat),
    {
        match self {
            ChildUnion::Node(b) => {
                let ghost es = b.value().entries@;
                let ghost cs = b.value().children@;
                let ghost e = es.insert(idx as int, kv);
                let ghost c = cs.insert(idx as int + 1, o.unwrap());
                proof {
                    lemma_counts_insert(cs, idx as int + 1, o.unwrap(), (h - 1) as nat);
                    lemma_flat_front(e, c, (h - 1) as nat);
                    assert(forall|j: int| 0 <= j < c.len() ==> #[trigger] c[j] == o.unwrap() || exists|k: int| 0 <= k < cs.len() && c[j] == cs[k]);
                }
                let (k, ch) = b.as_mut().insert_overflow_left(idx, kv, o.unwrap());
                (k, Some(ch))
            },
            ChildUnion::Leaf(b) => {
                let k = b.as_mut().insert_overflow_left(idx, kv);
                (k, None)
            },
        }
    }

    /// On a full record: inserts `kv` at entry `idx` with `o` after it and
    /// splits the result around entry `B` into this record, the handed-out
    /// separator and a new right sibling taken from the allocator of its kind.
    pub fn split(
        &mut self,
        idx: usize,
        kv: KVPair<V>,
        o: Option<ChildUnion<V>>,
        leaf_alloc: &mut SlabAllocator<Leaf<V>>,
        node_alloc: &mut SlabAllocator<Node<V>>,
        Ghost(h): Ghost<nat>,
    ) -> (r: (KVPair<V>, ChildUnion<V>))
        requires
            wf_tree(*old(self), h),
            old(self).entries().len() == MAX_NUM_ELEMENTS,
            idx <= MAX_NUM_ELEMENTS,
            fits_below(o, h),
            old(leaf_alloc).wf(),
            old(node_alloc).wf(),
            h == 1 ==> old(leaf_alloc).free_slots() > 0,
            h > 1 ==> old(node_alloc).free_slots() > 0,
        ensures
            wf_tree(*final(self), h),
            wf_tree(r.1, h),
            final(self).entries().len() == B,
            r.1.entries().len() == MIN_NUM_ELEMENTS,
            pending_seq(*old(self), h, idx as nat, kv, o) == seq_of(*final(self), h) + seq![r.0] + seq_of(r.1, h),
            h == 1 ==> old(leaf_alloc).took_one(final(leaf_alloc)) && *final(node_alloc) == *old(node_alloc),
            h > 1 ==> old(node_alloc).took_one(final(node_alloc)) && *final(leaf_alloc) == *old(leaf_alloc),
            leaves(*old(self), h) + opt_leaves(o, (h - 1) as nat) + (if h == 1 { 1nat } else { 0nat })
                == leaves(*final(self), h) + leaves(r.1, h),
            nodes(*old(self), h) + opt_nodes(o, (h - 1) as nat) + (if h == 1 { 0nat } else { 1nat })
                == nodes(*final(self), h) + nodes(r.1, h),
    {
        match self {
            ChildUnion::Node(b) => {
                let ghost es = b.value().entries@;
                let ghost cs = b.value().children@;
                let ghost e = es.insert(idx as int, kv);
                let ghost c = cs.insert(idx as int + 1, o.unwrap());
                proof {
                    lemma_counts_insert(cs, idx as int + 1, o.unwrap(), (h - 1) as nat);
                    lemma_flat_concat(e.take(B as int), e[B as int], e.skip(B as int + 1), c.take(B as int + 1), c.skip(B as int + 1), (h - 1) as nat);
                    assert(e.take(B as int).push(e[B as int]) + e.skip(B as int + 1) =~= e);
                    assert(c.take(B as int + 1) + c.skip(B as int + 1) =~= c);
                    assert(forall|j: int| 0 <= j < c.len() ==> #[trigger] c[j] == o.unwrap() || exists|k: int| 0 <= k < cs.len() && c[j] == cs[k]);
                }
                let (sep, right) = b.as_mut().insert_split(node_alloc, idx, kv, o.unwrap());
                (sep, ChildUnion::Node(right))
            },
            ChildUnion::Leaf(b) => {
                let (sep, right) = b.as_mut().insert_split(leaf_alloc, idx, kv);
                (sep, ChildUnion::Leaf(right))
            },
        }
    }

    /// Appends `sep` and the contents of `right`, a subtree of the same
    /// height, and gives the slot of `right` back to its allocator.
    pub fn merge_with(
        &mut self,
        sep: KVPair<V>,
        right: ChildUnion<V>,
        leaf_alloc: &mut SlabAllocator<Leaf<V>>,
        node_alloc: &mut SlabAllocator<Node<V>>,
        Ghost(h): Ghost<nat>,
    )
        requires
            wf_tree(*old(self), h),
            wf_tree(right, h),
            old(self).entries().len() + 1 + right.entries().len() <= MAX_NUM_ELEMENTS,
            old(leaf_alloc).wf(),
            old(node_alloc).wf(),
            h == 1 ==> old(leaf_alloc).in_use() > 0,
            h > 1 ==> old(node_alloc).in_use() > 0,
        ensures
            wf_tree(*final(self), h),
            final(self).entries().len() == old(self).entries().len() + 1 + right.entries().len(),
            seq_of(*final(self), h) == seq_of(*old(self), h) + seq![sep] + seq_of(right, h),
            h == 1 ==> old(leaf_alloc).gave_back_one(final(leaf_alloc)) && *final(node_alloc) == *old(node_alloc),
            h > 1 ==> old(node_alloc).gave_back_one(final(node_alloc)) && *final(leaf_alloc) == *old(leaf_alloc),
            leaves(*final(self), h) + (if h == 1 { 1nat } else { 0nat }) == leaves(*old(self), h) + leaves(right, h),
            nodes(*final(self), h) + (if h == 1 { 0nat } else { 1nat }) == nodes(*old(self), h) + nodes(right, h),
    {
        match self {
            ChildUnion::Node(b) => {
                match right {
                    ChildUnion::Node(rb) => {
                        let ghost es = b.value().entries@;
                        let ghost cs = b.value().children@;
                        proof {
                            lemma_flat_concat(es, sep, rb.value().entries@, cs, rb.value().children@, (h - 1) as nat);
                        }
                        b.as_mut().merge(node_alloc, sep, rb);
                    },
                    ChildUnion::Leaf(rb) => {
                        proof {
                            assert(false);
                        }
                        rb.free(leaf_alloc);
                    },
                }
            },
            ChildUnion::Leaf(b) => {
                match right {
                    ChildUnion::Leaf(rb) => {
                        b.as_mut().merge(leaf_alloc, sep, rb);
                    },
                    ChildUnion::Node(rb) => {
                        proof {
                            assert(false);
                        }
                        rb.free(node_alloc);
                    },
                }
            },
        }
    }
}

/// Entries of a record that come before a window starting at child `a`,
/// given `et == es.take(a)` and `ct == cs.take(a)`.
pub open spec fn pre_of<V>(et: Seq<KVPair<V>>, ct: Seq<ChildUnion<V>>, hc: nat) -> Seq<KVPair<V>> {
    if et.len() == 0 {
        Seq::empty()
    } else {
        flat(et.drop_last(), ct, hc) + seq![et.last()]
    }
}

/// Entries of a record that come after a window ending at child `b`, given
/// `es_rest == es.skip(b)` and `cs_rest == cs.skip(b + 1)`.
pub open spec fn post_of<V>(es_rest: Seq<KVPair<V>>, cs_rest: Seq<ChildUnion<V>>, hc: nat) -> Seq<KVPair<V>> {
    if es_rest.len() == 0 {
        Seq::empty()
    } else {
        seq![es_rest[0]] + flat(es_rest.skip(1), cs_rest, hc)
    }
}

/// The entries of a record are those before children `a..=b`, those of
/// that window, and those after it; likewise the counts.
pub proof fn lemma_window<V>(es: Seq<KVPair<V>>, cs: Seq<ChildUnion<V>>, hc: nat, a: int, b: int)
    requires
        0 <= a <= b <= es.len(),
        cs.len() == es.len() + 1,
    ensures
        flat(es, cs, hc) == pre_of(es.take(a), cs.take(a), hc) + flat(es.subrange(a, b), cs.subrange(a, b + 1), hc)
            + post_of(es.skip(b), cs.skip(b + 1), hc),
        leaves_in(cs, hc) == leaves_in(cs.take(a), hc) + leaves_in(cs.subrange(a, b + 1), hc) + leaves_in(cs.skip(b + 1), hc),
        nodes_in(cs, hc) == nodes_in(cs.take(a), hc) + nodes_in(cs.subrange(a, b + 1), hc) + nodes_in(cs.skip(b + 1), hc),
{
    lemma_counts_concat(cs.take(a), cs.skip(a), hc);
    lemma_counts_concat(cs.subrange(a, b + 1), cs.skip(b + 1), hc);
    assert(cs.take(a) + cs.skip(a) =~= cs);
    assert(cs.subrange(a, b + 1) + cs.skip(b + 1) =~= cs.skip(a));
    let mid = flat(es.subrange(a, b), cs.subrange(a, b + 1), hc);
    let post = post_of(es.skip(b), cs.skip(b + 1), hc);
    // the part from child `a` on
    if b < es.len() {
        lemma_flat_concat(es.subrange(a, b), es[b], es.skip(b + 1), cs.subrange(a, b + 1), cs.skip(b + 1), hc);
        assert(es.subrange(a, b).push(es[b]) + es.skip(b + 1) =~= es.skip(a));
        assert(es.skip(b).skip(1) =~= es.skip(b + 1));
        assert(es.skip(b)[0] == es[b]);
        assert(flat(es.skip(a), cs.skip(a), hc) =~= mid + post);
    } else {
        assert(es.subrange(a, b) =~= es.skip(a));
        assert(cs.subrange(a, b + 1) =~= cs.skip(a));
        assert(flat(es.skip(a), cs.skip(a), hc) =~= mid + post);
    }
    if a > 0 {
        lemma_flat_concat(es.take(a - 1), es[a - 1], es.skip(a), cs.take(a), cs.skip(a), hc);
        assert(es.take(a - 1).push(es[a - 1]) + es.skip(a) =~= es);
        assert(es.take(a).drop_last() =~= es.take(a - 1));
        assert(es.take(a).last() == es[a - 1]);
        assert(flat(es, cs, hc) =~= pre_of(es.take(a), cs.take(a), hc) + mid + post);
    } else {
        assert(es.skip(0) =~= es);
        assert(cs.skip(0) =~= cs);
        assert(flat(es, cs, hc) =~= pre_of(es.take(a), cs.take(a), hc) + mid + post);
    }
    assert(cs.take(a) + cs.skip(a) =~= cs);
}

/// Entries of a record with the part of child `i` replaced by `y`.
pub open spec fn around<V>(es: Seq<KVPair<V>>, cs: Seq<ChildUnion<V>>, hc: nat, i: int, y: Seq<KVPair<V>>) -> Seq<KVPair<V>> {
    pre_of(es.take(i), cs.take(i), hc) + y + post_of(es.skip(i), cs.skip(i + 1), hc)
}

/// The entries of a record are those around child `i`.
pub proof fn lemma_around<V>(es: Seq<KVPair<V>>, cs: Seq<ChildUnion<V>>, hc: nat, i: int)
    requires
        0 <= i <= es.len(),
        cs.len() == es.len() + 1,
    ensures
        flat(es, cs, hc) == around(es, cs, hc, i, seq_of(cs[i], hc)),
        leaves_in(cs, hc) == leaves_in(cs.take(i), hc) + leaves(cs[i], hc) + leaves_in(cs.skip(i + 1), hc),
        nodes_in(cs, hc) == nodes_in(cs.take(i), hc) + nodes(cs[i], hc) + nodes_in(cs.skip(i + 1), hc),
        i > 0 ==> pre_of(es.take(i), cs.take(i), hc).len() > 0 && pre_of(es.take(i), cs.take(i), hc).last() == es[i - 1],
        i < es.len() ==> post_of(es.skip(i), cs.skip(i + 1), hc).len() > 0 && post_of(es.skip(i), cs.skip(i + 1), hc)[0] == es[i],
{
    lemma_window(es, cs, hc, i, i);
    assert(es.subrange(i, i) =~= Seq::<KVPair<V>>::empty());
    assert(cs.subrange(i, i + 1) =~= seq![cs[i]]);
    lemma_flat_single(cs[i], hc);
    if i > 0 {
        assert(es.take(i).last() == es[i - 1]);
    }
    if i < es.len() {
        assert(es.skip(i)[0] == es[i]);
    }
}

/// What comes before child `i` is what comes before child `i - 1`, that
/// child, and the entry between them.
pub proof fn lemma_pre_step<V>(es: Seq<KVPair<V>>, cs: Seq<ChildUnion<V>>, hc: nat, i: int)
    requires
        0 < i <= es.len(),
        cs.len() == es.len() + 1,
    ensures
        pre_of(es.take(i), cs.take(i), hc) == pre_of(es.take(i - 1), cs.take(i - 1), hc) + seq_of(cs[i - 1], hc) + seq![es[i - 1]],
        leaves_in(cs.take(i), hc) == leaves_in(cs.take(i - 1), hc) + leaves(cs[i - 1], hc),
        nodes_in(cs.take(i), hc) == nodes_in(cs.take(i - 1), hc) + nodes(cs[i - 1], hc),
{
    let et = es.take(i - 1);
    let ct = cs.take(i);
    lemma_around(et, ct, hc, i - 1);
    assert(et.take(i - 1) =~= et);
    assert(ct.take(i - 1) =~= cs.take(i - 1));
    assert(et.skip(i - 1) =~= Seq::<KVPair<V>>::empty());
    assert(es.take(i).drop_last() =~= et);
    assert(es.take(i).last() == es[i - 1]);
    assert(ct.skip(i) =~= Seq::<ChildUnion<V>>::empty());
    assert(ct[i - 1] == cs[i - 1]);
}

/// What comes after child `i` is the entry after it, the next child, and
/// what comes after that child.
pub proof fn lemma_post_step<V>(es: Seq<KVPair<V>>, cs: Seq<ChildUnion<V>>, hc: nat, i: int)
    requires
        0 <= i < es.len(),
        cs.len() == es.len() + 1,
    ensures
        post_of(es.skip(i), cs.skip(i + 1), hc) == seq![es[i]] + seq_of(cs[i + 1], hc) + post_of(es.skip(i + 1), cs.skip(i + 2), hc),
        leaves_in(cs.skip(i + 1), hc) == leaves(cs[i + 1], hc) + leaves_in(cs.skip(i + 2), hc),
        nodes_in(cs.skip(i + 1), hc) == nodes(cs[i + 1], hc) + nodes_in(cs.skip(i + 2), hc),
{
    let er = es.skip(i + 1);
    let cr = cs.skip(i + 1);
    lemma_around(er, cr, hc, 0);
    assert(er.take(0) =~= Seq::<KVPair<V>>::empty());
    assert(cr.take(0) =~= Seq::<ChildUnion<V>>::empty());
    assert(er.skip(0) =~= er);
    assert(cr.skip(1) =~= cs.skip(i + 2));
    assert(es.skip(i).skip(1) =~= er);
    assert(es.skip(i)[0] == es[i]);
    assert(cr[0] == cs[i + 1]);
    assert(leaves_in(Seq::<ChildUnion<V>>::empty(), hc) == 0);
    assert(nodes_in(Seq::<ChildUnion<V>>::empty(), hc) == 0);
}

/// Putting `y` in place of child `i` puts its entries in place of those of
/// child `i`.
pub proof fn lemma_child_update_all<V>(es: Seq<KVPair<V>>, cs: Seq<ChildUnion<V>>, hc: nat, i: int)
    requires
        0 <= i <= es.len(),
        cs.len() == es.len() + 1,
    ensures
        forall|y: ChildUnion<V>| #[trigger] flat(es, cs.update(i, y), hc) == around(es, cs, hc, i, seq_of(y, hc)),
        forall|y: ChildUnion<V>| #[trigger] leaves_in(cs.update(i, y), hc) == leaves_in(cs.take(i), hc) + leaves(y, hc) + leaves_in(cs.skip(i + 1), hc),
        forall|y: ChildUnion<V>| #[trigger] nodes_in(cs.update(i, y), hc) == nodes_in(cs.take(i), hc) + nodes(y, hc) + nodes_in(cs.skip(i + 1), hc),
{
    assert forall|y: ChildUnion<V>| #[trigger] flat(es, cs.update(i, y), hc) == around(es, cs, hc, i, seq_of(y, hc)) by {
        lemma_child_update(es, cs, hc, i, y);
    }
    assert forall|y: ChildUnion<V>| #[trigger] leaves_in(cs.update(i, y), hc) == leaves_in(cs.take(i), hc) + leaves(y, hc) + leaves_in(cs.skip(i + 1), hc) by {
        lemma_child_update(es, cs, hc, i, y);
    }
    assert forall|y: ChildUnion<V>| #[trigger] nodes_in(cs.update(i, y), hc) == nodes_in(cs.take(i), hc) + nodes(y, hc) + nodes_in(cs.skip(i + 1), hc) by {
        lemma_child_update(es, cs, hc, i, y);
    }
}

/// Putting `y` in place of child `i` of a record.
pub proof fn lemma_child_update<V>(es: Seq<KVPair<V>>, cs: Seq<ChildUnion<V>>, hc: nat, i: int, y: ChildUnion<V>)
    requires
        0 <= i <= es.len(),
        cs.len() == es.len() + 1,
    ensures
        flat(es, cs.update(i, y), hc) == around(es, cs, hc, i, seq_of(y, hc)),
        leaves_in(cs.update(i, y), hc) == leaves_in(cs.take(i), hc) + leaves(y, hc) + leaves_in(cs.skip(i + 1), hc),
        nodes_in(cs.update(i, y), hc) == nodes_in(cs.take(i), hc) + nodes(y, hc) + nodes_in(cs.skip(i + 1), hc),
{
    let cs1 = cs.update(i, y);
    lemma_around(es, cs1, hc, i);
    assert(cs1.take(i) =~= cs.take(i));
    assert(cs1.skip(i + 1) =~= cs.skip(i + 1));
}

/// A subtree of height `h` whose own record is not empty holds at least `h`
/// entries.
pub proof fn lemma_height_bound<V>(c: ChildUnion<V>, h: nat)
    requires
        wf_tree(c, h),
        c.entries().len() >= 1,
    ensures
        seq_of(c, h).len() >= h,
    decreases h,
{
    if h > 1 {
        lemma_flat_front(c.entries(), c.kids(), (h - 1) as nat);
        lemma_height_bound(c.kids()[0], (h - 1) as nat);
    }
}

/// A search for `k` among the entries `es` descends into child `i`: every
/// entry before `i` has a smaller key and entry `i`, if any, a larger one.
pub open spec fn child_gap<V>(es: Seq<KVPair<V>>, k: u64, i: int) -> bool {
    &&& 0 <= i <= es.len()
    &&& forall|j: int| 0 <= j < i ==> es[j].key < k
    &&& i < es.len() ==> k < es[i].key
}

/// Inserting the absent key `k` into the subtree of height `h` owned by `c`
/// needs no new record: the leaf it reaches has room, or a sibling of that
/// leaf under the same parent has room to take an entry by rotation.
pub open spec fn absorbs<V>(c: ChildUnion<V>, h: nat, k: u64) -> bool
    decreases h, 1nat,
{
    if h <= 1 {
        c.entries().len() < MAX_NUM_ELEMENTS
    } else {
        forall|i: int| #[trigger] child_gap(c.entries(), k, i) ==> absorbs_at(c.kids(), (h - 1) as nat, k, i)
    }
}

/// `absorbs` for child `i` of the children `cs` of height `hc`.
pub open spec fn absorbs_at<V>(cs: Seq<ChildUnion<V>>, hc: nat, k: u64, i: int) -> bool
    decreases hc, 2nat,
{
    if hc <= 1 {
        ||| cs[i].entries().len() < MAX_NUM_ELEMENTS
        ||| (i > 0 && cs[i - 1].entries().len() < MAX_NUM_ELEMENTS)
        ||| (i + 1 < cs.len() && cs[i + 1].entries().len() < MAX_NUM_ELEMENTS)
    } else {
        absorbs(cs[i], hc, k)
    }
}

/// Linear scan for `key`: `Ok(i)` where `entries[i]` holds it, otherwise
/// `Err(i)` at the first entry with a larger key.
pub fn linsearch<V>(entries: &Vec<KVPair<V>>, key: u64) -> (r: Result<usize, usize>)
    ensures
        match r {
            Ok(i) => {
                &&& i < entries@.len()
                &&& entries@[i as int].key == key
                &&& forall|j: int| 0 <= j < i ==> entries@[j].key < key
            },
            Err(i) => {
                &&& i <= entries@.len()
                &&& i < entries@.len() ==> key < entries@[i as int].key
                &&& forall|j: int| 0 <= j < i ==> entries@[j].key < key
            },
        },
{
    let mut i: usize = 0;
    while i < entries.len()
        invariant
            i <= entries@.len(),
            forall|j: int| 0 <= j < i ==> entries@[j].key < key,
        decreases entries@.len() - i,
    {
        if key < entries[i].key {
            return Err(i);
        } else if key == entries[i].key {
            return Ok(i);
        }
        i = i + 1;
    }
    Err(i)
}

} // verus!
