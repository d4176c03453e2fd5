//! Insertion into a subtree: descend to the leaf, then make room in a full
//! record by rotating an entry through a sibling, or else by splitting it.
use vstd::prelude::*;
use crate::slab::SlabAllocator;
use crate::node::{
    child_gap, absorbs, absorbs_at,
    KVPair, Leaf, Node, ChildUnion, MAX_NUM_ELEMENTS, MIN_NUM_ELEMENTS, sorted, seq_of, flat,
    leaves, nodes, leaves_in, nodes_in, wf_tree, wf_children, opt_seq, opt_leaves, opt_nodes,
    fits_below, pending_seq, around, pre_of, post_of, linsearch, lemma_around, lemma_pre_step,
    lemma_post_step, lemma_counts_insert,
};
use crate::inorder::{
    is_gap, has_key, lemma_sorted_mid, lemma_lift_gap, lemma_lift_update, lemma_lift_has_key,
    lemma_gap_absent,
};

verus! {

/// What inserting into a subtree did.
pub(crate) enum InsertOutcome<V> {
    /// The key was present: its entry was replaced and is handed back.
    Replaced(KVPair<V>),
    /// The entry now lies within the subtree.
    Inserted,
    /// The subtree's own record is full: the entry, with the child after it,
    /// still has to go in at the given position of that record.
    Full(usize, KVPair<V>, Option<ChildUnion<V>>),
}

/// Subtree counts that travel with a pending entry.
pub(crate) open spec fn outcome_leaves<V>(r: InsertOutcome<V>, hc: nat) -> nat {
    match r {
        InsertOutcome::Full(_, _, o) => opt_leaves(o, hc),
        _ => 0,
    }
}

pub(crate) open spec fn outcome_nodes<V>(r: InsertOutcome<V>, hc: nat) -> nat {
    match r {
        InsertOutcome::Full(_, _, o) => opt_nodes(o, hc),
        _ => 0,
    }
}

/// `b` is the allocator `a` with only slots taken or given back.
pub(crate) open spec fn same_pool<T>(a: SlabAllocator<T>, b: SlabAllocator<T>) -> bool {
    &&& b.wf()
    &&& b.slot_size() == a.slot_size()
    &&& b.budget() == a.budget()
    &&& b.total_bytes() == a.total_bytes()
}

/// `n` is an interior record over children of height `hc`: one more child
/// than entries, at most `MAX_NUM_ELEMENTS` entries, and well-formed
/// children of at least `MIN_NUM_ELEMENTS` entries.
pub(crate) open spec fn node_ok<V>(n: Node<V>, hc: nat) -> bool {
    &&& n.children@.len() == n.entries@.len() + 1
    &&& n.entries@.len() <= MAX_NUM_ELEMENTS
    &&& wf_children(n.children@, hc)
}

/// Child `i` of `node` is full and `e`, with `o` after it, still has to go
/// in at entry `j` of that child; the left sibling has room. The child hands
/// its first entry and child to the separator, whose old entry moves to the
/// end of the left sibling.
#[verifier::rlimit(50)]
pub(crate) fn rotate_left<V>(node: &mut Node<V>, i: usize, j: usize, e: KVPair<V>, o: Option<ChildUnion<V>>, Ghost(hc): Ghost<nat>)
    requires
        hc >= 1,
        node_ok(*old(node), hc),
        0 < i <= old(node).entries@.len(),
        old(node).children@[i as int].entries().len() == MAX_NUM_ELEMENTS,
        old(node).children@[i - 1].entries().len() < MAX_NUM_ELEMENTS,
        j <= MAX_NUM_ELEMENTS,
        fits_below(o, hc),
    ensures
        node_ok(*final(node), hc),
        final(node).entries@.len() == old(node).entries@.len(),
        flat(final(node).entries@, final(node).children@, hc) == around(old(node).entries@, old(node).children@, hc, i as int,
            pending_seq(old(node).children@[i as int], hc, j as nat, e, o)),
        leaves_in(final(node).children@, hc) == leaves_in(old(node).children@, hc) + opt_leaves(o, (hc - 1) as nat),
        nodes_in(final(node).children@, hc) == nodes_in(old(node).children@, hc) + opt_nodes(o, (hc - 1) as nat),
{
    let ghost es = node.entries@;
    let ghost cs = node.children@;
    let ghost cl = cs[i - 1];
    let ghost cc = cs[i as int];
    let (e0, o0) = node.children[i].overflow_left(j, e, o, Ghost(hc));
    let ghost cc2 = node.children@[i as int];
    let sep = node.replace(i - 1, e0);
    node.children[i - 1].push_back(sep, o0, Ghost(hc));
    proof {
        let es2 = node.entries@;
        let cs2 = node.children@;
        let cl2 = cs2[i - 1];
        assert(cs2 == cs.update(i as int, cc2).update(i - 1, cl2));
        assert(es2 == es.update(i - 1, e0));
        lemma_around(es, cs, hc, i as int);
        lemma_pre_step(es, cs, hc, i as int);
        lemma_around(es2, cs2, hc, i as int);
        lemma_pre_step(es2, cs2, hc, i as int);
        assert(es2.take(i - 1) =~= es.take(i - 1));
        assert(cs2.take(i - 1) =~= cs.take(i - 1));
        assert(es2.skip(i as int) =~= es.skip(i as int));
        assert(cs2.skip(i + 1) =~= cs.skip(i + 1));
        let a = pre_of(es.take(i - 1), cs.take(i - 1), hc);
        let post = post_of(es.skip(i as int), cs.skip(i + 1), hc);
        let pend = pending_seq(cc, hc, j as nat, e, o);
        assert(seq_of(cl2, hc) == seq_of(cl, hc) + seq![sep] + opt_seq(o0, (hc - 1) as nat));
        assert(pend == opt_seq(o0, (hc - 1) as nat) + seq![e0] + seq_of(cc2, hc));
        assert(flat(es2, cs2, hc) == a + seq_of(cl2, hc) + seq![e0] + seq_of(cc2, hc) + post);
        assert(around(es, cs, hc, i as int, pend) == a + seq_of(cl, hc) + seq![sep] + pend + post);
        assert(flat(es2, cs2, hc) =~= around(es, cs, hc, i as int, pend));
        assert forall|k: int| 0 <= k < cs2.len() implies wf_tree(#[trigger] cs2[k], hc) && MIN_NUM_ELEMENTS <= cs2[k].entries().len() by {
            if k != i - 1 && k != i {
                assert(cs2[k] == cs[k]);
            }
        }
    }
}

/// Child `i` of `node` is full and `e`, with `o` after it, still has to go
/// in at entry `j` of that child; the right sibling has room. The child
/// evicts its last entry and child to the separator, whose old entry moves
/// to the front of the right sibling.
#[verifier::rlimit(50)]
pub(crate) fn rotate_right<V>(node: &mut Node<V>, i: usize, j: usize, e: KVPair<V>, o: Option<ChildUnion<V>>, Ghost(hc): Ghost<nat>)
    requires
        hc >= 1,
        node_ok(*old(node), hc),
        i < old(node).entries@.len(),
        old(node).children@[i as int].entries().len() == MAX_NUM_ELEMENTS,
        old(node).children@[i + 1].entries().len() < MAX_NUM_ELEMENTS,
        j <= MAX_NUM_ELEMENTS,
        fits_below(o, hc),
    ensures
        node_ok(*final(node), hc),
        final(node).entries@.len() == old(node).entries@.len(),
        flat(final(node).entries@, final(node).children@, hc) == around(old(node).entries@, old(node).children@, hc, i as int,
            pending_seq(old(node).children@[i as int], hc, j as nat, e, o)),
        leaves_in(final(node).children@, hc) == leaves_in(old(node).children@, hc) + opt_leaves(o, (hc - 1) as nat),
        nodes_in(final(node).children@, hc) == nodes_in(old(node).children@, hc) + opt_nodes(o, (hc - 1) as nat),
{
    let ghost es = node.entries@;
    let ghost cs = node.children@;
    let ghost cr = cs[i + 1];
    let ghost cc = cs[i as int];
    let (e1, o1) = node.children[i].insert_at(j, e, o, Ghost(hc)).unwrap();
    let ghost cc2 = node.children@[i as int];
    let sep = node.replace(i, e1);
    node.children[i + 1].push_front(sep, o1, Ghost(hc));
    proof {
        let es2 = node.entries@;
        let cs2 = node.children@;
        let cr2 = cs2[i + 1];
        assert(cs2 == cs.update(i as int, cc2).update(i + 1, cr2));
        assert(es2 == es.update(i as int, e1));
        lemma_around(es, cs, hc, i as int);
        lemma_post_step(es, cs, hc, i as int);
        lemma_around(es2, cs2, hc, i as int);
        lemma_post_step(es2, cs2, hc, i as int);
        assert(es2.take(i as int) =~= es.take(i as int));
        assert(cs2.take(i as int) =~= cs.take(i as int));
        assert(es2.skip(i + 1) =~= es.skip(i + 1));
        assert(cs2.skip(i + 2) =~= cs.skip(i + 2));
        let pre = pre_of(es.take(i as int), cs.take(i as int), hc);
        let z = post_of(es.skip(i + 1), cs.skip(i + 2), hc);
        let pend = pending_seq(cc, hc, j as nat, e, o);
        assert(seq_of(cr2, hc) == opt_seq(o1, (hc - 1) as nat) + seq![sep] + seq_of(cr, hc));
        assert(pend == seq_of(cc2, hc) + seq![e1] + opt_seq(o1, (hc - 1) as nat));
        assert(flat(es2, cs2, hc) == pre + seq_of(cc2, hc) + (seq![e1] + seq_of(cr2, hc) + z));
        assert(around(es, cs, hc, i as int, pend) == pre + pend + (seq![sep] + seq_of(cr, hc) + z));
        assert(flat(es2, cs2, hc) =~= around(es, cs, hc, i as int, pend));
        assert forall|k: int| 0 <= k < cs2.len() implies wf_tree(#[trigger] cs2[k], hc) && MIN_NUM_ELEMENTS <= cs2[k].entries().len() by {
            if k != i + 1 && k != i {
                assert(cs2[k] == cs[k]);
            }
        }
    }
}

/// Child `i` of `node` is full and `e`, with `o` after it, still has to go
/// in at entry `j` of that child. Splits the child and hands back the
/// separator and the new right sibling, which belong at entry `i` of `node`.
#[verifier::rlimit(50)]
pub(crate) fn split_child<V>(
    node: &mut Node<V>,
    i: usize,
    j: usize,
    e: KVPair<V>,
    o: Option<ChildUnion<V>>,
    leaf_alloc: &mut SlabAllocator<Leaf<V>>,
    node_alloc: &mut SlabAllocator<Node<V>>,
    Ghost(hc): Ghost<nat>,
) -> (r: (KVPair<V>, ChildUnion<V>))
    requires
        hc >= 1,
        node_ok(*old(node), hc),
        i <= old(node).entries@.len(),
        old(node).children@[i as int].entries().len() == MAX_NUM_ELEMENTS,
        j <= MAX_NUM_ELEMENTS,
        fits_below(o, hc),
        old(leaf_alloc).wf(),
        old(node_alloc).wf(),
        hc == 1 ==> old(leaf_alloc).free_slots() >= 1,
        hc > 1 ==> old(node_alloc).free_slots() >= 1,
    ensures
        hc == 1 ==> old(leaf_alloc).took_one(final(leaf_alloc)) && *final(node_alloc) == *old(node_alloc),
        hc > 1 ==> old(node_alloc).took_one(final(node_alloc)) && *final(leaf_alloc) == *old(leaf_alloc),
        node_ok(*final(node), hc),
        final(node).entries@ == old(node).entries@,
        fits_below(Some(r.1), hc + 1),
        flat(old(node).entries@.insert(i as int, r.0), final(node).children@.insert(i as int + 1, r.1), hc)
            == around(old(node).entries@, old(node).children@, hc, i as int, pending_seq(old(node).children@[i as int], hc, j as nat, e, o)),
        leaves_in(final(node).children@, hc) + leaves(r.1, hc) == leaves_in(old(node).children@, hc)
            + opt_leaves(o, (hc - 1) as nat) + (if hc == 1 { 1nat } else { 0nat }),
        nodes_in(final(node).children@, hc) + nodes(r.1, hc) == nodes_in(old(node).children@, hc)
            + opt_nodes(o, (hc - 1) as nat) + (if hc == 1 { 0nat } else { 1nat }),
{
    let ghost es = node.entries@;
    let ghost cs = node.children@;
    let ghost cc = cs[i as int];
    let (sep, right) = node.children[i].split(j, e, o, leaf_alloc, node_alloc, Ghost(hc));
    proof {
        let cs1 = node.children@;
        let cc2 = cs1[i as int];
        assert(cs1 == cs.update(i as int, cc2));
        let es2 = es.insert(i as int, sep);
        let cs2 = cs1.insert(i as int + 1, right);
        lemma_around(es, cs, hc, i as int);
        lemma_around(es, cs1, hc, i as int);
        lemma_around(es2, cs2, hc, i as int);
        lemma_post_step(es2, cs2, hc, i as int);
        assert(cs1.take(i as int) =~= cs.take(i as int));
        assert(cs1.skip(i + 1) =~= cs.skip(i + 1));
        assert(es2.take(i as int) =~= es.take(i as int));
        assert(cs2.take(i as int) =~= cs.take(i as int));
        assert(es2.skip(i + 1) =~= es.skip(i as int));
        assert(cs2.skip(i + 2) =~= cs.skip(i + 1));
        assert(cs2[i as int] == cc2);
        assert(cs2[i + 1] == right);
        let pre = pre_of(es.take(i as int), cs.take(i as int), hc);
        let post = post_of(es.skip(i as int), cs.skip(i + 1), hc);
        let pend = pending_seq(cc, hc, j as nat, e, o);
        assert(pend == seq_of(cc2, hc) + seq![sep] + seq_of(right, hc));
        assert(flat(es2, cs2, hc) == pre + seq_of(cc2, hc) + (seq![sep] + seq_of(right, hc) + post));
        assert(flat(es2, cs2, hc) =~= around(es, cs, hc, i as int, pend));
        assert forall|k: int| 0 <= k < cs1.len() implies wf_tree(#[trigger] cs1[k], hc) && MIN_NUM_ELEMENTS <= cs1[k].entries().len() by {
            if k != i {
                assert(cs1[k] == cs[k]);
            }
        }
    }
    (sep, right)
}

/// Child `i` of `node` is full and `e`, with `o` after it, still has to go
/// in at entry `j` of that child. Rotates through the left sibling if it has
/// room, else through the right sibling, else splits the child and inserts
/// the separator into `node`; when `node` is full too, the separator and the
/// new sibling are handed back.
pub(crate) fn place_pending<V>(
    node: &mut Node<V>,
    i: usize,
    j: usize,
    e: KVPair<V>,
    o: Option<ChildUnion<V>>,
    leaf_alloc: &mut SlabAllocator<Leaf<V>>,
    node_alloc: &mut SlabAllocator<Node<V>>,
    Ghost(hc): Ghost<nat>,
) -> (r: InsertOutcome<V>)
    requires
        hc >= 1,
        node_ok(*old(node), hc),
        i <= old(node).entries@.len(),
        old(node).children@[i as int].entries().len() == MAX_NUM_ELEMENTS,
        j <= MAX_NUM_ELEMENTS,
        fits_below(o, hc),
        old(leaf_alloc).wf(),
        old(node_alloc).wf(),
        hc == 1 ==> old(leaf_alloc).free_slots() >= 1,
        hc > 1 ==> old(node_alloc).free_slots() >= 1,
    ensures
        same_pool(*old(leaf_alloc), *final(leaf_alloc)),
        same_pool(*old(node_alloc), *final(node_alloc)),
        hc == 1 ==> *final(node_alloc) == *old(node_alloc),
        hc > 1 ==> *final(leaf_alloc) == *old(leaf_alloc),
        old(leaf_alloc).in_use() <= final(leaf_alloc).in_use() <= old(leaf_alloc).in_use() + 1,
        old(node_alloc).in_use() <= final(node_alloc).in_use() <= old(node_alloc).in_use() + 1,
        node_ok(*final(node), hc),
        !(r is Replaced),
        outcome_shape(r, hc + 1, old(node).entries@.len(), final(node).entries@.len()),
        r is Full ==> final(node).entries@ == old(node).entries@,
        leaves_in(final(node).children@, hc) + outcome_leaves(r, hc) == leaves_in(old(node).children@, hc)
            + opt_leaves(o, (hc - 1) as nat) + final(leaf_alloc).in_use() - old(leaf_alloc).in_use(),
        nodes_in(final(node).children@, hc) + outcome_nodes(r, hc) == nodes_in(old(node).children@, hc)
            + opt_nodes(o, (hc - 1) as nat) + final(node_alloc).in_use() - old(node_alloc).in_use(),
        (i > 0 && old(node).children@[i - 1].entries().len() < MAX_NUM_ELEMENTS) || (i < old(
            node,
        ).entries@.len() && old(node).children@[i + 1].entries().len() < MAX_NUM_ELEMENTS) ==> {
            &&& r is Inserted
            &&& *final(leaf_alloc) == *old(leaf_alloc)
            &&& *final(node_alloc) == *old(node_alloc)
        },
        ({
            let p = around(old(node).entries@, old(node).children@, hc, i as int,
                pending_seq(old(node).children@[i as int], hc, j as nat, e, o));
            &&& r is Inserted ==> flat(final(node).entries@, final(node).children@, hc) == p
            &&& r is Full ==> pending_of_node(*final(node), hc, r) == p
        }),
{
    if i > 0 && node.children[i - 1].len() < MAX_NUM_ELEMENTS {
        rotate_left(node, i, j, e, o, Ghost(hc));
        return InsertOutcome::Inserted;
    }
    if i < node.len() && node.children[i + 1].len() < MAX_NUM_ELEMENTS {
        rotate_right(node, i, j, e, o, Ghost(hc));
        return InsertOutcome::Inserted;
    }
    let (sep, right) = split_child(node, i, j, e, o, leaf_alloc, node_alloc, Ghost(hc));
    let ghost cs_s = node.children@;
    if node.len() < MAX_NUM_ELEMENTS {
        let _ = node.insert(i, sep, right);
        proof {
            lemma_counts_insert(cs_s, i + 1, right, hc);
        }
        InsertOutcome::Inserted
    } else {
        InsertOutcome::Full(i, sep, Some(right))
    }
}

/// What an insertion of `kv` into a subtree with entries `s` promises: the
/// entries afterwards are `after`, and when the subtree's record is full, the
/// entries it would have with the pending entry inserted are `pend`.
pub(crate) open spec fn inserted_as<V>(r: InsertOutcome<V>, s: Seq<KVPair<V>>, kv: KVPair<V>, after: Seq<KVPair<V>>, pend: Seq<KVPair<V>>) -> bool {
    match r {
        InsertOutcome::Replaced(prev) => exists|i: int|
            0 <= i < s.len() && s[i].key == kv.key && prev == s[i] && after == s.update(i, kv),
        InsertOutcome::Inserted => exists|g: int| is_gap(s, kv.key, g) && after == s.insert(g, kv),
        InsertOutcome::Full(_, _, _) => exists|g: int| is_gap(s, kv.key, g) && pend == s.insert(g, kv),
    }
}

/// Entries of the record of `n` with the pending entry of `r` inserted.
pub(crate) open spec fn pending_of_node<V>(n: Node<V>, hc: nat, r: InsertOutcome<V>) -> Seq<KVPair<V>> {
    match r {
        InsertOutcome::Full(j, e, o) => flat(n.entries@.insert(j as int, e), n.children@.insert(j as int + 1, o.unwrap()), hc),
        _ => Seq::empty(),
    }
}

/// Entries of the subtree `c` with the pending entry of `r` inserted.
pub(crate) open spec fn pending_of<V>(c: ChildUnion<V>, h: nat, r: InsertOutcome<V>) -> Seq<KVPair<V>> {
    match r {
        InsertOutcome::Full(j, e, o) => pending_seq(c, h, j as nat, e, o),
        _ => Seq::empty(),
    }
}

/// The shape of a pending entry of `r` for a record of height `h` with
/// `len` entries, and of what the record looks like afterwards.
pub(crate) open spec fn outcome_shape<V>(r: InsertOutcome<V>, h: nat, old_len: nat, new_len: nat) -> bool {
    match r {
        InsertOutcome::Replaced(_) => new_len == old_len,
        InsertOutcome::Inserted => new_len >= old_len,
        InsertOutcome::Full(j, _, o) => {
            &&& old_len == MAX_NUM_ELEMENTS
            &&& new_len == MAX_NUM_ELEMENTS
            &&& j <= MAX_NUM_ELEMENTS
            &&& fits_below(o, h)
        },
    }
}

/// Inserts `kv` into a leaf whose entries are ordered.
pub(crate) fn insert_leaf<V>(leaf: &mut Leaf<V>, kv: KVPair<V>) -> (r: InsertOutcome<V>)
    requires
        old(leaf).entries@.len() <= MAX_NUM_ELEMENTS,
        sorted(old(leaf).entries@),
    ensures
        final(leaf).entries@.len() <= MAX_NUM_ELEMENTS,
        outcome_shape(r, 1, old(leaf).entries@.len(), final(leaf).entries@.len()),
        inserted_as(r, old(leaf).entries@, kv, final(leaf).entries@,
            match r { InsertOutcome::Full(j, e, _) => old(leaf).entries@.insert(j as int, e), _ => Seq::empty() }),
        r is Full ==> final(leaf).entries@ == old(leaf).entries@,
{
    let ghost s = leaf.entries@;
    match linsearch(&leaf.entries, kv.key) {
        Ok(i) => {
            let prev = leaf.replace(i, kv);
            InsertOutcome::Replaced(prev)
        },
        Err(j) => {
            proof {
                assert forall|t: int| j <= t < s.len() implies kv.key < s[t].key by {
                    if t > j {
                        assert(s[j as int].key < s[t].key);
                    }
                }
                assert(is_gap(s, kv.key, j as int));
            }
            if leaf.len() < MAX_NUM_ELEMENTS {
                let _ = leaf.insert(j, kv);
                InsertOutcome::Inserted
            } else {
                InsertOutcome::Full(j, kv, None)
            }
        },
    }
}

/// Inserts `kv` into the subtree of height `h` owned by `c`.
pub(crate) fn insert_rec<V>(
    c: &mut ChildUnion<V>,
    h: usize,
    kv: KVPair<V>,
    leaf_alloc: &mut SlabAllocator<Leaf<V>>,
    node_alloc: &mut SlabAllocator<Node<V>>,
) -> (r: InsertOutcome<V>)
    requires
        1 <= h,
        wf_tree(*old(c), h as nat),
        sorted(seq_of(*old(c), h as nat)),
        old(leaf_alloc).wf(),
        old(node_alloc).wf(),
        !has_key(seq_of(*old(c), h as nat), kv.key) ==> old(leaf_alloc).free_slots() >= 1
            && old(node_alloc).free_slots() + 2 >= h,
    ensures
        same_pool(*old(leaf_alloc), *final(leaf_alloc)),
        same_pool(*old(node_alloc), *final(node_alloc)),
        old(leaf_alloc).in_use() <= final(leaf_alloc).in_use() <= old(leaf_alloc).in_use() + 1,
        old(node_alloc).in_use() <= final(node_alloc).in_use(),
        final(node_alloc).in_use() == old(node_alloc).in_use() || final(node_alloc).in_use() + 2 <= old(node_alloc).in_use() + h,
        wf_tree(*final(c), h as nat),
        outcome_shape(r, h as nat, old(c).entries().len(), final(c).entries().len()),
        leaves(*final(c), h as nat) + outcome_leaves(r, (h - 1) as nat) == leaves(*old(c), h as nat)
            + final(leaf_alloc).in_use() - old(leaf_alloc).in_use(),
        nodes(*final(c), h as nat) + outcome_nodes(r, (h - 1) as nat) == nodes(*old(c), h as nat)
            + final(node_alloc).in_use() - old(node_alloc).in_use(),
        inserted_as(r, seq_of(*old(c), h as nat), kv, seq_of(*final(c), h as nat), pending_of(*final(c), h as nat, r)),
        r is Replaced ==> *final(leaf_alloc) == *old(leaf_alloc) && *final(node_alloc) == *old(node_alloc),
        h == 1 ==> *final(leaf_alloc) == *old(leaf_alloc) && *final(node_alloc) == *old(node_alloc),
        absorbs(*old(c), h as nat, kv.key) ==> {
            &&& !(r is Full)
            &&& *final(leaf_alloc) == *old(leaf_alloc)
            &&& *final(node_alloc) == *old(node_alloc)
        },
    decreases h, 1nat,
{
    match c {
        ChildUnion::Leaf(b) => {
            if h != 1 {
                proof {
                    assert(false);
                }
                return InsertOutcome::Inserted;
            }
            insert_leaf(b.as_mut(), kv)
        },
        ChildUnion::Node(b) => {
            if h == 1 {
                proof {
                    assert(false);
                }
                return InsertOutcome::Inserted;
            }
            insert_node(b.as_mut(), h - 1, kv, leaf_alloc, node_alloc)
        },
    }
}

/// Replacing entry `i` of a record replaces one entry of its in-order
/// sequence.
pub(crate) proof fn lemma_replace_entry<V>(es: Seq<KVPair<V>>, cs: Seq<ChildUnion<V>>, hc: nat, i: int, kv: KVPair<V>)
    requires
        0 <= i < es.len(),
        cs.len() == es.len() + 1,
    ensures
        ({
            let s = flat(es, cs, hc);
            let at = (pre_of(es.take(i), cs.take(i), hc).len() + seq_of(cs[i], hc).len()) as int;
            &&& 0 <= at < s.len()
            &&& s[at] == es[i]
            &&& flat(es.update(i, kv), cs, hc) == s.update(at, kv)
        }),
{
    let es2 = es.update(i, kv);
    lemma_around(es, cs, hc, i);
    lemma_post_step(es, cs, hc, i);
    lemma_around(es2, cs, hc, i);
    lemma_post_step(es2, cs, hc, i);
    assert(es2.take(i) =~= es.take(i));
    assert(es2.skip(i + 1) =~= es.skip(i + 1));
    let pre = pre_of(es.take(i), cs.take(i), hc);
    let x = seq_of(cs[i], hc) + seq![es[i]] + seq_of(cs[i + 1], hc);
    let post = post_of(es.skip(i + 1), cs.skip(i + 2), hc);
    let at = seq_of(cs[i], hc).len() as int;
    assert(flat(es, cs, hc) =~= pre + x + post);
    lemma_lift_update(pre, x, post, at, kv);
    assert(x.update(at, kv) =~= seq_of(cs[i], hc) + seq![kv] + seq_of(cs[i + 1], hc));
    assert(flat(es2, cs, hc) =~= pre + x.update(at, kv) + post);
}

/// `lemma_replace_entry` for every replacing entry.
pub(crate) proof fn lemma_replace_entry_all<V>(es: Seq<KVPair<V>>, cs: Seq<ChildUnion<V>>, hc: nat, i: int)
    requires
        0 <= i < es.len(),
        cs.len() == es.len() + 1,
    ensures
        ({
            let s = flat(es, cs, hc);
            let at = (pre_of(es.take(i), cs.take(i), hc).len() + seq_of(cs[i], hc).len()) as int;
            &&& 0 <= at < s.len()
            &&& s[at] == es[i]
            &&& forall|kv: KVPair<V>| #[trigger] flat(es.update(i, kv), cs, hc) == s.update(at, kv)
        }),
{
    assert forall|kv: KVPair<V>| #[trigger] flat(es.update(i, kv), cs, hc) == flat(es, cs, hc).update(
        (pre_of(es.take(i), cs.take(i), hc).len() + seq_of(cs[i], hc).len()) as int,
        kv,
    ) by {
        lemma_replace_entry(es, cs, hc, i, kv);
    }
    lemma_replace_entry(es, cs, hc, i, es[i]);
}

/// Inserts `kv` below or into the interior record `node` whose children
/// have height `hc`.
#[verifier::rlimit(60)]
pub(crate) fn insert_node<V>(
    node: &mut Node<V>,
    hc: usize,
    kv: KVPair<V>,
    leaf_alloc: &mut SlabAllocator<Leaf<V>>,
    node_alloc: &mut SlabAllocator<Node<V>>,
) -> (r: InsertOutcome<V>)
    requires
        1 <= hc < usize::MAX,
        node_ok(*old(node), hc as nat),
        sorted(flat(old(node).entries@, old(node).children@, hc as nat)),
        old(leaf_alloc).wf(),
        old(node_alloc).wf(),
        !has_key(flat(old(node).entries@, old(node).children@, hc as nat), kv.key)
            ==> old(leaf_alloc).free_slots() >= 1 && old(node_alloc).free_slots() + 1 >= hc,
    ensures
        same_pool(*old(leaf_alloc), *final(leaf_alloc)),
        same_pool(*old(node_alloc), *final(node_alloc)),
        old(leaf_alloc).in_use() <= final(leaf_alloc).in_use() <= old(leaf_alloc).in_use() + 1,
        old(node_alloc).in_use() <= final(node_alloc).in_use(),
        final(node_alloc).in_use() + 1 <= old(node_alloc).in_use() + hc,
        node_ok(*final(node), hc as nat),
        outcome_shape(r, (hc + 1) as nat, old(node).entries@.len(), final(node).entries@.len()),
        r is Full ==> final(node).entries@ == old(node).entries@,
        leaves_in(final(node).children@, hc as nat) + outcome_leaves(r, hc as nat) == leaves_in(old(node).children@, hc as nat)
            + final(leaf_alloc).in_use() - old(leaf_alloc).in_use(),
        nodes_in(final(node).children@, hc as nat) + outcome_nodes(r, hc as nat) == nodes_in(old(node).children@, hc as nat)
            + final(node_alloc).in_use() - old(node_alloc).in_use(),
        inserted_as(r, flat(old(node).entries@, old(node).children@, hc as nat), kv,
            flat(final(node).entries@, final(node).children@, hc as nat), pending_of_node(*final(node), hc as nat, r)),
        r is Replaced ==> *final(leaf_alloc) == *old(leaf_alloc) && *final(node_alloc) == *old(node_alloc),
        (forall|i: int| #[trigger] child_gap(old(node).entries@, kv.key, i) ==> absorbs_at(old(node).children@, hc as nat, kv.key, i)) ==> {
            &&& !(r is Full)
            &&& *final(leaf_alloc) == *old(leaf_alloc)
            &&& *final(node_alloc) == *old(node_alloc)
        },
    decreases hc + 1, 0nat,
{
    let ghost es = node.entries@;
    let ghost cs = node.children@;
    let ghost s = flat(es, cs, hc as nat);
    match linsearch(&node.entries, kv.key) {
        Ok(i) => {
            let prev = node.replace(i, kv);
            proof {
                lemma_replace_entry(es, cs, hc as nat, i as int, kv);
            }
            InsertOutcome::Replaced(prev)
        },
        Err(i) => {
            let ghost x = seq_of(cs[i as int], hc as nat);
            let ghost pre = pre_of(es.take(i as int), cs.take(i as int), hc as nat);
            let ghost post = post_of(es.skip(i as int), cs.skip(i + 1), hc as nat);
            proof {
                lemma_around(es, cs, hc as nat, i as int);
                lemma_sorted_mid(pre, x, post);
                lemma_lift_has_key(pre, x, post, kv.key);
                assert(child_gap(es, kv.key, i as int));
            }
            let out = insert_rec(&mut node.children[i], hc, kv, leaf_alloc, node_alloc);
            let ghost cs1 = node.children@;
            let ghost c1 = cs1[i as int];
            proof {
                lemma_around(es, cs1, hc as nat, i as int);
                assert(cs1.take(i as int) =~= cs.take(i as int));
                assert(cs1.skip(i + 1) =~= cs.skip(i + 1));
                assert(forall|k: int| 0 <= k < cs1.len() && k != i ==> cs1[k] == cs[k]);
            }
            match out {
                InsertOutcome::Replaced(prev) => {
                    proof {
                        let t = choose|t: int| 0 <= t < x.len() && x[t].key == kv.key && prev == x[t] && seq_of(c1, hc as nat) == x.update(t, kv);
                        lemma_lift_update(pre, x, post, t, kv);
                        assert(flat(es, cs1, hc as nat) == pre + x.update(t, kv) + post);
                        assert(s[pre.len() + t] == prev);
                    }
                    InsertOutcome::Replaced(prev)
                },
                InsertOutcome::Inserted => {
                    proof {
                        let g = choose|g: int| is_gap(x, kv.key, g) && seq_of(c1, hc as nat) == x.insert(g, kv);
                        lemma_lift_gap(pre, x, post, kv.key, g, kv);
                    }
                    InsertOutcome::Inserted
                },
                InsertOutcome::Full(j, e, o) => {
                    let ghost g = choose|g: int| is_gap(x, kv.key, g) && pending_seq(c1, hc as nat, j as nat, e, o) == x.insert(g, kv);
                    proof {
                        lemma_lift_gap(pre, x, post, kv.key, g, kv);
                        lemma_gap_absent(x, kv.key, g);
                        assert(around(es, cs1, hc as nat, i as int, x.insert(g, kv)) == s.insert(pre.len() + g, kv));
                    }
                    proof {
                        if hc == 1 {
                            assert(cs1[i as int].entries().len() == MAX_NUM_ELEMENTS);
                            if i > 0 {
                                assert(cs1[i - 1] == cs[i - 1]);
                            }
                            if i < es.len() {
                                assert(cs1[i + 1] == cs[i + 1]);
                            }
                        }
                    }
                    let r = place_pending(node, i, j, e, o, leaf_alloc, node_alloc, Ghost(hc as nat));
                    proof {
                        let cs2 = node.children@;
                        assert(leaves_in(cs1, hc as nat) == leaves_in(cs.take(i as int), hc as nat) + leaves(c1, hc as nat) + leaves_in(cs.skip(i + 1), hc as nat));
                    }
                    r
                },
            }
        },
    }
}

} // verus!
