//! Removal from a subtree: an entry of an interior record is replaced by its
//! in-order predecessor, and a record left one entry short borrows from a
//! sibling or merges with it.
use vstd::prelude::*;
use crate::slab::SlabAllocator;
use crate::node::{
    KVPair, Leaf, Node, ChildUnion, MAX_NUM_ELEMENTS, MIN_NUM_ELEMENTS, sorted, seq_of, flat,
    leaves, nodes, leaves_in, nodes_in, wf_tree, wf_children, around, pre_of, post_of, linsearch,
    lemma_around, lemma_pre_step, lemma_post_step, lemma_height_bound,
};
use crate::inorder::{has_key, lemma_sorted_mid, lemma_lift_has_key, lemma_lift_remove};
use crate::insert::{same_pool, node_ok};

verus! {

/// `n` is an interior record over children of height `hc` in which child
/// `i` is one entry short of `MIN_NUM_ELEMENTS` and all else is in order.
pub(crate) open spec fn node_short<V>(n: Node<V>, hc: nat, i: int) -> bool {
    &&& n.children@.len() == n.entries@.len() + 1
    &&& 1 <= n.entries@.len() <= MAX_NUM_ELEMENTS
    &&& 0 <= i <= n.entries@.len()
    &&& wf_tree(n.children@[i], hc)
    &&& n.children@[i].entries().len() + 1 == MIN_NUM_ELEMENTS
    &&& forall|k: int|
        0 <= k < n.children@.len() && k != i ==> {
            &&& wf_tree(#[trigger] n.children@[k], hc)
            &&& MIN_NUM_ELEMENTS <= n.children@[k].entries().len()
        }
}

/// Every well-formed subtree has a leaf, and one of height above 1 an
/// interior record.
pub(crate) proof fn lemma_counts_pos<V>(c: ChildUnion<V>, h: nat)
    requires
        wf_tree(c, h),
    ensures
        leaves(c, h) >= 1,
        h > 1 ==> nodes(c, h) >= 1,
    decreases h,
{
    if h > 1 {
        lemma_around(c.entries(), c.kids(), (h - 1) as nat, 0);
        lemma_counts_pos(c.kids()[0], (h - 1) as nat);
    }
}

/// Child `i` of `node` is one entry short and its left sibling has one to
/// spare: the sibling's last entry goes up to the separator, whose old entry
/// goes down to the front of the child.
#[verifier::rlimit(50)]
pub(crate) fn rotate_from_left<V>(node: &mut Node<V>, i: usize, Ghost(hc): Ghost<nat>)
    requires
        hc >= 1,
        node_short(*old(node), hc, i as int),
        i > 0,
        old(node).children@[i - 1].entries().len() > MIN_NUM_ELEMENTS,
    ensures
        node_ok(*final(node), hc),
        final(node).entries@.len() == old(node).entries@.len(),
        flat(final(node).entries@, final(node).children@, hc) == flat(old(node).entries@, old(node).children@, hc),
        leaves_in(final(node).children@, hc) == leaves_in(old(node).children@, hc),
        nodes_in(final(node).children@, hc) == nodes_in(old(node).children@, hc),
{
    let ghost es = node.entries@;
    let ghost cs = node.children@;
    let ghost cl = cs[i - 1];
    let ghost cc = cs[i as int];
    let (kv, o) = node.children[i - 1].pop_back(Ghost(hc));
    let ghost cl2 = node.children@[i - 1];
    let sep = node.replace(i - 1, kv);
    node.children[i].push_front(sep, o, Ghost(hc));
    proof {
        let es2 = node.entries@;
        let cs2 = node.children@;
        let cc2 = cs2[i as int];
        assert(cs2 == cs.update(i - 1, cl2).update(i as int, cc2));
        lemma_around(es, cs, hc, i as int);
        lemma_pre_step(es, cs, hc, i as int);
        lemma_around(es2, cs2, hc, i as int);
        lemma_pre_step(es2, cs2, hc, i as int);
        assert(es2.take(i - 1) =~= es.take(i - 1));
        assert(cs2.take(i - 1) =~= cs.take(i - 1));
        assert(es2.skip(i as int) =~= es.skip(i as int));
        assert(cs2.skip(i + 1) =~= cs.skip(i + 1));
        let a = pre_of(es.take(i - 1), cs.take(i - 1), hc);
        let post = post_of(es.skip(i as int), cs.skip(i + 1), hc);
        assert(flat(es2, cs2, hc) == a + seq_of(cl2, hc) + seq![kv] + seq_of(cc2, hc) + post);
        assert(flat(es, cs, hc) == a + seq_of(cl, hc) + seq![sep] + seq_of(cc, hc) + post);
        assert(flat(es2, cs2, hc) =~= flat(es, cs, hc));
        assert forall|k: int| 0 <= k < cs2.len() implies wf_tree(#[trigger] cs2[k], hc) && MIN_NUM_ELEMENTS <= cs2[k].entries().len() by {
            if k != i - 1 && k != i {
                assert(cs2[k] == cs[k]);
            }
        }
    }
}

/// Child `i` of `node` is one entry short and its right sibling has one to
/// spare: the sibling's first entry goes up to the separator, whose old entry
/// goes down to the end of the child.
#[verifier::rlimit(50)]
pub(crate) fn rotate_from_right<V>(node: &mut Node<V>, i: usize, Ghost(hc): Ghost<nat>)
    requires
        hc >= 1,
        node_short(*old(node), hc, i as int),
        i < old(node).entries@.len(),
        old(node).children@[i + 1].entries().len() > MIN_NUM_ELEMENTS,
    ensures
        node_ok(*final(node), hc),
        final(node).entries@.len() == old(node).entries@.len(),
        flat(final(node).entries@, final(node).children@, hc) == flat(old(node).entries@, old(node).children@, hc),
        leaves_in(final(node).children@, hc) == leaves_in(old(node).children@, hc),
        nodes_in(final(node).children@, hc) == nodes_in(old(node).children@, hc),
{
    let ghost es = node.entries@;
    let ghost cs = node.children@;
    let ghost cr = cs[i + 1];
    let ghost cc = cs[i as int];
    let (kv, o) = node.children[i + 1].pop_front(Ghost(hc));
    let ghost cr2 = node.children@[i + 1];
    let sep = node.replace(i, kv);
    node.children[i].push_back(sep, o, Ghost(hc));
    proof {
        let es2 = node.entries@;
        let cs2 = node.children@;
        let cc2 = cs2[i as int];
        assert(cs2 == cs.update(i + 1, cr2).update(i as int, cc2));
        lemma_around(es, cs, hc, i as int);
        lemma_post_step(es, cs, hc, i as int);
        lemma_around(es2, cs2, hc, i as int);
        lemma_post_step(es2, cs2, hc, i as int);
        assert(es2.take(i as int) =~= es.take(i as int));
        assert(cs2.take(i as int) =~= cs.take(i as int));
        assert(es2.skip(i + 1) =~= es.skip(i + 1));
        assert(cs2.skip(i + 2) =~= cs.skip(i + 2));
        let pre = pre_of(es.take(i as int), cs.take(i as int), hc);
        let z = post_of(es.skip(i + 1), cs.skip(i + 2), hc);
        assert(flat(es2, cs2, hc) == pre + seq_of(cc2, hc) + (seq![kv] + seq_of(cr2, hc) + z));
        assert(flat(es, cs, hc) == pre + seq_of(cc, hc) + (seq![sep] + seq_of(cr, hc) + z));
        assert(flat(es2, cs2, hc) =~= flat(es, cs, hc));
        assert forall|k: int| 0 <= k < cs2.len() implies wf_tree(#[trigger] cs2[k], hc) && MIN_NUM_ELEMENTS <= cs2[k].entries().len() by {
            if k != i + 1 && k != i {
                assert(cs2[k] == cs[k]);
            }
        }
    }
}

/// Children `a` and `a + 1` of `node`, one of them one entry short and the
/// other at `MIN_NUM_ELEMENTS`, are merged around their separator; the slot
/// of child `a + 1` goes back to its allocator.
#[verifier::rlimit(50)]
pub(crate) fn merge_children<V>(
    node: &mut Node<V>,
    a: usize,
    leaf_alloc: &mut SlabAllocator<Leaf<V>>,
    node_alloc: &mut SlabAllocator<Node<V>>,
    Ghost(hc): Ghost<nat>,
)
    requires
        hc >= 1,
        node_short(*old(node), hc, a as int) || node_short(*old(node), hc, a + 1),
        a < old(node).entries@.len(),
        old(node).children@[a as int].entries().len() + old(node).children@[a + 1].entries().len() + 1 <= MAX_NUM_ELEMENTS,
        old(leaf_alloc).wf(),
        old(node_alloc).wf(),
        old(leaf_alloc).in_use() >= leaves_in(old(node).children@, hc),
        old(node_alloc).in_use() >= nodes_in(old(node).children@, hc),
    ensures
        node_ok(*final(node), hc),
        final(node).entries@.len() + 1 == old(node).entries@.len(),
        flat(final(node).entries@, final(node).children@, hc) == flat(old(node).entries@, old(node).children@, hc),
        same_pool(*old(leaf_alloc), *final(leaf_alloc)),
        same_pool(*old(node_alloc), *final(node_alloc)),
        leaves_in(final(node).children@, hc) + old(leaf_alloc).in_use() == leaves_in(old(node).children@, hc) + final(leaf_alloc).in_use(),
        nodes_in(final(node).children@, hc) + old(node_alloc).in_use() == nodes_in(old(node).children@, hc) + final(node_alloc).in_use(),
{
    let ghost es = node.entries@;
    let ghost cs = node.children@;
    let ghost cl = cs[a as int];
    let ghost cr = cs[a + 1];
    proof {
        lemma_around(es, cs, hc, a as int);
        lemma_post_step(es, cs, hc, a as int);
        lemma_counts_pos(cr, hc);
        lemma_counts_pos(cl, hc);
    }
    let (sep, right) = node.remove(a);
    node.children[a].merge_with(sep, right, leaf_alloc, node_alloc, Ghost(hc));
    proof {
        let es2 = node.entries@;
        let cs2 = node.children@;
        let cl2 = cs2[a as int];
        assert(es2 == es.remove(a as int));
        assert(cs2 == cs.remove(a + 1).update(a as int, cl2));
        lemma_around(es2, cs2, hc, a as int);
        assert(es2.take(a as int) =~= es.take(a as int));
        assert(cs2.take(a as int) =~= cs.take(a as int));
        assert(es2.skip(a as int) =~= es.skip(a + 1));
        assert(cs2.skip(a + 1) =~= cs.skip(a + 2));
        let pre = pre_of(es.take(a as int), cs.take(a as int), hc);
        let z = post_of(es.skip(a + 1), cs.skip(a + 2), hc);
        assert(flat(es2, cs2, hc) == pre + seq_of(cl2, hc) + z);
        assert(flat(es, cs, hc) == pre + seq_of(cl, hc) + (seq![sep] + seq_of(cr, hc) + z));
        assert(flat(es2, cs2, hc) =~= flat(es, cs, hc));
        assert forall|k: int| 0 <= k < cs2.len() implies wf_tree(#[trigger] cs2[k], hc) && MIN_NUM_ELEMENTS <= cs2[k].entries().len() by {
            if k < a {
                assert(cs2[k] == cs[k]);
            } else if k > a {
                assert(cs2[k] == cs[k + 1]);
            }
        }
    }
}

/// Child `i` of `node` is one entry short: borrows from the left sibling if
/// it has an entry to spare, else from the right sibling, else merges the
/// child with the left sibling, or with the right one when there is none.
pub(crate) fn fix_child<V>(
    node: &mut Node<V>,
    i: usize,
    leaf_alloc: &mut SlabAllocator<Leaf<V>>,
    node_alloc: &mut SlabAllocator<Node<V>>,
    Ghost(hc): Ghost<nat>,
)
    requires
        hc >= 1,
        node_short(*old(node), hc, i as int),
        old(leaf_alloc).wf(),
        old(node_alloc).wf(),
        old(leaf_alloc).in_use() >= leaves_in(old(node).children@, hc),
        old(node_alloc).in_use() >= nodes_in(old(node).children@, hc),
    ensures
        node_ok(*final(node), hc),
        old(node).entries@.len() <= final(node).entries@.len() + 1,
        final(node).entries@.len() <= old(node).entries@.len(),
        flat(final(node).entries@, final(node).children@, hc) == flat(old(node).entries@, old(node).children@, hc),
        same_pool(*old(leaf_alloc), *final(leaf_alloc)),
        same_pool(*old(node_alloc), *final(node_alloc)),
        leaves_in(final(node).children@, hc) + old(leaf_alloc).in_use() == leaves_in(old(node).children@, hc) + final(leaf_alloc).in_use(),
        nodes_in(final(node).children@, hc) + old(node_alloc).in_use() == nodes_in(old(node).children@, hc) + final(node_alloc).in_use(),
{
    if i > 0 && node.children[i - 1].len() > MIN_NUM_ELEMENTS {
        rotate_from_left(node, i, Ghost(hc));
    } else if i < node.len() && node.children[i + 1].len() > MIN_NUM_ELEMENTS {
        rotate_from_right(node, i, Ghost(hc));
    } else if i > 0 {
        merge_children(node, i - 1, leaf_alloc, node_alloc, Ghost(hc));
    } else {
        merge_children(node, i, leaf_alloc, node_alloc, Ghost(hc));
    }
}

/// Removes the last entry, in order, of the subtree of height `h` owned by
/// `c`, which holds at least one entry.
pub(crate) fn remove_max<V>(
    c: &mut ChildUnion<V>,
    h: usize,
    leaf_alloc: &mut SlabAllocator<Leaf<V>>,
    node_alloc: &mut SlabAllocator<Node<V>>,
) -> (r: KVPair<V>)
    requires
        1 <= h,
        wf_tree(*old(c), h as nat),
        old(c).entries().len() >= 1,
        old(leaf_alloc).wf(),
        old(node_alloc).wf(),
        old(leaf_alloc).in_use() >= leaves(*old(c), h as nat),
        old(node_alloc).in_use() >= nodes(*old(c), h as nat),
    ensures
        wf_tree(*final(c), h as nat),
        old(c).entries().len() <= final(c).entries().len() + 1,
        final(c).entries().len() <= old(c).entries().len(),
        seq_of(*old(c), h as nat).len() > 0,
        r == seq_of(*old(c), h as nat).last(),
        seq_of(*final(c), h as nat) == seq_of(*old(c), h as nat).drop_last(),
        same_pool(*old(leaf_alloc), *final(leaf_alloc)),
        same_pool(*old(node_alloc), *final(node_alloc)),
        leaves(*final(c), h as nat) + old(leaf_alloc).in_use() == leaves(*old(c), h as nat) + final(leaf_alloc).in_use(),
        nodes(*final(c), h as nat) + old(node_alloc).in_use() == nodes(*old(c), h as nat) + final(node_alloc).in_use(),
    decreases h, 1nat,
{
    proof {
        lemma_height_bound(*c, h as nat);
    }
    match c {
        ChildUnion::Leaf(b) => {
            if h != 1 {
                proof {
                    assert(false);
                }
            }
            b.as_mut().pop()
        },
        ChildUnion::Node(b) => {
            if h == 1 {
                proof {
                    assert(false);
                }
            }
            remove_max_node(b.as_mut(), h - 1, leaf_alloc, node_alloc)
        },
    }
}

/// Removes the last entry, in order, below or in the interior record
/// `node`: the one of its rightmost child, which is then brought back up to
/// size.
pub(crate) fn remove_max_node<V>(
    node: &mut Node<V>,
    hc: usize,
    leaf_alloc: &mut SlabAllocator<Leaf<V>>,
    node_alloc: &mut SlabAllocator<Node<V>>,
) -> (r: KVPair<V>)
    requires
        1 <= hc < usize::MAX,
        node_ok(*old(node), hc as nat),
        old(node).entries@.len() >= 1,
        old(leaf_alloc).wf(),
        old(node_alloc).wf(),
        old(leaf_alloc).in_use() >= leaves_in(old(node).children@, hc as nat),
        old(node_alloc).in_use() >= nodes_in(old(node).children@, hc as nat),
    ensures
        node_ok(*final(node), hc as nat),
        old(node).entries@.len() <= final(node).entries@.len() + 1,
        final(node).entries@.len() <= old(node).entries@.len(),
        flat(old(node).entries@, old(node).children@, hc as nat).len() > 0,
        r == flat(old(node).entries@, old(node).children@, hc as nat).last(),
        flat(final(node).entries@, final(node).children@, hc as nat) == flat(old(node).entries@, old(node).children@, hc as nat).drop_last(),
        same_pool(*old(leaf_alloc), *final(leaf_alloc)),
        same_pool(*old(node_alloc), *final(node_alloc)),
        leaves_in(final(node).children@, hc as nat) + old(leaf_alloc).in_use() == leaves_in(old(node).children@, hc as nat) + final(leaf_alloc).in_use(),
        nodes_in(final(node).children@, hc as nat) + old(node_alloc).in_use() == nodes_in(old(node).children@, hc as nat) + final(node_alloc).in_use(),
    decreases hc + 1, 0nat,
{
    let ghost es = node.entries@;
    let ghost cs = node.children@;
    let last = node.len();
    proof {
        lemma_around(es, cs, hc as nat, last as int);
    }
    let r = remove_max(&mut node.children[last], hc, leaf_alloc, node_alloc);
    proof {
        let cs1 = node.children@;
        lemma_around(es, cs1, hc as nat, last as int);
        assert(cs1.take(last as int) =~= cs.take(last as int));
        assert(cs1.skip(last + 1) =~= cs.skip(last + 1));
        assert(es.skip(last as int) =~= Seq::<KVPair<V>>::empty());
        let pre = pre_of(es.take(last as int), cs.take(last as int), hc as nat);
        let x = seq_of(cs[last as int], hc as nat);
        assert(flat(es, cs, hc as nat) =~= pre + x);
        assert(flat(es, cs1, hc as nat) =~= pre + x.drop_last());
        assert((pre + x).drop_last() =~= pre + x.drop_last());
        assert(forall|k: int| 0 <= k < cs1.len() && k != last ==> cs1[k] == cs[k]);
    }
    if node.children[last].len() < MIN_NUM_ELEMENTS {
        fix_child(node, last, leaf_alloc, node_alloc, Ghost(hc as nat));
    }
    r
}

/// Removes the entry with key `key` from the subtree of height `h` owned by
/// `c`, if there is one.
pub(crate) fn remove_rec<V>(
    c: &mut ChildUnion<V>,
    h: usize,
    key: u64,
    leaf_alloc: &mut SlabAllocator<Leaf<V>>,
    node_alloc: &mut SlabAllocator<Node<V>>,
) -> (r: Option<KVPair<V>>)
    requires
        1 <= h,
        wf_tree(*old(c), h as nat),
        old(c).entries().len() >= 1,
        sorted(seq_of(*old(c), h as nat)),
        old(leaf_alloc).wf(),
        old(node_alloc).wf(),
        old(leaf_alloc).in_use() >= leaves(*old(c), h as nat),
        old(node_alloc).in_use() >= nodes(*old(c), h as nat),
    ensures
        wf_tree(*final(c), h as nat),
        old(c).entries().len() <= final(c).entries().len() + 1,
        final(c).entries().len() <= old(c).entries().len(),
        same_pool(*old(leaf_alloc), *final(leaf_alloc)),
        same_pool(*old(node_alloc), *final(node_alloc)),
        leaves(*final(c), h as nat) + old(leaf_alloc).in_use() == leaves(*old(c), h as nat) + final(leaf_alloc).in_use(),
        nodes(*final(c), h as nat) + old(node_alloc).in_use() == nodes(*old(c), h as nat) + final(node_alloc).in_use(),
        r is Some <==> has_key(seq_of(*old(c), h as nat), key),
        r is Some ==> exists|i: int|
            0 <= i < seq_of(*old(c), h as nat).len() && seq_of(*old(c), h as nat)[i].key == key && r.unwrap()
                == seq_of(*old(c), h as nat)[i] && seq_of(*final(c), h as nat) == seq_of(*old(c), h as nat).remove(i),
        r is None ==> {
            &&& seq_of(*final(c), h as nat) == seq_of(*old(c), h as nat)
            &&& final(c).entries().len() == old(c).entries().len()
            &&& *final(leaf_alloc) == *old(leaf_alloc)
            &&& *final(node_alloc) == *old(node_alloc)
            &&& leaves(*final(c), h as nat) == leaves(*old(c), h as nat)
            &&& nodes(*final(c), h as nat) == nodes(*old(c), h as nat)
        },
    decreases h, 1nat,
{
    match c {
        ChildUnion::Leaf(b) => {
            if h != 1 {
                proof {
                    assert(false);
                }
                return None;
            }
            let ghost s = b.value().entries@;
            match linsearch(&b.as_ref().entries, key) {
                Ok(i) => Some(b.as_mut().remove(i)),
                Err(j) => {
                    proof {
                        assert forall|t: int| 0 <= t < s.len() implies s[t].key != key by {
                            if t > j {
                                assert(s[j as int].key < s[t].key);
                            }
                        }
                    }
                    None
                },
            }
        },
        ChildUnion::Node(b) => {
            if h == 1 {
                proof {
                    assert(false);
                }
                return None;
            }
            remove_node(b.as_mut(), h - 1, key, leaf_alloc, node_alloc)
        },
    }
}

/// Removes entry `i` of the interior record `node`: its in-order predecessor
/// is taken from the bottom of the tree and put in its place, and the child
/// it came from is brought back up to size.
#[verifier::rlimit(60)]
pub(crate) fn remove_entry<V>(
    node: &mut Node<V>,
    i: usize,
    hc: usize,
    leaf_alloc: &mut SlabAllocator<Leaf<V>>,
    node_alloc: &mut SlabAllocator<Node<V>>,
) -> (r: KVPair<V>)
    requires
        1 <= hc < usize::MAX,
        node_ok(*old(node), hc as nat),
        i < old(node).entries@.len(),
        old(leaf_alloc).wf(),
        old(node_alloc).wf(),
        old(leaf_alloc).in_use() >= leaves_in(old(node).children@, hc as nat),
        old(node_alloc).in_use() >= nodes_in(old(node).children@, hc as nat),
    ensures
        node_ok(*final(node), hc as nat),
        old(node).entries@.len() <= final(node).entries@.len() + 1,
        final(node).entries@.len() <= old(node).entries@.len(),
        same_pool(*old(leaf_alloc), *final(leaf_alloc)),
        same_pool(*old(node_alloc), *final(node_alloc)),
        leaves_in(final(node).children@, hc as nat) + old(leaf_alloc).in_use() == leaves_in(old(node).children@, hc as nat) + final(leaf_alloc).in_use(),
        nodes_in(final(node).children@, hc as nat) + old(node_alloc).in_use() == nodes_in(old(node).children@, hc as nat) + final(node_alloc).in_use(),
        r == old(node).entries@[i as int],
        ({
            let es = old(node).entries@;
            let cs = old(node).children@;
            let s = flat(es, cs, hc as nat);
            let at = (pre_of(es.take(i as int), cs.take(i as int), hc as nat).len() + seq_of(cs[i as int], hc as nat).len()) as int;
            &&& 0 <= at < s.len()
            &&& s[at] == es[i as int]
            &&& flat(final(node).entries@, final(node).children@, hc as nat) == s.remove(at)
        }),
{
    let ghost es = node.entries@;
    let ghost cs = node.children@;
    let ghost s = flat(es, cs, hc as nat);
    proof {
        lemma_around(es, cs, hc as nat, i as int);
        lemma_post_step(es, cs, hc as nat, i as int);
    }
    let pred = remove_max(&mut node.children[i], hc, leaf_alloc, node_alloc);
    let target = node.replace(i, pred);
    proof {
        let es1 = node.entries@;
        let cs1 = node.children@;
        lemma_around(es1, cs1, hc as nat, i as int);
        lemma_post_step(es1, cs1, hc as nat, i as int);
        assert(es1.take(i as int) =~= es.take(i as int));
        assert(cs1.take(i as int) =~= cs.take(i as int));
        assert(es1.skip(i + 1) =~= es.skip(i + 1));
        assert(cs1.skip(i + 1) =~= cs.skip(i + 1));
        assert(cs1.skip(i + 2) =~= cs.skip(i + 2));
        let pre = pre_of(es.take(i as int), cs.take(i as int), hc as nat);
        let x = seq_of(cs[i as int], hc as nat);
        let y = seq_of(cs[i + 1], hc as nat);
        let z = post_of(es.skip(i + 1), cs.skip(i + 2), hc as nat);
        let at = (pre.len() + x.len()) as int;
        assert(s =~= pre + x.drop_last() + seq![x.last()] + seq![es[i as int]] + y + z);
        assert(flat(es1, cs1, hc as nat) =~= pre + x.drop_last() + seq![x.last()] + y + z);
        assert(s[at] == es[i as int]);
        assert(s.remove(at) =~= flat(es1, cs1, hc as nat));
        assert(forall|k: int| 0 <= k < cs1.len() && k != i ==> cs1[k] == cs[k]);
    }
    if node.children[i].len() < MIN_NUM_ELEMENTS {
        fix_child(node, i, leaf_alloc, node_alloc, Ghost(hc as nat));
    }
    target
}

/// Removes the entry with key `key` below or in the interior record `node`,
/// if there is one. An entry of `node` itself is replaced by its in-order
/// predecessor, taken from the bottom of the tree.
#[verifier::rlimit(60)]
pub(crate) fn remove_node<V>(
    node: &mut Node<V>,
    hc: usize,
    key: u64,
    leaf_alloc: &mut SlabAllocator<Leaf<V>>,
    node_alloc: &mut SlabAllocator<Node<V>>,
) -> (r: Option<KVPair<V>>)
    requires
        1 <= hc < usize::MAX,
        node_ok(*old(node), hc as nat),
        old(node).entries@.len() >= 1,
        sorted(flat(old(node).entries@, old(node).children@, hc as nat)),
        old(leaf_alloc).wf(),
        old(node_alloc).wf(),
        old(leaf_alloc).in_use() >= leaves_in(old(node).children@, hc as nat),
        old(node_alloc).in_use() >= nodes_in(old(node).children@, hc as nat),
    ensures
        node_ok(*final(node), hc as nat),
        old(node).entries@.len() <= final(node).entries@.len() + 1,
        final(node).entries@.len() <= old(node).entries@.len(),
        same_pool(*old(leaf_alloc), *final(leaf_alloc)),
        same_pool(*old(node_alloc), *final(node_alloc)),
        leaves_in(final(node).children@, hc as nat) + old(leaf_alloc).in_use() == leaves_in(old(node).children@, hc as nat) + final(leaf_alloc).in_use(),
        nodes_in(final(node).children@, hc as nat) + old(node_alloc).in_use() == nodes_in(old(node).children@, hc as nat) + final(node_alloc).in_use(),
        ({
            let s = flat(old(node).entries@, old(node).children@, hc as nat);
            let s2 = flat(final(node).entries@, final(node).children@, hc as nat);
            &&& r is Some <==> has_key(s, key)
            &&& r is Some ==> exists|i: int| 0 <= i < s.len() && s[i].key == key && r.unwrap() == s[i] && s2 == s.remove(i)
            &&& r is None ==> {
                &&& s2 == s
                &&& final(node).entries@.len() == old(node).entries@.len()
                &&& *final(leaf_alloc) == *old(leaf_alloc)
                &&& *final(node_alloc) == *old(node_alloc)
                &&& leaves_in(final(node).children@, hc as nat) == leaves_in(old(node).children@, hc as nat)
                &&& nodes_in(final(node).children@, hc as nat) == nodes_in(old(node).children@, hc as nat)
            }
        }),
    decreases hc + 1, 0nat,
{
    let ghost es = node.entries@;
    let ghost cs = node.children@;
    let ghost s = flat(es, cs, hc as nat);
    match linsearch(&node.entries, key) {
        Ok(i) => {
            let target = remove_entry(node, i, hc, leaf_alloc, node_alloc);
            Some(target)
        },
        Err(i) => {
            let ghost x = seq_of(cs[i as int], hc as nat);
            let ghost pre = pre_of(es.take(i as int), cs.take(i as int), hc as nat);
            let ghost post = post_of(es.skip(i as int), cs.skip(i + 1), hc as nat);
            proof {
                lemma_around(es, cs, hc as nat, i as int);
                lemma_sorted_mid(pre, x, post);
                lemma_lift_has_key(pre, x, post, key);
            }
            let r = remove_rec(&mut node.children[i], hc, key, leaf_alloc, node_alloc);
            proof {
                let cs1 = node.children@;
                lemma_around(es, cs1, hc as nat, i as int);
                assert(cs1.take(i as int) =~= cs.take(i as int));
                assert(cs1.skip(i + 1) =~= cs.skip(i + 1));
                assert(forall|k: int| 0 <= k < cs1.len() && k != i ==> cs1[k] == cs[k]);
                if r is Some {
                    let t = choose|t: int| 0 <= t < x.len() && x[t].key == key && r.unwrap() == x[t] && seq_of(cs1[i as int], hc as nat) == x.remove(t);
                    lemma_lift_remove(pre, x, post, t);
                }
            }
            if node.children[i].len() < MIN_NUM_ELEMENTS {
                fix_child(node, i, leaf_alloc, node_alloc, Ghost(hc as nat));
            }
            r
        },
    }
}

/// Gives the slots of every record of the subtree of height `h` owned by
/// `c` back to their allocators.
pub(crate) fn free_subtree<V>(
    c: ChildUnion<V>,
    h: usize,
    leaf_alloc: &mut SlabAllocator<Leaf<V>>,
    node_alloc: &mut SlabAllocator<Node<V>>,
)
    requires
        1 <= h,
        wf_tree(c, h as nat),
        old(leaf_alloc).wf(),
        old(node_alloc).wf(),
        old(leaf_alloc).in_use() >= leaves(c, h as nat),
        old(node_alloc).in_use() >= nodes(c, h as nat),
    ensures
        same_pool(*old(leaf_alloc), *final(leaf_alloc)),
        same_pool(*old(node_alloc), *final(node_alloc)),
        final(leaf_alloc).in_use() + leaves(c, h as nat) == old(leaf_alloc).in_use(),
        final(node_alloc).in_use() + nodes(c, h as nat) == old(node_alloc).in_use(),
    decreases h,
{
    match c {
        ChildUnion::Leaf(b) => {
            b.free(leaf_alloc);
        },
        ChildUnion::Node(b) => {
            let ghost c0 = c;
            let mut n = b.free_move(node_alloc);
            let ghost cs = n.children@;
            let ghost la0 = leaf_alloc.in_use();
            let ghost na0 = node_alloc.in_use();
            while n.children.len() > 0
                invariant
                    h > 1,
                    wf_children(cs, (h - 1) as nat),
                    n.children@.len() <= cs.len(),
                    n.children@ == cs.take(n.children@.len() as int),
                    leaf_alloc.wf(),
                    node_alloc.wf(),
                    same_pool(*old(leaf_alloc), *leaf_alloc),
                    same_pool(*old(node_alloc), *node_alloc),
                    leaf_alloc.in_use() + leaves_in(cs, (h - 1) as nat) == la0 + leaves_in(n.children@, (h - 1) as nat),
                    node_alloc.in_use() + nodes_in(cs, (h - 1) as nat) == na0 + nodes_in(n.children@, (h - 1) as nat),
                    leaf_alloc.in_use() >= leaves_in(n.children@, (h - 1) as nat),
                    node_alloc.in_use() >= nodes_in(n.children@, (h - 1) as nat),
                decreases n.children@.len(),
            {
                let ghost before = n.children@;
                let child = n.children.pop().unwrap();
                proof {
                    assert(before.drop_last() =~= n.children@);
                    assert(before.last() == child);
                    assert(n.children@ =~= cs.take(n.children@.len() as int));
                    assert(child == cs[before.len() - 1]);
                }
                free_subtree(child, h - 1, leaf_alloc, node_alloc);
            }
            proof {
                assert(leaves_in(Seq::<ChildUnion<V>>::empty(), (h - 1) as nat) == 0);
                assert(nodes_in(Seq::<ChildUnion<V>>::empty(), (h - 1) as nat) == 0);
            }
        },
    }
}

} // verus!
