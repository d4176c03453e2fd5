//! Lookup in a subtree, shared or mutable, and the in-order list of keys.
use vstd::prelude::*;
use crate::node::{
    KVPair, Leaf, Node, ChildUnion, MAX_NUM_ELEMENTS, sorted, seq_of, flat, leaves, nodes,
    leaves_in, nodes_in, wf_tree, wf_children, pre_of, post_of, linsearch, lemma_around,
    lemma_pre_step, lemma_child_update_all,
};
use crate::inorder::{
    has_key, lemma_sorted_mid, lemma_lift_has_key, lemma_index_of, lemma_lift_update_all, index_of,
};
use crate::insert::{node_ok, lemma_replace_entry, lemma_replace_entry_all};

verus! {

/// Looks `key` up in the subtree of height `h` owned by `c`.
pub(crate) fn get_in<'a, V>(c: &'a ChildUnion<V>, h: usize, key: u64) -> (r: Option<&'a KVPair<V>>)
    requires
        1 <= h,
        wf_tree(*c, h as nat),
        sorted(seq_of(*c, h as nat)),
    ensures
        r is Some <==> has_key(seq_of(*c, h as nat), key),
        r is Some ==> exists|i: int|
            0 <= i < seq_of(*c, h as nat).len() && seq_of(*c, h as nat)[i].key == key && *r.unwrap()
                == seq_of(*c, h as nat)[i],
    decreases h,
{
    match c {
        ChildUnion::Leaf(b) => {
            let leaf = b.as_ref();
            let ghost s = leaf.entries@;
            match linsearch(&leaf.entries, key) {
                Ok(i) => Some(&leaf.entries[i]),
                Err(j) => {
                    proof {
                        assert forall|t: int| 0 <= t < s.len() implies s[t].key != key by {
                            if t > j {
                                assert(s[j as int].key < s[t].key);
                            }
                        }
                    }
                    None
                },
            }
        },
        ChildUnion::Node(b) => {
            let node = b.as_ref();
            let ghost es = node.entries@;
            let ghost cs = node.children@;
            let ghost hc = (h - 1) as nat;
            match linsearch(&node.entries, key) {
                Ok(i) => {
                    proof {
                        lemma_replace_entry(es, cs, hc, i as int, es[i as int]);
                    }
                    Some(&node.entries[i])
                },
                Err(i) => {
                    proof {
                        let x = seq_of(cs[i as int], hc);
                        let pre = pre_of(es.take(i as int), cs.take(i as int), hc);
                        let post = post_of(es.skip(i as int), cs.skip(i + 1), hc);
                        lemma_around(es, cs, hc, i as int);
                        lemma_sorted_mid(pre, x, post);
                        lemma_lift_has_key(pre, x, post, key);
                        assert forall|t: int| 0 <= t < x.len() implies (pre + x + post)[pre.len() + t] == x[t] by {}
                    }
                    get_in(&node.children[i], h - 1, key)
                },
            }
        },
    }
}


/// Mutable access to the value stored under `key` in the subtree of height
/// `h` owned by `c`, which holds the key.
pub(crate) fn get_mut_in<'a, V>(c: &'a mut ChildUnion<V>, h: usize, key: u64) -> (r: (&'a u64, &'a mut V))
    requires
        1 <= h,
        wf_tree(*old(c), h as nat),
        sorted(seq_of(*old(c), h as nat)),
        has_key(seq_of(*old(c), h as nat), key),
    ensures
        wf_tree(*final(c), h as nat),
        final(c).entries().len() == old(c).entries().len(),
        leaves(*final(c), h as nat) == leaves(*old(c), h as nat),
        nodes(*final(c), h as nat) == nodes(*old(c), h as nat),
        ({
            let s = seq_of(*old(c), h as nat);
            &&& *r.0 == key
            &&& *r.1 == s[index_of(s, key)].value
            &&& seq_of(*final(c), h as nat) == s.update(index_of(s, key), KVPair { key, value: *final(r.1) })
        }),
    decreases h, 1nat,
{
    match c {
        ChildUnion::Leaf(b) => {
            let ghost s = b.value().entries@;
            let i = match linsearch(&b.as_ref().entries, key) {
                Ok(i) => i,
                Err(j) => {
                    proof {
                        let t = choose|t: int| 0 <= t < s.len() && s[t].key == key;
                        if t > j {
                            assert(s[j as int].key < s[t].key);
                        }
                        assert(false);
                    }
                    0
                },
            };
            proof {
                lemma_index_of(s, i as int);
            }
            b.as_mut().entry_mut(i)
        },
        ChildUnion::Node(b) => get_mut_node(b.as_mut(), h - 1, key),
    }
}

/// Mutable access to the value stored under `key` below or in the interior
/// record `node`, which holds the key.
pub(crate) fn get_mut_node<'a, V>(node: &'a mut Node<V>, hc: usize, key: u64) -> (r: (&'a u64, &'a mut V))
    requires
        1 <= hc < usize::MAX,
        node_ok(*old(node), hc as nat),
        sorted(flat(old(node).entries@, old(node).children@, hc as nat)),
        has_key(flat(old(node).entries@, old(node).children@, hc as nat), key),
    ensures
        node_ok(*final(node), hc as nat),
        final(node).entries@.len() == old(node).entries@.len(),
        leaves_in(final(node).children@, hc as nat) == leaves_in(old(node).children@, hc as nat),
        nodes_in(final(node).children@, hc as nat) == nodes_in(old(node).children@, hc as nat),
        ({
            let s = flat(old(node).entries@, old(node).children@, hc as nat);
            &&& *r.0 == key
            &&& *r.1 == s[index_of(s, key)].value
            &&& flat(final(node).entries@, final(node).children@, hc as nat) == s.update(index_of(s, key), KVPair { key, value: *final(r.1) })
        }),
    decreases hc + 1, 0nat,
{
    let ghost es = node.entries@;
    let ghost cs = node.children@;
    let ghost s = flat(es, cs, hc as nat);
    match linsearch(&node.entries, key) {
        Ok(i) => {
            proof {
                lemma_replace_entry_all(es, cs, hc as nat, i as int);
                let at = (pre_of(es.take(i as int), cs.take(i as int), hc as nat).len() + seq_of(cs[i as int], hc as nat).len()) as int;
                lemma_index_of(s, at);
            }
            node.entry_mut(i)
        },
        Err(i) => {
            let ghost x = seq_of(cs[i as int], hc as nat);
            let ghost pre = pre_of(es.take(i as int), cs.take(i as int), hc as nat);
            let ghost post = post_of(es.skip(i as int), cs.skip(i + 1), hc as nat);
            proof {
                lemma_around(es, cs, hc as nat, i as int);
                lemma_sorted_mid(pre, x, post);
                lemma_lift_has_key(pre, x, post, key);
                lemma_child_update_all(es, cs, hc as nat, i as int);
                let t = index_of(x, key);
                lemma_index_of(x, t);
                lemma_lift_update_all(pre, x, post, t);
                lemma_index_of(s, pre.len() + t);
                assert forall|y: ChildUnion<V>, k: int| 0 <= k < cs.len() && k != i implies #[trigger] cs.update(i as int, y)[k] == cs[k] by {}
            }
            get_mut_in(node.child_mut(i), hc, key)
        },
    }
}

/// The keys of `s`, in order.
pub open spec fn keys_of<V>(s: Seq<KVPair<V>>) -> Seq<u64> {
    s.map_values(|e: KVPair<V>| e.key)
}

pub(crate) proof fn lemma_keys_of_add<V>(a: Seq<KVPair<V>>, b: Seq<KVPair<V>>)
    ensures
        keys_of(a + b) == keys_of(a) + keys_of(b),
{
    assert(keys_of(a + b) =~= keys_of(a) + keys_of(b));
}

/// Appends the keys of the subtree of height `h` owned by `c` to `out`, in
/// order.
pub(crate) fn collect_keys<V>(c: &ChildUnion<V>, h: usize, out: &mut Vec<u64>)
    requires
        1 <= h,
        wf_tree(*c, h as nat),
    ensures
        final(out)@ == old(out)@ + keys_of(seq_of(*c, h as nat)),
    decreases h,
{
    match c {
        ChildUnion::Leaf(b) => {
            let leaf = b.as_ref();
            let mut i: usize = 0;
            while i < leaf.entries.len()
                invariant
                    i <= leaf.entries@.len(),
                    h == 1,
                    seq_of(*c, h as nat) == leaf.entries@,
                    out@ == old(out)@ + keys_of(leaf.entries@.take(i as int)),
                decreases leaf.entries@.len() - i,
            {
                out.push(leaf.entries[i].key);
                proof {
                    assert(leaf.entries@.take(i + 1) =~= leaf.entries@.take(i as int).push(leaf.entries@[i as int]));
                    lemma_keys_of_add(leaf.entries@.take(i as int), seq![leaf.entries@[i as int]]);
                }
                i = i + 1;
            }
            proof {
                assert(leaf.entries@.take(i as int) =~= leaf.entries@);
            }
        },
        ChildUnion::Node(b) => {
            let node = b.as_ref();
            let ghost es = node.entries@;
            let ghost cs = node.children@;
            let ghost hc = (h - 1) as nat;
            let mut i: usize = 0;
            proof {
                assert(es.take(0) =~= Seq::<KVPair<V>>::empty());
                assert(out@ =~= old(out)@ + keys_of(pre_of(es.take(0), cs.take(0), hc)));
            }
            while i < node.entries.len()
                invariant
                    i <= es.len(),
                    h > 1,
                    hc == h - 1,
                    es == node.entries@,
                    cs == node.children@,
                    cs.len() == es.len() + 1,
                    es.len() <= MAX_NUM_ELEMENTS,
                    wf_children(cs, hc),
                    seq_of(*c, h as nat) == flat(es, cs, hc),
                    out@ == old(out)@ + keys_of(pre_of(es.take(i as int), cs.take(i as int), hc)),
                decreases es.len() - i,
            {
                collect_keys(&node.children[i], h - 1, out);
                out.push(node.entries[i].key);
                proof {
                    lemma_pre_step(es, cs, hc, i + 1);
                    let p0 = pre_of(es.take(i as int), cs.take(i as int), hc);
                    lemma_keys_of_add(p0, seq_of(cs[i as int], hc));
                    lemma_keys_of_add(p0 + seq_of(cs[i as int], hc), seq![es[i as int]]);
                }
                i = i + 1;
            }
            collect_keys(&node.children[i], h - 1, out);
            proof {
                lemma_around(es, cs, hc, i as int);
                assert(es.skip(i as int) =~= Seq::<KVPair<V>>::empty());
                lemma_keys_of_add(pre_of(es.take(i as int), cs.take(i as int), hc), seq_of(cs[i as int], hc));
                assert(flat(es, cs, hc) =~= pre_of(es.take(i as int), cs.take(i as int), hc) + seq_of(cs[i as int], hc));
            }
        },
    }
}

} // verus!
