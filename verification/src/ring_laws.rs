//! Laws of the consistent hash ring, stated over its model.

use vstd::prelude::*;
use crate::ring::{
    first_occurrences, is_successor, lemma_first_occurrences_distinct,
    lemma_first_occurrences_prefix, lemma_lookup_is_owner_of_successor, lemma_owners_index,
    lemma_remove_entry, model_wf, owners, ring_candidates, ring_lookup, ring_walk,
    sorted_positions, start_index, up_to, with_vnodes, without_node, RingModel,
};

verus! {

/// The first index of a sorted sequence whose position is at or after `h`.
proof fn lemma_first_at_or_after(vs: Seq<(u32, Seq<char>)>, h: u32) -> (i: int)
    requires
        sorted_positions(vs),
        exists|j: int| 0 <= j < vs.len() && vs[j].0 >= h,
    ensures
        0 <= i < vs.len(),
        vs[i].0 >= h,
        forall|j: int| 0 <= j < i ==> vs[j].0 < h,
    decreases vs.len(),
{
    let p = vs.drop_last();
    if exists|j: int| 0 <= j < p.len() && p[j].0 >= h {
        let i = lemma_first_at_or_after(p, h);
        assert(forall|j: int| 0 <= j < p.len() ==> p[j] == vs[j]);
        i
    } else {
        let j = choose|j: int| 0 <= j < vs.len() && vs[j].0 >= h;
        assert forall|q: int| 0 <= q < vs.len() - 1 implies vs[q].0 < h by {
            assert(p[q] == vs[q]);
        }
        if j < vs.len() - 1 {
            assert(p[j] == vs[j]);
        }
        vs.len() - 1
    }
}

/// A sorted ring has a position serving `h` exactly when it has a virtual node.
pub proof fn lemma_successor_exists(vs: Seq<(u32, Seq<char>)>, h: u32)
    requires
        sorted_positions(vs),
    ensures
        (exists|k: u32| is_successor(owners(vs), h, k)) <==> vs.len() > 0,
{
    let m = owners(vs);
    if vs.len() == 0 {
        if exists|k: u32| is_successor(m, h, k) {
            let k = choose|k: u32| is_successor(m, h, k);
            assert(m.contains_key(k));
        }
    } else if exists|j: int| 0 <= j < vs.len() && vs[j].0 >= h {
        let i = lemma_first_at_or_after(vs, h);
        let k = vs[i].0;
        lemma_owners_index(vs, i);
        assert forall|k2: u32| m.contains_key(k2) && k2 >= h implies k <= k2 by {
            let j = choose|j: int| 0 <= j < vs.len() && vs[j].0 == k2;
            if j < i {
                assert(vs[j].0 < h);
            } else if j > i {
                assert(vs[i].0 < vs[j].0);
            }
        }
        assert(is_successor(m, h, k));
    } else {
        let k = vs[0].0;
        lemma_owners_index(vs, 0);
        assert forall|k2: u32| m.contains_key(k2) implies k2 < h by {
            let j = choose|j: int| 0 <= j < vs.len() && vs[j].0 == k2;
        }
        assert forall|k2: u32| m.contains_key(k2) implies k <= k2 by {
            let j = choose|j: int| 0 <= j < vs.len() && vs[j].0 == k2;
            if j > 0 {
                assert(vs[0].0 < vs[j].0);
            }
        }
        assert(is_successor(m, h, k));
    }
}

/// A lookup finds a node exactly when the ring holds a virtual node.
pub proof fn law_lookup_defined_iff_vnodes(v: RingModel, h: u32)
    requires
        model_wf(v),
    ensures
        ring_lookup(owners(v.vnodes), h) is Some <==> v.vnodes.len() > 0,
{
    lemma_successor_exists(v.vnodes, h);
}

/// A lookup only ever finds a physical node of the ring.
pub proof fn law_lookup_finds_ring_node(v: RingModel, h: u32)
    requires
        model_wf(v),
    ensures
        ring_lookup(owners(v.vnodes), h) matches Some(n) ==> v.weights.contains_key(n),
{
    let m = owners(v.vnodes);
    if exists|k: u32| is_successor(m, h, k) {
        let k = choose|k: u32| is_successor(m, h, k);
        assert(m.contains_key(k));
    }
}

/// When the ring has a single physical node and any virtual node, every
/// lookup finds that node.
pub proof fn law_single_node_serves_every_key(v: RingModel, node: Seq<char>, h: u32)
    requires
        model_wf(v),
        v.weights.dom() == set![node],
        v.vnodes.len() > 0,
    ensures
        ring_lookup(owners(v.vnodes), h) == Some(node),
{
    law_lookup_defined_iff_vnodes(v, h);
    law_lookup_finds_ring_node(v, h);
    let n = ring_lookup(owners(v.vnodes), h)->0;
    assert(v.weights.dom().contains(n));
}

/// An ownership map with no entry is empty, and so is its ring.
proof fn lemma_no_owner_no_vnodes(vs: Seq<(u32, Seq<char>)>)
    requires
        sorted_positions(vs),
        forall|k: u32| !owners(vs).contains_key(k),
    ensures
        vs.len() == 0,
{
    if vs.len() > 0 {
        lemma_owners_index(vs, 0);
    }
}

/// Removing a node moves no key that another node serves: every position
/// served by another node before the removal is served by it afterwards.
pub proof fn law_remove_keeps_other_nodes_keys(
    v0: RingModel,
    v1: RingModel,
    node: Seq<char>,
    h: u32,
)
    requires
        model_wf(v0),
        model_wf(v1),
        owners(v1.vnodes) == without_node(owners(v0.vnodes), node),
        ring_lookup(owners(v0.vnodes), h) != Some(node),
    ensures
        ring_lookup(owners(v1.vnodes), h) == ring_lookup(owners(v0.vnodes), h),
{
    let m0 = owners(v0.vnodes);
    let m1 = owners(v1.vnodes);
    lemma_successor_exists(v0.vnodes, h);
    lemma_successor_exists(v1.vnodes, h);
    if exists|k: u32| is_successor(m0, h, k) {
        let k = choose|k: u32| is_successor(m0, h, k);
        lemma_lookup_is_owner_of_successor(m0, h, k);
        assert(m1.contains_key(k));
        if exists|k2: u32| m0.contains_key(k2) && k2 >= h {
            assert(m1.contains_key(k) && k >= h);
        } else {
            assert forall|k2: u32| !(m1.contains_key(k2) && k2 >= h) by {
                if m1.contains_key(k2) {
                    assert(m0.contains_key(k2));
                }
            }
        }
        assert(is_successor(m1, h, k));
        lemma_lookup_is_owner_of_successor(m1, h, k);
    } else {
        assert forall|k: u32| !m1.contains_key(k) by {
            if m1.contains_key(k) {
                assert(m0.contains_key(k));
                lemma_no_owner_no_vnodes(v0.vnodes);
            }
        }
        lemma_no_owner_no_vnodes(v1.vnodes);
    }
}

/// Adding (or re-weighting) a node moves a key served by another node only
/// to the added node.
pub proof fn law_add_moves_keys_only_to_added_node(
    v0: RingModel,
    v1: RingModel,
    node: Seq<char>,
    count: nat,
    h: u32,
)
    requires
        model_wf(v0),
        model_wf(v1),
        owners(v1.vnodes) == with_vnodes(without_node(owners(v0.vnodes), node), node, count),
        ring_lookup(owners(v0.vnodes), h) != Some(node),
    ensures
        ring_lookup(owners(v1.vnodes), h) == ring_lookup(owners(v0.vnodes), h)
            || ring_lookup(owners(v1.vnodes), h) == Some(node),
{
    let m0 = owners(v0.vnodes);
    let m1 = owners(v1.vnodes);
    let base = without_node(m0, node);
    lemma_successor_exists(v0.vnodes, h);
    lemma_successor_exists(v1.vnodes, h);
    let positions = crate::ring::node_positions(node, count);
    if exists|k0: u32| is_successor(m0, h, k0) {
        let k0 = choose|k0: u32| is_successor(m0, h, k0);
        lemma_lookup_is_owner_of_successor(m0, h, k0);
        assert(m0[k0] != node);
        assert(base.contains_key(k0));
        assert(m1.contains_key(k0));
        let j = choose|j: int| 0 <= j < v1.vnodes.len() && v1.vnodes[j].0 == k0;
        assert(v1.vnodes.len() > 0);
        let k1 = choose|k1: u32| is_successor(m1, h, k1);
        lemma_lookup_is_owner_of_successor(m1, h, k1);
        if !positions.contains(k1) {
            assert(base.contains_key(k1));
            assert(m0.contains_key(k1));
            assert(m1[k1] == m0[k1]);
            if exists|k2: u32| m0.contains_key(k2) && k2 >= h {
                assert(k0 >= h);
                assert(m1.contains_key(k0) && k0 >= h);
                assert(k1 >= h);
                assert(k1 <= k0 && k0 <= k1);
            } else {
                if exists|k2: u32| m1.contains_key(k2) && k2 >= h {
                    assert(k1 >= h);
                    assert(m0.contains_key(k1) && k1 >= h);
                }
                assert(k1 <= k0 && k0 <= k1);
            }
            assert(k0 == k1);
        } else {
            assert(m1[k1] == node);
        }
    } else {
        assert(v0.vnodes.len() == 0);
        assert forall|k: u32| !m0.contains_key(k) by {
            if m0.contains_key(k) {
                let j = choose|j: int| 0 <= j < v0.vnodes.len() && v0.vnodes[j].0 == k;
            }
        }
        if exists|k1: u32| is_successor(m1, h, k1) {
            let k1 = choose|k1: u32| is_successor(m1, h, k1);
            lemma_lookup_is_owner_of_successor(m1, h, k1);
            assert(!base.contains_key(k1));
            assert(positions.contains(k1));
        }
    }
}

/// Adding a node with at least one virtual node leaves every key served.
pub proof fn law_add_serves_every_key(v0: RingModel, v1: RingModel, node: Seq<char>, count: nat, h: u32)
    requires
        model_wf(v1),
        count > 0,
        owners(v1.vnodes) == with_vnodes(without_node(owners(v0.vnodes), node), node, count),
    ensures
        ring_lookup(owners(v1.vnodes), h) is Some,
{
    let p = crate::hashing::vnode_position(node, 0);
    assert(crate::ring::node_positions(node, count).contains(p));
    assert(owners(v1.vnodes).contains_key(p));
    if v1.vnodes.len() == 0 {
        lemma_no_owner_no_vnodes(v1.vnodes);
    }
    law_lookup_defined_iff_vnodes(v1, h);
}

/// Two sorted rings with the same owners are the same ring.
pub proof fn lemma_sorted_owners_determine(a: Seq<(u32, Seq<char>)>, b: Seq<(u32, Seq<char>)>)
    requires
        sorted_positions(a),
        sorted_positions(b),
        owners(a) == owners(b),
    ensures
        a == b,
    decreases a.len(),
{
    if a.len() == 0 {
        assert forall|k: u32| !owners(b).contains_key(k) by {
            if owners(b).contains_key(k) {
                let j = choose|j: int| 0 <= j < a.len() && a[j].0 == k;
            }
        }
        lemma_no_owner_no_vnodes(b);
        assert(a =~= b);
    } else {
        if b.len() == 0 {
            lemma_owners_index(a, 0);
            let j = choose|j: int| 0 <= j < b.len() && b[j].0 == a[0].0;
        }
        lemma_owners_index(a, 0);
        lemma_owners_index(b, 0);
        let ja = choose|j: int| 0 <= j < a.len() && a[j].0 == b[0].0;
        let jb = choose|j: int| 0 <= j < b.len() && b[j].0 == a[0].0;
        if ja > 0 {
            assert(a[0].0 < a[ja].0);
        }
        if jb > 0 {
            assert(b[0].0 < b[jb].0);
        }
        assert(a[0].0 == b[0].0);
        assert(a[0] == b[0]);
        lemma_remove_entry(a, 0);
        lemma_remove_entry(b, 0);
        lemma_sorted_owners_determine(a.remove(0), b.remove(0));
        assert(a =~= seq![a[0]] + a.remove(0));
        assert(b =~= seq![b[0]] + b.remove(0));
    }
}

/// Removing a node and adding it back with the same weight restores the
/// ring, provided the node still owned all of its virtual nodes.
pub proof fn law_remove_then_add_restores(
    v: RingModel,
    removed: RingModel,
    added: RingModel,
    node: Seq<char>,
)
    requires
        model_wf(v),
        v.weights.contains_key(node),
        forall|i: nat|
            i < v.replicas * v.weights[node] ==> {
                &&& #[trigger] owners(v.vnodes).contains_key(
                    crate::hashing::vnode_position(node, i),
                )
                &&& owners(v.vnodes)[crate::hashing::vnode_position(node, i)] == node
            },
        model_wf(removed),
        removed.replicas == v.replicas,
        removed.weights == v.weights.remove(node),
        owners(removed.vnodes) == without_node(owners(v.vnodes), node),
        model_wf(added),
        added.replicas == removed.replicas,
        added.weights == removed.weights.insert(node, v.weights[node]),
        owners(added.vnodes) == with_vnodes(
            without_node(owners(removed.vnodes), node),
            node,
            v.replicas * v.weights[node],
        ),
    ensures
        added == v,
{
    let m = owners(v.vnodes);
    let count = v.replicas * v.weights[node];
    let positions = crate::ring::node_positions(node, count);
    let target = with_vnodes(without_node(without_node(m, node), node), node, count);
    assert forall|h: u32| target.contains_key(h) <==> m.contains_key(h) by {
        if positions.contains(h) {
            let i = choose|i: nat| i < count && h == crate::hashing::vnode_position(node, i);
            assert(owners(v.vnodes).contains_key(crate::hashing::vnode_position(node, i)));
        }
    }
    assert forall|h: u32| #[trigger] target.contains_key(h) implies target[h] == m[h] by {
        if positions.contains(h) {
            let i = choose|i: nat| i < count && h == crate::hashing::vnode_position(node, i);
            assert(owners(v.vnodes).contains_key(crate::hashing::vnode_position(node, i)));
        } else {
            assert(m.contains_key(h));
            if m[h] == node {
                assert(positions.contains(h));
            }
        }
    }
    assert(target =~= m);
    lemma_sorted_owners_determine(added.vnodes, v.vnodes);
    assert(added.weights =~= v.weights);
}

/// Adding a node that is not in the ring and then removing it restores the
/// ring, provided none of the new node's virtual nodes fell on a taken position.
pub proof fn law_add_then_remove_restores(
    v: RingModel,
    added: RingModel,
    removed: RingModel,
    node: Seq<char>,
    weight: nat,
)
    requires
        model_wf(v),
        !v.weights.contains_key(node),
        forall|i: nat|
            i < v.replicas * weight ==> !#[trigger] owners(v.vnodes).contains_key(
                crate::hashing::vnode_position(node, i),
            ),
        model_wf(added),
        added.replicas == v.replicas,
        added.weights == v.weights.insert(node, weight),
        owners(added.vnodes) == with_vnodes(
            without_node(owners(v.vnodes), node),
            node,
            v.replicas * weight,
        ),
        model_wf(removed),
        removed.replicas == added.replicas,
        removed.weights == added.weights.remove(node),
        owners(removed.vnodes) == without_node(owners(added.vnodes), node),
    ensures
        removed == v,
{
    let m = owners(v.vnodes);
    let count = v.replicas * weight;
    let positions = crate::ring::node_positions(node, count);
    assert forall|h: u32| #[trigger] m.contains_key(h) implies m[h] != node && !positions.contains(h) by {
        if positions.contains(h) {
            let i = choose|i: nat| i < count && h == crate::hashing::vnode_position(node, i);
            assert(!owners(v.vnodes).contains_key(crate::hashing::vnode_position(node, i)));
        }
    }
    let target = without_node(with_vnodes(without_node(m, node), node, count), node);
    assert forall|h: u32| target.contains_key(h) <==> m.contains_key(h) by {}
    assert forall|h: u32| #[trigger] target.contains_key(h) implies target[h] == m[h] by {}
    assert(target =~= m);
    lemma_sorted_owners_determine(removed.vnodes, v.vnodes);
    assert(removed.weights =~= v.weights);
}

/// The candidates are distinct physical nodes of the ring, and the first
/// of them is the node a lookup finds.
pub proof fn law_candidates_start_with_lookup(v: RingModel, h: u32, n: nat)
    requires
        model_wf(v),
    ensures
        ring_candidates(v, h, n).no_duplicates(),
        forall|i: int|
            0 <= i < ring_candidates(v, h, n).len() ==> v.weights.contains_key(
                #[trigger] ring_candidates(v, h, n)[i],
            ),
        n > 0 && v.vnodes.len() > 0 ==> ring_candidates(v, h, n).len() > 0 && Some(
            ring_candidates(v, h, n)[0],
        ) == ring_lookup(owners(v.vnodes), h),
{
    let vs = v.vnodes;
    let c = ring_candidates(v, h, n);
    if vs.len() > 0 {
        lemma_successor_exists(vs, h);
        let k = choose|k: u32| is_successor(owners(vs), h, k);
        let j = choose|j: int| 0 <= j < vs.len() && vs[j].0 == k;
        assert(0 <= j < vs.len() && is_successor(owners(vs), h, vs[j].0));
        let start = start_index(vs, h);
        let walk = ring_walk(vs, start);
        let fo = first_occurrences(walk);
        lemma_first_occurrences_distinct(walk);
        let limit: nat = if n <= v.weights.len() {
            n
        } else {
            v.weights.len()
        };
        assert(c == up_to(fo, limit));
        assert forall|a: int, b: int| 0 <= a < c.len() && 0 <= b < c.len() && a != b implies c[a]
            != c[b] by {
            assert(c[a] == fo[a] && c[b] == fo[b]);
        }
        assert forall|i: int| 0 <= i < c.len() implies v.weights.contains_key(#[trigger] c[i]) by {
            assert(c[i] == fo[i]);
            assert(fo.contains(fo[i]));
            assert(walk.contains(fo[i]));
            let q = choose|q: int| 0 <= q < walk.len() && walk[q] == fo[i];
            let e = (start + q) % (vs.len() as int);
            lemma_owners_index(vs, e);
        }
        if n > 0 {
            lemma_owners_index(vs, 0);
            assert(v.weights.contains_key(vs[0].1));
            if v.weights.len() == 0 {
                v.weights.dom().lemma_len0_is_empty();
                assert(v.weights.dom().contains(vs[0].1));
            }
            lemma_first_occurrences_prefix(walk, 1, walk.len() as int);
            assert(walk.take(1).drop_last() =~= Seq::<Seq<char>>::empty());
            assert(first_occurrences(Seq::<Seq<char>>::empty()) =~= Seq::<Seq<char>>::empty());
            assert(first_occurrences(walk.take(1).drop_last()) =~= Seq::<Seq<char>>::empty());
            assert(first_occurrences(walk.take(1)) =~= seq![walk[0]]);
            assert(walk.take(walk.len() as int) =~= walk);
            let fo1 = first_occurrences(walk.take(1));
            assert(fo1 == first_occurrences(walk.take(walk.len() as int)).take(fo1.len() as int));
            assert(fo1 == fo.take(1));
            assert(fo.take(1)[0] == fo[0]);
            assert(fo[0] == walk[0]);
            assert(c[0] == fo[0]);
            assert(0 <= start < vs.len());
            vstd::arithmetic::div_mod::lemma_small_mod(start as nat, vs.len());
            assert(walk[0] == vs[start].1);
            lemma_owners_index(vs, start);
            lemma_lookup_is_owner_of_successor(owners(vs), h, vs[start].0);
        }
    }
}

/// How many candidates there are: every physical node that owns a virtual
/// node appears once in the walk's distinct owners, and the candidates are
/// the first `min(n, that many)` of them; asking for at least that many
/// gives every node that owns a virtual node.
pub proof fn law_candidates_count(v: RingModel, h: u32, n: nat)
    requires
        model_wf(v),
        v.vnodes.len() > 0,
    ensures
        ({
            let owners_in_order = first_occurrences(ring_walk(v.vnodes, start_index(v.vnodes, h)));
            &&& owners_in_order.len() <= v.weights.len()
            &&& forall|i: int|
                0 <= i < v.vnodes.len() ==> owners_in_order.contains(#[trigger] v.vnodes[i].1)
            &&& ring_candidates(v, h, n).len() == if n <= owners_in_order.len() {
                n
            } else {
                owners_in_order.len()
            }
            &&& ring_candidates(v, h, n) == owners_in_order.take(
                ring_candidates(v, h, n).len() as int,
            )
            &&& n >= owners_in_order.len() ==> forall|i: int|
                0 <= i < v.vnodes.len() ==> ring_candidates(v, h, n).contains(
                    #[trigger] v.vnodes[i].1,
                )
        }),
{
    let vs = v.vnodes;
    let len = vs.len() as int;
    lemma_successor_exists(vs, h);
    let k = choose|k: u32| is_successor(owners(vs), h, k);
    let j = choose|j: int| 0 <= j < vs.len() && vs[j].0 == k;
    assert(0 <= j < vs.len() && is_successor(owners(vs), h, vs[j].0));
    let start = start_index(vs, h);
    assert(0 <= start < len);
    let walk = ring_walk(vs, start);
    let fo = first_occurrences(walk);
    lemma_first_occurrences_distinct(walk);
    // Every owner is met on the walk.
    assert forall|i: int| 0 <= i < len implies fo.contains(#[trigger] vs[i].1) by {
        let q = if i >= start { i - start } else { i + len - start };
        assert((start + q) % len == i) by {
            if i >= start {
                vstd::arithmetic::div_mod::lemma_small_mod(i as nat, len as nat);
            } else {
                vstd::arithmetic::div_mod::lemma_mod_add_multiples_vanish(i, len);
                vstd::arithmetic::div_mod::lemma_small_mod(i as nat, len as nat);
                assert(start + q == len + i);
            }
        }
        assert(walk[q] == vs[i].1);
        assert(walk.contains(vs[i].1));
    }
    // The distinct owners are ring nodes, so there are at most as many as nodes.
    assert(fo.to_set().subset_of(v.weights.dom())) by {
        assert forall|x: Seq<char>| fo.to_set().contains(x) implies v.weights.dom().contains(x) by {
            assert(walk.contains(x));
            let q = choose|q: int| 0 <= q < walk.len() && walk[q] == x;
            let e = (start + q) % len;
            lemma_owners_index(vs, e);
        }
    }
    vstd::set_lib::lemma_len_subset(fo.to_set(), v.weights.dom());
    fo.unique_seq_to_set();
    let limit: nat = if n <= v.weights.len() {
        n
    } else {
        v.weights.len()
    };
    let c = ring_candidates(v, h, n);
    assert(c == up_to(fo, limit));
    if n <= fo.len() {
        assert(c == fo.take(n as int));
    } else {
        assert(c == fo);
        assert(fo.take(fo.len() as int) =~= fo);
    }
}

} // verus!
