//! A consistent hash ring with weighted physical nodes and virtual nodes.
//!
//! Each physical node owns `replicas * weight` virtual nodes, placed on a
//! ring of `u32` positions by CRC-32. A key is served by the owner of the
//! first virtual node at or after the key's position, wrapping around to the
//! lowest position when no virtual node lies at or after it.

use vstd::prelude::*;
use crate::hashing::{key_hash, key_position, vnode_hash, vnode_position};
use crate::text::names_equal;

verus! {

// ---------------------------------------------------------------------------
// Mathematical model
// ---------------------------------------------------------------------------

/// The abstract state of a ring.
pub struct RingModel {
    /// Virtual nodes per unit of weight.
    pub replicas: nat,
    /// The physical nodes and their weights.
    pub weights: Map<Seq<char>, nat>,
    /// The virtual nodes in ring order: (position, owning physical node).
    pub vnodes: Seq<(u32, Seq<char>)>,
}

/// Positions strictly increase along the sequence.
pub open spec fn sorted_positions(vs: Seq<(u32, Seq<char>)>) -> bool {
    forall|i: int, j: int| 0 <= i < j < vs.len() ==> vs[i].0 < vs[j].0
}

/// Which physical node owns the virtual node at each occupied position.
pub open spec fn owners(vs: Seq<(u32, Seq<char>)>) -> Map<u32, Seq<char>> {
    Map::new(
        |h: u32| exists|i: int| 0 <= i < vs.len() && vs[i].0 == h,
        |h: u32| vs[choose|i: int| 0 <= i < vs.len() && vs[i].0 == h].1,
    )
}

/// The positions of the first `count` virtual nodes of `node`.
pub open spec fn node_positions(node: Seq<char>, count: nat) -> Set<u32> {
    Set::new(|h: u32| exists|i: nat| i < count && h == vnode_position(node, i))
}

/// The ownership map with every position owned by `node` left out.
pub open spec fn without_node(m: Map<u32, Seq<char>>, node: Seq<char>) -> Map<u32, Seq<char>> {
    Map::new(|h: u32| m.contains_key(h) && m[h] != node, |h: u32| m[h])
}

/// The ownership map after `node` claims the positions of its first `count`
/// virtual nodes; a claimed position changes owner if it was taken.
pub open spec fn with_vnodes(m: Map<u32, Seq<char>>, node: Seq<char>, count: nat) -> Map<
    u32,
    Seq<char>,
> {
    Map::new(
        |h: u32| m.contains_key(h) || node_positions(node, count).contains(h),
        |h: u32|
            if node_positions(node, count).contains(h) {
                node
            } else {
                m[h]
            },
    )
}

/// `k` is the position that serves ring position `h`: the least occupied
/// position at or after `h`, or, when there is none, the least occupied position.
pub open spec fn is_successor(m: Map<u32, Seq<char>>, h: u32, k: u32) -> bool {
    &&& m.contains_key(k)
    &&& if exists|k2: u32| m.contains_key(k2) && k2 >= h {
        &&& k >= h
        &&& forall|k2: u32| m.contains_key(k2) && k2 >= h ==> k <= k2
    } else {
        forall|k2: u32| m.contains_key(k2) ==> k <= k2
    }
}

/// The physical node that serves ring position `h`, if any position is occupied.
pub open spec fn ring_lookup(m: Map<u32, Seq<char>>, h: u32) -> Option<Seq<char>> {
    if exists|k: u32| is_successor(m, h, k) {
        Some(m[choose|k: u32| is_successor(m, h, k)])
    } else {
        None
    }
}

/// The index of the virtual node that serves ring position `h`.
pub open spec fn start_index(vs: Seq<(u32, Seq<char>)>, h: u32) -> int {
    choose|i: int| 0 <= i < vs.len() && is_successor(owners(vs), h, vs[i].0)
}

/// The owners of the virtual nodes met walking once around the ring,
/// starting at index `start`.
pub open spec fn ring_walk(vs: Seq<(u32, Seq<char>)>, start: int) -> Seq<Seq<char>> {
    Seq::new(vs.len(), |i: int| vs[(start + i) % (vs.len() as int)].1)
}

/// The elements of `s` in the order of their first occurrence, each once.
pub open spec fn first_occurrences(s: Seq<Seq<char>>) -> Seq<Seq<char>>
    decreases s.len(),
{
    if s.len() == 0 {
        Seq::empty()
    } else {
        let r = first_occurrences(s.drop_last());
        if r.contains(s.last()) {
            r
        } else {
            r.push(s.last())
        }
    }
}

/// At most the first `n` elements of `s`.
pub open spec fn up_to(s: Seq<Seq<char>>, n: nat) -> Seq<Seq<char>> {
    if n <= s.len() {
        s.take(n as int)
    } else {
        s
    }
}

/// The distinct physical nodes met walking clockwise from the position that
/// serves `h`, in order, at most `n` of them and at most as many as there
/// are physical nodes.
pub open spec fn ring_candidates(v: RingModel, h: u32, n: nat) -> Seq<Seq<char>> {
    if v.vnodes.len() == 0 {
        Seq::empty()
    } else {
        up_to(
            first_occurrences(ring_walk(v.vnodes, start_index(v.vnodes, h))),
            if n <= v.weights.len() {
                n
            } else {
                v.weights.len()
            },
        )
    }
}

/// `first_occurrences` of a prefix is a prefix of `first_occurrences`.
pub proof fn lemma_first_occurrences_prefix(s: Seq<Seq<char>>, i: int, j: int)
    requires
        0 <= i <= j <= s.len(),
    ensures
        first_occurrences(s.take(i)).len() <= first_occurrences(s.take(j)).len(),
        first_occurrences(s.take(i)) == first_occurrences(s.take(j)).take(
            first_occurrences(s.take(i)).len() as int,
        ),
    decreases j - i,
{
    if i == j {
        assert(first_occurrences(s.take(j)).take(first_occurrences(s.take(j)).len() as int)
            =~= first_occurrences(s.take(j)));
    } else {
        lemma_first_occurrences_prefix(s, i, j - 1);
        assert(s.take(j).drop_last() =~= s.take(j - 1));
        let a = first_occurrences(s.take(i));
        let b = first_occurrences(s.take(j - 1));
        let c = first_occurrences(s.take(j));
        assert(c == b || c == b.push(s[j - 1]));
        assert(a =~= c.take(a.len() as int));
    }
}

/// `first_occurrences` holds no element twice, and only elements of `s`.
pub proof fn lemma_first_occurrences_distinct(s: Seq<Seq<char>>)
    ensures
        first_occurrences(s).no_duplicates(),
        forall|x: Seq<char>| first_occurrences(s).contains(x) ==> s.contains(x),
        forall|x: Seq<char>| s.contains(x) ==> first_occurrences(s).contains(x),
    decreases s.len(),
{
    if s.len() > 0 {
        lemma_first_occurrences_distinct(s.drop_last());
        let r = first_occurrences(s.drop_last());
        assert forall|x: Seq<char>| first_occurrences(s).contains(x) implies s.contains(x) by {
            if r.contains(x) {
                assert(s.drop_last().contains(x));
                let k = choose|k: int| 0 <= k < s.drop_last().len() && s.drop_last()[k] == x;
                assert(s[k] == x);
            } else {
                assert(x == s.last());
                assert(s[s.len() - 1] == x);
            }
        }
        if !r.contains(s.last()) {
            let t = r.push(s.last());
            assert forall|a: int, b: int| 0 <= a < t.len() && 0 <= b < t.len() && a != b implies t[a]
                != t[b] by {
                if a < r.len() && b < r.len() {
                    assert(t[a] == r[a] && t[b] == r[b]);
                } else if a < r.len() {
                    assert(t[a] == r[a]);
                    assert(r.contains(t[a]));
                } else {
                    assert(t[b] == r[b]);
                    assert(r.contains(t[b]));
                }
            }
        }
        assert forall|x: Seq<char>| s.contains(x) implies first_occurrences(s).contains(x) by {
            let k = choose|k: int| 0 <= k < s.len() && s[k] == x;
            if k < s.len() - 1 {
                assert(s.drop_last()[k] == x);
                assert(s.drop_last().contains(x));
                assert(r.contains(x));
                if !r.contains(s.last()) {
                    let q = choose|q: int| 0 <= q < r.len() && r[q] == x;
                    assert(r.push(s.last())[q] == x);
                }
            } else if !r.contains(s.last()) {
                assert(r.push(s.last())[r.len() as int] == x);
            }
        }
    }
}

/// Every virtual node belongs to a physical node of the ring and is one of
/// that node's `replicas * weight` virtual nodes.
pub open spec fn vnodes_belong(v: RingModel) -> bool {
    forall|h: u32|
        #[trigger] owners(v.vnodes).contains_key(h) ==> {
            &&& v.weights.contains_key(owners(v.vnodes)[h])
            &&& node_positions(
                owners(v.vnodes)[h],
                v.replicas * v.weights[owners(v.vnodes)[h]],
            ).contains(h)
        }
}

/// The ownership map with the positions of the first `count` virtual nodes
/// of `node` left out where `node` owns them.
pub open spec fn without_positions(m: Map<u32, Seq<char>>, node: Seq<char>, count: nat) -> Map<
    u32,
    Seq<char>,
> {
    Map::new(
        |h: u32| m.contains_key(h) && !(m[h] == node && node_positions(node, count).contains(h)),
        |h: u32| m[h],
    )
}

/// The invariant of every ring.
pub open spec fn model_wf(v: RingModel) -> bool {
    &&& v.replicas > 0
    &&& v.weights.dom().finite()
    &&& forall|n: Seq<char>|
        #[trigger] v.weights.contains_key(n) ==> v.weights[n] > 0 && v.replicas * v.weights[n]
            <= usize::MAX
    &&& sorted_positions(v.vnodes)
    &&& vnodes_belong(v)
}

// ---------------------------------------------------------------------------
// Facts about the model
// ---------------------------------------------------------------------------

/// In a sorted sequence, the entry at index `i` is the one the ownership map reports.
pub proof fn lemma_owners_index(vs: Seq<(u32, Seq<char>)>, i: int)
    requires
        sorted_positions(vs),
        0 <= i < vs.len(),
    ensures
        owners(vs).contains_key(vs[i].0),
        owners(vs)[vs[i].0] == vs[i].1,
{
    let j = choose|j: int| 0 <= j < vs.len() && vs[j].0 == vs[i].0;
    assert(0 <= j < vs.len() && vs[j].0 == vs[i].0);
    if j < i {
        assert(vs[j].0 < vs[i].0);
    } else if j > i {
        assert(vs[i].0 < vs[j].0);
    }
}

/// Two positions that both serve `h` are the same.
pub proof fn lemma_successor_unique(m: Map<u32, Seq<char>>, h: u32, k1: u32, k2: u32)
    requires
        is_successor(m, h, k1),
        is_successor(m, h, k2),
    ensures
        k1 == k2,
{
    if exists|k3: u32| m.contains_key(k3) && k3 >= h {
        assert(k1 <= k2 && k2 <= k1);
    } else {
        assert(k1 <= k2 && k2 <= k1);
    }
}

/// The lookup gives the owner of any position that serves `h`.
pub proof fn lemma_lookup_is_owner_of_successor(m: Map<u32, Seq<char>>, h: u32, k: u32)
    requires
        is_successor(m, h, k),
    ensures
        ring_lookup(m, h) == Some(m[k]),
{
    let c = choose|k2: u32| is_successor(m, h, k2);
    lemma_successor_unique(m, h, k, c);
}

/// Inserting a new position into a sorted sequence at its place.
pub proof fn lemma_insert_entry(vs: Seq<(u32, Seq<char>)>, p: int, e: (u32, Seq<char>))
    requires
        sorted_positions(vs),
        0 <= p <= vs.len(),
        forall|j: int| 0 <= j < p ==> vs[j].0 < e.0,
        forall|j: int| p <= j < vs.len() ==> vs[j].0 > e.0,
    ensures
        sorted_positions(vs.insert(p, e)),
        owners(vs.insert(p, e)) == owners(vs).insert(e.0, e.1),
{
    let ws = vs.insert(p, e);
    assert(forall|j: int| 0 <= j < p ==> ws[j] == vs[j]);
    assert(forall|j: int| p < j < ws.len() ==> ws[j] == vs[j - 1]);
    assert(ws[p] == e);
    assert(sorted_positions(ws));
    let m = owners(vs).insert(e.0, e.1);
    assert forall|h: u32| owners(ws).contains_key(h) <==> m.contains_key(h) by {
        if owners(ws).contains_key(h) {
            let i = choose|i: int| 0 <= i < ws.len() && ws[i].0 == h;
            if i < p {
                assert(vs[i].0 == h);
            } else if i > p {
                assert(vs[i - 1].0 == h);
            }
        }
        if m.contains_key(h) && h != e.0 {
            let i = choose|i: int| 0 <= i < vs.len() && vs[i].0 == h;
            if i < p {
                assert(ws[i].0 == h);
            } else {
                assert(ws[i + 1].0 == h);
            }
        }
    }
    assert forall|h: u32| #[trigger] owners(ws).contains_key(h) implies owners(ws)[h] == m[h] by {
        let i = choose|i: int| 0 <= i < ws.len() && ws[i].0 == h;
        lemma_owners_index(ws, i);
        if i < p {
            lemma_owners_index(vs, i);
        } else if i > p {
            lemma_owners_index(vs, i - 1);
        }
    }
    assert(owners(ws) =~= m);
}

/// Changing the owner at an occupied position of a sorted sequence.
pub proof fn lemma_update_entry(vs: Seq<(u32, Seq<char>)>, p: int, e: (u32, Seq<char>))
    requires
        sorted_positions(vs),
        0 <= p < vs.len(),
        vs[p].0 == e.0,
    ensures
        sorted_positions(vs.update(p, e)),
        owners(vs.update(p, e)) == owners(vs).insert(e.0, e.1),
{
    let ws = vs.update(p, e);
    assert(sorted_positions(ws));
    let m = owners(vs).insert(e.0, e.1);
    lemma_owners_index(vs, p);
    assert forall|h: u32| owners(ws).contains_key(h) <==> m.contains_key(h) by {
        if owners(ws).contains_key(h) {
            let i = choose|i: int| 0 <= i < ws.len() && ws[i].0 == h;
            assert(vs[i].0 == h);
        }
        if m.contains_key(h) {
            let i = choose|i: int| 0 <= i < vs.len() && vs[i].0 == h;
            assert(ws[i].0 == h);
        }
    }
    assert forall|h: u32| #[trigger] owners(ws).contains_key(h) implies owners(ws)[h] == m[h] by {
        let i = choose|i: int| 0 <= i < ws.len() && ws[i].0 == h;
        lemma_owners_index(ws, i);
        if i != p {
            lemma_owners_index(vs, i);
        }
    }
    assert(owners(ws) =~= m);
}

/// Removing an entry from a sorted sequence.
pub proof fn lemma_remove_entry(vs: Seq<(u32, Seq<char>)>, p: int)
    requires
        sorted_positions(vs),
        0 <= p < vs.len(),
    ensures
        sorted_positions(vs.remove(p)),
        owners(vs.remove(p)) == owners(vs).remove(vs[p].0),
{
    let ws = vs.remove(p);
    assert(forall|j: int| 0 <= j < p ==> ws[j] == vs[j]);
    assert(forall|j: int| p <= j < ws.len() ==> ws[j] == vs[j + 1]);
    assert(sorted_positions(ws));
    let m = owners(vs).remove(vs[p].0);
    assert forall|h: u32| owners(ws).contains_key(h) <==> m.contains_key(h) by {
        if owners(ws).contains_key(h) {
            let i = choose|i: int| 0 <= i < ws.len() && ws[i].0 == h;
            if i < p {
                assert(vs[i].0 == h);
                assert(vs[i].0 < vs[p].0);
            } else {
                assert(vs[i + 1].0 == h);
                assert(vs[p].0 < vs[i + 1].0);
            }
        }
        if m.contains_key(h) {
            let i = choose|i: int| 0 <= i < vs.len() && vs[i].0 == h;
            if i < p {
                assert(ws[i].0 == h);
            } else {
                assert(i != p);
                assert(ws[i - 1].0 == h);
            }
        }
    }
    assert forall|h: u32| #[trigger] owners(ws).contains_key(h) implies owners(ws)[h] == m[h] by {
        let i = choose|i: int| 0 <= i < ws.len() && ws[i].0 == h;
        lemma_owners_index(ws, i);
        if i < p {
            lemma_owners_index(vs, i);
        } else {
            lemma_owners_index(vs, i + 1);
        }
    }
    assert(owners(ws) =~= m);
}

/// A node that is not in the ring owns no position.
pub proof fn lemma_without_absent_node(v: RingModel, node: Seq<char>)
    requires
        model_wf(v),
        !v.weights.contains_key(node),
    ensures
        without_node(owners(v.vnodes), node) == owners(v.vnodes),
{
    let m = owners(v.vnodes);
    assert forall|h: u32| #[trigger] m.contains_key(h) implies m[h] != node by {}
    assert(without_node(m, node) =~= m);
}

/// The names stored after removing one entry of a duplicate-free list.
pub proof fn lemma_weight_map_remove(ns: Seq<(String, usize)>, idx: int)
    requires
        node_names(ns).no_duplicates(),
        0 <= idx < ns.len(),
    ensures
        node_names(ns.remove(idx)).no_duplicates(),
        weight_map(ns.remove(idx)) == weight_map(ns).remove(ns[idx].0@),
{
    let names = node_names(ns);
    let ms = ns.remove(idx);
    let mnames = node_names(ms);
    assert(mnames =~= names.remove(idx));
    assert forall|a: int, b: int| 0 <= a < b < mnames.len() implies mnames[a] != mnames[b] by {
        let a2 = if a < idx { a } else { a + 1 };
        let b2 = if b < idx { b } else { b + 1 };
        assert(mnames[a] == names[a2]);
        assert(mnames[b] == names[b2]);
    }
    let target = weight_map(ns).remove(ns[idx].0@);
    assert forall|n: Seq<char>| weight_map(ms).contains_key(n) <==> target.contains_key(n) by {
        if mnames.contains(n) {
            let a = choose|a: int| 0 <= a < mnames.len() && mnames[a] == n;
            let a2 = if a < idx { a } else { a + 1 };
            assert(names[a2] == n);
            assert(names[idx] == ns[idx].0@);
        }
        if target.contains_key(n) {
            let a = choose|a: int| 0 <= a < names.len() && names[a] == n;
            assert(a != idx);
            if a < idx {
                assert(mnames[a] == n);
            } else {
                assert(mnames[a - 1] == n);
            }
        }
    }
    assert forall|n: Seq<char>| #[trigger] weight_map(ms).contains_key(n) implies weight_map(ms)[n]
        == target[n] by {
        assert(mnames.contains(n));
        let a = mnames.index_of(n);
        assert(mnames[a] == n);
        let a2 = if a < idx { a } else { a + 1 };
        assert(names[a2] == n);
        assert(names.contains(n));
        let b = names.index_of(n);
        assert(names[b] == n);
        assert(b == a2);
        assert(ms[a] == ns[a2]);
        assert(weight_map(ms)[n] == ms[a].1 as nat);
        assert(weight_map(ns)[n] == ns[b].1 as nat);
        assert(target.contains_key(n));
        assert(target[n] == weight_map(ns)[n]);
    }
    assert(weight_map(ms) =~= target);
}

/// The names stored after appending a new name to a duplicate-free list.
pub proof fn lemma_weight_map_push(ns: Seq<(String, usize)>, e: (String, usize))
    requires
        node_names(ns).no_duplicates(),
        !node_names(ns).contains(e.0@),
    ensures
        node_names(ns.push(e)).no_duplicates(),
        weight_map(ns.push(e)) == weight_map(ns).insert(e.0@, e.1 as nat),
{
    let names = node_names(ns);
    let ms = ns.push(e);
    let mnames = node_names(ms);
    assert(mnames =~= names.push(e.0@));
    let target = weight_map(ns).insert(e.0@, e.1 as nat);
    assert forall|n: Seq<char>| weight_map(ms).contains_key(n) <==> target.contains_key(n) by {
        if mnames.contains(n) {
            let a = choose|a: int| 0 <= a < mnames.len() && mnames[a] == n;
            if a < names.len() {
                assert(names[a] == n);
            }
        }
        if names.contains(n) {
            let a = choose|a: int| 0 <= a < names.len() && names[a] == n;
            assert(mnames[a] == n);
        }
        if n == e.0@ {
            assert(mnames[names.len() as int] == n);
        }
    }
    assert forall|n: Seq<char>| #[trigger] weight_map(ms).contains_key(n) implies weight_map(ms)[n]
        == target[n] by {
        let a = mnames.index_of(n);
        assert(mnames[a] == n);
        if n == e.0@ {
            if a < names.len() {
                assert(names[a] == n);
                assert(names.contains(n));
            }
            assert(ms[a] == e);
            assert(weight_map(ms)[n] == ms[a].1 as nat);
            assert(target[n] == e.1 as nat);
        } else {
            assert(a < names.len());
            assert(names[a] == n);
            assert(names.contains(n));
            let b = names.index_of(n);
            assert(names[b] == n);
            assert(a == b);
            assert(ms[a] == ns[a]);
            assert(weight_map(ms)[n] == ms[a].1 as nat);
            assert(weight_map(ns).contains_key(n));
            assert(weight_map(ns)[n] == ns[b].1 as nat);
            assert(target[n] == weight_map(ns)[n]);
        }
        assert(weight_map(ms)[n] == target[n]);
    }
    assert(weight_map(ms) =~= target);
}

// ---------------------------------------------------------------------------
// The ring
// ---------------------------------------------------------------------------

/// The view of a stored virtual node.
pub open spec fn entry_view(e: (u32, String)) -> (u32, Seq<char>) {
    (e.0, e.1@)
}

/// The views of a sequence of strings.
pub open spec fn string_views(v: Seq<String>) -> Seq<Seq<char>> {
    v.map_values(|s: String| s@)
}

/// The view of an optional string.
pub open spec fn opt_view(o: Option<String>) -> Option<Seq<char>> {
    match o {
        Some(s) => Some(s@),
        None => None,
    }
}

/// The names of the stored physical nodes.
pub open spec fn node_names(ns: Seq<(String, usize)>) -> Seq<Seq<char>> {
    ns.map_values(|e: (String, usize)| e.0@)
}

/// The weights of the stored physical nodes.
pub open spec fn weight_map(ns: Seq<(String, usize)>) -> Map<Seq<char>, nat> {
    Map::new(
        |n: Seq<char>| node_names(ns).contains(n),
        |n: Seq<char>| ns[node_names(ns).index_of(n)].1 as nat,
    )
}

/// A consistent hash ring.
///
/// Each physical node is mapped to `replicas * weight` virtual nodes on the
/// ring. Key lookups binary-search the sorted virtual nodes and return the
/// owner of the first one whose position is at or after the key's position,
/// wrapping to the first virtual node when the key's position is past them all.
pub struct ConsistentHashRing {
    /// Virtual nodes sorted by position, each with its owning physical node.
    vnodes: Vec<(u32, String)>,
    /// Physical nodes with their weights, each name once.
    nodes: Vec<(String, usize)>,
    /// Base number of virtual nodes per unit weight.
    replicas: usize,
}

impl View for ConsistentHashRing {
    type V = RingModel;

    closed spec fn view(&self) -> RingModel {
        RingModel {
            replicas: self.replicas as nat,
            weights: weight_map(self.nodes@),
            vnodes: self.vnodes@.map_values(|e: (u32, String)| entry_view(e)),
        }
    }
}

impl ConsistentHashRing {
    /// The ring's invariant.
    pub closed spec fn wf(&self) -> bool {
        &&& node_names(self.nodes@).no_duplicates()
        &&& model_wf(self@)
    }

    /// Facts about the stored physical nodes that follow from their view.
    proof fn lemma_nodes(&self)
        requires
            node_names(self.nodes@).no_duplicates(),
        ensures
            forall|i: int|
                0 <= i < self.nodes@.len() ==> #[trigger] self@.weights.contains_key(
                    self.nodes@[i].0@,
                ) && self@.weights[self.nodes@[i].0@] == self.nodes@[i].1 as nat,
            forall|n: Seq<char>|
                #[trigger] self@.weights.contains_key(n) ==> exists|i: int|
                    0 <= i < self.nodes@.len() && self.nodes@[i].0@ == n,
            self@.weights.dom() == node_names(self.nodes@).to_set(),
            self@.weights.dom().finite(),
            self@.weights.len() == self.nodes@.len(),
    {
        let names = node_names(self.nodes@);
        assert forall|i: int| 0 <= i < self.nodes@.len() implies #[trigger] self@.weights.contains_key(
            self.nodes@[i].0@,
        ) && self@.weights[self.nodes@[i].0@] == self.nodes@[i].1 as nat by {
            assert(names[i] == self.nodes@[i].0@);
            let j = names.index_of(self.nodes@[i].0@);
            assert(names[j] == names[i]);
        }
        assert forall|n: Seq<char>| #[trigger] self@.weights.contains_key(n) implies exists|i: int|
            0 <= i < self.nodes@.len() && self.nodes@[i].0@ == n by {
            let i = choose|i: int| 0 <= i < names.len() && names[i] == n;
            assert(self.nodes@[i].0@ == n);
        }
        assert(self@.weights.dom() =~= names.to_set());
        names.unique_seq_to_set();
    }

    /// The model of a ring satisfies the model's invariant.
    pub proof fn lemma_model_wf(&self)
        requires
            self.wf(),
        ensures
            model_wf(self@),
    {
    }

    /// Create an empty ring with the given base replica count.
    pub fn new(replicas: usize) -> (r: Self)
        requires
            replicas > 0,
        ensures
            r.wf(),
            r@.replicas == replicas,
            r@.weights == Map::<Seq<char>, nat>::empty(),
            r@.vnodes == Seq::<(u32, Seq<char>)>::empty(),
    {
        let r = ConsistentHashRing { vnodes: Vec::new(), nodes: Vec::new(), replicas };
        assert(r@.weights =~= Map::<Seq<char>, nat>::empty());
        assert(r@.vnodes =~= Seq::<(u32, Seq<char>)>::empty());
        r
    }

    /// Returns `true` if the ring has no physical nodes.
    pub fn is_empty(&self) -> (r: bool)
        requires
            self.wf(),
        ensures
            r == (self@.weights.len() == 0),
            r == (self@.weights.dom() == Set::<Seq<char>>::empty()),
    {
        proof {
            self.lemma_nodes();
            if self.nodes@.len() > 0 {
                assert(self@.weights.contains_key(self.nodes@[0].0@));
            } else {
                assert(self@.weights.dom() =~= Set::<Seq<char>>::empty());
            }
        }
        self.nodes.len() == 0
    }

    /// Returns the number of physical nodes currently in the ring.
    pub fn len(&self) -> (r: usize)
        requires
            self.wf(),
        ensures
            r == self@.weights.len(),
    {
        proof {
            self.lemma_nodes();
        }
        self.nodes.len()
    }

    /// Return the list of physical nodes currently in the ring, each once.
    pub fn nodes(&self) -> (r: Vec<String>)
        requires
            self.wf(),
        ensures
            string_views(r@).no_duplicates(),
            string_views(r@).to_set() == self@.weights.dom(),
    {
        proof {
            self.lemma_nodes();
        }
        let mut r: Vec<String> = Vec::new();
        let mut i: usize = 0;
        while i < self.nodes.len()
            invariant
                i <= self.nodes@.len(),
                string_views(r@) == node_names(self.nodes@).subrange(0, i as int),
            decreases self.nodes@.len() - i,
        {
            let ghost prev = r@;
            let name = self.nodes[i].0.clone();
            r.push(name);
            assert(r@ == prev.push(name));
            assert(string_views(prev).len() == prev.len());
            assert(prev.len() == i);
            assert(string_views(prev) == node_names(self.nodes@).subrange(0, i as int));
            assert forall|j: int| 0 <= j < i + 1 implies #[trigger] string_views(r@)[j]
                == node_names(self.nodes@).subrange(0, i + 1)[j] by {
                if j < i {
                    assert(string_views(prev)[j] == node_names(self.nodes@).subrange(0, i as int)[j]);
                    assert(r@[j] == prev[j]);
                } else {
                    assert(r@[j] == name);
                    assert(node_names(self.nodes@)[j] == self.nodes@[j].0@);
                }
            }
            i = i + 1;
            assert(string_views(r@) =~= node_names(self.nodes@).subrange(0, i as int));
        }
        assert(node_names(self.nodes@).subrange(0, i as int) =~= node_names(self.nodes@));
        r
    }

    /// The index of `node` among the stored physical nodes, if present.
    fn find_node(&self, node: &str) -> (r: Option<usize>)
        requires
            self.wf(),
        ensures
            r is Some <==> self@.weights.contains_key(node@),
            r matches Some(i) ==> i < self.nodes@.len() && self.nodes@[i as int].0@ == node@,
    {
        proof {
            self.lemma_nodes();
        }
        let mut i: usize = 0;
        while i < self.nodes.len()
            invariant
                self.wf(),
                i <= self.nodes@.len(),
                forall|j: int| 0 <= j < i ==> self.nodes@[j].0@ != node@,
            decreases self.nodes@.len() - i,
        {
            if names_equal(self.nodes[i].0.as_str(), node) {
                proof {
                    self.lemma_nodes();
                    assert(self@.weights.contains_key(self.nodes@[i as int].0@));
                }
                return Some(i);
            }
            i = i + 1;
        }
        proof {
            self.lemma_nodes();
            if self@.weights.contains_key(node@) {
                let j = choose|j: int| 0 <= j < self.nodes@.len() && self.nodes@[j].0@ == node@;
                assert(self.nodes@[j].0@ != node@);
            }
        }
        None
    }

    /// The first index whose virtual node lies at or after position `h`.
    fn lower_bound(&self, h: u32) -> (idx: usize)
        requires
            sorted_positions(self@.vnodes),
        ensures
            idx <= self@.vnodes.len(),
            forall|j: int| 0 <= j < idx ==> self@.vnodes[j].0 < h,
            forall|j: int| idx <= j < self@.vnodes.len() ==> self@.vnodes[j].0 >= h,
    {
        let mut lo: usize = 0;
        let mut hi: usize = self.vnodes.len();
        while lo < hi
            invariant
                sorted_positions(self@.vnodes),
                self@.vnodes.len() == self.vnodes@.len(),
                lo <= hi <= self.vnodes@.len(),
                forall|j: int| 0 <= j < lo ==> self@.vnodes[j].0 < h,
                forall|j: int| hi <= j < self@.vnodes.len() ==> self@.vnodes[j].0 >= h,
            decreases hi - lo,
        {
            let mid = lo + (hi - lo) / 2;
            assert(self@.vnodes[mid as int].0 == self.vnodes@[mid as int].0);
            if self.vnodes[mid].0 < h {
                lo = mid + 1;
            } else {
                hi = mid;
            }
        }
        lo
    }

    /// The index of the virtual node that serves ring position `h`.
    fn successor_index(&self, h: u32) -> (idx: usize)
        requires
            self.wf(),
            self@.vnodes.len() > 0,
        ensures
            idx < self@.vnodes.len(),
            idx == start_index(self@.vnodes, h),
            is_successor(owners(self@.vnodes), h, self@.vnodes[idx as int].0),
    {
        let ghost vs = self@.vnodes;
        let ghost m = owners(vs);
        let mut start = self.lower_bound(h);
        if start >= self.vnodes.len() {
            start = 0;
        }
        proof {
            let k = vs[start as int].0;
            lemma_owners_index(vs, start as int);
            assert forall|k2: u32| m.contains_key(k2) && k2 >= h implies k <= k2 by {
                let j = choose|j: int| 0 <= j < vs.len() && vs[j].0 == k2;
                if j < start {
                    assert(vs[j].0 < h);
                } else if j > start {
                    assert(vs[start as int].0 < vs[j].0);
                }
            }
            if exists|k2: u32| m.contains_key(k2) && k2 >= h {
                let k2 = choose|k2: u32| m.contains_key(k2) && k2 >= h;
                let j = choose|j: int| 0 <= j < vs.len() && vs[j].0 == k2;
                assert(vs[j].0 >= h);
            } else {
                assert forall|k2: u32| m.contains_key(k2) implies k <= k2 by {
                    let j = choose|j: int| 0 <= j < vs.len() && vs[j].0 == k2;
                    if j > 0 {
                        assert(vs[0].0 < vs[j].0);
                    }
                }
            }
            assert(is_successor(m, h, k));
            let c = start_index(vs, h);
            assert(0 <= c < vs.len() && is_successor(m, h, vs[c].0));
            lemma_successor_unique(m, h, k, vs[c].0);
            if c < start {
                assert(vs[c].0 < vs[start as int].0);
            } else if c > start {
                assert(vs[start as int].0 < vs[c].0);
            }
        }
        start
    }

    /// Return the physical node that serves ring position `h`, or `None`
    /// when the ring holds no virtual node.
    pub fn get_by_hash(&self, h: u32) -> (r: Option<String>)
        requires
            self.wf(),
        ensures
            opt_view(r) == ring_lookup(owners(self@.vnodes), h),
    {
        let ghost vs = self@.vnodes;
        let ghost m = owners(vs);
        if self.vnodes.len() == 0 {
            proof {
                if exists|k: u32| is_successor(m, h, k) {
                    let k = choose|k: u32| is_successor(m, h, k);
                    let i = choose|i: int| 0 <= i < vs.len() && vs[i].0 == k;
                }
            }
            return None;
        }
        let idx = self.successor_index(h);
        proof {
            lemma_owners_index(vs, idx as int);
            lemma_lookup_is_owner_of_successor(m, h, vs[idx as int].0);
        }
        Some(self.vnodes[idx].1.clone())
    }

    /// Return the physical node responsible for `key`, or `None` if the
    /// ring holds no virtual node.
    pub fn get(&self, key: &str) -> (r: Option<String>)
        requires
            self.wf(),
        ensures
            opt_view(r) == ring_lookup(owners(self@.vnodes), key_position(key@)),
            opt_view(r) == ring_lookup(owners(self@.vnodes), crate::hashing::crc32(vstd::utf8::encode_utf8(key@))),
    {
        let h = key_hash(key);
        self.get_by_hash(h)
    }

    /// Gives position `h` to `name`: inserts a virtual node there, or takes
    /// over the one already there.
    fn claim_position(&mut self, h: u32, name: String)
        requires
            sorted_positions(old(self)@.vnodes),
        ensures
            sorted_positions(final(self)@.vnodes),
            owners(final(self)@.vnodes) == owners(old(self)@.vnodes).insert(h, name@),
            final(self).nodes == old(self).nodes,
            final(self).replicas == old(self).replicas,
    {
        let ghost vs = self@.vnodes;
        let idx = self.lower_bound(h);
        if idx < self.vnodes.len() && self.vnodes[idx].0 == h {
            let ghost nv = name@;
            self.vnodes.set(idx, (h, name));
            proof {
                lemma_update_entry(vs, idx as int, (h, nv));
                assert(self@.vnodes =~= vs.update(idx as int, (h, nv)));
            }
        } else {
            let ghost nv = name@;
            proof {
                if idx < vs.len() {
                    assert(vs[idx as int].0 == self.vnodes@[idx as int].0);
                    assert forall|j: int| idx <= j < vs.len() implies vs[j].0 > h by {
                        if j > idx {
                            assert(vs[idx as int].0 < vs[j].0);
                        }
                    }
                }
            }
            self.vnodes.insert(idx, (h, name));
            proof {
                lemma_insert_entry(vs, idx as int, (h, nv));
                assert(self@.vnodes =~= vs.insert(idx as int, (h, nv)));
            }
        }
    }

    /// Frees position `h` if `node` owns it.
    fn release_position(&mut self, h: u32, node: &str)
        requires
            sorted_positions(old(self)@.vnodes),
        ensures
            sorted_positions(final(self)@.vnodes),
            owners(final(self)@.vnodes) == if owners(old(self)@.vnodes).contains_key(h)
                && owners(old(self)@.vnodes)[h] == node@ {
                owners(old(self)@.vnodes).remove(h)
            } else {
                owners(old(self)@.vnodes)
            },
            final(self).nodes == old(self).nodes,
            final(self).replicas == old(self).replicas,
    {
        let ghost vs = self@.vnodes;
        let idx = self.lower_bound(h);
        if idx < self.vnodes.len() && self.vnodes[idx].0 == h {
            proof {
                lemma_owners_index(vs, idx as int);
            }
            if names_equal(self.vnodes[idx].1.as_str(), node) {
                self.vnodes.remove(idx);
                proof {
                    lemma_remove_entry(vs, idx as int);
                    assert(self@.vnodes =~= vs.remove(idx as int));
                }
            }
        } else {
            proof {
                if owners(vs).contains_key(h) {
                    let j = choose|j: int| 0 <= j < vs.len() && vs[j].0 == h;
                    assert(j >= idx);
                    if j > idx {
                        assert(vs[idx as int].0 < vs[j].0);
                    }
                }
            }
        }
    }

    /// Removes `node` and every virtual node it owns.
    fn remove_node_locked(&mut self, node: &str)
        requires
            old(self).wf(),
        ensures
            final(self).wf(),
            final(self)@.replicas == old(self)@.replicas,
            final(self)@.weights == old(self)@.weights.remove(node@),
            owners(final(self)@.vnodes) == without_node(owners(old(self)@.vnodes), node@),
    {
        let ghost v0 = self@;
        let ghost m0 = owners(v0.vnodes);
        proof {
            self.lemma_nodes();
        }
        let idx = match self.find_node(node) {
            Some(i) => i,
            None => {
                proof {
                    lemma_without_absent_node(v0, node@);
                    assert(v0.weights.remove(node@) =~= v0.weights);
                }
                return;
            },
        };
        let ghost ns0 = self.nodes@;
        let entry = self.nodes.remove(idx);
        let weight = entry.1;
        proof {
            lemma_weight_map_remove(ns0, idx as int);
            assert(self.nodes@ == ns0.remove(idx as int));
            assert(v0.weights.contains_key(node@));
            assert(v0.weights[node@] == weight as nat);
        }
        let count = self.replicas * weight;
        let mut i: usize = 0;
        assert(owners(self@.vnodes) =~= without_positions(m0, node@, 0)) by {
            assert forall|h: u32| !node_positions(node@, 0).contains(h) by {}
        }
        while i < count
            invariant
                sorted_positions(self@.vnodes),
                self.nodes@ == ns0.remove(idx as int),
                self.replicas == v0.replicas,
                i <= count,
                owners(self@.vnodes) == without_positions(m0, node@, i as nat),
            decreases count - i,
        {
            let h = vnode_hash(node, i);
            let ghost cur = owners(self@.vnodes);
            self.release_position(h, node);
            proof {
                let next = without_positions(m0, node@, (i + 1) as nat);
                assert forall|k: u32| node_positions(node@, (i + 1) as nat).contains(k) <==> (
                node_positions(node@, i as nat).contains(k) || k == h) by {
                    if k == h {
                        assert(k == vnode_position(node@, i as nat));
                    }
                    if node_positions(node@, (i + 1) as nat).contains(k) {
                        let j = choose|j: nat| j < i + 1 && k == vnode_position(node@, j);
                        if j < i {
                            assert(node_positions(node@, i as nat).contains(k));
                        }
                    }
                    if node_positions(node@, i as nat).contains(k) {
                        let j = choose|j: nat| j < i && k == vnode_position(node@, j);
                        assert(j < i + 1);
                    }
                }
                assert(owners(self@.vnodes) =~= next);
            }
            i = i + 1;
        }
        proof {
            assert(without_positions(m0, node@, count as nat) =~= without_node(m0, node@)) by {
                assert forall|h: u32| m0.contains_key(h) && m0[h] == node@ implies node_positions(
                    node@,
                    count as nat,
                ).contains(h) by {}
            }
            self.lemma_nodes();
            let v = self@;
            assert(v.weights == v0.weights.remove(node@));
            assert forall|n: Seq<char>| #[trigger] v.weights.contains_key(n) implies v.weights[n] > 0
                && v.replicas * v.weights[n] <= usize::MAX by {
                assert(v0.weights.contains_key(n));
            }
            assert forall|h: u32| #[trigger] owners(v.vnodes).contains_key(h) implies {
                &&& v.weights.contains_key(owners(v.vnodes)[h])
                &&& node_positions(
                    owners(v.vnodes)[h],
                    v.replicas * v.weights[owners(v.vnodes)[h]],
                ).contains(h)
            } by {
                assert(m0.contains_key(h));
                assert(owners(v.vnodes)[h] == m0[h]);
                assert(m0[h] != node@);
            }
        }
    }

    /// Remove a physical node and all its virtual nodes from the ring.
    ///
    /// Returns `true` if the node was present and removed.
    pub fn remove(&mut self, node: &str) -> (r: bool)
        requires
            old(self).wf(),
        ensures
            final(self).wf(),
            r == old(self)@.weights.contains_key(node@),
            final(self)@.replicas == old(self)@.replicas,
            final(self)@.weights == old(self)@.weights.remove(node@),
            owners(final(self)@.vnodes) == without_node(owners(old(self)@.vnodes), node@),
            !r ==> final(self)@ == old(self)@,
    {
        if self.find_node(node).is_none() {
            proof {
                lemma_without_absent_node(self@, node@);
                assert(self@.weights.remove(node@) =~= self@.weights);
            }
            return false;
        }
        self.remove_node_locked(node);
        true
    }

    /// Add a physical node with the given weight.
    ///
    /// The node receives `replicas * weight` virtual nodes on the ring; where
    /// one of them falls on a taken position, the new node takes it over. If
    /// the node already exists it is first removed, then re-added with the new
    /// weight.
    ///
    /// Returns `false` (no-op) when `weight` is 0.
    pub fn add(&mut self, node: &str, weight: usize) -> (r: bool)
        requires
            old(self).wf(),
            old(self)@.replicas * weight <= usize::MAX,
        ensures
            final(self).wf(),
            r == (weight > 0),
            !r ==> final(self)@ == old(self)@,
            r ==> final(self)@.replicas == old(self)@.replicas,
            r ==> final(self)@.weights == old(self)@.weights.insert(node@, weight as nat),
            r ==> owners(final(self)@.vnodes) == with_vnodes(
                without_node(owners(old(self)@.vnodes), node@),
                node@,
                old(self)@.replicas * (weight as nat),
            ),
    {
        if weight == 0 {
            return false;
        }
        let ghost v0 = self@;
        let ghost base = without_node(owners(v0.vnodes), node@);
        if self.find_node(node).is_some() {
            self.remove_node_locked(node);
        } else {
            proof {
                lemma_without_absent_node(v0, node@);
                assert(v0.weights.remove(node@) =~= v0.weights);
            }
        }
        let ghost v1 = self@;
        proof {
            self.lemma_nodes();
            assert(v1.weights == v0.weights.remove(node@));
            assert(owners(v1.vnodes) == base);
        }
        let ghost ns_mid = self.nodes@;
        let count = self.replicas * weight;
        let mut i: usize = 0;
        assert(owners(self@.vnodes) =~= with_vnodes(base, node@, 0)) by {
            assert forall|h: u32| !node_positions(node@, 0).contains(h) by {}
        }
        while i < count
            invariant
                sorted_positions(self@.vnodes),
                self.nodes@ == ns_mid,
                node_names(ns_mid).no_duplicates(),
                self@.weights == v1.weights,
                self.replicas == v0.replicas,
                i <= count,
                owners(self@.vnodes) == with_vnodes(base, node@, i as nat),
            decreases count - i,
        {
            let h = vnode_hash(node, i);
            self.claim_position(h, node.to_owned());
            proof {
                let next = with_vnodes(base, node@, (i + 1) as nat);
                assert forall|k: u32| node_positions(node@, (i + 1) as nat).contains(k) <==> (
                node_positions(node@, i as nat).contains(k) || k == h) by {
                    if k == h {
                        assert(k == vnode_position(node@, i as nat));
                    }
                    if node_positions(node@, (i + 1) as nat).contains(k) {
                        let j = choose|j: nat| j < i + 1 && k == vnode_position(node@, j);
                        if j < i {
                            assert(node_positions(node@, i as nat).contains(k));
                        }
                    }
                    if node_positions(node@, i as nat).contains(k) {
                        let j = choose|j: nat| j < i && k == vnode_position(node@, j);
                        assert(j < i + 1);
                    }
                }
                assert(owners(self@.vnodes) =~= next);
            }
            i = i + 1;
        }
        let ghost ns1 = self.nodes@;
        let name = node.to_owned();
        proof {
            self.lemma_nodes();
            if node_names(ns1).contains(node@) {
                let j = choose|j: int| 0 <= j < ns1.len() && node_names(ns1)[j] == node@;
                assert(self@.weights.contains_key(ns1[j].0@));
            }
            lemma_weight_map_push(ns1, (name, weight));
        }
        self.nodes.push((name, weight));
        proof {
            let v = self@;
            assert(v.weights =~= v0.weights.insert(node@, weight as nat));
            self.lemma_nodes();
            assert forall|n: Seq<char>| #[trigger] v.weights.contains_key(n) implies v.weights[n] > 0
                && v.replicas * v.weights[n] <= usize::MAX by {
                if n != node@ {
                    assert(v0.weights.contains_key(n));
                }
            }
            assert forall|h: u32| #[trigger] owners(v.vnodes).contains_key(h) implies {
                &&& v.weights.contains_key(owners(v.vnodes)[h])
                &&& node_positions(
                    owners(v.vnodes)[h],
                    v.replicas * v.weights[owners(v.vnodes)[h]],
                ).contains(h)
            } by {
                if !node_positions(node@, count as nat).contains(h) {
                    assert(base.contains_key(h));
                    assert(owners(v0.vnodes).contains_key(h));
                }
            }
        }
        true
    }

    /// Whether `names` holds `name`.
    fn holds_name(names: &Vec<String>, name: &str) -> (r: bool)
        ensures
            r == string_views(names@).contains(name@),
    {
        let mut i: usize = 0;
        while i < names.len()
            invariant
                i <= names@.len(),
                forall|j: int| 0 <= j < i ==> names@[j]@ != name@,
            decreases names@.len() - i,
        {
            if names_equal(names[i].as_str(), name) {
                assert(string_views(names@)[i as int] == name@);
                return true;
            }
            i = i + 1;
        }
        proof {
            if string_views(names@).contains(name@) {
                let j = choose|j: int|
                    0 <= j < string_views(names@).len() && string_views(names@)[j] == name@;
                assert(names@[j]@ == name@);
            }
        }
        false
    }

    /// Return up to `n` distinct physical nodes in ring order, starting with
    /// the one that serves position `h`: the candidates a caller may try in turn.
    pub fn get_n_by_hash(&self, h: u32, n: usize) -> (r: Vec<String>)
        requires
            self.wf(),
        ensures
            string_views(r@) == ring_candidates(self@, h, n as nat),
    {
        let ghost vs = self@.vnodes;
        let len = self.vnodes.len();
        if len == 0 || n == 0 {
            proof {
                if len > 0 {
                    assert(up_to(
                        first_occurrences(ring_walk(vs, start_index(vs, h))),
                        0,
                    ) =~= Seq::<Seq<char>>::empty());
                }
            }
            let empty: Vec<String> = Vec::new();
            assert(string_views(empty@) =~= Seq::<Seq<char>>::empty());
            return empty;
        }
        let count = self.len();
        let limit = if n < count { n } else { count };
        let start = self.successor_index(h);
        let ghost walk = ring_walk(vs, start as int);
        let mut result: Vec<String> = Vec::new();
        let mut i: usize = 0;
        assert(walk.take(0) =~= Seq::<Seq<char>>::empty());
        assert(walk.take(len as int) =~= walk);
        assert(string_views(result@) =~= first_occurrences(walk.take(0)));
        while i < len
            invariant_except_break
                i <= len,
                len == vs.len(),
                len == self.vnodes@.len(),
                start < len,
                vs == self@.vnodes,
                walk == ring_walk(vs, start as int),
                string_views(result@) == first_occurrences(walk.take(i as int)),
                result@.len() < limit,
                walk.take(len as int) == walk,
            ensures
                string_views(result@) == up_to(first_occurrences(walk), limit as nat),
            decreases len - i,
        {
            let j = if i < len - start {
                start + i
            } else {
                i - (len - start)
            };
            assert(j == (start + i) % (len as int)) by (nonlinear_arith)
                requires
                    j == if i < len - start {
                        start + i
                    } else {
                        i - (len - start)
                    },
                    start < len,
                    i < len,
            ;
            let ghost prev = result@;
            assert(walk[i as int] == vs[j as int].1);
            assert(vs[j as int].1 == self.vnodes@[j as int].1@);
            assert(walk.take(i + 1).drop_last() =~= walk.take(i as int));
            assert(walk.take(i + 1).last() == walk[i as int]);
            if !Self::holds_name(&result, self.vnodes[j].1.as_str()) {
                let name = self.vnodes[j].1.clone();
                result.push(name);
                assert(string_views(result@) =~= string_views(prev).push(walk[i as int]));
            }
            i = i + 1;
            if result.len() == limit {
                proof {
                    lemma_first_occurrences_prefix(walk, i as int, len as int);
                    assert(walk.take(len as int) =~= walk);
                }
                break;
            }
        }
        proof {
            if i == len {
                assert(walk.take(len as int) =~= walk);
            }
        }
        result
    }

    /// Return up to `n` distinct physical nodes for `key` in ring order,
    /// starting with the one that `get` returns.
    pub fn get_n(&self, key: &str, n: usize) -> (r: Vec<String>)
        requires
            self.wf(),
        ensures
            string_views(r@) == ring_candidates(self@, key_position(key@), n as nat),
    {
        let h = key_hash(key);
        self.get_n_by_hash(h, n)
    }
}

} // verus!
