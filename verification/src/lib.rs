//! Consistent hashing: a virtual-node ring with weighted nodes, a jump-hash
//! ring, and the load accounting of a bounded-load ring.

pub mod bounded;
pub mod double;
pub mod hashing;
pub mod jump;
pub mod ring;
pub mod ring_laws;
pub mod text;

pub use bounded::{BoundedLoadCore, LoadState};
pub use jump::JumpHashRing;
pub use ring::ConsistentHashRing;

use vstd::prelude::*;
use ring::string_views;

verus! {

/// Common interface for the consistent hash implementations, so that they
/// can be used interchangeably.
pub trait HashRouter: Send + Sync {
    /// The router's invariant.
    spec fn router_wf(&self) -> bool;

    /// The names of the physical nodes.
    spec fn node_set(&self) -> Set<Seq<char>>;

    /// Whether a node of this weight can be added within machine bounds.
    spec fn can_add(&self, weight: usize) -> bool;

    /// Whether lookups are within the range the router is proven for.
    spec fn lookup_ready(&self) -> bool;

    /// Add a physical node; never succeeds with weight 0.
    fn add(&mut self, node: &str, weight: usize) -> (r: bool)
        requires
            old(self).router_wf(),
            old(self).can_add(weight),
        ensures
            final(self).router_wf(),
            weight == 0 ==> !r,
            r ==> final(self).node_set() == old(self).node_set().insert(node@),
            !r ==> final(self).node_set() == old(self).node_set(),
    ;

    /// Remove a physical node; `true` if it was present.
    fn remove(&mut self, node: &str) -> (r: bool)
        requires
            old(self).router_wf(),
        ensures
            final(self).router_wf(),
            r == old(self).node_set().contains(node@),
            final(self).node_set() == old(self).node_set().remove(node@),
    ;

    /// The physical node for `key`, if any.
    fn get(&self, key: &str) -> (r: Option<String>)
        requires
            self.router_wf(),
            self.lookup_ready(),
        ensures
            r matches Some(n) ==> self.node_set().contains(n@),
    ;

    /// The physical nodes, each once.
    fn nodes(&self) -> (r: Vec<String>)
        requires
            self.router_wf(),
        ensures
            string_views(r@).no_duplicates(),
            string_views(r@).to_set() == self.node_set(),
    ;

    /// The number of physical nodes.
    fn len(&self) -> (r: usize)
        requires
            self.router_wf(),
        ensures
            r == self.node_set().len(),
    ;

    /// Whether there is no physical node.
    fn is_empty(&self) -> (r: bool)
        requires
            self.router_wf(),
        ensures
            r == (self.node_set().len() == 0),
    ;
}

impl HashRouter for ConsistentHashRing {
    open spec fn router_wf(&self) -> bool {
        self.wf()
    }

    open spec fn node_set(&self) -> Set<Seq<char>> {
        self@.weights.dom()
    }

    open spec fn can_add(&self, weight: usize) -> bool {
        self@.replicas * weight <= usize::MAX
    }

    open spec fn lookup_ready(&self) -> bool {
        true
    }

    fn add(&mut self, node: &str, weight: usize) -> (r: bool)
        ensures
            r == (weight > 0),
            !r ==> final(self)@ == old(self)@,
            r ==> final(self)@.replicas == old(self)@.replicas,
            r ==> final(self)@.weights == old(self)@.weights.insert(node@, weight as nat),
            r ==> ring::owners(final(self)@.vnodes) == ring::with_vnodes(
                ring::without_node(ring::owners(old(self)@.vnodes), node@),
                node@,
                old(self)@.replicas * (weight as nat),
            ),
    {
        let r = ConsistentHashRing::add(self, node, weight);
        assert(r ==> final(self)@.weights.dom() =~= old(self)@.weights.dom().insert(node@));
        r
    }

    fn remove(&mut self, node: &str) -> (r: bool)
        ensures
            final(self)@.replicas == old(self)@.replicas,
            final(self)@.weights == old(self)@.weights.remove(node@),
            ring::owners(final(self)@.vnodes) == ring::without_node(
                ring::owners(old(self)@.vnodes),
                node@,
            ),
            !r ==> final(self)@ == old(self)@,
    {
        let r = ConsistentHashRing::remove(self, node);
        assert(final(self)@.weights.dom() =~= old(self)@.weights.dom().remove(node@));
        r
    }

    fn get(&self, key: &str) -> (r: Option<String>)
        ensures
            ring::opt_view(r) == ring::ring_lookup(
                ring::owners(self@.vnodes),
                hashing::key_position(key@),
            ),
    {
        let r = ConsistentHashRing::get(self, key);
        proof {
            self.lemma_model_wf();
            ring_laws::law_lookup_finds_ring_node(self@, hashing::key_position(key@));
        }
        r
    }

    fn nodes(&self) -> (r: Vec<String>) {
        ConsistentHashRing::nodes(self)
    }

    fn len(&self) -> (r: usize) {
        ConsistentHashRing::len(self)
    }

    fn is_empty(&self) -> (r: bool) {
        ConsistentHashRing::is_empty(self)
    }
}

impl HashRouter for JumpHashRing {
    open spec fn router_wf(&self) -> bool {
        self.wf() && self@.len() <= 0x20_0000_0000_0000
    }

    open spec fn node_set(&self) -> Set<Seq<char>> {
        self@.to_set()
    }

    open spec fn can_add(&self, weight: usize) -> bool {
        self@.len() < 0x20_0000_0000_0000
    }

    open spec fn lookup_ready(&self) -> bool {
        true
    }

    fn add(&mut self, node: &str, weight: usize) -> (r: bool)
        ensures
            r == (weight > 0 && !old(self)@.contains(node@)),
            !r ==> final(self)@ == old(self)@,
            r ==> final(self)@.len() == old(self)@.len() + 1,
    {
        JumpHashRing::add(self, node, weight)
    }

    fn remove(&mut self, node: &str) -> (r: bool)
        ensures
            !r ==> final(self)@ == old(self)@,
            r ==> final(self)@.len() + 1 == old(self)@.len(),
    {
        let r = JumpHashRing::remove(self, node);
        proof {
            if !r {
                assert(!old(self)@.to_set().contains(node@));
                assert(old(self)@.to_set().remove(node@) =~= old(self)@.to_set());
            }
        }
        r
    }

    fn get(&self, key: &str) -> (r: Option<String>)
        ensures
            self@.len() == 0 ==> r is None,
            self@.len() > 0 ==> r is Some && r->0@ == self@[jump::jump_bucket(
                jump::fnv1a_64(vstd::utf8::encode_utf8(key@)),
                self@.len(),
            )],
    {
        let r = JumpHashRing::get(self, key);
        proof {
            if self@.len() > 0 {
                let i = jump::jump_bucket(jump::fnv1a_64(vstd::utf8::encode_utf8(key@)), self@.len());
                assert(self@.to_set().contains(self@[i]));
            }
        }
        r
    }

    fn nodes(&self) -> (r: Vec<String>)
        ensures
            string_views(r@) == self@,
    {
        let r = JumpHashRing::nodes(self);
        proof {
            self.lemma_distinct();
        }
        r
    }

    fn len(&self) -> (r: usize) {
        proof {
            self.lemma_distinct();
            self@.unique_seq_to_set();
        }
        JumpHashRing::len(self)
    }

    fn is_empty(&self) -> (r: bool) {
        proof {
            self.lemma_distinct();
            self@.unique_seq_to_set();
        }
        JumpHashRing::is_empty(self)
    }
}

} // verus!
