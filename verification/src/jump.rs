//! Jump consistent hashing (Lamping & Veach, 2014) over a sorted list of nodes.
//!
//! Lookups take `O(ln n)` steps and need no virtual-node table; weights are
//! not supported. Nodes are kept in name order, so the bucket a key lands in
//! names the same node on every run.

use vstd::prelude::*;
use vstd::utf8::encode_utf8;
use crate::double::{
    lemma_pow2n_values, lemma_power_of_two_is_double, lemma_round_at_least,
    lemma_whole_number_is_double, pow2n, round_scaled, round_to_double,
};
use crate::ring::string_views;
use crate::text::{compare_names, lemma_name_lt_order, name_lt, NameOrder};

verus! {

// ---------------------------------------------------------------------------
// Hashing
// ---------------------------------------------------------------------------

/// The 64-bit FNV-1a hash of a byte sequence.
pub open spec fn fnv1a_64(bytes: Seq<u8>) -> u64
    decreases bytes.len(),
{
    if bytes.len() == 0 {
        14695981039346656037u64
    } else {
        vstd::wrapping::u64_specs::wrapping_mul(
            fnv1a_64(bytes.drop_last()) ^ (bytes.last() as u64),
            1099511628211u64,
        )
    }
}

/// Compute a 64-bit FNV-1a hash of the UTF-8 bytes of a key.
pub fn fnv64(key: &str) -> (h: u64)
    ensures
        h == fnv1a_64(encode_utf8(key@)),
{
    let bytes = key.as_bytes();
    let mut hash: u64 = 14695981039346656037;
    let mut i: usize = 0;
    assert(bytes@.take(0) =~= Seq::<u8>::empty());
    while i < bytes.len()
        invariant
            i <= bytes@.len(),
            hash == fnv1a_64(bytes@.take(i as int)),
        decreases bytes@.len() - i,
    {
        assert(bytes@.take(i + 1).drop_last() =~= bytes@.take(i as int));
        assert(bytes@.take(i + 1).last() == bytes@[i as int]);
        hash = hash ^ (bytes[i] as u64);
        hash = hash.wrapping_mul(1099511628211);
        i = i + 1;
    }
    assert(bytes@.take(i as int) =~= bytes@);
    hash
}

/// The linear congruential step that advances the jump hash's key.
#[verifier::opaque]
pub open spec fn lcg_step(key: u64) -> u64 {
    vstd::wrapping::u64_specs::wrapping_add(
        vstd::wrapping::u64_specs::wrapping_mul(key, 2862933555777941757u64),
        1,
    )
}

/// The next bucket the jump hash considers after bucket `b`, for the advanced
/// key `key`: `((b + 1) as f64 * (2^31 as f64 / ((key >> 33) as f64 + 1.0))) as i64`,
/// with both double operations rounded to nearest, ties to even, and the
/// final conversion truncating and saturating.
#[verifier::opaque]
pub open spec fn jump_candidate(b: nat, key: u64) -> int {
    let d = (key >> 33u64) as nat + 1;
    let q = round_scaled(0x800000000000000000000, d);
    let p = round_scaled((b + 1) * q, 1);
    let t = p / 0x10_0000_0000_0000;
    if t > 0x7fff_ffff_ffff_ffff {
        0x7fff_ffff_ffff_ffff
    } else {
        t as int
    }
}

/// The jump hash's candidate bucket always moves forward.
pub proof fn lemma_jump_candidate_advances(b: nat, key: u64)
    requires
        b < 0x20_0000_0000_0000,
    ensures
        jump_candidate(b, key) >= b + 1,
{
    reveal(jump_candidate);
    let d = (key >> 33u64) as nat + 1;
    assert((key >> 33u64) < 0x8000_0000) by (bit_vector);
    lemma_pow2n_values();
    lemma_power_of_two_is_double(52);
    lemma_round_at_least(0x800000000000000000000, d, 0x10_0000_0000_0000);
    let q = round_scaled(0x800000000000000000000, d);
    assert(q >= 0x10_0000_0000_0000);
    lemma_whole_number_is_double(b + 1);
    assert((b + 1) * 0x10_0000_0000_0000 <= (b + 1) * q) by (nonlinear_arith)
        requires
            q >= 0x10_0000_0000_0000,
    ;
    lemma_round_at_least((b + 1) * q, 1, (b + 1) * 0x10_0000_0000_0000);
    let p = round_scaled((b + 1) * q, 1);
    assert(p / 0x10_0000_0000_0000 >= b + 1) by (nonlinear_arith)
        requires
            p >= (b + 1) * 0x10_0000_0000_0000,
    ;
}

/// Proof that `jump_walk` terminates.
#[via_fn]
proof fn jump_walk_decreases(key: u64, b: int, j: int, n: int) {
    if 0 <= j < n && n <= 0x20_0000_0000_0000 {
        lemma_jump_candidate_advances(j as nat, lcg_step(key));
    }
}

/// The bucket the jump hash settles on: the last candidate below `n`,
/// starting from candidate `j` after bucket `b`.
pub open spec fn jump_walk(key: u64, b: int, j: int, n: int) -> int
    decreases (if j < n {
        n - j
    } else {
        0
    }),
    when 0 <= j && n <= 0x20_0000_0000_0000
    via jump_walk_decreases
{
    if j < n {
        let k = lcg_step(key);
        jump_walk(k, j, jump_candidate(j as nat, k), n)
    } else {
        b
    }
}

/// The bucket in `0..n` that the jump hash gives `key`.
pub open spec fn jump_bucket(key: u64, n: nat) -> int {
    jump_walk(key, -1, 0, n as int)
}

/// One step of the walk.
pub proof fn lemma_jump_walk_step(key: u64, b: int, j: int, n: int)
    requires
        0 <= j < n,
        n <= 0x20_0000_0000_0000,
    ensures
        jump_walk(key, b, j, n) == jump_walk(
            lcg_step(key),
            j,
            jump_candidate(j as nat, lcg_step(key)),
            n,
        ),
{
    lemma_jump_candidate_advances(j as nat, lcg_step(key));
}

/// The walk settles on a bucket from the current candidate up, below `n`.
pub proof fn lemma_jump_walk_range(key: u64, b: int, j: int, n: int)
    requires
        0 <= j,
        n <= 0x20_0000_0000_0000,
    ensures
        j < n ==> j <= jump_walk(key, b, j, n) < n,
        j >= n ==> jump_walk(key, b, j, n) == b,
    decreases (if j < n {
        n - j
    } else {
        0
    }),
{
    if j < n {
        let k = lcg_step(key);
        lemma_jump_candidate_advances(j as nat, k);
        lemma_jump_walk_range(k, j, jump_candidate(j as nat, k), n);
    }
}

/// One step of the jump hash: the candidate after bucket `b` for the
/// advanced key `key`.
pub fn jump_step(b: i64, key: u64) -> (j: i64)
    requires
        0 <= b < 0x20_0000_0000_0000,
    ensures
        j == jump_candidate(b as nat, key),
{
    reveal(jump_candidate);
    let d: u128 = ((key >> 33u64) as u128) + 1;
    proof {
        assert((key >> 33u64) < 0x8000_0000) by (bit_vector);
        lemma_pow2n_values();
        lemma_power_of_two_is_double(52);
        lemma_round_at_least(0x800000000000000000000, d as nat, 0x10_0000_0000_0000);
        assert(0x800000000000000000000u128 / d >= 0x10_0000_0000_0000) by (nonlinear_arith)
            requires
                1 <= d <= 0x8000_0000,
        ;
    }
    let q = round_to_double(0x800000000000000000000u128, d);
    let b1: u128 = (b as u128) + 1;
    let ghost n = (b1 as nat) * (q as nat);
    proof {
        lemma_power_of_two_is_double(115);
        if n > 0x1_0000_0000_0000_0000_0000_0000_0000_00 {
            lemma_round_at_least(n, 1, pow2n(115));
            assert(round_scaled(n, 1) / 0x10_0000_0000_0000 > 0x7fff_ffff_ffff_ffff) by (
            nonlinear_arith)
                requires
                    round_scaled(n, 1) >= 0x8_0000_0000_0000_0000_0000_0000_0000,
            ;
        }
    }
    match b1.checked_mul(q) {
        Some(prod) => {
            if prod <= 0x1_0000_0000_0000_0000_0000_0000_0000_00 {
                assert(prod / 1 >= 0x10_0000_0000_0000) by (nonlinear_arith)
                    requires
                        prod == b1 * q,
                        b1 >= 1,
                        q >= 0x10_0000_0000_0000,
                ;
                let p = round_to_double(prod, 1);
                let t = p / 0x10_0000_0000_0000;
                if t > 0x7fff_ffff_ffff_ffff {
                    0x7fff_ffff_ffff_ffff
                } else {
                    t as i64
                }
            } else {
                0x7fff_ffff_ffff_ffff
            }
        },
        None => 0x7fff_ffff_ffff_ffff,
    }
}

/// Core jump hash algorithm (Lamping & Veach, 2014): the bucket in
/// `0..num_buckets` for `key`; `usize::MAX` when there are no buckets.
pub fn jump_hash(key: u64, num_buckets: usize) -> (r: usize)
    requires
        num_buckets <= 0x20_0000_0000_0000,
    ensures
        num_buckets == 0 ==> r == usize::MAX,
        num_buckets > 0 ==> r == jump_bucket(key, num_buckets as nat) && r < num_buckets,
{
    let ghost key0 = key;
    let mut key = key;
    let n = num_buckets as i64;
    let mut b: i64 = -1;
    let mut j: i64 = 0;
    while j < n
        invariant
            n == num_buckets,
            n <= 0x20_0000_0000_0000,
            0 <= j,
            -1 <= b < j,
            b == -1 ==> j == 0,
            jump_walk(key0, -1, 0, n as int) == jump_walk(key, b as int, j as int, n as int),
        decreases (if j < n {
            n - j
        } else {
            0
        }),
    {
        let ghost k0 = key;
        proof {
            lemma_jump_walk_step(k0, b as int, j as int, n as int);
        }
        b = j;
        key = key.wrapping_mul(2862933555777941757).wrapping_add(1);
        assert(key == lcg_step(k0)) by {
            reveal(lcg_step);
        }
        proof {
            lemma_jump_candidate_advances(b as nat, key);
        }
        j = jump_step(b, key);
    }
    proof {
        lemma_jump_walk_range(key0, -1, 0, n as int);
    }
    if b < 0 {
        usize::MAX
    } else {
        b as usize
    }
}

// ---------------------------------------------------------------------------
// The ring
// ---------------------------------------------------------------------------

/// Names in strictly increasing `str` order.
pub open spec fn names_sorted(s: Seq<Seq<char>>) -> bool {
    forall|i: int, j: int| 0 <= i < j < s.len() ==> name_lt(s[i], s[j])
}

/// Consistent hash ring using the jump consistent hash algorithm.
pub struct JumpHashRing {
    /// The physical nodes, in increasing name order.
    nodes: Vec<String>,
}

impl View for JumpHashRing {
    type V = Seq<Seq<char>>;

    closed spec fn view(&self) -> Seq<Seq<char>> {
        string_views(self.nodes@)
    }
}

impl JumpHashRing {
    /// The ring's invariant: its nodes are in increasing name order.
    pub open spec fn wf(&self) -> bool {
        names_sorted(self@)
    }

    /// A ring in name order holds each name once.
    pub proof fn lemma_distinct(&self)
        requires
            self.wf(),
        ensures
            self@.no_duplicates(),
    {
        assert forall|i: int, j: int| 0 <= i < self@.len() && 0 <= j < self@.len() && i != j implies self@[i]
            != self@[j] by {
            lemma_name_lt_order(self@[i], self@[j], self@[i]);
        }
    }

    /// Create an empty jump hash ring.
    pub fn new() -> (r: Self)
        ensures
            r.wf(),
            r@ == Seq::<Seq<char>>::empty(),
    {
        let r = JumpHashRing { nodes: Vec::new() };
        assert(r@ =~= Seq::<Seq<char>>::empty());
        r
    }

    /// Where `node` stands or would stand: the number of nodes before it in
    /// name order, and whether it is present.
    fn position(&self, node: &str) -> (r: (bool, usize))
        requires
            self.wf(),
        ensures
            r.1 <= self@.len(),
            forall|j: int| 0 <= j < r.1 ==> name_lt(#[trigger] self@[j], node@),
            forall|j: int| r.1 <= j < self@.len() ==> !name_lt(#[trigger] self@[j], node@),
            r.0 == (r.1 < self@.len() && self@[r.1 as int] == node@),
            r.0 == self@.contains(node@),
    {
        let mut lo: usize = 0;
        let mut hi: usize = self.nodes.len();
        while lo < hi
            invariant
                self.wf(),
                self@.len() == self.nodes@.len(),
                lo <= hi <= self.nodes@.len(),
                forall|j: int| 0 <= j < lo ==> name_lt(#[trigger] self@[j], node@),
                forall|j: int| hi <= j < self@.len() ==> !name_lt(#[trigger] self@[j], node@),
            decreases hi - lo,
        {
            let mid = lo + (hi - lo) / 2;
            assert(self@[mid as int] == self.nodes@[mid as int]@);
            if compare_names(self.nodes[mid].as_str(), node) == NameOrder::Less {
                proof {
                    assert forall|j: int| 0 <= j < mid + 1 implies name_lt(#[trigger] self@[j], node@) by {
                        if j < mid {
                            lemma_name_lt_order(self@[j], self@[mid as int], node@);
                        }
                    }
                }
                lo = mid + 1;
            } else {
                proof {
                    assert forall|j: int| mid <= j < self@.len() implies !name_lt(#[trigger] self@[j], node@) by {
                        if j > mid {
                            lemma_name_lt_order(self@[mid as int], self@[j], node@);
                            lemma_name_lt_order(node@, self@[mid as int], self@[j]);
                            lemma_name_lt_order(self@[j], node@, self@[mid as int]);
                            lemma_name_lt_order(self@[mid as int], node@, node@);
                        }
                    }
                }
                hi = mid;
            }
        }
        let found = lo < self.nodes.len() && compare_names(self.nodes[lo].as_str(), node) == NameOrder::Equal;
        proof {
            if lo < self@.len() {
                assert(self@[lo as int] == self.nodes@[lo as int]@);
            }
            if self@.contains(node@) {
                let k = choose|k: int| 0 <= k < self@.len() && self@[k] == node@;
                lemma_name_lt_order(node@, node@, node@);
                assert(k >= lo);
                if k > lo {
                    lemma_name_lt_order(self@[lo as int], node@, node@);
                    assert(name_lt(self@[lo as int], self@[k]));
                    assert(self@[lo as int] != node@);
                    lemma_name_lt_order(self@[lo as int], node@, self@[lo as int]);
                }
            }
        }
        (found, lo)
    }

    /// Add a node. `weight` is ignored — jump hash distributes load uniformly.
    /// Returns `false` if `weight == 0` or the node is already present.
    pub fn add(&mut self, node: &str, weight: usize) -> (r: bool)
        requires
            old(self).wf(),
        ensures
            final(self).wf(),
            r == (weight > 0 && !old(self)@.contains(node@)),
            !r ==> final(self)@ == old(self)@,
            r ==> final(self)@.len() == old(self)@.len() + 1,
            r ==> final(self)@.to_set() == old(self)@.to_set().insert(node@),
    {
        if weight == 0 {
            return false;
        }
        let (found, idx) = self.position(node);
        if found {
            return false;
        }
        let ghost before = self@;
        let name = node.to_owned();
        self.nodes.insert(idx, name);
        proof {
            assert(self@ =~= before.insert(idx as int, node@));
            assert forall|i: int, j: int| 0 <= i < j < self@.len() implies name_lt(self@[i], self@[j]) by {
                if j < idx {
                } else if i > idx {
                    assert(self@[i] == before[i - 1] && self@[j] == before[j - 1]);
                } else if i == idx {
                    let y = before[j - 1];
                    assert(!name_lt(y, node@));
                    assert(y != node@);
                    lemma_name_lt_order(y, node@, node@);
                } else if j == idx {
                } else {
                    assert(self@[j] == before[j - 1]);
                    assert(i < j - 1 || i == j - 1);
                }
            }
            assert(self@.to_set() =~= before.to_set().insert(node@)) by {
                assert forall|x: Seq<char>| self@.contains(x) <==> before.contains(x) || x == node@ by {
                    if self@.contains(x) {
                        let k = choose|k: int| 0 <= k < self@.len() && self@[k] == x;
                        if k < idx {
                            assert(before[k] == x);
                        } else if k > idx {
                            assert(before[k - 1] == x);
                        }
                    }
                    if before.contains(x) {
                        let k = choose|k: int| 0 <= k < before.len() && before[k] == x;
                        if k < idx {
                            assert(self@[k] == x);
                        } else {
                            assert(self@[k + 1] == x);
                        }
                    }
                    if x == node@ {
                        assert(self@[idx as int] == x);
                    }
                }
            }
        }
        true
    }

    /// Remove a node. Returns `false` if not present.
    pub fn remove(&mut self, node: &str) -> (r: bool)
        requires
            old(self).wf(),
        ensures
            final(self).wf(),
            r == old(self)@.contains(node@),
            !r ==> final(self)@ == old(self)@,
            r ==> final(self)@.len() + 1 == old(self)@.len(),
            r ==> final(self)@.to_set() == old(self)@.to_set().remove(node@),
    {
        let (found, idx) = self.position(node);
        if !found {
            return false;
        }
        let ghost before = self@;
        self.nodes.remove(idx);
        proof {
            assert(self@ =~= before.remove(idx as int));
            assert forall|i: int, j: int| 0 <= i < j < self@.len() implies name_lt(self@[i], self@[j]) by {
                let i2 = if i < idx { i } else { i + 1 };
                let j2 = if j < idx { j } else { j + 1 };
                assert(self@[i] == before[i2] && self@[j] == before[j2]);
            }
            assert(self@.to_set() =~= before.to_set().remove(node@)) by {
                assert forall|x: Seq<char>| self@.contains(x) <==> before.contains(x) && x != node@ by {
                    if self@.contains(x) {
                        let k = choose|k: int| 0 <= k < self@.len() && self@[k] == x;
                        let k2 = if k < idx { k } else { k + 1 };
                        assert(before[k2] == x);
                        assert(k2 != idx);
                        if x == node@ {
                            if k2 < idx {
                                assert(name_lt(before[k2], before[idx as int]));
                            } else {
                                assert(name_lt(before[idx as int], before[k2]));
                            }
                            lemma_name_lt_order(x, x, x);
                        }
                    }
                    if before.contains(x) && x != node@ {
                        let k = choose|k: int| 0 <= k < before.len() && before[k] == x;
                        assert(k != idx);
                        if k < idx {
                            assert(self@[k] == x);
                        } else {
                            assert(self@[k - 1] == x);
                        }
                    }
                }
            }
        }
        true
    }

    /// Returns the node for `key`, or `None` when the ring is empty.
    pub fn get(&self, key: &str) -> (r: Option<String>)
        requires
            self.wf(),
            self@.len() <= 0x20_0000_0000_0000,
        ensures
            self@.len() == 0 ==> r is None,
            self@.len() > 0 ==> r is Some && r->0@ == self@[jump_bucket(
                fnv1a_64(encode_utf8(key@)),
                self@.len(),
            )],
            self@.len() > 0 ==> 0 <= jump_bucket(fnv1a_64(encode_utf8(key@)), self@.len())
                < self@.len(),
    {
        let n = self.nodes.len();
        if n == 0 {
            return None;
        }
        let idx = jump_hash(fnv64(key), n);
        assert(self@[idx as int] == self.nodes@[idx as int]@);
        Some(self.nodes[idx].clone())
    }

    /// Returns `true` if the ring has no physical nodes.
    pub fn is_empty(&self) -> (r: bool)
        ensures
            r == (self@.len() == 0),
    {
        self.nodes.len() == 0
    }

    /// Returns the number of physical nodes.
    pub fn len(&self) -> (r: usize)
        ensures
            r == self@.len(),
    {
        self.nodes.len()
    }

    /// Returns the sorted list of physical nodes.
    pub fn nodes(&self) -> (r: Vec<String>)
        ensures
            string_views(r@) == self@,
    {
        let r = self.nodes.clone();
        assert(string_views(r@) =~= self@) by {
            assert(r@ == self.nodes@);
        }
        r
    }
}

impl Default for JumpHashRing {
    fn default() -> (r: Self)
        ensures
            r.wf(),
            r@ == Seq::<Seq<char>>::empty(),
    {
        Self::new()
    }
}

// ---------------------------------------------------------------------------
// Laws
// ---------------------------------------------------------------------------

/// The jump hash puts every key into one of the `n` buckets.
pub proof fn law_jump_bucket_in_range(key: u64, n: nat)
    requires
        1 <= n <= 0x20_0000_0000_0000,
    ensures
        0 <= jump_bucket(key, n) < n,
{
    lemma_jump_walk_range(key, -1, 0, n as int);
}

/// Growing the bucket count by one from `n` keeps the walk's answer or
/// moves it to the new bucket `n`.
proof fn lemma_jump_walk_grow(key: u64, b: int, j: int, n: int)
    requires
        0 <= j,
        0 <= n,
        n + 1 <= 0x20_0000_0000_0000,
    ensures
        jump_walk(key, b, j, n + 1) == jump_walk(key, b, j, n) || jump_walk(key, b, j, n + 1)
            == n,
    decreases (if j < n {
        n - j
    } else {
        0
    }),
{
    if j <= n {
        let k = lcg_step(key);
        lemma_jump_candidate_advances(j as nat, k);
        let j2 = jump_candidate(j as nat, k);
        lemma_jump_walk_step(key, b, j, n + 1);
        if j < n {
            lemma_jump_walk_step(key, b, j, n);
            lemma_jump_walk_grow(k, j, j2, n);
        } else {
            lemma_jump_walk_range(k, j, j2, n + 1);
        }
    }
}

/// Adding a bucket moves a key only into the new bucket: with `n + 1`
/// buckets a key lands where it landed with `n`, or in bucket `n`.
pub proof fn law_jump_bucket_stable_when_growing(key: u64, n: nat)
    requires
        n + 1 <= 0x20_0000_0000_0000,
    ensures
        jump_bucket(key, n + 1) == jump_bucket(key, n) || jump_bucket(key, n + 1) == n,
{
    lemma_jump_walk_grow(key, -1, 0, n as int);
}

/// Two name-sorted lists with the same names are the same list.
pub proof fn lemma_sorted_names_unique(a: Seq<Seq<char>>, b: Seq<Seq<char>>)
    requires
        names_sorted(a),
        names_sorted(b),
        a.to_set() == b.to_set(),
    ensures
        a == b,
    decreases a.len(),
{
    if a.len() == 0 {
        if b.len() > 0 {
            assert(b.to_set().contains(b[0]));
        }
        assert(a =~= b);
    } else {
        assert(a.to_set().contains(a[0]));
        assert(b.contains(a[0]));
        let jb = choose|j: int| 0 <= j < b.len() && b[j] == a[0];
        assert(b.to_set().contains(b[0]));
        assert(a.contains(b[0]));
        let ja = choose|j: int| 0 <= j < a.len() && a[j] == b[0];
        if ja > 0 && jb > 0 {
            assert(name_lt(a[0], a[ja]));
            assert(name_lt(b[0], b[jb]));
            lemma_name_lt_order(a[0], b[0], a[0]);
        } else if ja > 0 {
            assert(b[0] == a[0]);
        }
        assert(a[0] == b[0]);
        let a1 = a.drop_first();
        let b1 = b.drop_first();
        assert forall|x: Seq<char>| a1.contains(x) <==> b1.contains(x) by {
            if a1.contains(x) {
                let k = choose|k: int| 0 <= k < a1.len() && a1[k] == x;
                assert(a[k + 1] == x);
                assert(name_lt(a[0], x));
                lemma_name_lt_order(x, x, x);
                assert(a.to_set().contains(x));
                let q = choose|q: int| 0 <= q < b.len() && b[q] == x;
                assert(q != 0);
                assert(b1[q - 1] == x);
            }
            if b1.contains(x) {
                let k = choose|k: int| 0 <= k < b1.len() && b1[k] == x;
                assert(b[k + 1] == x);
                assert(name_lt(b[0], x));
                lemma_name_lt_order(x, x, x);
                assert(b.to_set().contains(x));
                let q = choose|q: int| 0 <= q < a.len() && a[q] == x;
                assert(q != 0);
                assert(a1[q - 1] == x);
            }
        }
        assert(a1.to_set() =~= b1.to_set());
        lemma_sorted_names_unique(a1, b1);
        assert(a =~= seq![a[0]] + a1);
        assert(b =~= seq![b[0]] + b1);
    }
}

/// Adding a new node and then removing it restores the ring.
pub proof fn law_jump_add_then_remove_restores(
    before: Seq<Seq<char>>,
    added: Seq<Seq<char>>,
    removed: Seq<Seq<char>>,
    node: Seq<char>,
)
    requires
        names_sorted(before),
        names_sorted(added),
        names_sorted(removed),
        !before.contains(node),
        added.to_set() == before.to_set().insert(node),
        removed.to_set() == added.to_set().remove(node),
    ensures
        removed == before,
{
    assert(removed.to_set() =~= before.to_set()) by {
        assert forall|x: Seq<char>| removed.to_set().contains(x) <==> before.to_set().contains(x) by {
            if x == node {
                assert(!before.to_set().contains(x));
            }
        }
    }
    lemma_sorted_names_unique(removed, before);
}

/// FNV-1a folds in every byte: the hash of no bytes is the offset basis, and
/// appending a byte xors it in and multiplies by the FNV prime (mod 2^64),
/// whatever the length before.
pub proof fn law_fnv1a_64_folds_every_byte(s: Seq<u8>, b: u8)
    ensures
        fnv1a_64(Seq::<u8>::empty()) == 14695981039346656037u64,
        fnv1a_64(s.push(b)) == ((((fnv1a_64(s) ^ (b as u64)) as nat) * 1099511628211nat)
            % 0x1_0000_0000_0000_0000) as u64,
{
    assert(s.push(b).drop_last() =~= s);
}

/// Keys whose bytes differ only in their last byte hash differently.
pub proof fn law_fnv1a_64_last_byte_matters(s: Seq<u8>, b: u8, c: u8)
    requires
        b != c,
    ensures
        fnv1a_64(s.push(b)) != fnv1a_64(s.push(c)),
{
    law_fnv1a_64_folds_every_byte(s, b);
    law_fnv1a_64_folds_every_byte(s, c);
    let h = fnv1a_64(s);
    let x = h ^ (b as u64);
    let y = h ^ (c as u64);
    assert(x != y) by (bit_vector)
        requires
            x == h ^ (b as u64),
            y == h ^ (c as u64),
            b != c,
    ;
    // The FNV prime is odd, so multiplying by it modulo 2^64 is one to one.
    assert(((x as nat * 1099511628211nat) % 0x1_0000_0000_0000_0000) as u64 != ((y as nat
        * 1099511628211nat) % 0x1_0000_0000_0000_0000) as u64) by {
        let px = x.wrapping_mul(1099511628211u64);
        let py = y.wrapping_mul(1099511628211u64);
        assert(px == ((x as nat * 1099511628211nat) % 0x1_0000_0000_0000_0000) as u64);
        assert(py == ((y as nat * 1099511628211nat) % 0x1_0000_0000_0000_0000) as u64);
        // 14886173955864302971 is the inverse of the prime modulo 2^64.
        assert(x == px.wrapping_mul(14886173955864302971u64) && y == py.wrapping_mul(
            14886173955864302971u64,
        )) by (bit_vector)
            requires
                px == x.wrapping_mul(1099511628211u64),
                py == y.wrapping_mul(1099511628211u64),
        ;
    }
}

} // verus!
