//! In-flight load accounting for consistent hashing with bounded loads
//! (Mirrokni, Thorup, Zadimoghaddam; Google, 2017).
//!
//! For each request the ring's candidates are tried in ring order; the first
//! node whose in-flight load is below the load ceiling takes the request. The
//! ceiling itself, `ceil(beta * total / nodes)`, is computed by the caller.

use vstd::prelude::*;
use crate::ring::{ring_candidates, string_views, ConsistentHashRing, RingModel};
use crate::ring_laws::law_candidates_start_with_lookup;
use crate::hashing::key_position;
use crate::text::names_equal;

verus! {

/// The abstract load state: each tracked node with its in-flight load, and
/// the total of those loads.
pub struct LoadView {
    pub entries: Seq<(Seq<char>, int)>,
    pub total: int,
}

/// The names of the tracked nodes.
pub open spec fn tracked_names(entries: Seq<(Seq<char>, int)>) -> Seq<Seq<char>> {
    entries.map_values(|e: (Seq<char>, int)| e.0)
}

/// The sum of the loads.
pub open spec fn sum_loads(entries: Seq<(Seq<char>, int)>) -> int
    decreases entries.len(),
{
    if entries.len() == 0 {
        0
    } else {
        sum_loads(entries.drop_last()) + entries.last().1
    }
}

/// Each tracked node's load.
pub open spec fn load_map(entries: Seq<(Seq<char>, int)>) -> Map<Seq<char>, int> {
    Map::new(
        |n: Seq<char>| tracked_names(entries).contains(n),
        |n: Seq<char>| entries[tracked_names(entries).index_of(n)].1,
    )
}

/// The load of `n`; an untracked node has none.
pub open spec fn load_of(m: Map<Seq<char>, int>, n: Seq<char>) -> int {
    if m.contains_key(n) {
        m[n]
    } else {
        0
    }
}

/// The invariant of the load state: each node once, loads never negative,
/// and the total equal to the sum of the loads.
pub open spec fn load_wf(v: LoadView) -> bool {
    &&& tracked_names(v.entries).no_duplicates()
    &&& forall|i: int| 0 <= i < v.entries.len() ==> #[trigger] v.entries[i].1 >= 0
    &&& v.total == sum_loads(v.entries)
    &&& v.total <= i64::MAX
}

/// The index of the first candidate from `i` on whose load is below the ceiling.
pub open spec fn first_below(
    cands: Seq<Seq<char>>,
    m: Map<Seq<char>, int>,
    ceiling: int,
    i: int,
) -> int
    decreases cands.len() - i,
{
    if i < 0 || i >= cands.len() {
        -1
    } else if load_of(m, cands[i]) < ceiling {
        i
    } else {
        first_below(cands, m, ceiling, i + 1)
    }
}

/// The candidate that takes a request: the first one below the ceiling, or
/// the first candidate when all are at or above it.
pub open spec fn chosen_index(cands: Seq<Seq<char>>, m: Map<Seq<char>, int>, ceiling: int) -> int {
    if first_below(cands, m, ceiling, 0) >= 0 {
        first_below(cands, m, ceiling, 0)
    } else {
        0
    }
}

/// The sum changes by the difference when one load is replaced.
pub proof fn lemma_sum_update(s: Seq<(Seq<char>, int)>, i: int, e: (Seq<char>, int))
    requires
        0 <= i < s.len(),
    ensures
        sum_loads(s.update(i, e)) == sum_loads(s) - s[i].1 + e.1,
    decreases s.len(),
{
    if i < s.len() - 1 {
        lemma_sum_update(s.drop_last(), i, e);
        assert(s.update(i, e).drop_last() =~= s.drop_last().update(i, e));
    } else {
        assert(s.update(i, e).drop_last() =~= s.drop_last());
    }
}

/// The sum drops by the removed load.
pub proof fn lemma_sum_remove(s: Seq<(Seq<char>, int)>, i: int)
    requires
        0 <= i < s.len(),
    ensures
        sum_loads(s.remove(i)) == sum_loads(s) - s[i].1,
    decreases s.len(),
{
    if i < s.len() - 1 {
        lemma_sum_remove(s.drop_last(), i);
        assert(s.remove(i).drop_last() =~= s.drop_last().remove(i));
    } else {
        assert(s.remove(i) =~= s.drop_last());
    }
}

/// No single load exceeds the sum of non-negative loads.
pub proof fn lemma_load_at_most_sum(s: Seq<(Seq<char>, int)>, i: int)
    requires
        0 <= i < s.len(),
        forall|k: int| 0 <= k < s.len() ==> #[trigger] s[k].1 >= 0,
    ensures
        0 <= s[i].1 <= sum_loads(s),
        sum_loads(s) >= 0,
    decreases s.len(),
{
    lemma_sum_nonnegative(s.drop_last());
    if i < s.len() - 1 {
        lemma_load_at_most_sum(s.drop_last(), i);
    }
}

/// A sum of non-negative loads is non-negative.
pub proof fn lemma_sum_nonnegative(s: Seq<(Seq<char>, int)>)
    requires
        forall|k: int| 0 <= k < s.len() ==> #[trigger] s[k].1 >= 0,
    ensures
        sum_loads(s) >= 0,
    decreases s.len(),
{
    if s.len() > 0 {
        lemma_sum_nonnegative(s.drop_last());
    }
}

/// The map reports the load stored at index `i` of a duplicate-free list.
pub proof fn lemma_load_map_index(s: Seq<(Seq<char>, int)>, i: int)
    requires
        tracked_names(s).no_duplicates(),
        0 <= i < s.len(),
    ensures
        load_map(s).contains_key(s[i].0),
        load_map(s)[s[i].0] == s[i].1,
{
    let names = tracked_names(s);
    assert(names[i] == s[i].0);
    let j = names.index_of(s[i].0);
    assert(names[j] == names[i]);
}

/// Replacing the load at index `i`.
pub proof fn lemma_load_map_update(s: Seq<(Seq<char>, int)>, i: int, v: int)
    requires
        tracked_names(s).no_duplicates(),
        0 <= i < s.len(),
    ensures
        tracked_names(s.update(i, (s[i].0, v))).no_duplicates(),
        load_map(s.update(i, (s[i].0, v))) == load_map(s).insert(s[i].0, v),
{
    let t = s.update(i, (s[i].0, v));
    assert(tracked_names(t) =~= tracked_names(s));
    let target = load_map(s).insert(s[i].0, v);
    assert forall|n: Seq<char>| load_map(t).contains_key(n) <==> target.contains_key(n) by {
        if n == s[i].0 {
            assert(tracked_names(s)[i] == n);
        }
    }
    assert forall|n: Seq<char>| #[trigger] load_map(t).contains_key(n) implies load_map(t)[n]
        == target[n] by {
        let names = tracked_names(s);
        let j = names.index_of(n);
        assert(names[j] == n);
        if n == s[i].0 {
            assert(names[i] == n);
            assert(j == i);
        } else {
            assert(j != i);
            assert(t[j] == s[j]);
        }
    }
    assert(load_map(t) =~= target);
}

/// Appending a new node.
pub proof fn lemma_load_map_push(s: Seq<(Seq<char>, int)>, e: (Seq<char>, int))
    requires
        tracked_names(s).no_duplicates(),
        !tracked_names(s).contains(e.0),
    ensures
        tracked_names(s.push(e)).no_duplicates(),
        load_map(s.push(e)) == load_map(s).insert(e.0, e.1),
{
    let t = s.push(e);
    let names = tracked_names(s);
    assert(tracked_names(t) =~= names.push(e.0));
    let target = load_map(s).insert(e.0, e.1);
    assert forall|n: Seq<char>| load_map(t).contains_key(n) <==> target.contains_key(n) by {
        if tracked_names(t).contains(n) {
            let a = choose|a: int| 0 <= a < tracked_names(t).len() && tracked_names(t)[a] == n;
            if a < names.len() {
                assert(names[a] == n);
            }
        }
        if names.contains(n) {
            let a = choose|a: int| 0 <= a < names.len() && names[a] == n;
            assert(tracked_names(t)[a] == n);
        }
        if n == e.0 {
            assert(tracked_names(t)[names.len() as int] == n);
        }
    }
    assert forall|n: Seq<char>| #[trigger] load_map(t).contains_key(n) implies load_map(t)[n]
        == target[n] by {
        let a = tracked_names(t).index_of(n);
        assert(tracked_names(t)[a] == n);
        if n == e.0 {
            if a < names.len() {
                assert(names[a] == n);
                assert(names.contains(n));
            }
            assert(t[a] == e);
        } else {
            assert(a < names.len());
            assert(names[a] == n);
            assert(names.contains(n));
            let b = names.index_of(n);
            assert(names[b] == n);
            assert(a == b);
            assert(t[a] == s[a]);
        }
    }
    assert(load_map(t) =~= target);
}

/// Removing the node at index `i`.
pub proof fn lemma_load_map_remove(s: Seq<(Seq<char>, int)>, i: int)
    requires
        tracked_names(s).no_duplicates(),
        0 <= i < s.len(),
    ensures
        tracked_names(s.remove(i)).no_duplicates(),
        load_map(s.remove(i)) == load_map(s).remove(s[i].0),
{
    let names = tracked_names(s);
    let t = s.remove(i);
    let tnames = tracked_names(t);
    assert(tnames =~= names.remove(i));
    assert forall|a: int, b: int| 0 <= a < b < tnames.len() implies tnames[a] != tnames[b] by {
        let a2 = if a < i { a } else { a + 1 };
        let b2 = if b < i { b } else { b + 1 };
        assert(tnames[a] == names[a2]);
        assert(tnames[b] == names[b2]);
    }
    let target = load_map(s).remove(s[i].0);
    assert forall|n: Seq<char>| load_map(t).contains_key(n) <==> target.contains_key(n) by {
        if tnames.contains(n) {
            let a = choose|a: int| 0 <= a < tnames.len() && tnames[a] == n;
            let a2 = if a < i { a } else { a + 1 };
            assert(names[a2] == n);
            assert(names[i] == s[i].0);
        }
        if target.contains_key(n) {
            let a = choose|a: int| 0 <= a < names.len() && names[a] == n;
            assert(a != i);
            if a < i {
                assert(tnames[a] == n);
            } else {
                assert(tnames[a - 1] == n);
            }
        }
    }
    assert forall|n: Seq<char>| #[trigger] load_map(t).contains_key(n) implies load_map(t)[n]
        == target[n] by {
        assert(tnames.contains(n));
        let a = tnames.index_of(n);
        assert(tnames[a] == n);
        let a2 = if a < i { a } else { a + 1 };
        assert(names[a2] == n);
        assert(names.contains(n));
        let b = names.index_of(n);
        assert(names[b] == n);
        assert(b == a2);
        assert(t[a] == s[a2]);
        assert(target.contains_key(n));
        assert(target[n] == load_map(s)[n]);
    }
    assert(load_map(t) =~= target);
}

/// The view of a stored load entry.
pub open spec fn load_entry_view(e: (String, i64)) -> (Seq<char>, int) {
    (e.0@, e.1 as int)
}

/// The in-flight loads of the nodes of a bounded-load ring.
pub struct LoadState {
    /// Each tracked node once, with its in-flight load.
    loads: Vec<(String, i64)>,
    /// The sum of the in-flight loads.
    total: i64,
}

impl View for LoadState {
    type V = LoadView;

    closed spec fn view(&self) -> LoadView {
        LoadView {
            entries: self.loads@.map_values(|e: (String, i64)| load_entry_view(e)),
            total: self.total as int,
        }
    }
}

impl LoadState {
    /// Empty load state: no node tracked, no load.
    pub fn new() -> (r: Self)
        ensures
            load_wf(r@),
            r@.entries == Seq::<(Seq<char>, int)>::empty(),
            r@.total == 0,
    {
        let r = LoadState { loads: Vec::new(), total: 0 };
        assert(r@.entries =~= Seq::<(Seq<char>, int)>::empty());
        r
    }

    /// The index at which `node` is tracked, if it is.
    fn find(&self, node: &str) -> (r: Option<usize>)
        requires
            load_wf(self@),
        ensures
            r is Some <==> load_map(self@.entries).contains_key(node@),
            r matches Some(i) ==> i < self@.entries.len() && self@.entries[i as int].0 == node@,
    {
        let mut i: usize = 0;
        while i < self.loads.len()
            invariant
                i <= self.loads@.len(),
                self@.entries.len() == self.loads@.len(),
                forall|j: int| 0 <= j < i ==> self@.entries[j].0 != node@,
            decreases self.loads@.len() - i,
        {
            assert(self@.entries[i as int].0 == self.loads@[i as int].0@);
            if names_equal(self.loads[i].0.as_str(), node) {
                assert(tracked_names(self@.entries)[i as int] == node@);
                return Some(i);
            }
            i = i + 1;
        }
        proof {
            if tracked_names(self@.entries).contains(node@) {
                let j = choose|j: int|
                    0 <= j < tracked_names(self@.entries).len() && tracked_names(self@.entries)[j]
                        == node@;
                assert(self@.entries[j].0 == node@);
            }
        }
        None
    }

    /// The total in-flight load.
    pub fn total(&self) -> (r: i64)
        ensures
            r == self@.total,
    {
        self.total
    }

    /// The in-flight load of `node`, 0 when it is not tracked.
    pub fn load(&self, node: &str) -> (r: i64)
        requires
            load_wf(self@),
        ensures
            r == load_of(load_map(self@.entries), node@),
    {
        match self.find(node) {
            Some(i) => {
                proof {
                    lemma_load_map_index(self@.entries, i as int);
                }
                self.loads[i].1
            },
            None => 0,
        }
    }

    /// Start tracking `node` with no load, unless it is tracked already.
    pub fn track(&mut self, node: &str)
        requires
            load_wf(old(self)@),
        ensures
            load_wf(final(self)@),
            final(self)@.total == old(self)@.total,
            load_map(final(self)@.entries) == if load_map(old(self)@.entries).contains_key(node@) {
                load_map(old(self)@.entries)
            } else {
                load_map(old(self)@.entries).insert(node@, 0)
            },
    {
        if self.find(node).is_some() {
            return;
        }
        let ghost before = self@.entries;
        self.loads.push((node.to_owned(), 0));
        proof {
            assert(self@.entries =~= before.push((node@, 0)));
            lemma_load_map_push(before, (node@, 0));
            assert(self@.entries.drop_last() =~= before);
            assert forall|i: int| 0 <= i < self@.entries.len() implies #[trigger] self@.entries[i].1
                >= 0 by {
                if i < before.len() {
                    assert(self@.entries[i] == before[i]);
                }
            }
        }
    }

    /// Stop tracking `node`, taking its load off the total.
    pub fn forget(&mut self, node: &str)
        requires
            load_wf(old(self)@),
        ensures
            load_wf(final(self)@),
            load_map(final(self)@.entries) == load_map(old(self)@.entries).remove(node@),
            final(self)@.total == old(self)@.total - load_of(load_map(old(self)@.entries), node@),
    {
        let i = match self.find(node) {
            Some(i) => i,
            None => {
                assert(load_map(self@.entries).remove(node@) =~= load_map(self@.entries));
                return;
            },
        };
        let ghost before = self@.entries;
        proof {
            lemma_load_map_index(before, i as int);
            lemma_load_at_most_sum(before, i as int);
        }
        let load = self.loads[i].1;
        let reduced = if self.total - load > 0 {
            self.total - load
        } else {
            0
        };
        self.total = reduced;
        self.loads.remove(i);
        proof {
            assert(self@.entries =~= before.remove(i as int));
            lemma_load_map_remove(before, i as int);
            lemma_sum_remove(before, i as int);
            assert forall|k: int| 0 <= k < self@.entries.len() implies #[trigger] self@.entries[k].1
                >= 0 by {
                if k < i {
                    assert(self@.entries[k] == before[k]);
                } else {
                    assert(self@.entries[k] == before[k + 1]);
                }
            }
        }
    }

    /// Adds one in-flight request to the load of `node`, tracking it if needed.
    fn charge(&mut self, node: &str)
        requires
            load_wf(old(self)@),
            old(self)@.total < i64::MAX,
        ensures
            load_wf(final(self)@),
            final(self)@.total == old(self)@.total + 1,
            load_map(final(self)@.entries) == load_map(old(self)@.entries).insert(
                node@,
                load_of(load_map(old(self)@.entries), node@) + 1,
            ),
    {
        let ghost before = self@.entries;
        match self.find(node) {
            Some(i) => {
                proof {
                    lemma_load_map_index(before, i as int);
                    lemma_load_at_most_sum(before, i as int);
                }
                let load = self.loads[i].1;
                let name = self.loads[i].0.clone();
                self.loads.set(i, (name, load + 1));
                self.total = self.total + 1;
                proof {
                    assert(self@.entries =~= before.update(i as int, (before[i as int].0, load + 1)));
                    lemma_load_map_update(before, i as int, load + 1);
                    lemma_sum_update(before, i as int, (before[i as int].0, load + 1));
                    assert forall|k: int| 0 <= k < self@.entries.len() implies #[trigger] self@.entries[k].1
                        >= 0 by {
                        if k != i {
                            assert(self@.entries[k] == before[k]);
                        }
                    }
                }
            },
            None => {
                self.loads.push((node.to_owned(), 1));
                self.total = self.total + 1;
                proof {
                    assert(self@.entries =~= before.push((node@, 1)));
                    lemma_load_map_push(before, (node@, 1));
                    assert(self@.entries.drop_last() =~= before);
                    assert forall|k: int| 0 <= k < self@.entries.len() implies #[trigger] self@.entries[k].1
                        >= 0 by {
                        if k < before.len() {
                            assert(self@.entries[k] == before[k]);
                        }
                    }
                }
            },
        }
    }

    /// Route one request among `candidates` (ring order, primary first): the
    /// first candidate whose load is below `ceiling` takes it, or the first
    /// candidate when none is. Its load goes up by one. `None` when there is
    /// no candidate.
    pub fn assign(&mut self, candidates: &Vec<String>, ceiling: i64) -> (r: Option<String>)
        requires
            load_wf(old(self)@),
            old(self)@.total < i64::MAX,
        ensures
            load_wf(final(self)@),
            candidates@.len() == 0 ==> r is None && final(self)@ == old(self)@,
            candidates@.len() > 0 ==> {
                let c = string_views(candidates@)[chosen_index(
                    string_views(candidates@),
                    load_map(old(self)@.entries),
                    ceiling as int,
                )];
                &&& r is Some
                &&& r->0@ == c
                &&& final(self)@.total == old(self)@.total + 1
                &&& load_map(final(self)@.entries) == load_map(old(self)@.entries).insert(
                    c,
                    load_of(load_map(old(self)@.entries), c) + 1,
                )
            },
    {
        if candidates.len() == 0 {
            return None;
        }
        let ghost cands = string_views(candidates@);
        let ghost m = load_map(self@.entries);
        let mut i: usize = 0;
        while i < candidates.len()
            invariant
                load_wf(self@),
                self@ == old(self)@,
                self@.total < i64::MAX,
                m == load_map(self@.entries),
                cands == string_views(candidates@),
                i <= candidates@.len(),
                first_below(cands, m, ceiling as int, 0) == first_below(cands, m, ceiling as int, i as int),
            decreases candidates@.len() - i,
        {
            let load = self.load(candidates[i].as_str());
            assert(cands[i as int] == candidates@[i as int]@);
            if load < ceiling {
                let name = candidates[i].clone();
                self.charge(name.as_str());
                return Some(name);
            }
            i = i + 1;
        }
        assert(cands[0] == candidates@[0]@);
        let name = candidates[0].clone();
        self.charge(name.as_str());
        Some(name)
    }

    /// Release one in-flight request of `node`: its load goes down by one,
    /// unless it is untracked or has no load.
    pub fn done(&mut self, node: &str)
        requires
            load_wf(old(self)@),
        ensures
            load_wf(final(self)@),
            if load_of(load_map(old(self)@.entries), node@) > 0 {
                &&& load_map(final(self)@.entries) == load_map(old(self)@.entries).insert(
                    node@,
                    load_of(load_map(old(self)@.entries), node@) - 1,
                )
                &&& final(self)@.total == old(self)@.total - 1
            } else {
                final(self)@ == old(self)@
            },
    {
        let ghost before = self@.entries;
        match self.find(node) {
            Some(i) => {
                proof {
                    lemma_load_map_index(before, i as int);
                    lemma_load_at_most_sum(before, i as int);
                }
                let load = self.loads[i].1;
                if load > 0 {
                    let name = self.loads[i].0.clone();
                    self.loads.set(i, (name, load - 1));
                    self.total = self.total - 1;
                    proof {
                        assert(self@.entries =~= before.update(i as int, (before[i as int].0, load - 1)));
                        lemma_load_map_update(before, i as int, load - 1);
                        lemma_sum_update(before, i as int, (before[i as int].0, load - 1));
                        assert forall|k: int| 0 <= k < self@.entries.len() implies #[trigger] self@.entries[k].1
                            >= 0 by {
                            if k != i {
                                assert(self@.entries[k] == before[k]);
                            }
                        }
                    }
                }
            },
            None => {},
        }
    }

    /// A snapshot of the in-flight load of every tracked node.
    pub fn loads(&self) -> (r: Vec<(String, i64)>)
        ensures
            r@.map_values(|e: (String, i64)| load_entry_view(e)) == self@.entries,
    {
        let mut r: Vec<(String, i64)> = Vec::new();
        let mut i: usize = 0;
        while i < self.loads.len()
            invariant
                i <= self.loads@.len(),
                r@.len() == i,
                forall|k: int| 0 <= k < i ==> load_entry_view(#[trigger] r@[k]) == load_entry_view(
                    self.loads@[k],
                ),
            decreases self.loads@.len() - i,
        {
            let name = self.loads[i].0.clone();
            r.push((name, self.loads[i].1));
            i = i + 1;
        }
        assert(r@.map_values(|e: (String, i64)| load_entry_view(e)) =~= self@.entries);
        r
    }
}

/// What `first_below` finds from `i` on: a candidate below the ceiling with
/// every candidate between `i` and it at or above the ceiling, or none at all.
pub proof fn lemma_first_below(cands: Seq<Seq<char>>, m: Map<Seq<char>, int>, ceiling: int, i: int)
    requires
        0 <= i,
    ensures
        first_below(cands, m, ceiling, i) >= 0 ==> {
            let k = first_below(cands, m, ceiling, i);
            &&& i <= k < cands.len()
            &&& load_of(m, cands[k]) < ceiling
            &&& forall|q: int| i <= q < k ==> load_of(m, #[trigger] cands[q]) >= ceiling
        },
        first_below(cands, m, ceiling, i) < 0 ==> first_below(cands, m, ceiling, i) == -1 && forall|q: int|
            i <= q < cands.len() ==> load_of(m, #[trigger] cands[q]) >= ceiling,
    decreases cands.len() - i,
{
    if i < cands.len() && load_of(m, cands[i]) >= ceiling {
        lemma_first_below(cands, m, ceiling, i + 1);
    }
}

/// A request goes to a candidate below the load ceiling whenever there is
/// one, and to the first such candidate in ring order.
pub proof fn law_assign_prefers_candidates_below_ceiling(
    cands: Seq<Seq<char>>,
    m: Map<Seq<char>, int>,
    ceiling: int,
)
    requires
        cands.len() > 0,
    ensures
        0 <= chosen_index(cands, m, ceiling) < cands.len(),
        (exists|i: int| 0 <= i < cands.len() && load_of(m, cands[i]) < ceiling) ==> load_of(
            m,
            cands[chosen_index(cands, m, ceiling)],
        ) < ceiling,
        forall|q: int|
            0 <= q < chosen_index(cands, m, ceiling) ==> load_of(m, #[trigger] cands[q]) >= ceiling,
        (forall|i: int| 0 <= i < cands.len() ==> load_of(m, #[trigger] cands[i]) >= ceiling)
            ==> chosen_index(cands, m, ceiling) == 0,
{
    lemma_first_below(cands, m, ceiling, 0);
    if exists|i: int| 0 <= i < cands.len() && load_of(m, cands[i]) < ceiling {
        let i = choose|i: int| 0 <= i < cands.len() && load_of(m, cands[i]) < ceiling;
        assert(first_below(cands, m, ceiling, 0) >= 0);
    }
}

/// Releasing a request on the node that just took one restores the loads:
/// the node is left with the load it had (0 if it was not tracked), and the
/// total is what it was.
pub proof fn law_done_undoes_assign(
    m0: Map<Seq<char>, int>,
    total0: int,
    c: Seq<char>,
    m1: Map<Seq<char>, int>,
    total1: int,
    m2: Map<Seq<char>, int>,
    total2: int,
)
    requires
        forall|n: Seq<char>| #[trigger] m0.contains_key(n) ==> m0[n] >= 0,
        m1 == m0.insert(c, load_of(m0, c) + 1),
        total1 == total0 + 1,
        m2 == m1.insert(c, load_of(m1, c) - 1),
        total2 == total1 - 1,
    ensures
        total2 == total0,
        m2 == m0.insert(c, load_of(m0, c)),
        m0.contains_key(c) ==> m2 == m0,
{
    assert(m2 =~= m0.insert(c, load_of(m0, c)));
    if m0.contains_key(c) {
        assert(m2 =~= m0);
    }
}

/// A consistent hash ring together with the in-flight loads of its nodes:
/// the state of a bounded-load ring, without the load ceiling, which the
/// caller computes.
pub struct BoundedLoadCore {
    ring: ConsistentHashRing,
    state: LoadState,
}

impl BoundedLoadCore {
    /// The invariant: the ring and the load state are each well formed, and
    /// the loads are kept for exactly the ring's nodes.
    pub closed spec fn wf(&self) -> bool {
        &&& self.ring.wf()
        &&& load_wf(self.state@)
        &&& load_map(self.state@.entries).dom() == self.ring@.weights.dom()
    }

    /// The ring.
    pub closed spec fn ring_view(&self) -> RingModel {
        self.ring@
    }

    /// The load state.
    pub closed spec fn load_view(&self) -> LoadView {
        self.state@
    }

    /// What the invariant gives callers.
    pub proof fn lemma_wf(&self)
        requires
            self.wf(),
        ensures
            crate::ring::model_wf(self.ring_view()),
            load_wf(self.load_view()),
            load_map(self.load_view().entries).dom() == self.ring_view().weights.dom(),
    {
        self.ring.lemma_model_wf();
    }

    /// An empty ring with the given base replica count, and no load.
    pub fn new(replicas: usize) -> (r: Self)
        requires
            replicas > 0,
        ensures
            r.wf(),
            r.ring_view().replicas == replicas,
            r.ring_view().weights == Map::<Seq<char>, nat>::empty(),
            r.ring_view().vnodes == Seq::<(u32, Seq<char>)>::empty(),
            r.load_view().total == 0,
            r.load_view().entries == Seq::<(Seq<char>, int)>::empty(),
    {
        let r = BoundedLoadCore { ring: ConsistentHashRing::new(replicas), state: LoadState::new() };
        assert(load_map(r.state@.entries).dom() =~= r.ring@.weights.dom());
        r
    }

    /// Add a physical node to the ring; a node that is new starts with no load.
    pub fn add(&mut self, node: &str, weight: usize) -> (r: bool)
        requires
            old(self).wf(),
            old(self).ring_view().replicas * weight <= usize::MAX,
        ensures
            final(self).wf(),
            r == (weight > 0),
            !r ==> final(self).ring_view() == old(self).ring_view() && final(self).load_view()
                == old(self).load_view(),
            r ==> final(self).ring_view().replicas == old(self).ring_view().replicas,
            r ==> final(self).ring_view().weights == old(self).ring_view().weights.insert(
                node@,
                weight as nat,
            ),
            r ==> crate::ring::owners(final(self).ring_view().vnodes) == crate::ring::with_vnodes(
                crate::ring::without_node(crate::ring::owners(old(self).ring_view().vnodes), node@),
                node@,
                old(self).ring_view().replicas * (weight as nat),
            ),
            r ==> final(self).load_view().total == old(self).load_view().total,
            r ==> load_map(final(self).load_view().entries) == if load_map(
                old(self).load_view().entries,
            ).contains_key(node@) {
                load_map(old(self).load_view().entries)
            } else {
                load_map(old(self).load_view().entries).insert(node@, 0)
            },
    {
        let ok = self.ring.add(node, weight);
        if ok {
            self.state.track(node);
            proof {
                assert(load_map(self.state@.entries).dom() =~= self.ring@.weights.dom());
            }
        }
        ok
    }

    /// Remove a physical node and its load.
    pub fn remove(&mut self, node: &str) -> (r: bool)
        requires
            old(self).wf(),
        ensures
            final(self).wf(),
            r == old(self).ring_view().weights.contains_key(node@),
            !r ==> final(self).ring_view() == old(self).ring_view() && final(self).load_view()
                == old(self).load_view(),
            final(self).ring_view().replicas == old(self).ring_view().replicas,
            final(self).ring_view().weights == old(self).ring_view().weights.remove(node@),
            crate::ring::owners(final(self).ring_view().vnodes) == crate::ring::without_node(
                crate::ring::owners(old(self).ring_view().vnodes),
                node@,
            ),
            load_map(final(self).load_view().entries) == load_map(
                old(self).load_view().entries,
            ).remove(node@),
            final(self).load_view().total == old(self).load_view().total - load_of(
                load_map(old(self).load_view().entries),
                node@,
            ),
    {
        let ok = self.ring.remove(node);
        if ok {
            self.state.forget(node);
            proof {
                assert(load_map(self.state@.entries).dom() =~= self.ring@.weights.dom());
            }
        } else {
            proof {
                assert(!load_map(self.state@.entries).contains_key(node@));
                assert(load_map(self.state@.entries).remove(node@) =~= load_map(self.state@.entries));
            }
        }
        ok
    }

    /// The nodes to try for `key`: every distinct ring node, in ring order
    /// from the one that serves the key.
    pub fn candidates(&self, key: &str) -> (r: Vec<String>)
        requires
            self.wf(),
        ensures
            string_views(r@) == ring_candidates(
                self.ring_view(),
                key_position(key@),
                self.ring_view().weights.len(),
            ),
            string_views(r@).no_duplicates(),
            forall|i: int|
                0 <= i < r@.len() ==> self.ring_view().weights.contains_key(
                    #[trigger] string_views(r@)[i],
                ),
    {
        proof {
            self.ring.lemma_model_wf();
            law_candidates_start_with_lookup(self.ring@, key_position(key@), self.ring@.weights.len());
        }
        let n = self.ring.len();
        if n == 0 {
            let r = self.ring.get_n(key, 0);
            return r;
        }
        self.ring.get_n(key, n)
    }

    /// The total in-flight load.
    pub fn total(&self) -> (r: i64)
        ensures
            r == self.load_view().total,
    {
        self.state.total()
    }

    /// Route one request among `candidates` (ring nodes, primary first, as
    /// `candidates` lists them): the first whose load is below `ceiling` takes
    /// it, or the first candidate when none is. `None` when there is no candidate.
    pub fn assign(&mut self, candidates: &Vec<String>, ceiling: i64) -> (r: Option<String>)
        requires
            old(self).wf(),
            old(self).load_view().total < i64::MAX,
            forall|i: int|
                0 <= i < candidates@.len() ==> old(self).ring_view().weights.contains_key(
                    #[trigger] string_views(candidates@)[i],
                ),
        ensures
            final(self).wf(),
            final(self).ring_view() == old(self).ring_view(),
            candidates@.len() == 0 ==> r is None && final(self).load_view() == old(
                self,
            ).load_view(),
            candidates@.len() > 0 ==> {
                let c = string_views(candidates@)[chosen_index(
                    string_views(candidates@),
                    load_map(old(self).load_view().entries),
                    ceiling as int,
                )];
                &&& r is Some
                &&& r->0@ == c
                &&& final(self).load_view().total == old(self).load_view().total + 1
                &&& load_map(final(self).load_view().entries) == load_map(
                    old(self).load_view().entries,
                ).insert(c, load_of(load_map(old(self).load_view().entries), c) + 1)
            },
    {
        let ghost m0 = load_map(self.state@.entries);
        let r = self.state.assign(candidates, ceiling);
        proof {
            if candidates@.len() > 0 {
                let cands = string_views(candidates@);
                let k = chosen_index(cands, m0, ceiling as int);
                law_assign_prefers_candidates_below_ceiling(cands, m0, ceiling as int);
                assert(self.ring@.weights.contains_key(cands[k]));
                assert(load_map(self.state@.entries).dom() =~= self.ring@.weights.dom());
            }
        }
        r
    }

    /// Release one in-flight request of `node`.
    pub fn done(&mut self, node: &str)
        requires
            old(self).wf(),
        ensures
            final(self).wf(),
            final(self).ring_view() == old(self).ring_view(),
            if load_of(load_map(old(self).load_view().entries), node@) > 0 {
                &&& load_map(final(self).load_view().entries) == load_map(
                    old(self).load_view().entries,
                ).insert(node@, load_of(load_map(old(self).load_view().entries), node@) - 1)
                &&& final(self).load_view().total == old(self).load_view().total - 1
            } else {
                final(self).load_view() == old(self).load_view()
            },
    {
        self.state.done(node);
        proof {
            assert(load_map(self.state@.entries).dom() =~= self.ring@.weights.dom());
        }
    }

    /// A snapshot of the in-flight load of every node.
    pub fn loads(&self) -> (r: Vec<(String, i64)>)
        ensures
            r@.map_values(|e: (String, i64)| load_entry_view(e)) == self.load_view().entries,
    {
        self.state.loads()
    }

    /// Returns `true` if the ring has no physical nodes.
    pub fn is_empty(&self) -> (r: bool)
        requires
            self.wf(),
        ensures
            r == (self.ring_view().weights.len() == 0),
    {
        self.ring.is_empty()
    }

    /// Returns the number of physical nodes.
    pub fn len(&self) -> (r: usize)
        requires
            self.wf(),
        ensures
            r == self.ring_view().weights.len(),
    {
        self.ring.len()
    }

    /// Returns the list of physical nodes, each once.
    pub fn nodes(&self) -> (r: Vec<String>)
        requires
            self.wf(),
        ensures
            string_views(r@).no_duplicates(),
            string_views(r@).to_set() == self.ring_view().weights.dom(),
    {
        self.ring.nodes()
    }
}

} // verus!
