use consistent_hash_rs::LoadState;

fn names(v: &[&str]) -> Vec<String> {
    v.iter().map(|s| s.to_string()).collect()
}

fn load_of(state: &LoadState, node: &str) -> i64 {
    state.load(node)
}

#[test]
fn assign_picks_first_candidate_below_ceiling() {
    let mut s = LoadState::new();
    s.track("a");
    s.track("b");
    s.track("c");
    let cands = names(&["a", "b", "c"]);
    assert_eq!(s.assign(&cands, 1).as_deref(), Some("a"));
    assert_eq!(s.assign(&cands, 1).as_deref(), Some("b"));
    assert_eq!(s.assign(&cands, 1).as_deref(), Some("c"));
    // All at the ceiling: the primary candidate takes it.
    assert_eq!(s.assign(&cands, 1).as_deref(), Some("a"));
    assert_eq!(load_of(&s, "a"), 2);
    assert_eq!(s.total(), 4);
    assert_eq!(s.assign(&Vec::new(), 1), None);
    assert_eq!(s.total(), 4);
}

#[test]
fn done_releases_what_assign_took() {
    let mut s = LoadState::new();
    s.track("a");
    s.track("b");
    let cands = names(&["b", "a"]);
    let mut taken = Vec::new();
    for _ in 0..20 {
        taken.push(s.assign(&cands, 5).unwrap());
    }
    assert_eq!(s.total(), 20);
    for n in &taken {
        s.done(n);
    }
    assert_eq!(s.total(), 0);
    for (_node, load) in s.loads() {
        assert_eq!(load, 0);
    }
    // Releasing more than was taken changes nothing.
    s.done("a");
    assert_eq!(load_of(&s, "a"), 0);
    assert_eq!(s.total(), 0);
}

#[test]
fn forget_takes_the_node_load_off_the_total() {
    let mut s = LoadState::new();
    s.track("a");
    s.track("b");
    let cands = names(&["a"]);
    s.assign(&cands, 10);
    s.assign(&cands, 10);
    let other = names(&["b"]);
    s.assign(&other, 10);
    assert_eq!(s.total(), 3);
    s.forget("a");
    assert_eq!(s.total(), 1);
    assert_eq!(load_of(&s, "a"), 0);
    assert_eq!(s.loads().len(), 1);
    s.forget("ghost");
    assert_eq!(s.total(), 1);
}

#[test]
fn track_keeps_existing_load() {
    let mut s = LoadState::new();
    s.track("a");
    s.assign(&names(&["a"]), 3);
    s.track("a");
    assert_eq!(load_of(&s, "a"), 1);
    assert_eq!(s.loads().len(), 1);
}

use consistent_hash_rs::BoundedLoadCore;

/// The bounded-load policy's ceiling, ceil(beta * total / n), at least 1.
fn ceiling(core: &BoundedLoadCore, beta: f64, n: usize) -> i64 {
    ((beta * core.total() as f64 / n as f64).ceil() as i64).max(1)
}

fn route(core: &mut BoundedLoadCore, key: &str, beta: f64) -> Option<String> {
    let c = core.candidates(key);
    if c.is_empty() {
        return None;
    }
    let ceil = ceiling(core, beta, c.len());
    core.assign(&c, ceil)
}

#[test]
fn core_empty_ring_has_no_candidates() {
    let core = BoundedLoadCore::new(100);
    assert!(core.is_empty());
    assert!(core.candidates("key").is_empty());
}

#[test]
fn core_single_node_takes_every_request() {
    let mut core = BoundedLoadCore::new(100);
    core.add("node-a", 1);
    for i in 0..10 {
        let node = route(&mut core, &format!("key-{i}"), 1.25).unwrap();
        assert_eq!(node, "node-a");
        core.done(&node);
    }
}

#[test]
fn core_zero_weight_rejected() {
    let mut core = BoundedLoadCore::new(100);
    assert!(!core.add("x", 0));
    assert!(core.is_empty());
}

#[test]
fn core_done_releases_load() {
    let mut core = BoundedLoadCore::new(100);
    core.add("A", 1);
    core.add("B", 1);
    let mut assigned = Vec::new();
    for i in 0..20 {
        assigned.push(route(&mut core, &format!("key-{i}"), 1.25).unwrap());
    }
    for node in &assigned {
        core.done(node);
    }
    for (_node, load) in core.loads() {
        assert_eq!(load, 0, "expected zero load after all Done calls");
    }
    assert_eq!(core.total(), 0);
}

#[test]
fn core_remove_node() {
    let mut core = BoundedLoadCore::new(100);
    core.add("A", 1);
    core.add("B", 1);
    assert!(core.remove("B"));
    assert_eq!(core.len(), 1);
    for i in 0..10 {
        let node = route(&mut core, &format!("key-{i}"), 1.25).unwrap();
        assert_eq!(node, "A");
        core.done(&node);
    }
    assert!(!core.remove("ghost"));
}

#[test]
fn core_spreads_load_under_the_ceiling() {
    let mut core = BoundedLoadCore::new(50);
    for n in ["a", "b", "c", "d"] {
        core.add(n, 1);
    }
    for i in 0..400 {
        route(&mut core, &format!("key-{i}"), 1.25).unwrap();
    }
    // ceil(1.25 * 399 / 4) + 1 bounds every node's load.
    for (_node, load) in core.loads() {
        assert!(load <= 126, "load {load} above the bound");
    }
    assert_eq!(core.total(), 400);
}
