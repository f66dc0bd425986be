use consistent_hash_rs::hashing::{key_hash, vnode_hash};
use consistent_hash_rs::{ConsistentHashRing, HashRouter, JumpHashRing};

/// The node that serves `h` on a ring built from `vnodes`, computed directly.
fn expected_owner(vnodes: &[(u32, &str)], h: u32) -> Option<String> {
    let mut sorted = vnodes.to_vec();
    sorted.sort();
    sorted
        .iter()
        .find(|(p, _)| *p >= h)
        .or(sorted.first())
        .map(|(_, n)| n.to_string())
}

#[test]
fn get_by_hash_serves_first_vnode_at_or_after_position() {
    let mut ring = ConsistentHashRing::new(2);
    ring.add("a", 1);
    ring.add("b", 2);
    let vnodes = vec![
        (vnode_hash("a", 0), "a"),
        (vnode_hash("a", 1), "a"),
        (vnode_hash("b", 0), "b"),
        (vnode_hash("b", 1), "b"),
        (vnode_hash("b", 2), "b"),
        (vnode_hash("b", 3), "b"),
    ];
    for (p, n) in &vnodes {
        assert_eq!(ring.get_by_hash(*p).as_deref(), Some(*n));
        assert_eq!(ring.get_by_hash(p.wrapping_add(1)), expected_owner(&vnodes, p.wrapping_add(1)));
    }
    for h in [0u32, 1, 12345, u32::MAX / 2, u32::MAX - 1, u32::MAX] {
        assert_eq!(ring.get_by_hash(h), expected_owner(&vnodes, h));
    }
}

#[test]
fn get_uses_crc32_of_the_key() {
    let mut ring = ConsistentHashRing::new(10);
    ring.add("a", 1);
    ring.add("b", 1);
    for i in 0..100 {
        let key = format!("k{i}");
        assert_eq!(ring.get(&key), ring.get_by_hash(key_hash(&key)));
    }
}

#[test]
fn re_adding_a_node_reweights_it() {
    let mut ring = ConsistentHashRing::new(4);
    assert!(ring.add("a", 1));
    assert!(ring.add("a", 3));
    assert_eq!(ring.len(), 1);
    assert_eq!(ring.get_by_hash(vnode_hash("a", 11)).as_deref(), Some("a"));
    assert!(ring.add("b", 1));
    assert!(ring.add("a", 1));
    // The virtual nodes of the old weight beyond the new one are gone.
    let h = vnode_hash("a", 11);
    let after = ring.get_by_hash(h).unwrap();
    let vnodes: Vec<(u32, &str)> = (0..4)
        .map(|i| (vnode_hash("a", i), "a"))
        .chain((0..4).map(|i| (vnode_hash("b", i), "b")))
        .collect();
    assert_eq!(Some(after), expected_owner(&vnodes, h));
}

#[test]
fn remove_keeps_keys_of_other_nodes() {
    let mut ring = ConsistentHashRing::new(50);
    for n in ["a", "b", "c", "d"] {
        ring.add(n, 1);
    }
    let keys: Vec<String> = (0..2000).map(|i| format!("key-{i}")).collect();
    let before: Vec<String> = keys.iter().map(|k| ring.get(k).unwrap()).collect();
    assert!(ring.remove("c"));
    for (k, b) in keys.iter().zip(before.iter()) {
        let now = ring.get(k).unwrap();
        if b != "c" {
            assert_eq!(&now, b);
        } else {
            assert_ne!(now, "c");
        }
    }
}

#[test]
fn add_moves_keys_only_to_the_new_node() {
    let mut ring = ConsistentHashRing::new(50);
    for n in ["a", "b", "c"] {
        ring.add(n, 1);
    }
    let keys: Vec<String> = (0..2000).map(|i| format!("key-{i}")).collect();
    let before: Vec<String> = keys.iter().map(|k| ring.get(k).unwrap()).collect();
    ring.add("d", 2);
    for (k, b) in keys.iter().zip(before.iter()) {
        let now = ring.get(k).unwrap();
        assert!(&now == b || now == "d");
    }
}

#[test]
fn get_n_starts_with_get_and_lists_distinct_ring_nodes() {
    let mut ring = ConsistentHashRing::new(20);
    for n in ["a", "b", "c", "d", "e"] {
        ring.add(n, 1);
    }
    for i in 0..300 {
        let key = format!("key-{i}");
        let c = ring.get_n(&key, 4);
        assert_eq!(c.len(), 4);
        assert_eq!(Some(c[0].clone()), ring.get(&key));
        let mut sorted = c.clone();
        sorted.sort();
        sorted.dedup();
        assert_eq!(sorted.len(), 4);
        assert!(ring.get_n(&key, 0).is_empty());
        assert_eq!(ring.get_n(&key, 1), vec![c[0].clone()]);
    }
}

#[test]
fn get_n_walks_the_ring_in_order() {
    let mut ring = ConsistentHashRing::new(1);
    ring.add("a", 1);
    ring.add("b", 1);
    ring.add("c", 1);
    let mut vnodes = vec![
        (vnode_hash("a", 0), "a"),
        (vnode_hash("b", 0), "b"),
        (vnode_hash("c", 0), "c"),
    ];
    vnodes.sort();
    for start in 0..3 {
        let h = vnodes[start].0;
        let expected: Vec<String> =
            (0..3).map(|i| vnodes[(start + i) % 3].1.to_string()).collect();
        assert_eq!(ring.get_n_by_hash(h, 3), expected);
        assert_eq!(ring.get_n_by_hash(h, 2), expected[..2].to_vec());
    }
}

#[test]
fn nodes_lists_every_node_once() {
    let mut ring = ConsistentHashRing::new(3);
    ring.add("x", 1);
    ring.add("y", 2);
    ring.add("x", 2);
    let mut nodes = ring.nodes();
    nodes.sort();
    assert_eq!(nodes, vec!["x".to_string(), "y".to_string()]);
    ring.remove("x");
    assert_eq!(ring.nodes(), vec!["y".to_string()]);
}

#[test]
fn jump_ring_keeps_nodes_in_name_order() {
    let mut ring = JumpHashRing::new();
    for n in ["delta", "alpha", "charlie", "bravo"] {
        assert!(ring.add(n, 1));
    }
    assert_eq!(ring.nodes(), vec!["alpha", "bravo", "charlie", "delta"]);
    assert!(ring.remove("bravo"));
    assert_eq!(ring.nodes(), vec!["alpha", "charlie", "delta"]);
    let d = JumpHashRing::default();
    assert!(d.is_empty());
}

#[test]
fn jump_add_then_remove_restores_nodes() {
    let mut ring = JumpHashRing::new();
    ring.add("m", 1);
    ring.add("c", 1);
    let before = ring.nodes();
    ring.add("k", 5);
    ring.remove("k");
    assert_eq!(ring.nodes(), before);
}

#[test]
fn routers_behave_alike_through_the_trait() {
    fn exercise<R: HashRouter>(router: &mut R) {
        assert!(router.is_empty());
        assert!(!router.add("node-a", 0));
        assert!(router.add("node-a", 1));
        assert_eq!(router.len(), 1);
        assert_eq!(router.get("key").as_deref(), Some("node-a"));
        assert_eq!(router.nodes(), vec!["node-a".to_string()]);
        assert!(router.remove("node-a"));
        assert!(!router.remove("node-a"));
        assert!(router.get("key").is_none());
    }
    exercise(&mut ConsistentHashRing::new(100));
    exercise(&mut JumpHashRing::new());
}

#[test]
fn newer_node_wins_a_shared_position() {
    // These two names put their first virtual node on the same position.
    let first = "node29685295";
    let second = "node32060020";
    let h = vnode_hash(first, 0);
    assert_eq!(h, vnode_hash(second, 0));

    let mut ring = ConsistentHashRing::new(1);
    ring.add(first, 1);
    ring.add(second, 1);
    assert_eq!(ring.len(), 2);
    assert_eq!(ring.get_by_hash(h).as_deref(), Some(second));
    assert_eq!(ring.get_n_by_hash(h, 2), vec![second.to_string()]);

    // Removing and re-adding the first node gives the position back to it.
    assert!(ring.remove(first));
    assert_eq!(ring.get_by_hash(h).as_deref(), Some(second));
    assert!(ring.add(first, 1));
    assert_eq!(ring.get_by_hash(h).as_deref(), Some(first));
}
