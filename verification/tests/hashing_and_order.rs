use consistent_hash_rs::hashing::{key_hash, vnode_hash};
use consistent_hash_rs::jump::{fnv64, jump_hash, jump_step};
use consistent_hash_rs::text::{compare_names, names_equal, NameOrder};

/// The jump hash as written with floating point, for comparison.
fn float_jump_hash(mut key: u64, num_buckets: usize) -> usize {
    let (mut b, mut j) = (-1i64, 0i64);
    while j < num_buckets as i64 {
        b = j;
        key = key.wrapping_mul(2862933555777941757).wrapping_add(1);
        j = ((b + 1) as f64 * (((1i64 << 31) as f64) / ((key >> 33) as f64 + 1.0))) as i64;
    }
    b as usize
}

fn float_step(b: i64, key: u64) -> i64 {
    ((b + 1) as f64 * (((1i64 << 31) as f64) / ((key >> 33) as f64 + 1.0))) as i64
}

/// A simple deterministic sequence of 64-bit values.
fn next_value(state: &mut u64) -> u64 {
    *state ^= *state << 13;
    *state ^= *state >> 7;
    *state ^= *state << 17;
    *state
}

#[test]
fn vnode_hash_hashes_name_hash_sign_and_decimal_index() {
    assert_eq!(vnode_hash("db1", 0), crc32fast::hash(b"db1#0"));
    assert_eq!(vnode_hash("db1", 7), crc32fast::hash(b"db1#7"));
    assert_eq!(vnode_hash("node-a", 149), crc32fast::hash(b"node-a#149"));
    assert_eq!(vnode_hash("x", 1000), crc32fast::hash(b"x#1000"));
    assert_eq!(vnode_hash("é", 10), crc32fast::hash("é#10".as_bytes()));
    assert_eq!(
        vnode_hash("n", usize::MAX),
        crc32fast::hash(format!("n#{}", usize::MAX).as_bytes())
    );
    assert_ne!(vnode_hash("db1", 1), vnode_hash("db1", 10));
}

#[test]
fn vnode_hash_equals_streamed_crc32() {
    for (node, idx) in [("db1", 0usize), ("node-a", 42), ("", 7), ("ünïcode", 123456)] {
        let mut h = crc32fast::Hasher::new();
        h.update(node.as_bytes());
        h.update(b"#");
        h.update(idx.to_string().as_bytes());
        assert_eq!(vnode_hash(node, idx), h.finalize());
    }
}

#[test]
fn key_hash_is_crc32_of_key_bytes() {
    assert_eq!(key_hash("user:42"), crc32fast::hash(b"user:42"));
    assert_eq!(key_hash(""), 0);
    // The standard CRC-32 check value.
    assert_eq!(key_hash("123456789"), 0xCBF4_3926);
}

#[test]
fn fnv64_matches_known_values() {
    assert_eq!(fnv64(""), 0xcbf29ce484222325);
    assert_eq!(fnv64("a"), 0xaf63dc4c8601ec8c);
    assert_eq!(fnv64("foobar"), 0x85944171f73967e8);
}

#[test]
fn jump_step_matches_double_arithmetic() {
    let mut state = 0x9E37_79B9_7F4A_7C15u64;
    for _ in 0..200_000 {
        let key = next_value(&mut state);
        let b = (next_value(&mut state) % (1u64 << 53)) as i64;
        assert_eq!(jump_step(b, key), float_step(b, key), "b={b} key={key}");
    }
    for b in [0i64, 1, 2, 3, 1000, (1 << 52) - 1, 1 << 52, (1 << 53) - 1] {
        for key in [0u64, 1, u64::MAX, 1 << 33, (1 << 33) - 1, 0xFFFF_FFFE_0000_0000, 3 << 33] {
            assert_eq!(jump_step(b, key), float_step(b, key), "b={b} key={key}");
        }
    }
}

#[test]
fn jump_hash_matches_double_arithmetic() {
    let mut state = 0x1234_5678_9ABC_DEF1u64;
    for _ in 0..20_000 {
        let key = next_value(&mut state);
        let n = (next_value(&mut state) % 1000 + 1) as usize;
        assert_eq!(jump_hash(key, n), float_jump_hash(key, n));
    }
    for n in [1usize, 2, 3, 10, 1 << 20, 1_000_000_007, 1 << 40, 1 << 53] {
        for _ in 0..200 {
            let key = next_value(&mut state);
            let r = jump_hash(key, n);
            assert_eq!(r, float_jump_hash(key, n));
            assert!(r < n);
        }
    }
}

#[test]
fn jump_hash_of_no_buckets_is_max() {
    assert_eq!(jump_hash(42, 0), usize::MAX);
}

#[test]
fn jump_hash_with_one_more_bucket_keeps_or_moves_to_new_bucket() {
    let mut state = 77u64;
    for _ in 0..5000 {
        let key = next_value(&mut state);
        let n = (next_value(&mut state) % 500 + 1) as usize;
        let before = jump_hash(key, n);
        let after = jump_hash(key, n + 1);
        assert!(after == before || after == n);
    }
}

#[test]
fn names_compare_as_str_does() {
    let names = ["", "a", "A", "ab", "b", "node-1", "node-10", "node-2", "é", "z", "zz"];
    for x in names {
        for y in names {
            let expected = match x.cmp(y) {
                std::cmp::Ordering::Less => NameOrder::Less,
                std::cmp::Ordering::Equal => NameOrder::Equal,
                std::cmp::Ordering::Greater => NameOrder::Greater,
            };
            assert_eq!(compare_names(x, y), expected, "{x} vs {y}");
            assert_eq!(names_equal(x, y), x == y);
        }
    }
}
