# consistent_hash_rs

Consistent hashing with machine-checked contracts, written in Verus.

- `src/ring.rs` — `ConsistentHashRing`: weighted physical nodes, each with
  `replicas * weight` virtual nodes placed by CRC-32 (`crc32fast`); a key is
  served by the first virtual node at or after its position, wrapping around.
  `get_n` lists the distinct nodes met walking the ring from a key.
- `src/ring_laws.rs` — laws of the ring over its model: a lookup finds a node
  exactly when the ring has a virtual node, removing a node moves only its own
  keys, adding a node moves keys only to it, removing and re-adding a node
  restores the ring, and the candidates of `get_n` start with `get`'s node.
- `src/jump.rs` — `JumpHashRing`: jump consistent hashing over nodes kept in
  name order, with FNV-1a key hashing. The jump step's two double operations
  are carried out exactly in integer arithmetic (`src/double.rs`), so the
  bucket is the one the floating-point formulation gives.
- `src/bounded.rs` — `LoadState`: the in-flight load accounting of consistent
  hashing with bounded loads.
- `src/hashing.rs`, `src/text.rs` — ring positions of virtual nodes and keys,
  and the byte order of node names.
- `src/lib.rs` — the `HashRouter` interface shared by both rings.
- `app/` — thread-safe front ends (`RwLock`), and `BoundedLoadRing`, whose load
  ceiling `ceil(beta * total / nodes)` is computed in floating point.
