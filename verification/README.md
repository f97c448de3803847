# merk

A Merkle AVL tree's proof machinery, written in Verus: the library states
in `requires`/`ensures` what each operation does and Verus proves it.

## Layout

- `src/` — the verified library.
  - `bytes.rs`: byte-string comparison and big-endian integers.
  - `hash.rs`, `node.rs`: node hashing (SHA-512/256 and Blake2b through
    small trusted wrappers) and stored nodes with their links.
  - `tree.rs`: an in-memory tree with proofs of queries, keys and trunks;
    `answers.rs` proves that a verified proof answers each queried key with
    the tree's value.
  - `proofs/`: the proof operations, their byte encoding, the stack machine
    that executes them, queries and the verified map of proven entries.
  - `range_proof.rs`: the older range proof format and its reconstruction.
  - `sparse_tree.rs`: a partly loaded tree that fetches nodes on demand,
    with sorted batches of puts and removals applied as in an AVL tree
    (rotations, removal of a root or an edge node, rebalancing), and the
    outline its drawing follows.
  - `raw.rs`: the fixed layout of a raw stored node.
  - `diff.rs`: comparing two stored trees side by side, and the decision
    taken at each pair of nodes.
  - `commit.rs`: the writes of a commit, merged with the deletions and
    sorted by key.
  - `ops.rs`: batch entries and pending-write counting.
- `tests/` — tests run against the compiled library.
- `app/` — serialisation, error formatting and text rendering around the
  library.
