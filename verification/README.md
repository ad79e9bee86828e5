# mmr_prover

A verified Merkle Mountain Range (MMR) kept in memory, the verification of
its inclusion proofs, and the byte layouts of an authority's consensus
proofs, written in Verus.

- `src/layout.rs` — where peaks and leaves sit in an MMR of a given size, the
  paths from a peak down to a leaf, and the facts that adding a leaf keeps
  the layout valid.
- `src/model.rs` — the MMR as a sequence of node hashes over a hasher: well
  formedness, the root, inclusion proofs, what verifying a proof computes,
  and the law that every leaf's proof verifies against the root.
- `src/mem.rs` — `InMemoryMMR`, the peak and path iterators, the test of
  whether a size is that of an MMR, and `verify_proof`.
- `src/hash.rs` — fixed-size hashes, the `Hasher` interface and its SHA-256
  instance.
- `src/prover.rs` — encoders and decoders of proposal, vote, finalization and
  conflict proofs, with the laws that each layout is decoded unambiguously,
  and what each decoded proof establishes once the signature scheme has
  judged its public key and signatures.
- `src/be.rs`, `src/bits.rs` — big-endian integers and facts about bit
  operations.
