use mmr_prover::hash::{Hasher, Sha256Hasher};

fn test_hash_leaf<const N: usize, H: Hasher<N>>(hasher: &mut H) {
    // input hashes to use
    let hash1 = mmr_prover::hash::Hash([1u8; N]);
    let hash2 = mmr_prover::hash::Hash([2u8; N]);

    let out = hasher.leaf_hash(0, &hash1);
    assert_ne!(out.0, [0u8; N], "hash should be non-zero");

    let mut out2 = hasher.leaf_hash(0, &hash1);
    assert_eq!(out, out2, "hash should be re-computed consistently");

    out2 = hasher.leaf_hash(1, &hash1);
    assert_ne!(out, out2, "hash should change with different pos");

    out2 = hasher.leaf_hash(0, &hash2);
    assert_ne!(out, out2, "hash should change with different input hash");
}

fn test_hash_node<const N: usize, H: Hasher<N>>(hasher: &mut H) {
    // input hashes to use
    let hash1 = mmr_prover::hash::Hash([1u8; N]);
    let hash2 = mmr_prover::hash::Hash([2u8; N]);
    let hash3 = mmr_prover::hash::Hash([3u8; N]);

    let out = hasher.node_hash(0, &hash1, &hash2);
    assert_ne!(out.0, [0u8; N], "hash should be non-zero");

    let mut out2 = hasher.node_hash(0, &hash1, &hash2);
    assert_eq!(out, out2, "hash should be re-computed consistently");

    out2 = hasher.node_hash(1, &hash1, &hash2);
    assert_ne!(out, out2, "hash should change with different pos");

    out2 = hasher.node_hash(0, &hash3, &hash2);
    assert_ne!(
        out, out2,
        "hash should change with different first input hash"
    );

    out2 = hasher.node_hash(0, &hash1, &hash3);
    assert_ne!(
        out, out2,
        "hash should change with different second input hash"
    );

    out2 = hasher.node_hash(0, &hash2, &hash1);
    assert_ne!(
        out, out2,
        "hash should change when swapping order of inputs"
    );
}

#[test]
fn test_hash_leaf_sha256() {
    let mut hasher = Sha256Hasher::new();
    test_hash_leaf::<32, Sha256Hasher>(&mut hasher);
}

#[test]
fn test_hash_node_sha256() {
    let mut hasher = Sha256Hasher::new();
    test_hash_node::<32, Sha256Hasher>(&mut hasher);
}
