use mmr_prover::hash::{Hasher, Sha256Hasher};
use mmr_prover::mem::{verify_proof, InMemoryMMR, PeakIterator, Proof};

type Hash = mmr_prover::hash::Hash<32>;

fn collect_peaks(mut it: PeakIterator) -> Vec<(u64, u32)> {
    let mut peaks = Vec::new();
    while let Some(peak) = it.next() {
        peaks.push(peak);
    }
    peaks
}

#[test]
/// Test MMR building by consecutively adding 11 equal elements to a new MMR. The resulting MMR
/// should have 19 nodes total with 3 peaks corresponding to 3 perfect binary trees:
///
///    Height
///      3              14
///                   /    \
///                  /      \
///                 /        \
///                /          \
///      2        6            13
///             /   \        /    \
///      1     2     5      9     12     17
///           / \   / \    / \   /  \   /  \
///      0   0   1 3   4  7   8 10  11 15  16 18
fn test_add_eleven_values() {
    let mut mmr: InMemoryMMR<32, Sha256Hasher> = InMemoryMMR::new(Sha256Hasher::new());
    assert_eq!(
        mmr.peak_iterator().next(),
        None,
        "empty iterator should have no peaks"
    );

    let element: Hash = mmr_prover::hash::Hash(*b"01234567012345670123456701234567");
    let mut leaves: Vec<u64> = Vec::new();
    for _ in 0..11 {
        leaves.push(mmr.add(&element));
        let peaks: Vec<(u64, u32)> = collect_peaks(mmr.peak_iterator());
        assert_ne!(peaks.len(), 0);
        assert!(peaks.len() <= mmr.nodes().len());
        let nodes_needing_parents = mmr.nodes_needing_parents();
        assert!(nodes_needing_parents.len() <= peaks.len());
    }
    assert_eq!(mmr.nodes().len(), 19, "mmr not of expected size");
    assert_eq!(
        leaves,
        vec![0, 1, 3, 4, 7, 8, 10, 11, 15, 16, 18],
        "mmr leaf positions not as expected"
    );
    let peaks: Vec<(u64, u32)> = collect_peaks(mmr.peak_iterator());
    assert_eq!(
        peaks,
        vec![(14, 3), (17, 1), (18, 0)],
        "mmr peaks not as expected"
    );

    // Test nodes_needing_parents on the final MMR. Since there's a height gap between the
    // heighest peak (14) and the next, only the lower two peaks (17, 18) should be returned.
    let peaks_needing_parents = mmr.nodes_needing_parents();
    assert_eq!(
        peaks_needing_parents,
        vec![17, 18],
        "mmr nodes needing parents not as expected"
    );

    // verify leaf hashes
    let mut hasher = Sha256Hasher::default();
    for leaf in leaves.iter() {
        let hash = hasher.leaf_hash(*leaf, &element);
        assert_eq!(mmr.nodes()[*leaf as usize], hash);
    }

    // verify height=1 hashes
    let hash2 = hasher.node_hash(2, &mmr.nodes()[0], &mmr.nodes()[1]);
    assert_eq!(mmr.nodes()[2], hash2);
    let hash5 = hasher.node_hash(5, &mmr.nodes()[3], &mmr.nodes()[4]);
    assert_eq!(mmr.nodes()[5], hash5);
    let hash9 = hasher.node_hash(9, &mmr.nodes()[7], &mmr.nodes()[8]);
    assert_eq!(mmr.nodes()[9], hash9);
    let hash12 = hasher.node_hash(12, &mmr.nodes()[10], &mmr.nodes()[11]);
    assert_eq!(mmr.nodes()[12], hash12);
    let hash17 = hasher.node_hash(17, &mmr.nodes()[15], &mmr.nodes()[16]);
    assert_eq!(mmr.nodes()[17], hash17);

    // verify height=2 hashes
    let hash6 = hasher.node_hash(6, &mmr.nodes()[2], &mmr.nodes()[5]);
    assert_eq!(mmr.nodes()[6], hash6);
    let hash13 = hasher.node_hash(13, &mmr.nodes()[9], &mmr.nodes()[12]);
    assert_eq!(mmr.nodes()[13], hash13);
    let hash17 = hasher.node_hash(17, &mmr.nodes()[15], &mmr.nodes()[16]);
    assert_eq!(mmr.nodes()[17], hash17);

    // verify topmost hash
    let hash14 = hasher.node_hash(14, &mmr.nodes()[6], &mmr.nodes()[13]);
    assert_eq!(mmr.nodes()[14], hash14);

    // verify root hash
    let root_hash = mmr.root_hash();
    let peak_hashes = [hash14, hash17, mmr.nodes()[18]];
    let expected_root_hash = hasher.root_hash(19, &peak_hashes.to_vec());
    assert_eq!(root_hash, expected_root_hash, "incorrect root hash");

    // confirm the proof of inclusion for each leaf successfully verifies
    for leaf in leaves {
        let proof = mmr.inclusion_proof(leaf);
        assert!(
            verify_proof::<32, Sha256Hasher>(&proof, &element, leaf, &root_hash, &mut hasher),
            "valid proof should verify successfully"
        );
    }

    // confirm mangling the proof or proof args results in failed validation
    const POS: u64 = 18;
    let proof = mmr.inclusion_proof(POS);
    assert!(
        verify_proof::<32, Sha256Hasher>(&proof, &element, POS, &root_hash, &mut hasher),
        "proof verification should be successful"
    );
    assert!(
        !verify_proof::<32, Sha256Hasher>(&proof, &element, POS + 1, &root_hash, &mut hasher),
        "proof verification should fail with incorrect element position"
    );
    assert!(
        !verify_proof::<32, Sha256Hasher>(
            &proof,
            &mmr_prover::hash::Hash([0u8; 32]),
            POS,
            &root_hash,
            &mut hasher
        ),
        "proof verification should fail with mangled leaf element"
    );
    let root_hash2 = mmr_prover::hash::Hash([0u8; 32]);
    assert!(
        !verify_proof::<32, Sha256Hasher>(&proof, &element, POS, &root_hash2, &mut hasher),
        "proof verification should fail with mangled root_hash"
    );
    let mut proof2: Proof<32> = proof.clone();
    proof2.hashes[0] = mmr_prover::hash::Hash([0u8; 32]);
    assert!(
        !verify_proof::<32, Sha256Hasher>(&proof2, &element, POS, &root_hash, &mut hasher),
        "proof verification should fail with mangled proof hash"
    );
    proof2 = proof.clone();
    proof2.sz = 10;
    assert!(
        !verify_proof::<32, Sha256Hasher>(&proof2, &element, POS, &root_hash, &mut hasher),
        "proof verification should fail with incorrect size"
    );
    proof2 = proof.clone();
    proof2.hashes.push(mmr_prover::hash::Hash([0u8; 32]));
    assert!(
        !verify_proof::<32, Sha256Hasher>(&proof2, &element, POS, &root_hash, &mut hasher),
        "proof verification should fail with extra hash"
    );
    proof2 = proof.clone();
    while !proof2.hashes.is_empty() {
        proof2.hashes.pop();
        assert!(
            !verify_proof::<32, Sha256Hasher>(&proof2, &element, 7, &root_hash, &mut hasher),
            "proof verification should fail with missing hashes"
        );
    }
    proof2 = proof.clone();
    proof2.hashes.clear();
    proof2
        .hashes
        .extend(&mut proof.hashes[0..peak_hashes.len() - 1].iter());
    // sneak in an extra hash that won't be used in the computation and make sure it's detected
    proof2.hashes.push(mmr_prover::hash::Hash([0u8; 32]));
    proof2
        .hashes
        .extend(proof.hashes[peak_hashes.len() - 1..].iter());
    assert!(
        !verify_proof::<32, Sha256Hasher>(&proof2, &element, POS, &root_hash, &mut hasher),
        "proof verification should fail with extra hash even if it's unused by the computation"
    );
}
