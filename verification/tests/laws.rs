use mmr_prover::hash::{Hasher, Sha256Hasher};
use mmr_prover::mem::{is_valid_size, peak_iterator, verify_proof, InMemoryMMR, PeakIterator, Proof};

type Hash = mmr_prover::hash::Hash<32>;

fn collect_peaks(mut it: PeakIterator) -> Vec<(u64, u32)> {
    let mut peaks = Vec::new();
    while let Some(peak) = it.next() {
        peaks.push(peak);
    }
    peaks
}

fn element(i: u64) -> Hash {
    let mut bytes = [0u8; 32];
    bytes[..8].copy_from_slice(&i.to_be_bytes());
    bytes[31] = 0xab;
    mmr_prover::hash::Hash(bytes)
}

#[test]
fn sha256_leaf_hash_known_value() {
    let mut hasher = Sha256Hasher::new();
    let out = hasher.leaf_hash(0, &mmr_prover::hash::Hash([0u8; 32]));
    let expected: [u8; 32] = [
        44, 52, 206, 29, 242, 59, 131, 140, 90, 191, 42, 127, 100, 55, 204, 163, 211, 6, 126, 213,
        9, 255, 37, 241, 29, 246, 177, 27, 88, 43, 81, 235,
    ];
    assert_eq!(out.0, expected);
}

#[test]
fn single_element_root_is_size_and_leaf_hashed() {
    let mut mmr: InMemoryMMR<32, Sha256Hasher> = InMemoryMMR::new(Sha256Hasher::new());
    assert_eq!(mmr.add(&mmr_prover::hash::Hash([0u8; 32])), 0);
    let root = mmr.root_hash();
    let expected: [u8; 32] = [
        9, 153, 138, 140, 42, 236, 250, 87, 84, 21, 84, 191, 121, 112, 188, 62, 55, 38, 215, 148,
        115, 98, 107, 221, 110, 232, 61, 191, 232, 72, 36, 160,
    ];
    assert_eq!(root.0, expected);
}

#[test]
fn every_added_element_has_a_verifying_proof() {
    let mut mmr: InMemoryMMR<32, Sha256Hasher> = InMemoryMMR::new(Sha256Hasher::new());
    let mut hasher = Sha256Hasher::new();
    let mut positions = Vec::new();
    for i in 0..40u64 {
        positions.push(mmr.add(&element(i)));
        let root = mmr.root_hash();
        for (j, pos) in positions.iter().enumerate() {
            let proof = mmr.inclusion_proof(*pos);
            assert_eq!(proof.sz as usize, mmr.nodes().len());
            assert!(verify_proof(&proof, &element(j as u64), *pos, &root, &mut hasher));
        }
    }
}

#[test]
fn proof_holds_other_peaks_then_path() {
    let mut mmr: InMemoryMMR<32, Sha256Hasher> = InMemoryMMR::new(Sha256Hasher::new());
    for i in 0..11u64 {
        mmr.add(&element(i));
    }
    // leaf 3 lies in the tree of peak 14 (height 3): peaks 17 and 18, then
    // the siblings 13, 2 and 4 from the peak down
    let proof = mmr.inclusion_proof(3);
    let nodes = mmr.nodes();
    assert_eq!(proof.sz, 19);
    assert_eq!(proof.hashes, vec![nodes[17], nodes[18], nodes[13], nodes[2], nodes[4]]);
    // a position after every peak gets all peak hashes and no path
    let proof = mmr.inclusion_proof(100);
    assert_eq!(proof.hashes, vec![nodes[14], nodes[17], nodes[18]]);
}

#[test]
fn add_appends_and_returns_old_size() {
    let mut mmr: InMemoryMMR<32, Sha256Hasher> = InMemoryMMR::new(Sha256Hasher::new());
    let mut sizes = Vec::new();
    for i in 0..20u64 {
        let before: Vec<Hash> = mmr.nodes().to_vec();
        let pos = mmr.add(&element(i));
        assert_eq!(pos as usize, before.len());
        assert_eq!(&mmr.nodes()[..before.len()], &before[..]);
        sizes.push(mmr.nodes().len());
    }
    // sizes after n elements: 2n minus the number of ones in n
    let expected: Vec<usize> = (1..=20usize).map(|n| 2 * n - n.count_ones() as usize).collect();
    assert_eq!(sizes, expected);
}

#[test]
fn peaks_strictly_decrease_in_height() {
    let mut mmr: InMemoryMMR<32, Sha256Hasher> = InMemoryMMR::new(Sha256Hasher::new());
    for i in 0..64u64 {
        mmr.add(&element(i));
        let peaks = collect_peaks(mmr.peak_iterator());
        for w in peaks.windows(2) {
            assert!(w[0].1 > w[1].1);
            assert!(w[0].0 < w[1].0);
        }
        assert_eq!(peaks.last().unwrap().0 as usize, mmr.nodes().len() - 1);
    }
}

#[test]
fn peak_iterator_of_sizes() {
    assert_eq!(collect_peaks(peak_iterator(0)), vec![]);
    assert_eq!(collect_peaks(peak_iterator(1)), vec![(0, 0)]);
    assert_eq!(collect_peaks(peak_iterator(3)), vec![(2, 1)]);
    assert_eq!(collect_peaks(peak_iterator(4)), vec![(2, 1), (3, 0)]);
    assert_eq!(collect_peaks(peak_iterator(10)), vec![(6, 2), (9, 1)]);
    assert_eq!(collect_peaks(peak_iterator(19)), vec![(14, 3), (17, 1), (18, 0)]);
}

#[test]
fn nodes_needing_parents_without_leaf_peak() {
    let mut mmr: InMemoryMMR<32, Sha256Hasher> = InMemoryMMR::new(Sha256Hasher::new());
    assert_eq!(mmr.nodes_needing_parents(), Vec::<u64>::new());
    for i in 0..4u64 {
        mmr.add(&element(i));
    }
    // a single tree of height 2: no leaf peak
    assert_eq!(mmr.nodes_needing_parents(), Vec::<u64>::new());
    mmr.add(&element(4));
    mmr.add(&element(5));
    mmr.add(&element(6));
    // peaks 6 (height 2), 9 (height 1), 10 (height 0)
    assert_eq!(mmr.nodes_needing_parents(), vec![6, 9, 10]);
}

#[test]
fn verify_rejects_proof_for_another_leaf() {
    let mut mmr: InMemoryMMR<32, Sha256Hasher> = InMemoryMMR::new(Sha256Hasher::new());
    for i in 0..7u64 {
        mmr.add(&element(i));
    }
    let root = mmr.root_hash();
    let mut hasher = Sha256Hasher::new();
    let proof = mmr.inclusion_proof(4);
    assert!(verify_proof(&proof, &element(3), 4, &root, &mut hasher));
    assert!(!verify_proof(&proof, &element(3), 3, &root, &mut hasher));
    assert!(!verify_proof(&proof, &element(4), 4, &root, &mut hasher));
}

#[test]
fn valid_sizes_are_those_of_mmrs() {
    let valid = [0u64, 1, 3, 4, 7, 8, 10, 11, 15, 16, 18, 19];
    let invalid = [2u64, 5, 6, 9, 12, 13, 14, 17];
    for sz in valid {
        assert!(is_valid_size(sz), "{} should be valid", sz);
    }
    for sz in invalid {
        assert!(!is_valid_size(sz), "{} should be invalid", sz);
    }
    // the sizes reached by adding elements one by one are exactly the valid ones
    let mut mmr: InMemoryMMR<32, Sha256Hasher> = InMemoryMMR::new(Sha256Hasher::new());
    let mut reached = vec![0usize];
    for i in 0..30u64 {
        mmr.add(&element(i));
        reached.push(mmr.nodes().len());
    }
    for sz in 0..=mmr.nodes().len() {
        assert_eq!(is_valid_size(sz as u64), reached.contains(&sz), "size {}", sz);
    }
    assert!(!is_valid_size(u64::MAX));
    assert!(!is_valid_size(1u64 << 63));
    assert!(is_valid_size((1u64 << 62) - 1));
}

#[test]
fn verify_refuses_sizes_of_no_mmr() {
    let mut mmr: InMemoryMMR<32, Sha256Hasher> = InMemoryMMR::new(Sha256Hasher::new());
    mmr.add(&element(0));
    mmr.add(&element(1));
    let root = mmr.root_hash();
    let mut hasher = Sha256Hasher::new();
    let good = mmr.inclusion_proof(0);
    assert!(verify_proof(&good, &element(0), 0, &root, &mut hasher));
    for sz in [0u64, 2, 5, 6, 9, 1u64 << 63, u64::MAX] {
        let bad = Proof { sz, hashes: good.hashes.clone() };
        assert!(!verify_proof(&bad, &element(0), 0, &root, &mut hasher), "size {}", sz);
    }
}

#[test]
fn verify_refuses_position_after_every_peak() {
    let mut mmr: InMemoryMMR<32, Sha256Hasher> = InMemoryMMR::new(Sha256Hasher::new());
    for i in 0..11u64 {
        mmr.add(&element(i));
    }
    let root = mmr.root_hash();
    let mut hasher = Sha256Hasher::new();
    let nodes = mmr.nodes().to_vec();
    // all peak hashes and nothing else: no peak lies at or after position 19
    let proof = mmr.inclusion_proof(19);
    assert_eq!(proof.hashes, vec![nodes[14], nodes[17], nodes[18]]);
    assert!(!verify_proof(&proof, &element(0), 19, &root, &mut hasher));
    let mut longer = proof.clone();
    longer.hashes.push(nodes[0]);
    assert!(!verify_proof(&longer, &element(0), 19, &root, &mut hasher));
}

#[test]
fn verify_refuses_unused_or_missing_hashes() {
    let mut mmr: InMemoryMMR<32, Sha256Hasher> = InMemoryMMR::new(Sha256Hasher::new());
    for i in 0..11u64 {
        mmr.add(&element(i));
    }
    let root = mmr.root_hash();
    let mut hasher = Sha256Hasher::new();
    let proof = mmr.inclusion_proof(3);
    assert!(verify_proof(&proof, &element(2), 3, &root, &mut hasher));
    let mut extra = proof.clone();
    extra.hashes.insert(0, mmr.nodes()[0]);
    assert!(!verify_proof(&extra, &element(2), 3, &root, &mut hasher));
    let mut missing = proof.clone();
    missing.hashes.pop();
    assert!(!verify_proof(&missing, &element(2), 3, &root, &mut hasher));
}
