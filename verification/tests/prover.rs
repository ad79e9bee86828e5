use mmr_prover::prover::{
    decode_conflicting_proposal, decode_conflicting_vote, decode_null_finalize, decode_proposal,
    decode_vote, serialize_conflicting_finalize, serialize_conflicting_proposal,
    serialize_conflicting_vote, serialize_finalize, serialize_null_finalize, serialize_proposal,
    serialize_vote, conflicting_proposal_outcome, conflicting_vote_outcome, null_finalize_outcome,
    proposal_outcome, vote_outcome, Finalize, ProofLengths, Signature, Vote,
};

fn lengths() -> ProofLengths {
    ProofLengths { digest_len: 4, public_key_len: 3, signature_len: 5 }
}

fn sig(key: u8, s: u8) -> Signature {
    Signature { public_key: vec![key; 3], signature: vec![s; 5] }
}

#[test]
fn proposal_layout_and_roundtrip() {
    let proof = serialize_proposal(0x0102030405060708, 9, &[1, 1, 1, 1], &[2, 2, 2, 2], &sig(7, 8));
    assert_eq!(
        proof,
        vec![
            1, 2, 3, 4, 5, 6, 7, 8, 0, 0, 0, 0, 0, 0, 0, 9, 1, 1, 1, 1, 2, 2, 2, 2, 7, 7, 7, 8, 8, 8,
            8, 8
        ]
    );
    let p = decode_proposal(&proof, &lengths()).unwrap();
    assert_eq!(p.view, 0x0102030405060708);
    assert_eq!(p.height, 9);
    assert_eq!(p.parent, vec![1; 4]);
    assert_eq!(p.payload, vec![2; 4]);
    assert_eq!(p.public_key, vec![7; 3]);
    assert_eq!(p.signature, vec![8; 5]);
}

#[test]
fn proposal_of_wrong_length_is_refused() {
    let proof = serialize_proposal(1, 2, &[1, 1, 1, 1], &[2, 2, 2, 2], &sig(7, 8));
    assert!(decode_proposal(&proof[..proof.len() - 1], &lengths()).is_none());
    let mut longer = proof.clone();
    longer.push(0);
    assert!(decode_proposal(&longer, &lengths()).is_none());
    assert!(decode_proposal(&[], &lengths()).is_none());
}

#[test]
fn vote_and_finalize_share_a_layout() {
    let vote = Vote { view: 3, height: Some(4), digest: Some(vec![5; 4]), signature: Some(sig(6, 7)) };
    let finalize = Finalize { view: 3, height: 4, digest: vec![5; 4], signature: Some(sig(6, 7)) };
    let a = serialize_vote(&vote);
    let b = serialize_finalize(&finalize);
    assert_eq!(a, b);
    assert_eq!(a.len(), 8 + 8 + 4 + 3 + 5);
    let p = decode_vote(&a, &lengths()).unwrap();
    assert_eq!((p.view, p.height), (3, 4));
    assert_eq!(p.digest, vec![5; 4]);
    assert_eq!(p.public_key, vec![6; 3]);
    assert_eq!(p.signature, vec![7; 5]);
    assert!(decode_vote(&a[1..], &lengths()).is_none());
}

#[test]
fn conflicting_proposal_roundtrip() {
    let proof = serialize_conflicting_proposal(
        11,
        1,
        &[1; 4],
        &[2; 4],
        &sig(9, 3),
        2,
        &[4; 4],
        &[5; 4],
        &sig(9, 6),
    );
    assert_eq!(proof.len(), 8 + 3 + 8 + 4 + 4 + 5 + 8 + 4 + 4 + 5);
    assert_eq!(&proof[8..11], &[9, 9, 9]);
    let p = decode_conflicting_proposal(&proof, &lengths()).unwrap();
    assert_eq!(p.view, 11);
    assert_eq!(p.public_key, vec![9; 3]);
    assert_eq!((p.height_1, p.height_2), (1, 2));
    assert_eq!(p.parent_1, vec![1; 4]);
    assert_eq!(p.payload_1, vec![2; 4]);
    assert_eq!(p.signature_1, vec![3; 5]);
    assert_eq!(p.parent_2, vec![4; 4]);
    assert_eq!(p.payload_2, vec![5; 4]);
    assert_eq!(p.signature_2, vec![6; 5]);
    assert!(decode_conflicting_proposal(&proof[..10], &lengths()).is_none());
}

#[test]
fn conflicting_vote_and_finalize_roundtrip() {
    let a = serialize_conflicting_vote(12, 1, &[1; 4], &sig(2, 3), 4, &[5; 4], &sig(2, 6));
    let b = serialize_conflicting_finalize(12, 1, &[1; 4], &sig(2, 3), 4, &[5; 4], &sig(2, 6));
    assert_eq!(a, b);
    let p = decode_conflicting_vote(&a, &lengths()).unwrap();
    assert_eq!(p.view, 12);
    assert_eq!(p.public_key, vec![2; 3]);
    assert_eq!((p.height_1, p.height_2), (1, 4));
    assert_eq!(p.digest_1, vec![1; 4]);
    assert_eq!(p.signature_1, vec![3; 5]);
    assert_eq!(p.digest_2, vec![5; 4]);
    assert_eq!(p.signature_2, vec![6; 5]);
    assert!(decode_conflicting_vote(&a[..a.len() - 2], &lengths()).is_none());
}

#[test]
fn null_finalize_roundtrip() {
    let proof = serialize_null_finalize(13, 14, &[1; 4], &sig(2, 3), &sig(2, 4));
    assert_eq!(proof.len(), 8 + 3 + 8 + 4 + 5 + 5);
    let p = decode_null_finalize(&proof, &lengths()).unwrap();
    assert_eq!((p.view, p.height), (13, 14));
    assert_eq!(p.public_key, vec![2; 3]);
    assert_eq!(p.digest, vec![1; 4]);
    assert_eq!(p.signature_finalize, vec![3; 5]);
    assert_eq!(p.signature_null, vec![4; 5]);
    assert!(decode_null_finalize(&proof[1..], &lengths()).is_none());
}

#[test]
fn proposal_outcome_follows_the_signature_checks() {
    let proof = serialize_proposal(21, 22, &[1; 4], &[2; 4], &sig(3, 4));
    let decode = || decode_proposal(&proof, &lengths()).unwrap();
    let (key, view, height, digest) =
        proposal_outcome(decode(), true, true, true, vec![9; 4]).unwrap();
    assert_eq!(key, vec![3; 3]);
    assert_eq!((view, height), (21, 22));
    assert_eq!(digest, vec![9; 4]);
    assert!(proposal_outcome(decode(), true, false, true, vec![9; 4]).is_none());
    assert!(proposal_outcome(decode(), true, true, false, vec![9; 4]).is_none());
    assert!(proposal_outcome(decode(), false, false, false, vec![9; 4]).is_some());
}

#[test]
fn vote_outcome_follows_the_signature_checks() {
    let vote = Vote { view: 3, height: Some(4), digest: Some(vec![5; 4]), signature: Some(sig(6, 7)) };
    let proof = serialize_vote(&vote);
    let decode = || decode_vote(&proof, &lengths()).unwrap();
    let (key, view, height, digest) = vote_outcome(decode(), true, true, true).unwrap();
    assert_eq!(key, vec![6; 3]);
    assert_eq!((view, height), (3, 4));
    assert_eq!(digest, vec![5; 4]);
    assert!(vote_outcome(decode(), true, false, true).is_none());
    assert!(vote_outcome(decode(), true, true, false).is_none());
    assert!(vote_outcome(decode(), false, false, false).is_some());
}

#[test]
fn conflicting_outcomes_need_both_signatures() {
    let proof =
        serialize_conflicting_proposal(11, 1, &[1; 4], &[2; 4], &sig(9, 3), 2, &[4; 4], &[5; 4], &sig(9, 6));
    let decode = || decode_conflicting_proposal(&proof, &lengths()).unwrap();
    assert_eq!(conflicting_proposal_outcome(decode(), true, true, true, true), Some((vec![9; 3], 11)));
    assert!(conflicting_proposal_outcome(decode(), true, false, true, true).is_none());
    assert!(conflicting_proposal_outcome(decode(), true, true, false, true).is_none());
    assert!(conflicting_proposal_outcome(decode(), true, true, true, false).is_none());
    assert!(conflicting_proposal_outcome(decode(), false, false, false, false).is_some());

    let proof = serialize_conflicting_vote(12, 1, &[1; 4], &sig(2, 3), 4, &[5; 4], &sig(2, 6));
    let decode = || decode_conflicting_vote(&proof, &lengths()).unwrap();
    assert_eq!(conflicting_vote_outcome(decode(), true, true, true, true), Some((vec![2; 3], 12)));
    assert!(conflicting_vote_outcome(decode(), true, true, true, false).is_none());
    assert!(conflicting_vote_outcome(decode(), true, true, false, true).is_none());
    assert!(conflicting_vote_outcome(decode(), true, false, true, true).is_none());
    assert!(conflicting_vote_outcome(decode(), false, true, false, false).is_some());

    let proof = serialize_null_finalize(13, 14, &[1; 4], &sig(2, 3), &sig(2, 4));
    let decode = || decode_null_finalize(&proof, &lengths()).unwrap();
    assert_eq!(null_finalize_outcome(decode(), true, true, true, true), Some((vec![2; 3], 13)));
    assert!(null_finalize_outcome(decode(), true, true, false, true).is_none());
    assert!(null_finalize_outcome(decode(), true, true, true, false).is_none());
    assert!(null_finalize_outcome(decode(), true, false, true, true).is_none());
    assert!(null_finalize_outcome(decode(), false, false, true, true).is_some());
}
