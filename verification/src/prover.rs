//! The byte layouts of the authority's consensus proofs.
//!
//! Proofs are encoded by hand rather than with a general-purpose format so
//! that parties in constrained environments can decode them. Every integer is
//! a big-endian `u64`; digests, public keys and signatures have the fixed
//! lengths of the hasher and signature scheme in use.

use vstd::prelude::*;
use crate::be::{
    be_at, get_u64, put_u64, u64_be_bytes, lemma_be_at_stored, lemma_u64_be_bytes_roundtrip,
    lemma_u64_be_bytes_injective,
};

verus! {

/// The lengths of the variable parts of a proof: a digest, a public key and
/// a signature.
pub struct ProofLengths {
    pub digest_len: usize,
    pub public_key_len: usize,
    pub signature_len: usize,
}

/// A signature with the public key that made it.
pub struct Signature {
    pub public_key: Vec<u8>,
    pub signature: Vec<u8>,
}

/// Appends `data` to `buf`.
fn put_bytes(buf: &mut Vec<u8>, data: &[u8])
    ensures
        final(buf)@ == old(buf)@ + data@,
{
    let mut i: usize = 0;
    while i < data.len()
        invariant
            i <= data@.len(),
            buf@ == old(buf)@ + data@.subrange(0, i as int),
        decreases data@.len() - i,
    {
        buf.push(data[i]);
        assert(data@.subrange(0, i + 1) =~= data@.subrange(0, i as int).push(data@[i as int]));
        i = i + 1;
    }
    assert(data@.subrange(0, data@.len() as int) =~= data@);
}

/// Copies `len` bytes of `buf` from `at` on.
fn copy_bytes(buf: &[u8], at: usize, len: usize) -> (r: Vec<u8>)
    requires
        at + len <= buf@.len(),
    ensures
        r@ == buf@.subrange(at as int, at + len),
{
    let mut r: Vec<u8> = Vec::new();
    let mut i: usize = 0;
    while i < len
        invariant
            i <= len,
            at + len <= buf.len(),
            r@ == buf@.subrange(at as int, at + i),
        decreases len - i,
    {
        r.push(buf[at + i]);
        assert(buf@.subrange(at as int, at + i + 1) =~= buf@.subrange(at as int, at + i).push(
            buf@[at + i],
        ));
        i = i + 1;
    }
    r
}

/// Reads the big-endian integer at `at`, extending the decoded prefix.
fn read_u64(proof: &[u8], at: usize) -> (x: u64)
    requires
        at + 8 <= proof@.len(),
    ensures
        proof@.subrange(0, at + 8) == proof@.subrange(0, at as int) + u64_be_bytes(x),
{
    let x = get_u64(proof, at);
    proof {
        lemma_u64_be_bytes_roundtrip(proof@.subrange(at as int, at + 8));
        assert(proof@.subrange(0, at + 8) =~= proof@.subrange(0, at as int) + proof@.subrange(
            at as int,
            at + 8,
        ));
    }
    x
}

/// Copies the `len` bytes at `at`, extending the decoded prefix.
fn read_bytes(proof: &[u8], at: usize, len: usize) -> (r: Vec<u8>)
    requires
        at + len <= proof@.len(),
    ensures
        r@.len() == len,
        proof@.subrange(0, at + len) == proof@.subrange(0, at as int) + r@,
{
    let r = copy_bytes(proof, at, len);
    assert(proof@.subrange(0, at + len) =~= proof@.subrange(0, at as int) + r@);
    r
}

/// Splitting equal concatenations at parts of equal length.
proof fn lemma_concat_split(a1: Seq<u8>, a2: Seq<u8>, b1: Seq<u8>, b2: Seq<u8>)
    requires
        a1 + a2 == b1 + b2,
        a2.len() == b2.len(),
    ensures
        a1 == b1,
        a2 == b2,
{
    let x = a1 + a2;
    assert(a1 =~= x.subrange(0, a1.len() as int));
    assert(b1 =~= x.subrange(0, b1.len() as int));
    assert(a2 =~= x.subrange(a1.len() as int, x.len() as int));
    assert(b2 =~= x.subrange(b1.len() as int, x.len() as int));
}

// ---------------------------------------------------------------------------
// Proposals

/// The bytes of a proposal proof.
pub open spec fn proposal_bytes(
    view: u64,
    height: u64,
    parent: Seq<u8>,
    payload: Seq<u8>,
    public_key: Seq<u8>,
    signature: Seq<u8>,
) -> Seq<u8> {
    u64_be_bytes(view) + u64_be_bytes(height) + parent + payload + public_key + signature
}

/// The length of a proposal proof.
pub open spec fn proposal_len(l: ProofLengths) -> int {
    8 + 8 + l.digest_len + l.digest_len + l.public_key_len + l.signature_len
}

/// A decoded proposal proof.
pub struct ProposalProof {
    pub view: u64,
    pub height: u64,
    pub parent: Vec<u8>,
    pub payload: Vec<u8>,
    pub public_key: Vec<u8>,
    pub signature: Vec<u8>,
}

impl ProposalProof {
    pub open spec fn bytes(&self) -> Seq<u8> {
        proposal_bytes(
            self.view,
            self.height,
            self.parent@,
            self.payload@,
            self.public_key@,
            self.signature@,
        )
    }

    /// The variable parts have the lengths of `l`.
    pub open spec fn fits(&self, l: ProofLengths) -> bool {
        &&& self.parent@.len() == l.digest_len
        &&& self.payload@.len() == l.digest_len
        &&& self.public_key@.len() == l.public_key_len
        &&& self.signature@.len() == l.signature_len
    }
}

/// Encodes a proof of a proposal: view, height, parent, payload, public key
/// and signature.
pub fn serialize_proposal(
    view: u64,
    height: u64,
    parent: &[u8],
    payload: &[u8],
    signature: &Signature,
) -> (r: Vec<u8>)
    ensures
        r@ == proposal_bytes(
            view,
            height,
            parent@,
            payload@,
            signature.public_key@,
            signature.signature@,
        ),
{
    let mut proof: Vec<u8> = Vec::new();
    put_u64(&mut proof, view);
    put_u64(&mut proof, height);
    put_bytes(&mut proof, parent);
    put_bytes(&mut proof, payload);
    put_bytes(&mut proof, signature.public_key.as_slice());
    put_bytes(&mut proof, signature.signature.as_slice());
    assert(proof@ =~= proposal_bytes(
        view,
        height,
        parent@,
        payload@,
        signature.public_key@,
        signature.signature@,
    ));
    proof
}

/// Decodes a proposal proof; `None` when it does not have the length of one.
pub fn decode_proposal(proof: &[u8], l: &ProofLengths) -> (r: Option<ProposalProof>)
    requires
        proposal_len(*l) <= usize::MAX,
    ensures
        r is None <==> proof@.len() != proposal_len(*l),
        r matches Some(p) ==> p.fits(*l) && p.bytes() == proof@,
{
    let digest_len = l.digest_len;
    if proof.len() != 8 + 8 + digest_len + digest_len + l.public_key_len + l.signature_len {
        return None;
    }
    assert(proof@.subrange(0, 0) =~= Seq::<u8>::empty());
    let mut at: usize = 0;
    let view = read_u64(proof, at);
    at = at + 8;
    let height = read_u64(proof, at);
    at = at + 8;
    let parent = read_bytes(proof, at, digest_len);
    at = at + digest_len;
    let payload = read_bytes(proof, at, digest_len);
    at = at + digest_len;
    let public_key = read_bytes(proof, at, l.public_key_len);
    at = at + l.public_key_len;
    let signature = read_bytes(proof, at, l.signature_len);
    at = at + l.signature_len;
    assert(proof@.subrange(0, at as int) =~= proof@);
    Some(ProposalProof { view, height, parent, payload, public_key, signature })
}

/// Two proposal proofs with the same lengths and the same bytes are the same
/// proof: decoding an encoding gives back what was encoded.
pub proof fn lemma_proposal_layout_injective(a: ProposalProof, b: ProposalProof, l: ProofLengths)
    requires
        a.fits(l),
        b.fits(l),
        a.bytes() == b.bytes(),
    ensures
        a.view == b.view,
        a.height == b.height,
        a.parent@ == b.parent@,
        a.payload@ == b.payload@,
        a.public_key@ == b.public_key@,
        a.signature@ == b.signature@,
{
    let x = a.bytes();
    let d = l.digest_len as int;
    let k = l.public_key_len as int;
    assert(x.subrange(0, 8) == u64_be_bytes(a.view) && x.subrange(0, 8) == u64_be_bytes(b.view));
    assert(x.subrange(8, 16) == u64_be_bytes(a.height) && x.subrange(8, 16) == u64_be_bytes(
        b.height,
    ));
    lemma_u64_be_bytes_injective(a.view, b.view);
    lemma_u64_be_bytes_injective(a.height, b.height);
    assert(a.parent@ =~= x.subrange(16, 16 + d) && b.parent@ =~= x.subrange(16, 16 + d));
    assert(a.payload@ =~= x.subrange(16 + d, 16 + 2 * d) && b.payload@ =~= x.subrange(
        16 + d,
        16 + 2 * d,
    ));
    assert(a.public_key@ =~= x.subrange(16 + 2 * d, 16 + 2 * d + k) && b.public_key@
        =~= x.subrange(16 + 2 * d, 16 + 2 * d + k));
    assert(a.signature@ =~= x.subrange(16 + 2 * d + k, x.len() as int) && b.signature@
        =~= x.subrange(16 + 2 * d + k, x.len() as int));
}

// ---------------------------------------------------------------------------
// Votes and finalizations

/// A vote; a null vote has neither height nor digest.
pub struct Vote {
    pub view: u64,
    pub height: Option<u64>,
    pub digest: Option<Vec<u8>>,
    pub signature: Option<Signature>,
}

/// A finalization.
pub struct Finalize {
    pub view: u64,
    pub height: u64,
    pub digest: Vec<u8>,
    pub signature: Option<Signature>,
}

/// The bytes of a vote or finalization proof.
pub open spec fn vote_bytes(
    view: u64,
    height: u64,
    digest: Seq<u8>,
    public_key: Seq<u8>,
    signature: Seq<u8>,
) -> Seq<u8> {
    u64_be_bytes(view) + u64_be_bytes(height) + digest + public_key + signature
}

/// The length of a vote or finalization proof.
pub open spec fn vote_len(l: ProofLengths) -> int {
    8 + 8 + l.digest_len + l.public_key_len + l.signature_len
}

/// A decoded vote or finalization proof.
pub struct VoteProof {
    pub view: u64,
    pub height: u64,
    pub digest: Vec<u8>,
    pub public_key: Vec<u8>,
    pub signature: Vec<u8>,
}

impl VoteProof {
    pub open spec fn bytes(&self) -> Seq<u8> {
        vote_bytes(self.view, self.height, self.digest@, self.public_key@, self.signature@)
    }

    pub open spec fn fits(&self, l: ProofLengths) -> bool {
        &&& self.digest@.len() == l.digest_len
        &&& self.public_key@.len() == l.public_key_len
        &&& self.signature@.len() == l.signature_len
    }
}

/// Encodes a proof of a vote: view, height, digest, public key and signature.
/// The vote must carry a height, a digest and a signature.
pub fn serialize_vote(vote: &Vote) -> (r: Vec<u8>)
    requires
        vote.height is Some,
        vote.digest is Some,
        vote.signature is Some,
    ensures
        r@ == vote_bytes(
            vote.view,
            vote.height->0,
            vote.digest->0@,
            vote.signature->0.public_key@,
            vote.signature->0.signature@,
        ),
{
    let mut proof: Vec<u8> = Vec::new();
    put_u64(&mut proof, vote.view);
    put_u64(&mut proof, vote.height.unwrap());
    put_bytes(&mut proof, vote.digest.as_ref().unwrap().as_slice());
    let signature = vote.signature.as_ref().unwrap();
    put_bytes(&mut proof, signature.public_key.as_slice());
    put_bytes(&mut proof, signature.signature.as_slice());
    assert(proof@ =~= vote_bytes(
        vote.view,
        vote.height->0,
        vote.digest->0@,
        vote.signature->0.public_key@,
        vote.signature->0.signature@,
    ));
    proof
}

/// Encodes a proof of a finalization: view, height, digest, public key and
/// signature. The finalization must carry a signature.
pub fn serialize_finalize(finalize: &Finalize) -> (r: Vec<u8>)
    requires
        finalize.signature is Some,
    ensures
        r@ == vote_bytes(
            finalize.view,
            finalize.height,
            finalize.digest@,
            finalize.signature->0.public_key@,
            finalize.signature->0.signature@,
        ),
{
    let mut proof: Vec<u8> = Vec::new();
    put_u64(&mut proof, finalize.view);
    put_u64(&mut proof, finalize.height);
    put_bytes(&mut proof, finalize.digest.as_slice());
    let signature = finalize.signature.as_ref().unwrap();
    put_bytes(&mut proof, signature.public_key.as_slice());
    put_bytes(&mut proof, signature.signature.as_slice());
    assert(proof@ =~= vote_bytes(
        finalize.view,
        finalize.height,
        finalize.digest@,
        finalize.signature->0.public_key@,
        finalize.signature->0.signature@,
    ));
    proof
}

/// Decodes a vote or finalization proof; `None` when it does not have the
/// length of one.
pub fn decode_vote(proof: &[u8], l: &ProofLengths) -> (r: Option<VoteProof>)
    requires
        vote_len(*l) <= usize::MAX,
    ensures
        r is None <==> proof@.len() != vote_len(*l),
        r matches Some(p) ==> p.fits(*l) && p.bytes() == proof@,
{
    if proof.len() != 8 + 8 + l.digest_len + l.public_key_len + l.signature_len {
        return None;
    }
    assert(proof@.subrange(0, 0) =~= Seq::<u8>::empty());
    let mut at: usize = 0;
    let view = read_u64(proof, at);
    at = at + 8;
    let height = read_u64(proof, at);
    at = at + 8;
    let digest = read_bytes(proof, at, l.digest_len);
    at = at + l.digest_len;
    let public_key = read_bytes(proof, at, l.public_key_len);
    at = at + l.public_key_len;
    let signature = read_bytes(proof, at, l.signature_len);
    at = at + l.signature_len;
    assert(proof@.subrange(0, at as int) =~= proof@);
    Some(VoteProof { view, height, digest, public_key, signature })
}

/// Two vote or finalization proofs with the same lengths and the same bytes
/// are the same proof.
pub proof fn lemma_vote_layout_injective(a: VoteProof, b: VoteProof, l: ProofLengths)
    requires
        a.fits(l),
        b.fits(l),
        a.bytes() == b.bytes(),
    ensures
        a.view == b.view,
        a.height == b.height,
        a.digest@ == b.digest@,
        a.public_key@ == b.public_key@,
        a.signature@ == b.signature@,
{
    let x = a.bytes();
    let d = l.digest_len as int;
    let k = l.public_key_len as int;
    assert(x.subrange(0, 8) == u64_be_bytes(a.view) && x.subrange(0, 8) == u64_be_bytes(b.view));
    assert(x.subrange(8, 16) == u64_be_bytes(a.height) && x.subrange(8, 16) == u64_be_bytes(
        b.height,
    ));
    lemma_u64_be_bytes_injective(a.view, b.view);
    lemma_u64_be_bytes_injective(a.height, b.height);
    assert(a.digest@ =~= x.subrange(16, 16 + d) && b.digest@ =~= x.subrange(16, 16 + d));
    assert(a.public_key@ =~= x.subrange(16 + d, 16 + d + k) && b.public_key@ =~= x.subrange(
        16 + d,
        16 + d + k,
    ));
    assert(a.signature@ =~= x.subrange(16 + d + k, x.len() as int) && b.signature@ =~= x.subrange(
        16 + d + k,
        x.len() as int,
    ));
}

// ---------------------------------------------------------------------------
// Conflicting proposals

/// The bytes of a proof of two conflicting proposals signed by one key.
pub open spec fn conflicting_proposal_bytes(
    view: u64,
    public_key: Seq<u8>,
    height_1: u64,
    parent_1: Seq<u8>,
    payload_1: Seq<u8>,
    signature_1: Seq<u8>,
    height_2: u64,
    parent_2: Seq<u8>,
    payload_2: Seq<u8>,
    signature_2: Seq<u8>,
) -> Seq<u8> {
    u64_be_bytes(view) + public_key + u64_be_bytes(height_1) + parent_1 + payload_1 + signature_1
        + u64_be_bytes(height_2) + parent_2 + payload_2 + signature_2
}

/// The length of a proof of conflicting proposals.
pub open spec fn conflicting_proposal_len(l: ProofLengths) -> int {
    8 + l.public_key_len + 8 + l.digest_len + l.digest_len + l.signature_len + 8 + l.digest_len
        + l.digest_len + l.signature_len
}

/// A decoded proof of conflicting proposals.
pub struct ConflictingProposalProof {
    pub view: u64,
    pub public_key: Vec<u8>,
    pub height_1: u64,
    pub parent_1: Vec<u8>,
    pub payload_1: Vec<u8>,
    pub signature_1: Vec<u8>,
    pub height_2: u64,
    pub parent_2: Vec<u8>,
    pub payload_2: Vec<u8>,
    pub signature_2: Vec<u8>,
}

impl ConflictingProposalProof {
    pub open spec fn bytes(&self) -> Seq<u8> {
        conflicting_proposal_bytes(
            self.view,
            self.public_key@,
            self.height_1,
            self.parent_1@,
            self.payload_1@,
            self.signature_1@,
            self.height_2,
            self.parent_2@,
            self.payload_2@,
            self.signature_2@,
        )
    }

    pub open spec fn fits(&self, l: ProofLengths) -> bool {
        &&& self.public_key@.len() == l.public_key_len
        &&& self.parent_1@.len() == l.digest_len
        &&& self.payload_1@.len() == l.digest_len
        &&& self.signature_1@.len() == l.signature_len
        &&& self.parent_2@.len() == l.digest_len
        &&& self.payload_2@.len() == l.digest_len
        &&& self.signature_2@.len() == l.signature_len
    }
}

/// Encodes a proof that one key signed two proposals in the same view. Both
/// signatures must come from the same public key.
pub fn serialize_conflicting_proposal(
    view: u64,
    height_1: u64,
    parent_1: &[u8],
    payload_1: &[u8],
    signature_1: &Signature,
    height_2: u64,
    parent_2: &[u8],
    payload_2: &[u8],
    signature_2: &Signature,
) -> (r: Vec<u8>)
    requires
        signature_1.public_key@ == signature_2.public_key@,
    ensures
        r@ == conflicting_proposal_bytes(
            view,
            signature_1.public_key@,
            height_1,
            parent_1@,
            payload_1@,
            signature_1.signature@,
            height_2,
            parent_2@,
            payload_2@,
            signature_2.signature@,
        ),
{
    let mut proof: Vec<u8> = Vec::new();
    put_u64(&mut proof, view);
    put_bytes(&mut proof, signature_1.public_key.as_slice());
    put_u64(&mut proof, height_1);
    put_bytes(&mut proof, parent_1);
    put_bytes(&mut proof, payload_1);
    put_bytes(&mut proof, signature_1.signature.as_slice());
    put_u64(&mut proof, height_2);
    put_bytes(&mut proof, parent_2);
    put_bytes(&mut proof, payload_2);
    put_bytes(&mut proof, signature_2.signature.as_slice());
    assert(proof@ =~= conflicting_proposal_bytes(
        view,
        signature_1.public_key@,
        height_1,
        parent_1@,
        payload_1@,
        signature_1.signature@,
        height_2,
        parent_2@,
        payload_2@,
        signature_2.signature@,
    ));
    proof
}

/// Decodes a proof of conflicting proposals; `None` when it does not have
/// the length of one.
pub fn decode_conflicting_proposal(proof: &[u8], l: &ProofLengths) -> (r: Option<
    ConflictingProposalProof,
>)
    requires
        conflicting_proposal_len(*l) <= usize::MAX,
    ensures
        r is None <==> proof@.len() != conflicting_proposal_len(*l),
        r matches Some(p) ==> p.fits(*l) && p.bytes() == proof@,
{
    let digest_len = l.digest_len;
    let public_key_len = l.public_key_len;
    let signature_len = l.signature_len;
    let len = 8 + public_key_len + 8 + digest_len + digest_len + signature_len + 8 + digest_len
        + digest_len + signature_len;
    if proof.len() != len {
        return None;
    }
    assert(proof@.subrange(0, 0) =~= Seq::<u8>::empty());
    let mut at: usize = 0;
    let view = read_u64(proof, at);
    at = at + 8;
    let public_key = read_bytes(proof, at, public_key_len);
    at = at + public_key_len;
    let height_1 = read_u64(proof, at);
    at = at + 8;
    let parent_1 = read_bytes(proof, at, digest_len);
    at = at + digest_len;
    let payload_1 = read_bytes(proof, at, digest_len);
    at = at + digest_len;
    let signature_1 = read_bytes(proof, at, signature_len);
    at = at + signature_len;
    let height_2 = read_u64(proof, at);
    at = at + 8;
    let parent_2 = read_bytes(proof, at, digest_len);
    at = at + digest_len;
    let payload_2 = read_bytes(proof, at, digest_len);
    at = at + digest_len;
    let signature_2 = read_bytes(proof, at, signature_len);
    at = at + signature_len;
    assert(proof@.subrange(0, at as int) =~= proof@);
    Some(
        ConflictingProposalProof {
            view,
            public_key,
            height_1,
            parent_1,
            payload_1,
            signature_1,
            height_2,
            parent_2,
            payload_2,
            signature_2,
        },
    )
}

/// Two proofs of conflicting proposals with the same lengths and the same
/// bytes are the same proof.
pub proof fn lemma_conflicting_proposal_layout_injective(
    a: ConflictingProposalProof,
    b: ConflictingProposalProof,
    l: ProofLengths,
)
    requires
        a.fits(l),
        b.fits(l),
        a.bytes() == b.bytes(),
    ensures
        a.view == b.view,
        a.public_key@ == b.public_key@,
        a.height_1 == b.height_1,
        a.parent_1@ == b.parent_1@,
        a.payload_1@ == b.payload_1@,
        a.signature_1@ == b.signature_1@,
        a.height_2 == b.height_2,
        a.parent_2@ == b.parent_2@,
        a.payload_2@ == b.payload_2@,
        a.signature_2@ == b.signature_2@,
{
    let a0 = u64_be_bytes(a.view);
    let a1 = a0 + a.public_key@;
    let a2 = a1 + u64_be_bytes(a.height_1);
    let a3 = a2 + a.parent_1@;
    let a4 = a3 + a.payload_1@;
    let a5 = a4 + a.signature_1@;
    let a6 = a5 + u64_be_bytes(a.height_2);
    let a7 = a6 + a.parent_2@;
    let a8 = a7 + a.payload_2@;
    let b0 = u64_be_bytes(b.view);
    let b1 = b0 + b.public_key@;
    let b2 = b1 + u64_be_bytes(b.height_1);
    let b3 = b2 + b.parent_1@;
    let b4 = b3 + b.payload_1@;
    let b5 = b4 + b.signature_1@;
    let b6 = b5 + u64_be_bytes(b.height_2);
    let b7 = b6 + b.parent_2@;
    let b8 = b7 + b.payload_2@;
    assert(a.bytes() == a8 + a.signature_2@);
    assert(b.bytes() == b8 + b.signature_2@);
    lemma_concat_split(a8, a.signature_2@, b8, b.signature_2@);
    lemma_concat_split(a7, a.payload_2@, b7, b.payload_2@);
    lemma_concat_split(a6, a.parent_2@, b6, b.parent_2@);
    lemma_concat_split(a5, u64_be_bytes(a.height_2), b5, u64_be_bytes(b.height_2));
    lemma_concat_split(a4, a.signature_1@, b4, b.signature_1@);
    lemma_concat_split(a3, a.payload_1@, b3, b.payload_1@);
    lemma_concat_split(a2, a.parent_1@, b2, b.parent_1@);
    lemma_concat_split(a1, u64_be_bytes(a.height_1), b1, u64_be_bytes(b.height_1));
    lemma_concat_split(a0, a.public_key@, b0, b.public_key@);
    lemma_u64_be_bytes_injective(a.view, b.view);
    lemma_u64_be_bytes_injective(a.height_1, b.height_1);
    lemma_u64_be_bytes_injective(a.height_2, b.height_2);
}

// ---------------------------------------------------------------------------
// Conflicting votes and conflicting finalizations

/// The bytes of a proof of two conflicting votes (or finalizations) signed
/// by one key.
pub open spec fn conflicting_vote_bytes(
    view: u64,
    public_key: Seq<u8>,
    height_1: u64,
    digest_1: Seq<u8>,
    signature_1: Seq<u8>,
    height_2: u64,
    digest_2: Seq<u8>,
    signature_2: Seq<u8>,
) -> Seq<u8> {
    u64_be_bytes(view) + public_key + u64_be_bytes(height_1) + digest_1 + signature_1
        + u64_be_bytes(height_2) + digest_2 + signature_2
}

/// The length of a proof of conflicting votes or finalizations.
pub open spec fn conflicting_vote_len(l: ProofLengths) -> int {
    8 + l.public_key_len + 8 + l.digest_len + l.signature_len + 8 + l.digest_len + l.signature_len
}

/// A decoded proof of conflicting votes or finalizations.
pub struct ConflictingVoteProof {
    pub view: u64,
    pub public_key: Vec<u8>,
    pub height_1: u64,
    pub digest_1: Vec<u8>,
    pub signature_1: Vec<u8>,
    pub height_2: u64,
    pub digest_2: Vec<u8>,
    pub signature_2: Vec<u8>,
}

impl ConflictingVoteProof {
    pub open spec fn bytes(&self) -> Seq<u8> {
        conflicting_vote_bytes(
            self.view,
            self.public_key@,
            self.height_1,
            self.digest_1@,
            self.signature_1@,
            self.height_2,
            self.digest_2@,
            self.signature_2@,
        )
    }

    pub open spec fn fits(&self, l: ProofLengths) -> bool {
        &&& self.public_key@.len() == l.public_key_len
        &&& self.digest_1@.len() == l.digest_len
        &&& self.signature_1@.len() == l.signature_len
        &&& self.digest_2@.len() == l.digest_len
        &&& self.signature_2@.len() == l.signature_len
    }
}

fn put_conflicting_pair(
    view: u64,
    height_1: u64,
    hash_1: &[u8],
    signature_1: &Signature,
    height_2: u64,
    hash_2: &[u8],
    signature_2: &Signature,
) -> (r: Vec<u8>)
    ensures
        r@ == conflicting_vote_bytes(
            view,
            signature_1.public_key@,
            height_1,
            hash_1@,
            signature_1.signature@,
            height_2,
            hash_2@,
            signature_2.signature@,
        ),
{
    let mut proof: Vec<u8> = Vec::new();
    put_u64(&mut proof, view);
    put_bytes(&mut proof, signature_1.public_key.as_slice());
    put_u64(&mut proof, height_1);
    put_bytes(&mut proof, hash_1);
    put_bytes(&mut proof, signature_1.signature.as_slice());
    put_u64(&mut proof, height_2);
    put_bytes(&mut proof, hash_2);
    put_bytes(&mut proof, signature_2.signature.as_slice());
    assert(proof@ =~= conflicting_vote_bytes(
        view,
        signature_1.public_key@,
        height_1,
        hash_1@,
        signature_1.signature@,
        height_2,
        hash_2@,
        signature_2.signature@,
    ));
    proof
}

/// Encodes a proof that one key voted for two different blocks in the same
/// view. Both signatures must come from the same public key.
pub fn serialize_conflicting_vote(
    view: u64,
    height_1: u64,
    hash_1: &[u8],
    signature_1: &Signature,
    height_2: u64,
    hash_2: &[u8],
    signature_2: &Signature,
) -> (r: Vec<u8>)
    requires
        signature_1.public_key@ == signature_2.public_key@,
    ensures
        r@ == conflicting_vote_bytes(
            view,
            signature_1.public_key@,
            height_1,
            hash_1@,
            signature_1.signature@,
            height_2,
            hash_2@,
            signature_2.signature@,
        ),
{
    put_conflicting_pair(view, height_1, hash_1, signature_1, height_2, hash_2, signature_2)
}

/// Encodes a proof that one key finalized two different blocks in the same
/// view. Both signatures must come from the same public key.
pub fn serialize_conflicting_finalize(
    view: u64,
    height_1: u64,
    hash_1: &[u8],
    signature_1: &Signature,
    height_2: u64,
    hash_2: &[u8],
    signature_2: &Signature,
) -> (r: Vec<u8>)
    requires
        signature_1.public_key@ == signature_2.public_key@,
    ensures
        r@ == conflicting_vote_bytes(
            view,
            signature_1.public_key@,
            height_1,
            hash_1@,
            signature_1.signature@,
            height_2,
            hash_2@,
            signature_2.signature@,
        ),
{
    put_conflicting_pair(view, height_1, hash_1, signature_1, height_2, hash_2, signature_2)
}

/// Decodes a proof of conflicting votes or finalizations; `None` when it
/// does not have the length of one.
pub fn decode_conflicting_vote(proof: &[u8], l: &ProofLengths) -> (r: Option<ConflictingVoteProof>)
    requires
        conflicting_vote_len(*l) <= usize::MAX,
    ensures
        r is None <==> proof@.len() != conflicting_vote_len(*l),
        r matches Some(p) ==> p.fits(*l) && p.bytes() == proof@,
{
    let digest_len = l.digest_len;
    let public_key_len = l.public_key_len;
    let signature_len = l.signature_len;
    let len = 8 + public_key_len + 8 + digest_len + signature_len + 8 + digest_len + signature_len;
    if proof.len() != len {
        return None;
    }
    assert(proof@.subrange(0, 0) =~= Seq::<u8>::empty());
    let mut at: usize = 0;
    let view = read_u64(proof, at);
    at = at + 8;
    let public_key = read_bytes(proof, at, public_key_len);
    at = at + public_key_len;
    let height_1 = read_u64(proof, at);
    at = at + 8;
    let digest_1 = read_bytes(proof, at, digest_len);
    at = at + digest_len;
    let signature_1 = read_bytes(proof, at, signature_len);
    at = at + signature_len;
    let height_2 = read_u64(proof, at);
    at = at + 8;
    let digest_2 = read_bytes(proof, at, digest_len);
    at = at + digest_len;
    let signature_2 = read_bytes(proof, at, signature_len);
    at = at + signature_len;
    assert(proof@.subrange(0, at as int) =~= proof@);
    Some(
        ConflictingVoteProof {
            view,
            public_key,
            height_1,
            digest_1,
            signature_1,
            height_2,
            digest_2,
            signature_2,
        },
    )
}

/// Two proofs of conflicting votes or finalizations with the same lengths
/// and the same bytes are the same proof.
pub proof fn lemma_conflicting_vote_layout_injective(
    a: ConflictingVoteProof,
    b: ConflictingVoteProof,
    l: ProofLengths,
)
    requires
        a.fits(l),
        b.fits(l),
        a.bytes() == b.bytes(),
    ensures
        a.view == b.view,
        a.public_key@ == b.public_key@,
        a.height_1 == b.height_1,
        a.digest_1@ == b.digest_1@,
        a.signature_1@ == b.signature_1@,
        a.height_2 == b.height_2,
        a.digest_2@ == b.digest_2@,
        a.signature_2@ == b.signature_2@,
{
    let a0 = u64_be_bytes(a.view);
    let a1 = a0 + a.public_key@;
    let a2 = a1 + u64_be_bytes(a.height_1);
    let a3 = a2 + a.digest_1@;
    let a4 = a3 + a.signature_1@;
    let a5 = a4 + u64_be_bytes(a.height_2);
    let a6 = a5 + a.digest_2@;
    let b0 = u64_be_bytes(b.view);
    let b1 = b0 + b.public_key@;
    let b2 = b1 + u64_be_bytes(b.height_1);
    let b3 = b2 + b.digest_1@;
    let b4 = b3 + b.signature_1@;
    let b5 = b4 + u64_be_bytes(b.height_2);
    let b6 = b5 + b.digest_2@;
    assert(a.bytes() == a6 + a.signature_2@);
    assert(b.bytes() == b6 + b.signature_2@);
    lemma_concat_split(a6, a.signature_2@, b6, b.signature_2@);
    lemma_concat_split(a5, a.digest_2@, b5, b.digest_2@);
    lemma_concat_split(a4, u64_be_bytes(a.height_2), b4, u64_be_bytes(b.height_2));
    lemma_concat_split(a3, a.signature_1@, b3, b.signature_1@);
    lemma_concat_split(a2, a.digest_1@, b2, b.digest_1@);
    lemma_concat_split(a1, u64_be_bytes(a.height_1), b1, u64_be_bytes(b.height_1));
    lemma_concat_split(a0, a.public_key@, b0, b.public_key@);
    lemma_u64_be_bytes_injective(a.view, b.view);
    lemma_u64_be_bytes_injective(a.height_1, b.height_1);
    lemma_u64_be_bytes_injective(a.height_2, b.height_2);
}

// ---------------------------------------------------------------------------
// Finalizations of a view that was also voted null

/// The bytes of a proof that one key both finalized a block and voted null
/// in the same view.
pub open spec fn null_finalize_bytes(
    view: u64,
    public_key: Seq<u8>,
    height: u64,
    digest: Seq<u8>,
    signature_finalize: Seq<u8>,
    signature_null: Seq<u8>,
) -> Seq<u8> {
    u64_be_bytes(view) + public_key + u64_be_bytes(height) + digest + signature_finalize
        + signature_null
}

/// The length of a proof of a finalization and a null vote.
pub open spec fn null_finalize_len(l: ProofLengths) -> int {
    8 + l.public_key_len + 8 + l.digest_len + l.signature_len + l.signature_len
}

/// A decoded proof of a finalization and a null vote.
pub struct NullFinalizeProof {
    pub view: u64,
    pub public_key: Vec<u8>,
    pub height: u64,
    pub digest: Vec<u8>,
    pub signature_finalize: Vec<u8>,
    pub signature_null: Vec<u8>,
}

impl NullFinalizeProof {
    pub open spec fn bytes(&self) -> Seq<u8> {
        null_finalize_bytes(
            self.view,
            self.public_key@,
            self.height,
            self.digest@,
            self.signature_finalize@,
            self.signature_null@,
        )
    }

    pub open spec fn fits(&self, l: ProofLengths) -> bool {
        &&& self.public_key@.len() == l.public_key_len
        &&& self.digest@.len() == l.digest_len
        &&& self.signature_finalize@.len() == l.signature_len
        &&& self.signature_null@.len() == l.signature_len
    }
}

/// Encodes a proof that one key finalized a block and voted null in the same
/// view. Both signatures must come from the same public key.
pub fn serialize_null_finalize(
    view: u64,
    height: u64,
    digest: &[u8],
    signature_finalize: &Signature,
    signature_null: &Signature,
) -> (r: Vec<u8>)
    requires
        signature_finalize.public_key@ == signature_null.public_key@,
    ensures
        r@ == null_finalize_bytes(
            view,
            signature_finalize.public_key@,
            height,
            digest@,
            signature_finalize.signature@,
            signature_null.signature@,
        ),
{
    let mut proof: Vec<u8> = Vec::new();
    put_u64(&mut proof, view);
    put_bytes(&mut proof, signature_finalize.public_key.as_slice());
    put_u64(&mut proof, height);
    put_bytes(&mut proof, digest);
    put_bytes(&mut proof, signature_finalize.signature.as_slice());
    put_bytes(&mut proof, signature_null.signature.as_slice());
    assert(proof@ =~= null_finalize_bytes(
        view,
        signature_finalize.public_key@,
        height,
        digest@,
        signature_finalize.signature@,
        signature_null.signature@,
    ));
    proof
}

/// Decodes a proof of a finalization and a null vote; `None` when it does
/// not have the length of one.
pub fn decode_null_finalize(proof: &[u8], l: &ProofLengths) -> (r: Option<NullFinalizeProof>)
    requires
        null_finalize_len(*l) <= usize::MAX,
    ensures
        r is None <==> proof@.len() != null_finalize_len(*l),
        r matches Some(p) ==> p.fits(*l) && p.bytes() == proof@,
{
    let public_key_len = l.public_key_len;
    let signature_len = l.signature_len;
    if proof.len() != 8 + public_key_len + 8 + l.digest_len + signature_len + signature_len {
        return None;
    }
    assert(proof@.subrange(0, 0) =~= Seq::<u8>::empty());
    let mut at: usize = 0;
    let view = read_u64(proof, at);
    at = at + 8;
    let public_key = read_bytes(proof, at, public_key_len);
    at = at + public_key_len;
    let height = read_u64(proof, at);
    at = at + 8;
    let digest = read_bytes(proof, at, l.digest_len);
    at = at + l.digest_len;
    let signature_finalize = read_bytes(proof, at, signature_len);
    at = at + signature_len;
    let signature_null = read_bytes(proof, at, signature_len);
    at = at + signature_len;
    assert(proof@.subrange(0, at as int) =~= proof@);
    Some(NullFinalizeProof { view, public_key, height, digest, signature_finalize, signature_null })
}

/// Two proofs of a finalization and a null vote with the same lengths and
/// the same bytes are the same proof.
pub proof fn lemma_null_finalize_layout_injective(
    a: NullFinalizeProof,
    b: NullFinalizeProof,
    l: ProofLengths,
)
    requires
        a.fits(l),
        b.fits(l),
        a.bytes() == b.bytes(),
    ensures
        a.view == b.view,
        a.public_key@ == b.public_key@,
        a.height == b.height,
        a.digest@ == b.digest@,
        a.signature_finalize@ == b.signature_finalize@,
        a.signature_null@ == b.signature_null@,
{
    let a0 = u64_be_bytes(a.view);
    let a1 = a0 + a.public_key@;
    let a2 = a1 + u64_be_bytes(a.height);
    let a3 = a2 + a.digest@;
    let a4 = a3 + a.signature_finalize@;
    let b0 = u64_be_bytes(b.view);
    let b1 = b0 + b.public_key@;
    let b2 = b1 + u64_be_bytes(b.height);
    let b3 = b2 + b.digest@;
    let b4 = b3 + b.signature_finalize@;
    assert(a.bytes() == a4 + a.signature_null@);
    assert(b.bytes() == b4 + b.signature_null@);
    lemma_concat_split(a4, a.signature_null@, b4, b.signature_null@);
    lemma_concat_split(a3, a.signature_finalize@, b3, b.signature_finalize@);
    lemma_concat_split(a2, a.digest@, b2, b.digest@);
    lemma_concat_split(a1, u64_be_bytes(a.height), b1, u64_be_bytes(b.height));
    lemma_concat_split(a0, a.public_key@, b0, b.public_key@);
    lemma_u64_be_bytes_injective(a.view, b.view);
    lemma_u64_be_bytes_injective(a.height, b.height);
}

/// What a proposal proof establishes once its signature has been looked at:
/// the signer's public key, the view, the height and the digest of the
/// proposal message. With `check_sig`, the proof is refused unless the public
/// key is valid (`key_valid`) and the signature over the proposal message
/// verifies (`sig_valid`); without it, both are ignored.
pub fn proposal_outcome(
    p: ProposalProof,
    check_sig: bool,
    key_valid: bool,
    sig_valid: bool,
    digest: Vec<u8>,
) -> (r: Option<(Vec<u8>, u64, u64, Vec<u8>)>)
    ensures
        r is None <==> check_sig && !(key_valid && sig_valid),
        r matches Some(t) ==> t.0@ == p.public_key@ && t.1 == p.view && t.2 == p.height
            && t.3@ == digest@,
{
    if check_sig {
        if !key_valid {
            return None;
        }
        if !sig_valid {
            return None;
        }
    }
    Some((p.public_key, p.view, p.height, digest))
}

/// What a vote or finalization proof establishes once its signature has been
/// looked at: the signer's public key, the view, the height and the digest.
/// With `check_sig`, the proof is refused unless the public key is valid and
/// the signature verifies; without it, both are ignored.
pub fn vote_outcome(p: VoteProof, check_sig: bool, key_valid: bool, sig_valid: bool) -> (r: Option<
    (Vec<u8>, u64, u64, Vec<u8>),
>)
    ensures
        r is None <==> check_sig && !(key_valid && sig_valid),
        r matches Some(t) ==> t.0@ == p.public_key@ && t.1 == p.view && t.2 == p.height
            && t.3@ == p.digest@,
{
    if check_sig {
        if !key_valid {
            return None;
        }
        if !sig_valid {
            return None;
        }
    }
    Some((p.public_key, p.view, p.height, p.digest))
}

/// What a proof of two conflicting proposals establishes once its signatures
/// have been looked at: the public key of the signer who signed both, and the
/// view. With `check_sig`, the proof is refused unless the public key is
/// valid and both signatures verify; without it, all three are ignored.
pub fn conflicting_proposal_outcome(
    p: ConflictingProposalProof,
    check_sig: bool,
    key_valid: bool,
    sig_1_valid: bool,
    sig_2_valid: bool,
) -> (r: Option<(Vec<u8>, u64)>)
    ensures
        r is None <==> check_sig && !(key_valid && sig_1_valid && sig_2_valid),
        r matches Some(t) ==> t.0@ == p.public_key@ && t.1 == p.view,
{
    if check_sig {
        if !key_valid {
            return None;
        }
        if !sig_1_valid || !sig_2_valid {
            return None;
        }
    }
    Some((p.public_key, p.view))
}

/// What a proof of two conflicting votes or finalizations establishes once
/// its signatures have been looked at: the public key of the signer who
/// signed both, and the view. With `check_sig`, the proof is refused unless
/// the public key is valid and both signatures verify.
pub fn conflicting_vote_outcome(
    p: ConflictingVoteProof,
    check_sig: bool,
    key_valid: bool,
    sig_1_valid: bool,
    sig_2_valid: bool,
) -> (r: Option<(Vec<u8>, u64)>)
    ensures
        r is None <==> check_sig && !(key_valid && sig_1_valid && sig_2_valid),
        r matches Some(t) ==> t.0@ == p.public_key@ && t.1 == p.view,
{
    if check_sig {
        if !key_valid {
            return None;
        }
        if !sig_1_valid || !sig_2_valid {
            return None;
        }
    }
    Some((p.public_key, p.view))
}

/// What a proof of a finalization and a null vote in the same view
/// establishes once its signatures have been looked at: the signer's public
/// key and the view. With `check_sig`, the proof is refused unless the public
/// key is valid and both the finalization signature and the null vote
/// signature verify.
pub fn null_finalize_outcome(
    p: NullFinalizeProof,
    check_sig: bool,
    key_valid: bool,
    finalize_sig_valid: bool,
    null_sig_valid: bool,
) -> (r: Option<(Vec<u8>, u64)>)
    ensures
        r is None <==> check_sig && !(key_valid && finalize_sig_valid && null_sig_valid),
        r matches Some(t) ==> t.0@ == p.public_key@ && t.1 == p.view,
{
    if check_sig {
        if !key_valid {
            return None;
        }
        if !finalize_sig_valid || !null_sig_valid {
            return None;
        }
    }
    Some((p.public_key, p.view))
}

/// `be_at` reads back the integer whose encoding sits at `at` in `b`.
proof fn lemma_reads_u64(b: Seq<u8>, at: int, x: u64)
    requires
        0 <= at,
        at + 8 <= b.len(),
        b.subrange(at, at + 8) =~= u64_be_bytes(x),
    ensures
        be_at(b, at) == x,
{
    lemma_be_at_stored(b, at, x);
}

/// A proposal proof holds, in order: the view and the height as big-endian
/// integers, the parent, the payload, the public key and the signature.
pub proof fn lemma_proposal_layout(
    view: u64,
    height: u64,
    parent: Seq<u8>,
    payload: Seq<u8>,
    public_key: Seq<u8>,
    signature: Seq<u8>,
)
    ensures
        ({
            let b = proposal_bytes(view, height, parent, payload, public_key, signature);
            let d = parent.len() as int;
            let e = 16 + d + payload.len();
            let k = public_key.len() as int;
            &&& b.len() == e + k + signature.len()
            &&& be_at(b, 0) == view
            &&& be_at(b, 8) == height
            &&& b.subrange(16, 16 + d) == parent
            &&& b.subrange(16 + d, e) == payload
            &&& b.subrange(e, e + k) == public_key
            &&& b.subrange(e + k, b.len() as int) == signature
        }),
{
    let b = proposal_bytes(view, height, parent, payload, public_key, signature);
    let d = parent.len() as int;
    let e = 16 + d + payload.len();
    let k = public_key.len() as int;
    lemma_reads_u64(b, 0, view);
    lemma_reads_u64(b, 8, height);
    assert(b.subrange(16, 16 + d) =~= parent);
    assert(b.subrange(16 + d, e) =~= payload);
    assert(b.subrange(e, e + k) =~= public_key);
    assert(b.subrange(e + k, b.len() as int) =~= signature);
}

/// A vote or finalization proof holds, in order: the view and the height as
/// big-endian integers, the digest, the public key and the signature.
pub proof fn lemma_vote_layout(
    view: u64,
    height: u64,
    digest: Seq<u8>,
    public_key: Seq<u8>,
    signature: Seq<u8>,
)
    ensures
        ({
            let b = vote_bytes(view, height, digest, public_key, signature);
            let d = digest.len() as int;
            let k = public_key.len() as int;
            &&& b.len() == 16 + d + k + signature.len()
            &&& be_at(b, 0) == view
            &&& be_at(b, 8) == height
            &&& b.subrange(16, 16 + d) == digest
            &&& b.subrange(16 + d, 16 + d + k) == public_key
            &&& b.subrange(16 + d + k, b.len() as int) == signature
        }),
{
    let b = vote_bytes(view, height, digest, public_key, signature);
    let d = digest.len() as int;
    let k = public_key.len() as int;
    lemma_reads_u64(b, 0, view);
    lemma_reads_u64(b, 8, height);
    assert(b.subrange(16, 16 + d) =~= digest);
    assert(b.subrange(16 + d, 16 + d + k) =~= public_key);
    assert(b.subrange(16 + d + k, b.len() as int) =~= signature);
}

/// A proof of conflicting proposals holds, in order: the view, the public
/// key, then for the first proposal its height, parent, payload and
/// signature, then the same four for the second.
pub proof fn lemma_conflicting_proposal_layout(
    view: u64,
    public_key: Seq<u8>,
    height_1: u64,
    parent_1: Seq<u8>,
    payload_1: Seq<u8>,
    signature_1: Seq<u8>,
    height_2: u64,
    parent_2: Seq<u8>,
    payload_2: Seq<u8>,
    signature_2: Seq<u8>,
)
    ensures
        ({
            let b = conflicting_proposal_bytes(
                view,
                public_key,
                height_1,
                parent_1,
                payload_1,
                signature_1,
                height_2,
                parent_2,
                payload_2,
                signature_2,
            );
            let a0 = 8 + public_key.len() as int;
            let a1 = a0 + 8;
            let a2 = a1 + parent_1.len();
            let a3 = a2 + payload_1.len();
            let a4 = a3 + signature_1.len();
            let a5 = a4 + 8;
            let a6 = a5 + parent_2.len();
            let a7 = a6 + payload_2.len();
            &&& b.len() == a7 + signature_2.len()
            &&& be_at(b, 0) == view
            &&& b.subrange(8, a0) == public_key
            &&& be_at(b, a0) == height_1
            &&& b.subrange(a1, a2) == parent_1
            &&& b.subrange(a2, a3) == payload_1
            &&& b.subrange(a3, a4) == signature_1
            &&& be_at(b, a4) == height_2
            &&& b.subrange(a5, a6) == parent_2
            &&& b.subrange(a6, a7) == payload_2
            &&& b.subrange(a7, b.len() as int) == signature_2
        }),
{
    let b = conflicting_proposal_bytes(
        view,
        public_key,
        height_1,
        parent_1,
        payload_1,
        signature_1,
        height_2,
        parent_2,
        payload_2,
        signature_2,
    );
    let a0 = 8 + public_key.len() as int;
    let a1 = a0 + 8;
    let a2 = a1 + parent_1.len();
    let a3 = a2 + payload_1.len();
    let a4 = a3 + signature_1.len();
    let a5 = a4 + 8;
    let a6 = a5 + parent_2.len();
    let a7 = a6 + payload_2.len();
    lemma_reads_u64(b, 0, view);
    lemma_reads_u64(b, a0, height_1);
    lemma_reads_u64(b, a4, height_2);
    assert(b.subrange(8, a0) =~= public_key);
    assert(b.subrange(a1, a2) =~= parent_1);
    assert(b.subrange(a2, a3) =~= payload_1);
    assert(b.subrange(a3, a4) =~= signature_1);
    assert(b.subrange(a5, a6) =~= parent_2);
    assert(b.subrange(a6, a7) =~= payload_2);
    assert(b.subrange(a7, b.len() as int) =~= signature_2);
}

/// A proof of conflicting votes or finalizations holds, in order: the view,
/// the public key, then the first height, digest and signature, then the
/// second.
pub proof fn lemma_conflicting_vote_layout(
    view: u64,
    public_key: Seq<u8>,
    height_1: u64,
    digest_1: Seq<u8>,
    signature_1: Seq<u8>,
    height_2: u64,
    digest_2: Seq<u8>,
    signature_2: Seq<u8>,
)
    ensures
        ({
            let b = conflicting_vote_bytes(
                view,
                public_key,
                height_1,
                digest_1,
                signature_1,
                height_2,
                digest_2,
                signature_2,
            );
            let a0 = 8 + public_key.len() as int;
            let a1 = a0 + 8;
            let a2 = a1 + digest_1.len();
            let a3 = a2 + signature_1.len();
            let a4 = a3 + 8;
            let a5 = a4 + digest_2.len();
            &&& b.len() == a5 + signature_2.len()
            &&& be_at(b, 0) == view
            &&& b.subrange(8, a0) == public_key
            &&& be_at(b, a0) == height_1
            &&& b.subrange(a1, a2) == digest_1
            &&& b.subrange(a2, a3) == signature_1
            &&& be_at(b, a3) == height_2
            &&& b.subrange(a4, a5) == digest_2
            &&& b.subrange(a5, b.len() as int) == signature_2
        }),
{
    let b = conflicting_vote_bytes(
        view,
        public_key,
        height_1,
        digest_1,
        signature_1,
        height_2,
        digest_2,
        signature_2,
    );
    let a0 = 8 + public_key.len() as int;
    let a1 = a0 + 8;
    let a2 = a1 + digest_1.len();
    let a3 = a2 + signature_1.len();
    let a4 = a3 + 8;
    let a5 = a4 + digest_2.len();
    lemma_reads_u64(b, 0, view);
    lemma_reads_u64(b, a0, height_1);
    lemma_reads_u64(b, a3, height_2);
    assert(b.subrange(8, a0) =~= public_key);
    assert(b.subrange(a1, a2) =~= digest_1);
    assert(b.subrange(a2, a3) =~= signature_1);
    assert(b.subrange(a4, a5) =~= digest_2);
    assert(b.subrange(a5, b.len() as int) =~= signature_2);
}

/// A proof of a finalization and a null vote holds, in order: the view, the
/// public key, the height, the digest, the finalization signature and last
/// the null vote signature.
pub proof fn lemma_null_finalize_layout(
    view: u64,
    public_key: Seq<u8>,
    height: u64,
    digest: Seq<u8>,
    signature_finalize: Seq<u8>,
    signature_null: Seq<u8>,
)
    ensures
        ({
            let b = null_finalize_bytes(
                view,
                public_key,
                height,
                digest,
                signature_finalize,
                signature_null,
            );
            let a0 = 8 + public_key.len() as int;
            let a1 = a0 + 8;
            let a2 = a1 + digest.len();
            let a3 = a2 + signature_finalize.len();
            &&& b.len() == a3 + signature_null.len()
            &&& be_at(b, 0) == view
            &&& b.subrange(8, a0) == public_key
            &&& be_at(b, a0) == height
            &&& b.subrange(a1, a2) == digest
            &&& b.subrange(a2, a3) == signature_finalize
            &&& b.subrange(a3, b.len() as int) == signature_null
        }),
{
    let b = null_finalize_bytes(view, public_key, height, digest, signature_finalize, signature_null);
    let a0 = 8 + public_key.len() as int;
    let a1 = a0 + 8;
    let a2 = a1 + digest.len();
    let a3 = a2 + signature_finalize.len();
    lemma_reads_u64(b, 0, view);
    lemma_reads_u64(b, a0, height);
    assert(b.subrange(8, a0) =~= public_key);
    assert(b.subrange(a1, a2) =~= digest);
    assert(b.subrange(a2, a3) =~= signature_finalize);
    assert(b.subrange(a3, b.len() as int) =~= signature_null);
}

} // verus!
