//! Fixed-size hashes, the hashing interface the MMR is built over, and its
//! SHA-256 instance.

use vstd::prelude::*;
use sha2::Digest;
use crate::be::{be_at, lemma_be_at_determines, put_u64, u64_be_bytes};

verus! {

/// A hash of `N` bytes.
#[derive(Clone, Copy, Debug, PartialEq, Eq)]
pub struct Hash<const N: usize>(pub [u8; N]);

impl<const N: usize> View for Hash<N> {
    type V = Seq<u8>;

    open spec fn view(&self) -> Seq<u8> {
        self.0@
    }
}

/// The views of a sequence of hashes.
pub open spec fn hash_views<const N: usize>(s: Seq<Hash<N>>) -> Seq<Seq<u8>> {
    s.map_values(|h: Hash<N>| h@)
}

pub proof fn lemma_hash_views_push<const N: usize>(s: Seq<Hash<N>>, h: Hash<N>)
    ensures
        hash_views(s.push(h)) == hash_views(s).push(h@),
        hash_views(s).len() == s.len(),
{
    assert(hash_views(s.push(h)) =~= hash_views(s).push(h@));
}

/// Compares two hashes byte by byte.
pub fn hash_eq<const N: usize>(a: &Hash<N>, b: &Hash<N>) -> (r: bool)
    ensures
        r == (a@ == b@),
{
    let mut i: usize = 0;
    while i < N
        invariant
            i <= N,
            a@.len() == N,
            b@.len() == N,
            forall|j: int| 0 <= j < i ==> a@[j] == b@[j],
        decreases N - i,
    {
        if a.0[i] != b.0[i] {
            assert(a@[i as int] != b@[i as int]);
            return false;
        }
        i = i + 1;
    }
    assert(a@ =~= b@);
    true
}

/// The interface the MMR uses for hashing a leaf element with its position,
/// an inner node with its position and its two children, and the root from
/// the MMR's size and its peaks.
///
/// An implementation computes each hash as a function of its inputs alone,
/// the functions named here.
pub trait Hasher<const N: usize> {
    /// The hash of the leaf at `pos` holding `element`.
    spec fn leaf_spec(pos: u64, element: Seq<u8>) -> Seq<u8>;

    /// The hash of the inner node at `pos` with children `left` and `right`.
    spec fn node_spec(pos: u64, left: Seq<u8>, right: Seq<u8>) -> Seq<u8>;

    /// The root hash of an MMR of `size` nodes with peak hashes `peaks`.
    spec fn root_spec(size: u64, peaks: Seq<Seq<u8>>) -> Seq<u8>;

    fn leaf_hash(&mut self, pos: u64, element: &Hash<N>) -> (out: Hash<N>)
        ensures
            out@ == Self::leaf_spec(pos, element@),
    ;

    fn node_hash(&mut self, pos: u64, left: &Hash<N>, right: &Hash<N>) -> (out: Hash<N>)
        ensures
            out@ == Self::node_spec(pos, left@, right@),
    ;

    fn root_hash(&mut self, size: u64, peaks: &Vec<Hash<N>>) -> (out: Hash<N>)
        ensures
            out@ == Self::root_spec(size, hash_views(peaks@)),
    ;
}

/// The SHA-256 digest of `data`.
pub uninterp spec fn sha256(data: Seq<u8>) -> Seq<u8>;

/// Calls `sha2::Sha256::digest` on `data`; the contract claims that the
/// result is the SHA-256 digest of `data`, a function of `data` alone.
#[verifier::external_body]
fn sha256_digest(data: &[u8]) -> (out: [u8; 32])
    ensures
        out@ == sha256(data@),
{
    sha2::Sha256::digest(data).into()
}

/// The concatenation of the views of `hs`.
pub open spec fn concat_views(hs: Seq<Seq<u8>>) -> Seq<u8>
    decreases hs.len(),
{
    if hs.len() == 0 {
        Seq::empty()
    } else {
        concat_views(hs.drop_last()) + hs.last()
    }
}

/// Hashes with SHA-256 the big-endian position (or size) followed by the
/// input hashes.
pub struct Sha256Hasher {}

impl Sha256Hasher {
    pub fn new() -> (h: Self) {
        Sha256Hasher {  }
    }
}

impl Default for Sha256Hasher {
    fn default() -> (h: Self) {
        Sha256Hasher {  }
    }
}

impl Hasher<32> for Sha256Hasher {
    open spec fn leaf_spec(pos: u64, element: Seq<u8>) -> Seq<u8> {
        sha256(u64_be_bytes(pos) + element)
    }

    open spec fn node_spec(pos: u64, left: Seq<u8>, right: Seq<u8>) -> Seq<u8> {
        sha256(u64_be_bytes(pos) + left + right)
    }

    open spec fn root_spec(size: u64, peaks: Seq<Seq<u8>>) -> Seq<u8> {
        sha256(u64_be_bytes(size) + concat_views(peaks))
    }

    fn leaf_hash(&mut self, pos: u64, element: &Hash<32>) -> (out: Hash<32>) {
        let mut data: Vec<u8> = Vec::new();
        put_u64(&mut data, pos);
        append_hash(&mut data, element);
        Hash(sha256_digest(data.as_slice()))
    }

    fn node_hash(&mut self, pos: u64, left: &Hash<32>, right: &Hash<32>) -> (out: Hash<32>) {
        let mut data: Vec<u8> = Vec::new();
        put_u64(&mut data, pos);
        append_hash(&mut data, left);
        append_hash(&mut data, right);
        Hash(sha256_digest(data.as_slice()))
    }

    fn root_hash(&mut self, size: u64, peaks: &Vec<Hash<32>>) -> (out: Hash<32>) {
        let mut data: Vec<u8> = Vec::new();
        put_u64(&mut data, size);
        let ghost start = data@;
        let mut i: usize = 0;
        while i < peaks.len()
            invariant
                i <= peaks.len(),
                data@ == start + concat_views(hash_views(peaks@.subrange(0, i as int))),
            decreases peaks.len() - i,
        {
            let ghost before = data@;
            append_hash(&mut data, &peaks[i]);
            proof {
                let prefix = hash_views(peaks@.subrange(0, i + 1));
                assert(prefix.drop_last() =~= hash_views(peaks@.subrange(0, i as int)));
                assert(prefix.last() == peaks@[i as int]@);
            }
            i = i + 1;
        }
        assert(peaks@.subrange(0, peaks@.len() as int) =~= peaks@);
        Hash(sha256_digest(data.as_slice()))
    }
}

/// Appends the bytes of `h` to `buf`.
pub fn append_hash<const N: usize>(buf: &mut Vec<u8>, h: &Hash<N>)
    ensures
        final(buf)@ == old(buf)@ + h@,
{
    let mut i: usize = 0;
    while i < N
        invariant
            i <= N,
            h@.len() == N,
            buf@ == old(buf)@ + h@.subrange(0, i as int),
        decreases N - i,
    {
        buf.push(h.0[i]);
        assert(h@.subrange(0, i + 1) =~= h@.subrange(0, i as int).push(h@[i as int]));
        i = i + 1;
    }
    assert(h@.subrange(0, N as int) =~= h@);
}

/// The eight first bytes of `pre` are the big-endian encoding of `x`.
proof fn lemma_prefix_encodes(pre: Seq<u8>, x: u64)
    requires
        pre.len() >= 8,
        be_at(pre, 0) == x,
    ensures
        pre.subrange(0, 8) == u64_be_bytes(x),
{
    let b = pre.subrange(0, 8);
    assert(be_at(b, 0) == be_at(pre, 0));
    lemma_be_at_determines(b, x);
}

/// The concatenation of 32-byte hashes holds byte `b` of hash `j` at
/// `32 * j + b`.
pub proof fn lemma_concat_views_index(hs: Seq<Seq<u8>>)
    requires
        forall|j: int| 0 <= j < hs.len() ==> #[trigger] hs[j].len() == 32,
    ensures
        concat_views(hs).len() == 32 * hs.len(),
        forall|j: int, b: int|
            0 <= j < hs.len() && 0 <= b < 32 ==> concat_views(hs)[32 * j + b] == #[trigger] hs[j][b],
    decreases hs.len(),
{
    if hs.len() > 0 {
        let init = hs.drop_last();
        assert forall|j: int| 0 <= j < init.len() implies #[trigger] init[j].len() == 32 by {
            assert(init[j] == hs[j]);
        }
        lemma_concat_views_index(init);
        let n = hs.len() as int;
        assert forall|j: int, b: int| 0 <= j < hs.len() && 0 <= b < 32 implies concat_views(hs)[32 * j
            + b] == #[trigger] hs[j][b] by {
            if j < n - 1 {
                assert(32 * j + b < 32 * (n - 1)) by (nonlinear_arith)
                    requires
                        j < n - 1,
                        b < 32,
                ;
                assert(init[j] == hs[j]);
            } else {
                assert(32 * j + b - 32 * (n - 1) == b);
                assert(32 * j + b >= 32 * (n - 1));
            }
        }
    }
}

/// For the SHA-256 hasher, a leaf's hash is the SHA-256 digest of the eight
/// big-endian bytes of its position followed by every byte of its element.
pub proof fn lemma_sha256_leaf_preimage(pos: u64, element: Seq<u8>, pre: Seq<u8>)
    requires
        pre.len() == 8 + element.len(),
        be_at(pre, 0) == pos,
        forall|j: int| 0 <= j < element.len() ==> pre[8 + j] == #[trigger] element[j],
    ensures
        Sha256Hasher::leaf_spec(pos, element) == sha256(pre),
{
    lemma_prefix_encodes(pre, pos);
    assert(pre =~= u64_be_bytes(pos) + element) by {
        assert forall|i: int| 8 <= i < pre.len() implies pre[i] == element[i - 8] by {
            assert(element[i - 8] == pre[8 + (i - 8)]);
        }
        assert forall|i: int| 0 <= i < 8 implies pre[i] == u64_be_bytes(pos)[i] by {
            assert(pre.subrange(0, 8)[i] == pre[i]);
        }
    }
}

/// For the SHA-256 hasher, an inner node's hash is the SHA-256 digest of the
/// eight big-endian bytes of its position followed by every byte of its left
/// child's hash, then every byte of its right child's hash.
pub proof fn lemma_sha256_node_preimage(pos: u64, left: Seq<u8>, right: Seq<u8>, pre: Seq<u8>)
    requires
        pre.len() == 8 + left.len() + right.len(),
        be_at(pre, 0) == pos,
        forall|j: int| 0 <= j < left.len() ==> pre[8 + j] == #[trigger] left[j],
        forall|j: int| 0 <= j < right.len() ==> pre[8 + left.len() + j] == #[trigger] right[j],
    ensures
        Sha256Hasher::node_spec(pos, left, right) == sha256(pre),
{
    lemma_prefix_encodes(pre, pos);
    let ll = left.len() as int;
    assert(pre =~= u64_be_bytes(pos) + left + right) by {
        assert forall|i: int| 0 <= i < 8 implies pre[i] == u64_be_bytes(pos)[i] by {
            assert(pre.subrange(0, 8)[i] == pre[i]);
        }
        assert forall|i: int| 8 <= i < 8 + ll implies pre[i] == left[i - 8] by {
            assert(left[i - 8] == pre[8 + (i - 8)]);
        }
        assert forall|i: int| 8 + ll <= i < pre.len() implies pre[i] == right[i - 8 - ll] by {
            assert(right[i - 8 - ll] == pre[8 + ll + (i - 8 - ll)]);
        }
    }
}

/// For the SHA-256 hasher, the root of an MMR of `size` nodes is the SHA-256
/// digest of the eight big-endian bytes of the size (the number of nodes, not
/// of peaks) followed by the bytes of every peak hash, tallest peak first.
pub proof fn lemma_sha256_root_preimage(size: u64, peaks: Seq<Seq<u8>>, pre: Seq<u8>)
    requires
        forall|j: int| 0 <= j < peaks.len() ==> #[trigger] peaks[j].len() == 32,
        pre.len() == 8 + 32 * peaks.len(),
        be_at(pre, 0) == size,
        forall|j: int, b: int|
            0 <= j < peaks.len() && 0 <= b < 32 ==> pre[8 + 32 * j + b] == #[trigger] peaks[j][b],
    ensures
        Sha256Hasher::root_spec(size, peaks) == sha256(pre),
{
    lemma_prefix_encodes(pre, size);
    lemma_concat_views_index(peaks);
    let c = concat_views(peaks);
    assert(pre =~= u64_be_bytes(size) + c) by {
        assert forall|i: int| 0 <= i < 8 implies pre[i] == u64_be_bytes(size)[i] by {
            assert(pre.subrange(0, 8)[i] == pre[i]);
        }
        assert forall|i: int| 8 <= i < pre.len() implies pre[i] == c[i - 8] by {
            let k = i - 8;
            let j = k / 32;
            let b = k % 32;
            assert(k == 32 * j + b && 0 <= b < 32 && 0 <= j < peaks.len()) by (nonlinear_arith)
                requires
                    0 <= k < 32 * peaks.len(),
                    j == k / 32,
                    b == k % 32,
            ;
            assert(peaks[j][b] == c[32 * j + b]);
            assert(peaks[j][b] == pre[8 + 32 * j + b]);
        }
    }
}

} // verus!
