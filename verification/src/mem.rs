//! A bare-bones MMR without pruning, all of whose nodes are hashes kept in
//! memory, and the verification of its inclusion proofs.
//!
//! An MMR is a list of perfect binary trees of strictly decreasing height,
//! ordered from left to right; their roots are its peaks. Each element is a
//! leaf of one of these trees. The position of a node is its index in the
//! post-order layout of the trees, tallest first; positions never change as
//! elements are appended. The height of a leaf is 0. The root hash is the
//! hash of the size together with the peak hashes in decreasing order of
//! height.

use vstd::prelude::*;
use vstd::arithmetic::power2::{pow2, lemma_pow2_unfold, lemma_pow2_pos};
use crate::bits::{lemma_shl_pow2, lemma_shr1, lemma_trailing_zeros_shl, lemma_width_mask};
use crate::hash::{Hasher, hash_eq, hash_views, lemma_hash_views_push};
use crate::model::{
    added_hashes, hashes_at, lemma_add_leaves, lemma_add_wf, lemma_merge_hashes,
    lemma_merge_siblings, merge_hashes, merge_siblings, mmr_root, mmr_wf, peak_hashes,
    proof_hashes, proof_verifies, rebuild,
};
use crate::layout::{
    first_peak, height_run, is_leaf, lemma_first_peak, lemma_peaks_count,
    merging_peaks, heights_of, lemma_path_entry, lemma_path_len, lemma_valid_size_layout,
    path_node, lemma_ok_step, lemma_scan_skip, lemma_tree_size_step, path, peaks, peaks_from, peaks_ok,
    step_ok, top_height, tree_size, valid_size,
};

verus! {

/// Returns the peaks of an MMR as (position, height), in decreasing order of
/// height, one per call of `next`. It only returns the peaks that existed when
/// it was made.
pub struct PeakIterator {
    sz: u64,
    node_pos: u64,
    two_h: u64,
    height: Ghost<int>,
}

impl PeakIterator {
    /// Where the scan stands: the start of the part not yet covered.
    pub closed spec fn offset(&self) -> int {
        self.node_pos + 2 - self.two_h
    }

    pub closed spec fn inv(&self) -> bool {
        ||| self.two_h == 0
        ||| {
            &&& 0 < self.sz < pow2(63)
            &&& -1 <= self.height@ <= top_height()
            &&& self.two_h == pow2((self.height@ + 1) as nat)
            &&& 0 <= self.offset() <= self.sz
        }
    }

    /// The peaks still to be returned.
    pub closed spec fn remaining(&self) -> Seq<(u64, u32)> {
        if self.two_h <= 1 {
            Seq::empty()
        } else {
            peaks_from(self.offset(), self.sz as int, self.height@)
        }
    }

    /// Returning the remaining peaks meets no fault.
    pub closed spec fn rest_ok(&self) -> bool {
        self.two_h <= 1 || peaks_ok(self.offset(), self.sz as int, self.height@)
    }

    /// Returning the next peak meets no fault.
    pub closed spec fn next_ok(&self) -> bool {
        self.two_h <= 1 || step_ok(self.offset(), self.sz as int, self.height@)
    }

    pub proof fn lemma_rest_ok_next_ok(&self)
        requires
            self.inv(),
            self.rest_ok(),
        ensures
            self.next_ok(),
    {
        if self.two_h > 1 {
            lemma_ok_step(self.offset(), self.sz as int, self.height@);
        }
    }

    /// Returns the next peak as (position, height), or `None` once all have
    /// been returned.
    pub fn next(&mut self) -> (r: Option<(u64, u32)>)
        requires
            old(self).inv(),
            old(self).next_ok(),
        ensures
            final(self).inv(),
            old(self).remaining().len() == 0 ==> r is None && final(self).remaining().len() == 0,
            old(self).remaining().len() > 0 ==> r == Some(old(self).remaining()[0])
                && final(self).remaining() == old(self).remaining().drop_first(),
            old(self).rest_ok() ==> final(self).rest_ok(),
    {
        let ghost rem = self.remaining();
        let ghost was_ok = self.rest_ok();
        while self.two_h > 1
            invariant
                self.inv(),
                self.next_ok(),
                self.remaining() == rem,
                rem == old(self).remaining(),
                was_ok == old(self).rest_ok(),
                was_ok ==> self.rest_ok(),
            decreases self.two_h,
        {
            let ghost o = self.offset();
            let ghost h = self.height@;
            let ghost sz = self.sz as int;
            proof {
                vstd::arithmetic::power2::lemma2_to64();
                vstd::arithmetic::power2::lemma2_to64_rest();
                assert(h >= 0);
                lemma_tree_size_step(h);
            }
            if self.node_pos < self.sz {
                // found a peak
                proof {
                    lemma_shl_pow2((h + 1) as u64);
                    lemma_trailing_zeros_shl((h + 1) as u64);
                }
                let peak_item = (self.node_pos, self.two_h.trailing_zeros() - 1);
                // move to the right sibling, which is not in the MMR
                self.node_pos = self.node_pos + (self.two_h - 1);
                proof {
                    assert(o + tree_size(h) <= sz);
                    assert(self.offset() == o + tree_size(h));
                    assert(self.node_pos >= self.sz);
                    assert(rem == seq![peak_item] + peaks_from(o + tree_size(h), sz, h - 1));
                    lemma_scan_skip(o + tree_size(h), sz, h, h - 1);
                    assert(self.remaining() =~= rem.drop_first());
                }
                return Some(peak_item);
            }
            // descend to the left child
            let ghost th = self.two_h;
            self.two_h = self.two_h >> 1;
            proof {
                lemma_shr1(th);
                lemma_pow2_unfold((h + 1) as nat);
                lemma_pow2_pos(h as nat);
                if h > 0 {
                    lemma_pow2_unfold(h as nat);
                    lemma_pow2_pos((h - 1) as nat);
                }
            }
            self.node_pos = self.node_pos - self.two_h;
            self.height = Ghost(h - 1);
            proof {
                assert(!(o + tree_size(h) <= sz));
                assert(self.offset() == o);
                assert(peaks_from(o, sz, h) == peaks_from(o, sz, h - 1));
            }
        }
        None
    }
}

/// Returns a new `PeakIterator` over the peaks of an MMR with `sz` nodes.
pub fn peak_iterator(sz: u64) -> (it: PeakIterator)
    requires
        sz < 0x8000_0000_0000_0000,
    ensures
        it.inv(),
        it.remaining() == peaks(sz as int),
        it.rest_ok() == valid_size(sz as int),
{
    proof {
        vstd::arithmetic::power2::lemma2_to64();
        vstd::arithmetic::power2::lemma2_to64_rest();
    }
    if sz == 0 {
        proof {
            lemma_tree_size_step(0);
            lemma_scan_skip(0, 0, top_height(), -1);
        }
        return PeakIterator { sz: 0, node_pos: 0, two_h: 0, height: Ghost(-1) };
    }
    // The search for peaks starts at the peak of the smallest perfect tree
    // holding at least `sz` nodes, and descends leftward to the first peak.
    let start = u64::MAX >> sz.leading_zeros();
    proof {
        lemma_width_mask(sz);
    }
    let t = start.trailing_ones();
    proof {
        lemma_shl_pow2(t as u64);
    }
    let two_h = 1u64 << t;
    let ghost h = t - 1;
    proof {
        lemma_pow2_unfold(t as nat + 1);
        lemma_scan_skip(0, sz as int, top_height(), h);
    }
    PeakIterator { sz, node_pos: start - 1, two_h, height: Ghost(h) }
}


/// An inclusion proof: the size of the MMR it was made for and its hashes.
#[derive(Clone)]
pub struct Proof<const N: usize> {
    pub sz: u64,
    pub hashes: Vec<crate::hash::Hash<N>>,
}

/// Returns, for the sibling of each node on the path from a perfect tree's
/// peak down to a designated leaf (the peak itself excluded), whether that
/// sibling is the left child of its parent, and its position.
///
/// For example, for the tree below, the path from the peak to leaf node 3
/// gives `[(true, 2), (false, 4)]`.
///
/// ```text
///          6
///        /   \
///       2     5
///      / \   / \
///     0   1 3   4
/// ```
pub struct PathIterator {
    leaf_pos: u64,
    node_pos: u64,
    two_h: u64,
    height: Ghost<nat>,
}

impl PathIterator {
    pub closed spec fn inv(&self) -> bool {
        &&& self.height@ <= 63
        &&& self.two_h == pow2(self.height@)
    }

    /// The tree below the current node lies at positions from 0 on.
    pub closed spec fn fits(&self) -> bool {
        self.node_pos + 1 >= tree_size(self.height@ as int)
    }

    /// The siblings still to be returned.
    pub closed spec fn remaining(&self) -> Seq<(bool, u64)> {
        path(self.leaf_pos as int, self.node_pos as int, self.height@)
    }

    pub fn next(&mut self) -> (r: Option<(bool, u64)>)
        requires
            old(self).inv(),
            old(self).fits(),
        ensures
            final(self).inv(),
            final(self).fits(),
            old(self).remaining().len() == 0 ==> r is None && final(self).remaining().len() == 0,
            old(self).remaining().len() > 0 ==> r == Some(old(self).remaining()[0])
                && final(self).remaining() == old(self).remaining().drop_first(),
    {
        let ghost h = self.height@;
        proof {
            vstd::arithmetic::power2::lemma2_to64();
            vstd::arithmetic::power2::lemma2_to64_rest();
        }
        if self.two_h <= 1 {
            return None;
        }
        proof {
            lemma_tree_size_step(h as int);
            lemma_pow2_unfold(h + 1);
            lemma_pow2_unfold(h);
            lemma_pow2_pos((h - 1) as nat);
        }
        let left_pos = self.node_pos - self.two_h;
        let right_pos = left_pos + self.two_h - 1;
        let ghost th = self.two_h;
        self.two_h = self.two_h >> 1;
        proof {
            lemma_shr1(th);
        }
        self.height = Ghost((h - 1) as nat);
        if left_pos < self.leaf_pos {
            self.node_pos = right_pos;
            return Some((true, left_pos));
        }
        self.node_pos = left_pos;
        Some((false, right_pos))
    }
}

/// Returns a `PathIterator` over the siblings of the nodes on the path from
/// the peak `peak_pos` of height `height` down to `leaf_pos`.
fn path_iterator(leaf_pos: u64, peak_pos: u64, height: u32) -> (it: PathIterator)
    requires
        height < 64,
    ensures
        it.inv(),
        it.fits() == (peak_pos + 1 >= tree_size(height as int)),
        it.remaining() == path(leaf_pos as int, peak_pos as int, height as nat),
{
    proof {
        lemma_shl_pow2(height as u64);
    }
    PathIterator { leaf_pos, node_pos: peak_pos, two_h: 1u64 << height, height: Ghost(height as nat) }
}

/// Computes the hash of the peak `peak_pos` of height `height` from the
/// element at `element_pos` and the sibling hashes on the path from the leaf
/// up to the peak, taken from the end of `hashes`; fails when `hashes` holds
/// too few.
fn reconstruct_peak_hash<const N: usize, H: Hasher<N>>(
    peak_pos: u64,
    height: u32,
    element: &crate::hash::Hash<N>,
    element_pos: u64,
    hashes: &Vec<crate::hash::Hash<N>>,
    hasher: &mut H,
) -> (r: Result<crate::hash::Hash<N>, ()>)
    requires
        height <= top_height(),
        peak_pos + 1 >= tree_size(height as int),
    ensures
        r is Err <==> hashes@.len() < height,
        r matches Ok(h) ==> h@ == rebuild::<N, H>(
            element_pos as int,
            peak_pos as int,
            height as nat,
            hash_views(hashes@).subrange(hashes@.len() - height, hashes@.len() as int),
            H::leaf_spec(element_pos, element@),
        ),
{
    let ghost g = height as nat;
    let ghost views = hash_views(hashes@);
    let ghost lh = H::leaf_spec(element_pos, element@);
    let mut hash = hasher.leaf_hash(element_pos, element);
    let mut it = path_iterator(element_pos, peak_pos, height);
    let mut path_vec: Vec<(bool, u64)> = Vec::new();
    let ghost full = path(element_pos as int, peak_pos as int, g);
    proof {
        lemma_path_len(element_pos as int, peak_pos as int, g);
    }
    loop
        invariant
            it.inv(),
            it.fits(),
            full.len() == g,
            path_vec@ + it.remaining() == full,
        ensures
            path_vec@ == full,
        decreases it.remaining().len(),
    {
        let ghost before = it.remaining();
        match it.next() {
            None => {
                assert(path_vec@ =~= full);
                break;
            },
            Some(entry) => {
                path_vec.push(entry);
                assert(path_vec@ + it.remaining() =~= full) by {
                    assert(before == seq![entry] + before.drop_first());
                }
            },
        }
    }
    let n = hashes.len();
    let mut two_h: u64 = 2;
    let mut i: usize = 0;
    proof {
        vstd::arithmetic::power2::lemma2_to64();
        vstd::arithmetic::power2::lemma2_to64_rest();
        assert(views.subrange(n as int, n as int) =~= Seq::<Seq<u8>>::empty());
    }
    while i < path_vec.len()
        invariant
            path_vec@ == full,
            full == path(element_pos as int, peak_pos as int, g),
            lh == H::leaf_spec(element_pos, element@),
            full.len() == g,
            g <= top_height(),
            peak_pos + 1 >= tree_size(g as int),
            n == hashes@.len(),
            views == hash_views(hashes@),
            g == height as nat,
            i <= g,
            i <= n,
            two_h == pow2((i + 1) as nat),
            hash@ == rebuild::<N, H>(
                element_pos as int,
                path_node(element_pos as int, peak_pos as int, g, (g - i) as nat),
                i as nat,
                views.subrange(n - i, n as int),
                lh,
            ),
        decreases g - i,
    {
        let ghost d = (g - 1 - i) as nat;
        let ghost q = path_node(element_pos as int, peak_pos as int, g, d);
        let ghost l = q - pow2((i + 1) as nat);
        proof {
            vstd::arithmetic::power2::lemma2_to64();
            lemma_pow2_pos((i + 1) as nat);
            lemma_path_entry(element_pos as int, peak_pos as int, g, d);
        }
        let (is_left, pos) = path_vec[path_vec.len() - 1 - i];
        proof {
            assert((is_left, pos) == full[d as int]);
            assert(q <= peak_pos);
            if l < element_pos {
                assert(is_left && pos == l);
            } else {
                assert(!is_left && pos == q - 1);
            }
        }
        if i >= n {
            return Err(());
        }
        let proof_hash = &hashes[n - 1 - i];
        let ghost sub = views.subrange(n - 1 - i, n as int);
        proof {
            assert(sub.drop_first() =~= views.subrange(n - i, n as int));
            assert(sub[0] == proof_hash@);
        }
        hash = if is_left {
            hasher.node_hash(pos + two_h, proof_hash, &hash)
        } else {
            hasher.node_hash(pos + 1, &hash, proof_hash)
        };
        proof {
            assert(hash@ == rebuild::<N, H>(element_pos as int, q, (i + 1) as nat, sub, lh));
            lemma_shl_pow2((i + 2) as u64);
            lemma_pow2_unfold((i + 2) as nat);
        }
        two_h = two_h << 1;
        proof {
            lemma_shl_pow2(1);
            vstd::bits::lemma_u64_shl_is_mul(pow2((i + 1) as nat) as u64, 1);
        }
        i = i + 1;
    }
    Ok(hash)
}

/// Returns whether `sz` is the number of nodes of some MMR: a sequence of
/// perfect trees of strictly decreasing height.
pub fn is_valid_size(sz: u64) -> (r: bool)
    ensures
        r == valid_size(sz as int),
{
    proof {
        vstd::arithmetic::power2::lemma2_to64();
        vstd::arithmetic::power2::lemma2_to64_rest();
    }
    if sz >= 0x8000_0000_0000_0000 {
        return false;
    }
    let mut offset: u64 = 0;
    let mut h: u64 = 63;
    while h > 0
        invariant
            0 < sz + 1 <= 0x8000_0000_0000_0000,
            h <= 63,
            offset <= sz,
            peaks_ok(0, sz as int, top_height()) == peaks_ok(offset as int, sz as int, h - 1),
        decreases h,
    {
        h = h - 1;
        proof {
            lemma_shl_pow2((h + 1) as u64);
            lemma_tree_size_step(h as int);
        }
        // the size of a perfect tree of height `h`
        let size = (1u64 << (h + 1)) - 1;
        if size <= sz - offset {
            if sz - offset - size >= size {
                // a second tree of the same height would follow
                assert(!peaks_ok(offset as int, sz as int, h as int));
                return false;
            }
            offset = offset + size;
        }
    }
    offset == sz
}

/// Returns whether `proof` proves that `element` is at position
/// `element_pos` within the MMR with root hash `root_hash`.
pub fn verify_proof<const N: usize, H: Hasher<N>>(
    proof: &Proof<N>,
    element: &crate::hash::Hash<N>,
    element_pos: u64,
    root_hash: &crate::hash::Hash<N>,
    hasher: &mut H,
) -> (r: bool)
    ensures
        (proof.sz == 0 || !valid_size(proof.sz as int)) ==> !r,
        r == proof_verifies::<N, H>(
            proof.sz,
            hash_views(proof.hashes@),
            element@,
            element_pos,
            root_hash@,
        ),
{
    // No MMR of this size exists, so nothing is proven.
    if proof.sz == 0 || !is_valid_size(proof.sz) {
        return false;
    }
    let ghost sz = proof.sz as int;
    let ghost pk = peaks(sz);
    let ghost m = pk.len() as int;
    let ghost k = first_peak(pk, element_pos as int);
    let ghost views = hash_views(proof.hashes@);
    let ghost nh = proof.hashes@.len() as int;
    proof {
        lemma_valid_size_layout(sz);
        lemma_first_peak(pk, element_pos as int);
        vstd::arithmetic::power2::lemma2_to64();
        vstd::arithmetic::power2::lemma2_to64_rest();
    }
    let ghost rebuilt = if k < m {
        rebuild::<N, H>(
            element_pos as int,
            pk[k].0 as int,
            pk[k].1 as nat,
            views.subrange(nh - pk[k].1, nh),
            H::leaf_spec(element_pos, element@),
        )
    } else {
        Seq::empty()
    };
    let mut peak_hashes: Vec<crate::hash::Hash<N>> = Vec::new();
    let mut front: usize = 0;
    let mut missing_peak_height = u32::MAX;
    let mut it = peak_iterator(proof.sz);
    let ghost mut idx: int = 0;
    loop
        invariant
            sz == proof.sz,
            valid_size(sz),
            pk == peaks(sz),
            m == pk.len(),
            0 < m,
            k == first_peak(pk, element_pos as int),
            0 <= k <= m,
            k < m ==> pk[k].0 >= element_pos,
            forall|j: int| 0 <= j < k ==> #[trigger] pk[j].0 < element_pos,
            forall|j: int| 0 <= j < m ==> #[trigger] pk[j].1 <= top_height(),
            forall|j: int| 0 <= j < m ==> tree_size(#[trigger] pk[j].1 as int) - 1 <= pk[j].0,
            views == hash_views(proof.hashes@),
            nh == proof.hashes@.len(),
            k < m ==> rebuilt == rebuild::<N, H>(
                element_pos as int,
                pk[k].0 as int,
                pk[k].1 as nat,
                views.subrange(nh - pk[k].1, nh),
                H::leaf_spec(element_pos, element@),
            ),
            it.inv(),
            it.rest_ok(),
            it.remaining() == pk.subrange(idx, m),
            0 <= idx <= m,
            idx > k ==> missing_peak_height == pk[k].1,
            idx <= k ==> missing_peak_height == u32::MAX,
            front == (if idx > k {
                idx - 1
            } else {
                idx
            }),
            front <= nh,
            hash_views(peak_hashes@) == (if idx > k {
                views.subrange(0, k) + seq![rebuilt] + views.subrange(k, front as int)
            } else {
                views.subrange(0, front as int)
            }),
        ensures
            idx == m,
            0 <= k <= m,
            idx > k ==> missing_peak_height == pk[k].1,
            idx <= k ==> missing_peak_height == u32::MAX,
            front == (if idx > k {
                idx - 1
            } else {
                idx
            }),
            hash_views(peak_hashes@) == (if idx > k {
                views.subrange(0, k) + seq![rebuilt] + views.subrange(k, front as int)
            } else {
                views.subrange(0, front as int)
            }),
        decreases m - idx,
    {
        proof {
            it.lemma_rest_ok_next_ok();
        }
        let ghost before = it.remaining();
        let next = it.next();
        match next {
            None => {
                assert(idx == m) by {
                    if idx < m {
                        assert(pk.subrange(idx, m).len() > 0);
                    }
                }
                break;
            },
            Some(item) => {
                let (peak_pos, height) = item;
                assert(item == pk[idx]);
                let ghost old_views = hash_views(peak_hashes@);
                if missing_peak_height == u32::MAX && peak_pos >= element_pos {
                    // The peak of the tree whose hash must be rebuilt.
                    assert(idx == k);
                    missing_peak_height = height;
                    match reconstruct_peak_hash(
                        peak_pos,
                        height,
                        element,
                        element_pos,
                        &proof.hashes,
                        hasher,
                    ) {
                        Ok(peak_hash) => {
                            peak_hashes.push(peak_hash);
                            assert(hash_views(peak_hashes@) =~= old_views.push(rebuilt));
                            assert(views.subrange(0, k) + seq![rebuilt] + views.subrange(
                                k,
                                front as int,
                            ) =~= old_views.push(rebuilt));
                        },
                        Err(_) => {
                            return false;
                        },
                    }
                } else if front < proof.hashes.len() {
                    assert(idx != k);
                    peak_hashes.push(proof.hashes[front]);
                    assert(hash_views(peak_hashes@) =~= old_views.push(views[front as int]));
                    front = front + 1;
                    proof {
                    if idx > k {
                        assert(views.subrange(k, front as int) =~= views.subrange(
                            k,
                            front - 1,
                        ).push(views[front - 1]));
                    } else {
                        assert(views.subrange(0, front as int) =~= views.subrange(
                            0,
                            front - 1,
                        ).push(views[front - 1]));
                    }
                    }
                } else {
                    return false;
                }
                proof {
                    idx = idx + 1;
                    assert(it.remaining() =~= pk.subrange(idx, m));
                }
            },
        }
    }
    proof {
        lemma_peaks_count(sz);
        assert(peak_hashes@.len() == hash_views(peak_hashes@).len());
        assert(peak_hashes@.len() == m);
    }
    // No peak lies at or after the position, so it holds no element.
    if missing_peak_height == u32::MAX {
        return false;
    }
    // To prevent proof malleability, every proof hash must have been used.
    let expected = (peak_hashes.len() - 1) as u64 + missing_peak_height as u64;
    if proof.hashes.len() as u64 != expected {
        return false;
    }
    let computed = hasher.root_hash(proof.sz, &peak_hashes);
    assert(k < m ==> views.subrange(k, front as int) == views.subrange(k, m - 1));
    hash_eq(root_hash, &computed)
}


/// An MMR whose nodes are all hashes kept in memory, laid out in post-order
/// of its trees, tallest tree first.
pub struct InMemoryMMR<const N: usize, H: Hasher<N>> {
    hasher: H,
    nodes: Vec<crate::hash::Hash<N>>,
}

impl<const N: usize, H: Hasher<N>> View for InMemoryMMR<N, H> {
    type V = Seq<Seq<u8>>;

    /// The node hashes, by position.
    closed spec fn view(&self) -> Seq<Seq<u8>> {
        hash_views(self.nodes@)
    }
}

impl<const N: usize, H: Hasher<N>> InMemoryMMR<N, H> {
    /// The node hashes form an MMR over `H`.
    pub open spec fn wf(&self) -> bool {
        mmr_wf::<N, H>(self@)
    }

    /// Returns a new, empty MMR.
    pub fn new(hasher: H) -> (r: Self)
        ensures
            r@ == Seq::<Seq<u8>>::empty(),
            r.wf(),
    {
        let r = Self { hasher, nodes: Vec::new() };
        proof {
            lemma_tree_size_step(0);
            lemma_scan_skip(0, 0, top_height(), -1);
            vstd::arithmetic::power2::lemma2_to64_rest();
            assert(r@ =~= Seq::<Seq<u8>>::empty());
        }
        r
    }

    /// The node hashes, by position.
    pub fn nodes(&self) -> (r: &[crate::hash::Hash<N>])
        ensures
            hash_views(r@) == self@,
    {
        self.nodes.as_slice()
    }

    /// Returns a new iterator over the peaks of the MMR.
    pub fn peak_iterator(&self) -> (it: PeakIterator)
        requires
            self.wf(),
        ensures
            it.inv(),
            it.rest_ok(),
            it.remaining() == peaks(self@.len() as int),
    {
        proof {
            vstd::arithmetic::power2::lemma2_to64_rest();
        }
        peak_iterator(self.nodes.len() as u64)
    }

    /// Returns the positions of the peaks that will need a new parent after
    /// the next leaf is added. There are some only if there is a leaf peak:
    /// then they are that leaf peak and the peaks of contiguously increasing
    /// height before it, ordered by decreasing height.
    pub fn nodes_needing_parents(&self) -> (r: Vec<u64>)
        requires
            self.wf(),
        ensures
            r@ == merging_peaks(peaks(self@.len() as int)).map_values(|p: (u64, u32)| p.0),
    {
        let ghost sz = self@.len() as int;
        let ghost pk = peaks(sz);
        let ghost m = pk.len() as int;
        proof {
            lemma_valid_size_layout(sz);
            assert forall|i: int, j: int| 0 <= i < j < pk.len() implies pk[i].1 > pk[j].1 by {
                assert(heights_of(pk)[i] > heights_of(pk)[j]);
            }
        }
        let mut result: Vec<u64> = Vec::new();
        let mut last_height = u32::MAX;
        let mut it = self.peak_iterator();
        let ghost mut idx: int = 0;
        loop
            invariant
                pk == peaks(sz),
                m == pk.len(),
                strictly_decreasing_peaks(pk),
                forall|j: int| 0 <= j < m ==> #[trigger] pk[j].1 <= top_height(),
                it.inv(),
                it.rest_ok(),
                it.remaining() == pk.subrange(idx, m),
                0 <= idx <= m,
                idx == 0 ==> last_height == u32::MAX,
                idx > 0 ==> last_height == pk[idx - 1].1,
                result@ == height_run(pk, idx).map_values(|p: (u64, u32)| p.0),
            ensures
                idx == m,
                idx == 0 ==> last_height == u32::MAX,
                idx > 0 ==> last_height == pk[idx - 1].1,
                result@ == height_run(pk, idx).map_values(|p: (u64, u32)| p.0),
            decreases m - idx,
        {
            proof {
                it.lemma_rest_ok_next_ok();
            }
            match it.next() {
                None => {
                    assert(idx == m) by {
                        if idx < m {
                            assert(pk.subrange(idx, m).len() > 0);
                        }
                    }
                    break;
                },
                Some(item) => {
                    let (peak_pos, height) = item;
                    assert(item == pk[idx]);
                    proof {
                        if idx > 0 {
                            assert(pk[idx - 1].1 > pk[idx].1);
                        }
                    }
                    if height != last_height - 1 {
                        result = Vec::new();
                    }
                    let ghost before = result@;
                    result.push(peak_pos);
                    last_height = height;
                    proof {
                        let run = height_run(pk, idx + 1);
                        if idx >= 1 && pk[idx].1 + 1 == pk[idx - 1].1 {
                            assert(run == height_run(pk, idx).push(pk[idx]));
                        } else {
                            assert(run == seq![pk[idx]]);
                            assert(before =~= Seq::<u64>::empty());
                        }
                        assert(result@ =~= run.map_values(|p: (u64, u32)| p.0));
                        idx = idx + 1;
                        assert(it.remaining() =~= pk.subrange(idx, m));
                    }
                },
            }
        }
        if last_height != 0 {
            // there is no peak that is a leaf
            result = Vec::new();
            proof {
                assert(result@ =~= merging_peaks(pk).map_values(|p: (u64, u32)| p.0));
            }
        }
        result
    }

    /// Adds an element to the MMR and returns its position.
    pub fn add(&mut self, element: &crate::hash::Hash<N>) -> (r: u64)
        requires
            old(self).wf(),
            old(self)@.len() < 0x4000_0000_0000_0000,
        ensures
            r == old(self)@.len(),
            final(self)@ == old(self)@ + added_hashes::<N, H>(old(self)@, element@),
            final(self)@.len() > old(self)@.len(),
            final(self)@.subrange(0, old(self)@.len() as int) == old(self)@,
            final(self).wf(),
            final(self)@[r as int] == H::leaf_spec(r, element@),
            is_leaf(final(self)@.len() as int, r as int),
            forall|q: int|
                is_leaf(old(self)@.len() as int, q) ==> #[trigger] is_leaf(
                    final(self)@.len() as int,
                    q,
                ),
    {
        let ghost sz = self@.len() as int;
        let ghost old_nodes = self@;
        let ghost sibs = merge_siblings(sz);
        let ghost lh = H::leaf_spec(sz as u64, element@);
        let ghost c = merging_peaks(peaks(sz));
        proof {
            vstd::arithmetic::power2::lemma2_to64();
            vstd::arithmetic::power2::lemma2_to64_rest();
            lemma_merge_siblings(sz);
            lemma_add_wf::<N, H>(old_nodes, element@);
            lemma_add_leaves(sz);
        }
        let peaks = self.nodes_needing_parents();
        let element_pos = self.nodes.len() as u64;
        // Insert the element into the MMR as a leaf.
        let mut hash = self.hasher.leaf_hash(element_pos, element);
        self.nodes.push(hash);
        proof {
            lemma_merge_hashes::<N, H>(old_nodes, sz, sibs, lh, 0);
            assert(self@ =~= old_nodes + merge_hashes::<N, H>(old_nodes, sz, sibs, lh, 0));
        }
        // Compute the new parent nodes, if any, and insert them into the MMR.
        let mut j = peaks.len();
        while j > 0
            invariant
                sz == old_nodes.len(),
                sz < 0x4000_0000_0000_0000,
                sibs == merge_siblings(sz),
                sibs.len() == peaks@.len(),
                forall|i: int|
                    0 <= i < sibs.len() ==> #[trigger] sibs[i] == peaks@[peaks@.len() - 1 - i],
                forall|i: int| 0 <= i < sibs.len() ==> #[trigger] sibs[i] < sz,
                peaks@.len() <= 61,
                j <= peaks@.len(),
                self@ == old_nodes + merge_hashes::<N, H>(
                    old_nodes,
                    sz,
                    sibs,
                    lh,
                    (peaks@.len() - j) as nat,
                ),
                hash@ == self@.last(),
                self@.len() == sz + 1 + (peaks@.len() - j),
            decreases j,
        {
            j = j - 1;
            let ghost t = (peaks@.len() - 1 - j) as nat;
            let sibling_pos = peaks[j];
            let parent_pos = self.nodes.len() as u64;
            assert(sibling_pos == sibs[t as int]);
            let ghost prev = merge_hashes::<N, H>(old_nodes, sz, sibs, lh, t);
            proof {
                lemma_merge_hashes::<N, H>(old_nodes, sz, sibs, lh, t);
                assert(self@[sibling_pos as int] == old_nodes[sibling_pos as int]);
            }
            hash = self.hasher.node_hash(parent_pos, &self.nodes[sibling_pos as usize], &hash);
            let ghost before = self.nodes@;
            self.nodes.push(hash);
            proof {
                lemma_hash_views_push(before, hash);
                assert(self@ =~= old_nodes + merge_hashes::<N, H>(old_nodes, sz, sibs, lh, t + 1));
            }
        }
        proof {
            assert(merge_hashes::<N, H>(old_nodes, sz, sibs, lh, peaks@.len() as nat) == added_hashes::<N, H>(old_nodes, element@));
        }
        element_pos
    }

    /// Computes the root hash of the MMR.
    pub fn root_hash(&mut self) -> (r: crate::hash::Hash<N>)
        requires
            old(self).wf(),
        ensures
            final(self)@ == old(self)@,
            r@ == mmr_root::<N, H>(old(self)@),
    {
        let ghost sz = self@.len() as int;
        let ghost pk = peaks(sz);
        let ghost m = pk.len() as int;
        proof {
            lemma_valid_size_layout(sz);
        }
        let mut peak_hashes_v: Vec<crate::hash::Hash<N>> = Vec::new();
        let mut it = self.peak_iterator();
        let ghost mut idx: int = 0;
        loop
            invariant
                pk == peaks(sz),
                m == pk.len(),
                sz == self@.len(),
                forall|j: int| 0 <= j < m ==> #[trigger] pk[j].0 < sz,
                it.inv(),
                it.rest_ok(),
                it.remaining() == pk.subrange(idx, m),
                0 <= idx <= m,
                hash_views(peak_hashes_v@) == hashes_at(self@, pk.subrange(0, idx)),
            ensures
                hash_views(peak_hashes_v@) == hashes_at(self@, pk),
            decreases m - idx,
        {
            proof {
                it.lemma_rest_ok_next_ok();
            }
            match it.next() {
                None => {
                    assert(idx == m) by {
                        if idx < m {
                            assert(pk.subrange(idx, m).len() > 0);
                        }
                    }
                    assert(pk.subrange(0, idx) =~= pk);
                    break;
                },
                Some(item) => {
                    let (peak_pos, _) = item;
                    assert(item == pk[idx]);
                    let ghost before = peak_hashes_v@;
                    assert(peak_pos < self.nodes.len());
                    assert((peak_pos as usize) as int == peak_pos as int);
                    peak_hashes_v.push(self.nodes[peak_pos as usize]);
                    proof {
                        lemma_hash_views_push(before, self.nodes@[peak_pos as int]);
                        assert(self@ == hash_views(self.nodes@));
                        assert(self@[peak_pos as int] == self.nodes@[peak_pos as int]@);
                        assert(pk.subrange(0, idx + 1) =~= pk.subrange(0, idx).push(pk[idx]));
                        assert(hash_views(peak_hashes_v@) =~= hashes_at(
                            self@,
                            pk.subrange(0, idx + 1),
                        ));
                        idx = idx + 1;
                        assert(it.remaining() =~= pk.subrange(idx, m));
                    }
                },
            }
        }
        self.hasher.root_hash(self.nodes.len() as u64, &peak_hashes_v)
    }

    /// Returns an inclusion proof for the element at `element_pos`: the size
    /// of the MMR and (1) the peak hashes other than that of the perfect tree
    /// holding the element, then (2) the hashes of the siblings of the nodes
    /// on the path from that tree's peak down to the element. Both are
    /// ordered by decreasing height.
    pub fn inclusion_proof(&self, element_pos: u64) -> (r: Proof<N>)
        requires
            self.wf(),
        ensures
            r.sz == self@.len(),
            hash_views(r.hashes@) == proof_hashes(self@, element_pos as int),
    {
        let ghost sz = self@.len() as int;
        let ghost pk = peaks(sz);
        let ghost m = pk.len() as int;
        let ghost k = first_peak(pk, element_pos as int);
        proof {
            lemma_valid_size_layout(sz);
            lemma_first_peak(pk, element_pos as int);
            vstd::arithmetic::power2::lemma2_to64();
            vstd::arithmetic::power2::lemma2_to64_rest();
        }
        let mut hashes: Vec<crate::hash::Hash<N>> = Vec::new();
        // The peak and height of the perfect tree holding the element.
        let mut tree_with_leaf: (u64, u32) = (u64::MAX, 0);
        let mut it = self.peak_iterator();
        let ghost mut idx: int = 0;
        // Include all peak hashes except that of the tree holding the element.
        loop
            invariant
                pk == peaks(sz),
                m == pk.len(),
                sz == self@.len(),
                sz < 0x8000_0000_0000_0000,
                k == first_peak(pk, element_pos as int),
                0 <= k <= m,
                k < m ==> pk[k].0 >= element_pos,
                forall|j: int| 0 <= j < k ==> #[trigger] pk[j].0 < element_pos,
                forall|j: int| 0 <= j < m ==> #[trigger] pk[j].0 < sz,
                it.inv(),
                it.rest_ok(),
                it.remaining() == pk.subrange(idx, m),
                0 <= idx <= m,
                tree_with_leaf == (if idx > k {
                    pk[k]
                } else {
                    (u64::MAX, 0u32)
                }),
                hash_views(hashes@) == (if idx > k {
                    hashes_at(self@, pk.subrange(0, idx).remove(k))
                } else {
                    hashes_at(self@, pk.subrange(0, idx))
                }),
            ensures
                idx == m,
                tree_with_leaf == (if idx > k {
                    pk[k]
                } else {
                    (u64::MAX, 0u32)
                }),
                hash_views(hashes@) == (if idx > k {
                    hashes_at(self@, pk.subrange(0, idx).remove(k))
                } else {
                    hashes_at(self@, pk.subrange(0, idx))
                }),
            decreases m - idx,
        {
            proof {
                it.lemma_rest_ok_next_ok();
            }
            match it.next() {
                None => {
                    assert(idx == m) by {
                        if idx < m {
                            assert(pk.subrange(idx, m).len() > 0);
                        }
                    }
                    break;
                },
                Some(item) => {
                    assert(item == pk[idx]);
                    let ghost before = hash_views(hashes@);
                    if tree_with_leaf.0 == u64::MAX && item.0 >= element_pos {
                        assert(idx == k);
                        tree_with_leaf = item;
                        proof {
                            assert(pk.subrange(0, idx + 1).remove(k) =~= pk.subrange(0, idx));
                        }
                    } else {
                        assert(idx != k);
                        let ghost bv = hashes@;
                        assert(item.0 < self.nodes.len());
                        assert((item.0 as usize) as int == item.0 as int);
                        hashes.push(self.nodes[item.0 as usize]);
                        proof {
                            lemma_hash_views_push(bv, self.nodes@[item.0 as int]);
                            if idx > k {
                                assert(pk.subrange(0, idx + 1).remove(k) =~= pk.subrange(
                                    0,
                                    idx,
                                ).remove(k).push(pk[idx]));
                            } else {
                                assert(pk.subrange(0, idx + 1) =~= pk.subrange(0, idx).push(
                                    pk[idx],
                                ));
                            }
                            assert(hash_views(hashes@) =~= before.push(self@[pk[idx].0 as int]));
                        }
                    }
                    proof {
                        idx = idx + 1;
                        assert(it.remaining() =~= pk.subrange(idx, m));
                    }
                },
            }
        }
        proof {
            assert(pk.subrange(0, m) =~= pk);
            if k < m {
                lemma_tree_size_step(pk[k].1 as int);
            }
        }
        // Add the sibling hashes of the nodes on the path from the peak down
        // to the element.
        let mut path_it = path_iterator(element_pos, tree_with_leaf.0, tree_with_leaf.1);
        let ghost full = path(element_pos as int, tree_with_leaf.0 as int, tree_with_leaf.1 as nat);
        let ghost first = hash_views(hashes@);
        let ghost p = tree_with_leaf.0 as int;
        let ghost g = tree_with_leaf.1 as nat;
        let ghost mut pidx: int = 0;
        proof {
            lemma_path_len(element_pos as int, p, g);
            assert(full.subrange(0, 0).map_values(|e: (bool, u64)| self@[e.1 as int]) =~= Seq::<
                Seq<u8>,
            >::empty());
            assert(first + Seq::<Seq<u8>>::empty() =~= first);
        }
        loop
            invariant
                sz == self@.len(),
                full == path(element_pos as int, p, g),
                full.len() == g,
                g <= top_height(),
                p < 0x1_0000_0000_0000_0000,
                p + 1 >= tree_size(g as int),
                g > 0 ==> p < sz,
                path_it.inv(),
                path_it.fits(),
                path_it.remaining() == full.subrange(pidx, g as int),
                0 <= pidx <= g,
                hash_views(hashes@) == first + full.subrange(0, pidx).map_values(
                    |e: (bool, u64)| self@[e.1 as int],
                ),
            ensures
                hash_views(hashes@) == first + full.map_values(|e: (bool, u64)| self@[e.1 as int]),
            decreases g - pidx,
        {
            match path_it.next() {
                None => {
                    assert(pidx == g) by {
                        if pidx < g {
                            assert(full.subrange(pidx, g as int).len() > 0);
                        }
                    }
                    assert(full.subrange(0, pidx) =~= full);
                    break;
                },
                Some(entry) => {
                    let (_, pos) = entry;
                    assert(entry == full[pidx]);
                    proof {
                        vstd::arithmetic::power2::lemma2_to64();
                        lemma_path_entry(element_pos as int, p, g, pidx as nat);
                    }
                    let ghost bv = hashes@;
                    assert(pos < self.nodes.len());
                    assert((pos as usize) as int == pos as int);
                    hashes.push(self.nodes[pos as usize]);
                    proof {
                        lemma_hash_views_push(bv, self.nodes@[pos as int]);
                        assert(full.subrange(0, pidx + 1) =~= full.subrange(0, pidx).push(entry));
                        assert(hash_views(hashes@) =~= first + full.subrange(0, pidx + 1).map_values(
                            |e: (bool, u64)| self@[e.1 as int],
                        ));
                        pidx = pidx + 1;
                        assert(path_it.remaining() =~= full.subrange(pidx, g as int));
                    }
                },
            }
        }
        Proof { sz: self.nodes.len() as u64, hashes }
    }
}

/// The heights of the peaks strictly decrease.
pub open spec fn strictly_decreasing_peaks(pk: Seq<(u64, u32)>) -> bool {
    forall|i: int, j: int| 0 <= i < j < pk.len() ==> pk[i].1 > pk[j].1
}

} // verus!
