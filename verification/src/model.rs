//! The MMR as a sequence of node hashes: what it means for it to be well
//! formed over a hasher, its root, its inclusion proofs and what verifying a
//! proof computes, with the laws that tie them together.

use vstd::prelude::*;
use vstd::arithmetic::power2::{pow2, lemma_pow2_unfold, lemma_pow2_pos};
use crate::hash::Hasher;
use crate::layout::{
    first_peak, is_leaf, leaf_in, lemma_add_layout, lemma_merging_shape, merging_peaks, lemma_first_peak_unique, lemma_leaf_in_range, lemma_path_len,
    lemma_tree_size_step, lemma_valid_size_layout, path, peaks, tree_size, valid_size,
};

verus! {

/// Every inner node of the perfect tree of height `g` rooted at `p` holds the
/// hash of its position and of its two children.
pub open spec fn tree_wf<const N: usize, H: Hasher<N>>(nodes: Seq<Seq<u8>>, p: int, g: nat) -> bool
    decreases g,
{
    if g == 0 {
        true
    } else {
        let l = p - pow2(g);
        &&& nodes[p] == H::node_spec(p as u64, nodes[l], nodes[p - 1])
        &&& tree_wf::<N, H>(nodes, l, (g - 1) as nat)
        &&& tree_wf::<N, H>(nodes, p - 1, (g - 1) as nat)
    }
}

/// The node hashes of an MMR over `H`: its size is valid and every inner node
/// of every peak's tree is the hash of its children.
pub open spec fn mmr_wf<const N: usize, H: Hasher<N>>(nodes: Seq<Seq<u8>>) -> bool {
    let pk = peaks(nodes.len() as int);
    &&& valid_size(nodes.len() as int)
    &&& forall|i: int|
        0 <= i < pk.len() ==> #[trigger] tree_wf::<N, H>(nodes, pk[i].0 as int, pk[i].1 as nat)
}

/// The hashes at the given peaks.
pub open spec fn hashes_at(nodes: Seq<Seq<u8>>, pk: Seq<(u64, u32)>) -> Seq<Seq<u8>> {
    pk.map_values(|p: (u64, u32)| nodes[p.0 as int])
}

/// The hashes of the peaks, in decreasing order of height.
pub open spec fn peak_hashes(nodes: Seq<Seq<u8>>) -> Seq<Seq<u8>> {
    hashes_at(nodes, peaks(nodes.len() as int))
}

/// The root hash: the size hashed with the peak hashes.
pub open spec fn mmr_root<const N: usize, H: Hasher<N>>(nodes: Seq<Seq<u8>>) -> Seq<u8> {
    H::root_spec(nodes.len() as u64, peak_hashes(nodes))
}

/// The hashes of the inclusion proof for position `pos`: the peak hashes but
/// that of the tree holding `pos`, then the siblings on the path from that
/// peak down to `pos`.
pub open spec fn proof_hashes(nodes: Seq<Seq<u8>>, pos: int) -> Seq<Seq<u8>> {
    let pk = peaks(nodes.len() as int);
    let k = first_peak(pk, pos);
    if k < pk.len() {
        hashes_at(nodes, pk.remove(k)) + path(pos, pk[k].0 as int, pk[k].1 as nat).map_values(
            |e: (bool, u64)| nodes[e.1 as int],
        )
    } else {
        hashes_at(nodes, pk)
    }
}

/// The hash of the tree of height `g` rooted at `p`, rebuilt from the hash
/// `lh` of the leaf `leaf` and the sibling hashes `sib` on the path, top to
/// bottom.
pub open spec fn rebuild<const N: usize, H: Hasher<N>>(
    leaf: int,
    p: int,
    g: nat,
    sib: Seq<Seq<u8>>,
    lh: Seq<u8>,
) -> Seq<u8>
    decreases g,
{
    if g == 0 {
        lh
    } else {
        let l = p - pow2(g);
        if l < leaf {
            H::node_spec(
                p as u64,
                sib[0],
                rebuild::<N, H>(leaf, p - 1, (g - 1) as nat, sib.drop_first(), lh),
            )
        } else {
            H::node_spec(
                p as u64,
                rebuild::<N, H>(leaf, l, (g - 1) as nat, sib.drop_first(), lh),
                sib[0],
            )
        }
    }
}

/// Whether proof hashes `hashes` for an MMR of `sz` nodes show `element` at
/// `pos` under `root`: `sz` is the size of a non-empty MMR, some peak lies at
/// or after `pos`, that peak is rebuilt from the element and the last hashes,
/// the other peaks are the first hashes, every hash is used, and the root of
/// the size and peaks is `root`.
pub open spec fn proof_verifies<const N: usize, H: Hasher<N>>(
    sz: u64,
    hashes: Seq<Seq<u8>>,
    element: Seq<u8>,
    pos: u64,
    root: Seq<u8>,
) -> bool {
    let pk = peaks(sz as int);
    let m = pk.len() as int;
    let k = first_peak(pk, pos as int);
    let n = hashes.len() as int;
    let h = pk[k].1 as nat;
    let rebuilt = rebuild::<N, H>(
        pos as int,
        pk[k].0 as int,
        h,
        hashes.subrange(n - h, n),
        H::leaf_spec(pos, element),
    );
    &&& 0 < sz
    &&& valid_size(sz as int)
    &&& k < m
    &&& n == m - 1 + h
    &&& root == H::root_spec(sz, hashes.subrange(0, k) + seq![rebuilt] + hashes.subrange(k, m - 1))
}

/// `tree_wf` reads only the tree's own span, so it survives appending.
pub proof fn lemma_tree_wf_frame<const N: usize, H: Hasher<N>>(
    a: Seq<Seq<u8>>,
    b: Seq<Seq<u8>>,
    p: int,
    g: nat,
)
    requires
        tree_wf::<N, H>(a, p, g),
        p + 1 >= tree_size(g as int),
        p < a.len() <= b.len(),
        forall|i: int| 0 <= i < a.len() ==> #[trigger] b[i] == a[i],
    ensures
        tree_wf::<N, H>(b, p, g),
    decreases g,
{
    if g > 0 {
        lemma_tree_size_step(g as int);
        lemma_pow2_unfold(g);
        lemma_pow2_pos((g - 1) as nat);
        lemma_tree_wf_frame::<N, H>(a, b, p - pow2(g), (g - 1) as nat);
        lemma_tree_wf_frame::<N, H>(a, b, p - 1, (g - 1) as nat);
    }
}

/// Rebuilding a tree from one of its leaves and the sibling hashes on its
/// path gives the hash stored at its root.
pub proof fn lemma_rebuild_path<const N: usize, H: Hasher<N>>(
    nodes: Seq<Seq<u8>>,
    leaf: int,
    p: int,
    g: nat,
)
    requires
        tree_wf::<N, H>(nodes, p, g),
        leaf_in(leaf, p, g),
        p + 1 >= tree_size(g as int),
        p < pow2(64),
    ensures
        rebuild::<N, H>(
            leaf,
            p,
            g,
            path(leaf, p, g).map_values(|e: (bool, u64)| nodes[e.1 as int]),
            nodes[leaf],
        ) == nodes[p],
    decreases g,
{
    if g > 0 {
        let l = p - pow2(g);
        lemma_tree_size_step(g as int);
        lemma_pow2_unfold(g);
        lemma_pow2_pos((g - 1) as nat);
        vstd::arithmetic::power2::lemma2_to64();
        let sib = path(leaf, p, g).map_values(|e: (bool, u64)| nodes[e.1 as int]);
        if l < leaf {
            if leaf_in(leaf, l, (g - 1) as nat) {
                lemma_leaf_in_range(leaf, l, (g - 1) as nat);
            }
            lemma_rebuild_path::<N, H>(nodes, leaf, p - 1, (g - 1) as nat);
            let rest = path(leaf, p - 1, (g - 1) as nat);
            assert(path(leaf, p, g) == seq![(true, l as u64)] + rest);
            assert(sib.drop_first() =~= rest.map_values(|e: (bool, u64)| nodes[e.1 as int]));
            assert(sib[0] == nodes[l]);
        } else {
            if leaf_in(leaf, p - 1, (g - 1) as nat) {
                lemma_leaf_in_range(leaf, p - 1, (g - 1) as nat);
            }
            lemma_rebuild_path::<N, H>(nodes, leaf, l, (g - 1) as nat);
            let rest = path(leaf, l, (g - 1) as nat);
            assert(path(leaf, p, g) == seq![(false, (p - 1) as u64)] + rest);
            assert(sib.drop_first() =~= rest.map_values(|e: (bool, u64)| nodes[e.1 as int]));
            assert(sib[0] == nodes[p - 1]);
        }
    }
}

/// Peak positions increase from left to right.
pub proof fn lemma_peaks_increasing(sz: int, i: int, j: int)
    requires
        valid_size(sz),
        0 <= i < j < peaks(sz).len(),
    ensures
        peaks(sz)[i].0 + tree_size(peaks(sz)[j].1 as int) <= peaks(sz)[j].0,
    decreases j - i,
{
    let pk = peaks(sz);
    lemma_valid_size_layout(sz);
    assert(pk[j - 1 + 1].0 == pk[j - 1].0 + tree_size(pk[j].1 as int));
    if i < j - 1 {
        lemma_peaks_increasing(sz, i, j - 1);
        lemma_tree_size_step(pk[j - 1].1 as int);
    }
}

/// Inclusion proofs are complete: in a well-formed MMR, the proof for a leaf
/// holding the hash of `element` verifies `element` at that leaf against the
/// MMR's root.
pub proof fn lemma_proof_verifies<const N: usize, H: Hasher<N>>(
    nodes: Seq<Seq<u8>>,
    pos: u64,
    element: Seq<u8>,
)
    requires
        mmr_wf::<N, H>(nodes),
        is_leaf(nodes.len() as int, pos as int),
        nodes[pos as int] == H::leaf_spec(pos, element),
    ensures
        proof_verifies::<N, H>(
            nodes.len() as u64,
            proof_hashes(nodes, pos as int),
            element,
            pos,
            mmr_root::<N, H>(nodes),
        ),
{
    let sz = nodes.len() as int;
    let pk = peaks(sz);
    let m = pk.len() as int;
    lemma_valid_size_layout(sz);
    vstd::arithmetic::power2::lemma2_to64();
    vstd::arithmetic::power2::lemma2_to64_rest();
    assert(sz < 0x8000_0000_0000_0000);
    let i = choose|i: int| 0 <= i < m && #[trigger] leaf_in(pos as int, pk[i].0 as int, pk[i].1 as nat);
    let p = pk[i].0 as int;
    let g = pk[i].1 as nat;
    lemma_leaf_in_range(pos as int, p, g);
    assert forall|j: int| 0 <= j < i implies #[trigger] pk[j].0 < pos by {
        lemma_peaks_increasing(sz, j, i);
    }
    lemma_first_peak_unique(pk, pos as int, i);
    let hs = proof_hashes(nodes, pos as int);
    let a = hashes_at(nodes, pk.remove(i));
    let pth = path(pos as int, p, g);
    let b = pth.map_values(|e: (bool, u64)| nodes[e.1 as int]);
    lemma_path_len(pos as int, p, g);
    assert(hs == a + b);
    let n = hs.len() as int;
    assert(hs.subrange(n - g, n) =~= b);
    assert(tree_wf::<N, H>(nodes, p, g));
    lemma_rebuild_path::<N, H>(nodes, pos as int, p, g);
    let rebuilt = rebuild::<N, H>(pos as int, p, g, b, H::leaf_spec(pos, element));
    assert(hs.subrange(0, i) + seq![rebuilt] + hs.subrange(i, m - 1) =~= peak_hashes(nodes)) by {
        assert forall|j: int| 0 <= j < m implies (hs.subrange(0, i) + seq![rebuilt]
            + hs.subrange(i, m - 1))[j] == peak_hashes(nodes)[j] by {
            if j < i {
                assert(pk.remove(i)[j] == pk[j]);
            } else if j > i {
                assert(pk.remove(i)[j - 1] == pk[j]);
            }
        }
    }
    assert(rebuilt == nodes[p]);
}


/// In a well-formed MMR, a leaf holding the hash of `element` lies under the
/// first peak at or after it, and that peak's hash is rebuilt from the
/// element's leaf hash and the sibling hashes on the path from the peak down
/// to the leaf.
pub proof fn lemma_peak_rebuilt_from_leaf<const N: usize, H: Hasher<N>>(
    nodes: Seq<Seq<u8>>,
    pos: u64,
    element: Seq<u8>,
)
    requires
        mmr_wf::<N, H>(nodes),
        is_leaf(nodes.len() as int, pos as int),
        nodes[pos as int] == H::leaf_spec(pos, element),
    ensures
        ({
            let pk = peaks(nodes.len() as int);
            let k = first_peak(pk, pos as int);
            let p = pk[k].0 as int;
            let g = pk[k].1 as nat;
            &&& k < pk.len()
            &&& leaf_in(pos as int, p, g)
            &&& rebuild::<N, H>(
                pos as int,
                p,
                g,
                path(pos as int, p, g).map_values(|e: (bool, u64)| nodes[e.1 as int]),
                H::leaf_spec(pos, element),
            ) == nodes[p]
        }),
{
    let sz = nodes.len() as int;
    let pk = peaks(sz);
    let m = pk.len() as int;
    lemma_valid_size_layout(sz);
    vstd::arithmetic::power2::lemma2_to64();
    vstd::arithmetic::power2::lemma2_to64_rest();
    let i = choose|i: int| 0 <= i < m && #[trigger] leaf_in(pos as int, pk[i].0 as int, pk[i].1 as nat);
    let p = pk[i].0 as int;
    let g = pk[i].1 as nat;
    lemma_leaf_in_range(pos as int, p, g);
    assert forall|j: int| 0 <= j < i implies #[trigger] pk[j].0 < pos by {
        lemma_peaks_increasing(sz, j, i);
    }
    lemma_first_peak_unique(pk, pos as int, i);
    assert(tree_wf::<N, H>(nodes, p, g));
    lemma_rebuild_path::<N, H>(nodes, pos as int, p, g);
}

/// The hashes added after the leaf hash `lh` at `sz`: the `j`-th new parent,
/// at `sz + j`, joins the sibling at `sibs[j - 1]` with the node before it.
pub open spec fn merge_hashes<const N: usize, H: Hasher<N>>(
    nodes: Seq<Seq<u8>>,
    sz: int,
    sibs: Seq<u64>,
    lh: Seq<u8>,
    j: nat,
) -> Seq<Seq<u8>>
    decreases j,
{
    if j == 0 {
        seq![lh]
    } else {
        let prev = merge_hashes::<N, H>(nodes, sz, sibs, lh, (j - 1) as nat);
        prev.push(H::node_spec((sz + j) as u64, nodes[sibs[j - 1] as int], prev.last()))
    }
}

/// The positions of the merging peaks in increasing order of height.
pub open spec fn merge_siblings(sz: int) -> Seq<u64> {
    let c = merging_peaks(peaks(sz));
    Seq::new(c.len(), |j: int| c[c.len() - 1 - j].0)
}

/// The hashes that adding `element` appends to the node hashes `nodes`: the
/// element's leaf hash, then a new parent for each merging peak.
pub open spec fn added_hashes<const N: usize, H: Hasher<N>>(
    nodes: Seq<Seq<u8>>,
    element: Seq<u8>,
) -> Seq<Seq<u8>> {
    let sz = nodes.len() as int;
    merge_hashes::<N, H>(
        nodes,
        sz,
        merge_siblings(sz),
        H::leaf_spec(sz as u64, element),
        merging_peaks(peaks(sz)).len(),
    )
}

pub proof fn lemma_merge_hashes<const N: usize, H: Hasher<N>>(
    nodes: Seq<Seq<u8>>,
    sz: int,
    sibs: Seq<u64>,
    lh: Seq<u8>,
    j: nat,
)
    ensures
        ({
            let a = merge_hashes::<N, H>(nodes, sz, sibs, lh, j);
            &&& a.len() == j + 1
            &&& a[0] == lh
            &&& forall|i: int|
                0 <= i < j ==> #[trigger] a[i + 1] == H::node_spec(
                    (sz + i + 1) as u64,
                    nodes[sibs[i] as int],
                    a[i],
                )
        }),
    decreases j,
{
    if j > 0 {
        lemma_merge_hashes::<N, H>(nodes, sz, sibs, lh, (j - 1) as nat);
        let prev = merge_hashes::<N, H>(nodes, sz, sibs, lh, (j - 1) as nat);
        let a = merge_hashes::<N, H>(nodes, sz, sibs, lh, j);
        assert forall|i: int| 0 <= i < j implies #[trigger] a[i + 1] == H::node_spec(
            (sz + i + 1) as u64,
            nodes[sibs[i] as int],
            a[i],
        ) by {
            if i < j - 1 {
                assert(a[i + 1] == prev[i + 1] && a[i] == prev[i]);
            }
        }
    }
}

proof fn lemma_merged_tree_wf<const N: usize, H: Hasher<N>>(
    nodes: Seq<Seq<u8>>,
    sz: int,
    sibs: Seq<u64>,
    j: nat,
)
    requires
        j <= sibs.len(),
        forall|i: int|
            0 <= i < j ==> #[trigger] sibs[i] as int == sz + i + 1 - pow2((i + 1) as nat),
        forall|i: int|
            0 <= i < j ==> nodes[sz + i + 1] == H::node_spec(
                (sz + i + 1) as u64,
                nodes[#[trigger] sibs[i] as int],
                nodes[sz + i],
            ),
        forall|i: int| 0 <= i < j ==> tree_wf::<N, H>(nodes, #[trigger] sibs[i] as int, i as nat),
    ensures
        tree_wf::<N, H>(nodes, sz + j, j),
    decreases j,
{
    if j > 0 {
        let i = j - 1;
        lemma_merged_tree_wf::<N, H>(nodes, sz, sibs, (j - 1) as nat);
        assert(sibs[i] as int == sz + i + 1 - pow2((i + 1) as nat));
        assert(tree_wf::<N, H>(nodes, sibs[i] as int, i as nat));
    }
}

proof fn lemma_leaf_up_right(q: int, sz: int, i: nat, k: nat)
    requires
        i <= k,
        leaf_in(q, sz + i, i),
    ensures
        leaf_in(q, sz + k, k),
    decreases k - i,
{
    if i < k {
        assert(leaf_in(q, sz + i + 1, i + 1)) by {
            assert(sz + i + 1 - 1 == sz + i);
        }
        lemma_leaf_up_right(q, sz, i + 1, k);
    }
}

/// The merging peaks, by increasing height: the one of height `i` ends at
/// `sz + i + 1 - 2^(i + 1)` and is peak `m - 1 - i`.
pub proof fn lemma_merge_siblings(sz: int)
    requires
        valid_size(sz),
        sz < pow2(62),
    ensures
        ({
            let pk = peaks(sz);
            let m = pk.len() as int;
            let k = merging_peaks(pk).len() as int;
            let sibs = merge_siblings(sz);
            &&& sibs.len() == k
            &&& k <= m
            &&& k <= 61
            &&& forall|i: int|
                0 <= i < k ==> {
                    &&& #[trigger] sibs[i] as int == sz + i + 1 - pow2((i + 1) as nat)
                    &&& sibs[i] < sz
                    &&& sibs[i] + 1 >= tree_size(i)
                    &&& pk[m - 1 - i] == (sibs[i], i as u32)
                }
        }),
{
    let pk = peaks(sz);
    let m = pk.len() as int;
    let c = merging_peaks(pk);
    let k = c.len() as int;
    let sibs = merge_siblings(sz);
    lemma_valid_size_layout(sz);
    lemma_merging_shape(sz);
    vstd::arithmetic::power2::lemma2_to64();
    vstd::arithmetic::power2::lemma2_to64_rest();
    assert forall|i: int| 0 <= i < k implies {
        &&& #[trigger] sibs[i] as int == sz + i + 1 - pow2((i + 1) as nat)
        &&& sibs[i] < sz
        &&& sibs[i] + 1 >= tree_size(i)
        &&& pk[m - 1 - i] == (sibs[i], i as u32)
    } by {
        assert(c[k - 1 - i] == ((sz + i + 1 - pow2((i + 1) as nat)) as u64, i as u32));
        assert(c[k - 1 - i] == pk[m - k + (k - 1 - i)]);
        assert(pk[m - 1 - i].0 + 1 >= tree_size(pk[m - 1 - i].1 as int));
        assert(pk[m - 1 - i].0 < sz);
    }
}

/// Adding an element keeps the node hashes well formed and puts the
/// element's leaf hash at the old size.
#[verifier::rlimit(40)]
pub proof fn lemma_add_wf<const N: usize, H: Hasher<N>>(nodes: Seq<Seq<u8>>, element: Seq<u8>)
    requires
        mmr_wf::<N, H>(nodes),
        nodes.len() < pow2(62),
    ensures
        ({
            let sz = nodes.len() as int;
            let k = merging_peaks(peaks(sz)).len() as int;
            let add = added_hashes::<N, H>(nodes, element);
            let nodes2 = nodes + add;
            &&& add.len() == k + 1
            &&& k <= 61
            &&& nodes2[sz] == H::leaf_spec(sz as u64, element)
            &&& mmr_wf::<N, H>(nodes2)
        }),
{
    let sz = nodes.len() as int;
    let pk = peaks(sz);
    let m = pk.len() as int;
    let k = merging_peaks(pk).len() as int;
    let sibs = merge_siblings(sz);
    let lh = H::leaf_spec(sz as u64, element);
    let add = added_hashes::<N, H>(nodes, element);
    let nodes2 = nodes + add;
    let sz2 = sz + 1 + k;
    let pk2 = peaks(sz2);
    lemma_valid_size_layout(sz);
    lemma_merge_siblings(sz);
    lemma_add_layout(sz);
    lemma_merge_hashes::<N, H>(nodes, sz, sibs, lh, k as nat);
    vstd::arithmetic::power2::lemma2_to64();
    vstd::arithmetic::power2::lemma2_to64_rest();
    assert(nodes2.len() == sz2);
    assert forall|i: int| 0 <= i < sz implies #[trigger] nodes2[i] == nodes[i] by {}
    assert forall|i: int| 0 <= i < m implies tree_wf::<N, H>(
        nodes2,
        #[trigger] pk[i].0 as int,
        pk[i].1 as nat,
    ) by {
        assert(tree_wf::<N, H>(nodes, pk[i].0 as int, pk[i].1 as nat));
        lemma_tree_wf_frame::<N, H>(nodes, nodes2, pk[i].0 as int, pk[i].1 as nat);
    }
    assert forall|i: int| 0 <= i < k implies tree_wf::<N, H>(
        nodes2,
        #[trigger] sibs[i] as int,
        i as nat,
    ) by {
        assert(pk[m - 1 - i] == (sibs[i], i as u32));
        assert(tree_wf::<N, H>(nodes2, pk[m - 1 - i].0 as int, pk[m - 1 - i].1 as nat));
    }
    assert forall|i: int| 0 <= i < k implies nodes2[sz + i + 1] == H::node_spec(
        (sz + i + 1) as u64,
        nodes2[#[trigger] sibs[i] as int],
        nodes2[sz + i],
    ) by {
        assert(add[i + 1] == H::node_spec((sz + i + 1) as u64, nodes[sibs[i] as int], add[i]));
        assert(nodes2[sz + i + 1] == add[i + 1]);
        assert(nodes2[sz + i] == add[i]);
    }
    lemma_merged_tree_wf::<N, H>(nodes2, sz, sibs, k as nat);
    assert forall|i: int| 0 <= i < pk2.len() implies #[trigger] tree_wf::<N, H>(
        nodes2,
        pk2[i].0 as int,
        pk2[i].1 as nat,
    ) by {
        if i < m - k {
            assert(pk2[i] == pk[i]);
        } else {
            assert(pk2[i] == ((sz + k) as u64, k as u32));
        }
    }
}

/// Adding an element makes the old size a leaf position and keeps every
/// earlier leaf a leaf.
pub proof fn lemma_add_leaves(sz: int)
    requires
        valid_size(sz),
        sz < pow2(62),
    ensures
        ({
            let k = merging_peaks(peaks(sz)).len() as int;
            &&& is_leaf(sz + 1 + k, sz)
            &&& forall|q: int| is_leaf(sz, q) ==> #[trigger] is_leaf(sz + 1 + k, q)
        }),
{
    let pk = peaks(sz);
    let m = pk.len() as int;
    let k = merging_peaks(pk).len() as int;
    let sibs = merge_siblings(sz);
    let sz2 = sz + 1 + k;
    let pk2 = peaks(sz2);
    lemma_merge_siblings(sz);
    lemma_add_layout(sz);
    vstd::arithmetic::power2::lemma2_to64();
    vstd::arithmetic::power2::lemma2_to64_rest();
    assert(pk2[m - k] == ((sz + k) as u64, k as u32));
    assert(leaf_in(sz, sz + 0, 0));
    lemma_leaf_up_right(sz, sz, 0, k as nat);
    assert(leaf_in(sz, pk2[m - k].0 as int, pk2[m - k].1 as nat));
    assert forall|q: int| is_leaf(sz, q) implies #[trigger] is_leaf(sz2, q) by {
        let i = choose|i: int| 0 <= i < m && #[trigger] leaf_in(q, pk[i].0 as int, pk[i].1 as nat);
        if i < m - k {
            assert(pk2[i] == pk[i]);
            assert(leaf_in(q, pk2[i].0 as int, pk2[i].1 as nat));
        } else {
            let j = m - 1 - i;
            assert(pk[m - 1 - j] == (sibs[j], j as u32));
            assert(leaf_in(q, sz + j + 1 - pow2((j + 1) as nat), j as nat));
            assert(leaf_in(q, sz + (j + 1), (j + 1) as nat));
            lemma_leaf_up_right(q, sz, (j + 1) as nat, k as nat);
            assert(leaf_in(q, pk2[m - k].0 as int, pk2[m - k].1 as nat));
        }
    }
}


/// After an element is added, the proof of every leaf, the new one and all
/// earlier ones, verifies against the new root.
pub proof fn lemma_add_keeps_proofs<const N: usize, H: Hasher<N>>(
    nodes: Seq<Seq<u8>>,
    added: Seq<u8>,
    pos: u64,
    element: Seq<u8>,
)
    requires
        mmr_wf::<N, H>(nodes),
        nodes.len() < pow2(62),
        (is_leaf(nodes.len() as int, pos as int) && nodes[pos as int] == H::leaf_spec(pos, element))
            || (pos == nodes.len() && element == added),
    ensures
        ({
            let nodes2 = nodes + added_hashes::<N, H>(nodes, added);
            proof_verifies::<N, H>(
                nodes2.len() as u64,
                proof_hashes(nodes2, pos as int),
                element,
                pos,
                mmr_root::<N, H>(nodes2),
            )
        }),
{
    let sz = nodes.len() as int;
    let nodes2 = nodes + added_hashes::<N, H>(nodes, added);
    lemma_add_wf::<N, H>(nodes, added);
    lemma_add_leaves(sz);
    if is_leaf(sz, pos as int) && nodes[pos as int] == H::leaf_spec(pos, element) {
        let pk = peaks(sz);
        let i = choose|i: int|
            0 <= i < pk.len() && #[trigger] leaf_in(pos as int, pk[i].0 as int, pk[i].1 as nat);
        lemma_valid_size_layout(sz);
        lemma_leaf_in_range(pos as int, pk[i].0 as int, pk[i].1 as nat);
        assert(nodes2[pos as int] == nodes[pos as int]);
    }
    lemma_proof_verifies::<N, H>(nodes2, pos, element);
}

} // verus!
