//! The layout of a Merkle Mountain Range: which positions hold peaks, how a
//! perfect tree is laid out in post-order, and the paths from a peak down to
//! a leaf.

use vstd::prelude::*;
use vstd::arithmetic::power2::{pow2, lemma_pow2_unfold, lemma_pow2_pos, lemma_pow2_strictly_increases};

verus! {

/// The height of the tallest tree that fits in an MMR of fewer than 2^63 nodes.
pub open spec fn top_height() -> int {
    62
}

/// The number of nodes of a perfect binary tree of height `h`.
pub open spec fn tree_size(h: int) -> int {
    pow2((h + 1) as nat) - 1
}

/// The peaks, as (position, height), found by scanning heights `h`, `h - 1`,
/// ..., 0 for perfect trees that fit in `[offset, sz)`, left to right.
pub open spec fn peaks_from(offset: int, sz: int, h: int) -> Seq<(u64, u32)>
    decreases h + 1,
{
    if h < 0 {
        Seq::empty()
    } else if offset + tree_size(h) <= sz {
        seq![((offset + tree_size(h) - 1) as u64, h as u32)] + peaks_from(
            offset + tree_size(h),
            sz,
            h - 1,
        )
    } else {
        peaks_from(offset, sz, h - 1)
    }
}

/// The scan from `offset` at height `h` never finds a second tree of a height
/// it has just taken, and covers `[offset, sz)` exactly.
pub open spec fn peaks_ok(offset: int, sz: int, h: int) -> bool
    decreases h + 1,
{
    if h < 0 {
        offset == sz
    } else if offset + tree_size(h) <= sz {
        offset + 2 * tree_size(h) > sz && peaks_ok(offset + tree_size(h), sz, h - 1)
    } else {
        peaks_ok(offset, sz, h - 1)
    }
}

/// The next tree the scan finds, if any, is not followed by another of the
/// same height.
pub open spec fn step_ok(offset: int, sz: int, h: int) -> bool
    decreases h + 1,
{
    if h < 0 {
        true
    } else if offset + tree_size(h) <= sz {
        offset + 2 * tree_size(h) > sz
    } else {
        step_ok(offset, sz, h - 1)
    }
}

/// The peaks of an MMR of `sz` nodes, in decreasing order of height.
pub open spec fn peaks(sz: int) -> Seq<(u64, u32)> {
    peaks_from(0, sz, top_height())
}

/// `sz` is the number of nodes of some MMR: a sequence of perfect trees of
/// strictly decreasing height.
pub open spec fn valid_size(sz: int) -> bool {
    0 <= sz < pow2(63) && peaks_ok(0, sz, top_height())
}

/// Total number of nodes in trees of heights `hs`.
pub open spec fn heights_size(hs: Seq<nat>) -> int
    decreases hs.len(),
{
    if hs.len() == 0 {
        0
    } else {
        tree_size(hs[0] as int) + heights_size(hs.drop_first())
    }
}

pub open spec fn strictly_decreasing(hs: Seq<nat>) -> bool {
    forall|i: int, j: int| 0 <= i < j < hs.len() ==> hs[i] > hs[j]
}

/// The peaks of trees of heights `hs` laid out left to right from `offset`.
pub open spec fn peaks_of_heights(offset: int, hs: Seq<nat>) -> Seq<(u64, u32)>
    decreases hs.len(),
{
    if hs.len() == 0 {
        Seq::empty()
    } else {
        seq![((offset + tree_size(hs[0] as int) - 1) as u64, hs[0] as u32)] + peaks_of_heights(
            offset + tree_size(hs[0] as int),
            hs.drop_first(),
        )
    }
}

/// The heights of a list of peaks.
pub open spec fn heights_of(pk: Seq<(u64, u32)>) -> Seq<nat> {
    pk.map_values(|p: (u64, u32)| p.1 as nat)
}

pub proof fn lemma_tree_size_step(h: int)
    requires
        h >= 0,
    ensures
        tree_size(h) == 2 * tree_size(h - 1) + 1,
        tree_size(h) >= 1,
        tree_size(h - 1) >= 0,
{
    lemma_pow2_unfold((h + 1) as nat);
    lemma_pow2_pos(h as nat);
}

pub proof fn lemma_tree_size_mono(a: int, b: int)
    requires
        -1 <= a < b,
    ensures
        tree_size(a) < tree_size(b),
{
    lemma_pow2_strictly_increases((a + 1) as nat, (b + 1) as nat);
}

/// Trees of strictly decreasing heights, all below `t`, hold fewer nodes than
/// one tree of height `t`.
pub proof fn lemma_heights_size_bound(hs: Seq<nat>, t: int)
    requires
        t >= 0,
        strictly_decreasing(hs),
        forall|i: int| 0 <= i < hs.len() ==> hs[i] < t,
    ensures
        0 <= heights_size(hs) <= tree_size(t) - 1,
    decreases hs.len(),
{
    lemma_tree_size_step(t);
    if hs.len() > 0 {
        let a = hs[0] as int;
        let rest = hs.drop_first();
        assert forall|i: int| 0 <= i < rest.len() implies rest[i] < a by {
            assert(hs[0] > hs[i + 1]);
        }
        lemma_heights_size_bound(rest, a);
        lemma_tree_size_step(a + 1);
        if a + 1 < t {
            lemma_tree_size_mono(a + 1, t);
        }
    }
}

/// Scanning the size of trees of strictly decreasing heights, all at most
/// `t`, finds exactly those trees.
pub proof fn lemma_scan_of_heights(offset: int, hs: Seq<nat>, t: int)
    requires
        t >= -1,
        strictly_decreasing(hs),
        forall|i: int| 0 <= i < hs.len() ==> hs[i] <= t,
    ensures
        peaks_ok(offset, offset + heights_size(hs), t),
        peaks_from(offset, offset + heights_size(hs), t) == peaks_of_heights(offset, hs),
    decreases t + 1,
{
    let sz = offset + heights_size(hs);
    if t < 0 {
        assert(hs.len() == 0) by {
            if hs.len() > 0 {
                assert(hs[0] <= t);
            }
        }
    } else {
        lemma_tree_size_step(t);
        if hs.len() > 0 && hs[0] == t {
            let rest = hs.drop_first();
            assert forall|i: int| 0 <= i < rest.len() implies rest[i] < t by {
                assert(hs[0] > hs[i + 1]);
            }
            lemma_heights_size_bound(rest, t);
            lemma_scan_of_heights(offset + tree_size(t), rest, t - 1);
            assert(offset + tree_size(t) + heights_size(rest) == sz);
        } else {
            assert forall|i: int| 0 <= i < hs.len() implies hs[i] < t by {
                if i > 0 {
                    assert(hs[0] > hs[i]);
                }
            }
            lemma_heights_size_bound(hs, t);
            lemma_scan_of_heights(offset, hs, t - 1);
        }
    }
}

/// A scan that succeeds finds trees of strictly decreasing heights, at most
/// `t`, that cover `[offset, sz)`.
pub proof fn lemma_scan_heights(offset: int, sz: int, t: int)
    requires
        -1 <= t <= top_height(),
        peaks_ok(offset, sz, t),
    ensures
        strictly_decreasing(heights_of(peaks_from(offset, sz, t))),
        forall|i: int|
            0 <= i < peaks_from(offset, sz, t).len() ==> 0 <= #[trigger] peaks_from(
                offset,
                sz,
                t,
            )[i].1 <= t,
        offset + heights_size(heights_of(peaks_from(offset, sz, t))) == sz,
    decreases t + 1,
{
    let pk = peaks_from(offset, sz, t);
    if t >= 0 {
        lemma_tree_size_step(t);
        if offset + tree_size(t) <= sz {
            lemma_scan_heights(offset + tree_size(t), sz, t - 1);
            let rest = peaks_from(offset + tree_size(t), sz, t - 1);
            assert(pk == seq![((offset + tree_size(t) - 1) as u64, t as u32)] + rest);
            assert(heights_of(pk).drop_first() =~= heights_of(rest));
            assert(heights_of(pk)[0] == t);
            assert forall|i: int| 0 <= i < pk.len() implies 0 <= #[trigger] pk[i].1 <= t by {
                if i > 0 {
                    assert(pk[i] == rest[i - 1]);
                }
            }
            assert(strictly_decreasing(heights_of(pk))) by {
                assert forall|i: int, j: int|
                    0 <= i < j < heights_of(pk).len() implies heights_of(pk)[i] > heights_of(
                    pk,
                )[j] by {
                    assert(pk[j] == rest[j - 1]);
                    if i > 0 {
                        assert(pk[i] == rest[i - 1]);
                        assert(heights_of(rest)[i - 1] > heights_of(rest)[j - 1]);
                    }
                }
            }
        } else {
            lemma_scan_heights(offset, sz, t - 1);
        }
    }
}


/// Layout facts of the peaks of trees of heights `hs` placed from `offset`:
/// each tree ends where the next begins, and all lie within
/// `[offset, offset + heights_size(hs))`.
pub proof fn lemma_peaks_of_heights_layout(offset: int, hs: Seq<nat>)
    requires
        offset >= 0,
        offset + heights_size(hs) <= pow2(64),
        forall|i: int| 0 <= i < hs.len() ==> hs[i] <= top_height(),
    ensures
        ({
            let pk = peaks_of_heights(offset, hs);
            &&& pk.len() == hs.len()
            &&& heights_size(hs) >= 0
            &&& forall|i: int| 0 <= i < pk.len() ==> #[trigger] pk[i].1 == hs[i]
            &&& pk.len() > 0 ==> pk[0].0 == offset + tree_size(hs[0] as int) - 1
            &&& pk.len() > 0 ==> pk[pk.len() - 1].0 == offset + heights_size(hs) - 1
            &&& forall|i: int|
                0 <= i < pk.len() - 1 ==> #[trigger] pk[i + 1].0 == pk[i].0 + tree_size(
                    hs[i + 1] as int,
                )
            &&& forall|i: int|
                0 <= i < pk.len() ==> offset + tree_size(hs[i] as int) - 1 <= #[trigger] pk[i].0
                    <= offset + heights_size(hs) - 1
        }),
    decreases hs.len(),
{
    let pk = peaks_of_heights(offset, hs);
    if hs.len() > 0 {
        let t = hs[0] as int;
        let rest = hs.drop_first();
        lemma_tree_size_step(t);
        let o2 = offset + tree_size(t);
        lemma_peaks_of_heights_layout(o2, rest);
        let pr = peaks_of_heights(o2, rest);
        vstd::arithmetic::power2::lemma2_to64();
        assert(0 <= offset + tree_size(t) - 1 < pow2(64));
        assert(pk == seq![((offset + tree_size(t) - 1) as u64, t as u32)] + pr);
        assert forall|i: int| 0 <= i < pk.len() implies #[trigger] pk[i].1 == hs[i] by {
            if i > 0 {
                assert(pk[i] == pr[i - 1]);
            }
        }
        assert forall|i: int| 0 <= i < pk.len() - 1 implies #[trigger] pk[i + 1].0 == pk[i].0
            + tree_size(hs[i + 1] as int) by {
            assert(pk[i + 1] == pr[i]);
            if i > 0 {
                assert(pk[i] == pr[i - 1]);
            } else if pr.len() > 0 {
                assert(pr[0].0 == o2 + tree_size(rest[0] as int) - 1);
            }
        }
        assert forall|i: int| 0 <= i < pk.len() implies offset + tree_size(hs[i] as int) - 1
            <= #[trigger] pk[i].0 <= offset + heights_size(hs) - 1 by {
            if i > 0 {
                assert(pk[i] == pr[i - 1]);
            }
        }
        if pr.len() > 0 {
            assert(pk[pk.len() - 1] == pr[pr.len() - 1]);
        }
    }
}

/// Heights sizes and peak layouts split over a concatenation of height lists.
pub proof fn lemma_heights_concat(offset: int, a: Seq<nat>, b: Seq<nat>)
    ensures
        heights_size(a + b) == heights_size(a) + heights_size(b),
        peaks_of_heights(offset, a + b) == peaks_of_heights(offset, a) + peaks_of_heights(
            offset + heights_size(a),
            b,
        ),
    decreases a.len(),
{
    if a.len() == 0 {
        assert(a + b =~= b);
    } else {
        assert((a + b).drop_first() =~= a.drop_first() + b);
        lemma_heights_concat(offset + tree_size(a[0] as int), a.drop_first(), b);
        assert((a + b)[0] == a[0]);
    }
}

/// The heights `k - 1, k - 2, ..., 0`.
pub open spec fn heights_below(k: nat) -> Seq<nat>
    decreases k,
{
    if k == 0 {
        Seq::empty()
    } else {
        seq![(k - 1) as nat] + heights_below((k - 1) as nat)
    }
}

pub proof fn lemma_heights_below(k: nat)
    ensures
        heights_below(k).len() == k,
        forall|j: int| 0 <= j < k ==> #[trigger] heights_below(k)[j] == k - 1 - j,
        heights_size(heights_below(k)) == tree_size(k as int) - 1 - k,
    decreases k,
{
    if k == 0 {
        lemma_tree_size_step(0);
        lemma_pow2_unfold(1);
        assert(pow2(0) == 1) by {
            vstd::arithmetic::power2::lemma2_to64();
        }
    } else {
        lemma_heights_below((k - 1) as nat);
        lemma_tree_size_step(k as int);
        let hb = heights_below(k);
        assert(hb.drop_first() =~= heights_below((k - 1) as nat));
        assert forall|j: int| 0 <= j < k implies #[trigger] heights_below(k)[j] == k - 1 - j by {
            if j > 0 {
                assert(hb[j] == heights_below((k - 1) as nat)[j - 1]);
            }
        }
    }
}

/// A valid size determines its peaks as the layout of their heights.
pub proof fn lemma_valid_size_layout(sz: int)
    requires
        valid_size(sz),
    ensures
        ({
            let pk = peaks(sz);
            let hs = heights_of(pk);
            &&& strictly_decreasing(hs)
            &&& heights_size(hs) == sz
            &&& pk == peaks_of_heights(0, hs)
            &&& forall|i: int| 0 <= i < hs.len() ==> #[trigger] hs[i] <= top_height()
            &&& pk.len() > 0 ==> pk[0].0 == tree_size(pk[0].1 as int) - 1
            &&& pk.len() > 0 ==> pk[pk.len() - 1].0 == sz - 1
            &&& forall|i: int|
                0 <= i < pk.len() - 1 ==> #[trigger] pk[i + 1].0 == pk[i].0 + tree_size(
                    pk[i + 1].1 as int,
                )
            &&& forall|i: int|
                0 <= i < pk.len() ==> tree_size(pk[i].1 as int) - 1 <= #[trigger] pk[i].0 < sz
            &&& forall|i: int| 0 <= i < pk.len() ==> #[trigger] pk[i].1 <= top_height()
            &&& sz == 0 <==> pk.len() == 0
        }),
{
    let pk = peaks(sz);
    let hs = heights_of(pk);
    lemma_scan_heights(0, sz, top_height());
    assert forall|i: int| 0 <= i < hs.len() implies #[trigger] hs[i] <= top_height() by {
        assert(pk[i].1 <= top_height());
    }
    lemma_scan_of_heights(0, hs, top_height());
    vstd::arithmetic::power2::lemma2_to64();
    lemma_pow2_strictly_increases(63, 64);
    lemma_peaks_of_heights_layout(0, hs);
    if pk.len() == 0 {
        assert(hs =~= Seq::<nat>::empty());
    } else {
        lemma_tree_size_step(hs[0] as int);
    }
}


/// The longest run at the end of `pk[0..i]` whose heights drop by one from
/// each peak to the next.
pub open spec fn height_run(pk: Seq<(u64, u32)>, i: int) -> Seq<(u64, u32)>
    decreases i,
{
    if i <= 0 {
        Seq::empty()
    } else if i >= 2 && pk[i - 1].1 + 1 == pk[i - 2].1 {
        height_run(pk, i - 1).push(pk[i - 1])
    } else {
        seq![pk[i - 1]]
    }
}

/// The peaks that get a new parent when a leaf is added: the run of peaks of
/// contiguous heights ending with a leaf peak, if there is a leaf peak.
pub open spec fn merging_peaks(pk: Seq<(u64, u32)>) -> Seq<(u64, u32)> {
    if pk.len() > 0 && pk[pk.len() - 1].1 == 0 {
        height_run(pk, pk.len() as int)
    } else {
        Seq::empty()
    }
}

pub proof fn lemma_height_run(pk: Seq<(u64, u32)>, i: int)
    requires
        1 <= i <= pk.len(),
    ensures
        ({
            let c = height_run(pk, i);
            &&& 1 <= c.len() <= i
            &&& c == pk.subrange(i - c.len(), i)
            &&& forall|j: int| 0 <= j < c.len() - 1 ==> #[trigger] c[j].1 == c[j + 1].1 + 1
            &&& i - c.len() == 0 || pk[i - c.len() - 1].1 != c[0].1 + 1
        }),
    decreases i,
{
    let c = height_run(pk, i);
    if i >= 2 && pk[i - 1].1 + 1 == pk[i - 2].1 {
        lemma_height_run(pk, i - 1);
        let c0 = height_run(pk, i - 1);
        assert(c =~= pk.subrange(i - c.len(), i));
        assert forall|j: int| 0 <= j < c.len() - 1 implies #[trigger] c[j].1 == c[j + 1].1 + 1 by {
            if j < c0.len() - 1 {
                assert(c[j] == c0[j] && c[j + 1] == c0[j + 1]);
            } else {
                assert(c[j] == pk[i - 2]);
            }
        }
        assert(c[0] == c0[0]);
    } else {
        assert(c =~= pk.subrange(i - 1, i));
    }
}

pub proof fn lemma_heights_single(h: nat, offset: int)
    ensures
        heights_size(seq![h]) == tree_size(h as int),
        peaks_of_heights(offset, seq![h]) == seq![((offset + tree_size(h as int) - 1) as u64, h as u32)],
{
    assert(seq![h].drop_first() =~= Seq::<nat>::empty());
    assert(heights_size(Seq::<nat>::empty()) == 0);
    assert(peaks_of_heights(offset + tree_size(h as int), Seq::<nat>::empty()) =~= Seq::empty());
}

/// The run of merging peaks has heights `k - 1, ..., 0` at positions fixed by
/// the size, and the peak before it, if any, is taller than `k`.
#[verifier::rlimit(40)]
#[verifier::spinoff_prover]
pub proof fn lemma_merging_shape(sz: int)
    requires
        valid_size(sz),
        sz < pow2(62),
    ensures
        ({
            let pk = peaks(sz);
            let c = merging_peaks(pk);
            let k = c.len() as int;
            let m = pk.len() as int;
            let hs = heights_of(pk);
            &&& k <= m
            &&& k <= 61
            &&& c == pk.subrange(m - k, m)
            &&& forall|j: int|
                0 <= j < k ==> #[trigger] c[k - 1 - j] == ((sz + j + 1 - pow2((j + 1) as nat)) as u64, j as u32)
            &&& hs == hs.subrange(0, m - k) + heights_below(k as nat)
            &&& m - k > 0 ==> hs[m - k - 1] > k
        }),
{
    let pk = peaks(sz);
    let c = merging_peaks(pk);
    let k = c.len() as int;
    let m = pk.len() as int;
    let hs = heights_of(pk);
    lemma_valid_size_layout(sz);
    vstd::arithmetic::power2::lemma2_to64();
    vstd::arithmetic::power2::lemma2_to64_rest();
    if k > 0 {
        lemma_height_run(pk, m);
        assert forall|j: int| 0 <= j < k implies #[trigger] c[k - 1 - j].1 == j by {
            lemma_run_heights(c, j);
        }
    }
    assert(c == pk.subrange(m - k, m));
    let take = hs.subrange(0, m - k);
    let hb = heights_below(k as nat);
    lemma_heights_below(k as nat);
    assert(hs =~= take + hb) by {
        assert forall|j: int| m - k <= j < m implies hs[j] == hb[j - (m - k)] by {
            assert(c[j - (m - k)] == pk[j]);
            assert(c[k - 1 - (m - 1 - j)].1 == m - 1 - j);
        }
    }
    assert forall|j: int| 0 <= j < k implies #[trigger] c[k - 1 - j] == ((sz + j + 1 - pow2(
        (j + 1) as nat,
    )) as u64, j as u32) by {
        lemma_run_positions(sz, j, k);
        assert(c[k - 1 - j] == pk[m - 1 - j]);
    }
    if m - k > 0 {
        if k > 0 {
            assert(pk[m - k - 1].1 != k);
            assert(hs[m - k - 1] > hs[m - k]);
            assert(c[0].1 == k - 1);
        } else {
            assert(pk[m - 1].1 != 0);
        }
    }
    if k >= 62 {
        lemma_heights_concat(0, take, hb);
        lemma_tree_size_mono(61, k);
        assert(false);
    }
}

/// Adding a leaf and merging it with the run of merging peaks leaves a valid
/// MMR whose last peak has height `k` and ends at the new size.
#[verifier::rlimit(30)]
pub proof fn lemma_add_layout(sz: int)
    requires
        valid_size(sz),
        sz < pow2(62),
    ensures
        ({
            let pk = peaks(sz);
            let k = merging_peaks(pk).len() as int;
            let m = pk.len() as int;
            &&& valid_size(sz + 1 + k)
            &&& peaks(sz + 1 + k) == pk.subrange(0, m - k).push(((sz + k) as u64, k as u32))
        }),
{
    let pk = peaks(sz);
    let c = merging_peaks(pk);
    let k = c.len() as int;
    let m = pk.len() as int;
    let hs = heights_of(pk);
    lemma_valid_size_layout(sz);
    lemma_merging_shape(sz);
    vstd::arithmetic::power2::lemma2_to64();
    vstd::arithmetic::power2::lemma2_to64_rest();
    let take = hs.subrange(0, m - k);
    let hb = heights_below(k as nat);
    lemma_heights_below(k as nat);
    lemma_heights_concat(0, take, hb);
    let hs2 = take.push(k as nat);
    assert(strictly_decreasing(hs2)) by {
        assert forall|i: int, j: int| 0 <= i < j < hs2.len() implies hs2[i] > hs2[j] by {
            if j < m - k {
                assert(hs[i] > hs[j]);
            } else if m - k - 1 > i {
                assert(hs[i] > hs[m - k - 1]);
            }
        }
    }
    assert forall|i: int| 0 <= i < hs2.len() implies hs2[i] <= top_height() by {
        if i < m - k {
            assert(hs[i] <= top_height());
        }
    }
    lemma_heights_concat(0, take, seq![k as nat]);
    assert(hs2 =~= take + seq![k as nat]);
    lemma_heights_single(k as nat, heights_size(take));
    lemma_scan_of_heights(0, hs2, top_height());
    let sz2 = sz + 1 + k;
    assert(heights_size(hs2) == sz2);
    lemma_tree_size_mono(k, 62);
    assert(sz2 < pow2(63));
    assert(pk == peaks_of_heights(0, take) + peaks_of_heights(heights_size(take), hb));
    lemma_peaks_of_heights_layout(0, take);
    assert(peaks_of_heights(0, take) =~= pk.subrange(0, m - k));
}

proof fn lemma_run_heights(c: Seq<(u64, u32)>, j: int)
    requires
        0 <= j < c.len(),
        c[c.len() - 1].1 == 0,
        forall|i: int| 0 <= i < c.len() - 1 ==> #[trigger] c[i].1 == c[i + 1].1 + 1,
    ensures
        c[c.len() - 1 - j].1 == j,
    decreases j,
{
    if j > 0 {
        lemma_run_heights(c, j - 1);
        assert(c[c.len() - 1 - j].1 == c[c.len() - 1 - j + 1].1 + 1);
    }
}

proof fn lemma_run_positions(sz: int, j: int, k: int)
    requires
        valid_size(sz),
        0 <= j < k,
        k <= peaks(sz).len(),
        merging_peaks(peaks(sz)) == peaks(sz).subrange(peaks(sz).len() - k, peaks(sz).len() as int),
        forall|i: int| 0 <= i < k ==> #[trigger] merging_peaks(peaks(sz))[k - 1 - i].1 == i,
    ensures
        peaks(sz)[peaks(sz).len() - 1 - j].0 == sz + j + 1 - pow2((j + 1) as nat),
    decreases j,
{
    let pk = peaks(sz);
    let m = pk.len() as int;
    let c = merging_peaks(pk);
    lemma_valid_size_layout(sz);
    vstd::arithmetic::power2::lemma2_to64();
    if j == 0 {
    } else {
        lemma_run_positions(sz, j - 1, k);
        assert(pk[m - 1 - j + 1].0 == pk[m - 1 - j].0 + tree_size(pk[m - 1 - j + 1].1 as int));
        assert(c[k - 1 - (j - 1)] == pk[m - 1 - (j - 1)]);
        assert(pk[m - j].1 == j - 1);
        lemma_pow2_unfold((j + 1) as nat);
    }
}


/// The siblings of the nodes on the path from the root `p` of a perfect tree
/// of height `g` down towards `leaf`, top to bottom, each with whether it is
/// the left child of its parent.
pub open spec fn path(leaf: int, p: int, g: nat) -> Seq<(bool, u64)>
    decreases g,
{
    if g == 0 {
        Seq::empty()
    } else {
        let l = p - pow2(g);
        if l < leaf {
            seq![(true, l as u64)] + path(leaf, p - 1, (g - 1) as nat)
        } else {
            seq![(false, (p - 1) as u64)] + path(leaf, l, (g - 1) as nat)
        }
    }
}

/// The node reached after `d` steps down from `p` towards `leaf`.
pub open spec fn path_node(leaf: int, p: int, g: nat, d: nat) -> int
    decreases d,
{
    if d == 0 || g == 0 {
        p
    } else {
        let l = p - pow2(g);
        if l < leaf {
            path_node(leaf, p - 1, (g - 1) as nat, (d - 1) as nat)
        } else {
            path_node(leaf, l, (g - 1) as nat, (d - 1) as nat)
        }
    }
}

/// `q` is a leaf of the perfect tree of height `g` rooted at `p`.
pub open spec fn leaf_in(q: int, p: int, g: nat) -> bool
    decreases g,
{
    if g == 0 {
        q == p
    } else {
        leaf_in(q, p - pow2(g), (g - 1) as nat) || leaf_in(q, p - 1, (g - 1) as nat)
    }
}

/// `q` is the position of a leaf of an MMR of `sz` nodes.
pub open spec fn is_leaf(sz: int, q: int) -> bool {
    exists|i: int|
        0 <= i < peaks(sz).len() && #[trigger] leaf_in(
            q,
            peaks(sz)[i].0 as int,
            peaks(sz)[i].1 as nat,
        )
}

/// The index of the first peak at or after `pos`, or the number of peaks if
/// there is none.
pub open spec fn first_peak(pk: Seq<(u64, u32)>, pos: int) -> int
    decreases pk.len(),
{
    if pk.len() == 0 {
        0
    } else if pk[0].0 >= pos {
        0
    } else {
        1 + first_peak(pk.drop_first(), pos)
    }
}

pub proof fn lemma_first_peak(pk: Seq<(u64, u32)>, pos: int)
    ensures
        0 <= first_peak(pk, pos) <= pk.len(),
        first_peak(pk, pos) < pk.len() ==> pk[first_peak(pk, pos)].0 >= pos,
        forall|j: int| 0 <= j < first_peak(pk, pos) ==> #[trigger] pk[j].0 < pos,
    decreases pk.len(),
{
    if pk.len() > 0 && pk[0].0 < pos {
        lemma_first_peak(pk.drop_first(), pos);
        assert forall|j: int| 0 <= j < first_peak(pk, pos) implies #[trigger] pk[j].0 < pos by {
            if j > 0 {
                assert(pk[j] == pk.drop_first()[j - 1]);
            }
        }
    }
}

/// The first peak at or after `pos` is the only index with that property.
pub proof fn lemma_first_peak_unique(pk: Seq<(u64, u32)>, pos: int, k: int)
    requires
        0 <= k <= pk.len(),
        k < pk.len() ==> pk[k].0 >= pos,
        forall|j: int| 0 <= j < k ==> #[trigger] pk[j].0 < pos,
    ensures
        first_peak(pk, pos) == k,
{
    lemma_first_peak(pk, pos);
    let f = first_peak(pk, pos);
    if f < k {
        assert(pk[f].0 < pos);
    } else if k < f {
        assert(pk[k].0 < pos);
    }
}

pub proof fn lemma_path_len(leaf: int, p: int, g: nat)
    ensures
        path(leaf, p, g).len() == g,
    decreases g,
{
    if g > 0 {
        lemma_path_len(leaf, p - 1, (g - 1) as nat);
        lemma_path_len(leaf, p - pow2(g), (g - 1) as nat);
    }
}

/// The `d`-th entry of a path, and the node below it, in terms of the node
/// reached after `d` steps; every node on the path lies in the tree.
pub proof fn lemma_path_entry(leaf: int, p: int, g: nat, d: nat)
    requires
        d < g,
        p + 1 >= tree_size(g as int),
        p < pow2(64),
    ensures
        ({
            let q = path_node(leaf, p, g, d);
            let h = (g - d) as nat;
            let l = q - pow2(h);
            &&& path(leaf, p, g).len() == g
            &&& path(leaf, p, g)[d as int] == (if l < leaf {
                (true, l as u64)
            } else {
                (false, (q - 1) as u64)
            })
            &&& path_node(leaf, p, g, (d + 1) as nat) == (if l < leaf {
                q - 1
            } else {
                l
            })
            &&& q + 1 >= tree_size(h as int)
            &&& q - tree_size(h as int) >= p - tree_size(g as int)
            &&& q <= p
            &&& 0 <= l
            &&& p - tree_size(g as int) + 1 <= path(leaf, p, g)[d as int].1 <= p
        }),
    decreases d,
{
    lemma_path_len(leaf, p, g);
    let l0 = p - pow2(g);
    lemma_tree_size_step(g as int);
    vstd::arithmetic::power2::lemma2_to64();
    if d > 0 {
        let child = if l0 < leaf {
            p - 1
        } else {
            l0
        };
        assert(child + 1 >= tree_size(g - 1));
        lemma_path_entry(leaf, child, (g - 1) as nat, (d - 1) as nat);
        assert(path(leaf, p, g)[d as int] == path(leaf, child, (g - 1) as nat)[d - 1]);
        assert(path_node(leaf, p, g, d) == path_node(leaf, child, (g - 1) as nat, (d - 1) as nat));
        assert(path_node(leaf, p, g, (d + 1) as nat) == path_node(leaf, child, (g - 1) as nat, d));
    } else {
        lemma_pow2_pos(g as nat);
        let child = if l0 < leaf {
            p - 1
        } else {
            l0
        };
        assert(path_node(leaf, child, (g - 1) as nat, 0) == child);
        assert(path_node(leaf, p, g, 1) == child);
    }
    let h = (g - d) as nat;
    lemma_pow2_unfold(h + 1);
    lemma_pow2_unfold(h);
    lemma_pow2_pos((h - 1) as nat);
    let q = path_node(leaf, p, g, d);
    assert(q - tree_size(h as int) + 1 <= q - pow2(h));
}

/// The leaves of a perfect tree lie within its span of positions.
pub proof fn lemma_leaf_in_range(q: int, p: int, g: nat)
    requires
        leaf_in(q, p, g),
    ensures
        p - tree_size(g as int) + 1 <= q <= p,
    decreases g,
{
    lemma_tree_size_step(g as int);
    if g > 0 {
        lemma_pow2_unfold(g as nat);
        lemma_pow2_pos((g - 1) as nat);
        if leaf_in(q, p - pow2(g), (g - 1) as nat) {
            lemma_leaf_in_range(q, p - pow2(g), (g - 1) as nat);
        } else {
            lemma_leaf_in_range(q, p - 1, (g - 1) as nat);
        }
    }
}


/// Heights at which no tree fits do not change the scan.
pub proof fn lemma_scan_skip(offset: int, sz: int, h: int, t: int)
    requires
        -1 <= t <= h,
        offset + tree_size(t + 1) > sz,
    ensures
        peaks_from(offset, sz, h) == peaks_from(offset, sz, t),
        peaks_ok(offset, sz, h) == peaks_ok(offset, sz, t),
        step_ok(offset, sz, h) == step_ok(offset, sz, t),
    decreases h - t,
{
    if h > t {
        if h > t + 1 {
            lemma_tree_size_mono(t + 1, h);
        }
        lemma_scan_skip(offset, sz, h - 1, t);
    }
}

/// A scan that succeeds takes its next step without fault.
pub proof fn lemma_ok_step(offset: int, sz: int, h: int)
    requires
        peaks_ok(offset, sz, h),
    ensures
        step_ok(offset, sz, h),
    decreases h + 1,
{
    if h >= 0 && offset + tree_size(h) > sz {
        lemma_ok_step(offset, sz, h - 1);
    }
}


/// An MMR has at most one peak per height.
pub proof fn lemma_peaks_count(sz: int)
    requires
        valid_size(sz),
    ensures
        peaks(sz).len() <= top_height() + 1,
{
    lemma_valid_size_layout(sz);
    let hs = heights_of(peaks(sz));
    if hs.len() > top_height() + 1 {
        lemma_decreasing_drop(hs, top_height() + 1);
        assert(hs[top_height() + 1] <= top_height());
    }
}

proof fn lemma_decreasing_drop(hs: Seq<nat>, j: int)
    requires
        strictly_decreasing(hs),
        0 <= j < hs.len(),
    ensures
        hs[0] >= hs[j] + j,
    decreases j,
{
    if j > 0 {
        lemma_decreasing_drop(hs, j - 1);
        assert(hs[j - 1] > hs[j]);
    }
}

} // verus!
