//! Grouping of a spectrum's hot bins into regions: hot bins closer than the
//! merge gap are one region, so the two tones of an FSK transmitter are one
//! burst. Which bins are hot is decided on measured powers by the detector.

use vstd::prelude::*;

verus! {

/// One of the `gap` bins from `x` on is hot.
pub open spec fn hot_within(hot: Seq<bool>, x: int, gap: int) -> bool {
    exists|y: int| x <= y < x + gap && #[trigger] hot[y]
}

/// Bins `lo..=hi` hold no stretch of `gap` cold bins: every window of `gap`
/// bins strictly after `lo` and ending by `hi` holds a hot bin.
pub open spec fn no_gap(hot: Seq<bool>, lo: int, hi: int, gap: int) -> bool {
    forall|x: int| lo < x && x + gap <= hi ==> #[trigger] hot_within(hot, x, gap)
}

/// `regions` are the hot-bin regions of `hot` for merge gap `gap`: each runs
/// from a hot bin to a hot bin with no stretch of `gap` cold bins inside,
/// they come in order with more than `gap` bins between one and the next,
/// and every hot bin lies in one of them.
pub open spec fn are_regions(hot: Seq<bool>, gap: int, regions: Seq<(usize, usize)>) -> bool {
    &&& forall|i: int| 0 <= i < regions.len() ==> {
        let (lo, hi) = #[trigger] regions[i];
        &&& lo <= hi < hot.len()
        &&& hot[lo as int]
        &&& hot[hi as int]
        &&& no_gap(hot, lo as int, hi as int, gap)
    }
    &&& forall|i: int| 0 <= i < regions.len() - 1 ==> #[trigger] regions[i].1 + gap < regions[i + 1].0
    &&& forall|b: int| 0 <= b < hot.len() && #[trigger] hot[b] ==> exists|i: int|
        0 <= i < regions.len() && regions[i].0 <= b <= #[trigger] regions[i].1
}

/// Each region runs between hot bins below `k` with no gap inside.
spec fn regions_formed(hot: Seq<bool>, gap: int, regions: Seq<(usize, usize)>, k: int) -> bool {
    forall|i: int| 0 <= i < regions.len() ==> {
        let (lo, hi) = #[trigger] regions[i];
        &&& lo <= hi < k
        &&& hot[lo as int]
        &&& hot[hi as int]
        &&& no_gap(hot, lo as int, hi as int, gap)
    }
}

/// Consecutive regions are more than `gap` bins apart.
spec fn regions_apart(gap: int, regions: Seq<(usize, usize)>) -> bool {
    forall|i: int| 0 <= i < regions.len() - 1 ==> #[trigger] regions[i].1 + gap < regions[i + 1].0
}

/// Every hot bin below `k` lies in a region.
spec fn regions_cover(hot: Seq<bool>, regions: Seq<(usize, usize)>, k: int) -> bool {
    forall|b: int| 0 <= b < k && #[trigger] hot[b] ==> exists|i: int|
        0 <= i < regions.len() && regions[i].0 <= b <= #[trigger] regions[i].1
}

/// The hot bins at or after `k` are too far from the last region to join it.
spec fn regions_closed(hot: Seq<bool>, gap: int, regions: Seq<(usize, usize)>, k: int) -> bool {
    regions.len() > 0 ==> forall|b: int| k <= b < hot.len() && #[trigger] hot[b] ==> b > regions.last().1 + gap
}

/// `regions` are the regions of the hot bins below `k`, and the next hot bin
/// at or after `k` is too far from the last region to join it.
spec fn regions_upto(hot: Seq<bool>, gap: int, regions: Seq<(usize, usize)>, k: int) -> bool {
    &&& regions_formed(hot, gap, regions, k)
    &&& regions_apart(gap, regions)
    &&& regions_cover(hot, regions, k)
    &&& regions_closed(hot, gap, regions, k)
}

/// A cold bin extends the regions found so far.
proof fn lemma_skip_cold(hot: Seq<bool>, gap: int, regions: Seq<(usize, usize)>, k: int)
    requires
        0 <= k < hot.len(),
        !hot[k],
        regions_upto(hot, gap, regions, k),
    ensures
        regions_upto(hot, gap, regions, k + 1),
{
}

proof fn lemma_add_formed(hot: Seq<bool>, gap: int, regions: Seq<(usize, usize)>, lo: usize, hi: usize)
    requires
        lo <= hi < hot.len(),
        hot[lo as int],
        hot[hi as int],
        no_gap(hot, lo as int, hi as int, gap),
        regions_formed(hot, gap, regions, lo as int),
    ensures
        regions_formed(hot, gap, regions.push((lo, hi)), hi + 1),
{
    let out = regions.push((lo, hi));
    assert forall|i: int| 0 <= i < out.len() implies {
        let (l, r) = #[trigger] out[i];
        &&& l <= r < hi + 1
        &&& hot[l as int]
        &&& hot[r as int]
        &&& no_gap(hot, l as int, r as int, gap)
    } by {
        if i < regions.len() {
            assert(out[i] == regions[i]);
        }
    }
}

proof fn lemma_add_apart(hot: Seq<bool>, gap: int, regions: Seq<(usize, usize)>, lo: usize, hi: usize)
    requires
        lo < hot.len(),
        hot[lo as int],
        regions_apart(gap, regions),
        regions_closed(hot, gap, regions, lo as int),
    ensures
        regions_apart(gap, regions.push((lo, hi))),
{
    let out = regions.push((lo, hi));
    assert forall|i: int| 0 <= i < out.len() - 1 implies #[trigger] out[i].1 + gap < out[i + 1].0 by {
        if i < regions.len() - 1 {
            assert(out[i] == regions[i] && out[i + 1] == regions[i + 1]);
        } else {
            assert(out[i] == regions.last());
        }
    }
}

proof fn lemma_add_cover(hot: Seq<bool>, regions: Seq<(usize, usize)>, lo: usize, hi: usize)
    requires
        lo <= hi < hot.len(),
        regions_cover(hot, regions, lo as int),
    ensures
        regions_cover(hot, regions.push((lo, hi)), hi + 1),
{
    let out = regions.push((lo, hi));
    let n = regions.len() as int;
    assert(out[n] == (lo, hi));
    assert forall|b: int| 0 <= b < hi + 1 && #[trigger] hot[b] implies exists|i: int|
        0 <= i < out.len() && out[i].0 <= b <= #[trigger] out[i].1 by {
        if b < lo {
            let i = choose|i: int| 0 <= i < regions.len() && regions[i].0 <= b <= #[trigger] regions[i].1;
            assert(out[i] == regions[i]);
            assert(out[i].1 == regions[i].1);
        } else {
            assert(out[n].1 == hi);
        }
    }
}

/// A region `lo..=hi` whose next `gap` bins are cold (or beyond the end)
/// extends the regions found so far.
proof fn lemma_add_region(hot: Seq<bool>, gap: int, regions: Seq<(usize, usize)>, lo: usize, hi: usize)
    requires
        lo <= hi < hot.len(),
        hot[lo as int],
        hot[hi as int],
        no_gap(hot, lo as int, hi as int, gap),
        forall|y: int| hi < y < hot.len() && y <= hi + gap ==> !#[trigger] hot[y],
        regions_upto(hot, gap, regions, lo as int),
    ensures
        regions_upto(hot, gap, regions.push((lo, hi)), hi + 1),
{
    lemma_add_formed(hot, gap, regions, lo, hi);
    lemma_add_apart(hot, gap, regions, lo, hi);
    lemma_add_cover(hot, regions, lo, hi);
    let out = regions.push((lo, hi));
    assert(out.last() == (lo, hi));
}

/// The regions of hot bins, bridging runs of up to `gap_bins - 1` cold bins
/// (two hot bins at most `gap_bins` apart are one region).
pub fn hot_regions(hot: &[bool], gap_bins: usize) -> (r: Vec<(usize, usize)>)
    ensures
        are_regions(hot@, gap_bins as int, r@),
{
    let n = hot.len();
    let ghost h = hot@;
    let ghost g = gap_bins as int;
    let mut out: Vec<(usize, usize)> = Vec::new();
    let mut k: usize = 0;
    while k < n
        invariant
            k <= n,
            n == h.len(),
            h == hot@,
            g == gap_bins,
            regions_upto(h, g, out@, k as int),
        decreases n - k,
    {
        if hot[k] {
            let lo = k;
            let mut hi = k;
            let mut j = k + 1;
            while j < n && j - hi <= gap_bins
                invariant
                    lo <= hi < j <= n,
                    n == h.len(),
                    h == hot@,
                    g == gap_bins,
                    h[lo as int],
                    h[hi as int],
                    j - hi <= g + 1,
                    no_gap(h, lo as int, hi as int, g),
                    forall|y: int| hi < y < j ==> !#[trigger] h[y],
                decreases n - j,
            {
                if hot[j] {
                    let ghost old_hi = hi as int;
                    assert forall|x: int| lo < x && x + g <= j implies #[trigger] hot_within(h, x, g) by {
                        if x + g <= old_hi {
                            assert(no_gap(h, lo as int, old_hi, g));
                        } else {
                            assert(x <= old_hi);
                            assert(h[old_hi]);
                        }
                    }
                    hi = j;
                }
                j = j + 1;
            }
            proof {
                lemma_add_region(h, g, out@, lo, hi);
            }
            out.push((lo, hi));
            k = hi + 1;
        } else {
            proof {
                lemma_skip_cold(h, g, out@, k as int);
            }
            k = k + 1;
        }
    }
    out
}

} // verus!
