//! Fee estimation over the mempool's fee histogram.
//!
//! The histogram lists `(fee rate, vsize)` buckets sorted by descending fee
//! rate.  Fee rates are integer sat/vB; the caller converts to its preferred
//! display unit.
use vstd::prelude::*;

verus! {

/// Buckets sorted by descending fee rate.
pub open spec fn histogram_sorted(hist: Seq<(u64, u32)>) -> bool {
    forall|i: int, j: int| 0 <= i < j < hist.len() ==> (#[trigger] hist[i]).0 >= (#[trigger] hist[j]).0
}

/// Walk the buckets from the highest fee rate down, accumulating vsize on
/// top of `acc`; the first bucket that carries the total to `target` names
/// the answer.  With no bucket left the last rate seen (`last`) stands, so
/// an empty histogram estimates zero.
pub open spec fn estimate_walk(hist: Seq<(u64, u32)>, target: int, acc: int, last: u64) -> u64
    decreases hist.len(),
{
    if hist.len() == 0 {
        last
    } else {
        let acc2 = acc + hist[0].1;
        if acc2 >= target {
            hist[0].0
        } else {
            estimate_walk(hist.drop_first(), target, acc2, hist[0].0)
        }
    }
}

/// The estimated fee rate (sat/vB) for confirmation within `blocks` blocks,
/// taking a block as 1,000,000 vbytes.
pub open spec fn estimate_fee_rate(hist: Seq<(u64, u32)>, blocks: int) -> u64 {
    estimate_walk(hist, blocks * 1_000_000, 0, 0)
}

/// Estimate the fee rate needed to confirm within `blocks` blocks.
pub fn estimate_from_histogram(hist: &Vec<(u64, u32)>, blocks: usize) -> (r: u64)
    ensures
        r == estimate_fee_rate(hist@, blocks as int),
{
    let target: u128 = (blocks as u128) * 1_000_000;
    let mut total: u128 = 0;
    let mut last: u64 = 0;
    let n = hist.len();
    let mut i: usize = 0;
    proof {
        assert(hist@.skip(0) =~= hist@);
    }
    while i < n
        invariant
            n == hist.len(),
            i <= n,
            target == (blocks as int) * 1_000_000,
            total <= i * 0x1_0000_0000,
            estimate_fee_rate(hist@, blocks as int) == estimate_walk(
                hist@.skip(i as int),
                target as int,
                total as int,
                last,
            ),
        decreases n - i,
    {
        let (rate, vsize) = hist[i];
        proof {
            assert(hist@.skip(i as int)[0] == hist@[i as int]);
            assert(hist@.skip(i as int).drop_first() =~= hist@.skip(i + 1));
            assert(total + vsize <= (i + 1) * 0x1_0000_0000);
        }
        total = total + (vsize as u128);
        last = rate;
        if total >= target {
            return last;
        }
        i = i + 1;
    }
    proof {
        assert(hist@.skip(n as int).len() == 0);
    }
    last
}

} // verus!
