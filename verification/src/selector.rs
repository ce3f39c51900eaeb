use vstd::prelude::*;
use rand::Rng;

verus! {

/// The sum of all weights.
pub open spec fn total_weight(weights: Seq<u64>) -> nat
    decreases weights.len(),
{
    if weights.len() == 0 {
        0
    } else {
        total_weight(weights.drop_last()) + weights.last() as nat
    }
}

/// The sum of the first `count` weights: the lower edge of bucket `count`.
pub open spec fn cumulative(weights: Seq<u64>, count: int) -> nat
    recommends
        0 <= count <= weights.len(),
{
    total_weight(weights.take(count))
}

/// Bucket `idx` holds `draw`: it is the first whose cumulative sum exceeds it.
pub open spec fn selects(weights: Seq<u64>, draw: nat, idx: int) -> bool {
    &&& 0 <= idx < weights.len()
    &&& cumulative(weights, idx) <= draw < cumulative(weights, idx + 1)
}

/// Adding one more weight to a prefix adds that weight to its sum.
pub proof fn lemma_cumulative_step(weights: Seq<u64>, count: int)
    requires
        0 <= count < weights.len(),
    ensures
        cumulative(weights, count + 1) == cumulative(weights, count) + weights[count] as nat,
{
    assert(weights.take(count + 1).drop_last() =~= weights.take(count));
}

/// Cumulative sums never decrease, and each is at most `u64::MAX` per weight.
pub proof fn lemma_cumulative_monotone(weights: Seq<u64>, low: int, high: int)
    requires
        0 <= low <= high <= weights.len(),
    ensures
        cumulative(weights, low) <= cumulative(weights, high),
        cumulative(weights, high) <= high * 0xffff_ffff_ffff_ffff,
    decreases high,
{
    if high == 0 {
        assert(weights.take(0).len() == 0);
    } else {
        lemma_cumulative_step(weights, high - 1);
        if low < high {
            lemma_cumulative_monotone(weights, low, high - 1);
        } else {
            lemma_cumulative_monotone(weights, low - 1, high - 1);
        }
        assert((high - 1) * 0xffff_ffff_ffff_ffff + 0xffff_ffff_ffff_ffff == high
            * 0xffff_ffff_ffff_ffff) by (nonlinear_arith);
    }
}

/// A draw falls into exactly one bucket, and never into an empty one: an
/// operator of weight zero is not selected.
pub proof fn lemma_selection_is_unique(weights: Seq<u64>, draw: nat, first: int, second: int)
    requires
        selects(weights, draw, first),
        selects(weights, draw, second),
    ensures
        first == second,
        weights[first] > 0,
{
    lemma_cumulative_step(weights, first);
    if first < second {
        lemma_cumulative_monotone(weights, first + 1, second);
    } else if second < first {
        lemma_cumulative_monotone(weights, second + 1, first);
    }
}

/// Every draw below the total weight falls into some bucket.
pub proof fn lemma_selection_exists(weights: Seq<u64>, draw: nat)
    requires
        draw < total_weight(weights),
    ensures
        exists|idx: int| selects(weights, draw, idx),
    decreases weights.len(),
{
    let n = weights.len() as int;
    assert(weights.take(n) =~= weights);
    if n > 0 {
        lemma_cumulative_step(weights, n - 1);
        if draw >= cumulative(weights, n - 1) {
            assert(selects(weights, draw, n - 1));
        } else {
            let shorter = weights.drop_last();
            assert(shorter =~= weights.take(n - 1));
            lemma_selection_exists(shorter, draw);
            let idx = choose|idx: int| selects(shorter, draw, idx);
            assert(shorter.take(idx) =~= weights.take(idx));
            assert(shorter.take(idx + 1) =~= weights.take(idx + 1));
            assert(selects(weights, draw, idx));
        }
    }
}

/// Adds up the weights.
pub fn sum_weights(weights: &Vec<u64>) -> (total: u128)
    ensures
        total == total_weight(weights@),
{
    let mut total: u128 = 0;
    let mut i: usize = 0;
    proof {
        lemma_cumulative_step_zero(weights@);
    }
    while i < weights.len()
        invariant
            i <= weights.len(),
            total == cumulative(weights@, i as int),
            total <= i * 0xffff_ffff_ffff_ffff,
        decreases weights.len() - i,
    {
        proof {
            lemma_cumulative_step(weights@, i as int);
            assert(i * 0xffff_ffff_ffff_ffff + 0xffff_ffff_ffff_ffff == (i + 1)
                * 0xffff_ffff_ffff_ffff) by (nonlinear_arith);
            assert((i + 1) * 0xffff_ffff_ffff_ffff <= 0x1_0000_0000_0000_0000
                * 0xffff_ffff_ffff_ffff) by (nonlinear_arith)
                requires
                    i + 1 <= 0x1_0000_0000_0000_0000,
            ;
        }
        total = total + weights[i] as u128;
        i = i + 1;
    }
    proof {
        assert(weights@.take(weights.len() as int) =~= weights@);
    }
    total
}

/// The index of the bucket that holds `draw`: the smallest index whose
/// cumulative weight is strictly greater than the draw.
pub fn select_index(weights: &Vec<u64>, draw: u128) -> (idx: usize)
    requires
        draw < total_weight(weights@),
    ensures
        selects(weights@, draw as nat, idx as int),
{
    let mut upper: u128 = 0;
    let mut i: usize = 0;
    proof {
        lemma_cumulative_step_zero(weights@);
        lemma_selection_exists(weights@, draw as nat);
    }
    let ghost target = choose|idx: int| selects(weights@, draw as nat, idx);
    loop
        invariant
            i <= target < weights.len(),
            selects(weights@, draw as nat, target),
            upper == cumulative(weights@, i as int),
            upper <= draw,
        decreases weights.len() - i,
    {
        proof {
            lemma_cumulative_step(weights@, i as int);
            lemma_cumulative_monotone(weights@, i as int + 1, weights.len() as int);
            lemma_cumulative_monotone(weights@, 0, weights.len() as int);
            assert(weights.len() * 0xffff_ffff_ffff_ffff <= 0x1_0000_0000_0000_0000
                * 0xffff_ffff_ffff_ffff) by (nonlinear_arith)
                requires
                    weights.len() <= 0x1_0000_0000_0000_0000,
            ;
        }
        upper = upper + weights[i] as u128;
        if draw < upper {
            return i;
        }
        proof {
            if i as int == target {
                assert(false);
            }
        }
        i = i + 1;
    }
}

/// The sum of no weights is zero.
proof fn lemma_cumulative_step_zero(weights: Seq<u64>)
    ensures
        cumulative(weights, 0) == 0,
{
    assert(weights.take(0).len() == 0);
}

/// Calls `rand::Rng::gen_range` on the thread-local generator with the range
/// `0..bound`. The range is not empty, so the call returns, and what it
/// returns lies in the range; nothing more is known of the value.
#[verifier::external_body]
pub(crate) fn draw_below(bound: u128) -> (draw: u128)
    requires
        bound > 0,
    ensures
        draw < bound,
{
    rand::thread_rng().gen_range(0..bound)
}

/// Draws an index at random, each with probability proportional to its
/// weight. Whatever the draw, the index is in range and its weight is positive.
pub fn select_with_weights(weights: &Vec<u64>) -> (idx: usize)
    requires
        total_weight(weights@) > 0,
    ensures
        idx < weights.len(),
        weights[idx as int] > 0,
{
    let total = sum_weights(weights);
    let draw = draw_below(total);
    let idx = select_index(weights, draw);
    proof {
        lemma_selection_is_unique(weights@, draw as nat, idx as int, idx as int);
    }
    idx
}

} // verus!
