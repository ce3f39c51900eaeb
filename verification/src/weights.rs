use vstd::prelude::*;
use crate::selector::{cumulative, lemma_cumulative_monotone, lemma_cumulative_step, total_weight};

verus! {

/// The fixed-point unit: the integer that stands for 1.0.
pub const UNIT: u64 = 1_000_000;

/// The number of iterations after which the weights are recomputed.
pub const SEGMENT_SIZE: u64 = 200;

/// The largest reward that a segment can accumulate without overflow.
pub const MAX_REWARD: u64 = 92_233_720_368_542_758;

/// The weight of an operator after a segment in which it was used `usage`
/// times and gathered `score`: the old weight and the mean score per use,
/// mixed by `reaction` (a fraction of `UNIT`), rounded down.
pub open spec fn smoothed(weight: u64, reaction: u64, score: u64, usage: u64) -> int
    recommends
        reaction <= UNIT,
        usage > 0,
{
    ((UNIT - reaction) * weight + reaction * (score as int / usage as int)) / (UNIT as int)
}

/// A smoothed weight lies between the old weight and the mean score.
pub proof fn lemma_smoothed_between(weight: u64, reaction: u64, score: u64, usage: u64)
    requires
        reaction <= UNIT,
        usage > 0,
    ensures
        weight <= score as int / usage as int ==> weight <= smoothed(weight, reaction, score, usage)
            <= score as int / usage as int,
        weight >= score as int / usage as int ==> weight >= smoothed(weight, reaction, score, usage)
            >= score as int / usage as int,
        0 <= score as int / usage as int <= score,
{
    let mean = score as int / usage as int;
    let w = weight as int;
    let r = reaction as int;
    let u = UNIT as int;
    assert(0 <= mean <= score) by (nonlinear_arith)
        requires
            mean == score as int / usage as int,
            usage > 0,
    ;
    assert(w <= mean ==> u * w <= (u - r) * w + r * mean <= u * mean) by (nonlinear_arith)
        requires
            0 <= r <= u,
    ;
    assert(w >= mean ==> u * w >= (u - r) * w + r * mean >= u * mean) by (nonlinear_arith)
        requires
            0 <= r <= u,
    ;
    let mixed = (u - r) * w + r * mean;
    assert(u * w <= mixed ==> w <= mixed / u) by (nonlinear_arith)
        requires
            u > 0,
    ;
    assert(mixed <= u * w ==> mixed / u <= w) by (nonlinear_arith)
        requires
            u > 0,
    ;
    assert(u * mean <= mixed ==> mean <= mixed / u) by (nonlinear_arith)
        requires
            u > 0,
    ;
    assert(mixed <= u * mean ==> mixed / u <= mean) by (nonlinear_arith)
        requires
            u > 0,
    ;
}

/// With a reaction of one, an operator used once takes its segment score as
/// its weight, whatever the weight was before.
pub proof fn lemma_full_reaction_discards_history(weight: u64, score: u64)
    ensures
        smoothed(weight, UNIT, score, 1) == score,
{
    assert((0 * weight + UNIT * (score as int / 1)) / (UNIT as int) == score) by (nonlinear_arith);
}

/// With a reaction of zero, a weight stays as it is, whatever the segment gave.
pub proof fn lemma_zero_reaction_freezes(weight: u64, score: u64, usage: u64)
    requires
        usage > 0,
    ensures
        smoothed(weight, 0, score, usage) == weight,
{
    assert(((UNIT - 0) * weight + 0 * (score as int / usage as int)) / (UNIT as int) == weight)
        by (nonlinear_arith);
}

/// At a segment boundary with a reaction of one, an operator that was used
/// once has exactly its segment score as its weight.
pub proof fn lemma_fold_with_full_reaction(stats: Tally, idx: int)
    requires
        0 <= idx < stats.weights.len(),
        stats.usage[idx] == 1,
    ensures
        stats.folded(UNIT).weights[idx] == stats.scores[idx],
{
    lemma_full_reaction_discards_history(stats.weights[idx], stats.scores[idx]);
}

/// At a segment boundary with a reaction of zero, all weights stay as they
/// are, whatever the scores of the segment.
pub proof fn lemma_fold_with_zero_reaction(stats: Tally)
    ensures
        stats.folded(0).weights == stats.weights,
{
    assert forall|i: int| 0 <= i < stats.weights.len() implies stats.folded(0).weights[i]
        == stats.weights[i] by {
        if stats.usage[i] > 0 {
            lemma_zero_reaction_freezes(stats.weights[i], stats.scores[i], stats.usage[i]);
        }
    }
    assert(stats.folded(0).weights =~= stats.weights);
}

/// An operator that was not used in a segment keeps its weight.
pub proof fn lemma_fold_keeps_unused(stats: Tally, reaction: u64, idx: int)
    requires
        0 <= idx < stats.weights.len(),
        stats.usage[idx] == 0,
    ensures
        stats.folded(reaction).weights[idx] == stats.weights[idx],
{
}

/// Computes the weight of an operator at a segment boundary.
pub fn smooth(weight: u64, reaction: u64, score: u64, usage: u64) -> (updated: u64)
    requires
        reaction <= UNIT,
        usage > 0,
    ensures
        updated == smoothed(weight, reaction, score, usage),
{
    let mean: u64 = score / usage;
    proof {
        lemma_smoothed_between(weight, reaction, score, usage);
        assert((UNIT - reaction) * weight <= 1_000_000 * 0xffff_ffff_ffff_ffff) by (nonlinear_arith)
            requires
                0 <= UNIT - reaction <= 1_000_000,
                0 <= weight <= 0xffff_ffff_ffff_ffff,
        ;
        assert(reaction * mean <= 1_000_000 * 0xffff_ffff_ffff_ffff) by (nonlinear_arith)
            requires
                0 <= reaction <= 1_000_000,
                0 <= mean <= 0xffff_ffff_ffff_ffff,
        ;
    }
    let keep: u128 = (UNIT - reaction) as u128 * (weight as u128);
    let gain: u128 = (reaction as u128) * (mean as u128);
    let mixed: u128 = (keep + gain) / (UNIT as u128);
    mixed as u64
}

/// What a pool's statistics hold: a long-lived weight per operator, and for
/// the running segment the number of uses and the accumulated score of each.
pub struct Tally {
    pub weights: Seq<u64>,
    pub usage: Seq<u64>,
    pub scores: Seq<u64>,
}

impl Tally {
    /// The three sequences run in parallel, every weight is positive, no
    /// operator was used more often than a segment is long, and every score
    /// holds at least the baseline.
    pub open spec fn wf(self) -> bool {
        &&& self.usage.len() == self.weights.len()
        &&& self.scores.len() == self.weights.len()
        &&& forall|i: int| 0 <= i < self.weights.len() ==> #[trigger] self.weights[i] > 0
        &&& forall|i: int| 0 <= i < self.usage.len() ==> #[trigger] self.usage[i] <= SEGMENT_SIZE
        &&& forall|i: int| 0 <= i < self.scores.len() ==> #[trigger] self.scores[i] >= UNIT
    }

    /// The statistics at the start of a run and of every segment's counters:
    /// every weight is 1.0, no operator was used, every score is at the
    /// baseline of 1.0.
    pub open spec fn fresh(count: nat) -> Tally {
        Tally {
            weights: Seq::new(count, |i: int| UNIT),
            usage: Seq::new(count, |i: int| 0u64),
            scores: Seq::new(count, |i: int| UNIT),
        }
    }

    /// One more use of operator `idx`, in an iteration that earned `score`.
    pub open spec fn recorded(self, idx: int, score: u64) -> Tally {
        Tally {
            weights: self.weights,
            usage: self.usage.update(idx, (self.usage[idx] + 1) as u64),
            scores: self.scores.update(idx, (self.scores[idx] + score) as u64),
        }
    }

    /// The statistics after a segment boundary: every operator that was used
    /// has its smoothed weight, the others keep theirs, and the counters and
    /// scores of the segment start anew.
    pub open spec fn folded(self, reaction: u64) -> Tally {
        Tally {
            weights: Seq::new(
                self.weights.len(),
                |i: int|
                    if self.usage[i] > 0 {
                        smoothed(self.weights[i], reaction, self.scores[i], self.usage[i]) as u64
                    } else {
                        self.weights[i]
                    },
            ),
            usage: Seq::new(self.weights.len(), |i: int| 0u64),
            scores: Seq::new(self.weights.len(), |i: int| UNIT),
        }
    }
}

/// The adaptive statistics of one operator pool.
pub struct OperatorWeights {
    pub weights: Vec<u64>,
    pub usage: Vec<u64>,
    pub scores: Vec<u64>,
}

impl View for OperatorWeights {
    type V = Tally;

    open spec fn view(&self) -> Tally {
        Tally { weights: self.weights@, usage: self.usage@, scores: self.scores@ }
    }
}

impl OperatorWeights {
    /// The statistics are well formed.
    pub open spec fn wf(&self) -> bool {
        self@.wf()
    }

    /// The number of operators in the pool.
    pub open spec fn pool_size(&self) -> nat {
        self.weights.len() as nat
    }

    /// Statistics for a pool of `count` operators at the start of a run.
    pub fn new(count: usize) -> (fresh: Self)
        ensures
            fresh@ == Tally::fresh(count as nat),
            fresh.wf(),
    {
        let fresh = OperatorWeights {
            weights: filled(UNIT, count),
            usage: filled(0, count),
            scores: filled(UNIT, count),
        };
        assert(fresh.weights@ =~= Seq::new(count as nat, |i: int| UNIT));
        assert(fresh.usage@ =~= Seq::new(count as nat, |i: int| 0u64));
        assert(fresh.scores@ =~= Seq::new(count as nat, |i: int| UNIT));
        fresh
    }

    /// Notes that operator `idx` was used in an iteration that earned `score`.
    pub fn record(&mut self, idx: usize, score: u64)
        requires
            old(self).wf(),
            idx < old(self).pool_size(),
            old(self).usage[idx as int] < SEGMENT_SIZE,
            old(self).scores[idx as int] + score <= u64::MAX,
        ensures
            final(self).wf(),
            final(self)@ == old(self)@.recorded(idx as int, score),
    {
        let used: u64 = self.usage[idx];
        let gathered: u64 = self.scores[idx];
        self.usage.set(idx, used + 1);
        self.scores.set(idx, gathered + score);
    }

    /// Closes a segment: folds the segment's scores into the weights and
    /// starts the counters and scores anew.
    pub fn fold(&mut self, reaction: u64)
        requires
            old(self).wf(),
            reaction <= UNIT,
        ensures
            final(self).wf(),
            final(self)@ == old(self)@.folded(reaction),
    {
        let count = self.weights.len();
        let mut i: usize = 0;
        while i < count
            invariant
                i <= count,
                count == old(self).weights.len(),
                reaction <= UNIT,
                old(self).wf(),
                self.weights.len() == count,
                self.usage@ == old(self).usage@,
                self.scores@ == old(self).scores@,
                forall|j: int| i <= j < count ==> self.weights[j] == old(self).weights[j],
                forall|j: int| 0 <= j < count ==> #[trigger] self.weights[j] > 0,
                forall|j: int|
                    0 <= j < i ==> #[trigger] self.weights[j] == old(self)@.folded(
                        reaction,
                    ).weights[j],
            decreases count - i,
        {
            let used: u64 = self.usage[i];
            if used > 0 {
                let before: u64 = self.weights[i];
                let gathered: u64 = self.scores[i];
                let updated = smooth(before, reaction, gathered, used);
                proof {
                    lemma_smoothed_between(before, reaction, gathered, used);
                    assert(old(self).usage[i as int] <= SEGMENT_SIZE);
                    assert(old(self).scores[i as int] >= UNIT);
                    assert(old(self).weights[i as int] > 0);
                    assert(gathered as int / used as int >= 1) by (nonlinear_arith)
                        requires
                            0 < used <= 200,
                            gathered >= 1_000_000,
                    ;
                }
                self.weights.set(i, updated);
            }
            i = i + 1;
        }
        self.usage = filled(0, count);
        self.scores = filled(UNIT, count);
        assert(self@.weights =~= old(self)@.folded(reaction).weights);
        assert(self@.usage =~= old(self)@.folded(reaction).usage);
        assert(self@.scores =~= old(self)@.folded(reaction).scores);
    }

    /// The weights sum to more than zero as soon as the pool holds an operator.
    pub proof fn lemma_total_is_positive(&self)
        requires
            self.wf(),
            self.pool_size() > 0,
        ensures
            total_weight(self.weights@) > 0,
    {
        let n = self.weights@.len() as int;
        assert(self.weights@.take(n) =~= self.weights@);
        lemma_cumulative_step(self.weights@, n - 1);
        lemma_cumulative_monotone(self.weights@, 0, n - 1);
        assert(self.weights[n - 1] > 0);
        assert(cumulative(self.weights@, n) > 0);
    }
}

/// A vector that holds `value` at each of `count` places.
pub fn filled(value: u64, count: usize) -> (all: Vec<u64>)
    ensures
        all.len() == count,
        forall|i: int| 0 <= i < count ==> all[i] == value,
{
    let mut all: Vec<u64> = Vec::new();
    let mut i: usize = 0;
    while i < count
        invariant
            i <= count,
            all.len() == i,
            forall|j: int| 0 <= j < i ==> all[j] == value,
        decreases count - i,
    {
        all.push(value);
        i = i + 1;
    }
    all
}

} // verus!
