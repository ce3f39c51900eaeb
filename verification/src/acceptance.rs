use vstd::prelude::*;
use crate::state::State;
use crate::weights::UNIT;

verus! {

/// Decides whether a repaired candidate replaces the current solution.
/// A criterion may change its own state on every call.
pub trait AcceptanceCriteria<S: State> {
    fn accept(&mut self, best: &S, current: &S, candidate: &S) -> bool;
}

/// Accepts exactly the candidates that cost less than the current solution.
pub struct HillClimbAcceptanceCriteria {}

impl HillClimbAcceptanceCriteria {
    pub fn new() -> (criterion: Self)
        ensures
            criterion == (HillClimbAcceptanceCriteria {}),
    {
        HillClimbAcceptanceCriteria {}
    }
}

impl<S: State> AcceptanceCriteria<S> for HillClimbAcceptanceCriteria {
    fn accept(&mut self, best: &S, current: &S, candidate: &S) -> (accepted: bool)
        ensures
            accepted == (candidate.cost() < current.cost()),
            *final(self) == *old(self),
    {
        candidate.objective() < current.objective()
    }
}

/// Whether a candidate's relative gap to the best solution,
/// `(candidate - best) / candidate`, is below `threshold` (a fraction of
/// `UNIT`). A candidate of cost zero has no relative gap: it is within the
/// band exactly when it costs less than the best solution.
pub open spec fn within_band(best: u64, candidate: u64, threshold: u64) -> bool {
    if candidate == 0 {
        best > 0
    } else {
        (candidate - best) * UNIT < threshold * candidate
    }
}

/// The threshold after `calls` calls: it falls evenly from `start` to
/// `end` over `iterations` calls, the fall rounded down, and stays at `end`
/// from then on.
pub open spec fn level(start: u64, end: u64, iterations: u64, calls: u64) -> u64 {
    if calls >= iterations || start < end {
        end
    } else {
        (start - ((start - end) * calls) / (iterations as int)) as u64
    }
}

/// The fall of the threshold after some of the calls is no more than the
/// whole fall.
proof fn lemma_fall_is_bounded(span: int, iterations: int, earlier: int, later: int)
    requires
        0 <= span,
        0 <= earlier <= later <= iterations,
        0 < iterations,
    ensures
        0 <= (span * earlier) / iterations <= (span * later) / iterations <= span,
{
    assert(0 <= span * earlier <= span * later <= span * iterations) by (nonlinear_arith)
        requires
            0 <= span,
            0 <= earlier <= later <= iterations,
    ;
    assert((span * iterations) / iterations == span) by (nonlinear_arith)
        requires
            0 < iterations,
    ;
    assert(0 <= (span * earlier) / iterations <= (span * later) / iterations <= (span * iterations)
        / iterations) by (nonlinear_arith)
        requires
            0 <= span * earlier <= span * later <= span * iterations,
            0 < iterations,
    ;
}

/// However many calls were made, the threshold is not below its floor; it
/// starts at `start`, is never above it, and is at the floor once
/// `iterations` calls were made.
pub proof fn lemma_threshold_keeps_floor(start: u64, end: u64, iterations: u64, calls: u64)
    ensures
        end <= level(start, end, iterations, calls),
        end <= start ==> level(start, end, iterations, calls) <= start,
        end <= start && 0 < iterations ==> level(start, end, iterations, 0) == start,
        calls >= iterations ==> level(start, end, iterations, calls) == end,
{
    if end <= start && 0 < iterations {
        lemma_fall_is_bounded(start - end, iterations as int, 0, 0);
        assert((start - end) * 0 == 0);
        if calls < iterations {
            lemma_fall_is_bounded(start - end, iterations as int, calls as int, calls as int);
        }
    }
}

/// The threshold never rises from one call to a later one.
pub proof fn lemma_threshold_never_rises(
    start: u64,
    end: u64,
    iterations: u64,
    earlier: u64,
    later: u64,
)
    requires
        end <= start,
        earlier <= later,
    ensures
        level(start, end, iterations, later) <= level(start, end, iterations, earlier),
{
    lemma_threshold_keeps_floor(start, end, iterations, earlier);
    if later < iterations {
        lemma_fall_is_bounded(start - end, iterations as int, earlier as int, later as int);
    }
}

/// Accepts the candidates whose relative gap to the best solution is below a
/// threshold, which falls evenly with every call from a start value down to
/// a floor. The thresholds are fractions of `UNIT`.
pub struct RecordToRecordTravelAcceptanceCriteria {
    /// The threshold that the next call decides by.
    pub threshold: u64,
    pub start_threshold: u64,
    pub end_threshold: u64,
    /// The number of calls over which the threshold falls to its floor.
    pub iterations: u64,
    /// The number of calls made, counted up to `iterations`.
    pub calls: u64,
}

impl RecordToRecordTravelAcceptanceCriteria {
    /// A criterion that starts at `start_th` and is at `end_th` after
    /// `iterations` calls.
    pub fn new(start_th: u64, end_th: u64, iterations: u64) -> (criterion: Self)
        requires
            iterations > 0,
            end_th <= start_th,
        ensures
            criterion.threshold == start_th,
            criterion.threshold == level(start_th, end_th, iterations, 0),
            criterion.start_threshold == start_th,
            criterion.end_threshold == end_th,
            criterion.iterations == iterations,
            criterion.calls == 0,
    {
        proof {
            lemma_threshold_keeps_floor(start_th, end_th, iterations, 0);
        }
        RecordToRecordTravelAcceptanceCriteria {
            threshold: start_th,
            start_threshold: start_th,
            end_threshold: end_th,
            iterations,
            calls: 0,
        }
    }
}

impl<S: State> AcceptanceCriteria<S> for RecordToRecordTravelAcceptanceCriteria {
    /// Decides by the threshold as it stands, then counts the call and lets
    /// the threshold fall.
    fn accept(&mut self, best: &S, current: &S, candidate: &S) -> (accepted: bool)
        ensures
            accepted == within_band(best.cost(), candidate.cost(), old(self).threshold),
            final(self).calls == (if old(self).calls < old(self).iterations {
                old(self).calls + 1
            } else {
                old(self).calls as int
            }),
            final(self).threshold == level(
                old(self).start_threshold,
                old(self).end_threshold,
                old(self).iterations,
                final(self).calls,
            ),
            final(self).threshold >= final(self).end_threshold,
            final(self).start_threshold == old(self).start_threshold,
            final(self).end_threshold == old(self).end_threshold,
            final(self).iterations == old(self).iterations,
    {
        let best: u64 = best.objective();
        let candidate: u64 = candidate.objective();
        let accepted = if candidate == 0 {
            best > 0
        } else if candidate < best {
            proof {
                assert((candidate - best) * UNIT < 0 <= self.threshold * candidate)
                    by (nonlinear_arith)
                    requires
                        candidate - best < 0,
                        self.threshold >= 0,
                        candidate >= 0,
                ;
            }
            true
        } else {
            proof {
                assert((candidate - best) * 1_000_000 <= 0xffff_ffff_ffff_ffff * 1_000_000)
                    by (nonlinear_arith)
                    requires
                        0 <= candidate - best <= 0xffff_ffff_ffff_ffff,
                ;
                assert(self.threshold * candidate <= 0xffff_ffff_ffff_ffff * 0xffff_ffff_ffff_ffff)
                    by (nonlinear_arith)
                    requires
                        0 <= self.threshold <= 0xffff_ffff_ffff_ffff,
                        0 <= candidate <= 0xffff_ffff_ffff_ffff,
                ;
            }
            let gap: u128 = (candidate - best) as u128 * (UNIT as u128);
            let band: u128 = (self.threshold as u128) * (candidate as u128);
            gap < band
        };
        if self.calls < self.iterations {
            self.calls = self.calls + 1;
        }
        if self.calls >= self.iterations || self.start_threshold < self.end_threshold {
            self.threshold = self.end_threshold;
        } else {
            let span: u64 = self.start_threshold - self.end_threshold;
            proof {
                lemma_fall_is_bounded(
                    span as int,
                    self.iterations as int,
                    self.calls as int,
                    self.calls as int,
                );
                assert(span * self.calls <= 0xffff_ffff_ffff_ffff * 0xffff_ffff_ffff_ffff)
                    by (nonlinear_arith)
                    requires
                        0 <= span <= 0xffff_ffff_ffff_ffff,
                        0 <= self.calls <= 0xffff_ffff_ffff_ffff,
                ;
            }
            let fall: u128 = (span as u128) * (self.calls as u128) / (self.iterations as u128);
            self.threshold = self.start_threshold - (fall as u64);
        }
        accepted
    }
}

} // verus!
