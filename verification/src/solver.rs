use vstd::prelude::*;
use vstd::std_specs::hash::obeys_key_model;
use crate::acceptance::AcceptanceCriteria;
use crate::destroy_operator::DestroyOperator;
use crate::novelty::{novel, NoveltySet};
use crate::repair_operator::RepairOperator;
use crate::selector::select_with_weights;
use crate::state::{Objective, State};
use crate::weights::{OperatorWeights, Tally, MAX_REWARD, SEGMENT_SIZE, UNIT};

verus! {

/// The reward of one iteration, by the first rule that applies: the top
/// reward for an accepted new best; the middle reward for a novel candidate
/// that costs less than the current solution, accepted or not; the low reward
/// for a novel candidate that was accepted without costing less; else nothing.
pub open spec fn reward_for(
    rewards: [u64; 3],
    found_new_best: bool,
    accepted: bool,
    is_novel: bool,
    improves_current: bool,
) -> u64 {
    if accepted && found_new_best {
        rewards[0]
    } else if is_novel && improves_current {
        rewards[1]
    } else if is_novel && accepted {
        rewards[2]
    } else {
        0
    }
}

/// Computes the reward of one iteration.
pub fn iteration_score(
    rewards: &[u64; 3],
    found_new_best: bool,
    accepted: bool,
    is_novel: bool,
    improves_current: bool,
) -> (score: u64)
    ensures
        score == reward_for(*rewards, found_new_best, accepted, is_novel, improves_current),
{
    if accepted && found_new_best {
        rewards[0]
    } else if is_novel && improves_current {
        rewards[1]
    } else if is_novel && accepted {
        rewards[2]
    } else {
        0
    }
}

/// The working solution of a run and the best solution seen so far.
pub struct Incumbents<S: State> {
    pub current: S,
    pub best: S,
}

impl<S: State> Incumbents<S> {
    /// The cost of the current solution after an iteration: that of the
    /// candidate where it was accepted.
    pub open spec fn next_cost(self, candidate: S, accepted: bool) -> Objective {
        if accepted {
            candidate.cost()
        } else {
            self.current.cost()
        }
    }

    /// Whether an iteration finds a new best solution: the current solution
    /// after it costs less than the best one before it.
    pub open spec fn finds_new_best(self, candidate: S, accepted: bool) -> bool {
        self.next_cost(candidate, accepted) < self.best.cost()
    }

    /// Whether `after` holds the two solutions after an iteration: an accepted
    /// candidate is duplicated into the current solution, which else stays;
    /// the current solution is duplicated into the best one where it costs
    /// less, and else the best one stays.
    pub open spec fn advances_to(self, candidate: S, accepted: bool, after: Self) -> bool {
        &&& if accepted {
            cloned(candidate, after.current)
        } else {
            after.current == self.current
        }
        &&& if self.finds_new_best(candidate, accepted) {
            cloned(after.current, after.best)
        } else {
            after.best == self.best
        }
    }

    /// After an iteration the best solution costs no more than before, and no
    /// more than the current one; it is the one from before unless it costs
    /// strictly less.
    pub proof fn lemma_best_never_worsens(self, candidate: S, accepted: bool, after: Self)
        requires
            self.advances_to(candidate, accepted, after),
        ensures
            after.current.cost() == self.next_cost(candidate, accepted),
            after.best.cost() <= self.best.cost(),
            after.best == self.best || after.best.cost() < self.best.cost(),
            after.best.cost() <= after.current.cost(),
    {
        if accepted {
            S::clone_keeps_cost(&candidate, &after.current);
        }
        if self.finds_new_best(candidate, accepted) {
            S::clone_keeps_cost(&after.current, &after.best);
        }
    }

    /// Over any number of iterations the best solution never costs more than
    /// it did, and it is replaced only by one that costs strictly less:
    /// `states` holds the two solutions before the first iteration and after
    /// each, `candidates` and `decisions` what the iterations were given.
    pub proof fn lemma_best_is_monotone(
        states: Seq<Self>,
        candidates: Seq<S>,
        decisions: Seq<bool>,
        earlier: int,
        later: int,
    )
        requires
            states.len() == candidates.len() + 1,
            decisions.len() == candidates.len(),
            forall|i: int|
                0 <= i < candidates.len() ==> (#[trigger] states[i]).advances_to(
                    candidates[i],
                    decisions[i],
                    states[i + 1],
                ),
            0 <= earlier <= later < states.len(),
        ensures
            states[later].best.cost() <= states[earlier].best.cost(),
            states[later].best == states[earlier].best || states[later].best.cost()
                < states[earlier].best.cost(),
        decreases later - earlier,
    {
        if earlier < later {
            Self::lemma_best_is_monotone(states, candidates, decisions, earlier, later - 1);
            assert(states[later - 1].advances_to(
                candidates[later - 1],
                decisions[later - 1],
                states[later - 1 + 1],
            ));
            states[later - 1].lemma_best_never_worsens(
                candidates[later - 1],
                decisions[later - 1],
                states[later],
            );
        }
    }

    /// Both solutions start as the initial one.
    pub fn new(initial: S) -> (start: Self)
        ensures
            start.best == initial,
            cloned(initial, start.current),
            start.current.cost() == initial.cost(),
    {
        let current = initial.clone();
        proof {
            S::clone_keeps_cost(&initial, &current);
        }
        Incumbents { current, best: initial }
    }

    /// Takes in the outcome of one iteration. An accepted candidate becomes
    /// the current solution; the current solution becomes the best one where
    /// it costs less.
    pub fn advance(&mut self, candidate: &S, accepted: bool) -> (found_new_best: bool)
        ensures
            old(self).advances_to(*candidate, accepted, *final(self)),
            found_new_best == old(self).finds_new_best(*candidate, accepted),
            final(self).best.cost() <= old(self).best.cost(),
            final(self).best == old(self).best || final(self).best.cost() < old(self).best.cost(),
            final(self).best.cost() <= final(self).current.cost(),
    {
        if accepted {
            self.current = candidate.clone();
            proof {
                S::clone_keeps_cost(candidate, &self.current);
            }
        }
        if self.current.objective() < self.best.objective() {
            self.best = self.current.clone();
            proof {
                S::clone_keeps_cost(&self.current, &self.best);
            }
            true
        } else {
            false
        }
    }
}

/// After `elapsed` iterations of a segment no operator was used more often
/// than that, and no score holds more than the baseline and `elapsed` rewards.
pub open spec fn within_segment(stats: Tally, elapsed: u64) -> bool {
    &&& forall|i: int| 0 <= i < stats.usage.len() ==> #[trigger] stats.usage[i] <= elapsed
    &&& forall|i: int|
        0 <= i < stats.scores.len() ==> #[trigger] stats.scores[i] <= UNIT + elapsed * MAX_REWARD
}

/// The statistics at the end of an iteration that began `elapsed` iterations
/// into its segment: folded where the iteration completes the segment.
pub open spec fn closed_if_due(stats: Tally, elapsed: u64, reaction: u64) -> Tally {
    if elapsed + 1 == SEGMENT_SIZE {
        stats.folded(reaction)
    } else {
        stats
    }
}

/// With a reaction of zero an iteration leaves the weights as they are,
/// whichever operator it used, whatever it earned, and whether or not it
/// completes a segment: the weights of a whole run stay at their start.
pub proof fn lemma_zero_reaction_keeps_weights(stats: Tally, idx: int, score: u64, elapsed: u64)
    ensures
        closed_if_due(stats.recorded(idx, score), elapsed, 0).weights == stats.weights,
{
    crate::weights::lemma_fold_with_zero_reaction(stats.recorded(idx, score));
}

/// With a reaction of one, an operator that was used once in the segment
/// that an iteration completes has its segment score as its weight, whatever
/// its weight was; one that was not used keeps its weight; and all counters
/// and scores start anew.
pub proof fn lemma_full_reaction_at_boundary(stats: Tally, idx: int)
    requires
        0 <= idx < stats.weights.len(),
    ensures
        stats.usage[idx] == 1 ==> closed_if_due(
            stats,
            (SEGMENT_SIZE - 1) as u64,
            UNIT,
        ).weights[idx] == stats.scores[idx],
        stats.usage[idx] == 0 ==> closed_if_due(
            stats,
            (SEGMENT_SIZE - 1) as u64,
            UNIT,
        ).weights[idx] == stats.weights[idx],
        closed_if_due(stats, (SEGMENT_SIZE - 1) as u64, UNIT).usage == Seq::new(
            stats.weights.len(),
            |i: int| 0u64,
        ),
        closed_if_due(stats, (SEGMENT_SIZE - 1) as u64, UNIT).scores == Seq::new(
            stats.weights.len(),
            |i: int| UNIT,
        ),
{
    if stats.usage[idx] == 1 {
        crate::weights::lemma_fold_with_full_reaction(stats, idx);
    }
}

/// Within a segment one more use and one more reward fit, and the bounds then
/// hold for one more iteration.
proof fn lemma_segment_has_room(stats: Tally, elapsed: u64, idx: int, score: u64)
    requires
        stats.wf(),
        within_segment(stats, elapsed),
        elapsed < SEGMENT_SIZE,
        0 <= idx < stats.weights.len(),
        score <= MAX_REWARD,
    ensures
        stats.usage[idx] < SEGMENT_SIZE,
        stats.scores[idx] + score <= u64::MAX,
        within_segment(stats.recorded(idx, score), (elapsed + 1) as u64),
{
    assert(stats.usage[idx] <= elapsed);
    assert(stats.scores[idx] <= UNIT + elapsed * MAX_REWARD);
    assert(elapsed * MAX_REWARD + MAX_REWARD == (elapsed + 1) * MAX_REWARD) by (nonlinear_arith);
    assert((elapsed + 1) * MAX_REWARD <= 200 * MAX_REWARD) by (nonlinear_arith)
        requires
            elapsed + 1 <= 200,
    ;
    let after = stats.recorded(idx, score);
    assert forall|i: int| 0 <= i < after.usage.len() implies #[trigger] after.usage[i] <= elapsed
        + 1 by {
        assert(stats.usage[i] <= elapsed);
    }
    assert forall|i: int| 0 <= i < after.scores.len() implies #[trigger] after.scores[i] <= UNIT
        + (elapsed + 1) * MAX_REWARD by {
        assert(stats.scores[i] <= UNIT + elapsed * MAX_REWARD);
    }
}

/// The state of a run between two iterations.
pub struct Search<S: State> {
    pub incumbents: Incumbents<S>,
    pub destroy_stats: OperatorWeights,
    pub repair_stats: OperatorWeights,
    pub accepted_states: NoveltySet<S>,
    /// The number of iterations made in the running segment.
    pub in_segment: u64,
}

impl<S: State> Search<S> {
    /// Both pools' statistics are well formed and within what the running
    /// segment can have gathered so far.
    pub open spec fn wf(&self) -> bool {
        &&& self.destroy_stats.wf()
        &&& self.repair_stats.wf()
        &&& self.in_segment < SEGMENT_SIZE
        &&& within_segment(self.destroy_stats@, self.in_segment)
        &&& within_segment(self.repair_stats@, self.in_segment)
    }

    /// The state before the first iteration: both solutions are the initial
    /// one, nothing was accepted yet, and all statistics are fresh.
    pub fn new(initial: S, destroy_count: usize, repair_count: usize) -> (start: Self)
        ensures
            start.wf(),
            start.incumbents.best == initial,
            cloned(initial, start.incumbents.current),
            start.incumbents.current.cost() == initial.cost(),
            start.destroy_stats@ == Tally::fresh(destroy_count as nat),
            start.repair_stats@ == Tally::fresh(repair_count as nat),
            start.accepted_states@ == Set::<S>::empty(),
            start.in_segment == 0,
    {
        Search {
            incumbents: Incumbents::new(initial),
            destroy_stats: OperatorWeights::new(destroy_count),
            repair_stats: OperatorWeights::new(repair_count),
            accepted_states: NoveltySet::new(),
            in_segment: 0,
        }
    }

    /// Settles one iteration, in which the operators `didx` and `ridx` made
    /// `candidate` and the criterion decided `accepted`. Novelty and
    /// improvement are judged on the state before the iteration. An accepted
    /// candidate is remembered and becomes the current solution, the best
    /// solution follows, both operators are credited with the iteration's
    /// reward, which is returned, and a completed segment is folded into the
    /// weights.
    pub fn settle(
        &mut self,
        rewards: &[u64; 3],
        reaction: u64,
        didx: usize,
        ridx: usize,
        candidate: S,
        accepted: bool,
    ) -> (score: u64)
        requires
            old(self).wf(),
            didx < old(self).destroy_stats.pool_size(),
            ridx < old(self).repair_stats.pool_size(),
            reaction <= UNIT,
            forall|k: int| 0 <= k < 3 ==> rewards[k] <= MAX_REWARD,
        ensures
            final(self).wf(),
            old(self).incumbents.advances_to(candidate, accepted, final(self).incumbents),
            final(self).incumbents.best.cost() <= old(self).incumbents.best.cost(),
            final(self).incumbents.best == old(self).incumbents.best
                || final(self).incumbents.best.cost() < old(self).incumbents.best.cost(),
            obeys_key_model::<S>() ==> final(self).accepted_states@ == (if accepted {
                old(self).accepted_states@.insert(candidate)
            } else {
                old(self).accepted_states@
            }),
            obeys_key_model::<S>() ==> score == reward_for(
                *rewards,
                old(self).incumbents.finds_new_best(candidate, accepted),
                accepted,
                novel(old(self).accepted_states@, candidate),
                candidate.cost() < old(self).incumbents.current.cost(),
            ),
            score <= MAX_REWARD,
            final(self).destroy_stats@ == closed_if_due(
                old(self).destroy_stats@.recorded(didx as int, score),
                old(self).in_segment,
                reaction,
            ),
            final(self).repair_stats@ == closed_if_due(
                old(self).repair_stats@.recorded(ridx as int, score),
                old(self).in_segment,
                reaction,
            ),
            final(self).in_segment == (if old(self).in_segment + 1 == SEGMENT_SIZE {
                0
            } else {
                old(self).in_segment + 1
            }),
    {
        let is_novel = self.accepted_states.is_novel(&candidate);
        let improves_current = candidate.objective() < self.incumbents.current.objective();
        let found_new_best = self.incumbents.advance(&candidate, accepted);
        if accepted {
            self.accepted_states.remember(candidate);
        }
        let score = iteration_score(rewards, found_new_best, accepted, is_novel, improves_current);
        proof {
            lemma_segment_has_room(self.destroy_stats@, self.in_segment, didx as int, score);
            lemma_segment_has_room(self.repair_stats@, self.in_segment, ridx as int, score);
        }
        self.destroy_stats.record(didx, score);
        self.repair_stats.record(ridx, score);
        self.in_segment = self.in_segment + 1;
        if self.in_segment == SEGMENT_SIZE {
            self.destroy_stats.fold(reaction);
            self.repair_stats.fold(reaction);
            self.in_segment = 0;
        }
        score
    }
}

/// The search engine: an acceptance criterion and the two operator pools. An
/// operator is known by its place in its pool, in the order of registration.
#[verifier::reject_recursive_types(S)]
pub struct Solver<S: State> {
    acceptance_criteria: Box<dyn AcceptanceCriteria<S>>,
    destroy_operators: Vec<Box<dyn DestroyOperator<S>>>,
    repair_operators: Vec<Box<dyn RepairOperator<S>>>,
}

impl<S: State> Solver<S> {
    /// Whether `criterion` is the acceptance criterion that the solver
    /// decides by.
    pub closed spec fn decides_by(&self, criterion: Box<dyn AcceptanceCriteria<S>>) -> bool {
        self.acceptance_criteria == criterion
    }

    /// The destroy operators, in the order of registration.
    pub closed spec fn destroy_pool(&self) -> Seq<Box<dyn DestroyOperator<S>>> {
        self.destroy_operators@
    }

    /// The repair operators, in the order of registration.
    pub closed spec fn repair_pool(&self) -> Seq<Box<dyn RepairOperator<S>>> {
        self.repair_operators@
    }

    /// The number of destroy operators registered.
    pub open spec fn destroy_count(&self) -> nat {
        self.destroy_pool().len()
    }

    /// The number of repair operators registered.
    pub open spec fn repair_count(&self) -> nat {
        self.repair_pool().len()
    }

    /// A solver with the given criterion and no operators yet.
    pub fn new(acceptance_criteria: Box<dyn AcceptanceCriteria<S>>) -> (solver: Solver<S>)
        ensures
            solver.decides_by(acceptance_criteria),
            solver.destroy_pool() == Seq::<Box<dyn DestroyOperator<S>>>::empty(),
            solver.repair_pool() == Seq::<Box<dyn RepairOperator<S>>>::empty(),
    {
        Solver { acceptance_criteria, destroy_operators: Vec::new(), repair_operators: Vec::new() }
    }

    /// Registers a destroy operator behind those already there.
    pub fn add_destroy_operator(&mut self, op: Box<dyn DestroyOperator<S>>)
        ensures
            final(self).destroy_pool() == old(self).destroy_pool().push(op),
            final(self).repair_pool() == old(self).repair_pool(),
            forall|criterion: Box<dyn AcceptanceCriteria<S>>|
                #[trigger] final(self).decides_by(criterion) == old(self).decides_by(criterion),
    {
        self.destroy_operators.push(op);
    }

    /// Registers a repair operator behind those already there.
    pub fn add_repair_operator(&mut self, op: Box<dyn RepairOperator<S>>)
        ensures
            final(self).repair_pool() == old(self).repair_pool().push(op),
            final(self).destroy_pool() == old(self).destroy_pool(),
            forall|criterion: Box<dyn AcceptanceCriteria<S>>|
                #[trigger] final(self).decides_by(criterion) == old(self).decides_by(criterion),
    {
        self.repair_operators.push(op);
    }

    /// Whether `run` can be called: both pools hold an operator.
    pub fn is_ready(&self) -> (ready: bool)
        ensures
            ready == (self.destroy_count() > 0 && self.repair_count() > 0),
    {
        self.destroy_operators.len() > 0 && self.repair_operators.len() > 0
    }

    /// Runs `iterations` rounds of destroy, repair and acceptance from
    /// `initial_solution` and returns the best solution seen. The three
    /// rewards and `reaction` are fractions of `UNIT`. Whatever the operators,
    /// the criterion and the random draws do, the result costs no more than
    /// the initial solution, and it is the initial solution itself unless it
    /// costs strictly less: a solution of equal cost never takes its place.
    pub fn run(
        self,
        initial_solution: S,
        weight_parameter: [u64; 3],
        reaction: u64,
        iterations: i64,
    ) -> (best: S)
        requires
            self.destroy_count() > 0,
            self.repair_count() > 0,
            iterations >= 1,
            reaction <= UNIT,
            forall|k: int| 0 <= k < 3 ==> weight_parameter[k] <= MAX_REWARD,
        ensures
            best.cost() <= initial_solution.cost(),
            best == initial_solution || best.cost() < initial_solution.cost(),
    {
        let ghost start = initial_solution;
        let ghost start_cost = initial_solution.cost();
        let mut engine = self;
        let mut search = Search::new(
            initial_solution,
            engine.destroy_operators.len(),
            engine.repair_operators.len(),
        );
        let mut done: i64 = 0;
        while done < iterations
            invariant
                0 <= done <= iterations,
                reaction <= UNIT,
                forall|k: int| 0 <= k < 3 ==> weight_parameter[k] <= MAX_REWARD,
                search.wf(),
                search.destroy_stats.pool_size() == engine.destroy_operators.len(),
                search.repair_stats.pool_size() == engine.repair_operators.len(),
                engine.destroy_operators.len() > 0,
                engine.repair_operators.len() > 0,
                search.incumbents.best.cost() <= start_cost,
                search.incumbents.best == start || search.incumbents.best.cost() < start_cost,
            decreases iterations - done,
        {
            proof {
                search.destroy_stats.lemma_total_is_positive();
                search.repair_stats.lemma_total_is_positive();
            }
            let didx = select_with_weights(&search.destroy_stats.weights);
            let ridx = select_with_weights(&search.repair_stats.weights);
            let destroyed = engine.destroy_operators[didx].apply(&search.incumbents.current);
            let candidate = engine.repair_operators[ridx].apply(&destroyed);
            let accepted = engine.acceptance_criteria.accept(
                &search.incumbents.best,
                &search.incumbents.current,
                &candidate,
            );
            search.settle(&weight_parameter, reaction, didx, ridx, candidate, accepted);
            done = done + 1;
        }
        search.incumbents.best
    }
}

} // verus!
