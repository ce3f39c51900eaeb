use vstd::prelude::*;
use vstd::std_specs::hash::obeys_key_model;
use std::collections::HashSet;
use crate::state::State;

verus! {

broadcast use vstd::std_specs::hash::group_hash_axioms;

/// A solution is novel when it is not among those accepted so far.
pub open spec fn novel<S>(accepted: Set<S>, candidate: S) -> bool {
    !accepted.contains(candidate)
}

/// Once a solution was accepted, the same value is not novel when it comes up
/// again, and accepting it a second time leaves the set as it was.
pub proof fn lemma_second_occurrence_is_not_novel<S>(accepted: Set<S>, solution: S)
    ensures
        !novel(accepted.insert(solution), solution),
        accepted.insert(solution).insert(solution) == accepted.insert(solution),
        forall|other: S|
            other != solution ==> novel(accepted.insert(solution), other) == novel(accepted, other),
{
    assert(accepted.insert(solution).insert(solution) =~= accepted.insert(solution));
}

/// The solutions accepted so far in a run, found again by value. It only
/// grows. Its contracts hold for solution types whose hash and equality agree
/// with equality of values.
pub struct NoveltySet<S: State> {
    seen: HashSet<S>,
}

impl<S: State> View for NoveltySet<S> {
    type V = Set<S>;

    closed spec fn view(&self) -> Set<S> {
        self.seen@
    }
}

impl<S: State> NoveltySet<S> {
    /// A set in which nothing was accepted yet.
    pub fn new() -> (empty: Self)
        ensures
            empty@ == Set::<S>::empty(),
    {
        NoveltySet { seen: HashSet::new() }
    }

    /// Whether `candidate` was never accepted before.
    pub fn is_novel(&self, candidate: &S) -> (fresh: bool)
        ensures
            obeys_key_model::<S>() ==> fresh == novel(self@, *candidate),
    {
        !self.seen.contains(candidate)
    }

    /// Adds an accepted solution.
    pub fn remember(&mut self, solution: S)
        ensures
            obeys_key_model::<S>() ==> final(self)@ == old(self)@.insert(solution),
    {
        self.seen.insert(solution);
    }
}

} // verus!
