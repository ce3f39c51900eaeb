use vstd::prelude::*;
use std::hash::Hash;

verus! {

/// The cost of a solution; lower is better.
pub type Objective = u64;

/// What the engine needs to know of a candidate solution: its cost, and
/// that it can be duplicated, hashed and compared by value. An implementation
/// in unverified code writes `cost` as `objective` and gives
/// `clone_keeps_cost` an empty body.
pub trait State: Clone + Hash + Eq {
    /// The cost of this solution, as contracts speak of it.
    spec fn cost(&self) -> Objective;

    /// Computes the cost of this solution.
    fn objective(&self) -> (value: Objective)
        ensures
            value == self.cost(),
    ;

    /// A duplicate made by `clone` costs what its source costs.
    proof fn clone_keeps_cost(source: &Self, duplicate: &Self)
        requires
            cloned(*source, *duplicate),
        ensures
            duplicate.cost() == source.cost(),
    ;
}

} // verus!
