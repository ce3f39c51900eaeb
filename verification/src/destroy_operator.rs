use vstd::prelude::*;
use crate::state::State;

verus! {

/// Removes part of a solution, giving a degraded solution.
pub trait DestroyOperator<S: State> {
    fn apply(&mut self, solution: &S) -> S;
}

} // verus!
