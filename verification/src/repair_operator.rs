use vstd::prelude::*;
use crate::state::State;

verus! {

/// Restores a degraded solution to a complete one.
pub trait RepairOperator<S: State> {
    fn apply(&mut self, solution: &S) -> S;
}

} // verus!
