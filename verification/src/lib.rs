//! Adaptive large neighbourhood search: a solution is repeatedly destroyed and
//! repaired by operators drawn with adaptive weights, and a pluggable
//! acceptance criterion decides which candidates replace the working solution.
//!
//! Weights, rewards, the reaction factor and the record-to-record thresholds are
//! fixed-point numbers: an integer `n` stands for `n / UNIT`.
//!
//! The module `tsp` holds a problem to try the engine on: tours of a
//! travelling salesman, with three destroy operators and a greedy repair.

pub mod acceptance;
pub mod destroy_operator;
pub mod novelty;
pub mod ranking;
pub mod repair_operator;
pub mod selector;
pub mod solver;
pub mod state;
pub mod tsp;
pub mod weights;

pub use crate::acceptance::AcceptanceCriteria;
pub use crate::destroy_operator::DestroyOperator;
pub use crate::repair_operator::RepairOperator;
pub use crate::solver::Solver;
pub use crate::state::{Objective, State};
