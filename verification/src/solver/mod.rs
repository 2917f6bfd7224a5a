//! The version solver: constraints on single packages, the work set of the
//! search, the registry as the search reads it, the search itself and what
//! holds of its results.

pub mod adapter;
pub mod completeness;
pub mod constraint_set;
pub mod constraints;
pub mod failure;
pub mod laws;
pub mod path;
pub mod search;
pub mod solution;

pub use crate::solver::adapter::RegistryAdapter;
pub use crate::solver::constraint_set::ConstraintSet;
pub use crate::solver::constraints::Constraint;
pub use crate::solver::failure::Failure;
pub use crate::solver::path::Path;
pub use crate::solver::search::{partial_solution_to_solution, search, solve};
pub use crate::solver::solution::{JustifiedVersion, PartialSolution, Solution};
