//! Small value types shared by the solver.

use vstd::prelude::*;

verus! {

/// Number of an iteration of a run.
#[derive(Clone, Copy, Debug, PartialEq, Eq)]
pub struct Iteration(pub u64);

/// Seed of a run's random generator.
#[derive(Clone, Copy, Debug, PartialEq, Eq)]
pub struct Seed(pub u64);

/// Number of a run among the runs made in parallel.
#[derive(Clone, Copy, Debug, PartialEq, Eq)]
pub struct RunnerId(pub u32);

} // verus!
