use vstd::prelude::*;

verus! {

/// What can go wrong while a solve is set up or run.
#[derive(Copy, Clone, Debug, PartialEq, Eq, Structural)]
pub enum SolveError {
    /// No periodic solve meets the cutoff and the ratio that were asked for.
    PlanningInfeasible,
    /// The transform library could not make a plan.
    FFTPlanFailed,
    /// The boundary condition has no value for a coordinate outside the grid.
    OracleMissing,
    /// A buffer is smaller than the region it is meant to hold.
    DomainTooSmall,
    /// A plan does not have the shape that a solve relies on.
    InvariantViolation,
}

} // verus!
