//! Space-time decomposition of a solve into frustrums, the plan that is made
//! of them and the scratch memory that a run of the plan needs.
pub mod ap_frustrum;
pub mod ap_plan;
pub mod ap_planner;
pub mod ap_scratch;
pub mod ap_solver;
pub mod descent;
pub mod plan_check;
pub mod plan_regions;
pub mod scratch_need;
pub mod tiling;

pub use ap_frustrum::{APFrustrum, Frustrum, Side};
pub use ap_planner::{build_plan, plan_with_direct_walls};
pub use plan_regions::Regions;
pub use ap_solver::{APSolver, RootAction, RootProgress, ScratchDomains, SolveStep};
pub use ap_scratch::{APScratchBuilder, ScratchDescriptor, ScratchLayout};
pub use ap_plan::{
    AOBDirectSolveNode, APPlan, DirectSolveNode, NodeId, OpId, PeriodicSolveNode, PlanNode,
    RepeatNode,
};
