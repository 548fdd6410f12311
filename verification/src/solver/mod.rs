//! Direct solves on shrinking regions and the options of the transform planner.
pub mod fft_plan;
pub mod trapezoid;

pub use fft_plan::{FFTPlan, FFTPlanDescriptor, PlanType};
pub use trapezoid::{
    trapezoid_apply, trapezoid_apply_within, trapezoid_input_region, trapezoid_output_region,
};
