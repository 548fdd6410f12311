//! What a solve knows about the field outside the grid.
pub mod bc;
pub mod view;

pub use bc::{BCCheck, ConstantCheck, PeriodicCheck};
pub use view::SliceDomain;
