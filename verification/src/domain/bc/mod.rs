//! Boundary conditions.
pub mod check;
pub mod constant;
pub mod periodic;

pub use check::BCCheck;
pub use constant::ConstantCheck;
pub use periodic::PeriodicCheck;
