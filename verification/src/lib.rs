//! Geometry and planning rules for linear stencil solves on rectangular grids
//! with aperiodic boundary conditions.
pub mod domain;
pub mod error;
pub mod fft_solver;
pub mod par_stencil;
pub mod solver;
pub mod stencil;
pub mod util;
