//! Route model and feature composition for vehicle-routing solvers, with
//! machine-checked contracts.

pub mod assoc;
pub mod coord_index;
pub mod enablers;
pub mod feature;
pub mod problem;
pub mod route;
pub mod schedule;
pub mod solution;
pub mod tour;
pub mod transport;
