//! Hungarian-method assignment solver.
//!
//! Given a square grid of integer costs, the solver selects one cell per row
//! and one cell per column so that the sum of the selected costs is minimal
//! (or, on request, maximal), and returns that optimal sum together with the
//! selected positions.

pub mod alt;
pub mod cover;
pub mod engine;
pub mod laws;
pub mod matrix;
pub mod model;
pub mod normalize;
pub mod reduce;
pub mod solver;
