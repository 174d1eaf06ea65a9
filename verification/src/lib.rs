//! A finite-difference time-stepping engine for scalar fields on a regular
//! two-dimensional grid.

pub mod boundary_condition;
pub mod brush;
pub mod cells;
pub mod chunks;
pub mod data_field;
pub mod differential_equation;
pub mod grid;
mod jobs;
pub mod laws;
pub mod partition;
pub mod precondition;
pub mod prelude;
pub mod solver;
pub mod workers;

pub use boundary_condition::BoundaryCondition;
pub use boundary_condition::BoundaryConditions;
pub use cells::IterInnerMut;
pub use cells::IterMut;
pub use chunks::ChunksInnerMut;
pub use chunks::ChunksMut;
pub use data_field::DataField;
pub use differential_equation::DifferentialEquation;
pub use grid::Grid;
pub use grid::Stencil;
pub use precondition::PreCondition;
pub use solver::Solver;
