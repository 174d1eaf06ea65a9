//! The items most programs need.

pub use crate::boundary_condition::BoundaryCondition;
pub use crate::boundary_condition::BoundaryConditions;
pub use crate::differential_equation::DifferentialEquation;
pub use crate::precondition::PreCondition;
pub use crate::solver::Solver;
