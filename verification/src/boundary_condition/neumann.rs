use vstd::prelude::*;
use crate::boundary_condition::BoundaryCondition;

verus! {

/// A boundary without gradient: the edge cell mirrors its neighbour.
pub struct Neumann;

impl<T> BoundaryCondition<T> for Neumann {
    open spec fn boundary_value(&self, other: T) -> T {
        other
    }

    fn calculate_boundary(&self, other: T) -> (value: T) {
        other
    }
}

} // verus!
