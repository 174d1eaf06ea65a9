use vstd::prelude::*;
use crate::boundary_condition::BoundaryCondition;

verus! {

/// A boundary held at a fixed value.
pub struct Dirichlet<T>(pub T);

impl<T: Copy> BoundaryCondition<T> for Dirichlet<T> {
    open spec fn boundary_value(&self, other: T) -> T {
        self.0
    }

    fn calculate_boundary(&self, other: T) -> (value: T) {
        self.0
    }
}

} // verus!
