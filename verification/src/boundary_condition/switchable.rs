use vstd::prelude::*;
use crate::boundary_condition::BoundaryCondition;

verus! {

/// Two boundary conditions of which one is in force. It starts with the first;
/// `toggle` changes to the other.
pub struct SwitchableBoundaryCondition<F, S> {
    first: F,
    second: S,
    use_second: bool,
}

impl<F, S> SwitchableBoundaryCondition<F, S> {
    pub closed spec fn first(&self) -> F {
        self.first
    }

    pub closed spec fn second(&self) -> S {
        self.second
    }

    /// Whether the second condition is in force.
    pub closed spec fn uses_second(&self) -> bool {
        self.use_second
    }

    /// The same pair with the other condition in force.
    pub closed spec fn toggled(self) -> Self {
        SwitchableBoundaryCondition { use_second: !self.use_second, ..self }
    }

    /// The pair after `n` toggles.
    pub open spec fn toggled_times(self, n: nat) -> Self
        decreases n,
    {
        if n == 0 {
            self
        } else {
            self.toggled().toggled_times((n - 1) as nat)
        }
    }

    pub fn new(first: F, second: S) -> (switchable: Self)
        ensures
            switchable.first() == first,
            switchable.second() == second,
            !switchable.uses_second(),
    {
        SwitchableBoundaryCondition { first, second, use_second: false }
    }

    /// Puts the other condition in force.
    pub fn toggle(&mut self)
        ensures
            *final(self) == old(self).toggled(),
    {
        self.use_second = !self.use_second;
    }

    /// A toggle keeps both conditions and flips which one is in force.
    pub proof fn lemma_toggled(self)
        ensures
            self.toggled().first() == self.first(),
            self.toggled().second() == self.second(),
            self.toggled().uses_second() == !self.uses_second(),
    {
    }

    /// After an even number of toggles the condition in force is the one it
    /// was before; after an odd number it is the other one.
    pub proof fn lemma_toggled_times(self, n: nat)
        ensures
            self.toggled_times(n).first() == self.first(),
            self.toggled_times(n).second() == self.second(),
            self.toggled_times(n).uses_second() == (self.uses_second() == (n % 2 == 0)),
        decreases n,
    {
        if n > 0 {
            self.lemma_toggled();
            self.toggled().lemma_toggled_times((n - 1) as nat);
        }
    }
}

impl<T, F: BoundaryCondition<T>, S: BoundaryCondition<T>> BoundaryCondition<
    T,
> for SwitchableBoundaryCondition<F, S> {
    open spec fn boundary_value(&self, other: T) -> T {
        if self.uses_second() {
            self.second().boundary_value(other)
        } else {
            self.first().boundary_value(other)
        }
    }

    fn calculate_boundary(&self, other: T) -> (value: T) {
        if self.use_second {
            self.second.calculate_boundary(other)
        } else {
            self.first.calculate_boundary(other)
        }
    }
}

} // verus!
