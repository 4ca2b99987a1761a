//! The values that cross the boundary between the simulation and its observers.
use vstd::prelude::*;

verus! {

/// Homology groups (Betti numbers).
#[derive(Clone, Debug)]
pub struct HomologyGroups {
    /// β₀, β₁, β₂, ...
    pub beta: Vec<usize>,
    pub d_squared_zero: bool,
}

} // verus!
