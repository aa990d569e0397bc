use vstd::prelude::*;

verus! {

/// A point mass. `V` is the type of a 2-D vector and `U` the scalar type
/// that the simulation computes with.
pub struct Mass<V, U> {
    pub pos: V,
    pub vel: V,
    pub acc: V,
    /// Absent means a mass of one.
    pub mass: Option<U>,
    /// A fixed mass is never moved by the integrator.
    pub fixed: bool,
}

/// A Hookean spring between two masses, referred to by handles of type `I`.
pub struct Spring<I, U> {
    pub endpoints: [I; 2],
    /// Rest length.
    pub length: U,
    /// Absent means the environment's default stiffness.
    pub stiffness: Option<U>,
}

impl<I, U> Spring<I, U> {
    /// Whether `m` is one of the two endpoints.
    pub open spec fn connects(self, m: I) -> bool {
        self.endpoints[0] == m || self.endpoints[1] == m
    }
}

/// Simulation-wide constants.
pub struct Environment<V, U> {
    pub friction: U,
    pub gravity: V,
    /// Default stiffness of springs that give none of their own.
    pub springiness: U,
    pub width: U,
    pub height: U,
}

} // verus!
