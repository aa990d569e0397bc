//! A 2-D mass-and-spring simulation core: slot stores with stable handles, a
//! world whose masses and springs are grouped in a tree of assemblies and
//! followed by extensions, and a semi-implicit Euler integrator that is
//! generic over its number types.

pub mod arena;
pub mod assembly;
pub mod compact;
pub mod physics;
pub mod types;
pub mod world;
