//! A hierarchy of celestial bodies under gravity, and the schedule by which
//! it is advanced.
//!
//! A [`universe::Universe`] owns the bodies: a star, planets, moons and
//! spacecraft, each with its state relative to its parent. It gives out
//! ids, keeps parent and child links consistent, and drives the tick: a
//! fixed number of substeps in which each body in turn is advanced against
//! the others, then one re-derivation of every body's orbital elements.
//!
//! The library is generic in the scalar type and computes nothing with it.
//! The arithmetic of a substep and of the orbital elements is handed to
//! [`universe::Universe::update`] as functions; the contracts say in which
//! order they are called, on what, and where their results go.
//!
//! - [`elements`]: the record of orbital elements.
//! - [`derivation`]: which formula each of the two angles is taken by.
//! - [`body`]: a body, and the two steps that change it.
//! - [`partition`]: one element of a slice for writing, the others for reading.
//! - [`lineage`]: a body by its id, and its ancestors up to the root.
//! - [`tree`]: the invariant of the hierarchy.
//! - [`tick`]: what a tick makes of the bodies.
//! - [`universe`]: the universe and its operations.
//! - [`naming`]: the names of launched spacecraft.
//! - [`laws`]: what holds of every universe and every history.

pub mod body;
pub mod derivation;
pub mod elements;
pub mod laws;
pub mod lineage;
pub mod naming;
pub mod partition;
pub mod tick;
pub mod tree;
pub mod universe;

pub use body::{CelestialBody, Motion};
pub use elements::{DerivedElements, OrbitalElements};
pub use partition::{split_bodies, Others};
pub use universe::Universe;
