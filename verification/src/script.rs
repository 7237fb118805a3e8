//! What the tick needs from a script and from the transform store.
//!
//! Both live outside this crate. Nothing is assumed of what their operations
//! return: every answer is a case that the tick handles.

use vstd::prelude::*;
use crate::entity::EntityId;
use crate::transform::Transform;

verus! {

/// One behaviour unit attached to an entity.
pub trait ScriptHandle {
    /// Why the script could not do what it was asked.
    type Error;

    /// Runs one step of the script's own logic.
    ///
    /// An error means that the step did not happen, for whatever reason the
    /// script's runtime has.
    fn advance_tick(&mut self) -> Result<(), Self::Error>;

    /// The numbers that currently make up the script's transform, in
    /// column-major order, each as an IEEE 754 single-precision bit pattern.
    ///
    /// The implementation hands over what the script reported, however many
    /// numbers that is, and an error where it reported no numbers at all.
    /// Whether this is a transform is decided by the caller.
    fn query_transform(&self) -> Result<Vec<u32>, Self::Error>;
}

/// The store that holds the authoritative transform of every entity.
pub trait TransformStore {
    /// Why the store did not take a transform.
    type Error;

    /// Replaces the transform of `entity`.
    fn update_transform(&mut self, entity: EntityId, transform: &Transform) -> Result<
        (),
        Self::Error,
    >;
}

} // verus!
