//! Per-tick synchronisation between attached scripts and an entity transform
//! store.
//!
//! A [`manager::ScriptManager`] owns one script per entity. Once per tick it advances
//! every attached script, asks it for its transform and hands each well-formed
//! transform to the store. A script that fails, or that reports something that
//! is no 4x4 transform, costs its entity this tick's write and nothing else:
//! the other entities are processed as usual and the failures are reported.
//!
//! * [`entity`]: entity identifiers and the order in which they are visited;
//! * [`transform`]: the validated transform snapshot;
//! * [`script`]: what a script and a transform store must be able to do;
//! * [`report`]: the failures that a tick reports;
//! * [`pass`]: the rules of one tick, as a transition function;
//! * [`outcome`]: what the rules add up to over a whole tick;
//! * [`manager`]: the attached scripts and the tick itself.

pub mod entity;
pub mod transform;
pub mod script;
pub mod manager;
pub mod report;
pub mod pass;
pub mod outcome;
