//! Snapshot of the globals that a display server advertises: the records
//! collected from the registry, their normalization and the report built
//! from them.
pub mod enumeration;
pub mod laws;
pub mod normalize;
pub mod order;
pub mod record;
pub mod snapshot;
