//! A reconciliation engine: it compares the resources a caller wants with the
//! resources a provider reports, and plans what to create, destroy and keep.

pub mod diff;
pub mod error;
pub mod fetch;
pub mod keyed;
pub mod laws;
pub mod order;
pub mod reconcile;
pub mod resource;
