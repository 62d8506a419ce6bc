//! A model-checkable core for a cluster-orchestration control plane.
//!
//! The crate provides a versioned object store with selectable consistency
//! regimes, a driver that enumerates the legal next steps of a set of
//! controllers, and the controllers themselves, of which the job reconciler
//! is the most elaborate. Every function is verified against its contract.

pub mod abstract_model;
pub mod controller;
pub mod datastore;
pub mod history;
pub mod model;
pub mod root;
pub mod resources;
pub mod state;
pub mod utils;
