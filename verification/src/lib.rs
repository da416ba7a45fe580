//! kansa-core: requirement ids, markdown segmentation, snapshots, coverage, reconciliation,
//! agent proposals and the store's object logic, with their contracts.

pub mod text;
pub mod order;
pub mod id;
pub mod model;
pub mod segment;
pub mod snapshot;
pub mod blocks;
pub mod coverage;
pub mod reconcile;
pub mod agent;
pub mod repo;
pub mod ops;
pub mod classify;
pub mod groups;
pub mod store;
pub mod accept;
