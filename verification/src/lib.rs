//! An in-memory container that stores homogeneous records once, in a
//! slot-addressed store, while keeping several independently maintained
//! indices over different fields of each record consistent with it: some
//! hashed, some ordered, some enforcing key uniqueness and some grouping
//! many records under one key.
//!
//! [`engine::OrderMap`] is the container; [`order::Order`] the record it
//! stores. Every public operation's contract is stated over the map from
//! live slot id to record, and every operation keeps the indices exactly
//! the maps that this store induces.

pub mod engine;
pub mod hashed;
pub mod laws;
pub mod order;
pub mod ordered;
pub mod store;
