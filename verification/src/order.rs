//! The record type stored by the container, and the error type of the
//! operations that may hit a uniqueness violation.
//!
//! The schema: `id` is indexed hashed-unique, `timestamp` ordered-unique,
//! `trader` hashed-non-unique, `priority` ordered-non-unique; `note` is not
//! indexed and may be changed freely after insertion.

use vstd::prelude::*;

verus! {

/// A record held by the container. All records of one container share this
/// schema: each indexed field feeds exactly one index.
#[derive(Clone, Debug)]
pub struct Order {
    /// Hashed-unique key: no two live records share an `id`.
    pub id: u64,
    /// Ordered-unique key: no two live records share a `timestamp`, and the
    /// container can enumerate records in `timestamp` order.
    pub timestamp: u64,
    /// Hashed-non-unique key: many records may share a `trader`.
    pub trader: String,
    /// Ordered-non-unique key: many records may share a `priority`, and the
    /// container can enumerate records in `priority` order.
    pub priority: u64,
    /// Not indexed; mutable in place without touching any index.
    pub note: String,
}

/// Which unique index an attempted insert or modify collided on.
#[derive(Clone, Copy, Debug, PartialEq, Eq, Structural)]
pub enum UniqueViolation {
    /// The record's `id` is already held by another live record.
    Id,
    /// The record's `timestamp` is already held by another live record.
    Timestamp,
}

} // verus!
