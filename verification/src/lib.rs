//! Derived-column reconciliation and refcount-migration engine for an
//! embedded key/value column store.
//!
//! The store holds named columns; some are authoritative (written by the
//! system of record), others are derived: their contents must equal an
//! aggregate function of an authoritative column. This crate provides the
//! refcount encoding scheme, the reconciliation algorithm that rebuilds a
//! derived column from its authoritative source, and the migration steps
//! composed from them.

pub mod codec;
pub mod domain;
pub mod migrate;
pub mod reconcile;
pub mod shard;
pub mod store;

use vstd::prelude::*;

verus! {

/// Errors of the migration engine.
///
/// `MalformedRecord` is recoverable by policy: a refcount-encoded blob
/// shorter than its counter width is deleted rather than repaired.
/// `DomainDecodeFailure` is fatal: an authoritative or derived record that
/// does not decode as its expected structured type aborts the migration.
/// `ArithmeticFailure` is fatal and defensive: a quantity left the range its
/// arithmetic is defined on (a discovered shard count of zero, or an
/// aggregated count past what the wide counter can hold); it indicates a
/// logic error or unrepresentable data, not a data-quality issue to skip.
#[derive(Clone, Copy, Debug, PartialEq, Eq, Structural)]
pub enum MigrationError {
    MalformedRecord,
    DomainDecodeFailure,
    ArithmeticFailure,
}

} // verus!
