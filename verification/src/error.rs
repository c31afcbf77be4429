//! Error taxonomy of the operator lifecycle.
//!
//! Planning reports a `SchemeError`; launching reports a `LaunchError`, which
//! is either a planning failure discovered while re-validating or a failure
//! to enqueue the work on the backend. Every variant is recoverable by the
//! caller (pick another backend or abort the request); nothing is retried
//! inside this layer.

use vstd::prelude::*;

verus! {

/// Why planning rejected a request.
#[derive(Clone, Copy, PartialEq, Eq, Structural, Debug)]
pub enum SchemeError {
    /// The element-type combination is not implemented by this backend.
    TypeNotSupport,
    /// A geometry the backend's dispatch arithmetic cannot satisfy, or a
    /// shape entry that is still unresolved or inconsistent.
    ShapeNotSupport,
    /// A memory layout the backend cannot address, or a stride entry that is
    /// still unresolved.
    StridesNotSupport,
    /// Destination and source element types differ.
    DtypeMismatch,
    /// Destination and source ranks differ, or the rank is below the
    /// algorithm's minimum.
    RankMismatch,
    /// A destination stride of zero asks for a reduction; this layer performs
    /// shape-preserving relayout only.
    ReduceNotAllowed,
}

/// Why launching failed. Enqueue-time driver failures are distinct from
/// re-validation failures; a later device-side fault is never reported here.
#[derive(Clone, Copy, PartialEq, Eq, Structural, Debug)]
pub enum LaunchError {
    /// Re-validation of the arguments failed.
    Scheme(SchemeError),
    /// The backend refused to enqueue the work.
    Enqueue,
}

} // verus!
