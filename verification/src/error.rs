//! Failures of resolution, enumeration and record building.

use vstd::prelude::*;

verus! {

/// Every way a lookup or a derived-record build can fail. Pointer misses
/// and non-enumerable nodes degrade to defaults in lenient mode; the other
/// kinds are never tolerated.
#[derive(Debug, PartialEq, Eq)]
pub enum Error {
    /// A pointer named a missing node, in strict mode; carries the pointer.
    PointerNotFound(String),
    /// Children of a scalar were requested, in strict mode; carries the pointer.
    NotEnumerable(String),
    /// A request body declared no content type at all.
    EmptyContent,
    /// A request body given by reference rather than inline.
    UnsupportedReferencedRequestBody,
    /// A reference whose target is missing; carries the target pointer.
    ReferenceTargetMissing(String),
}

} // verus!
