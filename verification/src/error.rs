//! Errors the planning stages can raise.  Failures of the actual
//! filesystem and network work (directory creation, client construction,
//! fetching, writing) happen in the surrounding binary and abort the run
//! there; the library only ever rejects its inputs.

use vstd::prelude::*;

verus! {

/// Why a run was refused before any command was issued.
#[derive(Debug, Clone, PartialEq, Eq)]
pub enum PipelineError {
    /// A raw directive does not match `store://BUCKET/KEY:DEST`.
    /// Carries the offending directive.
    MalformedDirective(Vec<u8>),
    /// A destination has no parent directory to create (it is empty or the
    /// filesystem root).  Carries the offending destination.
    PathConversionError(Vec<u8>),
}

} // verus!
