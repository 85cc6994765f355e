//! Errors reported by the scripting-API core.

use vstd::prelude::*;

verus! {

/// An error that occurred when building, merging or dispatching against the
/// scripting API.
#[derive(Debug, Clone, PartialEq, Eq)]
pub enum ScriptApiError {
    /// The requested API element was not found in the catalog.
    NotFound(String),
    /// An adapter tried to define a type path already claimed by another
    /// adapter.
    TypeRedefined(String),
    /// A data layout was requested whose alignment is not a power of two or
    /// whose size is not a multiple of its alignment.
    InvalidLayout,
    /// A call target exists in the catalog but is not a function.
    TypeMismatch(String),
    /// A call passed a number of arguments different from what the target
    /// function's signature declares.
    ArityMismatch(String),
    /// A serialized catalog crossing the module boundary was malformed.
    ProtocolError,
}

/// An error that occurred while running the Dynamite host.
#[derive(Debug, Clone, PartialEq, Eq)]
pub enum DynamiteError {
    /// An error raised by the scripting-API core.
    ApiError(ScriptApiError),
    /// A dynamic module could not be opened or is missing a required export.
    /// Carries a human-readable description from the loader.
    LoadError(String),
}

impl From<ScriptApiError> for DynamiteError {
    fn from(e: ScriptApiError) -> (r: DynamiteError) {
        DynamiteError::ApiError(e)
    }
}

impl vstd::std_specs::convert::FromSpecImpl<ScriptApiError> for DynamiteError {
    open spec fn obeys_from_spec() -> bool {
        true
    }

    open spec fn from_spec(e: ScriptApiError) -> DynamiteError {
        DynamiteError::ApiError(e)
    }
}

} // verus!
