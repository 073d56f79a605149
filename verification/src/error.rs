//! Error taxonomy of the core.

use vstd::prelude::*;

verus! {

/// Every failure the core can surface.
///
/// - `Storage`: unrecoverable persistence fault (also raised when an id
///   namespace's counter is exhausted); fatal to the request, never retried.
/// - `NoStateForRoom`: the room has no current state pointer.
/// - `UnknownShortId`: a reverse lookup missed; indicates store corruption.
/// - `DuplicateStateKey`: the compression invariant (unique `shortstatekey`
///   per snapshot) was violated by the caller.
/// - `InternerLookupFailed`: an interner lookup on the room's own current
///   state failed.
/// - `AuthChainFetchFailed`: the auth-chain assembler could not be consulted.
/// - `StateResolutionFailed`: the version-specific resolver reported an
///   error.
/// - `AuthChainIncomplete`: a referenced event was missing while walking an
///   auth chain; non-fatal, surfaced for observability only.
#[derive(Clone, Copy, Debug, PartialEq, Eq, Structural)]
pub enum Error {
    Storage,
    NoStateForRoom,
    UnknownShortId,
    DuplicateStateKey,
    InternerLookupFailed,
    AuthChainFetchFailed,
    StateResolutionFailed,
    AuthChainIncomplete,
}

impl Error {
    /// A short stable diagnostic name for the error.
    pub fn as_str(&self) -> &'static str {
        match self {
            Error::Storage => "storage error",
            Error::NoStateForRoom => "no state for room",
            Error::UnknownShortId => "unknown short id",
            Error::DuplicateStateKey => "duplicate state key",
            Error::InternerLookupFailed => "interner lookup failed",
            Error::AuthChainFetchFailed => "auth chain fetch failed",
            Error::StateResolutionFailed => "state resolution failed",
            Error::AuthChainIncomplete => "auth chain incomplete",
        }
    }
}

} // verus!
