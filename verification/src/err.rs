//! Error taxonomy: every failure is fatal for the current operation and is
//! reported to the caller; nothing is retried.

use vstd::prelude::*;

verus! {

/// The errors the library reports.
#[derive(Debug, PartialEq, Eq)]
pub enum SimpleCAError {
    /// A configuration or environment problem, with a description.
    GenericError { msg: String },
    /// A subject distinguished name carries no common-name entry where one
    /// is required.
    MissingCommonName,
    /// A validity window would run past the largest representable instant.
    TimeOutOfRange,
    /// An underlying cryptographic operation failed.
    CryptoError,
}

} // verus!
