//! Errors of the content store.
use vstd::prelude::*;

verus! {

/// An I/O error of the standard library.
#[verifier::external_type_specification]
#[verifier::external_body]
pub struct ExIoError(std::io::Error);

/// Error of the content store.
#[derive(Debug)]
pub enum StorageIOError {
    /// An I/O error, or a parameter the store cannot work with.
    IOErr(std::io::Error),
    /// A chunk hash too short to place the chunk in the store.
    HashTooShort,
}

/// Named result of `io::Error::kind` compared with `ErrorKind::InvalidInput`:
/// whether an I/O error is of that kind.
pub uninterp spec fn is_invalid_input(e: std::io::Error) -> bool;

/// An `InvalidInput` I/O error with the given message.
///
/// Calls `std::io::Error::new` with `ErrorKind::InvalidInput`; the contract
/// claims the kind, which `kind()` gives back.
#[verifier::external_body]
pub(crate) fn invalid_input(msg: &str) -> (r: std::io::Error)
    ensures
        is_invalid_input(r),
{
    std::io::Error::new(std::io::ErrorKind::InvalidInput, msg.to_string())
}

} // verus!
