use vstd::prelude::*;
use crate::FragmentID;

verus! {

/// Failures that are not tied to the on-disk format.
#[derive(Debug, Clone, Copy, PartialEq, Eq, Structural)]
pub enum ManualError {
    BackingObjectMissing,
}

/// Structural failures of the container format and of lookups.
#[derive(Debug, Clone, Copy, PartialEq, Eq, Structural)]
pub enum FragmentError {
    NoFound(FragmentID),
    MissingRootFragment,
    InvalidFragmentTable,
    InvalidMagic,
    InvalidTable,
    LengthExceedsCapacity,
    FailedToCreateNewFragmentTablePart,
}

/// Failures of the byte stream underneath the store, or of a handle over it.
#[derive(Debug, Clone, Copy, PartialEq, Eq, Structural)]
pub enum IoErrorKind {
    /// A seek to a position outside the allowed range.
    InvalidInput,
    /// A write that could not place any byte.
    WriteZero,
    /// An offset or a length past what the stream can address.
    OutOfSpace,
    /// An operation that the handle's current mode does not serve.
    Unsupported,
}

/// Every error that an operation of the store can surface.
#[derive(Debug, Clone, Copy, PartialEq, Eq, Structural)]
pub enum Error {
    Fragment(FragmentError),
    Manual(ManualError),
    Io(IoErrorKind),
    /// A structure was cut short: fewer bytes were available than its layout needs.
    Decode,
}

pub type Result<T> = core::result::Result<T, Error>;

impl FragmentError {
    pub fn not_found<T>(id: FragmentID) -> (r: Result<T>)
        ensures
            r == Err::<T, Error>(Error::Fragment(FragmentError::NoFound(id))),
    {
        Err(Error::Fragment(FragmentError::NoFound(id)))
    }

    pub fn invalid_fragment_table<T>() -> (r: Result<T>)
        ensures
            r == Err::<T, Error>(Error::Fragment(FragmentError::InvalidFragmentTable)),
    {
        Err(Error::Fragment(FragmentError::InvalidFragmentTable))
    }
}

} // verus!
