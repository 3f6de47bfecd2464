//! Errors reported by the store.
use vstd::prelude::*;

verus! {

/// The ways an operation on a store can fail.
#[derive(Debug, Clone, Copy, PartialEq, Eq, Structural)]
pub enum KvsError {
    /// The durable storage could not be reached or written.
    Io,
    /// Data saved at a location is not a valid store representation.
    CorruptedStore,
    /// The operation needs a key that the store does not hold.
    KeyNotFound,
}

impl KvsError {
    /// A short human-readable description of the error.
    pub fn message(&self) -> (r: &'static str)
        ensures
            r@ == match *self {
                KvsError::Io => "durable storage is unreachable or unwritable"@,
                KvsError::CorruptedStore => "stored data is not a valid store"@,
                KvsError::KeyNotFound => "key not found"@,
            },
    {
        match self {
            KvsError::Io => "durable storage is unreachable or unwritable",
            KvsError::CorruptedStore => "stored data is not a valid store",
            KvsError::KeyNotFound => "key not found",
        }
    }
}

} // verus!
