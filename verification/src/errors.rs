//! The error taxonomy of the store, and the (status, error) pair the
//! transport layer turns into a wire response.

use vstd::prelude::*;

verus! {

/// Everything a store operation can report instead of a value.
#[derive(Debug, Clone, PartialEq, Eq)]
pub enum JokeBaseErr {
    /// An `add` collided with a record that already carries this id.
    JokeExists(String),
    /// Out-of-band setup (configuration, credentials) failed; never raised
    /// by the store's own operations.
    JokeBaseIoError(String),
    /// Random selection was asked of an empty store.
    NoJoke,
    /// No record carries the requested id.
    JokeDoesNotExist(String),
    /// The caller-supplied record fails validation.
    JokeUnprocessable(String),
    /// The persistence backend reported a failure not classified above;
    /// never raised by this in-memory engine itself.
    DatabaseError(String),
}

/// A typed error paired with the wire status the transport layer chose
/// for it. The store only builds the pair; mapping errors to status codes
/// belongs to the transport layer.
#[derive(Debug, Clone, PartialEq, Eq)]
pub struct JokeBaseError {
    pub status: u16,
    pub error: JokeBaseErr,
}

impl JokeBaseError {
    /// Packages a status code and a typed error for the transport layer.
    pub fn response(status: u16, error: JokeBaseErr) -> (r: JokeBaseError)
        ensures
            r.status == status,
            r.error == error,
    {
        JokeBaseError { status, error }
    }
}

} // verus!
