//! The error type shared by every operation of the store.

use vstd::prelude::*;

verus! {

/// Why an operation of the store failed.
#[derive(Clone, Copy, Debug, PartialEq, Eq, Structural)]
pub enum KvsError {
    /// A filesystem operation of the host program failed.
    Io,
    /// A log record could not be parsed back from its bytes.
    Serde,
    /// A key was removed that the store does not hold.
    KeyNotFound,
    /// A record of the wrong kind was found: a `Get` in the log, or a
    /// record other than a `Set` at a position the index points at.
    UnexpectedCommandType,
}

pub type Result<T> = core::result::Result<T, KvsError>;

impl KvsError {
    /// The description that `describe` returns for each variant.
    pub open spec fn describe_spec(self) -> Seq<char> {
        match self {
            KvsError::Io => "I/O error"@,
            KvsError::Serde => "Malformed log record"@,
            KvsError::KeyNotFound => "Key not found"@,
            KvsError::UnexpectedCommandType => "Unexpected command type found"@,
        }
    }

    /// A short description of the error, as shown to users.
    pub fn describe(&self) -> (r: &'static str)
        ensures
            r@ == self.describe_spec(),
    {
        match self {
            KvsError::Io => "I/O error",
            KvsError::Serde => "Malformed log record",
            KvsError::KeyNotFound => "Key not found",
            KvsError::UnexpectedCommandType => "Unexpected command type found",
        }
    }
}

} // verus!
