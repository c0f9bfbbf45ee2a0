//! Error type shared by the whole library.
use vstd::prelude::*;

verus! {

/// Unified error type.
#[derive(Debug, Clone)]
pub enum Error {
    /// Underlying object store failure.
    Store(String),
    /// Corrupted / truncated object payload.
    Corrupt(String),
    /// I/O error.
    Io(String),
    /// Encoding / decoding failure.
    Encode(String),
}

impl Error {
    /// Construct a store error carrying `msg`.
    pub fn store(msg: &str) -> (e: Error)
        ensures
            e matches Error::Store(m) && m@ == msg@,
    {
        Error::Store(msg.to_string())
    }

    /// Construct a corruption error carrying `msg`.
    pub fn corrupt(msg: &str) -> (e: Error)
        ensures
            e matches Error::Corrupt(m) && m@ == msg@,
    {
        Error::Corrupt(msg.to_string())
    }

    /// Construct an encoding error carrying `msg`.
    pub fn encode(msg: &str) -> (e: Error)
        ensures
            e matches Error::Encode(m) && m@ == msg@,
    {
        Error::Encode(msg.to_string())
    }

    /// The message carried by the error, prefixed the way the engine reports it.
    pub fn message(&self) -> (s: String)
        ensures
            s@ == match self {
                Error::Store(m) => "object store error: "@ + m@,
                Error::Corrupt(m) => "corrupted object data: "@ + m@,
                Error::Io(m) => "i/o error: "@ + m@,
                Error::Encode(m) => "encoding error: "@ + m@,
            },
    {
        match self {
            Error::Store(m) => "object store error: ".to_string().concat(m.as_str()),
            Error::Corrupt(m) => "corrupted object data: ".to_string().concat(m.as_str()),
            Error::Io(m) => "i/o error: ".to_string().concat(m.as_str()),
            Error::Encode(m) => "encoding error: ".to_string().concat(m.as_str()),
        }
    }
}

} // verus!
