//! The error type shared by the engine, the codec and the wire protocol.

use vstd::prelude::*;
use vstd::string::StringExecFns;

verus! {

/// Everything that can go wrong in the store or on the wire.
///
/// Variants that wrap an underlying failure carry its rendered message.
#[derive(Debug, Clone)]
pub enum KvsError {
    /// A record or a wire frame did not decode: a truncated record, a bad
    /// tag, or a string that is not valid UTF-8.
    Decode(String),
    /// A record could not be encoded.
    Encode(String),
    /// An input/output failure reported by the host.
    IO(String),
    /// `remove` was asked for a key that is not present.
    KeyNotFound,
    /// The index pointed at bytes that are not a `Set` record.
    UnexpectedCommand,
    /// A failure reported by the far side of a connection.
    StringError(String),
    /// A failure reported by the sled engine.
    Sled(String),
    /// Stored bytes were not valid UTF-8.
    Utf8(String),
    /// A response that does not answer the request that was sent.
    UnexpectedResponse,
}

impl KvsError {
    /// The human-readable rendering of the error; `remove` of an absent key
    /// renders as exactly `Key not found`.
    pub fn message(&self) -> (r: String)
        ensures
            r@ == self.spec_message(),
    {
        match self {
            KvsError::Decode(m) => String::from_str("Decode: ").concat(m.as_str()),
            KvsError::Encode(m) => String::from_str("Encode: ").concat(m.as_str()),
            KvsError::IO(m) => String::from_str("IO: ").concat(m.as_str()),
            KvsError::KeyNotFound => String::from_str("Key not found"),
            KvsError::UnexpectedCommand => String::from_str("UnexpectedCommand"),
            KvsError::StringError(m) => m.clone(),
            KvsError::Sled(m) => String::from_str("Sled: ").concat(m.as_str()),
            KvsError::Utf8(m) => String::from_str("Utf8: ").concat(m.as_str()),
            KvsError::UnexpectedResponse => String::from_str("UnexpectedResponse"),
        }
    }

    /// What `message` returns, at the specification level.
    pub open spec fn spec_message(&self) -> Seq<char> {
        match self {
            KvsError::Decode(m) => "Decode: "@ + m@,
            KvsError::Encode(m) => "Encode: "@ + m@,
            KvsError::IO(m) => "IO: "@ + m@,
            KvsError::KeyNotFound => "Key not found"@,
            KvsError::UnexpectedCommand => "UnexpectedCommand"@,
            KvsError::StringError(m) => m@,
            KvsError::Sled(m) => "Sled: "@ + m@,
            KvsError::Utf8(m) => "Utf8: "@ + m@,
            KvsError::UnexpectedResponse => "UnexpectedResponse"@,
        }
    }
}

} // verus!
