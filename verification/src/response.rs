//! The message model: the tagged result of one successful decode, and the
//! error taxonomy of the decoder.

use vstd::prelude::*;

verus! {

/// A complete message received from the server.
#[derive(Debug, Clone, PartialEq, Eq)]
pub enum Response {
    /// The command succeeded and produced no data.
    Empty,
    /// An ordered sequence of `(key, value)` pairs. Duplicate keys are
    /// permitted and the order of the lines on the wire is preserved, so
    /// that responses enumerating several entities can be regrouped
    /// downstream.
    Fields(Vec<(String, String)>),
    /// A structured error reported by the server.
    Error {
        /// Numeric error code.
        error_code: u64,
        /// Index of the failing command within a pipelined command list.
        command_list_index: u64,
        /// Name of the command that failed; may be empty.
        current_command: String,
        /// Human-readable message text.
        message: String,
    },
}

/// The character-level model of an ordered `(key, value)` pair sequence.
pub open spec fn pairs_view(v: Seq<(String, String)>) -> Seq<(Seq<char>, Seq<char>)> {
    v.map_values(|p: (String, String)| (p.0@, p.1@))
}

/// An error occurred while decoding a response.
///
/// Every decode-time error is unrecoverable for the current connection: the
/// decoder never resynchronizes by discarding bytes, so callers must treat
/// any of these as a signal to close the connection.
#[derive(Debug, Clone, Copy, PartialEq, Eq, Structural)]
pub enum MpdCodecError {
    /// A line of a key-value message was not of the shape `key: value`.
    InvalidKeyValueSequence,
    /// A message started like an error but was not correctly formatted.
    InvalidErrorMessage,
    /// A message contained bytes that are not valid UTF-8.
    InvalidEncoding,
    /// The first line of the stream was not the expected greeting.
    InvalidGreeting,
}

impl MpdCodecError {
    /// A short human-readable description of the error.
    pub fn describe(&self) -> (r: &'static str)
        ensures
            *self == MpdCodecError::InvalidKeyValueSequence ==> r@ == "response contained invalid key-sequence"@,
            *self == MpdCodecError::InvalidErrorMessage ==> r@ == "response contained invalid error message"@,
            *self == MpdCodecError::InvalidEncoding ==> r@ == "response contained invalid unicode"@,
            *self == MpdCodecError::InvalidGreeting ==> r@ == "did not receive expected greeting"@,
    {
        match self {
            MpdCodecError::InvalidKeyValueSequence => "response contained invalid key-sequence",
            MpdCodecError::InvalidErrorMessage => "response contained invalid error message",
            MpdCodecError::InvalidEncoding => "response contained invalid unicode",
            MpdCodecError::InvalidGreeting => "did not receive expected greeting",
        }
    }
}

} // verus!
