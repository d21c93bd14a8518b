//! Client-side protocol engine for the MPD line-oriented control protocol.
//!
//! The heart of the crate is the incremental message decoder: a stateful
//! scanner that consumes arbitrarily fragmented chunks of bytes from a
//! streaming connection and emits complete, correctly delimited protocol
//! messages. Completed message bodies are handed to the line-pair parser or
//! to the error-line parser, which produce [`response::Response`] values.

pub mod buffer;
pub mod codec;
pub mod error_line;
pub mod fields;
pub mod playlist;
pub mod response;
pub mod text;

pub use codec::MpdCodec;
pub use response::{MpdCodecError, Response};
