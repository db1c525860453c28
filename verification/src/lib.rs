//! A RESP (Redis serialization protocol) wire codec: frame types, a
//! length prober that computes how many bytes the next complete frame
//! occupies without consuming them, an incremental decoder that either
//! yields one frame, asks for more bytes, or reports a fatal parse
//! error, and an encoder that writes a frame back in canonical form.

use vstd::prelude::*;

pub mod bufio;
pub mod cmd;
pub mod decode;
pub mod encode;
pub mod floattext;
pub mod frame;
pub mod laws;
pub mod model;
pub mod text;

pub use decode::{decode_boolean, decode_double, decode_integer};
pub use frame::{
    BulkString, RespArray, RespDouble, RespFrame, RespMap, RespNull, RespNullArray,
    RespNullBulkString, RespSet, SimpleError, SimpleString,
};

verus! {

/// Outcome of a decode or probe that did not produce a frame.
///
/// `NotComplete` is recoverable: the buffer does not yet hold a full
/// frame, and the caller should read more bytes and retry. All other
/// variants are fatal for the connection that sent the bytes.
#[derive(Debug, Clone, Copy, PartialEq, Eq, Structural, Hash)]
pub enum RespError {
    /// More bytes are needed before the next frame can be decided.
    NotComplete,
    /// The leading marker byte, or a fixed token, matched no known form.
    InvalidFrameType,
    /// A length or integer field did not parse as a number in range.
    ParseIntError,
    /// A double payload was not a valid floating-point literal.
    ParseFloatError,
}

} // verus!
