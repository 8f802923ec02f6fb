use vstd::prelude::*;

pub mod codec;
pub mod group;
pub mod handlers;
pub mod header;
pub mod laws;
pub mod meta;
pub mod requests;
pub mod utf8;

verus! {

/// Errors that a wire-format or metadata-log decoder can report.
#[derive(Clone, Copy, PartialEq, Eq, Structural, Debug)]
pub enum DecodeError {
    /// The buffer ended before the field being decoded was complete.
    Truncated,
    /// An unsigned varint ran past its maximum width of five bytes.
    VarintTooLarge,
    /// A length prefix was negative (other than the null sentinel).
    InvalidLength,
    /// A string field held bytes that are not valid UTF-8.
    InvalidUtf8,
    /// The request's api key is not one the protocol tables know.
    UnknownApiKey,
    /// The outer record-batch framing of the metadata log was rejected.
    BadBatch,
}

} // verus!
