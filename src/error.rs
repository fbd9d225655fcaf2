//! Faults of the codec and the outside error types they carry.
use vstd::prelude::*;

verus! {

#[verifier::external_type_specification]
#[verifier::external_body]
pub struct ExIoError(std::io::Error);

#[verifier::external_type_specification]
#[verifier::external_body]
pub struct ExDecodeError(rmp_serde::decode::Error);

#[verifier::external_type_specification]
#[verifier::external_body]
pub struct ExEncodeError(rmp_serde::encode::Error);

/// Faults that the codec reports, each carrying its underlying cause.
#[derive(Debug)]
pub enum CodecError {
    /// The length prefix is invalid or the transport closed in the middle of a frame.
    Length(std::io::Error),
    /// The payload is not a valid encoded message.
    MsgPackDecode(rmp_serde::decode::Error),
    /// The payload is a well-formed name that no message variant has.
    UnknownVariant(String),
    /// A value could not be encoded.
    MsgPackEncode(rmp_serde::encode::Error),
}

} // verus!
