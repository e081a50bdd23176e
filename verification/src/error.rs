//! Error types of the modem protocols.
use vstd::prelude::*;

verus! {

#[verifier::external_type_specification]
#[verifier::external_body]
pub struct ExStdIoError(std::io::Error);

/// A frame-level decoding failure.
#[derive(Clone, Copy, Debug, PartialEq, Eq, Structural)]
pub enum ModemError {
    Incomplete,
    InvalidMarker,
    InvalidFrameType,
    InvalidFrameEncoding,
    InvalidBlockNumber,
    InvalidChecksum,
    InvalidCrc,
    InvalidLength,
    InvalidEscape,
    InvalidFileName,
}

/// A transfer-level failure.
#[derive(Debug)]
pub enum ModemTransferError {
    Protocol(ModemError),
    Io(std::io::Error),
    Timeout,
    Cancelled,
    UnexpectedByte(u8),
    UnexpectedFrame,
    UnsupportedFileSize(u64),
    InputBufferOverflow(usize),
}

} // verus!
