use vstd::prelude::*;

verus! {

/// Failure of the message codec: the frame was not a well-formed
/// serialized message.
#[derive(Clone, Copy, Debug, PartialEq, Eq, Structural)]
pub enum CodecError {
    MalformedMessage,
}

/// Failure of the file-transfer header exchange.
#[derive(Clone, Copy, Debug, PartialEq, Eq, Structural)]
pub enum ProtocolError {
    /// Fewer than two newline-terminated lines were present.
    HeaderIncomplete,
    /// The size line did not hold a decimal integer that fits in `u64`.
    BadSize,
    /// The file-name line was not valid UTF-8.
    BadName,
}

} // verus!
