//! The ways in which sending or receiving a message can fail.
use vstd::prelude::*;

verus! {

/// A read or write that the transport itself reported as failed.
///
/// The framing layer never retries and never inspects the cause, so the
/// value carries none: a transport that wants to keep the cause holds it
/// beside the stream.
#[derive(Clone, Copy, Debug, PartialEq, Eq, Structural)]
pub struct TransportError {}

/// Why a send or a receive did not produce its message.
#[derive(Clone, Copy, Debug, PartialEq, Eq, Structural)]
pub enum FrameError {
    /// The transport failed a read or a write.
    Transport,
    /// A length-prefixed receive met the end of the stream before any byte
    /// of a header.
    MissingHeader,
    /// A payload length that a signed 32-bit header cannot carry, or a
    /// header that declares a negative length.
    InvalidLength,
    /// The stream ended inside a frame: before the declared length was
    /// reached, or before the terminating blank line.
    PrematureClose,
}

impl FrameError {
    /// The text of `message`, variant by variant.
    pub open spec fn message_text(self) -> Seq<char> {
        match self {
            FrameError::Transport => "transport failure"@,
            FrameError::MissingHeader => "Not found content-length"@,
            FrameError::InvalidLength => "content-length out of range"@,
            FrameError::PrematureClose => "stream closed inside a frame"@,
        }
    }

    /// A short description, for logs and for errors of other layers.
    pub fn message(&self) -> (text: &'static str)
        ensures
            text@ == self.message_text(),
    {
        match self {
            FrameError::Transport => "transport failure",
            FrameError::MissingHeader => "Not found content-length",
            FrameError::InvalidLength => "content-length out of range",
            FrameError::PrematureClose => "stream closed inside a frame",
        }
    }
}

} // verus!
