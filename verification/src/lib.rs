//! Message framing for byte-stream transports.
//!
//! A byte stream has no message boundaries of its own. This crate delimits
//! text messages on the way out and reconstructs them on the way in, under
//! three strategies: unbounded (a message ends when the stream does),
//! length-prefixed (a four-byte big-endian length, then the payload) and
//! delimiter-terminated (the payload, then a blank line).
//!
//! Every strategy is written once, as a state machine over bytes, and is
//! driven either to completion over a blocking transport or step by step
//! over a transport that may not be ready.
//!
//! - [`chunk`]: the chunked writer, which sends a payload of any length in
//!   slices of a fixed size.
//! - [`unbounded`], [`length`], [`line`]: the three strategies: what a frame
//!   is, what a stream delivers, and the receiver that finds it out.
//! - [`receiver`]: what the three receivers have in common.
//! - [`socket`]: transports, blocking and polled, and the send and receive
//!   operations over them.
//! - [`memory`]: a transport in memory.
//! - [`text`] and [`error`]: text as bytes and back, and what can go wrong.
pub mod chunk;
pub mod error;
pub mod length;
pub mod line;
pub mod memory;
pub mod receiver;
pub mod socket;
pub mod text;
pub mod unbounded;

pub use chunk::{ChunkedWriter, BUFFER_SIZE, CONTENT_LENGTH_SIZE};
pub use error::{FrameError, TransportError};
pub use length::{decode_len, encode_len, LengthReceiver};
pub use line::{decode_line, encode_line, LineReceiver};
pub use memory::MemoryStream;
pub use receiver::FrameReceiver;
pub use socket::{SocketAsyncRecvTrait, SocketAsyncSendTrait, SocketRecvTrait, SocketSendTrait};
pub use unbounded::UnboundedReceiver;
