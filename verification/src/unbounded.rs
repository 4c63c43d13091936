//! The unbounded strategy: no header and no terminator. A message is all
//! that the stream carries until it ends.
use vstd::prelude::*;
use vstd::utf8::encode_utf8;
use crate::chunk::BUFFER_SIZE;
use crate::error::FrameError;
use crate::receiver::FrameReceiver;
use crate::text::{decode_text, text_bytes};

verus! {

/// The frame of a payload: the payload itself.
pub open spec fn unbounded_frame(payload: Seq<u8>) -> Seq<u8> {
    payload
}

/// What a stream delivers: everything it carried.
pub open spec fn unbounded_outcome(stream: Seq<u8>) -> Result<Seq<u8>, FrameError> {
    Ok(stream)
}

/// The bytes that `msg` is sent as.
pub fn encode(msg: &str) -> (frame: Vec<u8>)
    ensures
        frame@ == unbounded_frame(encode_utf8(msg@)),
{
    text_bytes(msg)
}

/// The receiver of the unbounded strategy: it gathers chunks until the
/// stream ends.
pub struct UnboundedReceiver {
    gathered: Vec<u8>,
    ended: bool,
}

impl UnboundedReceiver {
    /// A receiver that has taken nothing.
    pub fn new() -> (rx: UnboundedReceiver)
        ensures
            rx.wf(),
            rx.fed() == Seq::<u8>::empty(),
            !rx.closed(),
    {
        UnboundedReceiver { gathered: Vec::new(), ended: false }
    }
}

impl FrameReceiver for UnboundedReceiver {
    closed spec fn wf(&self) -> bool {
        self.gathered@.len() <= usize::MAX
    }

    closed spec fn fed(&self) -> Seq<u8> {
        self.gathered@
    }

    closed spec fn closed(&self) -> bool {
        self.ended
    }

    open spec fn complete(stream: Seq<u8>) -> bool {
        false
    }

    open spec fn outcome(stream: Seq<u8>) -> Result<Seq<u8>, FrameError> {
        unbounded_outcome(stream)
    }

    open spec fn exact() -> bool {
        true
    }

    open spec fn room(&self) -> nat {
        if self.closed() {
            0
        } else {
            BUFFER_SIZE as nat
        }
    }

    closed spec fn budget(&self) -> nat {
        (usize::MAX - self.gathered@.len()) as nat
    }

    proof fn lemma_complete_is_final(head: Seq<u8>, tail: Seq<u8>) {
    }

    fn wanted(&self) -> (n: usize) {
        if self.ended {
            0
        } else {
            BUFFER_SIZE
        }
    }

    fn accept(&mut self, chunk: &[u8]) -> (used: usize) {
        if self.ended {
            return 0;
        }
        if chunk.len() == 0 {
            self.ended = true;
            return 0;
        }
        self.gathered.extend_from_slice(chunk);
        // `len` bounds the length, which the invariant records.
        let _: usize = self.gathered.len();
        chunk.len()
    }

    fn result(&self) -> (r: Option<Result<String, FrameError>>) {
        if self.ended {
            Some(Ok(decode_text(self.gathered.as_slice())))
        } else {
            None
        }
    }
}

} // verus!
