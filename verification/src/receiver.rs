//! What the three receive strategies have in common.
//!
//! A receiver is a state machine over the bytes of one stream. It is told
//! what each read brought, an empty chunk standing for the end of the stream,
//! and it says how much to ask for next and, once it knows, what the message
//! is. It performs no I/O itself, so one receiver serves a blocking transport
//! and one that has to be polled alike.
use vstd::prelude::*;
use crate::chunk::BUFFER_SIZE;
use crate::error::FrameError;
use crate::text::text_of;

verus! {

/// Whether `r` is what a receive owes when the frame holds `expected`: the
/// payload decoded as text, or the same error.
pub open spec fn delivers(
    r: Result<String, FrameError>,
    expected: Result<Seq<u8>, FrameError>,
) -> bool {
    match expected {
        Ok(payload) => r matches Ok(text) && text@ == text_of(payload),
        Err(e) => r == Err::<String, FrameError>(e),
    }
}

/// The text that a frame's payload stands for, or the error in its place.
pub open spec fn as_text(expected: Result<Seq<u8>, FrameError>) -> Result<Seq<char>, FrameError> {
    match expected {
        Ok(payload) => Ok(text_of(payload)),
        Err(e) => Err(e),
    }
}

/// A receive strategy as a state machine.
///
/// The state of a receiver is the bytes it has taken (`fed`) and whether it
/// has met the end of the stream (`closed`). The strategy itself is two
/// functions of a stream: `outcome`, what a stream that ends after these
/// bytes delivers, and `complete`, whether a prefix already settles that.
pub trait FrameReceiver: Sized {
    /// The invariant of the receiver.
    spec fn wf(&self) -> bool;

    /// The bytes taken so far, in order.
    spec fn fed(&self) -> Seq<u8>;

    /// Whether the end of the stream has been met.
    spec fn closed(&self) -> bool;

    /// Whether a stream that starts with `stream` delivers the same whatever
    /// follows.
    spec fn complete(stream: Seq<u8>) -> bool;

    /// What a stream that consists of `stream` and then ends delivers.
    spec fn outcome(stream: Seq<u8>) -> Result<Seq<u8>, FrameError>;

    /// Whether a receiver that is never offered more than it wants takes
    /// every byte it is offered, so that nothing is read past the frame.
    spec fn exact() -> bool;

    /// How many bytes the receiver asks for next.
    spec fn room(&self) -> nat;

    /// An upper bound on the number of bytes that the receiver can still
    /// take.
    spec fn budget(&self) -> nat;

    /// Once a prefix is complete, what follows it changes nothing.
    proof fn lemma_complete_is_final(head: Seq<u8>, tail: Seq<u8>)
        ensures
            Self::complete(head) ==> Self::complete(head + tail),
            Self::complete(head) ==> Self::outcome(head + tail) == Self::outcome(head),
    ;

    /// The size of the buffer to offer to the next read: zero exactly when
    /// the receive is over, and never more than `BUFFER_SIZE`.
    fn wanted(&self) -> (n: usize)
        requires
            self.wf(),
        ensures
            n == self.room(),
            n == 0 <==> (self.closed() || Self::complete(self.fed())),
            n <= BUFFER_SIZE,
    ;

    /// Takes what a read brought; an empty chunk is the end of the stream.
    /// Returns how many bytes of the chunk belong to this frame: all of
    /// them, unless the frame ends inside the chunk.
    fn accept(&mut self, chunk: &[u8]) -> (used: usize)
        requires
            old(self).wf(),
        ensures
            final(self).wf(),
            used <= chunk@.len(),
            final(self).fed() == old(self).fed() + chunk@.take(used as int),
            (old(self).closed() || Self::complete(old(self).fed())) ==> {
                &&& used == 0
                &&& final(self).closed() == old(self).closed()
            },
            !(old(self).closed() || Self::complete(old(self).fed())) ==> {
                &&& final(self).closed() == (chunk@.len() == 0)
                &&& chunk@.len() > 0 ==> used >= 1
            },
            used < chunk@.len() ==> (final(self).closed() || Self::complete(final(self).fed())),
            forall|k: int|
                0 <= k < used ==> !Self::complete(#[trigger] (old(self).fed() + chunk@.take(k))),
            Self::exact() && chunk@.len() <= old(self).room() ==> used == chunk@.len(),
            !(final(self).closed() || Self::complete(final(self).fed())) ==> final(self).budget()
                < old(self).budget(),
    ;

    /// The message, once the receive is over; `None` while it is not.
    fn result(&self) -> (r: Option<Result<String, FrameError>>)
        requires
            self.wf(),
        ensures
            (self.closed() || Self::complete(self.fed())) ==> (r matches Some(msg) && delivers(
                msg,
                Self::outcome(self.fed()),
            )),
            !(self.closed() || Self::complete(self.fed())) ==> r is None,
    ;
}

/// Whether a receive is over: the stream has ended, or what has been taken
/// settles the outcome.
pub open spec fn finished<R: FrameReceiver>(rx: &R) -> bool {
    rx.closed() || R::complete(rx.fed())
}

/// Receives from a stream that is at hand as a whole: `rx` is given all of
/// `stream` and then the end of the stream.
pub(crate) fn receive_all<R: FrameReceiver>(rx: R, stream: &[u8]) -> (r: Result<
    String,
    FrameError,
>)
    requires
        rx.wf(),
        !rx.closed(),
    ensures
        delivers(r, R::outcome(rx.fed() + stream@)),
{
    let mut rx = rx;
    let ghost start = rx.fed();
    let used = rx.accept(stream);
    proof {
        assert(start + stream@ =~= (start + stream@.take(used as int)) + stream@.skip(used as int));
        if R::complete(rx.fed()) {
            R::lemma_complete_is_final(rx.fed(), stream@.skip(used as int));
        }
    }
    if rx.wanted() != 0 {
        let end: [u8; 0] = [];
        rx.accept(end.as_slice());
    }
    match rx.result() {
        Some(msg) => msg,
        None => {
            // A receive that is over has a result.
            assert(false);
            Err(FrameError::PrematureClose)
        },
    }
}

} // verus!
