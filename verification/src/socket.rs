//! Transports, and the codecs over them.
//!
//! A transport offers one operation in each direction: write some of these
//! bytes, read some bytes into this buffer. A blocking transport returns
//! when it has done so; one that is polled may answer that it is not ready.
//! Everything else, the three send and the three receive operations, is
//! provided here on top of that one operation.
//!
//! A transport may carry a model of its traffic: the bytes it will still
//! deliver, the bytes it has taken. Of a transport with a model the
//! operations state exactly what they return and what they leave behind. Of
//! one without, such as a socket, they state what holds of every outcome.
use vstd::prelude::*;
use vstd::slice::slice_subrange;
use vstd::utf8::encode_utf8;
use crate::chunk::{chunk_count, ChunkedWriter, BUFFER_SIZE};
use crate::error::{FrameError, TransportError};
use crate::length::{
    encode_len, length_complete, length_consumed, length_frame, length_outcome,
    lemma_length_complete_is_final, LengthReceiver, MAX_CONTENT_LENGTH,
};
use crate::line::{
    encode_line, lemma_line_fails_only_by_closing, line_frame, line_outcome, LineReceiver,
};
use crate::receiver::{delivers, finished, FrameReceiver};
use crate::text::text_bytes;
use crate::unbounded::{unbounded_outcome, UnboundedReceiver};

verus! {

/// The write half of a blocking transport, and the send operations over
/// it.
pub trait SocketSendTrait {
    /// Whether `outgoing` describes this transport.
    open spec fn recording(&self) -> bool {
        false
    }

    /// The bytes that the transport has taken so far, in order.
    open spec fn outgoing(&self) -> Seq<u8> {
        Seq::empty()
    }

    /// Whether the transport takes every byte it is offered in one write.
    open spec fn greedy(&self) -> bool {
        false
    }

    /// Writes some of `bytes`, possibly not all, and returns how many.
    fn write_chunk(&mut self, bytes: &[u8]) -> (r: Result<usize, TransportError>)
        ensures
            old(self).recording() ==> final(self).recording(),
            old(self).recording() ==> final(self).greedy() == old(self).greedy(),
            old(self).recording() ==> ({
                &&& r matches Ok(n)
                &&& n <= bytes@.len()
                &&& final(self).outgoing() == old(self).outgoing() + bytes@.take(n as int)
                &&& bytes@.len() > 0 ==> n >= 1
                &&& old(self).greedy() ==> n == bytes@.len()
            }),
    ;

    /// The chunked writer: offers the transport slice after slice of what
    /// `writer` still holds, each starting where the last write ended, until
    /// all of it is written, and returns the length of the payload. The
    /// first write that fails, or takes nothing, ends the send with an
    /// error; nothing is retried.
    ///
    /// Over a transport with a model the payload arrives whole and in order,
    /// and where every write takes its whole slice the writes number the
    /// length of the payload divided by the chunk size, rounded up.
    fn send_raw(&mut self, writer: &mut ChunkedWriter) -> (r: Result<usize, FrameError>)
        requires
            old(writer).wf(),
        ensures
            final(writer).wf(),
            final(writer).payload() == old(writer).payload(),
            final(writer).chunk_size() == old(writer).chunk_size(),
            r matches Ok(n) ==> final(writer).done() && n == old(writer).payload().len(),
            r matches Err(e) ==> e == FrameError::Transport,
            old(self).recording() ==> final(self).recording(),
            old(self).recording() ==> final(self).greedy() == old(self).greedy(),
            old(self).recording() ==> r is Ok && final(self).outgoing() == old(self).outgoing()
                + old(writer).payload().skip(old(writer).sent() as int),
            old(self).recording() && old(self).greedy() && old(writer).whole() ==> {
                &&& final(writer).whole()
                &&& final(writer).writes() == chunk_count(
                    old(writer).payload().len(),
                    old(writer).chunk_size(),
                )
            },
    {
        let ghost payload = writer.payload();
        let ghost start = writer.sent();
        proof {
            writer.lemma_bounds();
        }
        while !writer.is_done()
            invariant
                writer.wf(),
                writer.payload() == payload,
                writer.chunk_size() == old(writer).chunk_size(),
                start == old(writer).sent(),
                payload == old(writer).payload(),
                start <= writer.sent() <= payload.len(),
                old(self).recording() ==> self.recording() && self.greedy() == old(self).greedy(),
                old(self).recording() ==> self.outgoing() == old(self).outgoing()
                    + payload.subrange(start as int, writer.sent() as int),
                old(self).recording() && old(self).greedy() && old(writer).whole()
                    ==> writer.whole(),
            decreases payload.len() - writer.sent(),
        {
            proof {
                writer.lemma_bounds();
            }
            let slice = writer.next_chunk();
            let n = match self.write_chunk(slice) {
                Ok(n) => n,
                Err(_) => {
                    return Err(FrameError::Transport);
                },
            };
            match writer.advance(n) {
                Ok(()) => {},
                Err(e) => {
                    return Err(e);
                },
            }
        }
        Ok(writer.len())
    }

    /// Sends `msg` under the unbounded strategy: its bytes and nothing else.
    /// The far side sees the end of the message when this side closes its
    /// half of the connection.
    fn send(&mut self, msg: String) -> (r: Result<usize, FrameError>)
        ensures
            r matches Ok(n) ==> n == encode_utf8(msg@).len(),
            r matches Err(e) ==> e == FrameError::Transport,
            old(self).recording() ==> final(self).recording(),
            old(self).recording() ==> r is Ok && final(self).outgoing() == old(self).outgoing()
                + encode_utf8(msg@),
    {
        let mut writer = ChunkedWriter::new(text_bytes(msg.as_str()));
        self.send_raw(&mut writer)
    }

    /// Sends `msg` under the length-prefixed strategy: header and payload
    /// as one buffer, through the chunked writer. A message that a header
    /// cannot announce is refused before anything is written.
    fn send_len(&mut self, msg: String) -> (r: Result<usize, FrameError>)
        ensures
            encode_utf8(msg@).len() > MAX_CONTENT_LENGTH ==> r == Err::<usize, FrameError>(
                FrameError::InvalidLength,
            ),
            encode_utf8(msg@).len() <= MAX_CONTENT_LENGTH ==> (r matches Err(e) ==> e
                == FrameError::Transport),
            r matches Ok(n) ==> n == 4 + encode_utf8(msg@).len(),
            old(self).recording() ==> final(self).recording(),
            old(self).recording() && encode_utf8(msg@).len() <= MAX_CONTENT_LENGTH ==> r is Ok
                && final(self).outgoing() == old(self).outgoing() + length_frame(
                encode_utf8(msg@),
            ),
            old(self).recording() && encode_utf8(msg@).len() > MAX_CONTENT_LENGTH
                ==> final(self).outgoing() == old(self).outgoing(),
    {
        let frame = match encode_len(msg.as_str()) {
            Ok(frame) => frame,
            Err(e) => {
                return Err(e);
            },
        };
        let mut writer = ChunkedWriter::new(frame);
        self.send_raw(&mut writer)
    }

    /// Sends `msg` under the delimiter strategy: its bytes, then a blank
    /// line. The connection stays open.
    fn send_line(&mut self, msg: String) -> (r: Result<usize, FrameError>)
        ensures
            r matches Ok(n) ==> n == encode_utf8(msg@).len() + 2,
            r matches Err(e) ==> e == FrameError::Transport,
            old(self).recording() ==> final(self).recording(),
            old(self).recording() ==> r is Ok && final(self).outgoing() == old(self).outgoing()
                + line_frame(encode_utf8(msg@)),
    {
        let mut writer = ChunkedWriter::new(encode_line(msg.as_str()));
        self.send_raw(&mut writer)
    }
}

/// Whether `r` is what `rx` has made of the bytes it has taken, the receive
/// being over.
pub open spec fn settled<R: FrameReceiver>(rx: &R, r: Result<String, FrameError>) -> bool {
    finished(rx) && delivers(r, R::outcome(rx.fed()))
}

/// Whether a receive that started on `stream` has so far taken `fed` and
/// left `left`: `fed` is the head of the stream, `left` is its tail, and the
/// two do not overlap.
pub open spec fn splits(stream: Seq<u8>, fed: Seq<u8>, left: Seq<u8>) -> bool {
    &&& fed.len() + left.len() <= stream.len()
    &&& fed == stream.take(fed.len() as int)
    &&& left == stream.skip(stream.len() - left.len())
}

/// The read half of a blocking transport, and the receive operations over
/// it.
pub trait SocketRecvTrait {
    /// Whether `incoming` describes this transport. A socket has no model;
    /// a transport whose input is known beforehand has one.
    open spec fn scripted(&self) -> bool {
        false
    }

    /// The bytes that the transport will deliver before its stream ends.
    open spec fn incoming(&self) -> Seq<u8> {
        Seq::empty()
    }

    /// Reads into `buf`, possibly fewer bytes than it holds, and returns how
    /// many; zero is the end of the stream, not an error.
    fn read_chunk(&mut self, buf: &mut [u8]) -> (r: Result<usize, TransportError>)
        ensures
            final(buf)@.len() == old(buf)@.len(),
            old(self).scripted() ==> final(self).scripted(),
            old(self).scripted() ==> ({
                &&& r matches Ok(n)
                &&& n <= old(buf)@.len()
                &&& n <= old(self).incoming().len()
                &&& final(buf)@.take(n as int) == old(self).incoming().take(n as int)
                &&& final(self).incoming() == old(self).incoming().skip(n as int)
                &&& n == 0 <==> (old(buf)@.len() == 0 || old(self).incoming().len() == 0)
            }),
    ;

    /// Runs `rx` over this transport until the receive is over.
    ///
    /// Whatever the transport does, a result other than a transport failure
    /// is what the strategy makes of the bytes that were read. Over a
    /// transport with a model the result is what the strategy makes of the
    /// stream, in however many reads it arrived, and a strategy that takes
    /// no more than its frame leaves the rest of the stream unread.
    fn receive<R: FrameReceiver>(&mut self, rx: &mut R) -> (r: Result<String, FrameError>)
        requires
            old(rx).wf(),
        ensures
            final(rx).wf(),
            r != Err::<String, FrameError>(FrameError::Transport) ==> settled(final(rx), r),
            old(self).scripted() ==> final(self).scripted(),
            old(self).scripted() && !old(rx).closed() ==> {
                let stream = old(rx).fed() + old(self).incoming();
                &&& delivers(r, R::outcome(stream))
                &&& splits(stream, final(rx).fed(), final(self).incoming())
                &&& R::exact() ==> final(rx).fed() + final(self).incoming() == stream
                &&& final(rx).closed() ==> final(self).incoming().len() == 0
            },
    {
        let mut buf: Vec<u8> = vec![0u8; BUFFER_SIZE];
        let ghost stream = old(rx).fed() + old(self).incoming();
        let ghost modelled = old(self).scripted() && !old(rx).closed();
        proof {
            assert(stream.take(rx.fed().len() as int) =~= rx.fed());
            assert(stream.skip(stream.len() - self.incoming().len()) =~= self.incoming());
        }
        loop
            invariant_except_break
                modelled ==> rx.fed() + self.incoming() == stream,
                modelled ==> !rx.closed(),
            invariant
                rx.wf(),
                buf@.len() == BUFFER_SIZE,
                modelled == (old(self).scripted() && !old(rx).closed()),
                stream == old(rx).fed() + old(self).incoming(),
                old(self).scripted() ==> self.scripted(),
                modelled ==> splits(stream, rx.fed(), self.incoming()),
                modelled ==> (rx.closed() ==> self.incoming().len() == 0),
                modelled && R::exact() ==> rx.fed() + self.incoming() == stream,
            ensures
                finished(rx),
                modelled ==> R::outcome(rx.fed()) == R::outcome(stream),
            decreases rx.budget(),
        {
            let want = rx.wanted();
            if want == 0 {
                proof {
                    if modelled {
                        R::lemma_complete_is_final(rx.fed(), self.incoming());
                    }
                }
                break ;
            }
            let ghost got: Seq<u8>;
            let n = {
                let whole = buf.as_mut_slice();
                let (head, tail) = whole.split_at_mut(want);
                let read = self.read_chunk(head);
                proof {
                    got = head@;
                }
                match read {
                    Ok(n) => n,
                    Err(_) => {
                        return Err(FrameError::Transport);
                    },
                }
            };
            if n > want {
                return Err(FrameError::Transport);
            }
            let chunk = slice_subrange(buf.as_slice(), 0, n);
            let used = rx.accept(chunk);
            proof {
                if modelled {
                    assert(chunk@ =~= got.take(n as int));
                    let gap = chunk@.skip(used as int);
                    assert(stream =~= rx.fed() + (gap + self.incoming()));
                    assert(stream.take(rx.fed().len() as int) =~= rx.fed());
                    assert(stream.skip(stream.len() - self.incoming().len()) =~= self.incoming());
                    if R::complete(rx.fed()) {
                        R::lemma_complete_is_final(rx.fed(), gap + self.incoming());
                    }
                }
            }
            if rx.wanted() == 0 {
                break ;
            }
        }
        match rx.result() {
            Some(msg) => msg,
            None => {
                // A receive that is over has a result.
                assert(false);
                Err(FrameError::PrematureClose)
            },
        }
    }

    /// Receives under the unbounded strategy: everything until the stream
    /// ends, in however many reads it arrives. A stream that ends at once
    /// delivers the empty message. Only the transport can make this fail,
    /// and the call does not return before the far side closes its half.
    fn recv(&mut self) -> (r: Result<String, FrameError>)
        ensures
            r matches Err(e) ==> e == FrameError::Transport,
            r is Ok ==> (exists|read: Seq<u8>| delivers(r, #[trigger] unbounded_outcome(read))),
            old(self).scripted() ==> final(self).scripted(),
            old(self).scripted() ==> delivers(r, unbounded_outcome(old(self).incoming())),
            old(self).scripted() ==> final(self).incoming().len() == 0,
    {
        let mut rx = UnboundedReceiver::new();
        self.receive(&mut rx)
    }

    /// Receives under the length-prefixed strategy: the header, then exactly
    /// as many bytes as it declares, and no byte of what follows.
    fn read_len(&mut self) -> (r: Result<String, FrameError>)
        ensures
            r != Err::<String, FrameError>(FrameError::Transport) ==> (exists|read: Seq<u8>|
                delivers(r, #[trigger] length_outcome(read))),
            old(self).scripted() ==> final(self).scripted(),
            old(self).scripted() ==> delivers(r, length_outcome(old(self).incoming())),
            old(self).scripted() ==> final(self).incoming() == old(self).incoming().skip(
                length_consumed(old(self).incoming()) as int,
            ),
    {
        let mut rx = LengthReceiver::new();
        let r = self.receive(&mut rx);
        proof {
            if old(self).scripted() {
                rx.lemma_takes_only_frame();
                if length_complete(rx.fed()) {
                    lemma_length_complete_is_final(rx.fed(), self.incoming());
                }
            }
        }
        r
    }

    /// Receives under the delimiter strategy: the lines before the first
    /// blank line. Reads are buffered, so bytes that arrive together with
    /// the blank line may be read with it; they are not part of the message.
    fn read_line(&mut self) -> (r: Result<String, FrameError>)
        ensures
            r matches Err(e) ==> e == FrameError::Transport || e == FrameError::PrematureClose,
            r != Err::<String, FrameError>(FrameError::Transport) ==> (exists|read: Seq<u8>|
                delivers(r, #[trigger] line_outcome(read))),
            old(self).scripted() ==> final(self).scripted(),
            old(self).scripted() ==> delivers(r, line_outcome(old(self).incoming())),
            old(self).scripted() ==> final(self).incoming().len() <= old(self).incoming().len()
                && final(self).incoming() == old(self).incoming().skip(
                old(self).incoming().len() - final(self).incoming().len(),
            ),
    {
        let mut rx = LineReceiver::new();
        let r = self.receive(&mut rx);
        proof {
            lemma_line_fails_only_by_closing(rx.fed());
        }
        r
    }
}

/// What a step of a suspended operation has come to: nothing yet, or the
/// result of the operation.
pub open spec fn outcome_of<T>(step: Result<Option<T>, FrameError>) -> Option<
    Result<T, FrameError>,
> {
    match step {
        Ok(None) => None,
        Ok(Some(value)) => Some(Ok(value)),
        Err(e) => Some(Err(e)),
    }
}

/// The write half of a transport that is polled, and the send operation
/// over it.
///
/// An operation over such a transport goes as far as the transport is ready
/// and then returns `Ok(None)`; the caller waits for the transport and calls
/// again with the same state. What is written, and in which slices, is what
/// a blocking transport would have been given.
pub trait SocketAsyncSendTrait {
    /// Whether `outgoing` describes this transport.
    open spec fn recording(&self) -> bool {
        false
    }

    /// The bytes that the transport has taken so far, in order.
    open spec fn outgoing(&self) -> Seq<u8> {
        Seq::empty()
    }

    /// Whether the transport takes every byte it is offered in one write.
    open spec fn greedy(&self) -> bool {
        false
    }

    /// Writes some of `bytes` if the transport is ready, and returns how
    /// many; `None` where it is not ready, and then nothing was written.
    fn try_write_chunk(&mut self, bytes: &[u8]) -> (r: Result<Option<usize>, TransportError>)
        ensures
            old(self).recording() ==> final(self).recording(),
            old(self).recording() ==> final(self).greedy() == old(self).greedy(),
            old(self).recording() ==> r is Ok,
            old(self).recording() && r == Ok::<Option<usize>, TransportError>(None)
                ==> final(self).outgoing() == old(self).outgoing(),
            old(self).recording() ==> (r matches Ok(Some(n)) ==> {
                &&& n <= bytes@.len()
                &&& final(self).outgoing() == old(self).outgoing() + bytes@.take(n as int)
                &&& bytes@.len() > 0 ==> n >= 1
                &&& old(self).greedy() ==> n == bytes@.len()
            }),
    ;

    /// The chunked writer, one step of it: writes what `writer` still holds
    /// for as long as the transport is ready. Returns the length of the
    /// payload once all of it is written, `None` where the transport has to
    /// be waited for.
    ///
    /// To send under a strategy, the writer is made for the frame of the
    /// message: its bytes alone, `encode_len` of it, or `encode_line` of it.
    fn send(&mut self, writer: &mut ChunkedWriter) -> (r: Result<Option<usize>, FrameError>)
        requires
            old(writer).wf(),
        ensures
            final(writer).wf(),
            final(writer).payload() == old(writer).payload(),
            final(writer).chunk_size() == old(writer).chunk_size(),
            old(writer).sent() <= final(writer).sent() <= old(writer).payload().len(),
            r matches Ok(Some(n)) ==> final(writer).done() && n == old(writer).payload().len(),
            r matches Ok(None) ==> !final(writer).done(),
            r matches Err(e) ==> e == FrameError::Transport,
            old(self).recording() ==> final(self).recording(),
            old(self).recording() ==> final(self).greedy() == old(self).greedy(),
            old(self).recording() ==> r is Ok && final(self).outgoing() == old(self).outgoing()
                + old(writer).payload().subrange(
                old(writer).sent() as int,
                final(writer).sent() as int,
            ),
            old(self).recording() && old(self).greedy() && old(writer).whole() ==> {
                &&& final(writer).whole()
                &&& final(writer).done() ==> final(writer).writes() == chunk_count(
                    old(writer).payload().len(),
                    old(writer).chunk_size(),
                )
            },
    {
        let ghost payload = writer.payload();
        let ghost start = writer.sent();
        proof {
            writer.lemma_bounds();
        }
        while !writer.is_done()
            invariant
                writer.wf(),
                writer.payload() == payload,
                writer.chunk_size() == old(writer).chunk_size(),
                start == old(writer).sent(),
                payload == old(writer).payload(),
                start <= writer.sent() <= payload.len(),
                old(self).recording() ==> self.recording() && self.greedy() == old(self).greedy(),
                old(self).recording() ==> self.outgoing() == old(self).outgoing()
                    + payload.subrange(start as int, writer.sent() as int),
                old(self).recording() && old(self).greedy() && old(writer).whole()
                    ==> writer.whole(),
            decreases payload.len() - writer.sent(),
        {
            proof {
                writer.lemma_bounds();
            }
            let slice = writer.next_chunk();
            let n = match self.try_write_chunk(slice) {
                Ok(Some(n)) => n,
                Ok(None) => {
                    return Ok(None);
                },
                Err(_) => {
                    return Err(FrameError::Transport);
                },
            };
            match writer.advance(n) {
                Ok(()) => {},
                Err(e) => {
                    return Err(e);
                },
            }
        }
        Ok(Some(writer.len()))
    }
}

/// The read half of a transport that is polled, and the receive operations
/// over it.
///
/// A receive goes as far as the transport is ready and then returns
/// `Ok(None)`; the caller waits for the transport and calls again with the
/// same receiver. The message is the one that a blocking transport would
/// have delivered.
pub trait SocketAsyncRecvTrait {
    /// Whether `incoming` describes this transport.
    open spec fn scripted(&self) -> bool {
        false
    }

    /// The bytes that the transport will deliver before its stream ends.
    open spec fn incoming(&self) -> Seq<u8> {
        Seq::empty()
    }

    /// Reads into `buf` if the transport is ready, and returns how many
    /// bytes, zero being the end of the stream; `None` where it is not
    /// ready, and then nothing was read.
    fn try_read_chunk(&mut self, buf: &mut [u8]) -> (r: Result<Option<usize>, TransportError>)
        ensures
            final(buf)@.len() == old(buf)@.len(),
            old(self).scripted() ==> final(self).scripted(),
            old(self).scripted() ==> r is Ok,
            old(self).scripted() && r == Ok::<Option<usize>, TransportError>(None)
                ==> final(self).incoming() == old(self).incoming(),
            old(self).scripted() ==> (r matches Ok(Some(n)) ==> {
                &&& n <= old(buf)@.len()
                &&& n <= old(self).incoming().len()
                &&& final(buf)@.take(n as int) == old(self).incoming().take(n as int)
                &&& final(self).incoming() == old(self).incoming().skip(n as int)
                &&& n == 0 <==> (old(buf)@.len() == 0 || old(self).incoming().len() == 0)
            }),
    ;

    /// Runs `rx` over this transport for as long as the transport is ready.
    ///
    /// Whatever the transport does, a message or an error of the strategy
    /// is what the strategy makes of the bytes that were read. Over a
    /// transport with a model it is what the strategy makes of the stream,
    /// and a receive that is suspended has lost no byte.
    fn receive<R: FrameReceiver>(&mut self, rx: &mut R) -> (r: Result<Option<String>, FrameError>)
        requires
            old(rx).wf(),
        ensures
            final(rx).wf(),
            r matches Ok(None) ==> !finished(final(rx)),
            r matches Ok(Some(msg)) ==> settled(final(rx), Ok(msg)),
            r matches Err(e) ==> e == FrameError::Transport || settled(final(rx), Err(e)),
            old(self).scripted() ==> final(self).scripted(),
            old(self).scripted() && !old(rx).closed() ==> {
                let stream = old(rx).fed() + old(self).incoming();
                &&& outcome_of(r) matches Some(msg) ==> delivers(msg, R::outcome(stream))
                &&& outcome_of(r) is None ==> final(rx).fed() + final(self).incoming() == stream
                &&& splits(stream, final(rx).fed(), final(self).incoming())
                &&& R::exact() ==> final(rx).fed() + final(self).incoming() == stream
                &&& final(rx).closed() ==> final(self).incoming().len() == 0
            },
    {
        let mut buf: Vec<u8> = vec![0u8; BUFFER_SIZE];
        let ghost stream = old(rx).fed() + old(self).incoming();
        let ghost modelled = old(self).scripted() && !old(rx).closed();
        proof {
            assert(stream.take(rx.fed().len() as int) =~= rx.fed());
            assert(stream.skip(stream.len() - self.incoming().len()) =~= self.incoming());
        }
        loop
            invariant_except_break
                modelled ==> rx.fed() + self.incoming() == stream,
                modelled ==> !rx.closed(),
            invariant
                rx.wf(),
                buf@.len() == BUFFER_SIZE,
                modelled == (old(self).scripted() && !old(rx).closed()),
                stream == old(rx).fed() + old(self).incoming(),
                old(self).scripted() ==> self.scripted(),
                modelled ==> splits(stream, rx.fed(), self.incoming()),
                modelled ==> (rx.closed() ==> self.incoming().len() == 0),
                modelled && R::exact() ==> rx.fed() + self.incoming() == stream,
            ensures
                finished(rx),
                modelled ==> R::outcome(rx.fed()) == R::outcome(stream),
            decreases rx.budget(),
        {
            let want = rx.wanted();
            if want == 0 {
                proof {
                    if modelled {
                        R::lemma_complete_is_final(rx.fed(), self.incoming());
                    }
                }
                break ;
            }
            let ghost got: Seq<u8>;
            let n = {
                let whole = buf.as_mut_slice();
                let (head, tail) = whole.split_at_mut(want);
                let read = self.try_read_chunk(head);
                proof {
                    got = head@;
                }
                match read {
                    Ok(Some(n)) => n,
                    Ok(None) => {
                        return Ok(None);
                    },
                    Err(_) => {
                        return Err(FrameError::Transport);
                    },
                }
            };
            if n > want {
                return Err(FrameError::Transport);
            }
            let chunk = slice_subrange(buf.as_slice(), 0, n);
            let used = rx.accept(chunk);
            proof {
                if modelled {
                    assert(chunk@ =~= got.take(n as int));
                    let gap = chunk@.skip(used as int);
                    assert(stream =~= rx.fed() + (gap + self.incoming()));
                    assert(stream.take(rx.fed().len() as int) =~= rx.fed());
                    assert(stream.skip(stream.len() - self.incoming().len()) =~= self.incoming());
                    if R::complete(rx.fed()) {
                        R::lemma_complete_is_final(rx.fed(), gap + self.incoming());
                    }
                }
            }
            if rx.wanted() == 0 {
                break ;
            }
        }
        match rx.result() {
            Some(Ok(msg)) => Ok(Some(msg)),
            Some(Err(e)) => Err(e),
            None => {
                // A receive that is over has a result.
                assert(false);
                Err(FrameError::PrematureClose)
            },
        }
    }

    /// A step of a receive under the unbounded strategy.
    fn recv(&mut self, rx: &mut UnboundedReceiver) -> (r: Result<Option<String>, FrameError>)
        requires
            old(rx).wf(),
        ensures
            final(rx).wf(),
            r matches Ok(None) ==> !finished(final(rx)),
            r matches Ok(Some(msg)) ==> settled(final(rx), Ok(msg)),
            r matches Err(e) ==> e == FrameError::Transport,
            old(self).scripted() ==> final(self).scripted(),
            old(self).scripted() && !old(rx).closed() ==> {
                let stream = old(rx).fed() + old(self).incoming();
                &&& r is Ok
                &&& final(rx).fed() + final(self).incoming() == stream
                &&& r matches Ok(Some(msg)) ==> delivers(Ok(msg), unbounded_outcome(stream))
                    && final(self).incoming().len() == 0
            },
    {
        self.receive(rx)
    }

    /// A step of a receive under the length-prefixed strategy.
    fn read_len(&mut self, rx: &mut LengthReceiver) -> (r: Result<Option<String>, FrameError>)
        requires
            old(rx).wf(),
        ensures
            final(rx).wf(),
            r matches Ok(None) ==> !finished(final(rx)),
            r matches Ok(Some(msg)) ==> settled(final(rx), Ok(msg)),
            r matches Err(e) ==> e == FrameError::Transport || settled(final(rx), Err(e)),
            old(self).scripted() ==> final(self).scripted(),
            old(self).scripted() && !old(rx).closed() ==> {
                let stream = old(rx).fed() + old(self).incoming();
                &&& final(rx).fed() + final(self).incoming() == stream
                &&& outcome_of(r) matches Some(msg) ==> delivers(msg, length_outcome(stream))
                    && final(self).incoming() == stream.skip(length_consumed(stream) as int)
            },
    {
        let r = self.receive(rx);
        proof {
            if old(self).scripted() && !old(rx).closed() && outcome_of(r) is Some {
                rx.lemma_takes_only_frame();
                if length_complete(rx.fed()) {
                    lemma_length_complete_is_final(rx.fed(), self.incoming());
                }
            }
        }
        r
    }

    /// A step of a receive under the delimiter strategy.
    fn read_line(&mut self, rx: &mut LineReceiver) -> (r: Result<Option<String>, FrameError>)
        requires
            old(rx).wf(),
        ensures
            final(rx).wf(),
            r matches Ok(None) ==> !finished(final(rx)),
            r matches Ok(Some(msg)) ==> settled(final(rx), Ok(msg)),
            r matches Err(e) ==> e == FrameError::Transport || settled(final(rx), Err(e)),
            old(self).scripted() ==> final(self).scripted(),
            old(self).scripted() && !old(rx).closed() ==> {
                let stream = old(rx).fed() + old(self).incoming();
                &&& splits(stream, final(rx).fed(), final(self).incoming())
                &&& outcome_of(r) is None ==> final(rx).fed() + final(self).incoming() == stream
                &&& outcome_of(r) matches Some(msg) ==> delivers(msg, line_outcome(stream))
            },
    {
        self.receive(rx)
    }
}

} // verus!
