//! The length-prefixed strategy: a four-byte header that gives the length
//! of the payload as a big-endian signed 32-bit integer, then exactly that
//! many bytes.
use vstd::prelude::*;
use vstd::slice::slice_subrange;
use vstd::utf8::encode_utf8;
use crate::chunk::{least, BUFFER_SIZE, CONTENT_LENGTH_SIZE};
use crate::error::FrameError;
use crate::receiver::{as_text, delivers, receive_all, FrameReceiver};
use crate::text::{decode_text, lemma_text_round_trip, text_bytes};

verus! {

/// The largest payload that a header can announce: `i32::MAX` bytes.
pub const MAX_CONTENT_LENGTH: usize = 0x7fff_ffff;

/// The four bytes of the header that announces `len` bytes, most significant
/// first.
pub open spec fn length_header(len: nat) -> Seq<u8> {
    seq![
        ((len / 0x100_0000) % 0x100) as u8,
        ((len / 0x1_0000) % 0x100) as u8,
        ((len / 0x100) % 0x100) as u8,
        (len % 0x100) as u8,
    ]
}

/// The length that a header declares: its four bytes read as a big-endian
/// two's-complement integer, so that a header whose first bit is set
/// declares a negative length.
pub open spec fn declared_length(header: Seq<u8>) -> int {
    let unsigned = header[0] * 0x100_0000 + header[1] * 0x1_0000 + header[2] * 0x100 + header[3];
    if unsigned >= 0x8000_0000 {
        unsigned - 0x1_0000_0000
    } else {
        unsigned
    }
}

/// The frame of a payload: the header for its length, then the payload.
pub open spec fn length_frame(payload: Seq<u8>) -> Seq<u8> {
    length_header(payload.len()) + payload
}

/// Whether a stream that starts with `stream` holds a whole header and, if
/// the header is acceptable, the whole payload.
pub open spec fn length_complete(stream: Seq<u8>) -> bool {
    &&& stream.len() >= 4
    &&& (declared_length(stream.take(4)) < 0 || stream.len() >= 4 + declared_length(
        stream.take(4),
    ))
}

/// What a stream delivers that consists of `stream` and then ends.
///
/// Nothing at all is a missing header. A negative length is refused as soon
/// as the header is read. A stream that ends inside the header or the
/// payload was closed too early; the bytes that did arrive are not
/// delivered. Otherwise the payload is the declared number of bytes after
/// the header, and whatever follows belongs to the next frame.
pub open spec fn length_outcome(stream: Seq<u8>) -> Result<Seq<u8>, FrameError> {
    if stream.len() == 0 {
        Err(FrameError::MissingHeader)
    } else if stream.len() < 4 {
        Err(FrameError::PrematureClose)
    } else {
        let declared = declared_length(stream.take(4));
        if declared < 0 {
            Err(FrameError::InvalidLength)
        } else if stream.len() < 4 + declared {
            Err(FrameError::PrematureClose)
        } else {
            Ok(stream.subrange(4, 4 + declared))
        }
    }
}

/// How many bytes a receive asks for after `fed`: what is missing of the
/// header, then what is missing of the payload, but no more than
/// `BUFFER_SIZE` at a time.
pub open spec fn length_wanted(fed: Seq<u8>) -> nat {
    if length_complete(fed) {
        0
    } else if fed.len() < 4 {
        (4 - fed.len()) as nat
    } else {
        least(BUFFER_SIZE as int, 4 + declared_length(fed.take(4)) - fed.len()) as nat
    }
}

/// How many bytes of a stream a receive takes: the frame, as far as the
/// stream holds it.
pub open spec fn length_consumed(stream: Seq<u8>) -> nat {
    if stream.len() < 4 {
        stream.len()
    } else if declared_length(stream.take(4)) < 0 {
        4
    } else {
        least(stream.len() as int, 4 + declared_length(stream.take(4))) as nat
    }
}

/// A header declares the length it was written for.
pub proof fn lemma_header_round_trip(len: nat)
    requires
        len <= MAX_CONTENT_LENGTH,
    ensures
        length_header(len).len() == 4,
        declared_length(length_header(len)) == len,
{
    let b0 = (len / 0x100_0000) % 0x100;
    let b1 = (len / 0x1_0000) % 0x100;
    let b2 = (len / 0x100) % 0x100;
    let b3 = len % 0x100;
}

/// The header for a payload of `len` bytes, or `InvalidLength` where a
/// signed 32-bit integer cannot hold `len`.
pub fn length_prefix(len: usize) -> (r: Result<Vec<u8>, FrameError>)
    ensures
        len <= MAX_CONTENT_LENGTH ==> (r matches Ok(header) && header@ == length_header(
            len as nat,
        )),
        len > MAX_CONTENT_LENGTH ==> r == Err::<Vec<u8>, FrameError>(FrameError::InvalidLength),
{
    if len > MAX_CONTENT_LENGTH {
        return Err(FrameError::InvalidLength);
    }
    let mut header: Vec<u8> = Vec::with_capacity(CONTENT_LENGTH_SIZE);
    header.push(((len / 0x100_0000) % 0x100) as u8);
    header.push(((len / 0x1_0000) % 0x100) as u8);
    header.push(((len / 0x100) % 0x100) as u8);
    header.push((len % 0x100) as u8);
    Ok(header)
}

/// The payload length that a header declares, or `InvalidLength` where it
/// declares a negative one.
pub fn parse_length(header: &[u8]) -> (r: Result<usize, FrameError>)
    requires
        header@.len() == CONTENT_LENGTH_SIZE,
    ensures
        declared_length(header@) >= 0 ==> (r matches Ok(len) && len == declared_length(header@)),
        declared_length(header@) < 0 ==> r == Err::<usize, FrameError>(FrameError::InvalidLength),
        r matches Ok(len) ==> len <= MAX_CONTENT_LENGTH,
{
    let high: u32 = header[0] as u32;
    if high >= 0x80 {
        return Err(FrameError::InvalidLength);
    }
    let unsigned: u32 = high * 0x100_0000 + (header[1] as u32) * 0x1_0000 + (header[2] as u32)
        * 0x100 + (header[3] as u32);
    Ok(unsigned as usize)
}

/// The frame that `msg` is sent as, or `InvalidLength` where `msg` is longer
/// than a header can announce.
pub fn encode_len(msg: &str) -> (r: Result<Vec<u8>, FrameError>)
    ensures
        encode_utf8(msg@).len() <= MAX_CONTENT_LENGTH ==> (r matches Ok(frame) && frame@
            == length_frame(encode_utf8(msg@))),
        encode_utf8(msg@).len() > MAX_CONTENT_LENGTH ==> r == Err::<Vec<u8>, FrameError>(
            FrameError::InvalidLength,
        ),
{
    let payload = text_bytes(msg);
    let mut frame = length_prefix(payload.len())?;
    frame.extend_from_slice(payload.as_slice());
    Ok(frame)
}

/// The message that a stream delivers under this strategy: `stream` is
/// received as a whole, then the stream ends.
pub fn decode_len(stream: &[u8]) -> (r: Result<String, FrameError>)
    ensures
        delivers(r, length_outcome(stream@)),
{
    receive_all(LengthReceiver::new(), stream)
}

/// The receiver of the length-prefixed strategy: it gathers the header,
/// then as many bytes as the header declares, and takes no byte more.
pub struct LengthReceiver {
    header: Vec<u8>,
    body: Vec<u8>,
    ended: bool,
}

impl LengthReceiver {
    /// A receiver that has taken nothing.
    pub fn new() -> (rx: LengthReceiver)
        ensures
            rx.wf(),
            rx.fed() == Seq::<u8>::empty(),
            !rx.closed(),
    {
        LengthReceiver { header: Vec::new(), body: Vec::new(), ended: false }
    }

    /// The payload length that the header declares, once the header has
    /// arrived whole and declares an acceptable one.
    pub fn expected(&self) -> (r: Option<usize>)
        requires
            self.wf(),
        ensures
            self.fed().len() >= 4 && declared_length(self.fed().take(4)) >= 0 ==> (r matches Some(
                len,
            ) && len == declared_length(self.fed().take(4))),
            !(self.fed().len() >= 4 && declared_length(self.fed().take(4)) >= 0) ==> r is None,
    {
        if self.header.len() < CONTENT_LENGTH_SIZE {
            return None;
        }
        proof {
            self.lemma_header_is_prefix();
        }
        match parse_length(self.header.as_slice()) {
            Ok(len) => Some(len),
            Err(_) => None,
        }
    }

    /// A receiver never holds a byte from beyond its frame.
    pub proof fn lemma_takes_only_frame(&self)
        requires
            self.wf(),
        ensures
            self.fed().len() == length_consumed(self.fed()),
    {
        if self.header@.len() == 4 {
            self.lemma_header_is_prefix();
        }
    }

    proof fn lemma_header_is_prefix(&self)
        requires
            self.wf(),
            self.header@.len() == 4,
        ensures
            self.fed().take(4) == self.header@,
            self.fed().len() == 4 + self.body@.len(),
    {
    }

    fn settled(&self) -> (b: bool)
        requires
            self.wf(),
        ensures
            b == length_complete(self.fed()),
    {
        if self.header.len() < CONTENT_LENGTH_SIZE {
            return false;
        }
        proof {
            self.lemma_header_is_prefix();
        }
        match parse_length(self.header.as_slice()) {
            Ok(len) => self.body.len() >= len,
            Err(_) => true,
        }
    }
}

impl FrameReceiver for LengthReceiver {
    closed spec fn wf(&self) -> bool {
        &&& self.header@.len() <= 4
        &&& self.header@.len() < 4 ==> self.body@.len() == 0
        &&& self.header@.len() == 4 ==> {
            &&& declared_length(self.header@) < 0 ==> self.body@.len() == 0
            &&& declared_length(self.header@) >= 0 ==> self.body@.len() <= declared_length(
                self.header@,
            )
        }
        &&& self.ended ==> !length_complete(self.header@ + self.body@)
    }

    closed spec fn fed(&self) -> Seq<u8> {
        self.header@ + self.body@
    }

    closed spec fn closed(&self) -> bool {
        self.ended
    }

    open spec fn complete(stream: Seq<u8>) -> bool {
        length_complete(stream)
    }

    open spec fn outcome(stream: Seq<u8>) -> Result<Seq<u8>, FrameError> {
        length_outcome(stream)
    }

    open spec fn exact() -> bool {
        true
    }

    open spec fn room(&self) -> nat {
        if self.closed() {
            0
        } else {
            length_wanted(self.fed())
        }
    }

    closed spec fn budget(&self) -> nat {
        (4 + MAX_CONTENT_LENGTH - (self.header@.len() + self.body@.len())) as nat
    }

    proof fn lemma_complete_is_final(head: Seq<u8>, tail: Seq<u8>) {
        if length_complete(head) {
            lemma_length_complete_is_final(head, tail);
        }
    }

    fn wanted(&self) -> (n: usize) {
        if self.ended {
            return 0;
        }
        if self.header.len() < CONTENT_LENGTH_SIZE {
            return CONTENT_LENGTH_SIZE - self.header.len();
        }
        proof {
            self.lemma_header_is_prefix();
        }
        match parse_length(self.header.as_slice()) {
            Ok(len) => {
                let missing: usize = len - self.body.len();
                if missing < BUFFER_SIZE {
                    missing
                } else {
                    BUFFER_SIZE
                }
            },
            Err(_) => 0,
        }
    }

    fn accept(&mut self, chunk: &[u8]) -> (used: usize) {
        if self.ended || self.settled() {
            return 0;
        }
        if chunk.len() == 0 {
            self.ended = true;
            return 0;
        }
        let mut used: usize = 0;
        if self.header.len() < CONTENT_LENGTH_SIZE {
            let need: usize = CONTENT_LENGTH_SIZE - self.header.len();
            let part: usize = if chunk.len() < need {
                chunk.len()
            } else {
                need
            };
            self.header.extend_from_slice(slice_subrange(chunk, 0, part));
            used = part;
            if self.header.len() < CONTENT_LENGTH_SIZE {
                return used;
            }
        }
        proof {
            self.lemma_header_is_prefix();
        }
        match parse_length(self.header.as_slice()) {
            Ok(len) => {
                let missing: usize = len - self.body.len();
                let rest: usize = chunk.len() - used;
                let part: usize = if rest < missing {
                    rest
                } else {
                    missing
                };
                self.body.extend_from_slice(slice_subrange(chunk, used, used + part));
                used + part
            },
            Err(_) => used,
        }
    }

    fn result(&self) -> (r: Option<Result<String, FrameError>>) {
        if self.header.len() < CONTENT_LENGTH_SIZE {
            if !self.ended {
                None
            } else if self.header.len() == 0 {
                Some(Err(FrameError::MissingHeader))
            } else {
                Some(Err(FrameError::PrematureClose))
            }
        } else {
            proof {
                self.lemma_header_is_prefix();
            }
            match parse_length(self.header.as_slice()) {
                Ok(len) => {
                    if self.body.len() >= len {
                        assert(self.fed().subrange(4, 4 + len) =~= self.body@);
                        Some(Ok(decode_text(self.body.as_slice())))
                    } else if self.ended {
                        Some(Err(FrameError::PrematureClose))
                    } else {
                        None
                    }
                },
                Err(e) => Some(Err(e)),
            }
        }
    }
}

/// Once a stream holds a whole frame, or a header that is refused, what
/// follows changes nothing.
pub proof fn lemma_length_complete_is_final(head: Seq<u8>, tail: Seq<u8>)
    requires
        length_complete(head),
    ensures
        length_complete(head + tail),
        length_outcome(head + tail) == length_outcome(head),
        length_consumed(head + tail) == length_consumed(head),
{
    let declared = declared_length(head.take(4));
    if declared >= 0 {
        assert((head + tail).subrange(4, 4 + declared) =~= head.subrange(4, 4 + declared));
    }
}

/// A stream that holds a frame delivers the payload of that frame, and the
/// receive takes the frame and nothing of what follows it.
pub proof fn lemma_length_frame_delivers(payload: Seq<u8>, tail: Seq<u8>)
    requires
        payload.len() <= MAX_CONTENT_LENGTH,
    ensures
        length_complete(length_frame(payload)),
        length_outcome(length_frame(payload) + tail) == Ok::<Seq<u8>, FrameError>(payload),
        length_consumed(length_frame(payload) + tail) == 4 + payload.len(),
{
    let frame = length_frame(payload);
    lemma_header_round_trip(payload.len());
    assert(frame.subrange(4, 4 + payload.len() as int) =~= payload);
    lemma_length_complete_is_final(frame, tail);
}

/// Sending a message and receiving it again gives the message back, for
/// every message that a header can announce, the empty one and those
/// longer than one chunk alike.
pub proof fn lemma_length_round_trip(msg: Seq<char>)
    requires
        encode_utf8(msg).len() <= MAX_CONTENT_LENGTH,
    ensures
        as_text(length_outcome(length_frame(encode_utf8(msg)))) == Ok::<Seq<char>, FrameError>(msg),
{
    let payload = encode_utf8(msg);
    lemma_length_frame_delivers(payload, Seq::<u8>::empty());
    lemma_text_round_trip(msg);
}

/// A stream that ends after a header and fewer payload bytes than the
/// header declares delivers `PrematureClose`, not the bytes that arrived.
pub proof fn lemma_length_premature_close(declared: nat, arrived: Seq<u8>)
    requires
        declared <= MAX_CONTENT_LENGTH,
        arrived.len() < declared,
    ensures
        length_outcome(length_header(declared) + arrived) == Err::<Seq<u8>, FrameError>(
            FrameError::PrematureClose,
        ),
        !length_complete(length_header(declared) + arrived),
{
    lemma_header_round_trip(declared);
}

} // verus!
