//! The delimiter strategy: the payload, then a blank line. On the wire the
//! terminator is two newline characters; on receipt the first line that is
//! empty once whitespace is trimmed ends the message.
use vstd::prelude::*;
use vstd::slice::slice_subrange;
use vstd::utf8::encode_utf8;
use crate::chunk::BUFFER_SIZE;
use crate::error::FrameError;
use crate::receiver::{as_text, delivers, receive_all, FrameReceiver};
use crate::text::{blank_text, decode_text, is_blank, lemma_text_round_trip, text_bytes, text_of};

verus! {

/// The byte that ends a line.
pub const NEWLINE: u8 = 10;

/// The frame of a payload: the payload, then two newlines.
pub open spec fn line_frame(payload: Seq<u8>) -> Seq<u8> {
    payload + seq![NEWLINE, NEWLINE]
}

/// The length of the first line of a stream: up to its first newline, that
/// newline counted, or all of the stream where it holds none.
pub open spec fn first_line_len(stream: Seq<u8>) -> nat
    decreases stream.len(),
{
    if stream.len() == 0 {
        0
    } else if stream[0] == NEWLINE {
        1
    } else {
        1 + first_line_len(stream.drop_first())
    }
}

/// Whether a line ends a message: it is the bare newline of the terminator,
/// or its text is empty once whitespace is trimmed.
pub open spec fn blank_line(line: Seq<u8>) -> bool {
    line == seq![NEWLINE] || blank_text(text_of(line))
}

/// Whether `bytes` holds no newline.
pub open spec fn no_newline(bytes: Seq<u8>) -> bool {
    forall|i: int| 0 <= i < bytes.len() ==> bytes[i] != NEWLINE
}

/// Whether `bytes` is one line with its newline.
pub open spec fn whole_line(bytes: Seq<u8>) -> bool {
    &&& bytes.len() >= 1
    &&& bytes.last() == NEWLINE
    &&& no_newline(bytes.drop_last())
}

/// Whether `bytes` consists of whole lines of which none is blank.
pub open spec fn content_lines(bytes: Seq<u8>) -> bool
    decreases bytes.len(),
{
    if bytes.len() == 0 {
        true
    } else {
        let n = first_line_len(bytes) as int;
        proof {
            lemma_first_line_bounds(bytes);
        }
        &&& bytes[n - 1] == NEWLINE
        &&& !blank_line(bytes.take(n))
        &&& content_lines(bytes.skip(n))
    }
}

/// Whether a stream that starts with `stream` holds a blank line with its
/// newline, and so the end of its message.
pub open spec fn line_complete(stream: Seq<u8>) -> bool
    decreases stream.len(),
{
    if stream.len() == 0 {
        false
    } else {
        let n = first_line_len(stream) as int;
        proof {
            lemma_first_line_bounds(stream);
        }
        if stream[n - 1] != NEWLINE {
            false
        } else if blank_line(stream.take(n)) {
            true
        } else {
            line_complete(stream.skip(n))
        }
    }
}

/// The lines that a stream gathers before its first blank line, each with
/// its newline, where the stream consists of `stream` and then ends.
///
/// A stream that ends before a blank line was closed too early. A last line
/// without a newline counts as a line: if it is blank it ends the message.
pub open spec fn line_body(stream: Seq<u8>) -> Result<Seq<u8>, FrameError>
    decreases stream.len(),
{
    if stream.len() == 0 {
        Err(FrameError::PrematureClose)
    } else {
        let n = first_line_len(stream) as int;
        proof {
            lemma_first_line_bounds(stream);
        }
        if blank_line(stream.take(n)) {
            Ok(Seq::<u8>::empty())
        } else if stream[n - 1] != NEWLINE {
            Err(FrameError::PrematureClose)
        } else {
            match line_body(stream.skip(n)) {
                Ok(rest) => Ok(stream.take(n) + rest),
                Err(e) => Err(e),
            }
        }
    }
}

/// The gathered lines without the newline of the last one.
pub open spec fn without_last_newline(lines: Seq<u8>) -> Seq<u8> {
    if lines.len() == 0 {
        lines
    } else {
        lines.drop_last()
    }
}

/// What a stream delivers that consists of `stream` and then ends: the
/// lines before the first blank line, without the newline of the last.
pub open spec fn line_outcome(stream: Seq<u8>) -> Result<Seq<u8>, FrameError> {
    match line_body(stream) {
        Ok(lines) => Ok(without_last_newline(lines)),
        Err(e) => Err(e),
    }
}

/// Whether a payload can be sent under this strategy and come back: it is
/// empty, or each of its lines, the last one closed by the terminator,
/// holds something other than whitespace.
pub open spec fn free_of_blank_lines(payload: Seq<u8>) -> bool {
    payload.len() == 0 || content_lines(payload.push(NEWLINE))
}

/// The first line of a stream that is not empty holds at least one byte and
/// no more than the stream.
pub proof fn lemma_first_line_bounds(stream: Seq<u8>)
    ensures
        first_line_len(stream) <= stream.len(),
        stream.len() > 0 ==> first_line_len(stream) >= 1,
    decreases stream.len(),
{
    if stream.len() > 0 && stream[0] != NEWLINE {
        lemma_first_line_bounds(stream.drop_first());
    }
}

/// A first line that has its newline is the first line of every longer
/// stream too.
pub proof fn lemma_first_line_is_final(stream: Seq<u8>, tail: Seq<u8>)
    requires
        stream.len() > 0,
        stream[first_line_len(stream) - 1] == NEWLINE,
    ensures
        first_line_len(stream + tail) == first_line_len(stream),
    decreases stream.len(),
{
    if stream[0] != NEWLINE {
        let rest = stream.drop_first();
        assert((stream + tail).drop_first() =~= rest + tail);
        lemma_first_line_bounds(rest);
        if rest.len() > 0 {
            lemma_first_line_is_final(rest, tail);
        }
    }
}

/// Bytes without a newline are all one line, and the line goes on into what
/// follows them.
pub proof fn lemma_first_line_goes_on(head: Seq<u8>, tail: Seq<u8>)
    requires
        no_newline(head),
    ensures
        first_line_len(head + tail) == head.len() + first_line_len(tail),
    decreases head.len(),
{
    if head.len() > 0 {
        assert((head + tail).drop_first() =~= head.drop_first() + tail);
        lemma_first_line_goes_on(head.drop_first(), tail);
    }
}

/// A whole line is its own first line.
pub proof fn lemma_whole_line_is_first(line: Seq<u8>, tail: Seq<u8>)
    requires
        whole_line(line),
    ensures
        first_line_len(line + tail) == line.len(),
        first_line_len(line) == line.len(),
        (line + tail).take(line.len() as int) == line,
        (line + tail).skip(line.len() as int) == tail,
{
    let head = line.drop_last();
    let end = seq![NEWLINE];
    assert(line =~= head + end);
    lemma_first_line_goes_on(head, end);
    lemma_first_line_is_final(line, tail);
}

/// Lines that hold content stand before what follows them: the stream
/// gathers them first and then whatever the rest gathers, and it is complete
/// exactly when the rest is.
pub proof fn lemma_content_lines_first(lines: Seq<u8>, rest: Seq<u8>)
    requires
        content_lines(lines),
    ensures
        line_complete(lines + rest) == line_complete(rest),
        line_body(lines + rest) == match line_body(rest) {
            Ok(more) => Ok::<Seq<u8>, FrameError>(lines + more),
            Err(e) => Err::<Seq<u8>, FrameError>(e),
        },
    decreases lines.len(),
{
    let whole = lines + rest;
    if lines.len() > 0 {
        let n = first_line_len(lines) as int;
        lemma_first_line_bounds(lines);
        lemma_first_line_is_final(lines, rest);
        assert(whole.take(n) =~= lines.take(n));
        assert(whole.skip(n) =~= lines.skip(n) + rest);
        lemma_content_lines_first(lines.skip(n), rest);
        if let Ok(more) = line_body(rest) {
            assert(lines.take(n) + (lines.skip(n) + more) =~= lines + more);
        }
    }
}

/// A whole line that holds content can follow lines that do.
pub proof fn lemma_content_lines_grow(lines: Seq<u8>, line: Seq<u8>)
    requires
        content_lines(lines),
        whole_line(line),
        !blank_line(line),
    ensures
        content_lines(lines + line),
    decreases lines.len(),
{
    let whole = lines + line;
    if lines.len() == 0 {
        lemma_whole_line_is_first(line, Seq::<u8>::empty());
        assert(content_lines(line.skip(line.len() as int)));
    } else {
        let n = first_line_len(lines) as int;
        lemma_first_line_bounds(lines);
        lemma_first_line_is_final(lines, line);
        assert(whole.take(n) =~= lines.take(n));
        assert(whole.skip(n) =~= lines.skip(n) + line);
        lemma_content_lines_grow(lines.skip(n), line);
    }
}

/// Once a stream holds the blank line that ends its message, what follows
/// changes nothing.
pub proof fn lemma_line_complete_is_final(head: Seq<u8>, tail: Seq<u8>)
    requires
        line_complete(head),
    ensures
        line_complete(head + tail),
        line_body(head + tail) == line_body(head),
        line_outcome(head + tail) == line_outcome(head),
    decreases head.len(),
{
    let whole = head + tail;
    let n = first_line_len(head) as int;
    lemma_first_line_bounds(head);
    lemma_first_line_is_final(head, tail);
    assert(whole.take(n) =~= head.take(n));
    assert(whole.skip(n) =~= head.skip(n) + tail);
    if !blank_line(head.take(n)) {
        lemma_line_complete_is_final(head.skip(n), tail);
    }
}

/// Whether a line of received bytes ends a message.
pub fn is_blank_line(line: &[u8]) -> (blank: bool)
    ensures
        blank == blank_line(line@),
{
    if line.len() == 1 && line[0] == NEWLINE {
        assert(line@ =~= seq![NEWLINE]);
        true
    } else {
        let text = decode_text(line);
        is_blank(text.as_str())
    }
}

/// The frame that `msg` is sent as.
pub fn encode_line(msg: &str) -> (frame: Vec<u8>)
    ensures
        frame@ == line_frame(encode_utf8(msg@)),
{
    let mut frame = text_bytes(msg);
    frame.push(NEWLINE);
    frame.push(NEWLINE);
    frame
}

/// The message that a stream delivers under this strategy: `stream` is
/// received as a whole, then the stream ends.
pub fn decode_line(stream: &[u8]) -> (r: Result<String, FrameError>)
    ensures
        delivers(r, line_outcome(stream@)),
{
    receive_all(LineReceiver::new(), stream)
}

/// The receiver of the delimiter strategy: it gathers lines until one of
/// them is blank.
pub struct LineReceiver {
    lines: Vec<u8>,
    partial: Vec<u8>,
    ended: bool,
    terminated: bool,
}

impl LineReceiver {
    /// A receiver that has taken nothing.
    pub fn new() -> (rx: LineReceiver)
        ensures
            rx.wf(),
            rx.fed() == Seq::<u8>::empty(),
            !rx.closed(),
    {
        LineReceiver { lines: Vec::new(), partial: Vec::new(), ended: false, terminated: false }
    }

    /// What the state of a receiver says of the stream it has taken: whether
    /// the message has ended, and which lines it has gathered.
    proof fn lemma_state(&self)
        requires
            self.wf(),
        ensures
            line_complete(self.fed()) == self.terminated,
            line_body(self.fed()) == (if self.terminated || (self.partial@.len() > 0 && blank_line(
                self.partial@,
            )) {
                Ok::<Seq<u8>, FrameError>(self.lines@)
            } else {
                Err::<Seq<u8>, FrameError>(FrameError::PrematureClose)
            }),
    {
        let lines = self.lines@;
        let partial = self.partial@;
        let none = Seq::<u8>::empty();
        lemma_content_lines_first(lines, partial);
        if self.terminated {
            lemma_whole_line_is_first(partial, none);
        } else if partial.len() > 0 {
            lemma_first_line_goes_on(partial, none);
            assert(partial.take(partial.len() as int) =~= partial);
        }
    }
}

impl FrameReceiver for LineReceiver {
    closed spec fn wf(&self) -> bool {
        &&& content_lines(self.lines@)
        &&& self.terminated ==> whole_line(self.partial@) && blank_line(self.partial@)
        &&& !self.terminated ==> no_newline(self.partial@)
        &&& self.ended ==> !self.terminated
        &&& self.lines@.len() <= usize::MAX
        &&& self.partial@.len() <= usize::MAX
    }

    closed spec fn fed(&self) -> Seq<u8> {
        self.lines@ + self.partial@
    }

    closed spec fn closed(&self) -> bool {
        self.ended
    }

    open spec fn complete(stream: Seq<u8>) -> bool {
        line_complete(stream)
    }

    open spec fn outcome(stream: Seq<u8>) -> Result<Seq<u8>, FrameError> {
        line_outcome(stream)
    }

    open spec fn exact() -> bool {
        false
    }

    open spec fn room(&self) -> nat {
        if self.closed() || line_complete(self.fed()) {
            0
        } else {
            BUFFER_SIZE as nat
        }
    }

    closed spec fn budget(&self) -> nat {
        (2 * usize::MAX - (self.lines@.len() + self.partial@.len())) as nat
    }

    proof fn lemma_complete_is_final(head: Seq<u8>, tail: Seq<u8>) {
        if line_complete(head) {
            lemma_line_complete_is_final(head, tail);
        }
    }

    fn wanted(&self) -> (n: usize) {
        proof {
            self.lemma_state();
        }
        if self.ended || self.terminated {
            0
        } else {
            BUFFER_SIZE
        }
    }

    fn accept(&mut self, chunk: &[u8]) -> (used: usize) {
        proof {
            self.lemma_state();
        }
        if self.ended || self.terminated {
            return 0;
        }
        if chunk.len() == 0 {
            self.ended = true;
            return 0;
        }
        let mut i: usize = 0;
        while i < chunk.len()
            invariant
                i <= chunk@.len(),
                self.wf(),
                !self.ended,
                !self.terminated,
                old(self).wf(),
                !old(self).closed(),
                !line_complete(old(self).fed()),
                self.fed() == old(self).fed() + chunk@.take(i as int),
                forall|k: int|
                    0 <= k <= i ==> !line_complete(#[trigger] (old(self).fed() + chunk@.take(k))),
            decreases chunk@.len() - i,
        {
            let byte: u8 = chunk[i];
            let ghost before = *self;
            self.partial.push(byte);
            i = i + 1;
            proof {
                assert(before.lines@ + self.partial@ =~= before.fed() + seq![byte]);
                assert(old(self).fed() + chunk@.take(i as int) =~= before.fed() + seq![byte]);
            }
            if byte == NEWLINE {
                if is_blank_line(self.partial.as_slice()) {
                    self.terminated = true;
                    let _: usize = self.partial.len();
                    proof {
                        self.lemma_state();
                    }
                    return i;
                }
                self.lines.extend_from_slice(self.partial.as_slice());
                proof {
                    assert(self.lines@ =~= before.lines@ + self.partial@);
                    lemma_content_lines_grow(before.lines@, self.partial@);
                }
                self.partial.clear();
            }
            // `len` bounds the lengths, which the invariant records.
            let _: usize = self.lines.len();
            let _: usize = self.partial.len();
            proof {
                self.lemma_state();
            }
        }
        i
    }

    fn result(&self) -> (r: Option<Result<String, FrameError>>) {
        proof {
            self.lemma_state();
        }
        if !self.terminated {
            if !self.ended {
                return None;
            }
            // The stream has ended: what it ended on counts as its last line.
            if self.partial.len() == 0 || !is_blank_line(self.partial.as_slice()) {
                return Some(Err(FrameError::PrematureClose));
            }
        }
        let size: usize = self.lines.len();
        let keep: usize = if size > 0 {
            size - 1
        } else {
            0
        };
        let payload = slice_subrange(self.lines.as_slice(), 0, keep);
        Some(Ok(decode_text(payload)))
    }
}

/// The one way in which a stream can fail under this strategy is that it
/// ends before a blank line.
pub proof fn lemma_line_fails_only_by_closing(stream: Seq<u8>)
    ensures
        line_outcome(stream) matches Err(e) ==> e == FrameError::PrematureClose,
        line_body(stream) matches Err(e) ==> e == FrameError::PrematureClose,
    decreases stream.len(),
{
    if stream.len() > 0 {
        let n = first_line_len(stream) as int;
        lemma_first_line_bounds(stream);
        lemma_line_fails_only_by_closing(stream.skip(n));
    }
}

/// Sending a message and receiving it again gives the message back, for
/// every message that holds no blank line, of one line or of many.
pub proof fn lemma_line_round_trip(msg: Seq<char>)
    requires
        free_of_blank_lines(encode_utf8(msg)),
    ensures
        as_text(line_outcome(line_frame(encode_utf8(msg)))) == Ok::<Seq<char>, FrameError>(msg),
{
    let payload = encode_utf8(msg);
    lemma_line_frame_delivers(payload, Seq::<u8>::empty());
    lemma_text_round_trip(msg);
}

/// A stream that holds the frame of a payload without blank lines delivers
/// that payload, whatever follows the frame.
pub proof fn lemma_line_frame_delivers(payload: Seq<u8>, tail: Seq<u8>)
    requires
        free_of_blank_lines(payload),
    ensures
        line_complete(line_frame(payload)),
        line_outcome(line_frame(payload) + tail) == Ok::<Seq<u8>, FrameError>(payload),
{
    let frame = line_frame(payload);
    let end = seq![NEWLINE];
    let none = Seq::<u8>::empty();
    lemma_whole_line_is_first(end, none);
    if payload.len() == 0 {
        assert(frame =~= end + end);
        lemma_whole_line_is_first(end, end);
        assert(payload =~= none);
    } else {
        let lines = payload.push(NEWLINE);
        assert(frame =~= lines + end);
        lemma_content_lines_first(lines, end);
        assert(lines.drop_last() =~= payload);
    }
    lemma_line_complete_is_final(frame, tail);
}

} // verus!
