//! A transport in memory.
//!
//! It delivers bytes that were given to it beforehand and keeps the bytes
//! that are written to it. How much one read delivers and one write takes
//! can be limited, and a number of polls can be made to find it not ready,
//! so that the codecs can be run against short reads, short writes and a
//! transport that has to be waited for. It is also the one transport of
//! which everything is known, and so the one on which the contracts of the
//! codecs say exactly what is delivered.
use vstd::prelude::*;
use vstd::slice::slice_subrange;
use crate::error::TransportError;
use crate::socket::{
    SocketAsyncRecvTrait, SocketAsyncSendTrait, SocketRecvTrait, SocketSendTrait,
};

verus! {

/// A duplex byte stream held in memory.
pub struct MemoryStream {
    input: Vec<u8>,
    cursor: usize,
    read_step: usize,
    output: Vec<u8>,
    write_step: usize,
    stalls: usize,
}

impl MemoryStream {
    /// The invariant of the stream.
    pub closed spec fn wf(&self) -> bool {
        &&& self.cursor <= self.input@.len()
        &&& self.read_step >= 1
        &&& self.write_step >= 1
    }

    /// The bytes that have not been read yet.
    pub closed spec fn unread(&self) -> Seq<u8> {
        self.input@.skip(self.cursor as int)
    }

    /// The bytes that have been written so far.
    pub closed spec fn taken(&self) -> Seq<u8> {
        self.output@
    }

    /// The most bytes that one read delivers.
    pub closed spec fn read_limit(&self) -> nat {
        self.read_step as nat
    }

    /// The most bytes that one write takes.
    pub closed spec fn write_limit(&self) -> nat {
        self.write_step as nat
    }

    /// How many of the next polls find the stream not ready.
    pub closed spec fn stalled(&self) -> nat {
        self.stalls as nat
    }

    /// A stream that will deliver `input`, in reads and writes as large as
    /// they are asked for, and that is always ready.
    pub fn new(input: Vec<u8>) -> (stream: MemoryStream)
        ensures
            stream.wf(),
            stream.unread() == input@,
            stream.taken() == Seq::<u8>::empty(),
            stream.read_limit() == usize::MAX,
            stream.write_limit() == usize::MAX,
            stream.stalled() == 0,
    {
        MemoryStream::with_limits(input, usize::MAX, usize::MAX)
    }

    /// A stream that will deliver `input`, at most `read_limit` bytes to a
    /// read, and that takes at most `write_limit` bytes of a write.
    pub fn with_limits(input: Vec<u8>, read_limit: usize, write_limit: usize) -> (stream:
        MemoryStream)
        requires
            read_limit >= 1,
            write_limit >= 1,
        ensures
            stream.wf(),
            stream.unread() == input@,
            stream.taken() == Seq::<u8>::empty(),
            stream.read_limit() == read_limit,
            stream.write_limit() == write_limit,
            stream.stalled() == 0,
    {
        let stream = MemoryStream {
            input,
            cursor: 0,
            read_step: read_limit,
            output: Vec::new(),
            write_step: write_limit,
            stalls: 0,
        };
        stream
    }

    /// Makes the next `polls` polls find the stream not ready.
    pub fn stall(&mut self, polls: usize)
        ensures
            final(self).wf() == old(self).wf(),
            final(self).unread() == old(self).unread(),
            final(self).taken() == old(self).taken(),
            final(self).read_limit() == old(self).read_limit(),
            final(self).write_limit() == old(self).write_limit(),
            final(self).stalled() == polls,
    {
        self.stalls = polls;
    }

    /// How many bytes are left to read.
    pub fn remaining(&self) -> (n: usize)
        requires
            self.wf(),
        ensures
            n == self.unread().len(),
    {
        self.input.len() - self.cursor
    }

    /// The bytes that have been written to the stream so far.
    pub fn written(&self) -> (bytes: &[u8])
        ensures
            bytes@ == self.taken(),
    {
        self.output.as_slice()
    }

    /// Whether the next poll finds the stream not ready; if so, one stall
    /// is used up.
    fn hesitates(&mut self) -> (stalled: bool)
        ensures
            final(self).wf() == old(self).wf(),
            final(self).unread() == old(self).unread(),
            final(self).taken() == old(self).taken(),
            final(self).read_limit() == old(self).read_limit(),
            final(self).write_limit() == old(self).write_limit(),
            stalled == (old(self).stalled() > 0),
            stalled ==> final(self).stalled() == old(self).stalled() - 1,
            !stalled ==> final(self).stalled() == 0,
    {
        if self.stalls > 0 {
            self.stalls = self.stalls - 1;
            true
        } else {
            false
        }
    }
}

impl SocketRecvTrait for MemoryStream {
    open spec fn scripted(&self) -> bool {
        self.wf()
    }

    open spec fn incoming(&self) -> Seq<u8> {
        self.unread()
    }

    /// Delivers the next unread bytes: as many as `buf` holds, as the read
    /// limit allows and as are left.
    fn read_chunk(&mut self, buf: &mut [u8]) -> (r: Result<usize, TransportError>)
        ensures
            final(self).taken() == old(self).taken(),
            final(self).read_limit() == old(self).read_limit(),
            final(self).write_limit() == old(self).write_limit(),
            final(self).stalled() == old(self).stalled(),
            r is Ok,
            old(self).wf() ==> (r matches Ok(n) && n == vstd::math::min(
                vstd::math::min(old(buf)@.len() as int, old(self).read_limit() as int),
                old(self).unread().len() as int,
            )),
    {
        if self.cursor > self.input.len() {
            // Not a state that the constructors and methods produce.
            return Ok(0);
        }
        let left: usize = self.input.len() - self.cursor;
        let room: usize = if buf.len() < self.read_step {
            buf.len()
        } else {
            self.read_step
        };
        let count: usize = if left < room {
            left
        } else {
            room
        };
        let mut i: usize = 0;
        while i < count
            invariant
                i <= count,
                count <= buf@.len(),
                buf@.len() == old(buf)@.len(),
                self.cursor + count <= self.input@.len() <= usize::MAX,
                *self == *old(self),
                forall|k: int| 0 <= k < i ==> buf@[k] == self.input@[self.cursor + k],
            decreases count - i,
        {
            buf[i] = self.input[self.cursor + i];
            i = i + 1;
        }
        self.cursor = self.cursor + count;
        Ok(count)
    }
}

impl SocketSendTrait for MemoryStream {
    open spec fn recording(&self) -> bool {
        self.wf()
    }

    open spec fn outgoing(&self) -> Seq<u8> {
        self.taken()
    }

    open spec fn greedy(&self) -> bool {
        self.write_limit() == usize::MAX
    }

    /// Takes the first bytes of `bytes`: all of them, or as many as the
    /// write limit allows.
    fn write_chunk(&mut self, bytes: &[u8]) -> (r: Result<usize, TransportError>)
        ensures
            final(self).wf() == old(self).wf(),
            final(self).unread() == old(self).unread(),
            final(self).read_limit() == old(self).read_limit(),
            final(self).write_limit() == old(self).write_limit(),
            final(self).stalled() == old(self).stalled(),
            r matches Ok(n) && n == vstd::math::min(
                bytes@.len() as int,
                old(self).write_limit() as int,
            ),
            r matches Ok(n) && final(self).taken() == old(self).taken() + bytes@.take(n as int),
    {
        let count: usize = if bytes.len() < self.write_step {
            bytes.len()
        } else {
            self.write_step
        };
        self.output.extend_from_slice(slice_subrange(bytes, 0, count));
        Ok(count)
    }
}

impl SocketAsyncRecvTrait for MemoryStream {
    open spec fn scripted(&self) -> bool {
        self.wf()
    }

    open spec fn incoming(&self) -> Seq<u8> {
        self.unread()
    }

    /// Not ready while stalls are left; after that, as `read_chunk`.
    fn try_read_chunk(&mut self, buf: &mut [u8]) -> (r: Result<Option<usize>, TransportError>)
        ensures
            final(self).taken() == old(self).taken(),
            r is Ok,
            (r matches Ok(None)) == (old(self).stalled() > 0),
            old(self).stalled() > 0 ==> final(self).stalled() == old(self).stalled() - 1,
            old(self).stalled() == 0 ==> final(self).stalled() == 0,
    {
        if self.hesitates() {
            return Ok(None);
        }
        match self.read_chunk(buf) {
            Ok(n) => Ok(Some(n)),
            Err(e) => Err(e),
        }
    }
}

impl SocketAsyncSendTrait for MemoryStream {
    open spec fn recording(&self) -> bool {
        self.wf()
    }

    open spec fn outgoing(&self) -> Seq<u8> {
        self.taken()
    }

    open spec fn greedy(&self) -> bool {
        self.write_limit() == usize::MAX
    }

    /// Not ready while stalls are left; after that, as `write_chunk`.
    fn try_write_chunk(&mut self, bytes: &[u8]) -> (r: Result<Option<usize>, TransportError>)
        ensures
            final(self).unread() == old(self).unread(),
            r is Ok,
            (r matches Ok(None)) == (old(self).stalled() > 0),
            old(self).stalled() > 0 ==> final(self).stalled() == old(self).stalled() - 1,
            old(self).stalled() == 0 ==> final(self).stalled() == 0,
    {
        if self.hesitates() {
            return Ok(None);
        }
        match self.write_chunk(bytes) {
            Ok(n) => Ok(Some(n)),
            Err(e) => Err(e),
        }
    }
}

} // verus!
