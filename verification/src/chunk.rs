//! The chunked writer: a payload of any length leaves in slices of a fixed
//! size, one write per slice.
use vstd::prelude::*;
use vstd::slice::slice_subrange;
use crate::error::FrameError;

verus! {

/// The size of the slices in which payloads are written and read. It is
/// not visible on the wire.
pub const BUFFER_SIZE: usize = 1024;

/// The width of the header of a length-prefixed frame.
pub const CONTENT_LENGTH_SIZE: usize = 4;

/// The number of slices of `chunk` bytes that cover `len` bytes: `len / chunk`,
/// rounded up.
pub open spec fn chunk_count(len: nat, chunk: nat) -> nat {
    if chunk == 0 {
        0
    } else {
        ((len + chunk - 1) / (chunk as int)) as nat
    }
}

/// The smaller of two lengths.
pub open spec fn least(a: int, b: int) -> int {
    if a <= b {
        a
    } else {
        b
    }
}

/// `count` is `len / chunk` rounded up as soon as `count` slices reach `len`
/// and one fewer does not.
pub proof fn lemma_chunk_count_is(len: nat, chunk: nat, count: nat)
    requires
        chunk >= 1,
        len <= count * chunk,
        count == 0 || (count - 1) * chunk < len,
    ensures
        chunk_count(len, chunk) == count,
{
    let c = chunk as int;
    let x = len + chunk - 1;
    assert(count * c <= x) by (nonlinear_arith)
        requires
            c >= 1,
            count == 0 || (count - 1) * c < len,
            x == len + c - 1,
    ;
    assert(x < (count + 1) * c) by (nonlinear_arith)
        requires
            c >= 1,
            len <= count * c,
            x == len + c - 1,
    ;
    assert(x / c == count) by (nonlinear_arith)
        requires
            c >= 1,
            count * c <= x < (count + 1) * c,
    ;
}

/// The number of slices that a payload of `len` bytes is cut into.
pub fn chunks_needed(len: usize, chunk: usize) -> (count: usize)
    requires
        chunk >= 1,
    ensures
        count == chunk_count(len as nat, chunk as nat),
{
    let full: usize = len / chunk;
    let rest: usize = len % chunk;
    let count: usize = if rest == 0 {
        full
    } else {
        assert(full < len) by (nonlinear_arith)
            requires
                full == len / chunk,
                rest == len % chunk,
                rest != 0,
                chunk >= 1,
        ;
        full + 1
    };
    proof {
        assert(len == full * chunk + rest && 0 <= rest < chunk) by (nonlinear_arith)
            requires
                full == len / chunk,
                rest == len % chunk,
                chunk >= 1,
        ;
        if rest == 0 {
            assert(full == 0 || (full - 1) * chunk < len) by (nonlinear_arith)
                requires
                    len == full * chunk,
                    chunk >= 1,
            ;
        } else {
            assert(len <= (full + 1) * chunk && full * chunk < len) by (nonlinear_arith)
                requires
                    len == full * chunk + rest,
                    0 < rest < chunk,
            ;
        }
        lemma_chunk_count_is(len as nat, chunk as nat, count as nat);
    }
    count
}

/// A payload on its way out, and how far it has got.
///
/// The writer hands out the next slice, is told how much of it the transport
/// took, and moves on by that much. It performs no I/O itself.
pub struct ChunkedWriter {
    bytes: Vec<u8>,
    offset: usize,
    chunk: usize,
    writes: usize,
}

impl ChunkedWriter {
    /// The whole payload.
    pub closed spec fn payload(&self) -> Seq<u8> {
        self.bytes@
    }

    /// How many bytes of the payload the transport has taken.
    pub closed spec fn sent(&self) -> nat {
        self.offset as nat
    }

    /// The largest slice that is handed out.
    pub closed spec fn chunk_size(&self) -> nat {
        self.chunk as nat
    }

    /// How many writes have been recorded.
    pub closed spec fn writes(&self) -> nat {
        self.writes as nat
    }

    /// The invariant of the writer.
    pub closed spec fn wf(&self) -> bool {
        &&& self.chunk >= 1
        &&& self.writes <= self.offset <= self.bytes@.len()
    }

    /// Whether the whole payload has been taken.
    pub open spec fn done(&self) -> bool {
        self.sent() == self.payload().len()
    }

    /// The slice that is written next: at most `chunk_size` bytes, starting
    /// where the last write ended.
    pub open spec fn pending(&self) -> Seq<u8> {
        self.payload().subrange(
            self.sent() as int,
            least((self.sent() + self.chunk_size()) as int, self.payload().len() as int),
        )
    }

    /// Whether the writes so far are as few as whole slices allow: as many
    /// as the bytes sent, divided by the chunk size and rounded up, and each
    /// but the last one a full chunk. A new writer is in this state, and a
    /// write that takes the whole slice it was offered keeps it so; a writer
    /// that is done in this state has recorded `chunk_count` of its length
    /// writes.
    pub open spec fn whole(&self) -> bool {
        &&& self.writes() == chunk_count(self.sent(), self.chunk_size())
        &&& self.sent() == least(
            (self.writes() * self.chunk_size()) as int,
            self.payload().len() as int,
        )
    }

    /// A writer is never ahead of its payload, has recorded no more writes
    /// than bytes, and cuts slices that hold something.
    pub proof fn lemma_bounds(&self)
        requires
            self.wf(),
        ensures
            self.writes() <= self.sent() <= self.payload().len(),
            self.chunk_size() >= 1,
    {
    }

    /// A writer for `bytes` that cuts slices of `BUFFER_SIZE` bytes.
    pub fn new(bytes: Vec<u8>) -> (writer: ChunkedWriter)
        ensures
            writer.wf(),
            writer.payload() == bytes@,
            writer.chunk_size() == BUFFER_SIZE,
            writer.sent() == 0,
            writer.writes() == 0,
            writer.whole(),
    {
        ChunkedWriter::with_chunk_size(bytes, BUFFER_SIZE)
    }

    /// A writer for `bytes` that cuts slices of `chunk` bytes.
    pub fn with_chunk_size(bytes: Vec<u8>, chunk: usize) -> (writer: ChunkedWriter)
        requires
            chunk >= 1,
        ensures
            writer.wf(),
            writer.payload() == bytes@,
            writer.chunk_size() == chunk,
            writer.sent() == 0,
            writer.writes() == 0,
            writer.whole(),
    {
        proof {
            lemma_chunk_count_is(0, chunk as nat, 0);
        }
        ChunkedWriter { bytes, offset: 0, chunk, writes: 0 }
    }

    /// The length of the payload.
    pub fn len(&self) -> (n: usize)
        ensures
            n == self.payload().len(),
    {
        self.bytes.len()
    }

    /// How many bytes have been taken so far.
    pub fn written(&self) -> (n: usize)
        ensures
            n == self.sent(),
    {
        self.offset
    }

    /// How many writes have been recorded so far.
    pub fn write_count(&self) -> (n: usize)
        ensures
            n == self.writes(),
    {
        self.writes
    }

    /// Whether nothing is left to write.
    pub fn is_done(&self) -> (done: bool)
        requires
            self.wf(),
        ensures
            done == self.done(),
    {
        self.offset >= self.bytes.len()
    }

    /// The slice to hand to the transport next. It is empty exactly when the
    /// writer is done.
    pub fn next_chunk(&self) -> (slice: &[u8])
        requires
            self.wf(),
        ensures
            slice@ == self.pending(),
            slice@.len() == least(self.chunk_size() as int, self.payload().len() - self.sent()),
    {
        let left: usize = self.bytes.len() - self.offset;
        let take: usize = if left < self.chunk {
            left
        } else {
            self.chunk
        };
        slice_subrange(self.bytes.as_slice(), self.offset, self.offset + take)
    }

    /// Records that the transport took `n` bytes of the slice it was offered.
    ///
    /// A transport that takes nothing of a slice, or claims more than the
    /// slice holds, has failed: the writer stays as it was and the send is
    /// over.
    pub fn advance(&mut self, n: usize) -> (r: Result<(), FrameError>)
        requires
            old(self).wf(),
        ensures
            final(self).wf(),
            final(self).payload() == old(self).payload(),
            final(self).chunk_size() == old(self).chunk_size(),
            1 <= n <= old(self).pending().len() ==> r is Ok && final(self).sent() == old(
                self,
            ).sent() + n && final(self).writes() == old(self).writes() + 1,
            !(1 <= n <= old(self).pending().len()) ==> r == Err::<(), FrameError>(
                FrameError::Transport,
            ) && final(self).sent() == old(self).sent() && final(self).writes() == old(
                self,
            ).writes(),
            old(self).whole() && n == old(self).pending().len() && n >= 1 ==> final(self).whole(),
    {
        let left: usize = self.bytes.len() - self.offset;
        let offered: usize = if left < self.chunk {
            left
        } else {
            self.chunk
        };
        if n == 0 || n > offered {
            return Err(FrameError::Transport);
        }
        proof {
            if old(self).whole() && n == offered {
                let w = self.writes as nat;
                let c = self.chunk as nat;
                let len = self.bytes@.len();
                assert((w + 1) * c == w * c + c) by (nonlinear_arith);
                lemma_chunk_count_is((self.offset + n) as nat, c, w + 1);
            }
        }
        self.offset = self.offset + n;
        self.writes = self.writes + 1;
        Ok(())
    }
}

} // verus!
