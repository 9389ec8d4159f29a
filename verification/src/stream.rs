//! In-memory byte streams: a random-access sink supporting ordered append and
//! repositioning, and a buffered source supporting exact reads and line reads.
//!
//! The writer streams into a `MemWriter`; callers that want a file hand the
//! finished bytes to their own I/O layer.

use crate::error::PCDError;
use vstd::prelude::*;

verus! {

/// The bytes of `buf` with `b` written over position `p` onward, extending the
/// buffer if the write runs past its end.
pub open spec fn splice(buf: Seq<u8>, p: int, b: Seq<u8>) -> Seq<u8> {
    Seq::new(
        if p + b.len() > buf.len() {
            (p + b.len()) as nat
        } else {
            buf.len()
        },
        |j: int|
            if p <= j < p + b.len() {
                b[j - p]
            } else {
                buf[j]
            },
    )
}

/// A growable byte buffer with a write cursor: ordered append plus
/// random-access repositioning, standing in for a seekable sink.
pub struct MemWriter {
    pub buf: Vec<u8>,
    pub pos: usize,
}

impl MemWriter {
    /// The cursor never runs past the end of the written bytes.
    pub open spec fn wf(self) -> bool {
        self.pos <= self.buf@.len()
    }

    pub fn new() -> (r: MemWriter)
        ensures
            r.wf(),
            r.buf@ == Seq::<u8>::empty(),
            r.pos == 0,
    {
        MemWriter { buf: Vec::new(), pos: 0 }
    }

    pub fn position(&self) -> (r: usize)
        ensures
            r == self.pos,
    {
        self.pos
    }

    /// Moves the write cursor, as a seek from the start of the stream.
    pub fn seek_to(&mut self, p: usize)
        requires
            old(self).wf(),
            p <= old(self).buf@.len(),
        ensures
            final(self).wf(),
            final(self).buf == old(self).buf,
            final(self).pos == p,
    {
        self.pos = p;
    }

    /// Writes all of `b` at the cursor, overwriting what is there and
    /// extending the buffer when the write runs past its end.
    pub fn write_bytes(&mut self, b: &[u8])
        requires
            old(self).wf(),
            old(self).pos + b@.len() <= usize::MAX,
        ensures
            final(self).wf(),
            final(self).buf@ == splice(old(self).buf@, old(self).pos as int, b@),
            final(self).pos == old(self).pos + b@.len(),
    {
        let ghost buf0: Seq<u8> = old(self).buf@;
        let ghost p0: int = old(self).pos as int;
        let mut i: usize = 0;
        while i < b.len()
            invariant
                old(self).wf(),
                i <= b@.len(),
                old(self).pos + b@.len() <= usize::MAX,
                buf0 == old(self).buf@,
                p0 == old(self).pos as int,
                self.pos == old(self).pos + i,
                self.pos <= self.buf@.len(),
                self.buf@ =~= splice(buf0, p0, b@.take(i as int)),
            decreases b@.len() - i,
        {
            let ghost prev: Seq<u8> = self.buf@;
            if self.pos < self.buf.len() {
                self.buf.set(self.pos, b[i]);
            } else {
                self.buf.push(b[i]);
            }
            proof {
                assert(self.buf@ =~= splice(buf0, p0, b@.take(i as int + 1)));
            }
            self.pos = self.pos + 1;
            i = i + 1;
        }
        proof {
            assert(b@.take(b@.len() as int) =~= b@);
        }
    }

    /// Hands the finished bytes out, consuming the writer.
    pub fn into_bytes(self) -> (r: Vec<u8>)
        ensures
            r@ == self.buf@,
    {
        self.buf
    }

    /// The written bytes, for inspection without consuming the writer.
    pub fn bytes(&self) -> (r: &Vec<u8>)
        ensures
            r@ == self.buf@,
    {
        &self.buf
    }
}

/// The least index at or after `i` holding a line feed, or the length of `b`
/// if none follows.
pub open spec fn find_nl(b: Seq<u8>, i: int) -> int
    decreases b.len() - i,
{
    if i < 0 || i >= b.len() {
        b.len() as int
    } else if b[i] == 10 {
        i
    } else {
        find_nl(b, i + 1)
    }
}

/// One past the end of the line starting at `i`: past the terminating line
/// feed if there is one, else the end of the buffer.
pub open spec fn line_end(b: Seq<u8>, i: int) -> int {
    if find_nl(b, i) < b.len() {
        find_nl(b, i) + 1
    } else {
        b.len() as int
    }
}

/// A byte buffer with a read cursor and a running line number, standing in
/// for a buffered input stream.
pub struct MemReader {
    pub buf: Vec<u8>,
    pub pos: usize,
    pub line: usize,
}

impl MemReader {
    pub open spec fn wf(self) -> bool {
        self.pos <= self.buf@.len()
    }

    pub fn new(buf: Vec<u8>) -> (r: MemReader)
        ensures
            r.wf(),
            r.buf@ == buf@,
            r.pos == 0,
            r.line == 1,
    {
        MemReader { buf, pos: 0, line: 1 }
    }

    /// Reads exactly `n` bytes. Fails without consuming anything when fewer
    /// than `n` bytes remain: the stream is truncated.
    pub fn read_bytes(&mut self, n: usize) -> (r: Result<Vec<u8>, PCDError>)
        requires
            old(self).wf(),
        ensures
            final(self).wf(),
            final(self).buf == old(self).buf,
            final(self).line == old(self).line,
            old(self).pos + n <= old(self).buf@.len() ==> r is Ok && final(self).pos == old(
                self,
            ).pos + n,
            old(self).pos + n > old(self).buf@.len() ==> (r matches Err(e) && e matches
                PCDError::IoError { .. }) && final(self).pos == old(self).pos,
            r matches Ok(v) ==> v@ == old(self).buf@.subrange(
                old(self).pos as int,
                old(self).pos + n,
            ),
    {
        if n > self.buf.len() - self.pos {
            return Err(PCDError::new_io_error("unexpected end of input"));
        }
        let mut out: Vec<u8> = Vec::new();
        let mut i: usize = 0;
        while i < n
            invariant
                i <= n,
                self.pos + n <= self.buf@.len(),
                self.pos + n <= usize::MAX,
                out@ =~= self.buf@.subrange(self.pos as int, self.pos + i),
            decreases n - i,
        {
            let b: u8 = self.buf[self.pos + i];
            out.push(b);
            proof {
                assert(out@ =~= self.buf@.subrange(self.pos as int, self.pos + i + 1));
            }
            i = i + 1;
        }
        self.pos = self.pos + n;
        Ok(out)
    }

    /// Reads one line: every byte up to and including the next line feed, or
    /// up to the end of the buffer. Advances the running line number.
    pub fn read_line_bytes(&mut self) -> (r: Vec<u8>)
        requires
            old(self).wf(),
            old(self).line < usize::MAX,
        ensures
            final(self).wf(),
            final(self).buf == old(self).buf,
            final(self).line == old(self).line + 1,
            final(self).pos == line_end(old(self).buf@, old(self).pos as int),
            r@ == old(self).buf@.subrange(
                old(self).pos as int,
                line_end(old(self).buf@, old(self).pos as int),
            ),
    {
        let ghost p0: int = self.pos as int;
        let mut j: usize = self.pos;
        while j < self.buf.len() && self.buf[j] != 10
            invariant
                self == old(self),
                p0 == old(self).pos as int,
                p0 <= j <= self.buf@.len(),
                find_nl(self.buf@, p0) == find_nl(self.buf@, j as int),
            decreases self.buf@.len() - j,
        {
            j = j + 1;
        }
        let end: usize = if j < self.buf.len() {
            j + 1
        } else {
            j
        };
        proof {
            assert(find_nl(self.buf@, j as int) == if j < self.buf@.len() {
                j as int
            } else {
                self.buf@.len() as int
            });
            assert(end as int == line_end(self.buf@, p0));
        }
        let mut out: Vec<u8> = Vec::new();
        let mut i: usize = self.pos;
        while i < end
            invariant
                p0 == old(self).pos as int,
                p0 <= i <= end <= self.buf@.len(),
                end as int == line_end(self.buf@, p0),
                self == old(self),
                out@ =~= self.buf@.subrange(p0, i as int),
            decreases end - i,
        {
            let b: u8 = self.buf[i];
            out.push(b);
            proof {
                assert(out@ =~= self.buf@.subrange(p0, i as int + 1));
            }
            i = i + 1;
        }
        self.pos = end;
        self.line = self.line + 1;
        out
    }

    /// The line number the next `read_line_bytes` call will be charged to.
    pub fn line_number(&self) -> (r: usize)
        ensures
            r == self.line,
    {
        self.line
    }
}

} // verus!
