//! The byte channels that the demultiplexer runs between.
//!
//! A [`ByteSource`] is any sequential, non-seekable byte reader; a
//! [`ByteSink`] is any sequential byte writer.  Both carry a ghost view of
//! the bytes still to come, respectively already written, so that callers
//! can state what a whole run over a channel produces.  In-memory endpoints
//! are provided here; an application wraps its real input and output in the
//! same shape.

use vstd::prelude::*;

verus! {

/// A sequential byte reader.
pub trait ByteSource: Sized {
    /// The source is in a usable state; reading keeps it so.  The default
    /// suits implementations written outside the verifier, which have no
    /// ghost view of their own.
    open spec fn source_inv(&self) -> bool {
        true
    }

    /// The bytes this source has not yet handed out.  Implementations
    /// written outside the verifier leave this at its default; nothing is
    /// then provable about what they serve, only assumed of it.
    open spec fn remaining(&self) -> Seq<u8> {
        Seq::empty()
    }

    /// Hands out the next chunk, at most `max` bytes long.  An empty chunk
    /// for a positive `max` means the source is exhausted for good.
    fn read_bytes(&mut self, max: usize) -> (r: Result<Vec<u8>, ()>)
        requires
            old(self).source_inv(),
        ensures
            final(self).source_inv(),
            match r {
                Ok(v) => v@.len() <= max && v@.len() <= old(self).remaining().len() && v@ == old(
                    self,
                ).remaining().take(v@.len() as int)
                    && final(self).remaining() == old(self).remaining().skip(v@.len() as int)
                    && ((v@.len() == 0 && max > 0) ==> old(self).remaining().len() == 0),
                Err(_) => final(self).remaining() == old(self).remaining(),
            },
    ;
}

/// A sequential byte writer.
pub trait ByteSink: Sized {
    /// The bytes written so far.  Implementations written outside the
    /// verifier leave this at its default.
    open spec fn sunk(&self) -> Seq<u8> {
        Seq::empty()
    }

    /// Writes a prefix of `data`, reporting how many bytes were taken; a
    /// non-empty `data` always makes progress.
    fn write_bytes(&mut self, data: &[u8]) -> (r: Result<usize, ()>)
        ensures
            match r {
                Ok(n) => n <= data@.len() && final(self).sunk() == old(self).sunk() + data@.take(
                    n as int,
                ) && (data@.len() > 0 ==> n > 0),
                Err(_) => final(self).sunk() == old(self).sunk(),
            },
    ;
}

/// An in-memory source that serves a fixed byte string, at most `chunk`
/// bytes per read, so that tests can exercise every split of an input.
pub struct VecSource {
    data: Vec<u8>,
    at: usize,
    chunk: usize,
}

impl VecSource {
    /// A source over `data` that serves as much as each read asks for.
    pub fn new(data: Vec<u8>) -> (r: VecSource)
        ensures
            r.source_inv(),
            r.remaining() == data@,
    {
        let chunk = data.len();
        VecSource { data, at: 0, chunk }
    }

    /// A source over `data` that serves at most `chunk` bytes per read.
    pub fn with_chunk(data: Vec<u8>, chunk: usize) -> (r: VecSource)
        ensures
            r.source_inv(),
            r.remaining() == data@,
    {
        VecSource { data, at: 0, chunk }
    }
}

impl ByteSource for VecSource {
    closed spec fn source_inv(&self) -> bool {
        true
    }

    closed spec fn remaining(&self) -> Seq<u8> {
        if self.at <= self.data@.len() {
            self.data@.skip(self.at as int)
        } else {
            Seq::empty()
        }
    }

    /// Never fails: the data is already in memory.
    fn read_bytes(&mut self, max: usize) -> (r: Result<Vec<u8>, ()>)
        ensures
            r is Ok,
    {
        let left = if self.at <= self.data.len() {
            self.data.len() - self.at
        } else {
            0
        };
        let step = if self.chunk == 0 {
            1
        } else {
            self.chunk
        };
        let mut n = if max < left {
            max
        } else {
            left
        };
        if step < n {
            n = step;
        }
        if n == 0 {
            proof {
                assert(Seq::<u8>::empty() =~= old(self).remaining().take(0));
                assert(self.remaining() =~= old(self).remaining().skip(0));
            }
            return Ok(Vec::new());
        }
        let mut v: Vec<u8> = Vec::new();
        let mut i: usize = 0;
        while i < n
            invariant
                0 <= i <= n,
                self == old(self),
                self.at + n <= self.data@.len() <= usize::MAX,
                v@ =~= self.data@.subrange(self.at as int, self.at + i),
            decreases n - i,
        {
            v.push(self.data[self.at + i]);
            i += 1;
        }
        self.at = self.at + n;
        proof {
            assert(v@ =~= old(self).remaining().take(v@.len() as int));
            assert(self.remaining() =~= old(self).remaining().skip(v@.len() as int));
        }
        Ok(v)
    }
}

/// An in-memory sink that appends everything it is given.
pub struct VecSink {
    data: Vec<u8>,
}

impl VecSink {
    /// An empty sink.
    pub fn new() -> (r: VecSink)
        ensures
            r.sunk() == Seq::<u8>::empty(),
    {
        VecSink { data: Vec::new() }
    }

    /// The bytes written so far, surrendered.
    pub fn into_vec(self) -> (r: Vec<u8>)
        ensures
            r@ == self.sunk(),
    {
        self.data
    }
}

impl ByteSink for VecSink {
    closed spec fn sunk(&self) -> Seq<u8> {
        self.data@
    }

    /// Never fails and always takes everything.
    fn write_bytes(&mut self, data: &[u8]) -> (r: Result<usize, ()>)
        ensures
            r == Ok::<usize, ()>(data@.len() as usize),
    {
        self.data.extend_from_slice(data);
        proof {
            assert(data@.take(data@.len() as int) =~= data@);
        }
        Ok(data.len())
    }
}

} // verus!
