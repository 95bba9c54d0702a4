//! Byte sources and sinks: the stream capability the codecs run over,
//! and in-memory adapters that provide it.
use vstd::prelude::*;

use crate::errors::ReadError;
use crate::errors::WriteError;

verus! {

/// The capability to pull one byte at a time.  `bytes` is what the
/// source still holds; a read fails exactly when nothing remains.
pub trait ReadU8 {
    /// What the source still holds, in the order it will hand it out.
    spec fn bytes(&self) -> Seq<u8>;

    /// Pulls the next byte, or fails when the source is exhausted.
    fn read_u8(&mut self) -> (r: Result<u8, ReadError>)
        ensures
            old(self).bytes().len() == 0 ==> r == Err::<u8, ReadError>(ReadError)
                && final(self).bytes() == old(self).bytes(),
            old(self).bytes().len() > 0 ==> r == Ok::<u8, ReadError>(old(self).bytes()[0])
                && final(self).bytes() == old(self).bytes().drop_first(),
    ;
}

/// The one-byte read capability under another name, kept for callers
/// that reach it this way.
pub trait ReadU8Ext {
    /// Pulls the next byte, or fails when the source is exhausted.
    fn read_u8(&mut self) -> Result<u8, ReadError>;
}

/// The capability to accept bytes.  `sunk` is what the sink has taken
/// so far; a successful write appends exactly the bytes handed in, and
/// a failed one appends nothing.  `accepts` says on which states a
/// write of a given size is owed success.
pub trait ByteSink {
    /// What the sink has accepted, oldest first.
    spec fn sunk(&self) -> Seq<u8>;

    /// Whether the sink will take the next `n` bytes.
    spec fn accepts(&self, n: nat) -> bool;

    /// Hands `data` to the sink.
    fn write_bytes(&mut self, data: &[u8]) -> (r: Result<(), WriteError>)
        ensures
            old(self).accepts(data@.len()) ==> r is Ok,
            r is Ok ==> final(self).sunk() == old(self).sunk() + data@,
            r is Err ==> final(self).sunk() == old(self).sunk(),
    ;
}

/// An in-memory byte source over a borrowed slice.
pub struct SliceReader<'a> {
    data: &'a [u8],
    pos: usize,
}

impl<'a> SliceReader<'a> {
    /// Starts reading `data` at its first byte.
    pub fn new(data: &'a [u8]) -> (r: SliceReader<'a>)
        ensures
            r.bytes() == data@,
    {
        let r = SliceReader { data, pos: 0 };
        proof {
            assert(r.bytes() =~= data@);
        }
        r
    }
}

impl<'a> ReadU8 for SliceReader<'a> {
    closed spec fn bytes(&self) -> Seq<u8> {
        if self.pos <= self.data@.len() {
            self.data@.skip(self.pos as int)
        } else {
            Seq::empty()
        }
    }

    fn read_u8(&mut self) -> (r: Result<u8, ReadError>) {
        if self.pos < self.data.len() {
            let b: u8 = *vstd::slice::slice_index_get(self.data, self.pos);
            self.pos = self.pos + 1;
            proof {
                assert(final(self).bytes() =~= old(self).bytes().drop_first());
            }
            Ok(b)
        } else {
            Err(ReadError)
        }
    }
}

/// An in-memory cursor over an owned buffer: reads hand out the bytes
/// after the position, writes overwrite in place from the position on
/// and grow the buffer once they run past its end.
pub struct ByteCursor {
    data: Vec<u8>,
    pos: usize,
}

impl ByteCursor {
    /// The whole underlying buffer.
    pub closed spec fn buf(&self) -> Seq<u8> {
        self.data@
    }

    /// The current position.
    pub closed spec fn position(&self) -> nat {
        self.pos as nat
    }

    /// Wraps `data`, with the position at its start.
    pub fn new(data: Vec<u8>) -> (r: ByteCursor)
        ensures
            r.buf() == data@,
            r.position() == 0,
            r.bytes() == data@,
            r.sunk() == Seq::<u8>::empty(),
    {
        let r = ByteCursor { data, pos: 0 };
        proof {
            assert(r.bytes() =~= r.data@);
            assert(r.sunk() =~= Seq::<u8>::empty());
        }
        r
    }

    /// Moves the position to `p`.
    pub fn set_position(&mut self, p: usize)
        ensures
            final(self).buf() == old(self).buf(),
            final(self).position() == p,
    {
        self.pos = p;
    }

    /// A borrow of the whole underlying buffer.
    pub fn get_ref(&self) -> (r: &Vec<u8>)
        ensures
            r@ == self.buf(),
    {
        &self.data
    }

    /// Gives the underlying buffer back.
    pub fn into_inner(self) -> (r: Vec<u8>)
        ensures
            r@ == self.buf(),
    {
        self.data
    }
}

impl ReadU8 for ByteCursor {
    open spec fn bytes(&self) -> Seq<u8> {
        if self.position() <= self.buf().len() {
            self.buf().skip(self.position() as int)
        } else {
            Seq::empty()
        }
    }

    fn read_u8(&mut self) -> (r: Result<u8, ReadError>) {
        if self.pos < self.data.len() {
            let b: u8 = self.data[self.pos];
            self.pos = self.pos + 1;
            proof {
                assert(final(self).bytes() =~= old(self).bytes().drop_first());
            }
            Ok(b)
        } else {
            Err(ReadError)
        }
    }
}

impl ByteSink for ByteCursor {
    open spec fn sunk(&self) -> Seq<u8> {
        if self.position() <= self.buf().len() {
            self.buf().take(self.position() as int)
        } else {
            self.buf()
        }
    }

    open spec fn accepts(&self, n: nat) -> bool {
        self.position() <= self.buf().len()
    }

    fn write_bytes(&mut self, data: &[u8]) -> (r: Result<(), WriteError>)
        ensures
            (r is Ok) <==> old(self).position() <= old(self).buf().len(),
            r is Ok ==> final(self).position() == old(self).position() + data@.len()
                && final(self).buf() == old(self).buf().take(old(self).position() as int) + data@
                + (if old(self).position() + data@.len() <= old(self).buf().len() {
                    old(self).buf().skip((old(self).position() + data@.len()) as int)
                } else {
                    Seq::<u8>::empty()
                }),
            r is Err ==> final(self).buf() == old(self).buf()
                && final(self).position() == old(self).position(),
    {
        if self.pos > self.data.len() {
            return Err(WriteError);
        }
        let ghost d0 = self.data@;
        let ghost p0 = self.pos as int;
        let mut k: usize = 0;
        while k < data.len()
            invariant
                k <= data@.len(),
                self.pos == p0 + k,
                0 <= p0,
                p0 + k <= self.data@.len(),
                self.data@.len() == (if p0 + k <= d0.len() {
                    d0.len() as int
                } else {
                    p0 + k
                }),
                forall|j: int| 0 <= j < p0 ==> self.data@[j] == d0[j],
                forall|j: int| p0 <= j < p0 + k ==> self.data@[j] == data@[j - p0],
                forall|j: int| p0 + k <= j < d0.len() ==> self.data@[j] == d0[j],
            decreases data@.len() - k,
        {
            let b: u8 = *vstd::slice::slice_index_get(data, k);
            if self.pos < self.data.len() {
                self.data.set(self.pos, b);
                self.pos = self.pos + 1;
            } else {
                self.data.push(b);
                self.pos = self.data.len();
            }
            k = k + 1;
        }
        proof {
            assert(final(self).sunk() =~= old(self).sunk() + data@);
            assert(final(self).buf() =~= old(self).buf().take(p0) + data@ + (if p0 + data@.len()
                <= d0.len() {
                d0.skip(p0 + data@.len() as int)
            } else {
                Seq::<u8>::empty()
            }));
        }
        Ok(())
    }
}

/// A growable buffer is itself a sink: writes append to it, and none
/// can fail.
impl ByteSink for Vec<u8> {
    open spec fn sunk(&self) -> Seq<u8> {
        self@
    }

    open spec fn accepts(&self, n: nat) -> bool {
        true
    }

    fn write_bytes(&mut self, data: &[u8]) -> (r: Result<(), WriteError>)
        ensures
            r is Ok,
            final(self)@ == old(self)@ + data@,
    {
        let ghost v0 = self@;
        let mut k: usize = 0;
        while k < data.len()
            invariant
                k <= data@.len(),
                self@ == v0 + data@.take(k as int),
            decreases data@.len() - k,
        {
            let b: u8 = *vstd::slice::slice_index_get(data, k);
            self.push(b);
            k = k + 1;
            proof {
                assert(self@ =~= v0 + data@.take(k as int));
            }
        }
        proof {
            assert(data@.take(k as int) =~= data@);
        }
        Ok(())
    }
}

} // verus!
