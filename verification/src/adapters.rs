//! Stream adapters: extension traits that lay either codec over any
//! byte sink or byte source.
use vstd::prelude::*;

use crate::codec::ReadBinary;
use crate::codec::WriteBinary;
use crate::codec::MAX_VARINT_LEN64;
use crate::errors::Leb128Error;
use crate::errors::WriteError;
use crate::model::sleb_dec;
use crate::model::sleb_enc;
use crate::model::sleb_used;
use crate::model::uleb_dec;
use crate::model::uleb_used;
use crate::model::vi64_dec;
use crate::model::vu64_dec;
use crate::model::vu64_enc;
use crate::model::vu64_used;
use crate::model::zigzag;
use crate::stream::ByteSink;
use crate::stream::ReadU8;

verus! {

/// A zeroed scratch buffer of the longest encoding's size.
fn scratch() -> (v: Vec<u8>)
    ensures
        v@.len() == MAX_VARINT_LEN64,
{
    let mut v: Vec<u8> = Vec::new();
    let mut k: usize = 0;
    while k < MAX_VARINT_LEN64
        invariant
            v@.len() == k,
            k <= MAX_VARINT_LEN64,
        decreases MAX_VARINT_LEN64 - k,
    {
        v.push(0);
        k = k + 1;
    }
    v
}

/// Writing either wire format, through a chosen codec, into any byte
/// sink.  A successful write sinks exactly the encoding and returns
/// its length; a failed one reports the sink's failure, with nothing
/// sunk; and a sink that accepts the encoding's length owes success.
pub trait WriteBytesVarExt: ByteSink {
    /// Encodes `x` as a varint and hands the bytes to the sink.
    fn write_vu64<T: WriteBinary>(&mut self, x: u64) -> (r: Result<usize, WriteError>)
        ensures
            old(self).accepts(vu64_enc(x).len()) ==> r is Ok,
            r matches Ok(n) ==> n == vu64_enc(x).len() && final(self).sunk() == old(self).sunk()
                + vu64_enc(x),
            r is Err ==> final(self).sunk() == old(self).sunk(),
    ;

    /// Encodes `x` as a zig-zag varint and hands the bytes to the sink.
    fn write_vi64<T: WriteBinary>(&mut self, x: i64) -> (r: Result<usize, WriteError>)
        ensures
            old(self).accepts(vu64_enc(zigzag(x)).len()) ==> r is Ok,
            r matches Ok(n) ==> n == vu64_enc(zigzag(x)).len() && final(self).sunk() == old(
                self,
            ).sunk() + vu64_enc(zigzag(x)),
            r is Err ==> final(self).sunk() == old(self).sunk(),
    ;

    /// Encodes `x` as unsigned LEB128 and hands the bytes to the sink.
    fn write_leb128_u64<T: WriteBinary>(&mut self, x: u64) -> (r: Result<usize, WriteError>)
        ensures
            old(self).accepts(vu64_enc(x).len()) ==> r is Ok,
            r matches Ok(n) ==> n == vu64_enc(x).len() && final(self).sunk() == old(self).sunk()
                + vu64_enc(x),
            r is Err ==> final(self).sunk() == old(self).sunk(),
    ;

    /// Encodes `x` as signed LEB128 and hands the bytes to the sink.
    fn write_leb128_i64<T: WriteBinary>(&mut self, x: i64) -> (r: Result<usize, WriteError>)
        ensures
            old(self).accepts(sleb_enc(x as int).len()) ==> r is Ok,
            r matches Ok(n) ==> n == sleb_enc(x as int).len() && final(self).sunk() == old(
                self,
            ).sunk() + sleb_enc(x as int),
            r is Err ==> final(self).sunk() == old(self).sunk(),
    ;
}

impl<W: ByteSink> WriteBytesVarExt for W {
    fn write_vu64<T: WriteBinary>(&mut self, x: u64) -> (r: Result<usize, WriteError>) {
        let mut buf: Vec<u8> = scratch();
        let n: usize = T::put_vu64(&mut buf, x);
        let piece: &[u8] = vstd::slice::slice_subrange(buf.as_slice(), 0, n);
        proof {
            assert(piece@ =~= vu64_enc(x));
        }
        match self.write_bytes(piece) {
            Ok(()) => Ok(n),
            Err(e) => Err(e),
        }
    }

    fn write_vi64<T: WriteBinary>(&mut self, x: i64) -> (r: Result<usize, WriteError>) {
        let mut buf: Vec<u8> = scratch();
        let n: usize = T::put_vi64(&mut buf, x);
        let piece: &[u8] = vstd::slice::slice_subrange(buf.as_slice(), 0, n);
        proof {
            assert(piece@ =~= vu64_enc(zigzag(x)));
        }
        match self.write_bytes(piece) {
            Ok(()) => Ok(n),
            Err(e) => Err(e),
        }
    }

    fn write_leb128_u64<T: WriteBinary>(&mut self, x: u64) -> (r: Result<usize, WriteError>) {
        let mut buf: Vec<u8> = scratch();
        let n: usize = T::put_leb128_u64(&mut buf, x);
        let piece: &[u8] = vstd::slice::slice_subrange(buf.as_slice(), 0, n);
        proof {
            assert(piece@ =~= vu64_enc(x));
        }
        match self.write_bytes(piece) {
            Ok(()) => Ok(n),
            Err(e) => Err(e),
        }
    }

    fn write_leb128_i64<T: WriteBinary>(&mut self, x: i64) -> (r: Result<usize, WriteError>) {
        let mut buf: Vec<u8> = scratch();
        let n: usize = T::put_leb128_i64(&mut buf, x);
        let piece: &[u8] = vstd::slice::slice_subrange(buf.as_slice(), 0, n);
        proof {
            assert(piece@ =~= sleb_enc(x as int));
        }
        match self.write_bytes(piece) {
            Ok(()) => Ok(n),
            Err(e) => Err(e),
        }
    }
}

/// Reading either wire format, through a chosen codec, from the byte
/// source `self`.
pub trait ReadBytesVarExt: ReadU8 {
    /// Decodes a varint from the source.
    fn read_vu64<T: ReadBinary>(&mut self) -> (r: (u64, i32))
        ensures
            r == vu64_dec(old(self).bytes()),
            final(self).bytes() == old(self).bytes().skip(vu64_used(old(self).bytes())),
    ;

    /// Decodes a zig-zag varint from the source.
    fn read_vi64<T: ReadBinary>(&mut self) -> (r: (i64, i32))
        ensures
            r == vi64_dec(old(self).bytes()),
            final(self).bytes() == old(self).bytes().skip(vu64_used(old(self).bytes())),
    ;

    /// Decodes an unsigned LEB128 value from the source.
    fn read_led128_u64<T: ReadBinary>(&mut self) -> (r: Result<u64, Leb128Error>)
        ensures
            r == uleb_dec(old(self).bytes()),
            final(self).bytes() == old(self).bytes().skip(uleb_used(old(self).bytes())),
    ;

    /// Decodes a signed LEB128 value from the source.
    fn read_led128_i64<T: ReadBinary>(&mut self) -> (r: Result<i64, Leb128Error>)
        ensures
            r == sleb_dec(old(self).bytes()),
            final(self).bytes() == old(self).bytes().skip(sleb_used(old(self).bytes())),
    ;
}

impl<R: ReadU8> ReadBytesVarExt for R {
    fn read_vu64<T: ReadBinary>(&mut self) -> (r: (u64, i32)) {
        T::read_vu64(self)
    }

    fn read_vi64<T: ReadBinary>(&mut self) -> (r: (i64, i32)) {
        T::read_vi64(self)
    }

    fn read_led128_u64<T: ReadBinary>(&mut self) -> (r: Result<u64, Leb128Error>) {
        T::read_leb128_u64(self)
    }

    fn read_led128_i64<T: ReadBinary>(&mut self) -> (r: Result<i64, Leb128Error>) {
        T::read_leb128_i64(self)
    }
}

} // verus!
