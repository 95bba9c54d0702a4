//! The codec itself: varint and LEB128 encoders into a caller-supplied
//! buffer, and decoders over a buffer or any byte source.
use vstd::prelude::*;

use crate::errors::Leb128Error;
use crate::model::le7_val;
use crate::model::lemma_le7_val_push;
use crate::model::lemma_pow128_mono;
use crate::model::lemma_pow128_vals;
use crate::model::lemma_sleb_enc_shape;
use crate::model::lemma_take_push;
use crate::model::lemma_vu64_enc_len;
use crate::model::pow128;
use crate::model::sleb_dec;
use crate::model::sleb_enc;
use crate::model::sleb_scan;
use crate::model::sleb_used;
use crate::model::sleb_val;
use crate::model::uleb_dec;
use crate::model::uleb_scan;
use crate::model::uleb_used;
use crate::model::unzigzag;
use crate::model::vi64_dec;
use crate::model::vu64_dec;
use crate::model::vu64_enc;
use crate::model::vu64_scan;
use crate::model::vu64_used;
use crate::model::zigzag;
use crate::laws::lemma_sleb_enc_len;
use crate::stream::ReadU8;
use crate::stream::SliceReader;

verus! {

/// The longest varint encoding of a 16-bit value.
pub const MAX_VARINT_LEN16: usize = 3;

/// The longest varint encoding of a 32-bit value.
pub const MAX_VARINT_LEN32: usize = 5;

/// The longest varint encoding of a 64-bit value, and the least buffer
/// size every encoder here asks for.
pub const MAX_VARINT_LEN64: usize = 10;

/// The bit that marks an encoded group as continued.
pub const CONTINUATION_BIT: u8 = 0x80;

/// The low seven bits of a byte: its payload without the continuation
/// bit.
pub fn low_bits_of_byte(byte: u8) -> (r: u8)
    ensures
        r == byte % 128,
{
    proof {
        assert(byte & !CONTINUATION_BIT == byte % 128) by (bit_vector)
            requires
                CONTINUATION_BIT == 0x80u8,
        ;
    }
    byte & !CONTINUATION_BIT
}

/// The low seven bits of the low byte of a 64-bit value.
pub fn low_bits_of_u64(val: u64) -> (r: u8)
    ensures
        r == val % 128,
{
    proof {
        assert(val % 256 % 128 == val % 128) by (bit_vector);
    }
    let byte: u8 = (val % 256) as u8;
    low_bits_of_byte(byte)
}

/// Writing both wire formats into a caller-supplied buffer of at least
/// `MAX_VARINT_LEN64` bytes.  Each encoder overwrites a prefix of the
/// buffer, leaves the rest alone, and returns how many bytes it laid
/// down.
pub trait WriteBinary {
    /// Encodes `x` as a varint at the front of `buf`.
    fn put_vu64(buf: &mut Vec<u8>, x: u64) -> (n: usize)
        requires
            old(buf).len() >= MAX_VARINT_LEN64,
        ensures
            n == vu64_enc(x).len(),
            1 <= n <= 10,
            final(buf)@.len() == old(buf)@.len(),
            final(buf)@ == vu64_enc(x) + old(buf)@.skip(n as int),
    ;

    /// Encodes `x` as a zig-zag varint at the front of `buf`.
    fn put_vi64(buf: &mut Vec<u8>, x: i64) -> (n: usize)
        requires
            old(buf).len() >= MAX_VARINT_LEN64,
        ensures
            n == vu64_enc(zigzag(x)).len(),
            1 <= n <= 10,
            final(buf)@.len() == old(buf)@.len(),
            final(buf)@ == vu64_enc(zigzag(x)) + old(buf)@.skip(n as int),
    ;

    /// Encodes `x` as unsigned LEB128 at the front of `buf`; the zero
    /// value still takes one byte.
    fn put_leb128_u64(buf: &mut Vec<u8>, x: u64) -> (n: usize)
        requires
            old(buf).len() >= MAX_VARINT_LEN64,
        ensures
            n == vu64_enc(x).len(),
            1 <= n <= 10,
            final(buf)@.len() == old(buf)@.len(),
            final(buf)@ == vu64_enc(x) + old(buf)@.skip(n as int),
    ;

    /// Encodes `x` as signed LEB128 at the front of `buf`.
    fn put_leb128_i64(buf: &mut Vec<u8>, x: i64) -> (n: usize)
        requires
            old(buf).len() >= MAX_VARINT_LEN64,
        ensures
            n == sleb_enc(x as int).len(),
            1 <= n <= 10,
            final(buf)@.len() == old(buf)@.len(),
            final(buf)@ == sleb_enc(x as int) + old(buf)@.skip(n as int),
    ;
}

/// Reading both wire formats back, from a buffer or from a byte
/// source.  The varint decoders report errors through the returned
/// count, the LEB128 decoders through an explicit error value.
pub trait ReadBinary {
    /// Decodes a varint from the front of `buf`: the value and the
    /// bytes read, `0` when `buf` ends too soon and negative on
    /// overflow.
    fn vu64(buf: &[u8]) -> (r: (u64, i32))
        ensures
            r == vu64_dec(buf@),
    ;

    /// Decodes a zig-zag varint from the front of `buf`, reporting as
    /// `vu64` does.
    fn vi64(buf: &[u8]) -> (r: (i64, i32))
        ensures
            r == vi64_dec(buf@),
    ;

    /// Decodes a varint from `t`, consuming exactly the bytes it
    /// reports read.
    fn read_vu64<T: ReadU8>(t: &mut T) -> (r: (u64, i32))
        ensures
            r == vu64_dec(old(t).bytes()),
            final(t).bytes() == old(t).bytes().skip(vu64_used(old(t).bytes())),
    ;

    /// Decodes a zig-zag varint from `t`.
    fn read_vi64<T: ReadU8>(t: &mut T) -> (r: (i64, i32))
        ensures
            r == vi64_dec(old(t).bytes()),
            final(t).bytes() == old(t).bytes().skip(vu64_used(old(t).bytes())),
    ;

    /// Decodes a signed LEB128 value from `t`.
    fn read_leb128_i64<T: ReadU8>(t: &mut T) -> (r: Result<i64, Leb128Error>)
        ensures
            r == sleb_dec(old(t).bytes()),
            final(t).bytes() == old(t).bytes().skip(sleb_used(old(t).bytes())),
    ;

    /// Decodes an unsigned LEB128 value from `t`.
    fn read_leb128_u64<T: ReadU8>(t: &mut T) -> (r: Result<u64, Leb128Error>)
        ensures
            r == uleb_dec(old(t).bytes()),
            final(t).bytes() == old(t).bytes().skip(uleb_used(old(t).bytes())),
    ;
}

/// The codec: a type-level tag that the stream adapters take as their
/// choice of wire format.
pub struct Binary {}

impl WriteBinary for Binary {
    fn put_vu64(buf: &mut Vec<u8>, x: u64) -> (n: usize) {
        let ghost b0 = buf@;
        proof {
            lemma_vu64_enc_len(x);
            assert(vu64_enc(x) =~= buf@.take(0) + vu64_enc(x));
        }
        let mut v: u64 = x;
        let mut i: usize = 0;
        loop
            invariant
                buf@.len() == b0.len() >= 10,
                b0 == old(buf)@,
                i + vu64_enc(v).len() == vu64_enc(x).len(),
                vu64_enc(x).len() <= 10,
                vu64_enc(x) == buf@.take(i as int) + vu64_enc(v),
                forall|j: int| i <= j < buf@.len() ==> buf@[j] == b0[j],
            decreases v,
        {
            proof {
                lemma_vu64_enc_len(v);
            }
            let ghost bprev = buf@;
            if v < 128 {
                buf.set(i, v as u8);
                proof {
                    assert(vu64_enc(v) =~= seq![v as u8]);
                    assert(buf@.take(i as int + 1) =~= bprev.take(i as int).push(v as u8));
                    assert(vu64_enc(x) =~= buf@.take(i as int + 1));
                    assert(buf@ =~= vu64_enc(x) + b0.skip(i as int + 1));
                }
                return i + 1;
            }
            let b: u8 = (v % 128) as u8 + 128;
            buf.set(i, b);
            proof {
                assert(vu64_enc(v) == seq![b] + vu64_enc(v / 128));
                assert(buf@.take(i as int + 1) =~= bprev.take(i as int).push(b));
                assert(vu64_enc(x) =~= buf@.take(i as int + 1) + vu64_enc(v / 128));
            }
            v = v / 128;
            i = i + 1;
        }
    }

    fn put_vi64(buf: &mut Vec<u8>, x: i64) -> (n: usize) {
        let ux: u64 = if x >= 0 {
            (x as u64) * 2
        } else {
            let m: u64 = (-(x + 1)) as u64;
            m * 2 + 1
        };
        proof {
            assert(ux == zigzag(x));
        }
        Self::put_vu64(buf, ux)
    }

    fn put_leb128_u64(buf: &mut Vec<u8>, x: u64) -> (n: usize) {
        let ghost b0 = buf@;
        proof {
            lemma_vu64_enc_len(x);
            assert(vu64_enc(x) =~= buf@.take(0) + vu64_enc(x));
        }
        let mut v: u64 = x;
        let mut i: usize = 0;
        loop
            invariant
                buf@.len() == b0.len() >= 10,
                b0 == old(buf)@,
                i + vu64_enc(v).len() == vu64_enc(x).len(),
                vu64_enc(x).len() <= 10,
                vu64_enc(x) == buf@.take(i as int) + vu64_enc(v),
                forall|j: int| i <= j < buf@.len() ==> buf@[j] == b0[j],
            decreases v,
        {
            proof {
                lemma_vu64_enc_len(v);
            }
            let ghost bprev = buf@;
            let mut byte: u8 = low_bits_of_u64(v);
            let rest: u64 = v / 128;
            if rest != 0 {
                byte = byte + 128;
            }
            buf.set(i, byte);
            i = i + 1;
            if rest == 0 {
                proof {
                    assert(vu64_enc(v) =~= seq![v as u8]);
                    assert(buf@.take(i as int) =~= bprev.take(i as int - 1).push(byte));
                    assert(vu64_enc(x) =~= buf@.take(i as int));
                    assert(buf@ =~= vu64_enc(x) + b0.skip(i as int));
                }
                return i;
            }
            proof {
                assert(vu64_enc(v) == seq![byte] + vu64_enc(v / 128));
                assert(buf@.take(i as int) =~= bprev.take(i as int - 1).push(byte));
                assert(vu64_enc(x) =~= buf@.take(i as int) + vu64_enc(v / 128));
            }
            v = rest;
        }
    }

    fn put_leb128_i64(buf: &mut Vec<u8>, x: i64) -> (n: usize) {
        let ghost b0 = buf@;
        proof {
            lemma_sleb_enc_len(x);
            assert(sleb_enc(x as int) =~= buf@.take(0) + sleb_enc(x as int));
        }
        let mut i: usize = 0;
        if x >= 0 {
            let mut v: u64 = x as u64;
            loop
                invariant
                    buf@.len() == b0.len() >= 10,
                    b0 == old(buf)@,
                    i + sleb_enc(v as int).len() == sleb_enc(x as int).len(),
                    sleb_enc(x as int).len() <= 10,
                    sleb_enc(x as int) == buf@.take(i as int) + sleb_enc(v as int),
                    forall|j: int| i <= j < buf@.len() ==> buf@[j] == b0[j],
                decreases v,
            {
                proof {
                    lemma_sleb_enc_shape(v as int);
                }
                let ghost bprev = buf@;
                if v < 64 {
                    buf.set(i, v as u8);
                    proof {
                        assert(sleb_enc(v as int) =~= seq![v as u8]);
                        assert(buf@.take(i as int + 1) =~= bprev.take(i as int).push(v as u8));
                        assert(sleb_enc(x as int) =~= buf@.take(i as int + 1));
                        assert(buf@ =~= sleb_enc(x as int) + b0.skip(i as int + 1));
                    }
                    return i + 1;
                }
                let b: u8 = (v % 128) as u8 + 128;
                buf.set(i, b);
                proof {
                    assert(sleb_enc(v as int) == seq![b] + sleb_enc(v as int / 128));
                    assert(v as int / 128 == (v / 128) as int);
                    assert(buf@.take(i as int + 1) =~= bprev.take(i as int).push(b));
                    assert(sleb_enc(x as int) =~= buf@.take(i as int + 1) + sleb_enc(
                        (v / 128) as int,
                    ));
                }
                v = v / 128;
                i = i + 1;
            }
        } else {
            let mut y: u64 = (-(x + 1)) as u64;
            proof {
                assert(-1 - y as int == x as int);
            }
            loop
                invariant
                    buf@.len() == b0.len() >= 10,
                    b0 == old(buf)@,
                    y <= 0x7fffffffffffffff,
                    i + sleb_enc(-1 - y as int).len() == sleb_enc(x as int).len(),
                    sleb_enc(x as int).len() <= 10,
                    sleb_enc(x as int) == buf@.take(i as int) + sleb_enc(-1 - y as int),
                    forall|j: int| i <= j < buf@.len() ==> buf@[j] == b0[j],
                decreases y,
            {
                let ghost cur: int = -1 - y as int;
                proof {
                    lemma_sleb_enc_shape(cur);
                }
                let ghost bprev = buf@;
                if y < 64 {
                    let b: u8 = 127 - (y as u8);
                    buf.set(i, b);
                    proof {
                        assert(cur % 128 == 127 - y);
                        assert(sleb_enc(cur) =~= seq![b]);
                        assert(buf@.take(i as int + 1) =~= bprev.take(i as int).push(b));
                        assert(sleb_enc(x as int) =~= buf@.take(i as int + 1));
                        assert(buf@ =~= sleb_enc(x as int) + b0.skip(i as int + 1));
                    }
                    return i + 1;
                }
                let r: u64 = y % 128;
                let b: u8 = 255 - (r as u8);
                buf.set(i, b);
                proof {
                    vstd::arithmetic::div_mod::lemma_fundamental_div_mod(y as int, 128);
                    vstd::arithmetic::div_mod::lemma_fundamental_div_mod_converse(
                        cur,
                        128,
                        -1 - (y as int) / 128,
                        127 - (y as int) % 128,
                    );
                    assert(cur % 128 == 127 - r);
                    assert(cur / 128 == -1 - (y / 128) as int);
                    assert(sleb_enc(cur) == seq![b] + sleb_enc(-1 - (y / 128) as int));
                    assert(buf@.take(i as int + 1) =~= bprev.take(i as int).push(b));
                    assert(sleb_enc(x as int) =~= buf@.take(i as int + 1) + sleb_enc(
                        -1 - (y / 128) as int,
                    ));
                }
                y = y / 128;
                i = i + 1;
            }
        }
    }
}

impl ReadBinary for Binary {
    fn vu64(buf: &[u8]) -> (r: (u64, i32)) {
        let mut rd = SliceReader::new(buf);
        Self::read_vu64(&mut rd)
    }

    fn vi64(buf: &[u8]) -> (r: (i64, i32)) {
        let p = Self::vu64(buf);
        let half: i64 = (p.0 / 2) as i64;
        let v: i64 = if p.0 % 2 == 1 {
            -half - 1
        } else {
            half
        };
        proof {
            assert(v == unzigzag(p.0));
        }
        (v, p.1)
    }

    fn read_vu64<T: ReadU8>(t: &mut T) -> (r: (u64, i32)) {
        let ghost s0 = t.bytes();
        let mut x: u64 = 0;
        let mut pow: u64 = 1;
        let mut i: usize = 0;
        proof {
            assert(s0.take(0) =~= Seq::<u8>::empty());
        }
        loop
            invariant
                s0 == old(t).bytes(),
                i <= 10,
                i <= s0.len(),
                t.bytes() == s0.skip(i as int),
                forall|j: int| 0 <= j < i ==> s0[j] >= 128,
                i <= 9 ==> pow == pow128(i as nat) && x == le7_val(s0.take(i as int)) && x < pow,
                vu64_scan(s0, i as nat) == vu64_scan(s0, 0),
            decreases s0.len() - i,
        {
            let rr = t.read_u8();
            match rr {
                Err(_) => {
                    proof {
                        assert(s0.skip(i as int).len() == 0);
                        assert(i == s0.len());
                        assert(vu64_scan(s0, i as nat) == ((0u64, 0i32), i as int));
                    }
                    return (0, 0);
                },
                Ok(b) => {
                    proof {
                        assert(i < s0.len());
                        assert(b == s0[i as int]);
                        assert(t.bytes() =~= s0.skip(i as int + 1));
                    }
                    if i == 10 {
                        proof {
                            assert(vu64_scan(s0, 10) == ((0u64, -11i32), 11int));
                        }
                        return (0, -11);
                    }
                    proof {
                        lemma_pow128_vals();
                        if i < 9 {
                            lemma_pow128_mono((i + 1) as nat, 9);
                        }
                        lemma_take_push(s0, i as int);
                        lemma_le7_val_push(s0.take(i as int), b);
                        assert(s0.take(i as int).len() == i);
                    }
                    if b < 128 {
                        if i == 9 {
                            if b > 1 {
                                return (0, -10);
                            }
                            let r0: u64 = x + (b as u64) * pow;
                            proof {
                                assert(le7_val(s0.take(i as int + 1)) == x + (b as u64) * pow);
                            }
                            return (r0, 10);
                        }
                        proof {
                            let p: nat = pow128(i as nat);
                            assert(pow128((i + 1) as nat) == 128 * p);
                            assert(x + (b as u64) * p < 128 * p) by (nonlinear_arith)
                                requires
                                    x < p,
                                    b < 128,
                            ;
                            assert(le7_val(s0.take(i as int + 1)) == x + (b as u64) * pow);
                        }
                        let r0: u64 = x + (b as u64) * pow;
                        return (r0, i as i32 + 1);
                    }
                    if i < 9 {
                        proof {
                            let p: nat = pow128(i as nat);
                            assert(pow128((i + 1) as nat) == 128 * p);
                            let bb: u64 = (b - 128) as u64;
                            assert(x + bb * p < 128 * p) by (nonlinear_arith)
                                requires
                                    x < p,
                                    bb < 128,
                            ;
                            assert(le7_val(s0.take(i as int + 1)) == x + ((b - 128) as u64) * pow);
                        }
                        x = x + (b - 128) as u64 * pow;
                        pow = pow * 128;
                    }
                    i = i + 1;
                },
            }
        }
    }

    fn read_vi64<T: ReadU8>(t: &mut T) -> (r: (i64, i32)) {
        let p = Self::read_vu64(t);
        let half: i64 = (p.0 / 2) as i64;
        let v: i64 = if p.0 % 2 == 1 {
            -half - 1
        } else {
            half
        };
        proof {
            assert(v == unzigzag(p.0));
        }
        (v, p.1)
    }

    fn read_leb128_i64<T: ReadU8>(t: &mut T) -> (r: Result<i64, Leb128Error>) {
        let ghost s0 = t.bytes();
        let mut x: u64 = 0;
        let mut pow: u64 = 1;
        let mut i: usize = 0;
        proof {
            assert(s0.take(0) =~= Seq::<u8>::empty());
        }
        loop
            invariant
                s0 == old(t).bytes(),
                i <= 9,
                i <= s0.len(),
                t.bytes() == s0.skip(i as int),
                forall|j: int| 0 <= j < i ==> s0[j] >= 128,
                pow == pow128(i as nat),
                x == le7_val(s0.take(i as int)),
                x < pow,
                sleb_scan(s0, i as nat) == sleb_scan(s0, 0),
            decreases s0.len() - i,
        {
            let rr = t.read_u8();
            match rr {
                Err(_) => {
                    proof {
                        assert(s0.skip(i as int).len() == 0);
                        assert(i == s0.len());
                    }
                    return Err(Leb128Error::SourceExhausted);
                },
                Ok(b) => {
                    proof {
                        assert(i < s0.len());
                        assert(b == s0[i as int]);
                        assert(t.bytes() =~= s0.skip(i as int + 1));
                        lemma_pow128_vals();
                        if i < 9 {
                            lemma_pow128_mono((i + 1) as nat, 9);
                        }
                        lemma_take_push(s0, i as int);
                        lemma_le7_val_push(s0.take(i as int), b);
                        assert(s0.take(i as int).len() == i);
                    }
                    if i == 9 {
                        if b == 0 {
                            proof {
                                assert(s0.take(10).len() == 10);
                                assert(le7_val(s0.take(10)) == x);
                                assert(sleb_val(s0.take(10)) == x);
                            }
                            return Ok(x as i64);
                        }
                        if b == 127 {
                            let r0: i64 = -((0x7fffffffffffffffu64 - x) as i64) - 1;
                            proof {
                                assert(s0.take(10).len() == 10);
                                assert(le7_val(s0.take(10)) == x + 127 * 0x8000000000000000);
                                assert(sleb_val(s0.take(10)) == x - 0x8000000000000000);
                            }
                            return Ok(r0);
                        }
                        return Err(Leb128Error::InvalidEncoding);
                    }
                    if b < 128 {
                        proof {
                            let p: nat = pow128(i as nat);
                            assert(pow128((i + 1) as nat) == 128 * p);
                            assert(x + (b as u64) * p < 128 * p) by (nonlinear_arith)
                                requires
                                    x < p,
                                    b < 128,
                            ;
                        }
                        let m: u64 = x + (b as u64) * pow;
                        let bound: u64 = pow * 128;
                        proof {
                            let p: nat = pow128(i as nat);
                            assert(s0.take(i as int + 1).len() == i + 1);
                            assert(le7_val(s0.take(i as int + 1)) == m);
                            assert(b >= 64 ==> 2 * (x + (b as u64) * p) >= 128 * p)
                                by (nonlinear_arith)
                                requires
                                    x < p,
                                    p >= 1,
                            ;
                            assert(b < 64 ==> 2 * (x + (b as u64) * p) < 128 * p)
                                by (nonlinear_arith)
                                requires
                                    x < p,
                                    p >= 1,
                            ;
                            assert(b >= 64 ==> (bound - m) as u64 <= 64 * p) by (nonlinear_arith)
                                requires
                                    x < p,
                                    b < 128,
                                    m == x + (b as u64) * p,
                                    bound == 128 * p,
                            ;
                            assert(64 * p <= 0x4000000000000000);
                        }
                        if b >= 64 {
                            proof {
                                assert(sleb_val(s0.take(i as int + 1)) == m - bound);
                            }
                            return Ok(-((bound - m) as i64));
                        }
                        proof {
                            assert(sleb_val(s0.take(i as int + 1)) == m as int);
                        }
                        return Ok(m as i64);
                    }
                    proof {
                        let p: nat = pow128(i as nat);
                        assert(pow128((i + 1) as nat) == 128 * p);
                        let bb: u64 = (b - 128) as u64;
                        assert(x + bb * p < 128 * p) by (nonlinear_arith)
                            requires
                                x < p,
                                bb < 128,
                        ;
                        assert(le7_val(s0.take(i as int + 1)) == x + ((b - 128) as u64) * pow);
                    }
                    x = x + (b - 128) as u64 * pow;
                    pow = pow * 128;
                    i = i + 1;
                },
            }
        }
    }

    fn read_leb128_u64<T: ReadU8>(t: &mut T) -> (r: Result<u64, Leb128Error>) {
        let ghost s0 = t.bytes();
        let mut x: u64 = 0;
        let mut pow: u64 = 1;
        let mut i: usize = 0;
        proof {
            assert(s0.take(0) =~= Seq::<u8>::empty());
        }
        loop
            invariant
                s0 == old(t).bytes(),
                i <= 9,
                i <= s0.len(),
                t.bytes() == s0.skip(i as int),
                forall|j: int| 0 <= j < i ==> s0[j] >= 128,
                pow == pow128(i as nat),
                x == le7_val(s0.take(i as int)),
                x < pow,
                uleb_scan(s0, i as nat) == uleb_scan(s0, 0),
            decreases s0.len() - i,
        {
            let rr = t.read_u8();
            match rr {
                Err(_) => {
                    proof {
                        assert(s0.skip(i as int).len() == 0);
                        assert(i == s0.len());
                    }
                    return Err(Leb128Error::SourceExhausted);
                },
                Ok(b) => {
                    proof {
                        assert(i < s0.len());
                        assert(b == s0[i as int]);
                        assert(t.bytes() =~= s0.skip(i as int + 1));
                        lemma_pow128_vals();
                        if i < 9 {
                            lemma_pow128_mono((i + 1) as nat, 9);
                        }
                        lemma_take_push(s0, i as int);
                        lemma_le7_val_push(s0.take(i as int), b);
                        assert(s0.take(i as int).len() == i);
                    }
                    if i == 9 {
                        if b >= 2 {
                            return Err(Leb128Error::InvalidEncoding);
                        }
                        let r0: u64 = x + (b as u64) * pow;
                        proof {
                            assert(s0.take(10).len() == 10);
                            assert(le7_val(s0.take(10)) == x + (b as u64) * pow);
                        }
                        return Ok(r0);
                    }
                    if b < 128 {
                        proof {
                            let p: nat = pow128(i as nat);
                            assert(pow128((i + 1) as nat) == 128 * p);
                            assert(x + (b as u64) * p < 128 * p) by (nonlinear_arith)
                                requires
                                    x < p,
                                    b < 128,
                            ;
                            assert(le7_val(s0.take(i as int + 1)) == x + (b as u64) * pow);
                        }
                        let r0: u64 = x + (b as u64) * pow;
                        return Ok(r0);
                    }
                    proof {
                        let p: nat = pow128(i as nat);
                        assert(pow128((i + 1) as nat) == 128 * p);
                        let bb: u64 = (b - 128) as u64;
                        assert(x + bb * p < 128 * p) by (nonlinear_arith)
                            requires
                                x < p,
                                bb < 128,
                        ;
                        assert(le7_val(s0.take(i as int + 1)) == x + ((b - 128) as u64) * pow);
                    }
                    x = x + (b - 128) as u64 * pow;
                    pow = pow * 128;
                    i = i + 1;
                },
            }
        }
    }
}

} // verus!
