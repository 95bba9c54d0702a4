//! The laws the codec obeys: round trips, length behaviour, truncation
//! and overflow outcomes, and the zig-zag bijection.
use vstd::prelude::*;

use crate::errors::Leb128Error;
use crate::model::le7_val;
use crate::model::lemma_le7_val_enc;
use crate::model::lemma_pow128_vals;
use crate::model::lemma_sleb_enc_len_le;
use crate::model::lemma_sleb_enc_shape;
use crate::model::lemma_sleb_scan_cont;
use crate::model::lemma_sleb_scan_enc;
use crate::model::lemma_uleb_scan_cont;
use crate::model::lemma_uleb_scan_enc;
use crate::model::lemma_vu64_enc_len;
use crate::model::lemma_vu64_enc_len_ge;
use crate::model::lemma_vu64_enc_len_le;
use crate::model::lemma_vu64_enc_shape;
use crate::model::lemma_vu64_scan_cont;
use crate::model::lemma_vu64_scan_enc;
use crate::model::pow128;
use crate::model::sleb_dec;
use crate::model::sleb_enc;
use crate::model::sleb_used;
use crate::model::uleb_dec;
use crate::model::uleb_used;
use crate::model::unzigzag;
use crate::model::vi64_dec;
use crate::model::vu64_dec;
use crate::model::vu64_enc;
use crate::model::vu64_used;
use crate::model::zigzag;

verus! {

/// Round trip: the varint decoder, run on the encoding of any `u64`
/// value followed by anything at all, returns that value and the
/// encoded length, which is between one and ten bytes.
pub proof fn lemma_vu64_round_trip(x: u64, rest: Seq<u8>)
    ensures
        1 <= vu64_enc(x).len() <= 10,
        vu64_dec(vu64_enc(x) + rest) == (x, vu64_enc(x).len() as i32),
        vu64_used(vu64_enc(x) + rest) == vu64_enc(x).len(),
{
    let s = vu64_enc(x) + rest;
    lemma_vu64_enc_len(x);
    lemma_pow128_vals();
    assert(s.take(0) =~= Seq::<u8>::empty());
    assert(le7_val(Seq::<u8>::empty()) == 0);
    assert(s.subrange(0, vu64_enc(x).len() as int) =~= vu64_enc(x));
    lemma_vu64_scan_enc(x, s, 0);
}

/// Round trip for the zig-zag map alone: it is undone by its inverse.
pub proof fn lemma_zigzag_round_trip(x: i64)
    ensures
        unzigzag(zigzag(x)) == x,
{
}

/// The inverse zig-zag map is also undone by the zig-zag map.
pub proof fn lemma_unzigzag_round_trip(u: u64)
    ensures
        zigzag(unzigzag(u)) == u,
{
}

/// Distinct signed values never collide in the zig-zag-mapped unsigned
/// domain, so their varint encodings differ too.
pub proof fn lemma_zigzag_injective(x: i64, y: i64)
    requires
        x != y,
    ensures
        zigzag(x) != zigzag(y),
        vu64_enc(zigzag(x)) != vu64_enc(zigzag(y)),
{
    lemma_zigzag_round_trip(x);
    lemma_zigzag_round_trip(y);
    lemma_le7_val_enc(zigzag(x));
    lemma_le7_val_enc(zigzag(y));
}

/// In particular, `x` and `-x - 1` map to different unsigned values.
pub proof fn lemma_zigzag_no_collision(x: i64)
    ensures
        zigzag(x) != zigzag((-1 - x) as i64),
{
    lemma_zigzag_injective(x, (-1 - x) as i64);
}

/// Round trip: the signed varint decoder, run on the encoding of any
/// `i64` value followed by anything at all, returns that value and the
/// encoded length.
pub proof fn lemma_vi64_round_trip(x: i64, rest: Seq<u8>)
    ensures
        1 <= vu64_enc(zigzag(x)).len() <= 10,
        vi64_dec(vu64_enc(zigzag(x)) + rest) == (x, vu64_enc(zigzag(x)).len() as i32),
        vu64_used(vu64_enc(zigzag(x)) + rest) == vu64_enc(zigzag(x)).len(),
{
    lemma_vu64_round_trip(zigzag(x), rest);
    lemma_zigzag_round_trip(x);
}

/// Round trip: the unsigned LEB128 decoder, run on the encoding of any
/// `u64` value followed by anything at all, returns that value after
/// consuming exactly the encoded bytes.
pub proof fn lemma_uleb_round_trip(x: u64, rest: Seq<u8>)
    ensures
        1 <= vu64_enc(x).len() <= 10,
        uleb_dec(vu64_enc(x) + rest) == Ok::<u64, Leb128Error>(x),
        uleb_used(vu64_enc(x) + rest) == vu64_enc(x).len(),
{
    let s = vu64_enc(x) + rest;
    lemma_vu64_enc_len(x);
    lemma_pow128_vals();
    assert(s.take(0) =~= Seq::<u8>::empty());
    assert(le7_val(Seq::<u8>::empty()) == 0);
    assert(s.subrange(0, vu64_enc(x).len() as int) =~= vu64_enc(x));
    lemma_uleb_scan_enc(x, s, 0);
}

/// Any `i64` value fits in ten signed groups.
pub proof fn lemma_sleb_enc_len(x: i64)
    ensures
        1 <= sleb_enc(x as int).len() <= 10,
{
    lemma_pow128_vals();
    lemma_sleb_enc_len_le(x as int, 10);
    lemma_sleb_enc_shape(x as int);
}

/// Round trip: the signed LEB128 decoder, run on the encoding of any
/// `i64` value followed by anything at all, returns that value after
/// consuming exactly the encoded bytes.
pub proof fn lemma_sleb_round_trip(x: i64, rest: Seq<u8>)
    ensures
        1 <= sleb_enc(x as int).len() <= 10,
        sleb_dec(sleb_enc(x as int) + rest) == Ok::<i64, Leb128Error>(x),
        sleb_used(sleb_enc(x as int) + rest) == sleb_enc(x as int).len(),
{
    let s = sleb_enc(x as int) + rest;
    lemma_sleb_enc_len(x);
    lemma_pow128_vals();
    assert(s.take(0) =~= Seq::<u8>::empty());
    assert(le7_val(Seq::<u8>::empty()) == 0);
    assert(s.subrange(0, sleb_enc(x as int).len() as int) =~= sleb_enc(x as int));
    lemma_sleb_scan_enc(x as int, s, 0);
}

/// The varint length of a value never shrinks as the value grows.
pub proof fn lemma_vu64_len_monotone(x: u64, y: u64)
    requires
        x <= y,
    ensures
        vu64_enc(x).len() <= vu64_enc(y).len(),
    decreases y,
{
    lemma_vu64_enc_shape(y);
    if x >= 128 {
        vstd::arithmetic::div_mod::lemma_div_is_ordered(x as int, y as int, 128);
        lemma_vu64_len_monotone(x / 128, y / 128);
    }
}

/// A value between two neighbouring weights takes exactly one group per
/// seven bits: `n + 1` groups when `128^n <= x < 128^(n+1)`.
pub proof fn lemma_vu64_len_groups(x: u64, n: nat)
    requires
        pow128(n) <= x < pow128(n + 1),
    ensures
        vu64_enc(x).len() == n + 1,
{
    lemma_vu64_enc_len_le(x, n + 1);
    lemma_vu64_enc_len_ge(x, n);
}

/// Zero encodes to the single zero byte in both families.
pub proof fn lemma_enc_zero()
    ensures
        vu64_enc(0) == seq![0u8],
        sleb_enc(0) == seq![0u8],
{
    assert(vu64_enc(0) =~= seq![0u8]);
    assert(sleb_enc(0) =~= seq![0u8]);
}

/// Truncation: on any strict prefix of a varint encoding the decoder
/// reports a buffer too small, consuming the whole prefix.
pub proof fn lemma_vu64_truncation(x: u64, n: int)
    requires
        0 <= n < vu64_enc(x).len(),
    ensures
        vu64_dec(vu64_enc(x).take(n)) == (0u64, 0i32),
        vu64_used(vu64_enc(x).take(n)) == n,
{
    lemma_vu64_enc_len(x);
    lemma_vu64_enc_shape(x);
    lemma_vu64_scan_cont(vu64_enc(x).take(n), n as nat);
}

/// Truncation: on any strict prefix of an unsigned LEB128 encoding the
/// decoder reports the source exhausted.
pub proof fn lemma_uleb_truncation(x: u64, n: int)
    requires
        0 <= n < vu64_enc(x).len(),
    ensures
        uleb_dec(vu64_enc(x).take(n)) == Err::<u64, Leb128Error>(Leb128Error::SourceExhausted),
        uleb_used(vu64_enc(x).take(n)) == n,
{
    lemma_vu64_enc_len(x);
    lemma_vu64_enc_shape(x);
    lemma_uleb_scan_cont(vu64_enc(x).take(n), n as nat);
}

/// Truncation: on any strict prefix of a signed LEB128 encoding the
/// decoder reports the source exhausted.
pub proof fn lemma_sleb_truncation(x: i64, n: int)
    requires
        0 <= n < sleb_enc(x as int).len(),
    ensures
        sleb_dec(sleb_enc(x as int).take(n)) == Err::<i64, Leb128Error>(
            Leb128Error::SourceExhausted,
        ),
        sleb_used(sleb_enc(x as int).take(n)) == n,
{
    lemma_sleb_enc_len(x);
    lemma_sleb_enc_shape(x as int);
    lemma_sleb_scan_cont(sleb_enc(x as int).take(n), n as nat);
}

/// Overflow: ten leading groups with the continuation bit set drive the
/// varint decoder to read an eleventh byte and report minus eleven.
pub proof fn lemma_vu64_overflow(s: Seq<u8>)
    requires
        s.len() >= 11,
        forall|j: int| 0 <= j < 10 ==> s[j] >= 128,
    ensures
        vu64_dec(s) == (0u64, -11i32),
        vu64_used(s) == 11,
{
    lemma_vu64_scan_cont(s, 10);
}

/// Overflow: a tenth group with a payload past one makes the varint
/// decoder report minus ten.
pub proof fn lemma_vu64_overflow_last(s: Seq<u8>)
    requires
        s.len() >= 10,
        forall|j: int| 0 <= j < 9 ==> s[j] >= 128,
        s[9] < 128,
        s[9] > 1,
    ensures
        vu64_dec(s) == (0u64, -10i32),
        vu64_used(s) == 10,
{
    lemma_vu64_scan_cont(s, 9);
}

/// Overflow: a tenth byte holding anything past its lowest bit makes
/// the unsigned LEB128 decoder report an invalid encoding.
pub proof fn lemma_uleb_overflow(s: Seq<u8>)
    requires
        s.len() >= 10,
        forall|j: int| 0 <= j < 9 ==> s[j] >= 128,
        s[9] >= 2,
    ensures
        uleb_dec(s) == Err::<u64, Leb128Error>(Leb128Error::InvalidEncoding),
        uleb_used(s) == 10,
{
    lemma_uleb_scan_cont(s, 9);
}

/// Overflow: a tenth byte whose payload bits do not all repeat its sign
/// makes the signed LEB128 decoder report an invalid encoding.
pub proof fn lemma_sleb_overflow(s: Seq<u8>)
    requires
        s.len() >= 10,
        forall|j: int| 0 <= j < 9 ==> s[j] >= 128,
        s[9] != 0,
        s[9] != 127,
    ensures
        sleb_dec(s) == Err::<i64, Leb128Error>(Leb128Error::InvalidEncoding),
        sleb_used(s) == 10,
{
    lemma_sleb_scan_cont(s, 9);
}

} // verus!
