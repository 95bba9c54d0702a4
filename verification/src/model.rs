//! The mathematical model of both wire formats: what a byte sequence
//! encodes and what a decoder makes of an arbitrary byte sequence.
use vstd::prelude::*;

use crate::errors::Leb128Error;

verus! {

/// 128 to the n-th power: the weight of the n-th base-128 group.
pub open spec fn pow128(n: nat) -> nat
    decreases n,
{
    if n == 0 {
        1
    } else {
        128 * pow128((n - 1) as nat)
    }
}

/// The value held by the low seven bits of each byte of `s`,
/// least-significant group first.
pub open spec fn le7_val(s: Seq<u8>) -> nat
    decreases s.len(),
{
    if s.len() == 0 {
        0
    } else {
        (s[0] % 128) as nat + 128 * le7_val(s.drop_first())
    }
}

/// The base-128 groups of `x`, low group first, with the continuation
/// bit set on every group but the last.  This is at once the varint
/// form and the unsigned LEB128 form of `x`.
pub open spec fn vu64_enc(x: u64) -> Seq<u8>
    decreases x,
{
    if x < 128 {
        seq![x as u8]
    } else {
        seq![(x % 128 + 128) as u8] + vu64_enc((x / 128) as u64)
    }
}

/// The zig-zag image of `x`: non-negative values map to the even
/// numbers, negative ones to the odd numbers.
pub open spec fn zigzag(x: i64) -> u64 {
    if x >= 0 {
        (2 * x) as u64
    } else {
        (-2 * x - 1) as u64
    }
}

/// The inverse of the zig-zag map.
pub open spec fn unzigzag(u: u64) -> i64 {
    if u % 2 == 0 {
        (u / 2) as i64
    } else {
        (-1 - u / 2) as i64
    }
}

/// The signed LEB128 groups of `x`, low group first: seven bits of the
/// two's complement of `x` per group, stopping once the remaining value
/// is wholly told by the last group's top payload bit.
pub open spec fn sleb_enc(x: int) -> Seq<u8>
    decreases (if x >= 0 { x } else { -x }),
{
    if -64 <= x < 64 {
        seq![(x % 128) as u8]
    } else {
        seq![(x % 128 + 128) as u8] + sleb_enc(x / 128)
    }
}

/// The signed value of a whole group sequence: its base-128 value,
/// sign-extended from the top payload bit of the last group.
pub open spec fn sleb_val(s: Seq<u8>) -> int {
    if 2 * le7_val(s) >= pow128(s.len()) {
        le7_val(s) - pow128(s.len())
    } else {
        le7_val(s) as int
    }
}

/// One step of the varint decoder: `i` groups with the continuation bit
/// set have been consumed from `s`.  Yields the decoded pair and the
/// number of bytes consumed.
pub open spec fn vu64_scan(s: Seq<u8>, i: nat) -> ((u64, i32), int)
    decreases s.len() - i,
{
    if i >= s.len() {
        ((0u64, 0i32), i as int)
    } else if i >= 10 {
        ((0u64, -11i32), 11)
    } else if s[i as int] < 128 {
        if i == 9 && s[i as int] > 1 {
            ((0u64, -10i32), 10)
        } else {
            ((le7_val(s.take(i as int + 1)) as u64, (i + 1) as i32), i as int + 1)
        }
    } else {
        vu64_scan(s, i + 1)
    }
}

/// What the varint decoder returns on `s`: the value and a byte count,
/// `0` for a truncated buffer and negative on overflow.
pub open spec fn vu64_dec(s: Seq<u8>) -> (u64, i32) {
    vu64_scan(s, 0).0
}

/// How many bytes the varint decoder consumes from `s`.
pub open spec fn vu64_used(s: Seq<u8>) -> int {
    vu64_scan(s, 0).1
}

/// What the signed varint decoder returns on `s`: the unsigned decode
/// put through the inverse zig-zag map, the count unchanged.
pub open spec fn vi64_dec(s: Seq<u8>) -> (i64, i32) {
    (unzigzag(vu64_dec(s).0), vu64_dec(s).1)
}

/// One step of the unsigned LEB128 decoder on `s` after `i` groups with
/// the continuation bit set.  The tenth group may carry nothing beyond
/// its lowest bit.
pub open spec fn uleb_scan(s: Seq<u8>, i: nat) -> (Result<u64, Leb128Error>, int)
    decreases s.len() - i,
{
    if i >= s.len() {
        (Err(Leb128Error::SourceExhausted), i as int)
    } else if i == 9 {
        if s[9] >= 2 {
            (Err(Leb128Error::InvalidEncoding), 10)
        } else {
            (Ok(le7_val(s.take(10)) as u64), 10)
        }
    } else if s[i as int] < 128 {
        (Ok(le7_val(s.take(i as int + 1)) as u64), i as int + 1)
    } else {
        uleb_scan(s, i + 1)
    }
}

/// What the unsigned LEB128 decoder returns on `s`.
pub open spec fn uleb_dec(s: Seq<u8>) -> Result<u64, Leb128Error> {
    uleb_scan(s, 0).0
}

/// How many bytes the unsigned LEB128 decoder consumes from `s`.
pub open spec fn uleb_used(s: Seq<u8>) -> int {
    uleb_scan(s, 0).1
}

/// One step of the signed LEB128 decoder on `s` after `i` groups with
/// the continuation bit set.  The tenth group must repeat the sign bit
/// in all of its payload bits.
pub open spec fn sleb_scan(s: Seq<u8>, i: nat) -> (Result<i64, Leb128Error>, int)
    decreases s.len() - i,
{
    if i >= s.len() {
        (Err(Leb128Error::SourceExhausted), i as int)
    } else if i == 9 {
        if s[9] == 0 || s[9] == 127 {
            (Ok(sleb_val(s.take(10)) as i64), 10)
        } else {
            (Err(Leb128Error::InvalidEncoding), 10)
        }
    } else if s[i as int] < 128 {
        (Ok(sleb_val(s.take(i as int + 1)) as i64), i as int + 1)
    } else {
        sleb_scan(s, i + 1)
    }
}

/// What the signed LEB128 decoder returns on `s`.
pub open spec fn sleb_dec(s: Seq<u8>) -> Result<i64, Leb128Error> {
    sleb_scan(s, 0).0
}

/// How many bytes the signed LEB128 decoder consumes from `s`.
pub open spec fn sleb_used(s: Seq<u8>) -> int {
    sleb_scan(s, 0).1
}

/// Powers of 128 are positive.
pub proof fn lemma_pow128_pos(n: nat)
    ensures
        pow128(n) >= 1,
    decreases n,
{
    if n > 0 {
        lemma_pow128_pos((n - 1) as nat);
    }
}

/// The group weights the decoders meet, as plain numbers.
pub proof fn lemma_pow128_vals()
    ensures
        pow128(0) == 1,
        pow128(1) == 128,
        pow128(9) == 0x8000000000000000,
        pow128(10) == 0x400000000000000000,
{
    reveal_with_fuel(pow128, 11);
}

/// Powers of 128 do not decrease.
pub proof fn lemma_pow128_mono(i: nat, j: nat)
    requires
        i <= j,
    ensures
        pow128(i) <= pow128(j),
    decreases j,
{
    if i < j {
        lemma_pow128_mono(i, (j - 1) as nat);
        lemma_pow128_pos((j - 1) as nat);
    }
}

/// Taking one element more is pushing it on the shorter take.
pub proof fn lemma_take_push(s: Seq<u8>, i: int)
    requires
        0 <= i < s.len(),
    ensures
        s.take(i + 1) == s.take(i).push(s[i]),
{
    assert(s.take(i + 1) =~= s.take(i).push(s[i]));
}

/// A group pushed at the high end adds its payload at that group's weight.
pub proof fn lemma_le7_val_push(s: Seq<u8>, b: u8)
    ensures
        le7_val(s.push(b)) == le7_val(s) + (b % 128) * pow128(s.len()),
    decreases s.len(),
{
    if s.len() == 0 {
        assert(s.push(b).drop_first() =~= Seq::<u8>::empty());
        assert(s.push(b)[0] == b);
        assert(le7_val(Seq::<u8>::empty()) == 0);
        assert(le7_val(s.push(b)) == (b % 128) as nat);
        assert(le7_val(s) == 0);
        assert(pow128(s.len()) == 1);
    } else {
        assert(s.push(b).drop_first() =~= s.drop_first().push(b));
        assert(s.push(b)[0] == s[0]);
        lemma_le7_val_push(s.drop_first(), b);
        let p: nat = pow128((s.len() - 1) as nat);
        assert(pow128(s.len()) == 128 * p);
        assert(le7_val(s.push(b)) == (s[0] % 128) as nat + 128 * le7_val(s.drop_first().push(b)));
        assert(le7_val(s.drop_first().push(b)) == le7_val(s.drop_first()) + (b % 128) * p);
        assert(128 * (le7_val(s.drop_first()) + (b % 128) * p) == 128 * le7_val(s.drop_first())
            + (b % 128) * (128 * p)) by (nonlinear_arith);
        assert(le7_val(s) == (s[0] % 128) as nat + 128 * le7_val(s.drop_first()));
    }
}

/// A group sequence holds less than the weight just past its last group.
pub proof fn lemma_le7_val_bound(s: Seq<u8>)
    ensures
        le7_val(s) < pow128(s.len()),
    decreases s.len(),
{
    if s.len() > 0 {
        lemma_le7_val_bound(s.drop_first());
        let p: nat = pow128((s.len() - 1) as nat);
        assert(128 * le7_val(s.drop_first()) <= 128 * (p - 1)) by (nonlinear_arith)
            requires
                le7_val(s.drop_first()) <= p - 1,
        ;
    }
}

/// Every group of an encoding carries the continuation bit but the last.
pub proof fn lemma_vu64_enc_shape(x: u64)
    ensures
        1 <= vu64_enc(x).len(),
        forall|j: int| 0 <= j < vu64_enc(x).len() - 1 ==> vu64_enc(x)[j] >= 128,
        vu64_enc(x)[vu64_enc(x).len() - 1] < 128,
    decreases x,
{
    if x >= 128 {
        lemma_vu64_enc_shape((x / 128) as u64);
    }
}

/// The groups of an encoding hold the encoded value.
pub proof fn lemma_le7_val_enc(x: u64)
    ensures
        le7_val(vu64_enc(x)) == x,
    decreases x,
{
    if x < 128 {
        assert(vu64_enc(x).drop_first() =~= Seq::<u8>::empty());
        assert(vu64_enc(x)[0] == x as u8);
        assert(le7_val(Seq::<u8>::empty()) == 0);
    } else {
        let b0: u8 = (x % 128 + 128) as u8;
        let t = vu64_enc((x / 128) as u64);
        assert((seq![b0] + t).drop_first() =~= t);
        assert((seq![b0] + t)[0] == b0);
        lemma_le7_val_enc((x / 128) as u64);
        assert(x == 128 * (x / 128) + (x % 128)) by {
            vstd::arithmetic::div_mod::lemma_fundamental_div_mod(x as int, 128);
        };
    }
}

/// A value below the n-th weight needs at most n groups.
pub proof fn lemma_vu64_enc_len_le(x: u64, n: nat)
    requires
        1 <= n,
        x < pow128(n),
    ensures
        vu64_enc(x).len() <= n,
    decreases x,
{
    if x >= 128 {
        lemma_pow128_vals();
        if n == 1 {
            assert(false);
        } else {
            vstd::arithmetic::div_mod::lemma_multiply_divide_lt(
                x as int,
                128,
                pow128((n - 1) as nat) as int,
            );
            lemma_vu64_enc_len_le((x / 128) as u64, (n - 1) as nat);
        }
    }
}

/// A value at or past the n-th weight needs more than n groups.
pub proof fn lemma_vu64_enc_len_ge(x: u64, n: nat)
    requires
        pow128(n) <= x,
    ensures
        vu64_enc(x).len() >= n + 1,
    decreases x,
{
    if n > 0 {
        lemma_pow128_vals();
        lemma_pow128_mono(1, n);
        let p: nat = pow128((n - 1) as nat);
        vstd::arithmetic::div_mod::lemma_div_is_ordered(128 * p as int, x as int, 128);
        vstd::arithmetic::div_mod::lemma_div_by_multiple(p as int, 128);
        assert(p * 128 == 128 * p) by (nonlinear_arith);
        lemma_vu64_enc_len_ge((x / 128) as u64, (n - 1) as nat);
    }
}

/// Any 64-bit value fits in ten groups.
pub proof fn lemma_vu64_enc_len(x: u64)
    ensures
        1 <= vu64_enc(x).len() <= 10,
{
    lemma_pow128_vals();
    lemma_vu64_enc_len_le(x, 10);
}

/// The varint scan on a buffer whose groups from position `i` on encode
/// `x` accepts them and adds `x` at the `i`-th weight to what the first
/// `i` groups hold.
pub proof fn lemma_vu64_scan_enc(x: u64, s: Seq<u8>, i: nat)
    requires
        i + vu64_enc(x).len() <= 10,
        i + vu64_enc(x).len() <= s.len(),
        s.subrange(i as int, i + vu64_enc(x).len() as int) == vu64_enc(x),
        le7_val(s.take(i as int)) + x * pow128(i) < 0x10000000000000000,
    ensures
        vu64_scan(s, i) == (((le7_val(s.take(i as int)) + x * pow128(i)) as u64, (i + vu64_enc(
            x,
        ).len()) as i32), (i + vu64_enc(x).len()) as int),
    decreases x,
{
    let e = vu64_enc(x);
    let pre: nat = le7_val(s.take(i as int));
    assert(s.take(i as int).len() == i);
    lemma_le7_val_bound(s.take(i as int));
    lemma_pow128_vals();
    if x < 128 {
        assert(e =~= seq![x as u8]);
        assert(s.subrange(i as int, i as int + 1)[0] == e[0]);
        assert(s[i as int] == x as u8);
        lemma_take_push(s, i as int);
        lemma_le7_val_push(s.take(i as int), x as u8);
        assert(le7_val(s.take(i as int + 1)) == pre + x * pow128(i));
        if i == 9 {
            let p9: nat = pow128(9);
            assert(x <= 1) by (nonlinear_arith)
                requires
                    pre + x * p9 < 0x10000000000000000,
                    p9 == 0x8000000000000000,
            ;
        }
    } else {
        lemma_vu64_enc_shape((x / 128) as u64);
        let b0: u8 = (x % 128 + 128) as u8;
        let e2 = vu64_enc((x / 128) as u64);
        assert(e == seq![b0] + e2);
        assert(s.subrange(i as int, i as int + e.len() as int)[0] == e[0]);
        assert(s[i as int] == b0);
        assert forall|k: int| 0 <= k < e2.len() implies s.subrange(
            i as int + 1,
            i as int + 1 + e2.len() as int,
        )[k] == e2[k] by {
            assert(s.subrange(i as int, i as int + e.len() as int)[1 + k] == e[1 + k]);
        }
        assert(s.subrange(i as int + 1, i as int + 1 + e2.len() as int) =~= e2);
        lemma_take_push(s, i as int);
        lemma_le7_val_push(s.take(i as int), b0);
        let p: nat = pow128(i);
        let q: u64 = x / 128;
        let r: u64 = x % 128;
        assert(b0 % 128 == r);
        assert(pow128(i + 1) == 128 * p);
        assert(le7_val(s.take(i as int + 1)) == pre + r * p);
        assert(x == 128 * q + r) by {
            vstd::arithmetic::div_mod::lemma_fundamental_div_mod(x as int, 128);
        };
        assert((128 * q + r) * p == q * (128 * p) + r * p) by (nonlinear_arith);
        assert(le7_val(s.take(i as int + 1)) + q * pow128(i + 1) == pre + x * p);
        lemma_vu64_scan_enc(q, s, i + 1);
    }
}

/// The unsigned LEB128 scan accepts the same groups and yields the same
/// value as the varint scan would.
pub proof fn lemma_uleb_scan_enc(x: u64, s: Seq<u8>, i: nat)
    requires
        i + vu64_enc(x).len() <= 10,
        i + vu64_enc(x).len() <= s.len(),
        s.subrange(i as int, i + vu64_enc(x).len() as int) == vu64_enc(x),
        le7_val(s.take(i as int)) + x * pow128(i) < 0x10000000000000000,
    ensures
        uleb_scan(s, i) == (Ok::<u64, Leb128Error>(
            (le7_val(s.take(i as int)) + x * pow128(i)) as u64,
        ), (i + vu64_enc(x).len()) as int),
    decreases x,
{
    let e = vu64_enc(x);
    let pre: nat = le7_val(s.take(i as int));
    assert(s.take(i as int).len() == i);
    lemma_le7_val_bound(s.take(i as int));
    lemma_pow128_vals();
    if x < 128 {
        assert(e =~= seq![x as u8]);
        assert(s.subrange(i as int, i as int + 1)[0] == e[0]);
        assert(s[i as int] == x as u8);
        lemma_take_push(s, i as int);
        lemma_le7_val_push(s.take(i as int), x as u8);
        assert(le7_val(s.take(i as int + 1)) == pre + x * pow128(i));
        if i == 9 {
            let p9: nat = pow128(9);
            assert(x <= 1) by (nonlinear_arith)
                requires
                    pre + x * p9 < 0x10000000000000000,
                    p9 == 0x8000000000000000,
            ;
        }
    } else {
        lemma_vu64_enc_shape((x / 128) as u64);
        let b0: u8 = (x % 128 + 128) as u8;
        let e2 = vu64_enc((x / 128) as u64);
        assert(e == seq![b0] + e2);
        assert(s.subrange(i as int, i as int + e.len() as int)[0] == e[0]);
        assert(s[i as int] == b0);
        assert forall|k: int| 0 <= k < e2.len() implies s.subrange(
            i as int + 1,
            i as int + 1 + e2.len() as int,
        )[k] == e2[k] by {
            assert(s.subrange(i as int, i as int + e.len() as int)[1 + k] == e[1 + k]);
        }
        assert(s.subrange(i as int + 1, i as int + 1 + e2.len() as int) =~= e2);
        lemma_take_push(s, i as int);
        lemma_le7_val_push(s.take(i as int), b0);
        let p: nat = pow128(i);
        let q: u64 = x / 128;
        let r: u64 = x % 128;
        assert(b0 % 128 == r);
        assert(pow128(i + 1) == 128 * p);
        assert(le7_val(s.take(i as int + 1)) == pre + r * p);
        assert(x == 128 * q + r) by {
            vstd::arithmetic::div_mod::lemma_fundamental_div_mod(x as int, 128);
        };
        assert((128 * q + r) * p == q * (128 * p) + r * p) by (nonlinear_arith);
        assert(le7_val(s.take(i as int + 1)) + q * pow128(i + 1) == pre + x * p);
        lemma_uleb_scan_enc(q, s, i + 1);
    }
}

/// Every group of a signed encoding carries the continuation bit but
/// the last.
pub proof fn lemma_sleb_enc_shape(x: int)
    ensures
        1 <= sleb_enc(x).len(),
        forall|j: int| 0 <= j < sleb_enc(x).len() - 1 ==> sleb_enc(x)[j] >= 128,
        sleb_enc(x)[sleb_enc(x).len() - 1] < 128,
    decreases (if x >= 0 { x } else { -x }),
{
    if !(-64 <= x < 64) {
        lemma_sleb_enc_shape(x / 128);
    }
}

/// A value whose double fits between plus and minus the n-th weight
/// needs at most n signed groups.
pub proof fn lemma_sleb_enc_len_le(x: int, n: nat)
    requires
        1 <= n,
        -(pow128(n) as int) <= 2 * x < pow128(n),
    ensures
        sleb_enc(x).len() <= n,
    decreases (if x >= 0 { x } else { -x }),
{
    if !(-64 <= x < 64) {
        lemma_pow128_vals();
        if n == 1 {
            assert(false);
        }
        let h: nat = pow128((n - 1) as nat);
        assert(pow128(n) == 128 * h);
        assert(pow128((n - 1) as nat) == 128 * pow128((n - 2) as nat));
        let q: int = x / 128;
        let r: int = x % 128;
        vstd::arithmetic::div_mod::lemma_fundamental_div_mod(x, 128);
        assert(-(h as int) <= 2 * q < h);
        lemma_sleb_enc_len_le(q, (n - 1) as nat);
    }
}

/// The signed LEB128 scan on a buffer whose groups from position `i` on
/// encode `x` accepts them and yields `x` at the `i`-th weight, shifted
/// by what the first `i` groups hold.
pub proof fn lemma_sleb_scan_enc(x: int, s: Seq<u8>, i: nat)
    requires
        i + sleb_enc(x).len() <= 10,
        i + sleb_enc(x).len() <= s.len(),
        s.subrange(i as int, i + sleb_enc(x).len() as int) == sleb_enc(x),
        -0x8000000000000000 <= le7_val(s.take(i as int)) + x * pow128(i) < 0x8000000000000000,
    ensures
        sleb_scan(s, i) == (Ok::<i64, Leb128Error>(
            (le7_val(s.take(i as int)) + x * pow128(i)) as i64,
        ), (i + sleb_enc(x).len()) as int),
    decreases (if x >= 0 { x } else { -x }),
{
    let e = sleb_enc(x);
    let pre: nat = le7_val(s.take(i as int));
    let p: nat = pow128(i);
    assert(s.take(i as int).len() == i);
    lemma_le7_val_bound(s.take(i as int));
    lemma_pow128_vals();
    lemma_pow128_pos(i);
    if -64 <= x < 64 {
        let b0: u8 = (x % 128) as u8;
        assert(e =~= seq![b0]);
        assert(s.subrange(i as int, i as int + 1)[0] == e[0]);
        assert(s[i as int] == b0);
        lemma_take_push(s, i as int);
        lemma_le7_val_push(s.take(i as int), b0);
        assert(pow128(i + 1) == 128 * p);
        let m: nat = le7_val(s.take(i as int + 1));
        if x >= 0 {
            assert(b0 == x);
            assert(m == pre + x * p);
            assert(2 * (pre + x * p) < 128 * p) by (nonlinear_arith)
                requires
                    pre < p,
                    0 <= x < 64,
                    p >= 1,
            ;
            assert(sleb_val(s.take(i as int + 1)) == pre + x * p);
        } else {
            assert(b0 == x + 128);
            assert(m == pre + (x + 128) * p);
            assert(2 * (pre + (x + 128) * p) >= 128 * p && (x + 128) * p == x * p + 128 * p)
                by (nonlinear_arith)
                requires
                    pre >= 0,
                    -64 <= x < 0,
                    p >= 1,
            ;
            assert(sleb_val(s.take(i as int + 1)) == m - pow128(i + 1));
            assert(sleb_val(s.take(i as int + 1)) == pre + x * p);
        }
        if i == 9 {
            let p9: nat = pow128(9);
            assert(-1 <= x <= 0) by (nonlinear_arith)
                requires
                    -0x8000000000000000 <= pre + x * p9 < 0x8000000000000000,
                    p9 == 0x8000000000000000,
                    pre < p9,
            ;
            assert(x == 0 ==> b0 == 0);
            assert(x == -1 ==> b0 == 127);
        }
    } else {
        lemma_sleb_enc_shape(x / 128);
        let b0: u8 = (x % 128 + 128) as u8;
        let e2 = sleb_enc(x / 128);
        assert(e == seq![b0] + e2);
        assert(s.subrange(i as int, i as int + e.len() as int)[0] == e[0]);
        assert(s[i as int] == b0);
        assert forall|k: int| 0 <= k < e2.len() implies s.subrange(
            i as int + 1,
            i as int + 1 + e2.len() as int,
        )[k] == e2[k] by {
            assert(s.subrange(i as int, i as int + e.len() as int)[1 + k] == e[1 + k]);
        }
        assert(s.subrange(i as int + 1, i as int + 1 + e2.len() as int) =~= e2);
        lemma_take_push(s, i as int);
        lemma_le7_val_push(s.take(i as int), b0);
        let q: int = x / 128;
        let r: int = x % 128;
        assert(b0 % 128 == r);
        assert(pow128(i + 1) == 128 * p);
        assert(le7_val(s.take(i as int + 1)) == pre + r * p);
        vstd::arithmetic::div_mod::lemma_fundamental_div_mod(x, 128);
        assert((128 * q + r) * p == q * (128 * p) + r * p) by (nonlinear_arith);
        assert(le7_val(s.take(i as int + 1)) + q * pow128(i + 1) == pre + x * p);
        lemma_sleb_scan_enc(q, s, i + 1);
    }
}

/// The varint scan passes over leading groups that carry the
/// continuation bit.
pub proof fn lemma_vu64_scan_cont(s: Seq<u8>, i: nat)
    requires
        i <= s.len(),
        i <= 10,
        forall|j: int| 0 <= j < i ==> s[j] >= 128,
    ensures
        vu64_scan(s, 0) == vu64_scan(s, i),
    decreases i,
{
    if i > 0 {
        lemma_vu64_scan_cont(s, (i - 1) as nat);
    }
}

/// The unsigned LEB128 scan passes over leading groups that carry the
/// continuation bit.
pub proof fn lemma_uleb_scan_cont(s: Seq<u8>, i: nat)
    requires
        i <= s.len(),
        i <= 9,
        forall|j: int| 0 <= j < i ==> s[j] >= 128,
    ensures
        uleb_scan(s, 0) == uleb_scan(s, i),
    decreases i,
{
    if i > 0 {
        lemma_uleb_scan_cont(s, (i - 1) as nat);
    }
}

/// The signed LEB128 scan passes over leading groups that carry the
/// continuation bit.
pub proof fn lemma_sleb_scan_cont(s: Seq<u8>, i: nat)
    requires
        i <= s.len(),
        i <= 9,
        forall|j: int| 0 <= j < i ==> s[j] >= 128,
    ensures
        sleb_scan(s, 0) == sleb_scan(s, i),
    decreases i,
{
    if i > 0 {
        lemma_sleb_scan_cont(s, (i - 1) as nat);
    }
}

} // verus!
