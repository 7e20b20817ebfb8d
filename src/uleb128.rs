//! Unsigned LEB128 encoding: seven bits per byte, least significant group
//! first, the high bit of every byte but the last set.
use vstd::prelude::*;
use crate::error::{Error, ErrorKind};
use vstd::arithmetic::div_mod::{
    lemma_add_mod_noop, lemma_mod_mod, lemma_mod_twice, lemma_mul_mod_noop_left, lemma_mul_mod_noop_right,
};

verus! {

const CONTINUE_BIT: u8 = 0x80;

/// The canonical encoding of `v`: the fewest bytes that hold it.
pub open spec fn uleb_encode(v: nat) -> Seq<u8>
    decreases v,
{
    if v < 128 {
        seq![v as u8]
    } else {
        seq![(v % 128 + 128) as u8] + uleb_encode(v / 128)
    }
}

/// `128` to the power `n`.
pub open spec fn pow128(n: nat) -> nat
    decreases n,
{
    if n == 0 {
        1
    } else {
        128 * pow128((n - 1) as nat)
    }
}

/// What the encoder leaves in a buffer of `old.len()` bytes when it succeeds:
/// the encoding, then the bytes it did not touch.
pub open spec fn written_over(old: Seq<u8>, v: nat) -> Seq<u8> {
    uleb_encode(v) + old.skip(uleb_encode(v).len() as int)
}

/// Writes an unsigned value as ULEB128 into a buffer
/// and returns the number of bytes written.
fn write_unsigned(value: u32, bytes: &mut [u8]) -> (r: Result<usize, Error>)
    ensures
        final(bytes)@.len() == old(bytes)@.len(),
        match r {
            Ok(n) => n == uleb_encode(value as nat).len() && n <= old(bytes)@.len()
                && final(bytes)@ == written_over(old(bytes)@, value as nat),
            Err(e) => e.spec_kind() == ErrorKind::BufferSmall
                && old(bytes)@.len() < uleb_encode(value as nat).len(),
        },
{
    let mut rest: u32 = value;
    let mut i: usize = 0;
    while i < bytes.len()
        invariant
            i <= bytes@.len(),
            bytes@.len() == old(bytes)@.len(),
            uleb_encode(value as nat) == bytes@.take(i as int) + uleb_encode(rest as nat),
            bytes@.skip(i as int) == old(bytes)@.skip(i as int),
        decreases bytes@.len() - i,
    {
        let low: u8 = (rest % 128) as u8;
        let next: u32 = rest / 128;
        let ghost prev = bytes@;
        if next > 0 {
            bytes[i] = low + CONTINUE_BIT;
            proof {
                assert(prev.skip(i + 1) =~= prev.skip(i as int).skip(1));
                assert(old(bytes)@.skip(i + 1) =~= old(bytes)@.skip(i as int).skip(1));
                assert(bytes@.take(i + 1) == bytes@.take(i as int).push((rest % 128 + 128) as u8));
                assert(uleb_encode(rest as nat) == seq![(rest % 128 + 128) as u8] + uleb_encode(next as nat));
                assert(bytes@.take(i as int) + uleb_encode(rest as nat) =~= bytes@.take(i + 1) + uleb_encode(next as nat));
                assert(bytes@.skip(i + 1) =~= old(bytes)@.skip(i + 1));
            }
            rest = next;
            i = i + 1;
        } else {
            bytes[i] = low;
            proof {
                assert(prev.skip(i + 1) =~= prev.skip(i as int).skip(1));
                assert(old(bytes)@.skip(i + 1) =~= old(bytes)@.skip(i as int).skip(1));
                assert(bytes@.skip(i + 1) =~= old(bytes)@.skip(i + 1));
                assert(uleb_encode(rest as nat) == seq![rest as u8]);
                assert(bytes@ =~= written_over(old(bytes)@, value as nat));
            }
            return Ok(i + 1);
        }
    }
    proof {
        lemma_encode_nonempty(rest as nat);
    }
    Err(Error::new(ErrorKind::BufferSmall))
}

/// Every value takes at least one byte.
pub proof fn lemma_encode_nonempty(v: nat)
    ensures
        uleb_encode(v).len() >= 1,
    decreases v,
{
    if v >= 128 {
        lemma_encode_nonempty(v / 128);
    }
}

/// The encoding of `v` is as short as any base-128 encoding can be: it fits
/// in `k` bytes exactly when `v` is below `128` to the power `k`.
pub proof fn lemma_encode_minimal(v: nat, k: nat)
    requires
        k >= 1,
    ensures
        uleb_encode(v).len() <= k <==> v < pow128(k),
    decreases v,
{
    lemma_pow128_positive((k - 1) as nat);
    assert(pow128(k) == 128 * pow128((k - 1) as nat));
    if v >= 128 {
        lemma_encode_nonempty(v / 128);
        if k >= 2 {
            lemma_encode_minimal(v / 128, (k - 1) as nat);
            let p = pow128((k - 1) as nat);
            assert(v / 128 < p <==> v < 128 * p) by (nonlinear_arith)
                requires
                    p >= 1,
            ;
        }
    }
}

proof fn lemma_pow128_positive(n: nat)
    ensures
        pow128(n) >= 1,
    decreases n,
{
    if n > 0 {
        lemma_pow128_positive((n - 1) as nat);
    }
}

/// A 32-bit value takes at most five bytes.
pub proof fn lemma_encode_u32_len(v: u32)
    ensures
        uleb_encode(v as nat).len() <= 5,
{
    reveal_with_fuel(pow128, 6);
    assert(pow128(5) == 0x8_0000_0000);
    lemma_encode_minimal(v as nat, 5);
}

/// How strictly a decoder holds an encoding to the width of its result.
#[derive(Clone, Copy, Debug, PartialEq, Eq, Structural)]
pub enum Validation {
    /// Overlong encodings and groups that overflow the width are refused.
    Strict,
    /// Such encodings are taken, and the value is truncated to the width.
    Lenient,
}

/// The number of bytes that a decoder consumes from `bytes`, starting at
/// index `i`, or why it stops. `last` is the index of the last group that the
/// width allows and `last_max` the largest payload that group may carry.
pub open spec fn uleb_scan(bytes: Seq<u8>, i: nat, last: nat, last_max: nat, strict: bool) -> Result<
    nat,
    ErrorKind,
>
    decreases bytes.len() - i,
{
    if i >= bytes.len() {
        Err(ErrorKind::NotEnoughData)
    } else if strict && i == last && bytes[i as int] % 128 > last_max {
        Err(ErrorKind::InvalidData)
    } else if bytes[i as int] < 128 {
        Ok(i + 1)
    } else if strict && i >= last {
        Err(ErrorKind::InvalidData)
    } else {
        uleb_scan(bytes, i + 1, last, last_max, strict)
    }
}

/// The value held by the first `n` bytes of `bytes`, taken as groups of seven bits.
pub open spec fn uleb_value(bytes: Seq<u8>, n: nat) -> nat
    decreases n,
{
    if n == 0 {
        0
    } else {
        uleb_value(bytes, (n - 1) as nat) + (bytes[n - 1] % 128) as nat * pow128((n - 1) as nat)
    }
}

/// Decoding of `bytes` into a value taken modulo `modulus`, and the number of
/// bytes consumed.
pub open spec fn uleb_decode(bytes: Seq<u8>, last: nat, last_max: nat, modulus: nat, strict: bool) -> Result<
    (nat, nat),
    ErrorKind,
> {
    match uleb_scan(bytes, 0, last, last_max, strict) {
        Ok(n) => Ok((uleb_value(bytes, n) % modulus, n)),
        Err(k) => Err(k),
    }
}

/// Decoding as an 8-bit value: at most two groups, the second one bit wide.
pub open spec fn decode_u8(bytes: Seq<u8>, strict: bool) -> Result<(nat, nat), ErrorKind> {
    uleb_decode(bytes, 1, 1, 0x100, strict)
}

/// Decoding as a 16-bit value: at most three groups, the third two bits wide.
pub open spec fn decode_u16(bytes: Seq<u8>, strict: bool) -> Result<(nat, nat), ErrorKind> {
    uleb_decode(bytes, 2, 3, 0x1_0000, strict)
}

/// Decoding as a 32-bit value: at most five groups, the fifth four bits wide.
pub open spec fn decode_u32(bytes: Seq<u8>, strict: bool) -> Result<(nat, nat), ErrorKind> {
    uleb_decode(bytes, 4, 15, 0x1_0000_0000, strict)
}

proof fn lemma_step_mod(v: nat, split: nat, p: nat)
    ensures
        ((v % 0x1_0000_0000) + split * (p % 0x1_0000_0000)) % 0x1_0000_0000 == (v + split * p)
            % 0x1_0000_0000,
        ((p % 0x1_0000_0000) * 128) % 0x1_0000_0000 == (p * 128) % 0x1_0000_0000,
{
    let m: int = 0x1_0000_0000;
    let (vi, si, pi) = (v as int, split as int, p as int);
    lemma_mul_mod_noop_right(si, pi, m);
    lemma_add_mod_noop(vi, si * pi, m);
    lemma_add_mod_noop(vi % m, si * (pi % m), m);
    lemma_mod_twice(vi, m);
    lemma_mul_mod_noop_left(pi, 128, m);
}

/// Decodes an unsigned value from the front of `bytes`, truncated to 32 bits,
/// and returns it with the number of bytes read.
fn read_unsigned(bytes: &[u8], last: usize, last_max: u8, strict: bool) -> (r: Result<
    (u32, usize),
    Error,
>)
    ensures
        match r {
            Ok((v, n)) => uleb_scan(bytes@, 0, last as nat, last_max as nat, strict) == Ok::<nat, ErrorKind>(n as nat)
                && v == uleb_value(bytes@, n as nat) % 0x1_0000_0000,
            Err(e) => uleb_scan(bytes@, 0, last as nat, last_max as nat, strict) == Err::<
                nat,
                ErrorKind,
            >(e.spec_kind()),
        },
{
    let mut acc: u64 = 0;
    let mut scale: u64 = 1;
    let mut i: usize = 0;
    while i < bytes.len()
        invariant
            i <= bytes@.len(),
            acc == uleb_value(bytes@, i as nat) % 0x1_0000_0000,
            scale == pow128(i as nat) % 0x1_0000_0000,
            acc < 0x1_0000_0000,
            scale < 0x1_0000_0000,
            uleb_scan(bytes@, 0, last as nat, last_max as nat, strict) == uleb_scan(
                bytes@,
                i as nat,
                last as nat,
                last_max as nat,
                strict,
            ),
        decreases bytes@.len() - i,
    {
        let byte: u8 = bytes[i];
        let split: u8 = byte % 128;
        if strict && i == last && split > last_max {
            return Err(Error::new(ErrorKind::InvalidData));
        }
        assert((split as u64) * scale < 0x100_0000_0000) by (nonlinear_arith)
            requires
                split < 128,
                scale < 0x1_0000_0000,
        ;
        proof {
            lemma_step_mod(uleb_value(bytes@, i as nat), split as nat, pow128(i as nat));
        }
        let next: u64 = (acc + (split as u64) * scale) % 0x1_0000_0000;
        if byte < CONTINUE_BIT {
            return Ok((next as u32, i + 1));
        }
        if strict && i >= last {
            return Err(Error::new(ErrorKind::InvalidData));
        }
        acc = next;
        scale = (scale * 128) % 0x1_0000_0000;
        i = i + 1;
    }
    Err(Error::new(ErrorKind::NotEnoughData))
}

/// Writes an unsigned 8-bit value as ULEB128 into a buffer
/// and returns the number of bytes written.
pub fn write_u8(value: u8, bytes: &mut [u8]) -> (r: Result<usize, Error>)
    ensures
        final(bytes)@.len() == old(bytes)@.len(),
        match r {
            Ok(n) => n == uleb_encode(value as nat).len() && n <= old(bytes)@.len()
                && final(bytes)@ == written_over(old(bytes)@, value as nat),
            Err(e) => e.spec_kind() == ErrorKind::BufferSmall
                && old(bytes)@.len() < uleb_encode(value as nat).len(),
        },
{
    write_unsigned(value as u32, bytes)
}

/// Writes an unsigned 16-bit value as ULEB128 into a buffer
/// and returns the number of bytes written.
pub fn write_u16(value: u16, bytes: &mut [u8]) -> (r: Result<usize, Error>)
    ensures
        final(bytes)@.len() == old(bytes)@.len(),
        match r {
            Ok(n) => n == uleb_encode(value as nat).len() && n <= old(bytes)@.len()
                && final(bytes)@ == written_over(old(bytes)@, value as nat),
            Err(e) => e.spec_kind() == ErrorKind::BufferSmall
                && old(bytes)@.len() < uleb_encode(value as nat).len(),
        },
{
    write_unsigned(value as u32, bytes)
}

/// Writes an unsigned 32-bit value as ULEB128 into a buffer
/// and returns the number of bytes written.
pub fn write_u32(value: u32, bytes: &mut [u8]) -> (r: Result<usize, Error>)
    ensures
        final(bytes)@.len() == old(bytes)@.len(),
        match r {
            Ok(n) => n == uleb_encode(value as nat).len() && n <= old(bytes)@.len()
                && final(bytes)@ == written_over(old(bytes)@, value as nat),
            Err(e) => e.spec_kind() == ErrorKind::BufferSmall
                && old(bytes)@.len() < uleb_encode(value as nat).len(),
        },
{
    write_unsigned(value, bytes)
}

/// Reads an unsigned 8-bit value from the front of `bytes` under the given
/// validation and returns the number of bytes read. `value` is set only on
/// success.
pub fn read_u8_with(bytes: &[u8], value: &mut u8, validation: Validation) -> (r: Result<
    usize,
    Error,
>)
    ensures
        match r {
            Ok(n) => decode_u8(bytes@, validation == Validation::Strict) == Ok::<(nat, nat), ErrorKind>(
                (*final(value) as nat, n as nat),
            ),
            Err(e) => decode_u8(bytes@, validation == Validation::Strict) == Err::<
                (nat, nat),
                ErrorKind,
            >(e.spec_kind()) && *final(value) == *old(value),
        },
{
    let strict = validation == Validation::Strict;
    match read_unsigned(bytes, 1, 0x01, strict) {
        Ok((v, n)) => {
            proof {
                lemma_mod_mod(uleb_value(bytes@, n as nat) as int, 0x100, 0x100_0000);
            }
            *value = (v % 0x100) as u8;
            Ok(n)
        },
        Err(e) => Err(e),
    }
}

/// Reads an unsigned 16-bit value from the front of `bytes` under the given
/// validation and returns the number of bytes read. `value` is set only on
/// success.
pub fn read_u16_with(bytes: &[u8], value: &mut u16, validation: Validation) -> (r: Result<
    usize,
    Error,
>)
    ensures
        match r {
            Ok(n) => decode_u16(bytes@, validation == Validation::Strict) == Ok::<(nat, nat), ErrorKind>(
                (*final(value) as nat, n as nat),
            ),
            Err(e) => decode_u16(bytes@, validation == Validation::Strict) == Err::<
                (nat, nat),
                ErrorKind,
            >(e.spec_kind()) && *final(value) == *old(value),
        },
{
    let strict = validation == Validation::Strict;
    match read_unsigned(bytes, 2, 0x03, strict) {
        Ok((v, n)) => {
            proof {
                lemma_mod_mod(uleb_value(bytes@, n as nat) as int, 0x1_0000, 0x1_0000);
            }
            *value = (v % 0x1_0000) as u16;
            Ok(n)
        },
        Err(e) => Err(e),
    }
}

/// Reads an unsigned 32-bit value from the front of `bytes` under the given
/// validation and returns the number of bytes read. `value` is set only on
/// success.
pub fn read_u32_with(bytes: &[u8], value: &mut u32, validation: Validation) -> (r: Result<
    usize,
    Error,
>)
    ensures
        match r {
            Ok(n) => decode_u32(bytes@, validation == Validation::Strict) == Ok::<(nat, nat), ErrorKind>(
                (*final(value) as nat, n as nat),
            ),
            Err(e) => decode_u32(bytes@, validation == Validation::Strict) == Err::<
                (nat, nat),
                ErrorKind,
            >(e.spec_kind()) && *final(value) == *old(value),
        },
{
    let strict = validation == Validation::Strict;
    match read_unsigned(bytes, 4, 0x0F, strict) {
        Ok((v, n)) => {
            *value = v;
            Ok(n)
        },
        Err(e) => Err(e),
    }
}

/// Reads an unsigned 8-bit value from the front of `bytes`, refusing overlong
/// or overflowing encodings, and returns the number of bytes read.
pub fn read_u8(bytes: &[u8], value: &mut u8) -> (r: Result<usize, Error>)
    ensures
        match r {
            Ok(n) => decode_u8(bytes@, true) == Ok::<(nat, nat), ErrorKind>(
                (*final(value) as nat, n as nat),
            ),
            Err(e) => decode_u8(bytes@, true) == Err::<(nat, nat), ErrorKind>(e.spec_kind())
                && *final(value) == *old(value),
        },
{
    read_u8_with(bytes, value, Validation::Strict)
}

/// Reads an unsigned 16-bit value from the front of `bytes`, refusing overlong
/// or overflowing encodings, and returns the number of bytes read.
pub fn read_u16(bytes: &[u8], value: &mut u16) -> (r: Result<usize, Error>)
    ensures
        match r {
            Ok(n) => decode_u16(bytes@, true) == Ok::<(nat, nat), ErrorKind>(
                (*final(value) as nat, n as nat),
            ),
            Err(e) => decode_u16(bytes@, true) == Err::<(nat, nat), ErrorKind>(e.spec_kind())
                && *final(value) == *old(value),
        },
{
    read_u16_with(bytes, value, Validation::Strict)
}

/// Reads an unsigned 32-bit value from the front of `bytes`, refusing overlong
/// or overflowing encodings, and returns the number of bytes read.
pub fn read_u32(bytes: &[u8], value: &mut u32) -> (r: Result<usize, Error>)
    ensures
        match r {
            Ok(n) => decode_u32(bytes@, true) == Ok::<(nat, nat), ErrorKind>(
                (*final(value) as nat, n as nat),
            ),
            Err(e) => decode_u32(bytes@, true) == Err::<(nat, nat), ErrorKind>(e.spec_kind())
                && *final(value) == *old(value),
        },
{
    read_u32_with(bytes, value, Validation::Strict)
}

/// Scanning the encoding of `w` placed at index `i` stops right after it, and
/// adds `w` times `128^i` to the value; strict scanning needs `w` to fit what
/// the width leaves from group `i` on.
proof fn lemma_scan_encoded(s: Seq<u8>, i: nat, w: nat, last: nat, last_max: nat, strict: bool)
    requires
        i + uleb_encode(w).len() <= s.len(),
        s.subrange(i as int, i + uleb_encode(w).len() as int) == uleb_encode(w),
        last_max < 128,
        strict ==> i <= last && w < (last_max + 1) * pow128((last - i) as nat),
    ensures
        uleb_scan(s, i, last, last_max, strict) == Ok::<nat, ErrorKind>(i + uleb_encode(w).len()),
        uleb_value(s, i + uleb_encode(w).len()) == uleb_value(s, i) + w * pow128(i),
    decreases w,
{
    let enc = uleb_encode(w);
    let len = enc.len() as int;
    let ii = i as int;
    assert(s[ii] == s.subrange(ii, ii + len)[0]);
    assert(uleb_value(s, i + 1) == uleb_value(s, i) + (s[i as int] % 128) as nat * pow128(i));
    if strict && i == last {
        let d = (last - i) as nat;
        assert(d == 0);
        assert(pow128(d) == 1);
        assert(w < last_max + 1) by (nonlinear_arith)
            requires
                w < (last_max + 1) * pow128(d),
                pow128(d) == 1,
        ;
    }
    if w < 128 {
        assert(s[i as int] == w as u8);
        assert(pow128(0) == 1);
    } else {
        let rest = uleb_encode(w / 128);
        assert(enc == seq![(w % 128 + 128) as u8] + rest);
        assert(s[i as int] == (w % 128 + 128) as u8);
        assert(s.subrange(ii + 1, ii + 1 + rest.len()) =~= s.subrange(ii, ii + len).subrange(
            1,
            len,
        ));
        assert(s.subrange(ii + 1, ii + 1 + rest.len()) =~= rest);
        if strict {
            let d = (last - i) as nat;
            if i == last {
                assert(false);
            }
            let p = pow128((d - 1) as nat);
            assert(pow128(d) == 128 * p);
            assert(w / 128 < (last_max + 1) * p) by (nonlinear_arith)
                requires
                    w < (last_max + 1) * (128 * p),
            ;
            assert((last - (i + 1)) as nat == (d - 1) as nat);
        }
        lemma_scan_encoded(s, i + 1, w / 128, last, last_max, strict);
        let q = pow128(i);
        assert(pow128(i + 1) == 128 * q);
        assert((w % 128) * q + (w / 128) * (128 * q) == w * q) by (nonlinear_arith);
    }
}

/// `128` to the powers that the widths use.
proof fn lemma_pow128_values()
    ensures
        pow128(0) == 1,
        pow128(1) == 0x80,
        pow128(2) == 0x4000,
        pow128(3) == 0x20_0000,
        pow128(4) == 0x1000_0000,
{
    reveal_with_fuel(pow128, 5);
}

/// Decoding the encoding of an 8-bit value gives the value back and consumes
/// exactly the encoding, whatever follows it and under either validation.
pub proof fn lemma_u8_round_trip(v: u8, rest: Seq<u8>, strict: bool)
    ensures
        decode_u8(uleb_encode(v as nat) + rest, strict) == Ok::<(nat, nat), ErrorKind>(
            (v as nat, uleb_encode(v as nat).len()),
        ),
{
    let s = uleb_encode(v as nat) + rest;
    assert(s.subrange(0, uleb_encode(v as nat).len() as int) =~= uleb_encode(v as nat));
    lemma_pow128_values();
    assert((((1 - 0) as nat) as nat) == 1);
    assert(v < (1 + 1) * pow128(1));
    lemma_scan_encoded(s, 0, v as nat, 1, 1, strict);
}

/// Decoding the encoding of a 16-bit value gives the value back and consumes
/// exactly the encoding, whatever follows it and under either validation.
pub proof fn lemma_u16_round_trip(v: u16, rest: Seq<u8>, strict: bool)
    ensures
        decode_u16(uleb_encode(v as nat) + rest, strict) == Ok::<(nat, nat), ErrorKind>(
            (v as nat, uleb_encode(v as nat).len()),
        ),
{
    let s = uleb_encode(v as nat) + rest;
    assert(s.subrange(0, uleb_encode(v as nat).len() as int) =~= uleb_encode(v as nat));
    lemma_pow128_values();
    assert((((2 - 0) as nat) as nat) == 2);
    assert(v < (3 + 1) * pow128(2));
    lemma_scan_encoded(s, 0, v as nat, 2, 3, strict);
}

/// Decoding the encoding of a 32-bit value gives the value back and consumes
/// exactly the encoding, whatever follows it and under either validation.
pub proof fn lemma_u32_round_trip(v: u32, rest: Seq<u8>, strict: bool)
    ensures
        decode_u32(uleb_encode(v as nat) + rest, strict) == Ok::<(nat, nat), ErrorKind>(
            (v as nat, uleb_encode(v as nat).len()),
        ),
{
    let s = uleb_encode(v as nat) + rest;
    assert(s.subrange(0, uleb_encode(v as nat).len() as int) =~= uleb_encode(v as nat));
    lemma_pow128_values();
    assert((((4 - 0) as nat) as nat) == 4);
    assert(v < (15 + 1) * pow128(4));
    lemma_scan_encoded(s, 0, v as nat, 4, 15, strict);
}

/// Scanning bytes whose groups before `last` all continue and whose group
/// `last` ends with a payload above `last_max`.
proof fn lemma_scan_overflowing(bytes: Seq<u8>, i: nat, last: nat, last_max: nat)
    requires
        i <= last < bytes.len(),
        forall|j: int| 0 <= j < last ==> #[trigger] bytes[j] >= 128,
        bytes[last as int] < 128,
        bytes[last as int] > last_max,
    ensures
        uleb_scan(bytes, i, last, last_max, true) == Err::<nat, ErrorKind>(ErrorKind::InvalidData),
        uleb_scan(bytes, i, last, last_max, false) == Ok::<nat, ErrorKind>(last + 1),
    decreases last - i,
{
    if i < last {
        lemma_scan_overflowing(bytes, i + 1, last, last_max);
    }
}

/// An 8-bit decoding whose second and final byte carries more than the one
/// bit left: strict validation refuses it, lenient validation truncates.
pub proof fn lemma_u8_overflow(bytes: Seq<u8>)
    requires
        bytes.len() >= 2,
        bytes[0] >= 128,
        1 < bytes[1] < 128,
    ensures
        decode_u8(bytes, true) == Err::<(nat, nat), ErrorKind>(ErrorKind::InvalidData),
        decode_u8(bytes, false) == Ok::<(nat, nat), ErrorKind>((uleb_value(bytes, 2) % 0x100, 2)),
        uleb_value(bytes, 2) == (bytes[0] % 128) as nat + 0x80 * bytes[1] as nat,
{
    lemma_scan_overflowing(bytes, 0, 1, 1);
    lemma_pow128_values();
    reveal_with_fuel(uleb_value, 3);
    assert(bytes[1] % 128 == bytes[1]);
    assert(uleb_value(bytes, 0) == 0);
    assert(uleb_value(bytes, 1) == uleb_value(bytes, 0) + (bytes[0] % 128) as nat * pow128(0));
    assert(uleb_value(bytes, 2) == uleb_value(bytes, 1) + (bytes[1] % 128) as nat * pow128(1));
}

/// A 16-bit decoding whose third and final byte carries more than the two
/// bits left: strict validation refuses it, lenient validation truncates.
pub proof fn lemma_u16_overflow(bytes: Seq<u8>)
    requires
        bytes.len() >= 3,
        bytes[0] >= 128,
        bytes[1] >= 128,
        3 < bytes[2] < 128,
    ensures
        decode_u16(bytes, true) == Err::<(nat, nat), ErrorKind>(ErrorKind::InvalidData),
        decode_u16(bytes, false) == Ok::<(nat, nat), ErrorKind>(
            (uleb_value(bytes, 3) % 0x1_0000, 3),
        ),
        uleb_value(bytes, 3) == (bytes[0] % 128) as nat + 0x80 * (bytes[1] % 128) as nat + 0x4000
            * bytes[2] as nat,
{
    lemma_pow128_values();
    reveal_with_fuel(uleb_value, 4);
    assert(bytes[2] % 128 == bytes[2]);
    assert(uleb_value(bytes, 0) == 0);
    assert(uleb_value(bytes, 1) == uleb_value(bytes, 0) + (bytes[0] % 128) as nat * pow128(0));
    assert(uleb_value(bytes, 2) == uleb_value(bytes, 1) + (bytes[1] % 128) as nat * pow128(1));
    assert(uleb_value(bytes, 3) == uleb_value(bytes, 2) + (bytes[2] % 128) as nat * pow128(2));
    lemma_scan_overflowing(bytes, 0, 2, 3);
}

/// A 32-bit decoding whose fifth and final byte carries more than the four
/// bits left: strict validation refuses it, lenient validation truncates.
pub proof fn lemma_u32_overflow(bytes: Seq<u8>)
    requires
        bytes.len() >= 5,
        forall|j: int| 0 <= j < 4 ==> #[trigger] bytes[j] >= 128,
        15 < bytes[4] < 128,
    ensures
        decode_u32(bytes, true) == Err::<(nat, nat), ErrorKind>(ErrorKind::InvalidData),
        decode_u32(bytes, false) == Ok::<(nat, nat), ErrorKind>(
            (uleb_value(bytes, 5) % 0x1_0000_0000, 5),
        ),
        uleb_value(bytes, 5) == (bytes[0] % 128) as nat + 0x80 * (bytes[1] % 128) as nat + 0x4000
            * (bytes[2] % 128) as nat + 0x20_0000 * (bytes[3] % 128) as nat + 0x1000_0000
            * bytes[4] as nat,
{
    lemma_pow128_values();
    reveal_with_fuel(uleb_value, 6);
    assert(bytes[4] % 128 == bytes[4]);
    assert(uleb_value(bytes, 0) == 0);
    assert(uleb_value(bytes, 1) == uleb_value(bytes, 0) + (bytes[0] % 128) as nat * pow128(0));
    assert(uleb_value(bytes, 2) == uleb_value(bytes, 1) + (bytes[1] % 128) as nat * pow128(1));
    assert(uleb_value(bytes, 3) == uleb_value(bytes, 2) + (bytes[2] % 128) as nat * pow128(2));
    assert(uleb_value(bytes, 4) == uleb_value(bytes, 3) + (bytes[3] % 128) as nat * pow128(3));
    assert(uleb_value(bytes, 5) == uleb_value(bytes, 4) + (bytes[4] % 128) as nat * pow128(4));
    lemma_scan_overflowing(bytes, 0, 4, 15);
}

proof fn lemma_scan_prefix(s: Seq<u8>, k: nat, i: nat, last: nat, last_max: nat, strict: bool)
    requires
        k <= s.len(),
    ensures
        match uleb_scan(s.take(k as int), i, last, last_max, strict) {
            Ok(n) => uleb_scan(s, i, last, last_max, strict) == Ok::<nat, ErrorKind>(n) && n <= k,
            Err(e) => e == ErrorKind::NotEnoughData || uleb_scan(s, i, last, last_max, strict)
                == Err::<nat, ErrorKind>(e),
        },
    decreases k - i,
{
    if i < k {
        assert(s.take(k as int)[i as int] == s[i as int]);
        lemma_scan_prefix(s, k, i + 1, last, last_max, strict);
    }
}

proof fn lemma_value_prefix(s: Seq<u8>, k: nat, n: nat)
    requires
        n <= k <= s.len(),
    ensures
        uleb_value(s.take(k as int), n) == uleb_value(s, n),
    decreases n,
{
    if n > 0 {
        lemma_value_prefix(s, k, (n - 1) as nat);
        assert(s.take(k as int)[n - 1] == s[n - 1]);
    }
}

/// Decoding the first `k` bytes of `s` either gives what decoding all of
/// `s` gives, having read no more than those `k` bytes, or runs out of data,
/// or fails as decoding all of `s` fails.
pub proof fn lemma_decode_u32_prefix(s: Seq<u8>, k: nat, strict: bool)
    requires
        k <= s.len(),
    ensures
        match decode_u32(s.take(k as int), strict) {
            Ok((v, n)) => decode_u32(s, strict) == Ok::<(nat, nat), ErrorKind>((v, n)) && n <= k,
            Err(e) => e == ErrorKind::NotEnoughData || decode_u32(s, strict) == Err::<
                (nat, nat),
                ErrorKind,
            >(e),
        },
{
    lemma_scan_prefix(s, k, 0, 4, 15, strict);
    if let Ok(n) = uleb_scan(s.take(k as int), 0, 4, 15, strict) {
        lemma_value_prefix(s, k, n);
    }
}

} // verus!
