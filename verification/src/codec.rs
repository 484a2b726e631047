//! Primitive wire codec: byte reads, little-endian integers, and LEB128
//! variable-length integers, each with a spec-level mirror that the
//! executable functions are proved against.

use vstd::prelude::*;
use vstd::arithmetic::power2::*;
use vstd::arithmetic::div_mod::*;
use vstd::arithmetic::mul::*;
use vstd::utf8::{valid_utf8, decode_utf8, encode_utf8};

verus! {

/// Decode failures, as the caller-visible error of the batch parser.
#[derive(Debug)]
pub enum ParseError {
    InvalidMagic(u32),
    UnsupportedVersion(u8),
    UnexpectedEOF,
    InvalidUtf8,
    InvalidSignature,
    MalformedInstruction(String),
}

/// Spec-level mirror of `ParseError`, message texts included: a
/// malformed-instruction kind carries the exact text reported for it.
pub enum ErrKind {
    InvalidMagic(u32),
    UnsupportedVersion(u8),
    Eof,
    Utf8,
    Sig,
    Malformed(Seq<char>),
}

/// Relates an executable error to its spec-level kind.
pub open spec fn matches_err(e: ParseError, k: ErrKind) -> bool {
    match (e, k) {
        (ParseError::InvalidMagic(m), ErrKind::InvalidMagic(m2)) => m == m2,
        (ParseError::UnsupportedVersion(v), ErrKind::UnsupportedVersion(v2)) => v == v2,
        (ParseError::UnexpectedEOF, ErrKind::Eof) => true,
        (ParseError::InvalidUtf8, ErrKind::Utf8) => true,
        (ParseError::InvalidSignature, ErrKind::Sig) => true,
        (ParseError::MalformedInstruction(msg), ErrKind::Malformed(t)) => msg@ == t,
        _ => false,
    }
}

/// The result of a decode that returns a value and the cursor after it,
/// or says exactly why it failed.
pub open spec fn dec_ok<T>(r: Result<(T, usize), ParseError>, s: Result<(T, int), ErrKind>) -> bool {
    match r {
        Ok((v, p)) => s matches Ok(sv) && sv.0 == v && sv.1 == p as int,
        Err(e) => s matches Err(k) && matches_err(e, k),
    }
}

/// One byte at the cursor.
pub open spec fn spec_read_u8(d: Seq<u8>, pos: int) -> Result<(u8, int), ErrKind> {
    if 0 <= pos && pos + 1 <= d.len() {
        Ok((d[pos], pos + 1))
    } else {
        Err(ErrKind::Eof)
    }
}

pub fn read_u8(data: &[u8], pos: usize) -> (r: Result<(u8, usize), ParseError>)
    ensures
        dec_ok(r, spec_read_u8(data@, pos as int)),
{
    if pos < data.len() {
        Ok((data[pos], pos + 1))
    } else {
        Err(ParseError::UnexpectedEOF)
    }
}

/// Four bytes, little-endian.
pub open spec fn spec_read_u32_le(d: Seq<u8>, pos: int) -> Result<(u32, int), ErrKind> {
    if 0 <= pos && pos + 4 <= d.len() {
        Ok((
            (d[pos] + d[pos + 1] * 0x100 + d[pos + 2] * 0x10000 + d[pos + 3] * 0x1000000) as u32,
            pos + 4,
        ))
    } else {
        Err(ErrKind::Eof)
    }
}

pub fn read_u32_le(data: &[u8], pos: usize) -> (r: Result<(u32, usize), ParseError>)
    ensures
        dec_ok(r, spec_read_u32_le(data@, pos as int)),
{
    if pos < data.len() && data.len() - pos >= 4 {
        let v: u32 = data[pos] as u32 + data[pos + 1] as u32 * 0x100 + data[pos + 2] as u32
            * 0x10000 + data[pos + 3] as u32 * 0x1000000;
        Ok((v, pos + 4))
    } else {
        Err(ParseError::UnexpectedEOF)
    }
}

/// Eight bytes, little-endian, as the raw bit pattern of a 64-bit float.
pub open spec fn spec_read_u64_le(d: Seq<u8>, pos: int) -> Result<(u64, int), ErrKind> {
    if 0 <= pos && pos + 8 <= d.len() {
        Ok((spec_u64_of_le(d, pos), pos + 8))
    } else {
        Err(ErrKind::Eof)
    }
}

pub open spec fn spec_u64_of_le(d: Seq<u8>, pos: int) -> u64
    recommends
        0 <= pos,
        pos + 8 <= d.len(),
{
    (d[pos] + d[pos + 1] * 0x100 + d[pos + 2] * 0x10000 + d[pos + 3] * 0x1000000 + d[pos + 4]
        * 0x100000000 + d[pos + 5] * 0x10000000000 + d[pos + 6] * 0x1000000000000 + d[pos + 7]
        * 0x100000000000000) as u64
}

pub fn read_u64_le(data: &[u8], pos: usize) -> (r: Result<(u64, usize), ParseError>)
    ensures
        dec_ok(r, spec_read_u64_le(data@, pos as int)),
{
    if pos < data.len() && data.len() - pos >= 8 {
        let v: u64 = data[pos] as u64 + data[pos + 1] as u64 * 0x100 + data[pos + 2] as u64
            * 0x10000 + data[pos + 3] as u64 * 0x1000000 + data[pos + 4] as u64 * 0x100000000
            + data[pos + 5] as u64 * 0x10000000000 + data[pos + 6] as u64 * 0x1000000000000
            + data[pos + 7] as u64 * 0x100000000000000;
        Ok((v, pos + 8))
    } else {
        Err(ParseError::UnexpectedEOF)
    }
}

/// Unsigned LEB128 decoding: seven data bits per byte, low bits first,
/// the high bit of each byte marking continuation.  Decoding aborts once
/// the accumulated shift would reach 35 bits; contributions past bit 31
/// are discarded, as a 32-bit accumulator does.
pub open spec fn spec_read_leb_u32_rec(d: Seq<u8>, pos: int, shift: nat, acc: u32) -> Result<
    (u32, int),
    ErrKind,
>
    decreases d.len() - pos,
{
    if pos < 0 || pos >= d.len() {
        Err(ErrKind::Eof)
    } else {
        let b = d[pos];
        let acc2 = ((acc + (b % 128) * pow2(shift)) % 0x100000000) as u32;
        if b < 128 {
            Ok((acc2, pos + 1))
        } else if shift + 7 >= 35 {
            Err(ErrKind::Malformed("LEB128 overflow"@))
        } else {
            spec_read_leb_u32_rec(d, pos + 1, shift + 7, acc2)
        }
    }
}

pub open spec fn spec_read_leb_u32(d: Seq<u8>, pos: int) -> Result<(u32, int), ErrKind> {
    spec_read_leb_u32_rec(d, pos, 0, 0)
}

/// The unique LEB128 encoding of `x` that the writer emits.
pub open spec fn spec_leb_u32_bytes(x: u32) -> Seq<u8>
    decreases x,
{
    if x < 128 {
        seq![x as u8]
    } else {
        seq![(128 + x % 128) as u8] + spec_leb_u32_bytes(x / 128)
    }
}

fn read_leb_u32_rec(data: &[u8], pos: usize, shift: u32, acc: u32) -> (r: Result<
    (u32, usize),
    ParseError,
>)
    requires
        shift % 7 == 0,
        shift <= 28,
    ensures
        dec_ok(r, spec_read_leb_u32_rec(data@, pos as int, shift as nat, acc)),
        r matches Ok(t) ==> pos < t.1 <= data@.len(),
    decreases data@.len() - pos,
{
    proof {
        lemma2_to64();
    }
    if pos >= data.len() {
        return Err(ParseError::UnexpectedEOF);
    }
    let b: u8 = data[pos];
    let low: u64 = (b % 128) as u64;
    let mult: u64 = if shift == 0 {
        1
    } else if shift == 7 {
        128
    } else if shift == 14 {
        16384
    } else if shift == 21 {
        2097152
    } else {
        268435456
    };
    assert(mult == pow2(shift as nat));
    let acc2: u32 = ((acc as u64 + (low * mult) % 0x100000000) % 0x100000000) as u32;
    proof {
        lemma_add_mod_noop(acc as int, (low * mult) as int, 0x100000000);
        lemma_mod_twice(acc + low * mult, 0x100000000);
        assert(acc2 == ((acc + (b % 128) * pow2(shift as nat)) % 0x100000000) as u32);
    }
    if b < 128 {
        Ok((acc2, pos + 1))
    } else if shift + 7 >= 35 {
        Err(ParseError::MalformedInstruction("LEB128 overflow".to_owned()))
    } else {
        read_leb_u32_rec(data, pos + 1, shift + 7, acc2)
    }
}

/// Read an unsigned LEB128 integer at the cursor.
pub fn read_leb128_u32(data: &[u8], pos: usize) -> (r: Result<(u32, usize), ParseError>)
    ensures
        dec_ok(r, spec_read_leb_u32(data@, pos as int)),
        r matches Ok(t) ==> pos < t.1 <= data@.len(),
{
    read_leb_u32_rec(data, pos, 0, 0)
}

/// Append the LEB128 encoding of `value`.
pub fn write_leb128_u32(data: &mut Vec<u8>, value: u32)
    ensures
        final(data)@ == old(data)@ + spec_leb_u32_bytes(value),
    decreases value,
{
    let low: u32 = value % 128;
    let next: u32 = value / 128;
    if next == 0 {
        data.push(low as u8);
        assert(data@ =~= old(data)@ + spec_leb_u32_bytes(value));
    } else {
        data.push((128 + low) as u8);
        write_leb128_u32(data, next);
        assert(data@ =~= old(data)@ + spec_leb_u32_bytes(value));
    }
}

proof fn lemma_leb_u32_roundtrip_rec(d: Seq<u8>, pos: int, shift: nat, acc: u32, x: u32)
    requires
        shift % 7 == 0,
        shift <= 28,
        acc < pow2(shift),
        acc + x * pow2(shift) < 0x100000000,
        0 <= pos,
        pos + spec_leb_u32_bytes(x).len() <= d.len(),
        d.subrange(pos, pos + spec_leb_u32_bytes(x).len() as int) == spec_leb_u32_bytes(x),
    ensures
        spec_read_leb_u32_rec(d, pos, shift, acc) == Ok::<(u32, int), ErrKind>(
            ((acc + x * pow2(shift)) as u32, pos + spec_leb_u32_bytes(x).len()),
        ),
    decreases x,
{
    lemma2_to64();
    let bytes = spec_leb_u32_bytes(x);
    let b = d[pos];
    assert(b == bytes[0]);
    if x < 128 {
        assert(b == x as u8);
        assert(b % 128 == x);
        lemma_small_mod((acc + x * pow2(shift)) as nat, 0x100000000);
    } else {
        assert(b == (128 + x % 128) as u8);
        assert(b % 128 == x % 128);
        assert(x * pow2(shift) == (x % 128) * pow2(shift) + (x / 128) * (128 * pow2(shift)))
            by (nonlinear_arith)
            requires
                x >= 0,
        ;
        lemma_pow2_adds(shift, 7);
        lemma_pow2_pos(shift);
        assert(pow2(shift + 7) == pow2(shift) * 128);
        let acc2 = (acc + (x % 128) * pow2(shift)) as int;
        assert((x % 128) * pow2(shift) <= 127 * pow2(shift)) by (nonlinear_arith)
            requires
                0 <= x % 128 < 128,
                pow2(shift) > 0,
        ;
        assert(acc2 < 128 * pow2(shift));
        assert(acc2 < pow2(shift + 7));
        assert(x * pow2(shift) >= 128 * pow2(shift)) by (nonlinear_arith)
            requires
                x >= 128,
                pow2(shift) > 0,
        ;
        assert(pow2(shift + 7) < 0x100000000);
        if shift + 7 >= 32 {
            lemma_pow2_strictly_increases(31, shift + 7);
            assert(pow2(31) < pow2(shift + 7));
            assert(false);
        }
        assert(acc2 < 0x100000000);
        lemma_small_mod(acc2 as nat, 0x100000000);
        assert(shift + 7 < 35);
        let x2 = x / 128;
        let p = pow2(shift);
        assert(x2 * pow2(shift + 7) == (x / 128) * (128 * p)) by (nonlinear_arith)
            requires
                pow2(shift + 7) == p * 128,
                x2 == x / 128,
        ;
        assert(acc2 + x2 * pow2(shift + 7) == acc + x * pow2(shift));
        let tail = spec_leb_u32_bytes(x2);
        assert(bytes == seq![b] + tail);
        assert(d.subrange(pos + 1, pos + 1 + tail.len() as int) == tail) by {
            assert forall|i: int| 0 <= i < tail.len() implies d.subrange(
                pos + 1,
                pos + 1 + tail.len() as int,
            )[i] == tail[i] by {
                assert(d.subrange(pos, pos + bytes.len() as int)[i + 1] == bytes[i + 1]);
            }
            assert(d.subrange(pos + 1, pos + 1 + tail.len() as int) =~= tail);
        }
        lemma_leb_u32_roundtrip_rec(d, pos + 1, shift + 7, acc2 as u32, x2);
    }
}

/// Reinterpret a 64-bit pattern as a signed value (two's complement).
pub open spec fn spec_i64_of_bits(bits: u64) -> i64 {
    if bits < 0x8000000000000000 {
        bits as i64
    } else {
        (bits - 0x10000000000000000) as i64
    }
}

/// Signed LEB128 decoding: seven data bits per byte; after the last
/// group the value is sign-extended from the last group's bit 6.
/// Decoding aborts once the accumulated shift would reach 70 bits;
/// contributions past bit 63 are discarded, as a 64-bit accumulator does.
pub open spec fn spec_read_leb_i64_rec(d: Seq<u8>, pos: int, shift: nat, acc: u64) -> Result<
    (i64, int),
    ErrKind,
>
    decreases d.len() - pos,
{
    if pos < 0 || pos >= d.len() {
        Err(ErrKind::Eof)
    } else {
        let b = d[pos];
        let low = b % 128;
        let acc2 = ((acc + low * pow2(shift)) % 0x10000000000000000) as u64;
        let shift2 = shift + 7;
        if b < 128 {
            let bits = if shift2 < 64 && low >= 64 {
                ((acc2 + 0x10000000000000000 - pow2(shift2)) % 0x10000000000000000) as u64
            } else {
                acc2
            };
            Ok((spec_i64_of_bits(bits), pos + 1))
        } else if shift2 >= 70 {
            Err(ErrKind::Malformed("LEB128 overflow"@))
        } else {
            spec_read_leb_i64_rec(d, pos + 1, shift2, acc2)
        }
    }
}

pub open spec fn spec_read_leb_i64(d: Seq<u8>, pos: int) -> Result<(i64, int), ErrKind> {
    spec_read_leb_i64_rec(d, pos, 0, 0)
}

/// The signed LEB128 encoding of the remaining value `v`: groups of seven
/// bits, low first, continued until the group also carries the sign.
pub open spec fn spec_leb_i64_bytes(v: int) -> Seq<u8>
    decreases (if v < 0 {
        -v
    } else {
        v
    }),
{
    let low = v % 128;
    let next = v / 128;
    let more = if v < 0 {
        next != -1 || low < 64
    } else {
        next != 0 || low >= 64
    };
    if more {
        seq![(low + 128) as u8] + spec_leb_i64_bytes(next)
    } else {
        seq![low as u8]
    }
}

/// Append the signed LEB128 encoding of `value`.
pub fn write_leb128_i64(data: &mut Vec<u8>, value: i64)
    ensures
        final(data)@ == old(data)@ + spec_leb_i64_bytes(value as int),
    decreases (if value < 0 {
        -(value as int)
    } else {
        value as int
    }),
{
    let low: i64 = ((value % 128) + 128) % 128;
    proof {
        assert(low == (value as int) % 128) by (nonlinear_arith)
            requires
                low == ((value as int % 128) + 128) % 128,
        ;
        assert((value as int) - low == 128 * ((value as int) / 128)) by (nonlinear_arith)
            requires
                low == (value as int) % 128,
        ;
    }
    let next: i64 = (value - low) / 128;
    assert(next == (value as int) / 128) by (nonlinear_arith)
        requires
            (value as int) - low == 128 * ((value as int) / 128),
            next == ((value as int) - low) / 128,
    ;
    let more: bool = if value < 0 {
        next != -1 || low < 64
    } else {
        next != 0 || low >= 64
    };
    if more {
        data.push((low + 128) as u8);
        write_leb128_i64(data, next);
        assert(data@ =~= old(data)@ + spec_leb_i64_bytes(value as int));
    } else {
        data.push(low as u8);
        assert(data@ =~= old(data)@ + spec_leb_i64_bytes(value as int));
    }
}

fn read_leb_i64_rec(data: &[u8], pos: usize, shift: u32, acc: u64) -> (r: Result<
    (i64, usize),
    ParseError,
>)
    requires
        shift % 7 == 0,
        shift <= 63,
    ensures
        dec_ok(r, spec_read_leb_i64_rec(data@, pos as int, shift as nat, acc)),
        r matches Ok(t) ==> pos < t.1 <= data@.len(),
    decreases data@.len() - pos,
{
    proof {
        lemma2_to64();
        lemma2_to64_rest();
    }
    if pos >= data.len() {
        return Err(ParseError::UnexpectedEOF);
    }
    let b: u8 = data[pos];
    let low: u64 = (b % 128) as u64;
    let mult: u64 = if shift == 0 {
        1
    } else if shift == 7 {
        128
    } else if shift == 14 {
        16384
    } else if shift == 21 {
        2097152
    } else if shift == 28 {
        268435456
    } else if shift == 35 {
        0x800000000
    } else if shift == 42 {
        0x40000000000
    } else if shift == 49 {
        0x2000000000000
    } else if shift == 56 {
        0x100000000000000
    } else {
        0x8000000000000000
    };
    assert(mult == pow2(shift as nat));
    assert((low as u128) * (mult as u128) <= 127 * 0x8000000000000000) by (nonlinear_arith)
        requires
            low < 128,
            mult <= 0x8000000000000000,
    ;
    let wide: u128 = (acc as u128 + (low as u128) * (mult as u128)) % 0x10000000000000000;
    let acc2: u64 = wide as u64;
    proof {
        assert(acc2 == ((acc + low * pow2(shift as nat)) % 0x10000000000000000) as u64);
    }
    let shift2: u32 = shift + 7;
    if b < 128 {
        let bits: u64 = if shift2 < 64 && low >= 64 {
            let ext: u128 = (acc2 as u128 + 0x10000000000000000 - (pow2_u64_exec(shift2) as u128))
                % 0x10000000000000000;
            ext as u64
        } else {
            acc2
        };
        let v: i64 = if bits < 0x8000000000000000 {
            bits as i64
        } else {
            ((bits as i128) - 0x10000000000000000i128) as i64
        };
        assert(v == spec_i64_of_bits(bits));
        Ok((v, pos + 1))
    } else if shift2 >= 70 {
        Err(ParseError::MalformedInstruction("LEB128 overflow".to_owned()))
    } else {
        read_leb_i64_rec(data, pos + 1, shift2, acc2)
    }
}

/// The power of two for a shift below 64, as an executable value.
fn pow2_u64_exec(e: u32) -> (r: u64)
    requires
        e < 64,
    ensures
        r == pow2(e as nat),
{
    proof {
        lemma2_to64();
        lemma2_to64_rest();
        vstd::bits::lemma_u64_shl_is_mul(1u64, e as u64);
    }
    1u64 << e
}

/// Read a signed LEB128 integer at the cursor.
pub fn read_leb128_i64(data: &[u8], pos: usize) -> (r: Result<(i64, usize), ParseError>)
    ensures
        dec_ok(r, spec_read_leb_i64(data@, pos as int)),
        r matches Ok(t) ==> pos < t.1 <= data@.len(),
{
    read_leb_i64_rec(data, pos, 0, 0)
}

proof fn lemma_leb_i64_roundtrip_rec(d: Seq<u8>, pos: int, shift: nat, acc: u64, v: int, x: int)
    requires
        shift % 7 == 0,
        shift <= 63,
        acc < pow2(shift),
        x == acc + v * pow2(shift),
        -0x8000000000000000 <= x < 0x8000000000000000,
        0 <= pos,
        pos + spec_leb_i64_bytes(v).len() <= d.len(),
        d.subrange(pos, pos + spec_leb_i64_bytes(v).len() as int) == spec_leb_i64_bytes(v),
    ensures
        spec_read_leb_i64_rec(d, pos, shift, acc) == Ok::<(i64, int), ErrKind>(
            (x as i64, pos + spec_leb_i64_bytes(v).len()),
        ),
    decreases (if v < 0 {
        -v
    } else {
        v
    }),
{
    lemma2_to64();
    lemma2_to64_rest();
    lemma_pow2_pos(shift);
    let p = pow2(shift) as int;
    let bytes = spec_leb_i64_bytes(v);
    let low = v % 128;
    let next = v / 128;
    lemma_fundamental_div_mod(v, 128);
    let more = if v < 0 {
        next != -1 || low < 64
    } else {
        next != 0 || low >= 64
    };
    let b = d[pos];
    assert(b == bytes[0]);
    let shift2 = shift + 7;
    lemma_pow2_adds(shift, 7);
    assert(pow2(shift2) == p * 128);
    if !more {
        assert(b == low as u8);
        assert(b < 128 && b % 128 == low);
        if v >= 0 {
            assert(next == 0 && low < 64);
            assert(v == low);
            assert(x >= acc) by (nonlinear_arith)
                requires
                    x == acc + v * p,
                    v >= 0,
                    p > 0,
            ;
            assert(acc + low * p == x);
            lemma_small_mod(x as nat, 0x10000000000000000);
            assert(spec_read_leb_i64_rec(d, pos, shift, acc) == Ok::<(i64, int), ErrKind>(
                (x as i64, pos + 1),
            ));
        } else {
            assert(next == -1 && low >= 64);
            assert(v == low - 128);
            assert(-64 <= v <= -1);
            assert(x <= acc - p) by (nonlinear_arith)
                requires
                    x == acc + v * p,
                    v <= -1,
                    p > 0,
            ;
            assert(x < 0);
            assert(x >= acc - 64 * p) by (nonlinear_arith)
                requires
                    x == acc + v * p,
                    v >= -64,
                    p > 0,
            ;
            assert(low * p == (v + 128) * p == v * p + 128 * p) by (nonlinear_arith)
                requires
                    low == v + 128,
            ;
            assert(acc + low * p == x + 128 * p);
            assert(128 * p == pow2(shift2));
            if shift2 < 64 {
                assert(pow2(shift2) < 0x10000000000000000) by {
                    lemma_pow2_strictly_increases(shift2, 64);
                }
                assert(0 <= x + pow2(shift2) < pow2(shift2));
                lemma_small_mod((x + pow2(shift2)) as nat, 0x10000000000000000);
                let acc2 = (x + pow2(shift2)) as u64;
                assert(acc2 + 0x10000000000000000 - pow2(shift2) == x + 0x10000000000000000);
                assert(0x8000000000000000 <= x + 0x10000000000000000 < 0x10000000000000000);
                lemma_small_mod((x + 0x10000000000000000) as nat, 0x10000000000000000);
                assert(spec_i64_of_bits((x + 0x10000000000000000) as u64) == x as i64);
            } else {
                assert(shift == 63);
                assert(p == 0x8000000000000000);
                assert(v == -1) by (nonlinear_arith)
                    requires
                        x == acc + v * p,
                        p == 0x8000000000000000,
                        -p <= x < p,
                        0 <= acc < p,
                        v <= -1,
                ;
                assert(low == 127);
                assert(acc + low * p == acc + p + 63 * 0x10000000000000000);
                lemma_mod_multiples_vanish(63, acc + p, 0x10000000000000000);
                lemma_small_mod((acc + p) as nat, 0x10000000000000000);
                let acc2 = (acc + p) as u64;
                assert(acc2 >= 0x8000000000000000);
                assert(spec_i64_of_bits(acc2) == (acc - p) as i64);
                assert(x == acc - p);
            }
        }
    } else {
        assert(b == (low + 128) as u8);
        assert(b >= 128 && b % 128 == low);
        if shift == 63 {
            assert(v >= -1 && v <= 0) by (nonlinear_arith)
                requires
                    x == acc + v * p,
                    p == 0x8000000000000000,
                    -p <= x < p,
                    0 <= acc < p,
            ;
            assert(false);
        }
        assert(shift <= 56);
        assert(shift2 <= 63);
        assert(low * p <= 127 * p) by (nonlinear_arith)
            requires
                0 <= low < 128,
                p > 0,
        ;
        let acc2 = acc + low * p;
        assert(acc2 < 128 * p == pow2(shift2));
        assert(pow2(shift2) <= 0x8000000000000000) by {
            if shift2 < 63 {
                lemma_pow2_strictly_increases(shift2, 63);
            }
        }
        lemma_small_mod(acc2 as nat, 0x10000000000000000);
        let v2 = next;
        assert(v * p == v2 * pow2(shift2) + low * p) by (nonlinear_arith)
            requires
                v == 128 * v2 + low,
                pow2(shift2) == p * 128,
        ;
        assert(x == acc2 + v2 * pow2(shift2));
        let tail = spec_leb_i64_bytes(v2);
        assert(bytes == seq![b] + tail);
        assert(d.subrange(pos + 1, pos + 1 + tail.len() as int) == tail) by {
            assert forall|i: int| 0 <= i < tail.len() implies d.subrange(
                pos + 1,
                pos + 1 + tail.len() as int,
            )[i] == tail[i] by {
                assert(d.subrange(pos, pos + bytes.len() as int)[i + 1] == bytes[i + 1]);
            }
            assert(d.subrange(pos + 1, pos + 1 + tail.len() as int) =~= tail);
        }
        lemma_leb_i64_roundtrip_rec(d, pos + 1, shift2, acc2 as u64, v2, x);
    }
}

/// Law: a signed LEB128 encoding decodes to the value it was written
/// from, negative values included, consuming exactly the written bytes,
/// whatever follows them.
pub proof fn lemma_leb128_i64_roundtrip(x: i64, rest: Seq<u8>)
    ensures
        spec_read_leb_i64(spec_leb_i64_bytes(x as int) + rest, 0) == Ok::<(i64, int), ErrKind>(
            (x, spec_leb_i64_bytes(x as int).len() as int),
        ),
{
    lemma2_to64();
    let d = spec_leb_i64_bytes(x as int) + rest;
    assert(d.subrange(0, spec_leb_i64_bytes(x as int).len() as int) =~= spec_leb_i64_bytes(
        x as int,
    ));
    lemma_leb_i64_roundtrip_rec(d, 0, 0, 0, x as int, x as int);
}

/// An unsigned LEB128 encoding embedded at any cursor decodes to the
/// value it was written from.
pub proof fn lemma_leb_u32_roundtrip_at(d: Seq<u8>, pos: int, x: u32)
    requires
        0 <= pos,
        pos + spec_leb_u32_bytes(x).len() <= d.len(),
        d.subrange(pos, pos + spec_leb_u32_bytes(x).len() as int) == spec_leb_u32_bytes(x),
    ensures
        spec_read_leb_u32(d, pos) == Ok::<(u32, int), ErrKind>(
            (x, pos + spec_leb_u32_bytes(x).len()),
        ),
{
    lemma2_to64();
    lemma_leb_u32_roundtrip_rec(d, pos, 0, 0, x);
}

/// A signed LEB128 encoding embedded at any cursor decodes to the value
/// it was written from.
pub proof fn lemma_leb_i64_roundtrip_at(d: Seq<u8>, pos: int, x: i64)
    requires
        0 <= pos,
        pos + spec_leb_i64_bytes(x as int).len() <= d.len(),
        d.subrange(pos, pos + spec_leb_i64_bytes(x as int).len() as int) == spec_leb_i64_bytes(
            x as int,
        ),
    ensures
        spec_read_leb_i64(d, pos) == Ok::<(i64, int), ErrKind>(
            (x, pos + spec_leb_i64_bytes(x as int).len()),
        ),
{
    lemma2_to64();
    lemma_leb_i64_roundtrip_rec(d, pos, 0, 0, x as int, x as int);
}

/// Splitting an aligned subrange at a concatenation boundary.
pub proof fn lemma_subrange_split(d: Seq<u8>, pos: int, b1: Seq<u8>, b2: Seq<u8>)
    requires
        0 <= pos,
        pos + b1.len() + b2.len() <= d.len(),
        d.subrange(pos, pos + b1.len() + b2.len()) == b1 + b2,
    ensures
        d.subrange(pos, pos + b1.len() as int) == b1,
        d.subrange(pos + b1.len(), pos + b1.len() + b2.len()) == b2,
{
    let whole = d.subrange(pos, pos + b1.len() + b2.len());
    assert forall|i: int| 0 <= i < b1.len() implies d.subrange(pos, pos + b1.len() as int)[i]
        == b1[i] by {
        assert(whole[i] == (b1 + b2)[i]);
    }
    assert(d.subrange(pos, pos + b1.len() as int) =~= b1);
    assert forall|i: int| 0 <= i < b2.len() implies d.subrange(
        pos + b1.len(),
        pos + b1.len() + b2.len(),
    )[i] == b2[i] by {
        assert(whole[i + b1.len()] == (b1 + b2)[i + b1.len()]);
    }
    assert(d.subrange(pos + b1.len(), pos + b1.len() + b2.len()) =~= b2);
}

/// Law: an unsigned LEB128 encoding decodes to the value it was written
/// from, consuming exactly the written bytes, whatever follows them.
pub proof fn lemma_leb128_u32_roundtrip(x: u32, rest: Seq<u8>)
    ensures
        spec_read_leb_u32(spec_leb_u32_bytes(x) + rest, 0) == Ok::<(u32, int), ErrKind>(
            (x, spec_leb_u32_bytes(x).len() as int),
        ),
{
    lemma2_to64();
    let d = spec_leb_u32_bytes(x) + rest;
    assert(d.subrange(0, spec_leb_u32_bytes(x).len() as int) =~= spec_leb_u32_bytes(x));
    lemma_leb_u32_roundtrip_rec(d, 0, 0, 0, x);
}

/// The four little-endian bytes of `x`.
pub open spec fn spec_u32_le_bytes(x: u32) -> Seq<u8> {
    seq![
        (x % 0x100) as u8,
        ((x / 0x100) % 0x100) as u8,
        ((x / 0x10000) % 0x100) as u8,
        ((x / 0x1000000) % 0x100) as u8,
    ]
}

/// Append `x` as four little-endian bytes.
pub fn write_u32_le(data: &mut Vec<u8>, x: u32)
    ensures
        final(data)@ == old(data)@ + spec_u32_le_bytes(x),
{
    data.push((x % 0x100) as u8);
    data.push(((x / 0x100) % 0x100) as u8);
    data.push(((x / 0x10000) % 0x100) as u8);
    data.push(((x / 0x1000000) % 0x100) as u8);
    assert(data@ =~= old(data)@ + spec_u32_le_bytes(x));
}

/// Law: the four little-endian bytes of a 32-bit value read back as it.
pub proof fn lemma_u32_le_roundtrip(x: u32, d: Seq<u8>, pos: int)
    requires
        0 <= pos,
        pos + 4 <= d.len(),
        d.subrange(pos, pos + 4) == spec_u32_le_bytes(x),
    ensures
        spec_read_u32_le(d, pos) == Ok::<(u32, int), ErrKind>((x, pos + 4)),
{
    let b = spec_u32_le_bytes(x);
    assert(d[pos] == b[0] && d[pos + 1] == b[1] && d[pos + 2] == b[2] && d[pos + 3] == b[3]) by {
        assert(d.subrange(pos, pos + 4)[0] == b[0]);
        assert(d.subrange(pos, pos + 4)[1] == b[1]);
        assert(d.subrange(pos, pos + 4)[2] == b[2]);
        assert(d.subrange(pos, pos + 4)[3] == b[3]);
    }
    lemma_fundamental_div_mod(x as int, 0x100);
    lemma_fundamental_div_mod(x as int / 0x100, 0x100);
    lemma_fundamental_div_mod(x as int / 0x10000, 0x100);
    lemma_div_denominator(x as int, 0x100, 0x100);
    lemma_div_denominator(x as int, 0x10000, 0x100);
    assert(x as int / 0x1000000 < 0x100);
    lemma_small_mod((x as int / 0x1000000) as nat, 0x100);
}

/// The eight little-endian bytes of `x`.
pub open spec fn spec_u64_le_bytes(x: u64) -> Seq<u8> {
    seq![
        (x % 0x100) as u8,
        ((x / 0x100) % 0x100) as u8,
        ((x / 0x10000) % 0x100) as u8,
        ((x / 0x1000000) % 0x100) as u8,
        ((x / 0x100000000) % 0x100) as u8,
        ((x / 0x10000000000) % 0x100) as u8,
        ((x / 0x1000000000000) % 0x100) as u8,
        ((x / 0x100000000000000) % 0x100) as u8,
    ]
}

/// Append `x` as eight little-endian bytes.
pub fn write_u64_le(data: &mut Vec<u8>, x: u64)
    ensures
        final(data)@ == old(data)@ + spec_u64_le_bytes(x),
{
    data.push((x % 0x100) as u8);
    data.push(((x / 0x100) % 0x100) as u8);
    data.push(((x / 0x10000) % 0x100) as u8);
    data.push(((x / 0x1000000) % 0x100) as u8);
    data.push(((x / 0x100000000) % 0x100) as u8);
    data.push(((x / 0x10000000000) % 0x100) as u8);
    data.push(((x / 0x1000000000000) % 0x100) as u8);
    data.push(((x / 0x100000000000000) % 0x100) as u8);
    assert(data@ =~= old(data)@ + spec_u64_le_bytes(x));
}

/// Law: the eight little-endian bytes of a 64-bit value read back as it.
pub proof fn lemma_u64_le_roundtrip(x: u64, d: Seq<u8>, pos: int)
    requires
        0 <= pos,
        pos + 8 <= d.len(),
        d.subrange(pos, pos + 8) == spec_u64_le_bytes(x),
    ensures
        spec_read_u64_le(d, pos) == Ok::<(u64, int), ErrKind>((x, pos + 8)),
{
    let b = spec_u64_le_bytes(x);
    assert forall|i: int| 0 <= i < 8 implies d[pos + i] == b[i] by {
        assert(d.subrange(pos, pos + 8)[i] == b[i]);
    }
    assert(d[pos] == b[0] && d[pos + 1] == b[1] && d[pos + 2] == b[2] && d[pos + 3] == b[3]
        && d[pos + 4] == b[4] && d[pos + 5] == b[5] && d[pos + 6] == b[6] && d[pos + 7] == b[7]);
    let x0 = x as int;
    lemma_fundamental_div_mod(x0, 0x100);
    lemma_fundamental_div_mod(x0 / 0x100, 0x100);
    lemma_fundamental_div_mod(x0 / 0x10000, 0x100);
    lemma_fundamental_div_mod(x0 / 0x1000000, 0x100);
    lemma_fundamental_div_mod(x0 / 0x100000000, 0x100);
    lemma_fundamental_div_mod(x0 / 0x10000000000, 0x100);
    lemma_fundamental_div_mod(x0 / 0x1000000000000, 0x100);
    lemma_div_denominator(x0, 0x100, 0x100);
    lemma_div_denominator(x0, 0x10000, 0x100);
    lemma_div_denominator(x0, 0x1000000, 0x100);
    lemma_div_denominator(x0, 0x100000000, 0x100);
    lemma_div_denominator(x0, 0x10000000000, 0x100);
    lemma_div_denominator(x0, 0x1000000000000, 0x100);
    assert(x0 / 0x100000000000000 < 0x100);
    lemma_small_mod((x0 / 0x100000000000000) as nat, 0x100);
}

/// A length-delimited UTF-8 string at the cursor: truncation and
/// malformed UTF-8 are distinct failures.
pub open spec fn spec_read_string(d: Seq<u8>, pos: int, len: int) -> Result<
    (Seq<char>, int),
    ErrKind,
> {
    if 0 <= pos && 0 <= len && pos + len <= d.len() {
        let bytes = d.subrange(pos, pos + len);
        if valid_utf8(bytes) {
            Ok((decode_utf8(bytes), pos + len))
        } else {
            Err(ErrKind::Utf8)
        }
    } else {
        Err(ErrKind::Eof)
    }
}

/// Relies on `String::from_utf8`: it succeeds exactly on valid UTF-8 and
/// yields the string those bytes encode, per vstd's model of UTF-8.
#[verifier::external_body]
pub(crate) fn string_from_utf8(v: Vec<u8>) -> (r: Option<String>)
    ensures
        r is Some <==> valid_utf8(v@),
        r matches Some(s) ==> s@ == decode_utf8(v@),
{
    String::from_utf8(v).ok()
}

/// Copy `len` bytes at the cursor into a fresh vector.
pub(crate) fn read_byte_run(data: &[u8], pos: usize, len: usize) -> (r: Result<(Vec<u8>, usize), ParseError>)
    ensures
        match r {
            Ok((v, p)) => pos + len <= data@.len() && v@ == data@.subrange(
                pos as int,
                pos as int + len as int,
            ) && p == pos + len,
            Err(e) => pos + len > data@.len() && matches_err(e, ErrKind::Eof),
        },
{
    if pos <= data.len() && data.len() - pos >= len {
        let n: usize = data.len();
        let mut buf: Vec<u8> = Vec::new();
        let mut i: usize = 0;
        while i < len
            invariant
                pos + len <= n == data@.len(),
                i <= len,
                buf@ == data@.subrange(pos as int, pos as int + i as int),
            decreases len - i,
        {
            buf.push(data[pos + i]);
            i = i + 1;
            assert(buf@ =~= data@.subrange(pos as int, pos as int + i as int));
        }
        Ok((buf, pos + len))
    } else {
        Err(ParseError::UnexpectedEOF)
    }
}

/// Read `len` bytes at the cursor and decode them as UTF-8.
pub fn read_string(data: &[u8], pos: usize, len: usize) -> (r: Result<(String, usize), ParseError>)
    ensures
        match r {
            Ok((s, p)) => spec_read_string(data@, pos as int, len as int) == Ok::<
                (Seq<char>, int),
                ErrKind,
            >((s@, p as int)),
            Err(e) => spec_read_string(data@, pos as int, len as int) matches Err(k)
                && matches_err(e, k),
        },
{
    match read_byte_run(data, pos, len) {
        Ok((buf, p)) => match string_from_utf8(buf) {
            Some(s) => Ok((s, p)),
            None => Err(ParseError::InvalidUtf8),
        },
        Err(e) => Err(e),
    }
}

/// Append a byte slice.
pub fn write_bytes(data: &mut Vec<u8>, src: &[u8])
    ensures
        final(data)@ == old(data)@ + src@,
{
    let mut i: usize = 0;
    while i < src.len()
        invariant
            i <= src@.len(),
            data@ == old(data)@ + src@.subrange(0, i as int),
        decreases src@.len() - i,
    {
        data.push(src[i]);
        i = i + 1;
        assert(data@ =~= old(data)@ + src@.subrange(0, i as int));
    }
    assert(src@.subrange(0, src@.len() as int) =~= src@);
}

/// Relies on `String::push`: appends exactly one character.
#[verifier::external_body]
pub fn push_char(s: &mut String, c: char)
    ensures
        final(s)@ == old(s)@.push(c),
{
    s.push(c);
}

/// Relies on `String::push_str`: appends the other string's characters.
#[verifier::external_body]
pub fn append_str(s: &mut String, other: &str)
    ensures
        final(s)@ == old(s)@ + other@,
{
    s.push_str(other);
}

/// Append the UTF-8 bytes of a string.
pub fn write_str_bytes(data: &mut Vec<u8>, s: &str)
    ensures
        final(data)@ == old(data)@ + encode_utf8(s@),
{
    write_bytes(data, s.as_bytes());
}

} // verus!
