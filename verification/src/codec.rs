//! The byte-level encoding contract of the catalogue.
//!
//! Every catalogue value maps to a byte representation and back, loss-free:
//! fixed-width integers are little-endian, variable-length sequences and text
//! are length-prefixed (compact prefix), enumerations are tag-prefixed, and
//! fixed-size arrays and tuples encode their elements in declared order with
//! no separators. Decoding either returns a fully-formed value or reports
//! [`CodecError::MalformedInput`]; it never returns a partial value.

use vstd::prelude::*;
use vstd::utf8::{decode_utf8, encode_utf8, valid_utf8};

verus! {

/// Decode-time failure: a declared tag is out of the known set, a declared
/// length exceeds the remaining input, or text bytes are not valid UTF-8.
#[derive(Clone, Copy, Debug, PartialEq, Eq, Structural)]
pub enum CodecError {
    MalformedInput,
}

// ---------------------------------------------------------------------------
// Little-endian fixed-width integers
// ---------------------------------------------------------------------------

/// 256 raised to the power `n`: the number of values a `n`-byte field holds.
pub open spec fn pow256(n: nat) -> nat
    decreases n,
{
    if n == 0 {
        1
    } else {
        256 * pow256((n - 1) as nat)
    }
}

/// The `n`-byte little-endian encoding of `x`: least significant byte first.
pub open spec fn spec_le_bytes(x: nat, n: nat) -> Seq<u8>
    decreases n,
{
    if n == 0 {
        Seq::empty()
    } else {
        seq![(x % 256) as u8] + spec_le_bytes(x / 256, (n - 1) as nat)
    }
}

/// The value read little-endian from a whole byte sequence.
pub open spec fn spec_from_le_bytes(s: Seq<u8>) -> nat
    decreases s.len(),
{
    if s.len() == 0 {
        0
    } else {
        (s[0] as nat) + 256 * spec_from_le_bytes(s.drop_first())
    }
}

pub proof fn lemma_pow256_values()
    ensures
        pow256(1) == 0x100,
        pow256(2) == 0x1_0000,
        pow256(4) == 0x1_0000_0000,
        pow256(8) == 0x1_0000_0000_0000_0000,
        pow256(15) == 0x1_0000_0000_0000_0000_0000_0000_0000_00,
        pow256(16) == 0x1_0000_0000_0000_0000_0000_0000_0000_0000,
{
    assert(pow256(0) == 1);
    assert(pow256(1) == 0x100);
    assert(pow256(2) == 0x1_0000);
    assert(pow256(3) == 0x100_0000);
    assert(pow256(4) == 0x1_0000_0000);
    assert(pow256(5) == 0x100_0000_0000);
    assert(pow256(6) == 0x1_0000_0000_0000);
    assert(pow256(7) == 0x100_0000_0000_0000);
    assert(pow256(8) == 0x1_0000_0000_0000_0000);
    assert(pow256(9) == 0x100_0000_0000_0000_0000);
    assert(pow256(10) == 0x1_0000_0000_0000_0000_0000);
    assert(pow256(11) == 0x100_0000_0000_0000_0000_0000);
    assert(pow256(12) == 0x1_0000_0000_0000_0000_0000_0000);
    assert(pow256(13) == 0x100_0000_0000_0000_0000_0000_0000);
    assert(pow256(14) == 0x1_0000_0000_0000_0000_0000_0000_0000);
    assert(pow256(15) == 0x100_0000_0000_0000_0000_0000_0000_0000);
    assert(pow256(16) == 0x1_0000_0000_0000_0000_0000_0000_0000_0000);
}

pub proof fn lemma_pow256_mono(a: nat, b: nat)
    requires
        a <= b,
    ensures
        pow256(a) <= pow256(b),
    decreases b,
{
    if a < b {
        lemma_pow256_mono(a, (b - 1) as nat);
        assert(pow256(b) == 256 * pow256((b - 1) as nat));
        assert(pow256((b - 1) as nat) <= 256 * pow256((b - 1) as nat)) by (nonlinear_arith);
    }
}

pub proof fn lemma_le_bytes_len(x: nat, n: nat)
    ensures
        spec_le_bytes(x, n).len() == n,
    decreases n,
{
    if n > 0 {
        lemma_le_bytes_len(x / 256, (n - 1) as nat);
    }
}

pub proof fn lemma_from_le_bytes_bound(s: Seq<u8>)
    ensures
        spec_from_le_bytes(s) < pow256(s.len()),
    decreases s.len(),
{
    if s.len() > 0 {
        lemma_from_le_bytes_bound(s.drop_first());
        let tail = spec_from_le_bytes(s.drop_first());
        let p = pow256((s.len() - 1) as nat);
        assert(tail + 1 <= p);
        assert(256 * (tail + 1) <= 256 * p) by (nonlinear_arith)
            requires
                tail + 1 <= p,
        ;
    }
}

/// Reading back the little-endian encoding of a value that fits returns the
/// value itself.
pub proof fn lemma_le_bytes_round_trip(x: nat, n: nat)
    requires
        x < pow256(n),
    ensures
        spec_from_le_bytes(spec_le_bytes(x, n)) == x,
    decreases n,
{
    if n > 0 {
        let head: u8 = (x % 256) as u8;
        let tail = spec_le_bytes(x / 256, (n - 1) as nat);
        assert((seq![head] + tail).drop_first() =~= tail);
        assert((seq![head] + tail)[0] == head);
        assert(x / 256 < pow256((n - 1) as nat)) by (nonlinear_arith)
            requires
                x < 256 * pow256((n - 1) as nat),
        ;
        lemma_le_bytes_round_trip(x / 256, (n - 1) as nat);
        assert(spec_from_le_bytes(spec_le_bytes(x, n)) == (x % 256) + 256 * (x / 256));
    }
}

/// Appends the bytes of `b` to `out`.
fn push_bytes(out: &mut Vec<u8>, b: &[u8])
    ensures
        final(out)@ == old(out)@ + b@,
{
    let mut i: usize = 0;
    while i < b.len()
        invariant
            i <= b@.len(),
            out@ == old(out)@ + b@.subrange(0, i as int),
        decreases b@.len() - i,
    {
        let x: u8 = b[i];
        out.push(x);
        proof {
            assert(old(out)@ + b@.subrange(0, (i + 1) as int) =~= (old(out)@ + b@.subrange(
                0,
                i as int,
            )).push(b@[i as int]));
        }
        i += 1;
    }
    proof {
        assert(b@.subrange(0, b@.len() as int) =~= b@);
    }
}

/// Appends the `n`-byte little-endian encoding of `x` to `out`.
fn encode_uint_le(out: &mut Vec<u8>, x: u128, n: usize)
    requires
        (x as nat) < pow256(n as nat),
    ensures
        final(out)@ == old(out)@ + spec_le_bytes(x as nat, n as nat),
{
    let mut cur: u128 = x;
    let mut i: usize = 0;
    while i < n
        invariant
            i <= n,
            (cur as nat) < pow256((n - i) as nat),
            old(out)@ + spec_le_bytes(x as nat, n as nat) == out@ + spec_le_bytes(
                cur as nat,
                (n - i) as nat,
            ),
        decreases n - i,
    {
        let b: u8 = (cur % 256) as u8;
        proof {
            let rem: nat = (n - i) as nat;
            assert(spec_le_bytes(cur as nat, rem) == seq![((cur as nat) % 256) as u8]
                + spec_le_bytes((cur as nat) / 256, (rem - 1) as nat));
            assert(out@ + spec_le_bytes(cur as nat, rem) =~= out@.push(b) + spec_le_bytes(
                (cur as nat) / 256,
                (rem - 1) as nat,
            ));
            assert((cur as nat) / 256 < pow256((rem - 1) as nat)) by (nonlinear_arith)
                requires
                    (cur as nat) < 256 * pow256((rem - 1) as nat),
            ;
        }
        out.push(b);
        cur = cur / 256;
        i += 1;
    }
    proof {
        assert(out@ + spec_le_bytes(cur as nat, 0) =~= out@);
    }
}

/// Reads the `n`-byte little-endian value at `pos`.
fn decode_uint_le(bytes: &[u8], pos: usize, n: usize) -> (r: u128)
    requires
        n <= 16,
        pos + n <= bytes@.len(),
    ensures
        (r as nat) == spec_from_le_bytes(bytes@.subrange(pos as int, (pos + n) as int)),
        (r as nat) < pow256(n as nat),
{
    proof {
        lemma_pow256_values();
    }
    let len: usize = bytes.len();
    let mut acc: u128 = 0;
    let mut j: usize = n;
    while j > 0
        invariant
            j <= n <= 16,
            len == bytes@.len(),
            pos + n <= bytes@.len(),
            (acc as nat) == spec_from_le_bytes(bytes@.subrange((pos + j) as int, (pos + n) as int)),
            (acc as nat) < pow256((n - j) as nat),
            pow256(15) == 0x1_0000_0000_0000_0000_0000_0000_0000_00,
            pow256(16) == 0x1_0000_0000_0000_0000_0000_0000_0000_0000,
        decreases j,
    {
        j -= 1;
        let b: u8 = bytes[pos + j];
        proof {
            lemma_pow256_mono(((n - j) as nat - 1) as nat, 15);
            let s = bytes@.subrange((pos + j) as int, (pos + n) as int);
            assert(s.drop_first() =~= bytes@.subrange((pos + j + 1) as int, (pos + n) as int));
            assert(s[0] == bytes@[(pos + j) as int]);
            assert((acc as nat) * 256 + 256 <= 256 * pow256((n - j - 1) as nat)) by (nonlinear_arith)
                requires
                    (acc as nat) < pow256((n - j - 1) as nat),
            ;
        }
        acc = acc * 256 + (b as u128);
    }
    proof {
        lemma_from_le_bytes_bound(bytes@.subrange(pos as int, (pos + n) as int));
    }
    acc
}

// ---------------------------------------------------------------------------
// Per-width fields
// ---------------------------------------------------------------------------

/// The unsigned byte stored at `off`.
pub open spec fn spec_u8_at(s: Seq<u8>, off: int) -> u8 {
    spec_from_le_bytes(s.subrange(off, off + 1)) as u8
}

/// The unsigned 16-bit value stored little-endian at `off`.
pub open spec fn spec_u16_at(s: Seq<u8>, off: int) -> u16 {
    spec_from_le_bytes(s.subrange(off, off + 2)) as u16
}

/// The unsigned 32-bit value stored little-endian at `off`.
pub open spec fn spec_u32_at(s: Seq<u8>, off: int) -> u32 {
    spec_from_le_bytes(s.subrange(off, off + 4)) as u32
}

/// The unsigned 64-bit value stored little-endian at `off`.
pub open spec fn spec_u64_at(s: Seq<u8>, off: int) -> u64 {
    spec_from_le_bytes(s.subrange(off, off + 8)) as u64
}

/// The unsigned 128-bit value stored little-endian at `off`.
pub open spec fn spec_u128_at(s: Seq<u8>, off: int) -> u128 {
    spec_from_le_bytes(s.subrange(off, off + 16)) as u128
}

/// The signed byte stored at `off`, read as two's complement.
pub open spec fn spec_i8_at(s: Seq<u8>, off: int) -> i8 {
    (spec_from_le_bytes(s.subrange(off, off + 1)) as u8) as i8
}

/// The signed 16-bit value stored little-endian at `off`.
pub open spec fn spec_i16_at(s: Seq<u8>, off: int) -> i16 {
    (spec_from_le_bytes(s.subrange(off, off + 2)) as u16) as i16
}

/// The signed 32-bit value stored little-endian at `off`.
pub open spec fn spec_i32_at(s: Seq<u8>, off: int) -> i32 {
    (spec_from_le_bytes(s.subrange(off, off + 4)) as u32) as i32
}

/// The signed 64-bit value stored little-endian at `off`.
pub open spec fn spec_i64_at(s: Seq<u8>, off: int) -> i64 {
    (spec_from_le_bytes(s.subrange(off, off + 8)) as u64) as i64
}

/// The signed 128-bit value stored little-endian at `off`.
pub open spec fn spec_i128_at(s: Seq<u8>, off: int) -> i128 {
    (spec_from_le_bytes(s.subrange(off, off + 16)) as u128) as i128
}

/// The two's-complement little-endian encoding of a signed byte.
pub open spec fn spec_encode_i8(x: i8) -> Seq<u8> {
    spec_le_bytes((x as u8) as nat, 1)
}

/// The two's-complement little-endian encoding of a signed 16-bit value.
pub open spec fn spec_encode_i16(x: i16) -> Seq<u8> {
    spec_le_bytes((x as u16) as nat, 2)
}

/// The two's-complement little-endian encoding of a signed 32-bit value.
pub open spec fn spec_encode_i32(x: i32) -> Seq<u8> {
    spec_le_bytes((x as u32) as nat, 4)
}

/// The two's-complement little-endian encoding of a signed 64-bit value.
pub open spec fn spec_encode_i64(x: i64) -> Seq<u8> {
    spec_le_bytes((x as u64) as nat, 8)
}

/// The two's-complement little-endian encoding of a signed 128-bit value.
pub open spec fn spec_encode_i128(x: i128) -> Seq<u8> {
    spec_le_bytes((x as u128) as nat, 16)
}

/// Casting a signed value to its unsigned width and back is the identity.
pub proof fn lemma_signed_cast_round_trip(a: i8, b: i16, c: i32, d: i64, e: i128)
    ensures
        ((a as u8) as i8) == a,
        ((b as u16) as i16) == b,
        ((c as u32) as i32) == c,
        ((d as u64) as i64) == d,
        ((e as u128) as i128) == e,
{
    assert((a as u8) as i8 == a) by (bit_vector);
    assert((b as u16) as i16 == b) by (bit_vector);
    assert((c as u32) as i32 == c) by (bit_vector);
    assert((d as u64) as i64 == d) by (bit_vector);
    assert((e as u128) as i128 == e) by (bit_vector);
}

fn enc_u8(out: &mut Vec<u8>, x: u8)
    ensures
        final(out)@ == old(out)@ + spec_le_bytes(x as nat, 1),
{
    proof {
        lemma_pow256_values();
    }
    encode_uint_le(out, x as u128, 1);
}

fn enc_u16(out: &mut Vec<u8>, x: u16)
    ensures
        final(out)@ == old(out)@ + spec_le_bytes(x as nat, 2),
{
    proof {
        lemma_pow256_values();
    }
    encode_uint_le(out, x as u128, 2);
}

fn enc_u32(out: &mut Vec<u8>, x: u32)
    ensures
        final(out)@ == old(out)@ + spec_le_bytes(x as nat, 4),
{
    proof {
        lemma_pow256_values();
    }
    encode_uint_le(out, x as u128, 4);
}

fn enc_u64(out: &mut Vec<u8>, x: u64)
    ensures
        final(out)@ == old(out)@ + spec_le_bytes(x as nat, 8),
{
    proof {
        lemma_pow256_values();
    }
    encode_uint_le(out, x as u128, 8);
}

fn enc_u128(out: &mut Vec<u8>, x: u128)
    ensures
        final(out)@ == old(out)@ + spec_le_bytes(x as nat, 16),
{
    proof {
        lemma_pow256_values();
    }
    encode_uint_le(out, x, 16);
}

fn enc_i8(out: &mut Vec<u8>, x: i8)
    ensures
        final(out)@ == old(out)@ + spec_encode_i8(x),
{
    let u: u8 = #[verifier::truncate] (x as u8);
    enc_u8(out, u);
}

fn enc_i16(out: &mut Vec<u8>, x: i16)
    ensures
        final(out)@ == old(out)@ + spec_encode_i16(x),
{
    let u: u16 = #[verifier::truncate] (x as u16);
    enc_u16(out, u);
}

fn enc_i32(out: &mut Vec<u8>, x: i32)
    ensures
        final(out)@ == old(out)@ + spec_encode_i32(x),
{
    let u: u32 = #[verifier::truncate] (x as u32);
    enc_u32(out, u);
}

fn enc_i64(out: &mut Vec<u8>, x: i64)
    ensures
        final(out)@ == old(out)@ + spec_encode_i64(x),
{
    let u: u64 = #[verifier::truncate] (x as u64);
    enc_u64(out, u);
}

fn enc_i128(out: &mut Vec<u8>, x: i128)
    ensures
        final(out)@ == old(out)@ + spec_encode_i128(x),
{
    let u: u128 = #[verifier::truncate] (x as u128);
    enc_u128(out, u);
}

fn read_u8(bytes: &[u8], pos: usize) -> (r: u8)
    requires
        pos + 1 <= bytes@.len(),
    ensures
        r == spec_u8_at(bytes@, pos as int),
{
    proof {
        lemma_pow256_values();
    }
    decode_uint_le(bytes, pos, 1) as u8
}

fn read_u16(bytes: &[u8], pos: usize) -> (r: u16)
    requires
        pos + 2 <= bytes@.len(),
    ensures
        r == spec_u16_at(bytes@, pos as int),
{
    proof {
        lemma_pow256_values();
    }
    decode_uint_le(bytes, pos, 2) as u16
}

fn read_u32(bytes: &[u8], pos: usize) -> (r: u32)
    requires
        pos + 4 <= bytes@.len(),
    ensures
        r == spec_u32_at(bytes@, pos as int),
{
    proof {
        lemma_pow256_values();
    }
    decode_uint_le(bytes, pos, 4) as u32
}

fn read_u64(bytes: &[u8], pos: usize) -> (r: u64)
    requires
        pos + 8 <= bytes@.len(),
    ensures
        r == spec_u64_at(bytes@, pos as int),
{
    proof {
        lemma_pow256_values();
    }
    decode_uint_le(bytes, pos, 8) as u64
}

fn read_u128(bytes: &[u8], pos: usize) -> (r: u128)
    requires
        pos + 16 <= bytes@.len(),
    ensures
        r == spec_u128_at(bytes@, pos as int),
{
    proof {
        lemma_pow256_values();
    }
    decode_uint_le(bytes, pos, 16)
}

fn read_i8(bytes: &[u8], pos: usize) -> (r: i8)
    requires
        pos + 1 <= bytes@.len(),
    ensures
        r == spec_i8_at(bytes@, pos as int),
{
    let u: u8 = read_u8(bytes, pos);
    #[verifier::truncate] (u as i8)
}

fn read_i16(bytes: &[u8], pos: usize) -> (r: i16)
    requires
        pos + 2 <= bytes@.len(),
    ensures
        r == spec_i16_at(bytes@, pos as int),
{
    let u: u16 = read_u16(bytes, pos);
    #[verifier::truncate] (u as i16)
}

fn read_i32(bytes: &[u8], pos: usize) -> (r: i32)
    requires
        pos + 4 <= bytes@.len(),
    ensures
        r == spec_i32_at(bytes@, pos as int),
{
    let u: u32 = read_u32(bytes, pos);
    #[verifier::truncate] (u as i32)
}

fn read_i64(bytes: &[u8], pos: usize) -> (r: i64)
    requires
        pos + 8 <= bytes@.len(),
    ensures
        r == spec_i64_at(bytes@, pos as int),
{
    let u: u64 = read_u64(bytes, pos);
    #[verifier::truncate] (u as i64)
}

fn read_i128(bytes: &[u8], pos: usize) -> (r: i128)
    requires
        pos + 16 <= bytes@.len(),
    ensures
        r == spec_i128_at(bytes@, pos as int),
{
    let u: u128 = read_u128(bytes, pos);
    #[verifier::truncate] (u as i128)
}

// ---------------------------------------------------------------------------
// Compact length prefix
// ---------------------------------------------------------------------------

/// The compact encoding of a 32-bit length or count.
///
/// The two low bits of the first byte select the mode: `0b00` packs the value
/// in the remaining six bits, `0b01` and `0b10` pack it in the high bits of a
/// two- or four-byte little-endian field, and `0b11` announces a four-byte
/// little-endian field holding the value on its own. Each value has exactly
/// one accepted form: the shortest.
pub open spec fn spec_encode_compact_u32(v: u32) -> Seq<u8> {
    if v < 64 {
        seq![(v * 4) as u8]
    } else if v < 16384 {
        spec_le_bytes((v * 4 + 1) as nat, 2)
    } else if v < 1073741824 {
        spec_le_bytes((v * 4 + 2) as nat, 4)
    } else {
        seq![3u8] + spec_le_bytes(v as nat, 4)
    }
}

/// Reads a compact 32-bit value from the front of `s`: the decoded value and
/// the number of bytes it occupied, or nothing when the input is truncated or
/// not in canonical form.
pub open spec fn spec_decode_compact_u32(s: Seq<u8>) -> Option<(u32, int)> {
    if s.len() == 0 {
        None
    } else {
        let b = s[0];
        if b % 4 == 0 {
            Some(((b / 4) as u32, 1))
        } else if b % 4 == 1 {
            if s.len() >= 2 {
                let x = spec_from_le_bytes(s.subrange(0, 2));
                if x / 4 >= 64 {
                    Some(((x / 4) as u32, 2))
                } else {
                    None
                }
            } else {
                None
            }
        } else if b % 4 == 2 {
            if s.len() >= 4 {
                let x = spec_from_le_bytes(s.subrange(0, 4));
                if x / 4 >= 16384 {
                    Some(((x / 4) as u32, 4))
                } else {
                    None
                }
            } else {
                None
            }
        } else {
            if b == 3 && s.len() >= 5 {
                let x = spec_from_le_bytes(s.subrange(1, 5));
                if x >= 1073741824 {
                    Some((x as u32, 5))
                } else {
                    None
                }
            } else {
                None
            }
        }
    }
}

/// Appends the compact encoding of `v` to `out`.
pub fn encode_compact_u32(out: &mut Vec<u8>, v: u32)
    ensures
        final(out)@ == old(out)@ + spec_encode_compact_u32(v),
{
    proof {
        lemma_pow256_values();
    }
    if v < 64 {
        let b: u8 = (v * 4) as u8;
        out.push(b);
        proof {
            assert(old(out)@ + spec_encode_compact_u32(v) =~= old(out)@.push(b));
        }
    } else if v < 16384 {
        encode_uint_le(out, (v as u128) * 4 + 1, 2);
    } else if v < 1073741824 {
        encode_uint_le(out, (v as u128) * 4 + 2, 4);
    } else {
        out.push(3u8);
        encode_uint_le(out, v as u128, 4);
        proof {
            assert(old(out)@ + spec_encode_compact_u32(v) =~= old(out)@.push(3u8)
                + spec_le_bytes(v as nat, 4));
        }
    }
}

/// Reads the compact value at `pos`, reporting where the next field starts.
pub fn decode_compact_u32(bytes: &[u8], pos: usize) -> (r: Result<(u32, usize), CodecError>)
    requires
        pos <= bytes@.len(),
    ensures
        ({
            let s = bytes@.skip(pos as int);
            match r {
                Ok((v, end)) => pos < end <= bytes@.len() && spec_decode_compact_u32(s) == Some(
                    (v, end - pos),
                ),
                Err(e) => spec_decode_compact_u32(s) is None && e == CodecError::MalformedInput,
            }
        }),
{
    proof {
        lemma_pow256_values();
    }
    let ghost s = bytes@.skip(pos as int);
    let len: usize = bytes.len();
    if pos >= len {
        return Err(CodecError::MalformedInput);
    }
    let b: u8 = bytes[pos];
    proof {
        assert(s[0] == b);
    }
    if b % 4 == 0 {
        Ok(((b / 4) as u32, pos + 1))
    } else if b % 4 == 1 {
        if len - pos >= 2 {
            proof {
                assert(s.subrange(0, 2) =~= bytes@.subrange(pos as int, pos + 2));
            }
            let x: u128 = decode_uint_le(bytes, pos, 2);
            let v: u32 = (x / 4) as u32;
            if v >= 64 {
                Ok((v, pos + 2))
            } else {
                Err(CodecError::MalformedInput)
            }
        } else {
            Err(CodecError::MalformedInput)
        }
    } else if b % 4 == 2 {
        if len - pos >= 4 {
            proof {
                assert(s.subrange(0, 4) =~= bytes@.subrange(pos as int, pos + 4));
            }
            let x: u128 = decode_uint_le(bytes, pos, 4);
            let v: u32 = (x / 4) as u32;
            if v >= 16384 {
                Ok((v, pos + 4))
            } else {
                Err(CodecError::MalformedInput)
            }
        } else {
            Err(CodecError::MalformedInput)
        }
    } else {
        if b == 3 && len - pos >= 5 {
            proof {
                assert(s.subrange(1, 5) =~= bytes@.subrange(pos + 1, pos + 5));
            }
            let x: u128 = decode_uint_le(bytes, pos + 1, 4);
            if x >= 1073741824 {
                Ok((x as u32, pos + 5))
            } else {
                Err(CodecError::MalformedInput)
            }
        } else {
            Err(CodecError::MalformedInput)
        }
    }
}

/// Decoding the compact encoding of any value, whatever follows it, returns
/// the value and consumes exactly the encoding.
pub proof fn lemma_compact_u32_round_trip(v: u32, rest: Seq<u8>)
    ensures
        ({
            let e = spec_encode_compact_u32(v);
            spec_decode_compact_u32(e + rest) == Some((v, e.len() as int))
        }),
{
    lemma_pow256_values();
    let e = spec_encode_compact_u32(v);
    let s = e + rest;
    if v < 64 {
        assert(s[0] == (v * 4) as u8);
    } else if v < 16384 {
        let x: nat = (v * 4 + 1) as nat;
        lemma_le_bytes_len(x, 2);
        assert(e == spec_le_bytes(x, 2));
        assert(s[0] == e[0]);
        assert(e[0] == (x % 256) as u8);
        assert((x % 256) % 4 == x % 4) by (nonlinear_arith);
        assert(s.subrange(0, 2) =~= e);
        lemma_le_bytes_round_trip(x, 2);
        assert(x / 4 == v as nat);
    } else if v < 1073741824 {
        let x: nat = (v * 4 + 2) as nat;
        lemma_le_bytes_len(x, 4);
        assert(e == spec_le_bytes(x, 4));
        assert(s[0] == e[0]);
        assert(e[0] == (x % 256) as u8);
        assert((x % 256) % 4 == x % 4) by (nonlinear_arith);
        assert(s.subrange(0, 4) =~= e);
        lemma_le_bytes_round_trip(x, 4);
        assert(x / 4 == v as nat);
    } else {
        lemma_le_bytes_len(v as nat, 4);
        assert(s[0] == 3u8);
        assert(s.subrange(1, 5) =~= spec_le_bytes(v as nat, 4));
        lemma_le_bytes_round_trip(v as nat, 4);
    }
}

// ---------------------------------------------------------------------------
// Arrays built from byte positions
// ---------------------------------------------------------------------------

pub open spec fn spec_arr_fill_rec<T: Copy, const N: usize>(a: [T; N], s: Seq<T>, i: int) -> [T; N]
    decreases N - i,
{
    if 0 <= i < N {
        spec_arr_fill_rec(vstd::array::spec_array_update(a, i, s[i]), s, i + 1)
    } else {
        a
    }
}

/// The fixed-size array whose elements are the first `N` entries of `s`.
pub open spec fn spec_arr_from_seq<T: Copy, const N: usize>(s: Seq<T>, fill: T) -> [T; N] {
    spec_arr_fill_rec(vstd::array::spec_array_fill_for_copy_type::<T, N>(fill), s, 0)
}

proof fn lemma_arr_fill_rec<T: Copy, const N: usize>(a: [T; N], s: Seq<T>, i: int)
    requires
        0 <= i <= N,
    ensures
        forall|j: int|
            0 <= j < N ==> #[trigger] spec_arr_fill_rec(a, s, i)@[j] == if j < i {
                a@[j]
            } else {
                s[j]
            },
    decreases N - i,
{
    broadcast use vstd::array::group_array_axioms;

    if i < N {
        let up = vstd::array::spec_array_update(a, i, s[i]);
        lemma_arr_fill_rec(up, s, i + 1);
        assert(spec_arr_fill_rec(a, s, i) == spec_arr_fill_rec(up, s, i + 1));
        assert forall|j: int| 0 <= j < N implies #[trigger] spec_arr_fill_rec(a, s, i)@[j] == (
        if j < i {
            a@[j]
        } else {
            s[j]
        }) by {
            assert(spec_arr_fill_rec(up, s, i + 1)@[j] == if j < i + 1 {
                up@[j]
            } else {
                s[j]
            });
            assert(up@ == a@.update(i, s[i]));
        }
    }
}

pub proof fn lemma_arr_from_seq<T: Copy, const N: usize>(s: Seq<T>, fill: T)
    requires
        s.len() == N,
    ensures
        spec_arr_from_seq::<T, N>(s, fill)@ =~= s,
{
    broadcast use vstd::array::group_array_axioms;

    lemma_arr_fill_rec(vstd::array::spec_array_fill_for_copy_type::<T, N>(fill), s, 0);
}

/// Reads the 32 raw bytes at `pos` as a fixed-size array.
fn read_bytes32(bytes: &[u8], pos: usize) -> (r: [u8; 32])
    requires
        pos + 32 <= bytes@.len(),
    ensures
        r@ =~= bytes@.subrange(pos as int, pos + 32),
{
    let len: usize = bytes.len();
    let mut a: [u8; 32] = [0u8; 32];
    let mut i: usize = 0;
    while i < 32
        invariant
            i <= 32,
            pos + 32 <= len == bytes@.len(),
            forall|j: int| 0 <= j < i ==> a@[j] == bytes@[pos + j],
        decreases 32 - i,
    {
        a[i] = bytes[pos + i];
        i += 1;
    }
    a
}

// ---------------------------------------------------------------------------
// Booleans
// ---------------------------------------------------------------------------

/// A boolean encodes as one byte: one for true, zero for false.
pub open spec fn spec_encode_bool(b: bool) -> Seq<u8> {
    seq![if b { 1u8 } else { 0u8 }]
}

/// Reads a boolean byte; any byte other than zero or one is malformed.
pub open spec fn spec_decode_bool(s: Seq<u8>) -> Option<(bool, int)> {
    if s.len() >= 1 {
        if s[0] == 1u8 {
            Some((true, 1))
        } else if s[0] == 0u8 {
            Some((false, 1))
        } else {
            None
        }
    } else {
        None
    }
}

fn enc_bool(out: &mut Vec<u8>, b: bool)
    ensures
        final(out)@ == old(out)@ + spec_encode_bool(b),
{
    let byte: u8 = if b { 1u8 } else { 0u8 };
    out.push(byte);
    proof {
        assert(old(out)@ + spec_encode_bool(b) =~= old(out)@.push(byte));
    }
}

fn dec_bool(bytes: &[u8], pos: usize) -> (r: Result<(bool, usize), CodecError>)
    requires
        pos <= bytes@.len(),
    ensures
        ({
            let s = bytes@.skip(pos as int);
            match r {
                Ok((v, end)) => pos < end <= bytes@.len() && spec_decode_bool(s) == Some(
                    (v, end - pos),
                ),
                Err(e) => spec_decode_bool(s) is None && e == CodecError::MalformedInput,
            }
        }),
{
    let len: usize = bytes.len();
    if pos >= len {
        return Err(CodecError::MalformedInput);
    }
    let b: u8 = bytes[pos];
    proof {
        assert(bytes@.skip(pos as int)[0] == b);
    }
    if b == 1 {
        Ok((true, pos + 1))
    } else if b == 0 {
        Ok((false, pos + 1))
    } else {
        Err(CodecError::MalformedInput)
    }
}

pub proof fn lemma_bool_round_trip(b: bool, rest: Seq<u8>)
    ensures
        spec_decode_bool(spec_encode_bool(b) + rest) == Some((b, 1int)),
{
    assert((spec_encode_bool(b) + rest)[0] == spec_encode_bool(b)[0]);
}

// ---------------------------------------------------------------------------
// Enumerations
// ---------------------------------------------------------------------------

/// An `EnumWithoutValues` encodes as its bare tag byte: A = 0, B = 1, C = 2.
pub open spec fn spec_encode_enum_without_values(e: crate::catalogue::EnumWithoutValues) -> Seq<
    u8,
> {
    match e {
        crate::catalogue::EnumWithoutValues::A => seq![0u8],
        crate::catalogue::EnumWithoutValues::B => seq![1u8],
        crate::catalogue::EnumWithoutValues::C => seq![2u8],
    }
}

/// Reads an `EnumWithoutValues` tag; a tag out of the known set is malformed.
pub open spec fn spec_decode_enum_without_values(s: Seq<u8>) -> Option<
    (crate::catalogue::EnumWithoutValues, int),
> {
    if s.len() >= 1 {
        if s[0] == 0u8 {
            Some((crate::catalogue::EnumWithoutValues::A, 1))
        } else if s[0] == 1u8 {
            Some((crate::catalogue::EnumWithoutValues::B, 1))
        } else if s[0] == 2u8 {
            Some((crate::catalogue::EnumWithoutValues::C, 1))
        } else {
            None
        }
    } else {
        None
    }
}

/// Appends the tag byte of `e` to a fresh buffer.
pub fn encode_enum_without_values(e: &crate::catalogue::EnumWithoutValues) -> (r: Vec<u8>)
    ensures
        r@ == spec_encode_enum_without_values(*e),
{
    let mut out: Vec<u8> = Vec::new();
    let tag: u8 = match e {
        crate::catalogue::EnumWithoutValues::A => 0u8,
        crate::catalogue::EnumWithoutValues::B => 1u8,
        crate::catalogue::EnumWithoutValues::C => 2u8,
    };
    out.push(tag);
    proof {
        assert(out@ =~= spec_encode_enum_without_values(*e));
    }
    out
}

/// Reads an `EnumWithoutValues` at `pos`.
pub fn decode_enum_without_values(bytes: &[u8], pos: usize) -> (r: Result<
    (crate::catalogue::EnumWithoutValues, usize),
    CodecError,
>)
    requires
        pos <= bytes@.len(),
    ensures
        ({
            let s = bytes@.skip(pos as int);
            match r {
                Ok((v, end)) => pos < end <= bytes@.len() && spec_decode_enum_without_values(s)
                    == Some((v, end - pos)),
                Err(e) => spec_decode_enum_without_values(s) is None && e
                    == CodecError::MalformedInput,
            }
        }),
{
    let len: usize = bytes.len();
    if pos >= len {
        return Err(CodecError::MalformedInput);
    }
    let b: u8 = bytes[pos];
    proof {
        assert(bytes@.skip(pos as int)[0] == b);
    }
    if b == 0 {
        Ok((crate::catalogue::EnumWithoutValues::A, pos + 1))
    } else if b == 1 {
        Ok((crate::catalogue::EnumWithoutValues::B, pos + 1))
    } else if b == 2 {
        Ok((crate::catalogue::EnumWithoutValues::C, pos + 1))
    } else {
        Err(CodecError::MalformedInput)
    }
}

pub proof fn lemma_enum_without_values_round_trip(
    e: crate::catalogue::EnumWithoutValues,
    rest: Seq<u8>,
)
    ensures
        spec_decode_enum_without_values(spec_encode_enum_without_values(e) + rest) == Some(
            (e, 1int),
        ),
{
    assert((spec_encode_enum_without_values(e) + rest)[0] == spec_encode_enum_without_values(
        e,
    )[0]);
}

/// An `EnumWithValues` encodes as its tag byte (OneValue = 0, TwoValues = 1,
/// TheeValues = 2) followed by its payload words in positional order, each
/// little-endian.
pub open spec fn spec_encode_enum_with_values(e: crate::catalogue::EnumWithValues) -> Seq<u8> {
    match e {
        crate::catalogue::EnumWithValues::OneValue(a) => seq![0u8] + spec_le_bytes(a as nat, 4),
        crate::catalogue::EnumWithValues::TwoValues(a, b) => seq![1u8] + spec_le_bytes(a as nat, 4)
            + spec_le_bytes(b as nat, 4),
        crate::catalogue::EnumWithValues::TheeValues(a, b, c) => seq![2u8] + spec_le_bytes(
            a as nat,
            4,
        ) + spec_le_bytes(b as nat, 4) + spec_le_bytes(c as nat, 4),
    }
}

/// Reads an `EnumWithValues`: the tag fixes the payload arity; a tag out of
/// the known set or a truncated payload is malformed.
pub open spec fn spec_decode_enum_with_values(s: Seq<u8>) -> Option<
    (crate::catalogue::EnumWithValues, int),
> {
    if s.len() >= 1 {
        if s[0] == 0u8 {
            if s.len() >= 5 {
                Some((crate::catalogue::EnumWithValues::OneValue(spec_u32_at(s, 1)), 5))
            } else {
                None
            }
        } else if s[0] == 1u8 {
            if s.len() >= 9 {
                Some(
                    (
                        crate::catalogue::EnumWithValues::TwoValues(
                            spec_u32_at(s, 1),
                            spec_u32_at(s, 5),
                        ),
                        9,
                    ),
                )
            } else {
                None
            }
        } else if s[0] == 2u8 {
            if s.len() >= 13 {
                Some(
                    (
                        crate::catalogue::EnumWithValues::TheeValues(
                            spec_u32_at(s, 1),
                            spec_u32_at(s, 5),
                            spec_u32_at(s, 9),
                        ),
                        13,
                    ),
                )
            } else {
                None
            }
        } else {
            None
        }
    } else {
        None
    }
}

/// Encodes `e` as its tag byte followed by its payload words.
pub fn encode_enum_with_values(e: &crate::catalogue::EnumWithValues) -> (r: Vec<u8>)
    ensures
        r@ == spec_encode_enum_with_values(*e),
{
    let mut out: Vec<u8> = Vec::new();
    match e {
        crate::catalogue::EnumWithValues::OneValue(a) => {
            out.push(0u8);
            enc_u32(&mut out, *a);
        },
        crate::catalogue::EnumWithValues::TwoValues(a, b) => {
            out.push(1u8);
            enc_u32(&mut out, *a);
            enc_u32(&mut out, *b);
        },
        crate::catalogue::EnumWithValues::TheeValues(a, b, c) => {
            out.push(2u8);
            enc_u32(&mut out, *a);
            enc_u32(&mut out, *b);
            enc_u32(&mut out, *c);
        },
    }
    proof {
        assert(out@ =~= spec_encode_enum_with_values(*e));
    }
    out
}

/// Reads an `EnumWithValues` at `pos`.
pub fn decode_enum_with_values(bytes: &[u8], pos: usize) -> (r: Result<
    (crate::catalogue::EnumWithValues, usize),
    CodecError,
>)
    requires
        pos <= bytes@.len(),
    ensures
        ({
            let s = bytes@.skip(pos as int);
            match r {
                Ok((v, end)) => pos < end <= bytes@.len() && spec_decode_enum_with_values(s)
                    == Some((v, end - pos)),
                Err(e) => spec_decode_enum_with_values(s) is None && e
                    == CodecError::MalformedInput,
            }
        }),
{
    let ghost s = bytes@.skip(pos as int);
    let len: usize = bytes.len();
    if pos >= len {
        return Err(CodecError::MalformedInput);
    }
    let b: u8 = bytes[pos];
    proof {
        assert(s[0] == b);
    }
    if b == 0 {
        if len - pos >= 5 {
            proof {
                assert(s.subrange(1, 5) =~= bytes@.subrange(pos + 1, pos + 5));
            }
            Ok((crate::catalogue::EnumWithValues::OneValue(read_u32(bytes, pos + 1)), pos + 5))
        } else {
            Err(CodecError::MalformedInput)
        }
    } else if b == 1 {
        if len - pos >= 9 {
            proof {
                assert(s.subrange(1, 5) =~= bytes@.subrange(pos + 1, pos + 5));
                assert(s.subrange(5, 9) =~= bytes@.subrange(pos + 5, pos + 9));
            }
            Ok(
                (
                    crate::catalogue::EnumWithValues::TwoValues(
                        read_u32(bytes, pos + 1),
                        read_u32(bytes, pos + 5),
                    ),
                    pos + 9,
                ),
            )
        } else {
            Err(CodecError::MalformedInput)
        }
    } else if b == 2 {
        if len - pos >= 13 {
            proof {
                assert(s.subrange(1, 5) =~= bytes@.subrange(pos + 1, pos + 5));
                assert(s.subrange(5, 9) =~= bytes@.subrange(pos + 5, pos + 9));
                assert(s.subrange(9, 13) =~= bytes@.subrange(pos + 9, pos + 13));
            }
            Ok(
                (
                    crate::catalogue::EnumWithValues::TheeValues(
                        read_u32(bytes, pos + 1),
                        read_u32(bytes, pos + 5),
                        read_u32(bytes, pos + 9),
                    ),
                    pos + 13,
                ),
            )
        } else {
            Err(CodecError::MalformedInput)
        }
    } else {
        Err(CodecError::MalformedInput)
    }
}

pub proof fn lemma_enum_with_values_round_trip(e: crate::catalogue::EnumWithValues, rest: Seq<u8>)
    ensures
        ({
            let enc = spec_encode_enum_with_values(e);
            spec_decode_enum_with_values(enc + rest) == Some((e, enc.len() as int))
        }),
{
    lemma_pow256_values();
    let enc = spec_encode_enum_with_values(e);
    let s = enc + rest;
    match e {
        crate::catalogue::EnumWithValues::OneValue(a) => {
            lemma_le_bytes_len(a as nat, 4);
            assert(s[0] == 0u8);
            assert(s.subrange(1, 5) =~= spec_le_bytes(a as nat, 4));
            lemma_le_bytes_round_trip(a as nat, 4);
        },
        crate::catalogue::EnumWithValues::TwoValues(a, b) => {
            lemma_le_bytes_len(a as nat, 4);
            lemma_le_bytes_len(b as nat, 4);
            assert(s[0] == 1u8);
            assert(s.subrange(1, 5) =~= spec_le_bytes(a as nat, 4));
            assert(s.subrange(5, 9) =~= spec_le_bytes(b as nat, 4));
            lemma_le_bytes_round_trip(a as nat, 4);
            lemma_le_bytes_round_trip(b as nat, 4);
        },
        crate::catalogue::EnumWithValues::TheeValues(a, b, c) => {
            lemma_le_bytes_len(a as nat, 4);
            lemma_le_bytes_len(b as nat, 4);
            lemma_le_bytes_len(c as nat, 4);
            assert(s[0] == 2u8);
            assert(s.subrange(1, 5) =~= spec_le_bytes(a as nat, 4));
            assert(s.subrange(5, 9) =~= spec_le_bytes(b as nat, 4));
            assert(s.subrange(9, 13) =~= spec_le_bytes(c as nat, 4));
            lemma_le_bytes_round_trip(a as nat, 4);
            lemma_le_bytes_round_trip(b as nat, 4);
            lemma_le_bytes_round_trip(c as nat, 4);
        },
    }
}

// ---------------------------------------------------------------------------
// Integer boundary composites
// ---------------------------------------------------------------------------

/// An `UnsignedIntegers` record encodes as its ten fields in declared order,
/// each little-endian: 62 bytes in all.
pub open spec fn spec_encode_unsigned_integers(v: crate::catalogue::UnsignedIntegers) -> Seq<u8> {
    spec_le_bytes(v.u128_value_max as nat, 16) + spec_le_bytes(v.u128_value_min as nat, 16)
        + spec_le_bytes(v.u16_value_max as nat, 2) + spec_le_bytes(v.u16_value_min as nat, 2)
        + spec_le_bytes(v.u32_value_max as nat, 4) + spec_le_bytes(v.u32_value_min as nat, 4)
        + spec_le_bytes(v.u64_value_max as nat, 8) + spec_le_bytes(v.u64_value_min as nat, 8)
        + spec_le_bytes(v.u8_value_max as nat, 1) + spec_le_bytes(v.u8_value_min as nat, 1)
}

/// Reads an `UnsignedIntegers` record from the front of `s`.
pub open spec fn spec_decode_unsigned_integers(s: Seq<u8>) -> Option<
    (crate::catalogue::UnsignedIntegers, int),
> {
    if s.len() >= 62 {
        Some(
            (
                crate::catalogue::UnsignedIntegers {
                    u128_value_max: spec_u128_at(s, 0),
                    u128_value_min: spec_u128_at(s, 16),
                    u16_value_max: spec_u16_at(s, 32),
                    u16_value_min: spec_u16_at(s, 34),
                    u32_value_max: spec_u32_at(s, 36),
                    u32_value_min: spec_u32_at(s, 40),
                    u64_value_max: spec_u64_at(s, 44),
                    u64_value_min: spec_u64_at(s, 52),
                    u8_value_max: spec_u8_at(s, 60),
                    u8_value_min: spec_u8_at(s, 61),
                },
                62,
            ),
        )
    } else {
        None
    }
}

/// Encodes an `UnsignedIntegers` record.
pub fn encode_unsigned_integers(v: &crate::catalogue::UnsignedIntegers) -> (r: Vec<u8>)
    ensures
        r@ == spec_encode_unsigned_integers(*v),
{
    let mut out: Vec<u8> = Vec::new();
    enc_u128(&mut out, v.u128_value_max);
    enc_u128(&mut out, v.u128_value_min);
    enc_u16(&mut out, v.u16_value_max);
    enc_u16(&mut out, v.u16_value_min);
    enc_u32(&mut out, v.u32_value_max);
    enc_u32(&mut out, v.u32_value_min);
    enc_u64(&mut out, v.u64_value_max);
    enc_u64(&mut out, v.u64_value_min);
    enc_u8(&mut out, v.u8_value_max);
    enc_u8(&mut out, v.u8_value_min);
    proof {
        assert(out@ =~= spec_encode_unsigned_integers(*v));
    }
    out
}

/// Reads an `UnsignedIntegers` record at `pos`.
pub fn decode_unsigned_integers(bytes: &[u8], pos: usize) -> (r: Result<
    (crate::catalogue::UnsignedIntegers, usize),
    CodecError,
>)
    requires
        pos <= bytes@.len(),
    ensures
        ({
            let s = bytes@.skip(pos as int);
            match r {
                Ok((v, end)) => pos <= end <= bytes@.len() && spec_decode_unsigned_integers(s)
                    == Some((v, end - pos)),
                Err(e) => spec_decode_unsigned_integers(s) is None && e
                    == CodecError::MalformedInput,
            }
        }),
{
    let ghost s = bytes@.skip(pos as int);
    let len: usize = bytes.len();
    if len - pos < 62 {
        return Err(CodecError::MalformedInput);
    }
    proof {
        assert(s.subrange(0, 16) =~= bytes@.subrange(pos as int, pos + 16));
        assert(s.subrange(16, 32) =~= bytes@.subrange(pos + 16, pos + 32));
        assert(s.subrange(32, 34) =~= bytes@.subrange(pos + 32, pos + 34));
        assert(s.subrange(34, 36) =~= bytes@.subrange(pos + 34, pos + 36));
        assert(s.subrange(36, 40) =~= bytes@.subrange(pos + 36, pos + 40));
        assert(s.subrange(40, 44) =~= bytes@.subrange(pos + 40, pos + 44));
        assert(s.subrange(44, 52) =~= bytes@.subrange(pos + 44, pos + 52));
        assert(s.subrange(52, 60) =~= bytes@.subrange(pos + 52, pos + 60));
        assert(s.subrange(60, 61) =~= bytes@.subrange(pos + 60, pos + 61));
        assert(s.subrange(61, 62) =~= bytes@.subrange(pos + 61, pos + 62));
    }
    let v = crate::catalogue::UnsignedIntegers {
        u128_value_max: read_u128(bytes, pos),
        u128_value_min: read_u128(bytes, pos + 16),
        u16_value_max: read_u16(bytes, pos + 32),
        u16_value_min: read_u16(bytes, pos + 34),
        u32_value_max: read_u32(bytes, pos + 36),
        u32_value_min: read_u32(bytes, pos + 40),
        u64_value_max: read_u64(bytes, pos + 44),
        u64_value_min: read_u64(bytes, pos + 52),
        u8_value_max: read_u8(bytes, pos + 60),
        u8_value_min: read_u8(bytes, pos + 61),
    };
    Ok((v, pos + 62))
}

/// Decoding the encoding of any `UnsignedIntegers` record, whatever follows
/// it, returns the record and consumes exactly its 62 bytes.
pub proof fn lemma_unsigned_integers_round_trip(
    v: crate::catalogue::UnsignedIntegers,
    rest: Seq<u8>,
)
    ensures
        spec_decode_unsigned_integers(spec_encode_unsigned_integers(v) + rest) == Some((v, 62int)),
{
    lemma_pow256_values();
    lemma_le_bytes_len(v.u128_value_max as nat, 16);
    lemma_le_bytes_len(v.u128_value_min as nat, 16);
    lemma_le_bytes_len(v.u16_value_max as nat, 2);
    lemma_le_bytes_len(v.u16_value_min as nat, 2);
    lemma_le_bytes_len(v.u32_value_max as nat, 4);
    lemma_le_bytes_len(v.u32_value_min as nat, 4);
    lemma_le_bytes_len(v.u64_value_max as nat, 8);
    lemma_le_bytes_len(v.u64_value_min as nat, 8);
    lemma_le_bytes_len(v.u8_value_max as nat, 1);
    lemma_le_bytes_len(v.u8_value_min as nat, 1);
    let s = spec_encode_unsigned_integers(v) + rest;
    assert(s.subrange(0, 16) =~= spec_le_bytes(v.u128_value_max as nat, 16));
    assert(s.subrange(16, 32) =~= spec_le_bytes(v.u128_value_min as nat, 16));
    assert(s.subrange(32, 34) =~= spec_le_bytes(v.u16_value_max as nat, 2));
    assert(s.subrange(34, 36) =~= spec_le_bytes(v.u16_value_min as nat, 2));
    assert(s.subrange(36, 40) =~= spec_le_bytes(v.u32_value_max as nat, 4));
    assert(s.subrange(40, 44) =~= spec_le_bytes(v.u32_value_min as nat, 4));
    assert(s.subrange(44, 52) =~= spec_le_bytes(v.u64_value_max as nat, 8));
    assert(s.subrange(52, 60) =~= spec_le_bytes(v.u64_value_min as nat, 8));
    assert(s.subrange(60, 61) =~= spec_le_bytes(v.u8_value_max as nat, 1));
    assert(s.subrange(61, 62) =~= spec_le_bytes(v.u8_value_min as nat, 1));
    lemma_le_bytes_round_trip(v.u128_value_max as nat, 16);
    lemma_le_bytes_round_trip(v.u128_value_min as nat, 16);
    lemma_le_bytes_round_trip(v.u16_value_max as nat, 2);
    lemma_le_bytes_round_trip(v.u16_value_min as nat, 2);
    lemma_le_bytes_round_trip(v.u32_value_max as nat, 4);
    lemma_le_bytes_round_trip(v.u32_value_min as nat, 4);
    lemma_le_bytes_round_trip(v.u64_value_max as nat, 8);
    lemma_le_bytes_round_trip(v.u64_value_min as nat, 8);
    lemma_le_bytes_round_trip(v.u8_value_max as nat, 1);
    lemma_le_bytes_round_trip(v.u8_value_min as nat, 1);
}

/// A `SignedIntegers` record encodes as its ten fields in declared order,
/// each little-endian two's complement: 62 bytes in all.
pub open spec fn spec_encode_signed_integers(v: crate::catalogue::SignedIntegers) -> Seq<u8> {
    spec_encode_i128(v.i128_value_max) + spec_encode_i128(v.i128_value_min) + spec_encode_i16(
        v.i16_value_max,
    ) + spec_encode_i16(v.i16_value_min) + spec_encode_i32(v.i32_value_max) + spec_encode_i32(
        v.i32_value_min,
    ) + spec_encode_i64(v.i64_value_max) + spec_encode_i64(v.i64_value_min) + spec_encode_i8(
        v.i8_value_max,
    ) + spec_encode_i8(v.i8_value_min)
}

/// Reads a `SignedIntegers` record from the front of `s`.
pub open spec fn spec_decode_signed_integers(s: Seq<u8>) -> Option<
    (crate::catalogue::SignedIntegers, int),
> {
    if s.len() >= 62 {
        Some(
            (
                crate::catalogue::SignedIntegers {
                    i128_value_max: spec_i128_at(s, 0),
                    i128_value_min: spec_i128_at(s, 16),
                    i16_value_max: spec_i16_at(s, 32),
                    i16_value_min: spec_i16_at(s, 34),
                    i32_value_max: spec_i32_at(s, 36),
                    i32_value_min: spec_i32_at(s, 40),
                    i64_value_max: spec_i64_at(s, 44),
                    i64_value_min: spec_i64_at(s, 52),
                    i8_value_max: spec_i8_at(s, 60),
                    i8_value_min: spec_i8_at(s, 61),
                },
                62,
            ),
        )
    } else {
        None
    }
}

/// Encodes a `SignedIntegers` record.
pub fn encode_signed_integers(v: &crate::catalogue::SignedIntegers) -> (r: Vec<u8>)
    ensures
        r@ == spec_encode_signed_integers(*v),
{
    let mut out: Vec<u8> = Vec::new();
    enc_i128(&mut out, v.i128_value_max);
    enc_i128(&mut out, v.i128_value_min);
    enc_i16(&mut out, v.i16_value_max);
    enc_i16(&mut out, v.i16_value_min);
    enc_i32(&mut out, v.i32_value_max);
    enc_i32(&mut out, v.i32_value_min);
    enc_i64(&mut out, v.i64_value_max);
    enc_i64(&mut out, v.i64_value_min);
    enc_i8(&mut out, v.i8_value_max);
    enc_i8(&mut out, v.i8_value_min);
    proof {
        assert(out@ =~= spec_encode_signed_integers(*v));
    }
    out
}

/// Reads a `SignedIntegers` record at `pos`.
pub fn decode_signed_integers(bytes: &[u8], pos: usize) -> (r: Result<
    (crate::catalogue::SignedIntegers, usize),
    CodecError,
>)
    requires
        pos <= bytes@.len(),
    ensures
        ({
            let s = bytes@.skip(pos as int);
            match r {
                Ok((v, end)) => pos <= end <= bytes@.len() && spec_decode_signed_integers(s)
                    == Some((v, end - pos)),
                Err(e) => spec_decode_signed_integers(s) is None && e == CodecError::MalformedInput,
            }
        }),
{
    let ghost s = bytes@.skip(pos as int);
    let len: usize = bytes.len();
    if len - pos < 62 {
        return Err(CodecError::MalformedInput);
    }
    proof {
        assert(s.subrange(0, 16) =~= bytes@.subrange(pos as int, pos + 16));
        assert(s.subrange(16, 32) =~= bytes@.subrange(pos + 16, pos + 32));
        assert(s.subrange(32, 34) =~= bytes@.subrange(pos + 32, pos + 34));
        assert(s.subrange(34, 36) =~= bytes@.subrange(pos + 34, pos + 36));
        assert(s.subrange(36, 40) =~= bytes@.subrange(pos + 36, pos + 40));
        assert(s.subrange(40, 44) =~= bytes@.subrange(pos + 40, pos + 44));
        assert(s.subrange(44, 52) =~= bytes@.subrange(pos + 44, pos + 52));
        assert(s.subrange(52, 60) =~= bytes@.subrange(pos + 52, pos + 60));
        assert(s.subrange(60, 61) =~= bytes@.subrange(pos + 60, pos + 61));
        assert(s.subrange(61, 62) =~= bytes@.subrange(pos + 61, pos + 62));
    }
    let v = crate::catalogue::SignedIntegers {
        i128_value_max: read_i128(bytes, pos),
        i128_value_min: read_i128(bytes, pos + 16),
        i16_value_max: read_i16(bytes, pos + 32),
        i16_value_min: read_i16(bytes, pos + 34),
        i32_value_max: read_i32(bytes, pos + 36),
        i32_value_min: read_i32(bytes, pos + 40),
        i64_value_max: read_i64(bytes, pos + 44),
        i64_value_min: read_i64(bytes, pos + 52),
        i8_value_max: read_i8(bytes, pos + 60),
        i8_value_min: read_i8(bytes, pos + 61),
    };
    Ok((v, pos + 62))
}

/// Decoding the encoding of any `SignedIntegers` record, whatever follows it,
/// returns the record and consumes exactly its 62 bytes.
pub proof fn lemma_signed_integers_round_trip(v: crate::catalogue::SignedIntegers, rest: Seq<u8>)
    ensures
        spec_decode_signed_integers(spec_encode_signed_integers(v) + rest) == Some((v, 62int)),
{
    lemma_pow256_values();
    lemma_le_bytes_len((v.i128_value_max as u128) as nat, 16);
    lemma_le_bytes_len((v.i128_value_min as u128) as nat, 16);
    lemma_le_bytes_len((v.i16_value_max as u16) as nat, 2);
    lemma_le_bytes_len((v.i16_value_min as u16) as nat, 2);
    lemma_le_bytes_len((v.i32_value_max as u32) as nat, 4);
    lemma_le_bytes_len((v.i32_value_min as u32) as nat, 4);
    lemma_le_bytes_len((v.i64_value_max as u64) as nat, 8);
    lemma_le_bytes_len((v.i64_value_min as u64) as nat, 8);
    lemma_le_bytes_len((v.i8_value_max as u8) as nat, 1);
    lemma_le_bytes_len((v.i8_value_min as u8) as nat, 1);
    let s = spec_encode_signed_integers(v) + rest;
    assert(s.subrange(0, 16) =~= spec_encode_i128(v.i128_value_max));
    assert(s.subrange(16, 32) =~= spec_encode_i128(v.i128_value_min));
    assert(s.subrange(32, 34) =~= spec_encode_i16(v.i16_value_max));
    assert(s.subrange(34, 36) =~= spec_encode_i16(v.i16_value_min));
    assert(s.subrange(36, 40) =~= spec_encode_i32(v.i32_value_max));
    assert(s.subrange(40, 44) =~= spec_encode_i32(v.i32_value_min));
    assert(s.subrange(44, 52) =~= spec_encode_i64(v.i64_value_max));
    assert(s.subrange(52, 60) =~= spec_encode_i64(v.i64_value_min));
    assert(s.subrange(60, 61) =~= spec_encode_i8(v.i8_value_max));
    assert(s.subrange(61, 62) =~= spec_encode_i8(v.i8_value_min));
    lemma_le_bytes_round_trip((v.i128_value_max as u128) as nat, 16);
    lemma_le_bytes_round_trip((v.i128_value_min as u128) as nat, 16);
    lemma_le_bytes_round_trip((v.i16_value_max as u16) as nat, 2);
    lemma_le_bytes_round_trip((v.i16_value_min as u16) as nat, 2);
    lemma_le_bytes_round_trip((v.i32_value_max as u32) as nat, 4);
    lemma_le_bytes_round_trip((v.i32_value_min as u32) as nat, 4);
    lemma_le_bytes_round_trip((v.i64_value_max as u64) as nat, 8);
    lemma_le_bytes_round_trip((v.i64_value_min as u64) as nat, 8);
    lemma_le_bytes_round_trip((v.i8_value_max as u8) as nat, 1);
    lemma_le_bytes_round_trip((v.i8_value_min as u8) as nat, 1);
    lemma_signed_cast_round_trip(
        v.i8_value_max,
        v.i16_value_max,
        v.i32_value_max,
        v.i64_value_max,
        v.i128_value_max,
    );
    lemma_signed_cast_round_trip(
        v.i8_value_min,
        v.i16_value_min,
        v.i32_value_min,
        v.i64_value_min,
        v.i128_value_min,
    );
}

// ---------------------------------------------------------------------------
// Domain identifiers
// ---------------------------------------------------------------------------

/// A `SubstrateTypes` record encodes as its fields in declared order: the 32
/// raw identity bytes, the two balance boundaries little-endian, and the 32
/// raw hash bytes: 96 bytes in all.
pub open spec fn spec_encode_substrate_types(v: crate::catalogue::SubstrateTypes) -> Seq<u8> {
    v.account_id_value.bytes@ + spec_le_bytes(v.balance_value_max as nat, 16) + spec_le_bytes(
        v.balance_value_min as nat,
        16,
    ) + v.hash_value.bytes@
}

/// Reads a `SubstrateTypes` record from the front of `s`.
pub open spec fn spec_decode_substrate_types(s: Seq<u8>) -> Option<
    (crate::catalogue::SubstrateTypes, int),
> {
    if s.len() >= 96 {
        Some(
            (
                crate::catalogue::SubstrateTypes {
                    account_id_value: crate::catalogue::AccountId {
                        bytes: spec_arr_from_seq::<u8, 32>(s.subrange(0, 32), 0u8),
                    },
                    balance_value_max: spec_u128_at(s, 32),
                    balance_value_min: spec_u128_at(s, 48),
                    hash_value: crate::catalogue::Hash {
                        bytes: spec_arr_from_seq::<u8, 32>(s.subrange(64, 96), 0u8),
                    },
                },
                96,
            ),
        )
    } else {
        None
    }
}

/// Encodes a `SubstrateTypes` record.
pub fn encode_substrate_types(v: &crate::catalogue::SubstrateTypes) -> (r: Vec<u8>)
    ensures
        r@ == spec_encode_substrate_types(*v),
{
    let mut out: Vec<u8> = Vec::new();
    push_bytes(&mut out, v.account_id_value.bytes.as_slice());
    enc_u128(&mut out, v.balance_value_max);
    enc_u128(&mut out, v.balance_value_min);
    push_bytes(&mut out, v.hash_value.bytes.as_slice());
    proof {
        assert(out@ =~= spec_encode_substrate_types(*v));
    }
    out
}

/// Reads a `SubstrateTypes` record at `pos`.
pub fn decode_substrate_types(bytes: &[u8], pos: usize) -> (r: Result<
    (crate::catalogue::SubstrateTypes, usize),
    CodecError,
>)
    requires
        pos <= bytes@.len(),
    ensures
        ({
            let s = bytes@.skip(pos as int);
            match r {
                Ok((v, end)) => pos <= end <= bytes@.len() && spec_decode_substrate_types(s)
                    == Some((v, end - pos)),
                Err(e) => spec_decode_substrate_types(s) is None && e == CodecError::MalformedInput,
            }
        }),
{
    broadcast use vstd::array::group_array_axioms;

    let ghost s = bytes@.skip(pos as int);
    let len: usize = bytes.len();
    if len - pos < 96 {
        return Err(CodecError::MalformedInput);
    }
    proof {
        assert(s.subrange(0, 32) =~= bytes@.subrange(pos as int, pos + 32));
        assert(s.subrange(32, 48) =~= bytes@.subrange(pos + 32, pos + 48));
        assert(s.subrange(48, 64) =~= bytes@.subrange(pos + 48, pos + 64));
        assert(s.subrange(64, 96) =~= bytes@.subrange(pos + 64, pos + 96));
        lemma_arr_from_seq::<u8, 32>(s.subrange(0, 32), 0u8);
        lemma_arr_from_seq::<u8, 32>(s.subrange(64, 96), 0u8);
    }
    let account = read_bytes32(bytes, pos);
    let bmax = read_u128(bytes, pos + 32);
    let bmin = read_u128(bytes, pos + 48);
    let hash = read_bytes32(bytes, pos + 64);
    proof {
        assert(account =~= spec_arr_from_seq::<u8, 32>(s.subrange(0, 32), 0u8));
        assert(hash =~= spec_arr_from_seq::<u8, 32>(s.subrange(64, 96), 0u8));
    }
    let v = crate::catalogue::SubstrateTypes {
        account_id_value: crate::catalogue::AccountId { bytes: account },
        balance_value_max: bmax,
        balance_value_min: bmin,
        hash_value: crate::catalogue::Hash { bytes: hash },
    };
    Ok((v, pos + 96))
}

/// Decoding the encoding of any `SubstrateTypes` record, whatever follows it,
/// returns the record and consumes exactly its 96 bytes.
pub proof fn lemma_substrate_types_round_trip(v: crate::catalogue::SubstrateTypes, rest: Seq<u8>)
    ensures
        spec_decode_substrate_types(spec_encode_substrate_types(v) + rest) == Some((v, 96int)),
{
    broadcast use vstd::array::group_array_axioms;

    lemma_pow256_values();
    lemma_le_bytes_len(v.balance_value_max as nat, 16);
    lemma_le_bytes_len(v.balance_value_min as nat, 16);
    let s = spec_encode_substrate_types(v) + rest;
    assert(s.subrange(0, 32) =~= v.account_id_value.bytes@);
    assert(s.subrange(32, 48) =~= spec_le_bytes(v.balance_value_max as nat, 16));
    assert(s.subrange(48, 64) =~= spec_le_bytes(v.balance_value_min as nat, 16));
    assert(s.subrange(64, 96) =~= v.hash_value.bytes@);
    lemma_le_bytes_round_trip(v.balance_value_max as nat, 16);
    lemma_le_bytes_round_trip(v.balance_value_min as nat, 16);
    lemma_arr_from_seq::<u8, 32>(s.subrange(0, 32), 0u8);
    lemma_arr_from_seq::<u8, 32>(s.subrange(64, 96), 0u8);
    assert(spec_arr_from_seq::<u8, 32>(s.subrange(0, 32), 0u8) =~= v.account_id_value.bytes);
    assert(spec_arr_from_seq::<u8, 32>(s.subrange(64, 96), 0u8) =~= v.hash_value.bytes);
}

// ---------------------------------------------------------------------------
// The sentinel error
// ---------------------------------------------------------------------------

/// An `Error` encodes as its bare tag byte; the single variant is tag 0.
pub open spec fn spec_encode_error(e: crate::catalogue::Error) -> Seq<u8> {
    seq![0u8]
}

/// Reads an `Error` tag; a tag out of the known set is malformed.
pub open spec fn spec_decode_error(s: Seq<u8>) -> Option<(crate::catalogue::Error, int)> {
    if s.len() >= 1 && s[0] == 0u8 {
        Some((crate::catalogue::Error::ThisIsAnErrorEnum, 1))
    } else {
        None
    }
}

/// Encodes an `Error` value.
pub fn encode_error(e: &crate::catalogue::Error) -> (r: Vec<u8>)
    ensures
        r@ == spec_encode_error(*e),
{
    let mut out: Vec<u8> = Vec::new();
    out.push(0u8);
    proof {
        assert(out@ =~= spec_encode_error(*e));
    }
    out
}

/// Reads an `Error` value at `pos`.
pub fn decode_error(bytes: &[u8], pos: usize) -> (r: Result<
    (crate::catalogue::Error, usize),
    CodecError,
>)
    requires
        pos <= bytes@.len(),
    ensures
        ({
            let s = bytes@.skip(pos as int);
            match r {
                Ok((v, end)) => pos < end <= bytes@.len() && spec_decode_error(s) == Some(
                    (v, end - pos),
                ),
                Err(e) => spec_decode_error(s) is None && e == CodecError::MalformedInput,
            }
        }),
{
    let len: usize = bytes.len();
    if pos >= len {
        return Err(CodecError::MalformedInput);
    }
    let b: u8 = bytes[pos];
    proof {
        assert(bytes@.skip(pos as int)[0] == b);
    }
    if b == 0 {
        Ok((crate::catalogue::Error::ThisIsAnErrorEnum, pos + 1))
    } else {
        Err(CodecError::MalformedInput)
    }
}

pub proof fn lemma_error_round_trip(e: crate::catalogue::Error, rest: Seq<u8>)
    ensures
        spec_decode_error(spec_encode_error(e) + rest) == Some((e, 1int)),
{
    assert((spec_encode_error(e) + rest)[0] == 0u8);
}

// ---------------------------------------------------------------------------
// Mixed primitive composite
// ---------------------------------------------------------------------------

/// A `PrimitiveTypes` record encodes as its fields in declared order: the
/// boolean byte, the two enumerations, the three array elements, and the two
/// tuple elements, with no separators.
pub open spec fn spec_encode_primitive_types(v: crate::catalogue::PrimitiveTypes) -> Seq<u8> {
    spec_encode_bool(v.bool_value) + spec_encode_enum_without_values(v.enum_without_values)
        + spec_encode_enum_with_values(v.enum_with_values) + spec_le_bytes(
        v.array_value@[0] as nat,
        4,
    ) + spec_le_bytes(v.array_value@[1] as nat, 4) + spec_le_bytes(v.array_value@[2] as nat, 4)
        + spec_le_bytes(v.tuple_value.0 as nat, 4) + spec_le_bytes(v.tuple_value.1 as nat, 4)
}

/// Reads a `PrimitiveTypes` record from the front of `s`.
pub open spec fn spec_decode_primitive_types(s: Seq<u8>) -> Option<
    (crate::catalogue::PrimitiveTypes, int),
> {
    match spec_decode_bool(s) {
        Option::None => Option::None,
        Option::Some((b, n1)) => match spec_decode_enum_without_values(s.skip(n1)) {
            Option::None => Option::None,
            Option::Some((e1, n2)) => match spec_decode_enum_with_values(s.skip(n1 + n2)) {
                Option::None => Option::None,
                Option::Some((e2, n3)) => {
                    let t = n1 + n2 + n3;
                    if s.len() >= t + 20 {
                        Option::Some(
                            (
                                crate::catalogue::PrimitiveTypes {
                                    bool_value: b,
                                    enum_without_values: e1,
                                    enum_with_values: e2,
                                    array_value: spec_arr_from_seq::<u32, 3>(
                                        seq![
                                            spec_u32_at(s, t),
                                            spec_u32_at(s, t + 4),
                                            spec_u32_at(s, t + 8),
                                        ],
                                        0u32,
                                    ),
                                    tuple_value: (spec_u32_at(s, t + 12), spec_u32_at(s, t + 16)),
                                },
                                t + 20,
                            ),
                        )
                    } else {
                        Option::None
                    }
                },
            },
        },
    }
}

/// Encodes a `PrimitiveTypes` record.
pub fn encode_primitive_types(v: &crate::catalogue::PrimitiveTypes) -> (r: Vec<u8>)
    ensures
        r@ == spec_encode_primitive_types(*v),
{
    let mut out: Vec<u8> = Vec::new();
    enc_bool(&mut out, v.bool_value);
    let tag = encode_enum_without_values(&v.enum_without_values);
    push_bytes(&mut out, tag.as_slice());
    let payload = encode_enum_with_values(&v.enum_with_values);
    push_bytes(&mut out, payload.as_slice());
    enc_u32(&mut out, v.array_value[0]);
    enc_u32(&mut out, v.array_value[1]);
    enc_u32(&mut out, v.array_value[2]);
    enc_u32(&mut out, v.tuple_value.0);
    enc_u32(&mut out, v.tuple_value.1);
    proof {
        broadcast use vstd::array::group_array_axioms;

        assert(out@ =~= spec_encode_primitive_types(*v));
    }
    out
}

/// Reads a `PrimitiveTypes` record at `pos`.
pub fn decode_primitive_types(bytes: &[u8], pos: usize) -> (r: Result<
    (crate::catalogue::PrimitiveTypes, usize),
    CodecError,
>)
    requires
        pos <= bytes@.len(),
    ensures
        ({
            let s = bytes@.skip(pos as int);
            match r {
                Ok((v, end)) => pos <= end <= bytes@.len() && spec_decode_primitive_types(s)
                    == Some((v, end - pos)),
                Err(e) => spec_decode_primitive_types(s) is None && e
                    == CodecError::MalformedInput,
            }
        }),
{
    broadcast use vstd::array::group_array_axioms;

    let ghost s = bytes@.skip(pos as int);
    let len: usize = bytes.len();
    let (b, p1) = match dec_bool(bytes, pos) {
        Ok(x) => x,
        Err(e) => {
            return Err(e);
        },
    };
    proof {
        assert(s.skip((p1 - pos) as int) =~= bytes@.skip(p1 as int));
    }
    let (e1, p2) = match decode_enum_without_values(bytes, p1) {
        Ok(x) => x,
        Err(e) => {
            return Err(e);
        },
    };
    proof {
        assert(s.skip((p2 - pos) as int) =~= bytes@.skip(p2 as int));
    }
    let (e2, p3) = match decode_enum_with_values(bytes, p2) {
        Ok(x) => x,
        Err(e) => {
            return Err(e);
        },
    };
    if len - p3 < 20 {
        return Err(CodecError::MalformedInput);
    }
    let ghost t = (p3 - pos) as int;
    proof {
        assert(s.subrange(t, t + 4) =~= bytes@.subrange(p3 as int, p3 + 4));
        assert(s.subrange(t + 4, t + 8) =~= bytes@.subrange(p3 + 4, p3 + 8));
        assert(s.subrange(t + 8, t + 12) =~= bytes@.subrange(p3 + 8, p3 + 12));
        assert(s.subrange(t + 12, t + 16) =~= bytes@.subrange(p3 + 12, p3 + 16));
        assert(s.subrange(t + 16, t + 20) =~= bytes@.subrange(p3 + 16, p3 + 20));
    }
    let a0 = read_u32(bytes, p3);
    let a1 = read_u32(bytes, p3 + 4);
    let a2 = read_u32(bytes, p3 + 8);
    let t0 = read_u32(bytes, p3 + 12);
    let t1 = read_u32(bytes, p3 + 16);
    let mut arr: [u32; 3] = [0u32; 3];
    arr[0] = a0;
    arr[1] = a1;
    arr[2] = a2;
    proof {
        lemma_arr_from_seq::<u32, 3>(
            seq![spec_u32_at(s, t), spec_u32_at(s, t + 4), spec_u32_at(s, t + 8)],
            0u32,
        );
        assert(arr =~= spec_arr_from_seq::<u32, 3>(
            seq![spec_u32_at(s, t), spec_u32_at(s, t + 4), spec_u32_at(s, t + 8)],
            0u32,
        ));
    }
    let v = crate::catalogue::PrimitiveTypes {
        bool_value: b,
        enum_without_values: e1,
        enum_with_values: e2,
        array_value: arr,
        tuple_value: (t0, t1),
    };
    Ok((v, p3 + 20))
}

#[verifier::rlimit(100)]
proof fn lemma_u32_run(s: Seq<u8>, t: int, x0: u32, x1: u32, x2: u32, y0: u32, y1: u32, rest: Seq<u8>)
    requires
        0 <= t <= s.len(),
        s.skip(t) == spec_le_bytes(x0 as nat, 4) + spec_le_bytes(x1 as nat, 4) + spec_le_bytes(
            x2 as nat,
            4,
        ) + spec_le_bytes(y0 as nat, 4) + spec_le_bytes(y1 as nat, 4) + rest,
    ensures
        s.len() >= t + 20,
        spec_u32_at(s, t) == x0,
        spec_u32_at(s, t + 4) == x1,
        spec_u32_at(s, t + 8) == x2,
        spec_u32_at(s, t + 12) == y0,
        spec_u32_at(s, t + 16) == y1,
{
    lemma_pow256_values();
    lemma_le_bytes_len(x0 as nat, 4);
    lemma_le_bytes_len(x1 as nat, 4);
    lemma_le_bytes_len(x2 as nat, 4);
    lemma_le_bytes_len(y0 as nat, 4);
    lemma_le_bytes_len(y1 as nat, 4);
    let u = s.skip(t);
    assert forall|k: int| 0 <= k < u.len() implies u[k] == s[t + k] by {}
    assert(u.subrange(0, 4) =~= spec_le_bytes(x0 as nat, 4));
    assert(u.subrange(4, 8) =~= spec_le_bytes(x1 as nat, 4));
    assert(u.subrange(8, 12) =~= spec_le_bytes(x2 as nat, 4));
    assert(u.subrange(12, 16) =~= spec_le_bytes(y0 as nat, 4));
    assert(u.subrange(16, 20) =~= spec_le_bytes(y1 as nat, 4));
    assert(s.subrange(t, t + 4) =~= u.subrange(0, 4));
    assert(s.subrange(t + 4, t + 8) =~= u.subrange(4, 8));
    assert(s.subrange(t + 8, t + 12) =~= u.subrange(8, 12));
    assert(s.subrange(t + 12, t + 16) =~= u.subrange(12, 16));
    assert(s.subrange(t + 16, t + 20) =~= u.subrange(16, 20));
    lemma_le_bytes_round_trip(x0 as nat, 4);
    lemma_le_bytes_round_trip(x1 as nat, 4);
    lemma_le_bytes_round_trip(x2 as nat, 4);
    lemma_le_bytes_round_trip(y0 as nat, 4);
    lemma_le_bytes_round_trip(y1 as nat, 4);
}

/// Decoding the encoding of any `PrimitiveTypes` record, whatever follows it,
/// returns the record and consumes exactly the encoding.
proof fn lemma_arr3_eq(arr: [u32; 3], x0: u32, x1: u32, x2: u32)
    requires
        arr@[0] == x0,
        arr@[1] == x1,
        arr@[2] == x2,
    ensures
        spec_arr_from_seq::<u32, 3>(seq![x0, x1, x2], 0u32) == arr,
{
    broadcast use vstd::array::group_array_axioms;

    lemma_arr_from_seq::<u32, 3>(seq![x0, x1, x2], 0u32);
    assert(spec_arr_from_seq::<u32, 3>(seq![x0, x1, x2], 0u32) =~= arr);
}

#[verifier::rlimit(100)]
proof fn lemma_primitive_prefix(v: crate::catalogue::PrimitiveTypes, rest: Seq<u8>)
    ensures
        ({
            let e = spec_encode_primitive_types(v);
            let s = e + rest;
            let n3 = spec_encode_enum_with_values(v.enum_with_values).len() as int;
            &&& spec_decode_bool(s) == Some((v.bool_value, 1int))
            &&& spec_decode_enum_without_values(s.skip(1)) == Some((v.enum_without_values, 1int))
            &&& spec_decode_enum_with_values(s.skip(2)) == Some((v.enum_with_values, n3))
            &&& s.skip(2 + n3) == spec_le_bytes(v.array_value@[0] as nat, 4) + spec_le_bytes(
                v.array_value@[1] as nat,
                4,
            ) + spec_le_bytes(v.array_value@[2] as nat, 4) + spec_le_bytes(
                v.tuple_value.0 as nat,
                4,
            ) + spec_le_bytes(v.tuple_value.1 as nat, 4) + rest
            &&& e.len() == 22 + n3
        }),
{
    let eb = spec_encode_bool(v.bool_value);
    let e1 = spec_encode_enum_without_values(v.enum_without_values);
    let e2 = spec_encode_enum_with_values(v.enum_with_values);
    let a0 = spec_le_bytes(v.array_value@[0] as nat, 4);
    let a1 = spec_le_bytes(v.array_value@[1] as nat, 4);
    let a2 = spec_le_bytes(v.array_value@[2] as nat, 4);
    let t0 = spec_le_bytes(v.tuple_value.0 as nat, 4);
    let t1 = spec_le_bytes(v.tuple_value.1 as nat, 4);
    let e = spec_encode_primitive_types(v);
    let s = e + rest;
    let fixed = a0 + a1 + a2 + t0 + t1;
    assert(s =~= eb + (e1 + (e2 + (fixed + rest))));
    lemma_bool_round_trip(v.bool_value, e1 + (e2 + (fixed + rest)));
    assert(s.skip(1) =~= e1 + (e2 + (fixed + rest)));
    lemma_enum_without_values_round_trip(v.enum_without_values, e2 + (fixed + rest));
    assert(s.skip(2) =~= e2 + (fixed + rest));
    lemma_enum_with_values_round_trip(v.enum_with_values, fixed + rest);
    let n3 = e2.len() as int;
    lemma_le_bytes_len(v.array_value@[0] as nat, 4);
    lemma_le_bytes_len(v.array_value@[1] as nat, 4);
    lemma_le_bytes_len(v.array_value@[2] as nat, 4);
    lemma_le_bytes_len(v.tuple_value.0 as nat, 4);
    lemma_le_bytes_len(v.tuple_value.1 as nat, 4);
    assert(s.skip(2 + n3) =~= a0 + a1 + a2 + t0 + t1 + rest);
}

/// Decoding the encoding of any `PrimitiveTypes` record, whatever follows it,
/// returns the record and consumes exactly the encoding.
#[verifier::rlimit(100)]
pub proof fn lemma_primitive_types_round_trip(
    v: crate::catalogue::PrimitiveTypes,
    rest: Seq<u8>,
)
    ensures
        ({
            let e = spec_encode_primitive_types(v);
            spec_decode_primitive_types(e + rest) == Some((v, e.len() as int))
        }),
{
    let e = spec_encode_primitive_types(v);
    let s = e + rest;
    let n3 = spec_encode_enum_with_values(v.enum_with_values).len() as int;
    let t = 2 + n3;
    lemma_primitive_prefix(v, rest);
    lemma_u32_run(
        s,
        t,
        v.array_value@[0],
        v.array_value@[1],
        v.array_value@[2],
        v.tuple_value.0,
        v.tuple_value.1,
        rest,
    );
    lemma_arr3_eq(v.array_value, spec_u32_at(s, t), spec_u32_at(s, t + 4), spec_u32_at(s, t + 8));
    assert(v.tuple_value == (v.tuple_value.0, v.tuple_value.1));
}

// ---------------------------------------------------------------------------
// Text
// ---------------------------------------------------------------------------

/// Relies on core::str::from_utf8: it returns Ok exactly when the bytes are
/// valid UTF-8, and the returned text is the one whose characters those bytes
/// encode.
#[verifier::external_body]
fn str_from_utf8(bytes: &[u8]) -> (r: Option<&str>)
    ensures
        r is Some <==> valid_utf8(bytes@),
        match r {
            Some(st) => st@ == decode_utf8(bytes@),
            None => !valid_utf8(bytes@),
        },
{
    core::str::from_utf8(bytes).ok()
}

/// A text value fits the encoding when its UTF-8 form fits the length prefix.
pub open spec fn string_encodable(s: Seq<char>) -> bool {
    encode_utf8(s).len() <= u32::MAX
}

/// A text value encodes as the compact byte length of its UTF-8 form,
/// followed by that form.
pub open spec fn spec_encode_string(s: Seq<char>) -> Seq<u8> {
    spec_encode_compact_u32(encode_utf8(s).len() as u32) + encode_utf8(s)
}

/// Reads a text value from the front of `s`: a compact byte length, then that
/// many bytes, which must be valid UTF-8.
pub open spec fn spec_decode_string(s: Seq<u8>) -> Option<(Seq<char>, int)> {
    match spec_decode_compact_u32(s) {
        Option::None => Option::None,
        Option::Some((len, used)) => {
            if s.len() >= used + len {
                let content = s.subrange(used, used + len);
                if valid_utf8(content) {
                    Option::Some((decode_utf8(content), used + len))
                } else {
                    Option::None
                }
            } else {
                Option::None
            }
        },
    }
}

fn enc_str(out: &mut Vec<u8>, v: &str)
    requires
        string_encodable(v@),
    ensures
        final(out)@ == old(out)@ + spec_encode_string(v@),
{
    let b: &[u8] = v.as_bytes();
    let n: usize = b.len();
    encode_compact_u32(out, n as u32);
    push_bytes(out, b);
    proof {
        assert(final(out)@ =~= old(out)@ + spec_encode_string(v@));
    }
}

fn dec_string(bytes: &[u8], pos: usize) -> (r: Result<(String, usize), CodecError>)
    requires
        pos <= bytes@.len(),
    ensures
        ({
            let s = bytes@.skip(pos as int);
            match r {
                Ok((v, end)) => pos <= end <= bytes@.len() && spec_decode_string(s) == Some(
                    (v@, end - pos),
                ),
                Err(e) => spec_decode_string(s) is None && e == CodecError::MalformedInput,
            }
        }),
{
    let ghost s = bytes@.skip(pos as int);
    let (len32, p1) = match decode_compact_u32(bytes, pos) {
        Ok(x) => x,
        Err(e) => {
            return Err(e);
        },
    };
    let len: usize = len32 as usize;
    let blen: usize = bytes.len();
    if blen - p1 < len {
        return Err(CodecError::MalformedInput);
    }
    let content: &[u8] = vstd::slice::slice_subrange(bytes, p1, p1 + len);
    proof {
        assert(content@ =~= s.subrange((p1 - pos) as int, (p1 - pos) + (len32 as int)));
    }
    match str_from_utf8(content) {
        Some(st) => {
            let owned: String = st.to_owned();
            Ok((owned, p1 + len))
        },
        None => Err(CodecError::MalformedInput),
    }
}

/// Decoding the encoding of any text value, whatever follows it, returns the
/// value and consumes exactly the encoding.
pub proof fn lemma_string_round_trip(v: Seq<char>, rest: Seq<u8>)
    requires
        string_encodable(v),
    ensures
        ({
            let e = spec_encode_string(v);
            spec_decode_string(e + rest) == Some((v, e.len() as int))
        }),
{
    let u = encode_utf8(v);
    let c = spec_encode_compact_u32(u.len() as u32);
    let e = spec_encode_string(v);
    let s = e + rest;
    assert(s =~= c + (u + rest));
    lemma_compact_u32_round_trip(u.len() as u32, u + rest);
    let used = c.len() as int;
    assert(s.subrange(used, used + u.len() as int) =~= u);
    vstd::utf8::encode_utf8_valid_utf8(v);
    vstd::utf8::encode_utf8_decode_utf8(v);
}

// ---------------------------------------------------------------------------
// Sequences of text
// ---------------------------------------------------------------------------

/// The concatenated encodings of a run of text values.
pub open spec fn spec_encode_str_seq_items(v: Seq<Seq<char>>) -> Seq<u8>
    decreases v.len(),
{
    if v.len() == 0 {
        Seq::empty()
    } else {
        spec_encode_string(v[0]) + spec_encode_str_seq_items(v.drop_first())
    }
}

/// A sequence of text values encodes as its compact element count followed by
/// each element's encoding in order.
pub open spec fn spec_encode_str_seq(v: Seq<Seq<char>>) -> Seq<u8> {
    spec_encode_compact_u32(v.len() as u32) + spec_encode_str_seq_items(v)
}

/// A sequence of text values fits the encoding when its count and each
/// element fit their length prefixes.
pub open spec fn str_seq_encodable(v: Seq<Seq<char>>) -> bool {
    v.len() <= u32::MAX && forall|i: int| 0 <= i < v.len() ==> string_encodable(#[trigger] v[i])
}

/// Reads `n` consecutive text values from the front of `s`.
pub open spec fn spec_decode_str_seq_items(s: Seq<u8>, n: nat) -> Option<(Seq<Seq<char>>, int)>
    decreases n,
{
    if n == 0 {
        Option::Some((Seq::empty(), 0))
    } else {
        match spec_decode_string(s) {
            Option::None => Option::None,
            Option::Some((c, used)) => match spec_decode_str_seq_items(
                s.skip(used),
                (n - 1) as nat,
            ) {
                Option::None => Option::None,
                Option::Some((tail, used2)) => Option::Some((seq![c] + tail, used + used2)),
            },
        }
    }
}

/// Reads a sequence of text values from the front of `s`: a compact count,
/// then that many text values.
pub open spec fn spec_decode_str_seq(s: Seq<u8>) -> Option<(Seq<Seq<char>>, int)> {
    match spec_decode_compact_u32(s) {
        Option::None => Option::None,
        Option::Some((n, used)) => match spec_decode_str_seq_items(s.skip(used), n as nat) {
            Option::None => Option::None,
            Option::Some((items, used2)) => Option::Some((items, used + used2)),
        },
    }
}

proof fn lemma_str_seq_items_push(v: Seq<Seq<char>>, x: Seq<char>)
    ensures
        spec_encode_str_seq_items(v.push(x)) == spec_encode_str_seq_items(v) + spec_encode_string(
            x,
        ),
    decreases v.len(),
{
    if v.len() == 0 {
        assert(v.push(x).drop_first() =~= v);
        assert(v.push(x)[0] == x);
        assert(spec_encode_string(x) + spec_encode_str_seq_items(v) =~= spec_encode_str_seq_items(
            v,
        ) + spec_encode_string(x));
    } else {
        assert(v.push(x).drop_first() =~= v.drop_first().push(x));
        assert(v.push(x)[0] == v[0]);
        lemma_str_seq_items_push(v.drop_first(), x);
        assert(spec_encode_string(v[0]) + (spec_encode_str_seq_items(v.drop_first())
            + spec_encode_string(x)) =~= (spec_encode_string(v[0]) + spec_encode_str_seq_items(
            v.drop_first(),
        )) + spec_encode_string(x));
    }
}

fn enc_str_vec(out: &mut Vec<u8>, v: &Vec<String>)
    requires
        str_seq_encodable(v.deep_view()),
    ensures
        final(out)@ == old(out)@ + spec_encode_str_seq(v.deep_view()),
{
    let ghost dv = v.deep_view();
    let n: usize = v.len();
    proof {
        assert(dv.len() == n);
    }
    encode_compact_u32(out, n as u32);
    let mut i: usize = 0;
    while i < n
        invariant
            i <= n == v@.len(),
            dv == v.deep_view(),
            str_seq_encodable(dv),
            out@ == old(out)@ + spec_encode_compact_u32(n as u32) + spec_encode_str_seq_items(
                dv.take(i as int),
            ),
        decreases n - i,
    {
        proof {
            assert(dv[i as int] == v@[i as int]@);
            assert(string_encodable(dv[i as int]));
        }
        enc_str(out, v[i].as_str());
        proof {
            lemma_str_seq_items_push(dv.take(i as int), dv[i as int]);
            assert(dv.take(i as int).push(dv[i as int]) =~= dv.take(i + 1));
        }
        i += 1;
    }
    proof {
        assert(dv.take(n as int) =~= dv);
        assert(final(out)@ =~= old(out)@ + spec_encode_str_seq(dv));
    }
}

proof fn lemma_str_items_step(
    s1: Seq<u8>,
    n: nat,
    front: Seq<Seq<char>>,
    c: Seq<char>,
    sp: Seq<u8>,
    sp2: Seq<u8>,
    used: int,
    acc: int,
)
    requires
        n > front.len(),
        spec_decode_string(sp) == Some((c, used)),
        sp.skip(used) == sp2,
        match spec_decode_str_seq_items(sp, (n - front.len()) as nat) {
            Option::None => spec_decode_str_seq_items(s1, n) is None,
            Option::Some((tail, u2)) => spec_decode_str_seq_items(s1, n) == Some(
                (front + tail, acc + u2),
            ),
        },
    ensures
        match spec_decode_str_seq_items(sp2, (n - front.len() - 1) as nat) {
            Option::None => spec_decode_str_seq_items(s1, n) is None,
            Option::Some((tail, u2)) => spec_decode_str_seq_items(s1, n) == Some(
                (front.push(c) + tail, acc + used + u2),
            ),
        },
{
    match spec_decode_str_seq_items(sp2, (n - front.len() - 1) as nat) {
        Option::None => {},
        Option::Some((tail, u2)) => {
            assert(front + (seq![c] + tail) =~= front.push(c) + tail);
        },
    }
}

proof fn lemma_str_seq_none(s: Seq<u8>, n32: u32, used: int)
    requires
        spec_decode_compact_u32(s) == Some((n32, used)),
        spec_decode_str_seq_items(s.skip(used), n32 as nat) is None,
    ensures
        spec_decode_str_seq(s) is None,
{
}

#[verifier::rlimit(100)]
fn dec_str_vec(bytes: &[u8], pos: usize) -> (r: Result<(Vec<String>, usize), CodecError>)
    requires
        pos <= bytes@.len(),
    ensures
        ({
            let s = bytes@.skip(pos as int);
            match r {
                Ok((v, end)) => pos <= end <= bytes@.len() && spec_decode_str_seq(s) == Some(
                    (v.deep_view(), end - pos),
                ),
                Err(e) => spec_decode_str_seq(s) is None && e == CodecError::MalformedInput,
            }
        }),
{
    let ghost s = bytes@.skip(pos as int);
    let (n32, p1) = match decode_compact_u32(bytes, pos) {
        Ok(x) => x,
        Err(e) => {
            return Err(e);
        },
    };
    let n: usize = n32 as usize;
    let ghost s1 = bytes@.skip(p1 as int);
    proof {
        assert(s.skip((p1 - pos) as int) =~= s1);
    }
    let mut items: Vec<String> = Vec::new();
    let mut p: usize = p1;
    let mut i: usize = 0;
    while i < n
        invariant
            i <= n,
            pos <= p1 <= p <= bytes@.len(),
            s1 == bytes@.skip(p1 as int),
            s1 == bytes@.skip(pos as int).skip((p1 - pos) as int),
            n == n32 as usize,
            spec_decode_compact_u32(bytes@.skip(pos as int)) == Some((n32, (p1 - pos) as int)),
            items.deep_view().len() == i,
            ({
                match spec_decode_str_seq_items(bytes@.skip(p as int), (n - i) as nat) {
                    Option::None => spec_decode_str_seq_items(s1, n as nat) is None,
                    Option::Some((tail, used2)) => spec_decode_str_seq_items(s1, n as nat)
                        == Some((items.deep_view() + tail, (p - p1) + used2)),
                }
            }),
        decreases n - i,
    {
        let ghost old_items = items.deep_view();
        let (st, p2) = match dec_string(bytes, p) {
            Ok(x) => x,
            Err(e) => {
                proof {
                    assert(spec_decode_str_seq_items(bytes@.skip(p as int), (n - i) as nat)
                        is None);
                    lemma_str_seq_none(bytes@.skip(pos as int), n32, (p1 - pos) as int);
                }
                return Err(e);
            },
        };
        proof {
            assert(bytes@.skip(p as int).skip((p2 - p) as int) =~= bytes@.skip(p2 as int));
            lemma_str_items_step(
                s1,
                n as nat,
                old_items,
                st@,
                bytes@.skip(p as int),
                bytes@.skip(p2 as int),
                (p2 - p) as int,
                (p - p1) as int,
            );
        }
        items.push(st);
        proof {
            assert(items.deep_view() =~= old_items.push(st@));
        }
        p = p2;
        i += 1;
    }
    proof {
        assert(items.deep_view() + Seq::<Seq<char>>::empty() =~= items.deep_view());
    }
    Ok((items, p))
}

/// Decoding the concatenated encodings of a run of text values, whatever
/// follows them, returns the run and consumes exactly those encodings.
pub proof fn lemma_str_seq_items_round_trip(v: Seq<Seq<char>>, rest: Seq<u8>)
    requires
        forall|i: int| 0 <= i < v.len() ==> string_encodable(#[trigger] v[i]),
    ensures
        ({
            let e = spec_encode_str_seq_items(v);
            spec_decode_str_seq_items(e + rest, v.len()) == Some((v, e.len() as int))
        }),
    decreases v.len(),
{
    let e = spec_encode_str_seq_items(v);
    if v.len() == 0 {
        assert(e + rest =~= rest);
        assert(Seq::<Seq<char>>::empty() =~= v);
    } else {
        let e0 = spec_encode_string(v[0]);
        let etail = spec_encode_str_seq_items(v.drop_first());
        assert(e + rest =~= e0 + (etail + rest));
        lemma_string_round_trip(v[0], etail + rest);
        assert((e + rest).skip(e0.len() as int) =~= etail + rest);
        assert(forall|i: int|
            0 <= i < v.drop_first().len() ==> string_encodable(#[trigger] v.drop_first()[i]));
        lemma_str_seq_items_round_trip(v.drop_first(), rest);
        assert(seq![v[0]] + v.drop_first() =~= v);
    }
}

/// Decoding the encoding of any sequence of text values, whatever follows it,
/// returns the sequence and consumes exactly the encoding.
pub proof fn lemma_str_seq_round_trip(v: Seq<Seq<char>>, rest: Seq<u8>)
    requires
        str_seq_encodable(v),
    ensures
        ({
            let e = spec_encode_str_seq(v);
            spec_decode_str_seq(e + rest) == Some((v, e.len() as int))
        }),
{
    let c = spec_encode_compact_u32(v.len() as u32);
    let ei = spec_encode_str_seq_items(v);
    let e = spec_encode_str_seq(v);
    assert(e + rest =~= c + (ei + rest));
    lemma_compact_u32_round_trip(v.len() as u32, ei + rest);
    assert((e + rest).skip(c.len() as int) =~= ei + rest);
    lemma_str_seq_items_round_trip(v, rest);
}

// ---------------------------------------------------------------------------
// Sequences of sequences of text
// ---------------------------------------------------------------------------

/// The concatenated encodings of a run of text sequences.
pub open spec fn spec_encode_str_seq_seq_items(v: Seq<Seq<Seq<char>>>) -> Seq<u8>
    decreases v.len(),
{
    if v.len() == 0 {
        Seq::empty()
    } else {
        spec_encode_str_seq(v[0]) + spec_encode_str_seq_seq_items(v.drop_first())
    }
}

/// A sequence of text sequences encodes as its compact element count followed
/// by each element's encoding in order.
pub open spec fn spec_encode_str_seq_seq(v: Seq<Seq<Seq<char>>>) -> Seq<u8> {
    spec_encode_compact_u32(v.len() as u32) + spec_encode_str_seq_seq_items(v)
}

/// A sequence of text sequences fits the encoding when its count and each
/// element fit their length prefixes.
pub open spec fn str_seq_seq_encodable(v: Seq<Seq<Seq<char>>>) -> bool {
    v.len() <= u32::MAX && forall|i: int| 0 <= i < v.len() ==> str_seq_encodable(#[trigger] v[i])
}

/// Reads `n` consecutive text sequences from the front of `s`.
pub open spec fn spec_decode_str_seq_seq_items(s: Seq<u8>, n: nat) -> Option<
    (Seq<Seq<Seq<char>>>, int),
>
    decreases n,
{
    if n == 0 {
        Option::Some((Seq::empty(), 0))
    } else {
        match spec_decode_str_seq(s) {
            Option::None => Option::None,
            Option::Some((c, used)) => match spec_decode_str_seq_seq_items(
                s.skip(used),
                (n - 1) as nat,
            ) {
                Option::None => Option::None,
                Option::Some((tail, used2)) => Option::Some((seq![c] + tail, used + used2)),
            },
        }
    }
}

/// Reads a sequence of text sequences from the front of `s`.
pub open spec fn spec_decode_str_seq_seq(s: Seq<u8>) -> Option<(Seq<Seq<Seq<char>>>, int)> {
    match spec_decode_compact_u32(s) {
        Option::None => Option::None,
        Option::Some((n, used)) => match spec_decode_str_seq_seq_items(s.skip(used), n as nat) {
            Option::None => Option::None,
            Option::Some((items, used2)) => Option::Some((items, used + used2)),
        },
    }
}

proof fn lemma_str_seq_seq_items_push(v: Seq<Seq<Seq<char>>>, x: Seq<Seq<char>>)
    ensures
        spec_encode_str_seq_seq_items(v.push(x)) == spec_encode_str_seq_seq_items(v)
            + spec_encode_str_seq(x),
    decreases v.len(),
{
    if v.len() == 0 {
        assert(v.push(x).drop_first() =~= v);
        assert(v.push(x)[0] == x);
        assert(spec_encode_str_seq(x) + spec_encode_str_seq_seq_items(v)
            =~= spec_encode_str_seq_seq_items(v) + spec_encode_str_seq(x));
    } else {
        assert(v.push(x).drop_first() =~= v.drop_first().push(x));
        assert(v.push(x)[0] == v[0]);
        lemma_str_seq_seq_items_push(v.drop_first(), x);
        assert(spec_encode_str_seq(v[0]) + (spec_encode_str_seq_seq_items(v.drop_first())
            + spec_encode_str_seq(x)) =~= (spec_encode_str_seq(v[0])
            + spec_encode_str_seq_seq_items(v.drop_first())) + spec_encode_str_seq(x));
    }
}

fn enc_str_vec_vec(out: &mut Vec<u8>, v: &Vec<Vec<String>>)
    requires
        str_seq_seq_encodable(v.deep_view()),
    ensures
        final(out)@ == old(out)@ + spec_encode_str_seq_seq(v.deep_view()),
{
    let ghost dv = v.deep_view();
    let n: usize = v.len();
    proof {
        assert(dv.len() == n);
    }
    encode_compact_u32(out, n as u32);
    let mut i: usize = 0;
    while i < n
        invariant
            i <= n == v@.len(),
            dv == v.deep_view(),
            str_seq_seq_encodable(dv),
            out@ == old(out)@ + spec_encode_compact_u32(n as u32) + spec_encode_str_seq_seq_items(
                dv.take(i as int),
            ),
        decreases n - i,
    {
        proof {
            assert(dv[i as int] == v@[i as int].deep_view());
            assert(str_seq_encodable(dv[i as int]));
        }
        enc_str_vec(out, &v[i]);
        proof {
            lemma_str_seq_seq_items_push(dv.take(i as int), dv[i as int]);
            assert(dv.take(i as int).push(dv[i as int]) =~= dv.take(i + 1));
        }
        i += 1;
    }
    proof {
        assert(dv.take(n as int) =~= dv);
        assert(final(out)@ =~= old(out)@ + spec_encode_str_seq_seq(dv));
    }
}

proof fn lemma_str_seq2_items_step(
    s1: Seq<u8>,
    n: nat,
    front: Seq<Seq<Seq<char>>>,
    c: Seq<Seq<char>>,
    sp: Seq<u8>,
    sp2: Seq<u8>,
    used: int,
    acc: int,
)
    requires
        n > front.len(),
        spec_decode_str_seq(sp) == Some((c, used)),
        sp.skip(used) == sp2,
        match spec_decode_str_seq_seq_items(sp, (n - front.len()) as nat) {
            Option::None => spec_decode_str_seq_seq_items(s1, n) is None,
            Option::Some((tail, u2)) => spec_decode_str_seq_seq_items(s1, n) == Some(
                (front + tail, acc + u2),
            ),
        },
    ensures
        match spec_decode_str_seq_seq_items(sp2, (n - front.len() - 1) as nat) {
            Option::None => spec_decode_str_seq_seq_items(s1, n) is None,
            Option::Some((tail, u2)) => spec_decode_str_seq_seq_items(s1, n) == Some(
                (front.push(c) + tail, acc + used + u2),
            ),
        },
{
    match spec_decode_str_seq_seq_items(sp2, (n - front.len() - 1) as nat) {
        Option::None => {},
        Option::Some((tail, u2)) => {
            assert(front + (seq![c] + tail) =~= front.push(c) + tail);
        },
    }
}

proof fn lemma_str_seq_seq_none(s: Seq<u8>, n32: u32, used: int)
    requires
        spec_decode_compact_u32(s) == Some((n32, used)),
        spec_decode_str_seq_seq_items(s.skip(used), n32 as nat) is None,
    ensures
        spec_decode_str_seq_seq(s) is None,
{
}

#[verifier::rlimit(100)]
fn dec_str_vec_vec(bytes: &[u8], pos: usize) -> (r: Result<(Vec<Vec<String>>, usize), CodecError>)
    requires
        pos <= bytes@.len(),
    ensures
        ({
            let s = bytes@.skip(pos as int);
            match r {
                Ok((v, end)) => pos <= end <= bytes@.len() && spec_decode_str_seq_seq(s) == Some(
                    (v.deep_view(), end - pos),
                ),
                Err(e) => spec_decode_str_seq_seq(s) is None && e == CodecError::MalformedInput,
            }
        }),
{
    let ghost s = bytes@.skip(pos as int);
    let (n32, p1) = match decode_compact_u32(bytes, pos) {
        Ok(x) => x,
        Err(e) => {
            return Err(e);
        },
    };
    let n: usize = n32 as usize;
    let ghost s1 = bytes@.skip(p1 as int);
    proof {
        assert(s.skip((p1 - pos) as int) =~= s1);
    }
    let mut items: Vec<Vec<String>> = Vec::new();
    let mut p: usize = p1;
    let mut i: usize = 0;
    while i < n
        invariant
            i <= n,
            pos <= p1 <= p <= bytes@.len(),
            s1 == bytes@.skip(p1 as int),
            s1 == bytes@.skip(pos as int).skip((p1 - pos) as int),
            n == n32 as usize,
            spec_decode_compact_u32(bytes@.skip(pos as int)) == Some((n32, (p1 - pos) as int)),
            items.deep_view().len() == i,
            ({
                match spec_decode_str_seq_seq_items(bytes@.skip(p as int), (n - i) as nat) {
                    Option::None => spec_decode_str_seq_seq_items(s1, n as nat) is None,
                    Option::Some((tail, used2)) => spec_decode_str_seq_seq_items(s1, n as nat)
                        == Some((items.deep_view() + tail, (p - p1) + used2)),
                }
            }),
        decreases n - i,
    {
        let ghost old_items = items.deep_view();
        let (sv, p2) = match dec_str_vec(bytes, p) {
            Ok(x) => x,
            Err(e) => {
                proof {
                    assert(spec_decode_str_seq_seq_items(bytes@.skip(p as int), (n - i) as nat)
                        is None);
                    lemma_str_seq_seq_none(bytes@.skip(pos as int), n32, (p1 - pos) as int);
                }
                return Err(e);
            },
        };
        proof {
            assert(bytes@.skip(p as int).skip((p2 - p) as int) =~= bytes@.skip(p2 as int));
            lemma_str_seq2_items_step(
                s1,
                n as nat,
                old_items,
                sv.deep_view(),
                bytes@.skip(p as int),
                bytes@.skip(p2 as int),
                (p2 - p) as int,
                (p - p1) as int,
            );
        }
        items.push(sv);
        proof {
            assert(items.deep_view() =~= old_items.push(sv.deep_view()));
        }
        p = p2;
        i += 1;
    }
    proof {
        assert(items.deep_view() + Seq::<Seq<Seq<char>>>::empty() =~= items.deep_view());
    }
    Ok((items, p))
}

/// Decoding the concatenated encodings of a run of text sequences, whatever
/// follows them, returns the run and consumes exactly those encodings.
pub proof fn lemma_str_seq_seq_items_round_trip(v: Seq<Seq<Seq<char>>>, rest: Seq<u8>)
    requires
        forall|i: int| 0 <= i < v.len() ==> str_seq_encodable(#[trigger] v[i]),
    ensures
        ({
            let e = spec_encode_str_seq_seq_items(v);
            spec_decode_str_seq_seq_items(e + rest, v.len()) == Some((v, e.len() as int))
        }),
    decreases v.len(),
{
    let e = spec_encode_str_seq_seq_items(v);
    if v.len() == 0 {
        assert(e + rest =~= rest);
        assert(Seq::<Seq<Seq<char>>>::empty() =~= v);
    } else {
        let e0 = spec_encode_str_seq(v[0]);
        let etail = spec_encode_str_seq_seq_items(v.drop_first());
        assert(e + rest =~= e0 + (etail + rest));
        lemma_str_seq_round_trip(v[0], etail + rest);
        assert((e + rest).skip(e0.len() as int) =~= etail + rest);
        assert(forall|i: int|
            0 <= i < v.drop_first().len() ==> str_seq_encodable(#[trigger] v.drop_first()[i]));
        lemma_str_seq_seq_items_round_trip(v.drop_first(), rest);
        assert(seq![v[0]] + v.drop_first() =~= v);
    }
}

/// Decoding the encoding of any sequence of text sequences, whatever follows
/// it, returns the sequence and consumes exactly the encoding.
pub proof fn lemma_str_seq_seq_round_trip(v: Seq<Seq<Seq<char>>>, rest: Seq<u8>)
    requires
        str_seq_seq_encodable(v),
    ensures
        ({
            let e = spec_encode_str_seq_seq(v);
            spec_decode_str_seq_seq(e + rest) == Some((v, e.len() as int))
        }),
{
    let c = spec_encode_compact_u32(v.len() as u32);
    let ei = spec_encode_str_seq_seq_items(v);
    let e = spec_encode_str_seq_seq(v);
    assert(e + rest =~= c + (ei + rest));
    lemma_compact_u32_round_trip(v.len() as u32, ei + rest);
    assert((e + rest).skip(c.len() as int) =~= ei + rest);
    lemma_str_seq_seq_items_round_trip(v, rest);
}

// ---------------------------------------------------------------------------
// Text composite and the root record
// ---------------------------------------------------------------------------

/// A `PreludeTypes` record fits the encoding when each of its fields fits its
/// length prefix.
pub open spec fn prelude_types_encodable(p: crate::catalogue::PreludeTypesView) -> bool {
    string_encodable(p.string_value) && str_seq_encodable(p.vec_string_value)
        && str_seq_seq_encodable(p.vec_vec_string_value)
}

/// A `PreludeTypes` record encodes as its three fields in declared order.
pub open spec fn spec_encode_prelude_types(p: crate::catalogue::PreludeTypesView) -> Seq<u8> {
    spec_encode_string(p.string_value) + spec_encode_str_seq(p.vec_string_value)
        + spec_encode_str_seq_seq(p.vec_vec_string_value)
}

/// Reads a `PreludeTypes` record from the front of `s`.
pub open spec fn spec_decode_prelude_types(s: Seq<u8>) -> Option<
    (crate::catalogue::PreludeTypesView, int),
> {
    match spec_decode_string(s) {
        Option::None => Option::None,
        Option::Some((sv, n1)) => match spec_decode_str_seq(s.skip(n1)) {
            Option::None => Option::None,
            Option::Some((vs, n2)) => match spec_decode_str_seq_seq(s.skip(n1 + n2)) {
                Option::None => Option::None,
                Option::Some((vvs, n3)) => Option::Some(
                    (
                        crate::catalogue::PreludeTypesView {
                            string_value: sv,
                            vec_string_value: vs,
                            vec_vec_string_value: vvs,
                        },
                        n1 + n2 + n3,
                    ),
                ),
            },
        },
    }
}

/// Encodes a `PreludeTypes` record.
pub fn encode_prelude_types(v: &crate::catalogue::PreludeTypes) -> (r: Vec<u8>)
    requires
        prelude_types_encodable(v@),
    ensures
        r@ == spec_encode_prelude_types(v@),
{
    let mut out: Vec<u8> = Vec::new();
    enc_str(&mut out, v.string_value.as_str());
    enc_str_vec(&mut out, &v.vec_string_value);
    enc_str_vec_vec(&mut out, &v.vec_vec_string_value);
    proof {
        assert(out@ =~= spec_encode_prelude_types(v@));
    }
    out
}

/// Reads a `PreludeTypes` record at `pos`.
#[verifier::rlimit(100)]
pub fn decode_prelude_types(bytes: &[u8], pos: usize) -> (r: Result<
    (crate::catalogue::PreludeTypes, usize),
    CodecError,
>)
    requires
        pos <= bytes@.len(),
    ensures
        ({
            let s = bytes@.skip(pos as int);
            match r {
                Ok((v, end)) => pos <= end <= bytes@.len() && spec_decode_prelude_types(s) == Some(
                    (v@, end - pos),
                ),
                Err(e) => spec_decode_prelude_types(s) is None && e == CodecError::MalformedInput,
            }
        }),
{
    let ghost s = bytes@.skip(pos as int);
    let (sv, p1) = match dec_string(bytes, pos) {
        Ok(x) => x,
        Err(e) => {
            return Err(e);
        },
    };
    proof {
        assert(s.skip((p1 - pos) as int) =~= bytes@.skip(p1 as int));
    }
    let (vs, p2) = match dec_str_vec(bytes, p1) {
        Ok(x) => x,
        Err(e) => {
            return Err(e);
        },
    };
    proof {
        assert(s.skip((p2 - pos) as int) =~= bytes@.skip(p2 as int));
    }
    let (vvs, p3) = match dec_str_vec_vec(bytes, p2) {
        Ok(x) => x,
        Err(e) => {
            return Err(e);
        },
    };
    let v = crate::catalogue::PreludeTypes {
        string_value: sv,
        vec_string_value: vs,
        vec_vec_string_value: vvs,
    };
    Ok((v, p3))
}

/// Decoding the encoding of any `PreludeTypes` record, whatever follows it,
/// returns the record and consumes exactly the encoding.
pub proof fn lemma_prelude_types_round_trip(
    p: crate::catalogue::PreludeTypesView,
    rest: Seq<u8>,
)
    requires
        prelude_types_encodable(p),
    ensures
        ({
            let e = spec_encode_prelude_types(p);
            spec_decode_prelude_types(e + rest) == Some((p, e.len() as int))
        }),
{
    let e0 = spec_encode_string(p.string_value);
    let e1 = spec_encode_str_seq(p.vec_string_value);
    let e2 = spec_encode_str_seq_seq(p.vec_vec_string_value);
    let e = spec_encode_prelude_types(p);
    let s = e + rest;
    assert(s =~= e0 + (e1 + (e2 + rest)));
    lemma_string_round_trip(p.string_value, e1 + (e2 + rest));
    assert(s.skip(e0.len() as int) =~= e1 + (e2 + rest));
    lemma_str_seq_round_trip(p.vec_string_value, e2 + rest);
    assert(s.skip((e0.len() + e1.len()) as int) =~= e2 + rest);
    lemma_str_seq_seq_round_trip(p.vec_vec_string_value, rest);
    assert(p == crate::catalogue::PreludeTypesView {
        string_value: p.string_value,
        vec_string_value: p.vec_string_value,
        vec_vec_string_value: p.vec_vec_string_value,
    });
}

/// A `StorageTypes` record fits the encoding when its text composite does.
pub open spec fn storage_types_encodable(v: crate::catalogue::StorageTypesView) -> bool {
    prelude_types_encodable(v.prelude_types)
}

/// A `StorageTypes` record encodes as its five composites in declared order.
pub open spec fn spec_encode_storage_types(v: crate::catalogue::StorageTypesView) -> Seq<u8> {
    spec_encode_prelude_types(v.prelude_types) + spec_encode_primitive_types(v.primitive_types)
        + spec_encode_signed_integers(v.signed_integers) + spec_encode_substrate_types(
        v.substrate_types,
    ) + spec_encode_unsigned_integers(v.unsigned_integers)
}

/// Reads a `StorageTypes` record from the front of `s`.
pub open spec fn spec_decode_storage_types(s: Seq<u8>) -> Option<
    (crate::catalogue::StorageTypesView, int),
> {
    match spec_decode_prelude_types(s) {
        Option::None => Option::None,
        Option::Some((pre, n1)) => match spec_decode_primitive_types(s.skip(n1)) {
            Option::None => Option::None,
            Option::Some((pri, n2)) => match spec_decode_signed_integers(s.skip(n1 + n2)) {
                Option::None => Option::None,
                Option::Some((sig, n3)) => match spec_decode_substrate_types(
                    s.skip(n1 + n2 + n3),
                ) {
                    Option::None => Option::None,
                    Option::Some((sub, n4)) => match spec_decode_unsigned_integers(
                        s.skip(n1 + n2 + n3 + n4),
                    ) {
                        Option::None => Option::None,
                        Option::Some((uns, n5)) => Option::Some(
                            (
                                crate::catalogue::StorageTypesView {
                                    prelude_types: pre,
                                    primitive_types: pri,
                                    signed_integers: sig,
                                    substrate_types: sub,
                                    unsigned_integers: uns,
                                },
                                n1 + n2 + n3 + n4 + n5,
                            ),
                        ),
                    },
                },
            },
        },
    }
}

/// Encodes a whole `StorageTypes` record.
pub fn encode_storage_types(v: &crate::catalogue::StorageTypes) -> (r: Vec<u8>)
    requires
        storage_types_encodable(v@),
    ensures
        r@ == spec_encode_storage_types(v@),
{
    let mut out: Vec<u8> = Vec::new();
    let pre = encode_prelude_types(&v.prelude_types);
    push_bytes(&mut out, pre.as_slice());
    let pri = encode_primitive_types(&v.primitive_types);
    push_bytes(&mut out, pri.as_slice());
    let sig = encode_signed_integers(&v.signed_integers);
    push_bytes(&mut out, sig.as_slice());
    let sub = encode_substrate_types(&v.substrate_types);
    push_bytes(&mut out, sub.as_slice());
    let uns = encode_unsigned_integers(&v.unsigned_integers);
    push_bytes(&mut out, uns.as_slice());
    proof {
        assert(out@ =~= spec_encode_storage_types(v@));
    }
    out
}

/// Reads a whole `StorageTypes` record at `pos`.
#[verifier::rlimit(100)]
pub fn decode_storage_types(bytes: &[u8], pos: usize) -> (r: Result<
    (crate::catalogue::StorageTypes, usize),
    CodecError,
>)
    requires
        pos <= bytes@.len(),
    ensures
        ({
            let s = bytes@.skip(pos as int);
            match r {
                Ok((v, end)) => pos <= end <= bytes@.len() && spec_decode_storage_types(s) == Some(
                    (v@, end - pos),
                ),
                Err(e) => spec_decode_storage_types(s) is None && e == CodecError::MalformedInput,
            }
        }),
{
    let ghost s = bytes@.skip(pos as int);
    let (pre, p1) = match decode_prelude_types(bytes, pos) {
        Ok(x) => x,
        Err(e) => {
            return Err(e);
        },
    };
    proof {
        assert(s.skip((p1 - pos) as int) =~= bytes@.skip(p1 as int));
    }
    let (pri, p2) = match decode_primitive_types(bytes, p1) {
        Ok(x) => x,
        Err(e) => {
            return Err(e);
        },
    };
    proof {
        assert(s.skip((p2 - pos) as int) =~= bytes@.skip(p2 as int));
    }
    let (sig, p3) = match decode_signed_integers(bytes, p2) {
        Ok(x) => x,
        Err(e) => {
            return Err(e);
        },
    };
    proof {
        assert(s.skip((p3 - pos) as int) =~= bytes@.skip(p3 as int));
    }
    let (sub, p4) = match decode_substrate_types(bytes, p3) {
        Ok(x) => x,
        Err(e) => {
            return Err(e);
        },
    };
    proof {
        assert(s.skip((p4 - pos) as int) =~= bytes@.skip(p4 as int));
    }
    let (uns, p5) = match decode_unsigned_integers(bytes, p4) {
        Ok(x) => x,
        Err(e) => {
            return Err(e);
        },
    };
    let v = crate::catalogue::StorageTypes {
        prelude_types: pre,
        primitive_types: pri,
        signed_integers: sig,
        substrate_types: sub,
        unsigned_integers: uns,
    };
    Ok((v, p5))
}

proof fn lemma_concat_skip<A>(a: Seq<A>, b: Seq<A>)
    ensures
        (a + b).skip(a.len() as int) == b,
{
    assert((a + b).skip(a.len() as int) =~= b);
}

proof fn lemma_skip_skip<A>(s: Seq<A>, a: int, b: int)
    requires
        0 <= a,
        0 <= b,
        a + b <= s.len(),
    ensures
        s.skip(a).skip(b) == s.skip(a + b),
{
    assert(s.skip(a).skip(b) =~= s.skip(a + b));
}

proof fn lemma_signed_integers_len(sig: crate::catalogue::SignedIntegers)
    ensures
        spec_encode_signed_integers(sig).len() == 62,
{
    lemma_le_bytes_len((sig.i128_value_max as u128) as nat, 16);
    lemma_le_bytes_len((sig.i128_value_min as u128) as nat, 16);
    lemma_le_bytes_len((sig.i16_value_max as u16) as nat, 2);
    lemma_le_bytes_len((sig.i16_value_min as u16) as nat, 2);
    lemma_le_bytes_len((sig.i32_value_max as u32) as nat, 4);
    lemma_le_bytes_len((sig.i32_value_min as u32) as nat, 4);
    lemma_le_bytes_len((sig.i64_value_max as u64) as nat, 8);
    lemma_le_bytes_len((sig.i64_value_min as u64) as nat, 8);
    lemma_le_bytes_len((sig.i8_value_max as u8) as nat, 1);
    lemma_le_bytes_len((sig.i8_value_min as u8) as nat, 1);
}

proof fn lemma_substrate_types_len(sub: crate::catalogue::SubstrateTypes)
    ensures
        spec_encode_substrate_types(sub).len() == 96,
{
    lemma_le_bytes_len(sub.balance_value_max as nat, 16);
    lemma_le_bytes_len(sub.balance_value_min as nat, 16);
}

proof fn lemma_unsigned_integers_len(uns: crate::catalogue::UnsignedIntegers)
    ensures
        spec_encode_unsigned_integers(uns).len() == 62,
{
    lemma_le_bytes_len(uns.u128_value_max as nat, 16);
    lemma_le_bytes_len(uns.u128_value_min as nat, 16);
    lemma_le_bytes_len(uns.u16_value_max as nat, 2);
    lemma_le_bytes_len(uns.u16_value_min as nat, 2);
    lemma_le_bytes_len(uns.u32_value_max as nat, 4);
    lemma_le_bytes_len(uns.u32_value_min as nat, 4);
    lemma_le_bytes_len(uns.u64_value_max as nat, 8);
    lemma_le_bytes_len(uns.u64_value_min as nat, 8);
    lemma_le_bytes_len(uns.u8_value_max as nat, 1);
    lemma_le_bytes_len(uns.u8_value_min as nat, 1);
}

/// Decoding the encoding of any `StorageTypes` record, whatever follows it,
/// returns the record and consumes exactly the encoding.
#[verifier::rlimit(100)]
pub proof fn lemma_storage_types_round_trip(
    v: crate::catalogue::StorageTypesView,
    rest: Seq<u8>,
)
    requires
        storage_types_encodable(v),
    ensures
        ({
            let e = spec_encode_storage_types(v);
            spec_decode_storage_types(e + rest) == Some((v, e.len() as int))
        }),
{
    let e1 = spec_encode_prelude_types(v.prelude_types);
    let e2 = spec_encode_primitive_types(v.primitive_types);
    let e3 = spec_encode_signed_integers(v.signed_integers);
    let e4 = spec_encode_substrate_types(v.substrate_types);
    let e5 = spec_encode_unsigned_integers(v.unsigned_integers);
    let e = spec_encode_storage_types(v);
    let s = e + rest;
    let x4 = e5 + rest;
    let x3 = e4 + x4;
    let x2 = e3 + x3;
    let x1 = e2 + x2;
    assert(s =~= e1 + x1);
    let n1 = e1.len() as int;
    let n2 = e2.len() as int;
    lemma_signed_integers_len(v.signed_integers);
    lemma_substrate_types_len(v.substrate_types);
    lemma_unsigned_integers_len(v.unsigned_integers);
    lemma_prelude_types_round_trip(v.prelude_types, x1);
    lemma_concat_skip(e1, x1);
    lemma_primitive_types_round_trip(v.primitive_types, x2);
    lemma_concat_skip(e2, x2);
    lemma_skip_skip(s, n1, n2);
    lemma_signed_integers_round_trip(v.signed_integers, x3);
    lemma_concat_skip(e3, x3);
    lemma_skip_skip(s, n1 + n2, 62);
    lemma_substrate_types_round_trip(v.substrate_types, x4);
    lemma_concat_skip(e4, x4);
    lemma_skip_skip(s, n1 + n2 + 62, 96);
    lemma_unsigned_integers_round_trip(v.unsigned_integers, rest);
    assert(v == crate::catalogue::StorageTypesView {
        prelude_types: v.prelude_types,
        primitive_types: v.primitive_types,
        signed_integers: v.signed_integers,
        substrate_types: v.substrate_types,
        unsigned_integers: v.unsigned_integers,
    });
}

} // verus!
