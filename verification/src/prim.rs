//! Primitive codec: fixed-width big-endian integers, booleans, UUIDs,
//! variable-length integers (VarInt) and length-prefixed byte strings.
//!
//! Every decoder works on a byte buffer and a cursor position and returns
//! the decoded value together with the position just past what it consumed.
//! Every encoder appends to the end of an output buffer.  The byte-level
//! meaning of each operation is pinned by a spec-level encoder
//! (`..._enc`, a byte sequence) and a spec-level decoder (`..._dec`, a
//! result over a suffix of the input), and each executable function is
//! proved to agree with them exactly.

use vstd::prelude::*;

use crate::err::ProtoError;

verus! {

// ---------------------------------------------------------------------
// Sign reinterpretation
// ---------------------------------------------------------------------

/// The unsigned 64-bit reinterpretation of a signed value.
pub open spec fn u64_of_i64(x: i64) -> u64 {
    if x >= 0 {
        x as u64
    } else {
        (x + 0x1_0000_0000_0000_0000) as u64
    }
}

/// The signed 64-bit reinterpretation of an unsigned value.
pub open spec fn i64_of_u64(x: u64) -> i64 {
    if x < 0x8000_0000_0000_0000 {
        x as i64
    } else {
        (x - 0x1_0000_0000_0000_0000) as i64
    }
}

/// The unsigned 32-bit reinterpretation of a signed value.
pub open spec fn u32_of_i32(x: i32) -> u32 {
    if x >= 0 {
        x as u32
    } else {
        (x + 0x1_0000_0000) as u32
    }
}

/// The signed 32-bit reinterpretation of an unsigned value.
pub open spec fn i32_of_u32(x: u32) -> i32 {
    if x < 0x8000_0000 {
        x as i32
    } else {
        (x - 0x1_0000_0000) as i32
    }
}

/// The unsigned 16-bit reinterpretation of a signed value.
pub open spec fn u16_of_i16(x: i16) -> u16 {
    if x >= 0 {
        x as u16
    } else {
        (x + 0x1_0000) as u16
    }
}

/// The signed 16-bit reinterpretation of an unsigned value.
pub open spec fn i16_of_u16(x: u16) -> i16 {
    if x < 0x8000 {
        x as i16
    } else {
        (x - 0x1_0000) as i16
    }
}

/// The unsigned 8-bit reinterpretation of a signed value.
pub open spec fn u8_of_i8(x: i8) -> u8 {
    if x >= 0 {
        x as u8
    } else {
        (x + 0x100) as u8
    }
}

/// The signed 8-bit reinterpretation of an unsigned value.
pub open spec fn i8_of_u8(x: u8) -> i8 {
    if x < 0x80 {
        x as i8
    } else {
        (x - 0x100) as i8
    }
}

// ---------------------------------------------------------------------
// Spec-level big-endian encodings
// ---------------------------------------------------------------------

/// Big-endian bytes of a 16-bit value.
pub open spec fn u16_be(x: u16) -> Seq<u8> {
    seq![((x >> 8) & 0xff) as u8, (x & 0xff) as u8]
}

/// Big-endian bytes of a 32-bit value.
pub open spec fn u32_be(x: u32) -> Seq<u8> {
    seq![
        ((x >> 24) & 0xff) as u8,
        ((x >> 16) & 0xff) as u8,
        ((x >> 8) & 0xff) as u8,
        (x & 0xff) as u8,
    ]
}

/// Big-endian bytes of a 64-bit value.
pub open spec fn u64_be(x: u64) -> Seq<u8> {
    seq![
        ((x >> 56) & 0xff) as u8,
        ((x >> 48) & 0xff) as u8,
        ((x >> 40) & 0xff) as u8,
        ((x >> 32) & 0xff) as u8,
        ((x >> 24) & 0xff) as u8,
        ((x >> 16) & 0xff) as u8,
        ((x >> 8) & 0xff) as u8,
        (x & 0xff) as u8,
    ]
}

/// Big-endian bytes of a 128-bit value (a UUID).
pub open spec fn u128_be(x: u128) -> Seq<u8> {
    seq![
        ((x >> 120) & 0xff) as u8,
        ((x >> 112) & 0xff) as u8,
        ((x >> 104) & 0xff) as u8,
        ((x >> 96) & 0xff) as u8,
        ((x >> 88) & 0xff) as u8,
        ((x >> 80) & 0xff) as u8,
        ((x >> 72) & 0xff) as u8,
        ((x >> 64) & 0xff) as u8,
        ((x >> 56) & 0xff) as u8,
        ((x >> 48) & 0xff) as u8,
        ((x >> 40) & 0xff) as u8,
        ((x >> 32) & 0xff) as u8,
        ((x >> 24) & 0xff) as u8,
        ((x >> 16) & 0xff) as u8,
        ((x >> 8) & 0xff) as u8,
        (x & 0xff) as u8,
    ]
}

/// One byte for a boolean: `1` for true, `0` for false.
pub open spec fn bool_enc(b: bool) -> Seq<u8> {
    if b {
        seq![1u8]
    } else {
        seq![0u8]
    }
}

// ---------------------------------------------------------------------
// Spec-level decoders over a suffix of the input.
//
// A decoder takes the remaining input and yields the value and the number
// of bytes consumed, or the error that the wire data forces.
// ---------------------------------------------------------------------

/// Decode one byte.
pub open spec fn u8_dec(s: Seq<u8>) -> Result<(u8, int), ProtoError> {
    if s.len() >= 1 {
        Ok((s[0], 1))
    } else {
        Err(ProtoError::TransportError)
    }
}

/// Decode a big-endian 16-bit value.
pub open spec fn u16_dec(s: Seq<u8>) -> Result<(u16, int), ProtoError> {
    if s.len() >= 2 {
        Ok((((s[0] as u16) << 8) | (s[1] as u16), 2))
    } else {
        Err(ProtoError::TransportError)
    }
}

/// Decode a big-endian 32-bit value.
pub open spec fn u32_dec(s: Seq<u8>) -> Result<(u32, int), ProtoError> {
    if s.len() >= 4 {
        Ok(
            (
                ((s[0] as u32) << 24) | ((s[1] as u32) << 16) | ((s[2] as u32) << 8) | (
                s[3] as u32),
                4,
            ),
        )
    } else {
        Err(ProtoError::TransportError)
    }
}

/// Decode a big-endian 64-bit value.
pub open spec fn u64_dec(s: Seq<u8>) -> Result<(u64, int), ProtoError> {
    if s.len() >= 8 {
        Ok(
            (
                ((s[0] as u64) << 56) | ((s[1] as u64) << 48) | ((s[2] as u64) << 40) | ((
                s[3] as u64) << 32) | ((s[4] as u64) << 24) | ((s[5] as u64) << 16) | ((
                s[6] as u64) << 8) | (s[7] as u64),
                8,
            ),
        )
    } else {
        Err(ProtoError::TransportError)
    }
}

/// Decode a big-endian 128-bit value (a UUID).
pub open spec fn u128_dec(s: Seq<u8>) -> Result<(u128, int), ProtoError> {
    if s.len() >= 16 {
        Ok(
            (
                ((s[0] as u128) << 120) | ((s[1] as u128) << 112) | ((s[2] as u128) << 104) | ((
                s[3] as u128) << 96) | ((s[4] as u128) << 88) | ((s[5] as u128) << 80) | ((
                s[6] as u128) << 72) | ((s[7] as u128) << 64) | ((s[8] as u128) << 56) | ((
                s[9] as u128) << 48) | ((s[10] as u128) << 40) | ((s[11] as u128) << 32) | ((
                s[12] as u128) << 24) | ((s[13] as u128) << 16) | ((s[14] as u128) << 8) | (
                s[15] as u128),
                16,
            ),
        )
    } else {
        Err(ProtoError::TransportError)
    }
}

/// Decode a boolean byte; anything other than `0` or `1` is malformed.
pub open spec fn bool_dec(s: Seq<u8>) -> Result<(bool, int), ProtoError> {
    if s.len() >= 1 {
        if s[0] == 0 {
            Ok((false, 1))
        } else if s[0] == 1 {
            Ok((true, 1))
        } else {
            Err(ProtoError::MalformedFrame)
        }
    } else {
        Err(ProtoError::TransportError)
    }
}

// ---------------------------------------------------------------------
// VarInt
// ---------------------------------------------------------------------

/// VarInt bytes of an unsigned 64-bit value: 7 payload bits per byte,
/// least-significant group first, continuation bit in the high bit.
pub open spec fn varint_enc(v: u64) -> Seq<u8>
    decreases v,
    via varint_enc_decreases
{
    if v < 0x80 {
        seq![(v & 0x7f) as u8]
    } else {
        seq![((v & 0x7f) | 0x80) as u8] + varint_enc(v >> 7)
    }
}

#[via_fn]
proof fn varint_enc_decreases(v: u64) {
    assert(v >= 0x80 ==> v >> 7 < v) by (bit_vector);
}

/// Decode a VarInt with a budget of `k` more bytes allowed; the budget
/// starts at 10 and running out is a malformed frame.
pub open spec fn varint_dec_k(s: Seq<u8>, k: nat) -> Result<(u64, int), ProtoError>
    decreases k,
{
    if k == 0 {
        Err(ProtoError::MalformedFrame)
    } else if s.len() == 0 {
        Err(ProtoError::TransportError)
    } else {
        let b = s[0];
        if b < 0x80 {
            Ok((b as u64, 1))
        } else {
            match varint_dec_k(s.skip(1), (k - 1) as nat) {
                Ok((v, n)) => Ok(((v << 7) | ((b & 0x7f) as u64), n + 1)),
                Err(e) => Err(e),
            }
        }
    }
}

/// Decode a VarInt: at most 10 bytes.
pub open spec fn varint_dec(s: Seq<u8>) -> Result<(u64, int), ProtoError> {
    varint_dec_k(s, 10)
}

/// A successful VarInt decode consumes between 1 byte and the whole
/// budget, and never more than the input has.
pub proof fn lemma_varint_dec_k_bounds(s: Seq<u8>, k: nat)
    ensures
        varint_dec_k(s, k) matches Ok((v, n)) ==> 1 <= n <= s.len() && n <= k,
    decreases k,
{
    if k > 0 && s.len() > 0 && s[0] >= 0x80 {
        lemma_varint_dec_k_bounds(s.skip(1), (k - 1) as nat);
    }
}

// ---------------------------------------------------------------------
// Length-prefixed byte strings
// ---------------------------------------------------------------------

/// A string as it travels inside NBT: u16 big-endian length, then bytes.
pub open spec fn ushort_string_enc(b: Seq<u8>) -> Seq<u8>
    recommends
        b.len() <= 0xffff,
{
    u16_be(b.len() as u16) + b
}

/// Decode a u16-length-prefixed byte string.
pub open spec fn ushort_string_dec(s: Seq<u8>) -> Result<(Seq<u8>, int), ProtoError> {
    match u16_dec(s) {
        Ok((len, n)) => if n + len <= s.len() {
            Ok((s.subrange(n, n + len), n + len))
        } else {
            Err(ProtoError::TransportError)
        },
        Err(e) => Err(e),
    }
}

/// A string as it travels inside packets: VarInt byte length, then bytes.
pub open spec fn varint_string_enc(b: Seq<u8>) -> Seq<u8>
    recommends
        b.len() <= 0x7fff_ffff_ffff_ffff,
{
    varint_enc(b.len() as u64) + b
}

/// Decode a VarInt-length-prefixed byte string.  A negative length is a
/// malformed frame; a length beyond the remaining input is a transport
/// error.
pub open spec fn varint_string_dec(s: Seq<u8>) -> Result<(Seq<u8>, int), ProtoError> {
    match varint_dec(s) {
        Ok((v, n)) => {
            let len = i64_of_u64(v);
            if len < 0 {
                Err(ProtoError::MalformedFrame)
            } else if n + len <= s.len() {
                Ok((s.subrange(n, n + len), n + len))
            } else {
                Err(ProtoError::TransportError)
            }
        },
        Err(e) => Err(e),
    }
}

/// Decoding the big-endian bytes of a 16-bit value yields it back.
pub proof fn lemma_u16_enc_dec(x: u16, rest: Seq<u8>)
    ensures
        u16_dec(u16_be(x) + rest) == Ok::<(u16, int), ProtoError>((x, 2)),
{
    let s = u16_be(x) + rest;
    assert(((((x >> 8) & 0xff) as u8) as u16) << 8 | (((x & 0xff) as u8) as u16) == x)
        by (bit_vector);
    assert(s[0] == ((x >> 8) & 0xff) as u8 && s[1] == (x & 0xff) as u8);
}

/// Decoding the big-endian bytes of a 32-bit value yields it back.
pub proof fn lemma_u32_enc_dec(x: u32, rest: Seq<u8>)
    ensures
        u32_dec(u32_be(x) + rest) == Ok::<(u32, int), ProtoError>((x, 4)),
{
    let s = u32_be(x) + rest;
    assert(((((x >> 24) & 0xff) as u8) as u32) << 24 | ((((x >> 16) & 0xff) as u8) as u32) << 16
        | ((((x >> 8) & 0xff) as u8) as u32) << 8 | (((x & 0xff) as u8) as u32) == x)
        by (bit_vector);
    assert(s[0] == ((x >> 24) & 0xff) as u8 && s[1] == ((x >> 16) & 0xff) as u8 && s[2] == ((x
        >> 8) & 0xff) as u8 && s[3] == (x & 0xff) as u8);
}

/// Decoding the big-endian bytes of a 64-bit value yields it back.
pub proof fn lemma_u64_enc_dec(x: u64, rest: Seq<u8>)
    ensures
        u64_dec(u64_be(x) + rest) == Ok::<(u64, int), ProtoError>((x, 8)),
{
    let s = u64_be(x) + rest;
    assert(((((x >> 56) & 0xff) as u8) as u64) << 56 | ((((x >> 48) & 0xff) as u8) as u64) << 48
        | ((((x >> 40) & 0xff) as u8) as u64) << 40 | ((((x >> 32) & 0xff) as u8) as u64) << 32
        | ((((x >> 24) & 0xff) as u8) as u64) << 24 | ((((x >> 16) & 0xff) as u8) as u64) << 16
        | ((((x >> 8) & 0xff) as u8) as u64) << 8 | (((x & 0xff) as u8) as u64) == x)
        by (bit_vector);
    assert(s[0] == ((x >> 56) & 0xff) as u8 && s[1] == ((x >> 48) & 0xff) as u8 && s[2] == ((x
        >> 40) & 0xff) as u8 && s[3] == ((x >> 32) & 0xff) as u8 && s[4] == ((x >> 24)
        & 0xff) as u8 && s[5] == ((x >> 16) & 0xff) as u8 && s[6] == ((x >> 8) & 0xff) as u8 && s[7]
        == (x & 0xff) as u8);
}

/// Decoding an encoded u16-length-prefixed string yields it back.
pub proof fn lemma_ushort_string_enc_dec(b: Seq<u8>, rest: Seq<u8>)
    requires
        b.len() <= 0xffff,
    ensures
        ushort_string_dec(ushort_string_enc(b) + rest) == Ok::<(Seq<u8>, int), ProtoError>(
            (b, 2 + b.len() as int),
        ),
{
    let s = ushort_string_enc(b) + rest;
    lemma_u16_enc_dec(b.len() as u16, b + rest);
    assert(u16_be(b.len() as u16) + (b + rest) =~= s);
    assert(s.subrange(2, 2 + b.len() as int) =~= b);
}

/// A VarInt encoding is between 1 and 10 bytes long.
pub proof fn lemma_varint_enc_len(v: u64)
    ensures
        1 <= varint_enc(v).len() <= 10,
{
    let v1 = v >> 7;
    let v2 = v1 >> 7;
    let v3 = v2 >> 7;
    let v4 = v3 >> 7;
    let v5 = v4 >> 7;
    let v6 = v5 >> 7;
    let v7 = v6 >> 7;
    let v8 = v7 >> 7;
    let v9 = v8 >> 7;
    assert(v9 < 0x80) by (bit_vector)
        requires
            v1 == v >> 7,
            v2 == v1 >> 7,
            v3 == v2 >> 7,
            v4 == v3 >> 7,
            v5 == v4 >> 7,
            v6 == v5 >> 7,
            v7 == v6 >> 7,
            v8 == v7 >> 7,
            v9 == v8 >> 7,
    ;
    assert(varint_enc(v9).len() == 1);
    assert(varint_enc(v8).len() <= 2);
    assert(varint_enc(v7).len() <= 3);
    assert(varint_enc(v6).len() <= 4);
    assert(varint_enc(v5).len() <= 5);
    assert(varint_enc(v4).len() <= 6);
    assert(varint_enc(v3).len() <= 7);
    assert(varint_enc(v2).len() <= 8);
    assert(varint_enc(v1).len() <= 9);
    assert(varint_enc(v).len() <= 10);
}

/// Decoding an encoded VarInt under a sufficient budget yields the value
/// back and consumes exactly the encoding.
proof fn lemma_varint_enc_dec_k(v: u64, rest: Seq<u8>, k: nat)
    requires
        varint_enc(v).len() <= k,
    ensures
        varint_dec_k(varint_enc(v) + rest, k) == Ok::<(u64, int), ProtoError>(
            (v, varint_enc(v).len() as int),
        ),
    decreases v,
{
    let s = varint_enc(v) + rest;
    if v < 0x80 {
        assert(((v & 0x7f) as u8) as u64 == v && ((v & 0x7f) as u8) < 0x80) by (bit_vector)
            requires
                v < 0x80,
        ;
        assert(s[0] == (v & 0x7f) as u8);
    } else {
        let b = ((v & 0x7f) | 0x80) as u8;
        assert(b >= 0x80 && v >> 7 < v) by (bit_vector)
            requires
                v >= 0x80,
                b == ((v & 0x7f) | 0x80) as u8,
        ;
        assert(varint_enc(v) == seq![b] + varint_enc(v >> 7));
        assert(s.skip(1) =~= varint_enc(v >> 7) + rest);
        lemma_varint_enc_dec_k(v >> 7, rest, (k - 1) as nat);
        assert(((v >> 7) << 7) | ((b & 0x7f) as u64) == v) by (bit_vector)
            requires
                v >= 0x80,
                b == ((v & 0x7f) | 0x80) as u8,
        ;
    }
}

/// VarInt round trip: every signed 64-bit value decodes back from its
/// encoding (followed by anything), consuming exactly the encoding,
/// which is never longer than 10 bytes.
pub proof fn lemma_varint_round_trip(x: i64, rest: Seq<u8>)
    ensures
        1 <= varint_enc(u64_of_i64(x)).len() <= 10,
        varint_dec(varint_enc(u64_of_i64(x)) + rest) == Ok::<(u64, int), ProtoError>(
            (u64_of_i64(x), varint_enc(u64_of_i64(x)).len() as int),
        ),
        i64_of_u64(u64_of_i64(x)) == x,
{
    lemma_varint_enc_len(u64_of_i64(x));
    lemma_varint_enc_dec_k(u64_of_i64(x), rest, 10);
}

/// A successful VarInt-string decode consumes between 1 byte and the
/// whole input.
pub proof fn lemma_varint_string_dec_bounds(s: Seq<u8>)
    ensures
        varint_string_dec(s) matches Ok((b, n)) ==> 1 <= n <= s.len(),
{
    lemma_varint_dec_k_bounds(s, 10);
}

/// Concatenation of byte sequences is associative.
pub proof fn lemma_append_assoc(a: Seq<u8>, b: Seq<u8>, c: Seq<u8>)
    ensures
        (a + b) + c == a + (b + c),
{
    assert((a + b) + c =~= a + (b + c));
}

// ---------------------------------------------------------------------
// Relating an exec decode result to a spec decoder
// ---------------------------------------------------------------------

/// The exec result `r`, produced at cursor `pos`, agrees with the spec
/// decoder's verdict `d` on the suffix starting at `pos`.
pub open spec fn dec_result_at<T>(
    d: Result<(T, int), ProtoError>,
    pos: usize,
    r: Result<(T, usize), ProtoError>,
) -> bool {
    match d {
        Ok((v, n)) => r == Ok::<(T, usize), ProtoError>((v, (pos + n) as usize)),
        Err(e) => r == Err::<(T, usize), ProtoError>(e),
    }
}

// ---------------------------------------------------------------------
// Exec readers for fixed-width values
// ---------------------------------------------------------------------

/// Read one unsigned byte.
pub fn read_ubyte(buf: &Vec<u8>, pos: usize) -> (r: Result<(u8, usize), ProtoError>)
    requires
        pos <= buf@.len(),
    ensures
        dec_result_at(u8_dec(buf@.skip(pos as int)), pos, r),
{
    if buf.len() - pos >= 1 {
        Ok((buf[pos], pos + 1))
    } else {
        Err(ProtoError::TransportError)
    }
}

/// Read one signed byte.
pub fn read_byte(buf: &Vec<u8>, pos: usize) -> (r: Result<(i8, usize), ProtoError>)
    requires
        pos <= buf@.len(),
    ensures
        ({
            match u8_dec(buf@.skip(pos as int)) {
                Ok((v, n)) => r == Ok::<(i8, usize), ProtoError>((i8_of_u8(v), (pos + n) as usize)),
                Err(e) => r == Err::<(i8, usize), ProtoError>(e),
            }
        }),
{
    match read_ubyte(buf, pos) {
        Ok((b, p)) => {
            proof {
                assert(b >= 0x80 ==> #[verifier::truncate] (b as i8) == b - 0x100) by (bit_vector);
            }
            Ok((#[verifier::truncate] (b as i8), p))
        },
        Err(e) => Err(e),
    }
}

/// Read a big-endian unsigned 16-bit value.
pub fn read_ushort(buf: &Vec<u8>, pos: usize) -> (r: Result<(u16, usize), ProtoError>)
    requires
        pos <= buf@.len(),
    ensures
        dec_result_at(u16_dec(buf@.skip(pos as int)), pos, r),
{
    if buf.len() - pos >= 2 {
        let v: u16 = ((buf[pos] as u16) << 8) | (buf[pos + 1] as u16);
        Ok((v, pos + 2))
    } else {
        Err(ProtoError::TransportError)
    }
}

/// Read a big-endian signed 16-bit value.
pub fn read_short(buf: &Vec<u8>, pos: usize) -> (r: Result<(i16, usize), ProtoError>)
    requires
        pos <= buf@.len(),
    ensures
        ({
            match u16_dec(buf@.skip(pos as int)) {
                Ok((v, n)) => r == Ok::<(i16, usize), ProtoError>(
                    (i16_of_u16(v), (pos + n) as usize),
                ),
                Err(e) => r == Err::<(i16, usize), ProtoError>(e),
            }
        }),
{
    match read_ushort(buf, pos) {
        Ok((v, p)) => {
            proof {
                assert(v >= 0x8000 ==> #[verifier::truncate] (v as i16) == v - 0x1_0000)
                    by (bit_vector);
            }
            Ok((#[verifier::truncate] (v as i16), p))
        },
        Err(e) => Err(e),
    }
}

/// Read a big-endian unsigned 32-bit value (the bit pattern of a 32-bit
/// IEEE-754 value travels this way).
pub fn read_float_bits(buf: &Vec<u8>, pos: usize) -> (r: Result<(u32, usize), ProtoError>)
    requires
        pos <= buf@.len(),
    ensures
        dec_result_at(u32_dec(buf@.skip(pos as int)), pos, r),
{
    if buf.len() - pos >= 4 {
        let v: u32 = ((buf[pos] as u32) << 24) | ((buf[pos + 1] as u32) << 16) | ((buf[pos
            + 2] as u32) << 8) | (buf[pos + 3] as u32);
        Ok((v, pos + 4))
    } else {
        Err(ProtoError::TransportError)
    }
}

/// Read a big-endian signed 32-bit value.
pub fn read_int(buf: &Vec<u8>, pos: usize) -> (r: Result<(i32, usize), ProtoError>)
    requires
        pos <= buf@.len(),
    ensures
        ({
            match u32_dec(buf@.skip(pos as int)) {
                Ok((v, n)) => r == Ok::<(i32, usize), ProtoError>(
                    (i32_of_u32(v), (pos + n) as usize),
                ),
                Err(e) => r == Err::<(i32, usize), ProtoError>(e),
            }
        }),
{
    match read_float_bits(buf, pos) {
        Ok((v, p)) => {
            proof {
                assert(v >= 0x8000_0000 ==> #[verifier::truncate] (v as i32) == v - 0x1_0000_0000)
                    by (bit_vector);
            }
            Ok((#[verifier::truncate] (v as i32), p))
        },
        Err(e) => Err(e),
    }
}

/// Read a big-endian unsigned 64-bit value (the bit pattern of a 64-bit
/// IEEE-754 value travels this way).
pub fn read_double_bits(buf: &Vec<u8>, pos: usize) -> (r: Result<(u64, usize), ProtoError>)
    requires
        pos <= buf@.len(),
    ensures
        dec_result_at(u64_dec(buf@.skip(pos as int)), pos, r),
{
    if buf.len() - pos >= 8 {
        let v: u64 = ((buf[pos] as u64) << 56) | ((buf[pos + 1] as u64) << 48) | ((buf[pos
            + 2] as u64) << 40) | ((buf[pos + 3] as u64) << 32) | ((buf[pos + 4] as u64) << 24) | ((
        buf[pos + 5] as u64) << 16) | ((buf[pos + 6] as u64) << 8) | (buf[pos + 7] as u64);
        Ok((v, pos + 8))
    } else {
        Err(ProtoError::TransportError)
    }
}

/// Read a big-endian signed 64-bit value.
pub fn read_long(buf: &Vec<u8>, pos: usize) -> (r: Result<(i64, usize), ProtoError>)
    requires
        pos <= buf@.len(),
    ensures
        ({
            match u64_dec(buf@.skip(pos as int)) {
                Ok((v, n)) => r == Ok::<(i64, usize), ProtoError>(
                    (i64_of_u64(v), (pos + n) as usize),
                ),
                Err(e) => r == Err::<(i64, usize), ProtoError>(e),
            }
        }),
{
    match read_double_bits(buf, pos) {
        Ok((v, p)) => {
            proof {
                assert(v >= 0x8000_0000_0000_0000 ==> #[verifier::truncate] (v as i64) == v
                    - 0x1_0000_0000_0000_0000) by (bit_vector);
            }
            Ok((#[verifier::truncate] (v as i64), p))
        },
        Err(e) => Err(e),
    }
}

/// Read a big-endian 128-bit UUID.
pub fn read_uuid(buf: &Vec<u8>, pos: usize) -> (r: Result<(u128, usize), ProtoError>)
    requires
        pos <= buf@.len(),
    ensures
        dec_result_at(u128_dec(buf@.skip(pos as int)), pos, r),
{
    if buf.len() - pos >= 16 {
        let hi: u64 = match read_double_bits(buf, pos) {
            Ok((v, _)) => v,
            Err(_) => 0,
        };
        let lo: u64 = match read_double_bits(buf, pos + 8) {
            Ok((v, _)) => v,
            Err(_) => 0,
        };
        let v: u128 = ((hi as u128) << 64) | (lo as u128);
        proof {
            let s = buf@.skip(pos as int);
            let t = buf@.skip(pos + 8);
            assert forall|i: int| 0 <= i < 8 implies t[i] == s[i + 8] by {}
            let b0 = s[0];
            let b1 = s[1];
            let b2 = s[2];
            let b3 = s[3];
            let b4 = s[4];
            let b5 = s[5];
            let b6 = s[6];
            let b7 = s[7];
            let b8 = s[8];
            let b9 = s[9];
            let b10 = s[10];
            let b11 = s[11];
            let b12 = s[12];
            let b13 = s[13];
            let b14 = s[14];
            let b15 = s[15];
            let h = ((b0 as u64) << 56) | ((b1 as u64) << 48) | ((b2 as u64) << 40) | ((
            b3 as u64) << 32) | ((b4 as u64) << 24) | ((b5 as u64) << 16) | ((b6 as u64) << 8) | (
            b7 as u64);
            let l = ((b8 as u64) << 56) | ((b9 as u64) << 48) | ((b10 as u64) << 40) | ((
            b11 as u64) << 32) | ((b12 as u64) << 24) | ((b13 as u64) << 16) | ((b14 as u64) << 8)
                | (b15 as u64);
            assert(((h as u128) << 64) | (l as u128) == ((b0 as u128) << 120) | ((
            b1 as u128) << 112) | ((b2 as u128) << 104) | ((b3 as u128) << 96) | ((
            b4 as u128) << 88) | ((b5 as u128) << 80) | ((b6 as u128) << 72) | ((b7 as u128) << 64)
                | ((b8 as u128) << 56) | ((b9 as u128) << 48) | ((b10 as u128) << 40) | ((
            b11 as u128) << 32) | ((b12 as u128) << 24) | ((b13 as u128) << 16) | ((
            b14 as u128) << 8) | (b15 as u128)) by (bit_vector)
                requires
                    h == ((b0 as u64) << 56) | ((b1 as u64) << 48) | ((b2 as u64) << 40) | ((
                    b3 as u64) << 32) | ((b4 as u64) << 24) | ((b5 as u64) << 16) | ((
                    b6 as u64) << 8) | (b7 as u64),
                    l == ((b8 as u64) << 56) | ((b9 as u64) << 48) | ((b10 as u64) << 40) | ((
                    b11 as u64) << 32) | ((b12 as u64) << 24) | ((b13 as u64) << 16) | ((
                    b14 as u64) << 8) | (b15 as u64),
            ;
        }
        Ok((v, pos + 16))
    } else {
        Err(ProtoError::TransportError)
    }
}

/// Read exactly `n` raw bytes.
pub fn read_bytes(buf: &Vec<u8>, pos: usize, n: usize) -> (r: Result<(Vec<u8>, usize), ProtoError>)
    requires
        pos <= buf@.len(),
    ensures
        pos + n <= buf@.len() ==> (r matches Ok(p) && p.0@ == buf@.subrange(
            pos as int,
            pos + n,
        ) && p.1 == pos + n),
        pos + n > buf@.len() ==> r == Err::<(Vec<u8>, usize), ProtoError>(
            ProtoError::TransportError,
        ),
{
    if buf.len() - pos >= n {
        let end = pos + n;
        let mut v: Vec<u8> = Vec::new();
        let mut j: usize = pos;
        while j < end
            invariant
                pos <= j <= end,
                end == pos + n,
                end <= buf@.len(),
                v@ == buf@.subrange(pos as int, j as int),
            decreases end - j,
        {
            v.push(buf[j]);
            j = j + 1;
            proof {
                assert(v@ =~= buf@.subrange(pos as int, j as int));
            }
        }
        Ok((v, end))
    } else {
        Err(ProtoError::TransportError)
    }
}

/// Read a boolean byte.
pub fn read_bool(buf: &Vec<u8>, pos: usize) -> (r: Result<(bool, usize), ProtoError>)
    requires
        pos <= buf@.len(),
    ensures
        dec_result_at(bool_dec(buf@.skip(pos as int)), pos, r),
{
    match read_ubyte(buf, pos) {
        Ok((0, p)) => Ok((false, p)),
        Ok((1, p)) => Ok((true, p)),
        Ok((_, _)) => Err(ProtoError::MalformedFrame),
        Err(e) => Err(e),
    }
}

// ---------------------------------------------------------------------
// Exec VarInt codec
// ---------------------------------------------------------------------

fn read_varint_k(buf: &Vec<u8>, pos: usize, k: usize) -> (r: Result<(u64, usize), ProtoError>)
    requires
        pos <= buf@.len(),
    ensures
        dec_result_at(varint_dec_k(buf@.skip(pos as int), k as nat), pos, r),
    decreases k,
{
    if k == 0 {
        Err(ProtoError::MalformedFrame)
    } else if pos == buf.len() {
        Err(ProtoError::TransportError)
    } else {
        let b = buf[pos];
        if b < 0x80 {
            Ok((b as u64, pos + 1))
        } else {
            proof {
                assert(buf@.skip(pos as int).skip(1) =~= buf@.skip(pos + 1));
            }
            match read_varint_k(buf, pos + 1, k - 1) {
                Ok((v, p)) => Ok(((v << 7) | ((b & 0x7f) as u64), p)),
                Err(e) => Err(e),
            }
        }
    }
}

/// Read a VarInt: at most 10 bytes, 7 payload bits each, continuation bit
/// in the high bit; the accumulated 64 bits are reinterpreted as signed.
pub fn read_varint(buf: &Vec<u8>, pos: usize) -> (r: Result<(i64, usize), ProtoError>)
    requires
        pos <= buf@.len(),
    ensures
        ({
            match varint_dec(buf@.skip(pos as int)) {
                Ok((v, n)) => r == Ok::<(i64, usize), ProtoError>(
                    (i64_of_u64(v), (pos + n) as usize),
                ),
                Err(e) => r == Err::<(i64, usize), ProtoError>(e),
            }
        }),
{
    match read_varint_k(buf, pos, 10) {
        Ok((v, p)) => {
            proof {
                assert(v >= 0x8000_0000_0000_0000 ==> #[verifier::truncate] (v as i64) == v
                    - 0x1_0000_0000_0000_0000) by (bit_vector);
            }
            Ok((#[verifier::truncate] (v as i64), p))
        },
        Err(e) => Err(e),
    }
}

/// Read a VarInt, also yielding how many bytes it occupied (the third
/// component), since a frame's remaining length depends on it.
pub fn read_varint_with_nread(buf: &Vec<u8>, pos: usize) -> (r: Result<
    (i64, usize, usize),
    ProtoError,
>)
    requires
        pos <= buf@.len(),
    ensures
        ({
            match varint_dec(buf@.skip(pos as int)) {
                Ok((v, n)) => r == Ok::<(i64, usize, usize), ProtoError>(
                    (i64_of_u64(v), (pos + n) as usize, n as usize),
                ),
                Err(e) => r == Err::<(i64, usize, usize), ProtoError>(e),
            }
        }),
{
    proof {
        assert(buf@.len() == buf.len());
        lemma_varint_dec_k_bounds(buf@.skip(pos as int), 10);
    }
    match read_varint(buf, pos) {
        Ok((v, p)) => Ok((v, p, p - pos)),
        Err(e) => Err(e),
    }
}

/// Read a VarInt-length-prefixed byte string.
pub fn read_varint_string(buf: &Vec<u8>, pos: usize) -> (r: Result<
    (Vec<u8>, usize),
    ProtoError,
>)
    requires
        pos <= buf@.len(),
    ensures
        ({
            match varint_string_dec(buf@.skip(pos as int)) {
                Ok((bs, n)) => r matches Ok(p) && p.0@ == bs && p.1 == pos + n,
                Err(e) => r == Err::<(Vec<u8>, usize), ProtoError>(e),
            }
        }),
{
    proof {
        lemma_varint_dec_k_bounds(buf@.skip(pos as int), 10);
    }
    match read_varint(buf, pos) {
        Ok((len, p)) => {
            if len < 0 {
                Err(ProtoError::MalformedFrame)
            } else if len as u64 > (buf.len() - p) as u64 {
                Err(ProtoError::TransportError)
            } else {
                let n = len as usize;
                let r = read_bytes(buf, p, n);
                proof {
                    let s = buf@.skip(pos as int);
                    let m = (p - pos) as int;
                    assert(buf@.subrange(p as int, p + n) =~= s.subrange(m, m + n));
                }
                r
            }
        },
        Err(e) => Err(e),
    }
}

/// Read a VarInt-length-prefixed byte string, also yielding how many
/// bytes it occupied on the wire (the third component).
pub fn read_varint_string_with_nread(buf: &Vec<u8>, pos: usize) -> (r: Result<
    (Vec<u8>, usize, usize),
    ProtoError,
>)
    requires
        pos <= buf@.len(),
    ensures
        ({
            match varint_string_dec(buf@.skip(pos as int)) {
                Ok((bs, n)) => r matches Ok(p) && p.0@ == bs && p.1 == pos + n && p.2 == n,
                Err(e) => r == Err::<(Vec<u8>, usize, usize), ProtoError>(e),
            }
        }),
{
    proof {
        assert(buf@.len() == buf.len());
        lemma_varint_string_dec_bounds(buf@.skip(pos as int));
    }
    match read_varint_string(buf, pos) {
        Ok((v, p)) => Ok((v, p, p - pos)),
        Err(e) => Err(e),
    }
}

/// Read a u16-length-prefixed byte string (the NBT string framing).
pub fn read_ushort_string(buf: &Vec<u8>, pos: usize) -> (r: Result<
    (Vec<u8>, usize),
    ProtoError,
>)
    requires
        pos <= buf@.len(),
    ensures
        ({
            match ushort_string_dec(buf@.skip(pos as int)) {
                Ok((bs, n)) => r matches Ok(p) && p.0@ == bs && p.1 == pos + n,
                Err(e) => r == Err::<(Vec<u8>, usize), ProtoError>(e),
            }
        }),
{
    match read_ushort(buf, pos) {
        Ok((len, p)) => {
            let n = len as usize;
            if n > buf.len() - p {
                Err(ProtoError::TransportError)
            } else {
                let r = read_bytes(buf, p, n);
                proof {
                    let s = buf@.skip(pos as int);
                    assert(buf@.subrange(p as int, p + n) =~= s.subrange(2, 2 + n));
                }
                r
            }
        },
        Err(e) => Err(e),
    }
}

// ---------------------------------------------------------------------
// Exec writers
// ---------------------------------------------------------------------

/// Append one unsigned byte.
pub fn write_ubyte(out: &mut Vec<u8>, byte: u8)
    ensures
        final(out)@ == old(out)@ + seq![byte],
{
    out.push(byte);
    proof {
        assert(out@ =~= old(out)@ + seq![byte]);
    }
}

/// Append one signed byte (two's complement).
pub fn write_ibyte(out: &mut Vec<u8>, byte: i8)
    ensures
        final(out)@ == old(out)@ + seq![u8_of_i8(byte)],
{
    proof {
        assert(byte < 0 ==> #[verifier::truncate] (byte as u8) == byte + 0x100) by (bit_vector);
    }
    write_ubyte(out, #[verifier::truncate] (byte as u8));
}

/// Append raw bytes.
pub fn write_bytes(out: &mut Vec<u8>, bytes: &Vec<u8>)
    ensures
        final(out)@ == old(out)@ + bytes@,
{
    let mut i: usize = 0;
    while i < bytes.len()
        invariant
            i <= bytes@.len(),
            out@ == old(out)@ + bytes@.take(i as int),
        decreases bytes@.len() - i,
    {
        out.push(bytes[i]);
        i = i + 1;
        proof {
            assert(out@ =~= old(out)@ + bytes@.take(i as int));
        }
    }
    proof {
        assert(old(out)@ + bytes@.take(bytes@.len() as int) =~= old(out)@ + bytes@);
    }
}

/// Append a big-endian unsigned 16-bit value.
pub fn write_ushort(out: &mut Vec<u8>, ushort: u16)
    ensures
        final(out)@ == old(out)@ + u16_be(ushort),
{
    out.push(#[verifier::truncate] (((ushort >> 8) & 0xff) as u8));
    out.push(#[verifier::truncate] ((ushort & 0xff) as u8));
    proof {
        assert(out@ =~= old(out)@ + u16_be(ushort));
    }
}

/// Append a big-endian signed 16-bit value.
pub fn write_short(out: &mut Vec<u8>, short: i16)
    ensures
        final(out)@ == old(out)@ + u16_be(u16_of_i16(short)),
{
    proof {
        assert(short < 0 ==> #[verifier::truncate] (short as u16) == short + 0x1_0000)
            by (bit_vector);
    }
    write_ushort(out, #[verifier::truncate] (short as u16));
}

/// Append a big-endian unsigned 32-bit value (float bit patterns).
pub fn write_float_bits(out: &mut Vec<u8>, x: u32)
    ensures
        final(out)@ == old(out)@ + u32_be(x),
{
    out.push(#[verifier::truncate] (((x >> 24) & 0xff) as u8));
    out.push(#[verifier::truncate] (((x >> 16) & 0xff) as u8));
    out.push(#[verifier::truncate] (((x >> 8) & 0xff) as u8));
    out.push(#[verifier::truncate] ((x & 0xff) as u8));
    proof {
        assert(out@ =~= old(out)@ + u32_be(x));
    }
}

/// Append a big-endian signed 32-bit value.
pub fn write_int(out: &mut Vec<u8>, int_val: i32)
    ensures
        final(out)@ == old(out)@ + u32_be(u32_of_i32(int_val)),
{
    proof {
        assert(int_val < 0 ==> #[verifier::truncate] (int_val as u32) == int_val + 0x1_0000_0000)
            by (bit_vector);
    }
    write_float_bits(out, #[verifier::truncate] (int_val as u32));
}

/// Append a big-endian unsigned 64-bit value (double bit patterns).
pub fn write_double_bits(out: &mut Vec<u8>, x: u64)
    ensures
        final(out)@ == old(out)@ + u64_be(x),
{
    out.push(#[verifier::truncate] (((x >> 56) & 0xff) as u8));
    out.push(#[verifier::truncate] (((x >> 48) & 0xff) as u8));
    out.push(#[verifier::truncate] (((x >> 40) & 0xff) as u8));
    out.push(#[verifier::truncate] (((x >> 32) & 0xff) as u8));
    out.push(#[verifier::truncate] (((x >> 24) & 0xff) as u8));
    out.push(#[verifier::truncate] (((x >> 16) & 0xff) as u8));
    out.push(#[verifier::truncate] (((x >> 8) & 0xff) as u8));
    out.push(#[verifier::truncate] ((x & 0xff) as u8));
    proof {
        assert(out@ =~= old(out)@ + u64_be(x));
    }
}

/// Append a big-endian signed 64-bit value.
pub fn write_long(out: &mut Vec<u8>, long: i64)
    ensures
        final(out)@ == old(out)@ + u64_be(u64_of_i64(long)),
{
    proof {
        assert(long < 0 ==> #[verifier::truncate] (long as u64) == long
            + 0x1_0000_0000_0000_0000) by (bit_vector);
    }
    write_double_bits(out, #[verifier::truncate] (long as u64));
}

/// Append a big-endian 128-bit UUID.
pub fn write_uuid(out: &mut Vec<u8>, uuid: u128)
    ensures
        final(out)@ == old(out)@ + u128_be(uuid),
{
    out.push(#[verifier::truncate] (((uuid >> 120) & 0xff) as u8));
    out.push(#[verifier::truncate] (((uuid >> 112) & 0xff) as u8));
    out.push(#[verifier::truncate] (((uuid >> 104) & 0xff) as u8));
    out.push(#[verifier::truncate] (((uuid >> 96) & 0xff) as u8));
    out.push(#[verifier::truncate] (((uuid >> 88) & 0xff) as u8));
    out.push(#[verifier::truncate] (((uuid >> 80) & 0xff) as u8));
    out.push(#[verifier::truncate] (((uuid >> 72) & 0xff) as u8));
    out.push(#[verifier::truncate] (((uuid >> 64) & 0xff) as u8));
    out.push(#[verifier::truncate] (((uuid >> 56) & 0xff) as u8));
    out.push(#[verifier::truncate] (((uuid >> 48) & 0xff) as u8));
    out.push(#[verifier::truncate] (((uuid >> 40) & 0xff) as u8));
    out.push(#[verifier::truncate] (((uuid >> 32) & 0xff) as u8));
    out.push(#[verifier::truncate] (((uuid >> 24) & 0xff) as u8));
    out.push(#[verifier::truncate] (((uuid >> 16) & 0xff) as u8));
    out.push(#[verifier::truncate] (((uuid >> 8) & 0xff) as u8));
    out.push(#[verifier::truncate] ((uuid & 0xff) as u8));
    proof {
        assert(out@ =~= old(out)@ + u128_be(uuid));
    }
}

/// Append a boolean byte.
pub fn write_bool(out: &mut Vec<u8>, b: bool)
    ensures
        final(out)@ == old(out)@ + bool_enc(b),
{
    write_ubyte(out, if b { 1 } else { 0 });
}

/// Append a VarInt; a negative input is reinterpreted as unsigned 64-bit
/// first (so it always takes 10 bytes).
pub fn write_varint(out: &mut Vec<u8>, value: i64)
    ensures
        final(out)@ == old(out)@ + varint_enc(u64_of_i64(value)),
{
    proof {
        assert(value < 0 ==> #[verifier::truncate] (value as u64) == value
            + 0x1_0000_0000_0000_0000) by (bit_vector);
    }
    let mut v: u64 = #[verifier::truncate] (value as u64);
    let ghost v0 = v;
    while v >= 0x80
        invariant
            out@ + varint_enc(v) == old(out)@ + varint_enc(v0),
        decreases v,
    {
        proof {
            assert(v >= 0x80 ==> v >> 7 < v) by (bit_vector);
        }
        let b: u8 = #[verifier::truncate] (((v & 0x7f) | 0x80) as u8);
        out.push(b);
        proof {
            assert(out@ + varint_enc(v >> 7) =~= old(out)@ + varint_enc(v0));
        }
        v = v >> 7;
    }
    let b: u8 = #[verifier::truncate] ((v & 0x7f) as u8);
    out.push(b);
    proof {
        assert(out@ =~= old(out)@ + varint_enc(v0));
    }
}

/// Append a VarInt-length-prefixed byte string.
pub fn write_string(out: &mut Vec<u8>, s: &Vec<u8>)
    requires
        s@.len() <= 0x7fff_ffff_ffff_ffff,
    ensures
        final(out)@ == old(out)@ + varint_string_enc(s@),
{
    write_varint(out, s.len() as i64);
    write_bytes(out, s);
    proof {
        assert(out@ =~= old(out)@ + varint_string_enc(s@));
    }
}

/// Append a u16-length-prefixed byte string (the NBT string framing).
pub fn write_ushort_string(out: &mut Vec<u8>, s: &Vec<u8>)
    requires
        s@.len() <= 0xffff,
    ensures
        final(out)@ == old(out)@ + ushort_string_enc(s@),
{
    write_ushort(out, s.len() as u16);
    write_bytes(out, s);
    proof {
        assert(out@ =~= old(out)@ + ushort_string_enc(s@));
    }
}

} // verus!
