//! The wire format as mathematics: the bytes that stand for each value.
use vstd::prelude::*;
use vstd::utf8::*;

use crate::error::UbjError;

verus! {

/// Two bytes, most significant first.
pub open spec fn be16(x: u16) -> Seq<u8> {
    seq![(x >> 8u16) as u8, x as u8]
}

/// Four bytes, most significant first.
pub open spec fn be32(x: u32) -> Seq<u8> {
    seq![(x >> 24u32) as u8, (x >> 16u32) as u8, (x >> 8u32) as u8, x as u8]
}

/// Eight bytes, most significant first.
pub open spec fn be64(x: u64) -> Seq<u8> {
    seq![
        (x >> 56u64) as u8,
        (x >> 48u64) as u8,
        (x >> 40u64) as u8,
        (x >> 32u64) as u8,
        (x >> 24u64) as u8,
        (x >> 16u64) as u8,
        (x >> 8u64) as u8,
        x as u8,
    ]
}

/// The value of two big-endian bytes read as a signed 16-bit integer.
pub open spec fn from_be16(b0: u8, b1: u8) -> i16 {
    (((b0 as u16) << 8u16) | (b1 as u16)) as i16
}

/// The value of four big-endian bytes read as a signed 32-bit integer.
pub open spec fn from_be32(b: Seq<u8>) -> i32 {
    (((b[0] as u32) << 24u32) | ((b[1] as u32) << 16u32) | ((b[2] as u32) << 8u32) | (
    b[3] as u32)) as i32
}

/// The value of eight big-endian bytes read as an unsigned 64-bit integer.
pub open spec fn from_be64_bits(b: Seq<u8>) -> u64 {
    ((b[0] as u64) << 56u64) | ((b[1] as u64) << 48u64) | ((b[2] as u64) << 40u64) | ((
    b[3] as u64) << 32u64) | ((b[4] as u64) << 24u64) | ((b[5] as u64) << 16u64) | ((
    b[6] as u64) << 8u64) | (b[7] as u64)
}

/// The value of four big-endian bytes read as an unsigned 32-bit integer.
pub open spec fn from_be32_bits(b: Seq<u8>) -> u32 {
    ((b[0] as u32) << 24u32) | ((b[1] as u32) << 16u32) | ((b[2] as u32) << 8u32) | (
    b[3] as u32)
}

/// Whether an integer fits a signed 64-bit payload.
pub open spec fn fits_i64(v: int) -> bool {
    i64::MIN <= v <= i64::MAX
}

/// The narrowed encoding of an integer of the signed 64-bit range: the smallest
/// marker that holds it exactly, `Uint8` before `Int8` for 0 to 127.
pub open spec fn int_wire(v: int) -> Seq<u8> {
    if -128 <= v < 0 {
        seq![0x69u8, v as u8]
    } else if 0 <= v <= 255 {
        seq![0x55u8, v as u8]
    } else if -32768 <= v <= 32767 {
        seq![0x49u8] + be16(v as u16)
    } else if -2147483648 <= v <= 2147483647 {
        seq![0x6Cu8] + be32(v as u32)
    } else {
        seq![0x4Cu8] + be64(v as u64)
    }
}

/// A string without its marker: the narrowed byte length, then the UTF-8 bytes.
pub open spec fn unmarked_string_wire(s: Seq<char>) -> Seq<u8> {
    int_wire(encode_utf8(s).len() as int) + encode_utf8(s)
}

/// A string value: the `S` marker, then the string without marker.
pub open spec fn marked_string_wire(s: Seq<char>) -> Seq<u8> {
    seq![0x53u8] + unmarked_string_wire(s)
}

/// The failure for a string whose byte length the format cannot carry.
pub open spec fn long_string_error() -> UbjError {
    UbjError::Unsupported("strings longer than i64::MAX bytes")
}

/// A string without marker, or the failure to write it.
pub open spec fn name_wire(s: Seq<char>) -> Result<Seq<u8>, UbjError> {
    if string_fits(s) {
        Ok(unmarked_string_wire(s))
    } else {
        Err(long_string_error())
    }
}

/// Whether a string's byte length has a representation on the wire.
pub open spec fn string_fits(s: Seq<char>) -> bool {
    encode_utf8(s).len() <= i64::MAX
}

/// The integer markers that a length may carry.
pub open spec fn is_int_marker(b: u8) -> bool {
    b == 0x55 || b == 0x69 || b == 0x49 || b == 0x6C || b == 0x4C
}

/// The payload width of an integer marker.
pub open spec fn int_payload_width(b: u8) -> nat {
    if b == 0x55 || b == 0x69 {
        1
    } else if b == 0x49 {
        2
    } else if b == 0x6C {
        4
    } else {
        8
    }
}

/// Whether `s` starts with a complete narrowed integer.
pub open spec fn has_narrowed_int(s: Seq<u8>) -> bool {
    s.len() > 0 && is_int_marker(s[0]) && s.len() > int_payload_width(s[0])
}

/// The number of bytes of the narrowed integer at the head of `s`.
pub open spec fn narrowed_len(s: Seq<u8>) -> nat {
    1 + int_payload_width(s[0])
}

/// The value of the narrowed integer at the head of `s`.
pub open spec fn narrowed_value(s: Seq<u8>) -> int {
    if s[0] == 0x55 {
        s[1] as int
    } else if s[0] == 0x69 {
        (s[1] as i8) as int
    } else if s[0] == 0x49 {
        from_be16(s[1], s[2]) as int
    } else if s[0] == 0x6C {
        from_be32(s.subrange(1, 5)) as int
    } else {
        (from_be64_bits(s.subrange(1, 9)) as i64) as int
    }
}

/// Why `s` does not start with a complete narrowed integer.
pub open spec fn narrowed_failure(s: Seq<u8>) -> UbjError {
    if s.len() == 0 || is_int_marker(s[0]) {
        UbjError::UnexpectedEof
    } else {
        UbjError::UnexpectedMarker(s[0])
    }
}

proof fn lemma_int8_bits(x: i64)
    requires
        -128 <= x < 0,
    ensures
        ((x as u8) as i8) as i64 == x,
{
    assert(-128 <= x < 0 ==> ((x as u8) as i8) as i64 == x) by (bit_vector);
}

proof fn lemma_uint8_bits(x: i64)
    requires
        0 <= x <= 255,
    ensures
        (x as u8) as i64 == x,
{
    assert(0 <= x <= 255 ==> (x as u8) as i64 == x) by (bit_vector);
}

proof fn lemma_int16_bits(x: i64)
    requires
        -32768 <= x <= 32767,
    ensures
        from_be16(((x as u16) >> 8u16) as u8, (x as u16) as u8) as i64 == x,
{
    assert(-32768 <= x <= 32767 ==> ((((((x as u16) >> 8u16) as u8) as u16) << 8u16) | (((
    x as u16) as u8) as u16)) as i16 as i64 == x) by (bit_vector);
}

proof fn lemma_int32_bits(x: i64)
    requires
        -2147483648 <= x <= 2147483647,
    ensures
        from_be32(be32(x as u32)) as i64 == x,
{
    let b = be32(x as u32);
    assert(-2147483648 <= x <= 2147483647 ==> ((((((x as u32) >> 24u32) as u8) as u32) << 24u32) | ((
    (((x as u32) >> 16u32) as u8) as u32) << 16u32) | (((((x as u32) >> 8u32) as u8) as u32) << 8u32)
        | (((x as u32) as u8) as u32)) as i32 as i64 == x) by (bit_vector);
}

/// Eight bytes written from a 64-bit pattern read back as that pattern.
pub proof fn lemma_bits64(x: u64)
    ensures
        from_be64_bits(be64(x)) == x,
{
    assert(((((x >> 56u64) as u8) as u64) << 56u64) | ((((x >> 48u64) as u8) as u64) << 48u64) | ((((
    x >> 40u64) as u8) as u64) << 40u64) | ((((x >> 32u64) as u8) as u64) << 32u64) | ((((x
        >> 24u64) as u8) as u64) << 24u64) | ((((x >> 16u64) as u8) as u64) << 16u64) | ((((x
        >> 8u64) as u8) as u64) << 8u64) | ((x as u8) as u64) == x) by (bit_vector);
}

/// Four bytes written from a 32-bit pattern read back as that pattern.
pub proof fn lemma_bits32(x: u32)
    ensures
        from_be32_bits(be32(x)) == x,
{
    assert(((((x >> 24u32) as u8) as u32) << 24u32) | ((((x >> 16u32) as u8) as u32) << 16u32) | ((((
    x >> 8u32) as u8) as u32) << 8u32) | ((x as u8) as u32) == x) by (bit_vector);
}

/// A narrowed integer reads back as itself, whatever follows it.
pub proof fn lemma_int_wire(v: int, t: Seq<u8>)
    requires
        fits_i64(v),
    ensures
        has_narrowed_int(int_wire(v) + t),
        narrowed_value(int_wire(v) + t) == v,
        narrowed_len(int_wire(v) + t) == int_wire(v).len(),
{
    let w = int_wire(v);
    let s = w + t;
    let x = v as i64;
    assert(s.subrange(0, w.len() as int) =~= w);
    if -128 <= v < 0 {
        lemma_int8_bits(x);
    } else if 0 <= v <= 255 {
        lemma_uint8_bits(x);
    } else if -32768 <= v <= 32767 {
        lemma_int16_bits(x);
    } else if -2147483648 <= v <= 2147483647 {
        lemma_int32_bits(x);
        assert(s.subrange(1, 5) =~= be32(x as u32));
    } else {
        lemma_bits64(x as u64);
        assert(s.subrange(1, 9) =~= be64(x as u64));
        assert((x as u64) as i64 == x) by (bit_vector);
    }
}

} // verus!
