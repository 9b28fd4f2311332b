//! Bitcoin-style variable-length integers.

use crate::primitives::bytes::{
    append_bytes, le_bytes, le_value, lemma_byte_range_values, lemma_le_bytes_len,
    lemma_le_bytes_of_value, lemma_le_value_bound, lemma_le_value_of_bytes, tail_from, u16_from_le,
    u16_to_le, u32_from_le, u32_to_le, u64_from_le, u64_to_le,
};
use vstd::prelude::*;

verus! {

/// Variable-length integer encoded using the Bitcoin-style VarInt format.
#[derive(Debug, Clone, Copy, PartialEq, Eq, Structural)]
pub struct VarInt(pub u64);

/// Errors that can occur while decoding a VarInt value.
#[derive(Debug, Clone, Copy, PartialEq, Eq, Structural)]
pub enum VarIntError {
    /// The prefix byte is not a valid VarInt discriminator.
    InvalidPrefix,
    /// The value is not encoded using the minimal possible representation.
    NonMinimalEncoding,
    /// The input ended unexpectedly while decoding a value.
    UnexpectedEof,
    /// The decoded value exceeds the supported numeric range.
    Overflow,
}

/// Number of payload bytes behind a prefix byte.
pub open spec fn payload_width(prefix: u8) -> nat {
    if prefix < 0xFD {
        0
    } else if prefix == 0xFD {
        2
    } else if prefix == 0xFE {
        4
    } else {
        8
    }
}

/// Smallest value that may be written with a given payload width.
pub open spec fn smallest_for_width(width: nat) -> nat {
    if width == 0 {
        0
    } else if width == 2 {
        0xFD
    } else if width == 4 {
        0x1_0000
    } else {
        0x1_0000_0000
    }
}

/// The one form in which a value may be written.
pub open spec fn varint_bytes(value: u64) -> Seq<u8> {
    if value < 0xFD {
        seq![value as u8]
    } else if value <= 0xFFFF {
        seq![0xFDu8] + le_bytes(value as nat, 2)
    } else if value <= 0xFFFF_FFFF {
        seq![0xFEu8] + le_bytes(value as nat, 4)
    } else {
        seq![0xFFu8] + le_bytes(value as nat, 8)
    }
}

/// What the front of a byte sequence decodes to, with the bytes used.
pub open spec fn varint_parse(b: Seq<u8>) -> Result<(u64, int), VarIntError> {
    if b.len() == 0 {
        Err(VarIntError::UnexpectedEof)
    } else if b[0] < 0xFD {
        Ok((b[0] as u64, 1))
    } else {
        let width = payload_width(b[0]);
        if b.len() < 1 + width {
            Err(VarIntError::UnexpectedEof)
        } else {
            let value = le_value(b.skip(1).take(width as int));
            if value < smallest_for_width(width) {
                Err(VarIntError::NonMinimalEncoding)
            } else {
                Ok((value as u64, (1 + width) as int))
            }
        }
    }
}

/// Encodes an unsigned 64-bit integer into its VarInt byte representation.
pub fn encode(value: u64) -> (out: Vec<u8>)
    ensures
        out@ == varint_bytes(value),
{
    let mut out: Vec<u8> = Vec::new();
    if value < 0xFD {
        out.push(value as u8);
    } else if value <= 0xFFFF {
        out.push(0xFD);
        append_bytes(&mut out, &u16_to_le(value as u16));
    } else if value <= 0xFFFF_FFFF {
        out.push(0xFE);
        append_bytes(&mut out, &u32_to_le(value as u32));
    } else {
        out.push(0xFF);
        append_bytes(&mut out, &u64_to_le(value));
    }
    assert(out@ =~= varint_bytes(value));
    out
}

/// Decodes a VarInt-encoded value from the given byte slice.
///
/// On success, returns the decoded value together with the number of bytes
/// consumed from the input slice.
pub fn decode(bytes: &[u8]) -> (r: Result<(u64, usize), VarIntError>)
    ensures
        match r {
            Ok((v, n)) => varint_parse(bytes@) == Ok::<(u64, int), VarIntError>((v, n as int)) && n
                <= bytes@.len(),
            Err(e) => varint_parse(bytes@) == Err::<(u64, int), VarIntError>(e),
        },
{
    if bytes.len() == 0 {
        return Err(VarIntError::UnexpectedEof);
    }
    let prefix: u8 = bytes[0];
    if prefix < 0xFD {
        return Ok((prefix as u64, 1));
    }
    let rest = tail_from(bytes, 1);
    if prefix == 0xFD {
        if bytes.len() < 3 {
            return Err(VarIntError::UnexpectedEof);
        }
        let value: u64 = u16_from_le(rest) as u64;
        if value < 0xFD {
            return Err(VarIntError::NonMinimalEncoding);
        }
        Ok((value, 3))
    } else if prefix == 0xFE {
        if bytes.len() < 5 {
            return Err(VarIntError::UnexpectedEof);
        }
        let value: u64 = u32_from_le(rest) as u64;
        if value <= 0xFFFF {
            return Err(VarIntError::NonMinimalEncoding);
        }
        Ok((value, 5))
    } else {
        if bytes.len() < 9 {
            return Err(VarIntError::UnexpectedEof);
        }
        let value: u64 = u64_from_le(rest);
        if value <= 0xFFFF_FFFF {
            return Err(VarIntError::NonMinimalEncoding);
        }
        Ok((value, 9))
    }
}

/// An encoded value is one to nine bytes long.
pub proof fn lemma_varint_len(value: u64)
    ensures
        1 <= varint_bytes(value).len() <= 9,
        varint_bytes(value).len() == 1 + payload_width(varint_bytes(value)[0]),
{
    lemma_le_bytes_len(value as nat, 2);
    lemma_le_bytes_len(value as nat, 4);
    lemma_le_bytes_len(value as nat, 8);
}

/// Decoding what was encoded gives the value back, whatever follows it.
pub proof fn lemma_varint_round_trip(value: u64, rest: Seq<u8>)
    ensures
        varint_parse(varint_bytes(value) + rest) == Ok::<(u64, int), VarIntError>(
            (value, varint_bytes(value).len() as int),
        ),
{
    let b = varint_bytes(value) + rest;
    lemma_byte_range_values();
    lemma_varint_len(value);
    if value >= 0xFD {
        let width = payload_width(b[0]);
        let body = le_bytes(value as nat, width);
        lemma_le_bytes_len(value as nat, width);
        assert(b.skip(1).take(width as int) =~= body);
        lemma_le_value_of_bytes(value as nat, width);
    }
}

/// A value is accepted in one form only: the one that encoding gives.
pub proof fn lemma_varint_canonical(b: Seq<u8>)
    ensures
        varint_parse(b) matches Ok((value, n)) ==> 1 <= n <= b.len() && b.take(n) == varint_bytes(
            value,
        ),
{
    if let Ok((value, n)) = varint_parse(b) {
        lemma_byte_range_values();
        if b[0] < 0xFD {
            assert(b.take(1) =~= varint_bytes(value));
        } else {
            let width = payload_width(b[0]);
            let body = b.skip(1).take(width as int);
            lemma_le_value_bound(body);
            lemma_le_bytes_of_value(body);
            assert(b.take(n) =~= seq![b[0]] + body);
            assert(b.take(n) =~= varint_bytes(value));
        }
    }
}

} // verus!
