//! Wire encoding of values.

use crate::primitives::bytes::{
    append_bytes, array32, le_bytes, le_value, lemma_byte_range_values, lemma_le_bytes_len,
    lemma_le_bytes_of_value, lemma_le_value_bound, lemma_le_value_of_bytes, tail_from, u16_from_le,
    u16_to_le, u32_from_le, u32_to_le, u64_from_le, u64_to_le,
};
use crate::primitives::varint::{
    decode as decode_varint, encode as encode_varint, lemma_varint_canonical,
    lemma_varint_round_trip, varint_bytes, varint_parse, VarIntError,
};
use vstd::prelude::*;

verus! {

/// Error type returned by decoding operations.
#[derive(Debug, Clone, Copy, PartialEq, Eq, Structural)]
pub enum DecodeError {
    /// The input ended unexpectedly while decoding a value.
    UnexpectedEof,
    /// The input data is malformed or violates encoding rules.
    InvalidData,
    /// The decoded value exceeds the supported numeric range.
    Overflow,
}

/// What a decoder finds at the front of a byte sequence: a value and the
/// number of bytes it took, or an error.
pub type Parsed<V> = Result<(V, int), DecodeError>;

/// Trait for types that can be encoded into a byte vector.
pub trait Encode: View {
    /// The bytes that stand for a value.
    spec fn encoding(v: Self::V) -> Seq<u8>;

    /// Encodes the value into its binary representation.
    fn encode(&self) -> (out: Vec<u8>)
        ensures
            out@ == Self::encoding(self@),
    ;

    /// Returns the size in bytes of the encoded representation.
    fn encoded_size(&self) -> (size: usize)
        requires
            Self::encoding(self@).len() <= usize::MAX,
        ensures
            size == Self::encoding(self@).len(),
    ;
}

/// Trait for types that can be decoded from a byte slice.
pub trait Decode: Encode + Sized {
    /// What the front of a byte sequence decodes to.
    spec fn parse(b: Seq<u8>) -> Parsed<Self::V>;

    /// Values whose encoding decoding accepts.
    spec fn decodable(v: Self::V) -> bool;

    /// Decodes a value from the beginning of the given byte slice.
    ///
    /// On success, returns the decoded value together with the number of bytes
    /// consumed from the input slice.
    fn decode(bytes: &[u8]) -> (r: Result<(Self, usize), DecodeError>)
        ensures
            decoded(r, Self::parse(bytes@), bytes@.len()),
    ;

    /// A decoded value takes no more bytes than there are.
    proof fn lemma_parse_bounds(b: Seq<u8>)
        ensures
            Self::parse(b) matches Ok((v, n)) ==> 0 <= n <= b.len(),
    ;

    /// Decoding what was encoded gives the value back, whatever follows it.
    proof fn lemma_round_trip(v: Self::V, rest: Seq<u8>)
        requires
            Self::decodable(v),
        ensures
            Self::parse(Self::encoding(v) + rest) == Parsed::<Self::V>::Ok(
                (v, Self::encoding(v).len() as int),
            ),
    ;
}

/// Types of which decoding accepts no bytes but those that encoding gives.
pub trait Canonical: Decode {
    /// The bytes that were used are the encoding of the value that came out.
    proof fn lemma_canonical(b: Seq<u8>)
        ensures
            Self::parse(b) matches Ok((v, n)) ==> b.take(n) == Self::encoding(v)
                && Self::decodable(v),
    ;
}

/// The result of a decoder on `len` bytes is what was to be found there.
pub open spec fn decoded<T: View>(
    r: Result<(T, usize), DecodeError>,
    found: Parsed<T::V>,
    len: nat,
) -> bool {
    match r {
        Ok((v, n)) => n <= len && found == Parsed::<T::V>::Ok((v@, n as int)),
        Err(e) => found == Parsed::<T::V>::Err(e),
    }
}

/// The models of the elements of a sequence.
pub open spec fn views<T: View>(s: Seq<T>) -> Seq<T::V> {
    Seq::new(s.len(), |i: int| s[i]@)
}

/// Encodes a 16-bit unsigned integer in little-endian order.
pub fn encode_u16_le(value: u16) -> (out: [u8; 2])
    ensures
        out@ == le_bytes(value as nat, 2),
{
    u16_to_le(value)
}

/// Encodes a 32-bit unsigned integer in little-endian order.
pub fn encode_u32_le(value: u32) -> (out: [u8; 4])
    ensures
        out@ == le_bytes(value as nat, 4),
{
    u32_to_le(value)
}

/// Encodes a 64-bit unsigned integer in little-endian order.
pub fn encode_u64_le(value: u64) -> (out: [u8; 8])
    ensures
        out@ == le_bytes(value as nat, 8),
{
    u64_to_le(value)
}

/// Decodes a 16-bit unsigned integer from little-endian bytes.
pub fn decode_u16_le(bytes: &[u8]) -> (r: Result<u16, DecodeError>)
    ensures
        bytes@.len() < 2 ==> r == Result::<u16, DecodeError>::Err(DecodeError::UnexpectedEof),
        bytes@.len() >= 2 ==> r is Ok && r->Ok_0 == le_value(bytes@.take(2)),
{
    if bytes.len() < 2 {
        return Err(DecodeError::UnexpectedEof);
    }
    Ok(u16_from_le(bytes))
}

/// Decodes a 32-bit unsigned integer from little-endian bytes.
pub fn decode_u32_le(bytes: &[u8]) -> (r: Result<u32, DecodeError>)
    ensures
        bytes@.len() < 4 ==> r == Result::<u32, DecodeError>::Err(DecodeError::UnexpectedEof),
        bytes@.len() >= 4 ==> r is Ok && r->Ok_0 == le_value(bytes@.take(4)),
{
    if bytes.len() < 4 {
        return Err(DecodeError::UnexpectedEof);
    }
    Ok(u32_from_le(bytes))
}

/// Decodes a 64-bit unsigned integer from little-endian bytes.
pub fn decode_u64_le(bytes: &[u8]) -> (r: Result<u64, DecodeError>)
    ensures
        bytes@.len() < 8 ==> r == Result::<u64, DecodeError>::Err(DecodeError::UnexpectedEof),
        bytes@.len() >= 8 ==> r is Ok && r->Ok_0 == le_value(bytes@.take(8)),
{
    if bytes.len() < 8 {
        return Err(DecodeError::UnexpectedEof);
    }
    Ok(u64_from_le(bytes))
}

impl Encode for u8 {
    open spec fn encoding(v: u8) -> Seq<u8> {
        seq![v]
    }

    fn encode(&self) -> (out: Vec<u8>) {
        let mut out: Vec<u8> = Vec::new();
        out.push(*self);
        assert(out@ =~= seq![*self]);
        out
    }

    fn encoded_size(&self) -> (size: usize) {
        1
    }
}

impl Decode for u8 {
    open spec fn parse(b: Seq<u8>) -> Parsed<u8> {
        if b.len() < 1 {
            Err(DecodeError::UnexpectedEof)
        } else {
            Ok((b[0], 1))
        }
    }

    open spec fn decodable(v: u8) -> bool {
        true
    }

    fn decode(bytes: &[u8]) -> (r: Result<(Self, usize), DecodeError>) {
        if bytes.len() < 1 {
            return Err(DecodeError::UnexpectedEof);
        }
        Ok((bytes[0], 1))
    }

    proof fn lemma_parse_bounds(b: Seq<u8>) {
    }

    proof fn lemma_round_trip(v: u8, rest: Seq<u8>) {
    }
}

impl Canonical for u8 {
    proof fn lemma_canonical(b: Seq<u8>) {
        if b.len() >= 1 {
            assert(b.take(1) =~= seq![b[0]]);
        }
    }
}

impl Encode for u16 {
    open spec fn encoding(v: u16) -> Seq<u8> {
        le_bytes(v as nat, 2)
    }

    fn encode(&self) -> (out: Vec<u8>) {
        let mut out: Vec<u8> = Vec::new();
        append_bytes(&mut out, &u16_to_le(*self));
        assert(out@ =~= le_bytes(*self as nat, 2));
        out
    }

    fn encoded_size(&self) -> (size: usize) {
        proof {
            lemma_le_bytes_len(*self as nat, 2);
        }
        2
    }
}

impl Decode for u16 {
    open spec fn parse(b: Seq<u8>) -> Parsed<u16> {
        if b.len() < 2 {
            Err(DecodeError::UnexpectedEof)
        } else {
            Ok((le_value(b.take(2)) as u16, 2))
        }
    }

    open spec fn decodable(v: u16) -> bool {
        true
    }

    fn decode(bytes: &[u8]) -> (r: Result<(Self, usize), DecodeError>) {
        if bytes.len() < 2 {
            return Err(DecodeError::UnexpectedEof);
        }
        Ok((u16_from_le(bytes), 2))
    }

    proof fn lemma_parse_bounds(b: Seq<u8>) {
    }

    proof fn lemma_round_trip(v: u16, rest: Seq<u8>) {
        lemma_le_bytes_len(v as nat, 2);
        lemma_byte_range_values();
        lemma_le_value_of_bytes(v as nat, 2);
        assert((le_bytes(v as nat, 2) + rest).take(2) =~= le_bytes(v as nat, 2));
    }
}

impl Canonical for u16 {
    proof fn lemma_canonical(b: Seq<u8>) {
        if b.len() >= 2 {
            lemma_byte_range_values();
            lemma_le_value_bound(b.take(2));
            lemma_le_bytes_of_value(b.take(2));
        }
    }
}

impl Encode for u32 {
    open spec fn encoding(v: u32) -> Seq<u8> {
        le_bytes(v as nat, 4)
    }

    fn encode(&self) -> (out: Vec<u8>) {
        let mut out: Vec<u8> = Vec::new();
        append_bytes(&mut out, &u32_to_le(*self));
        assert(out@ =~= le_bytes(*self as nat, 4));
        out
    }

    fn encoded_size(&self) -> (size: usize) {
        proof {
            lemma_le_bytes_len(*self as nat, 4);
        }
        4
    }
}

impl Decode for u32 {
    open spec fn parse(b: Seq<u8>) -> Parsed<u32> {
        if b.len() < 4 {
            Err(DecodeError::UnexpectedEof)
        } else {
            Ok((le_value(b.take(4)) as u32, 4))
        }
    }

    open spec fn decodable(v: u32) -> bool {
        true
    }

    fn decode(bytes: &[u8]) -> (r: Result<(Self, usize), DecodeError>) {
        if bytes.len() < 4 {
            return Err(DecodeError::UnexpectedEof);
        }
        Ok((u32_from_le(bytes), 4))
    }

    proof fn lemma_parse_bounds(b: Seq<u8>) {
    }

    proof fn lemma_round_trip(v: u32, rest: Seq<u8>) {
        lemma_le_bytes_len(v as nat, 4);
        lemma_byte_range_values();
        lemma_le_value_of_bytes(v as nat, 4);
        assert((le_bytes(v as nat, 4) + rest).take(4) =~= le_bytes(v as nat, 4));
    }
}

impl Canonical for u32 {
    proof fn lemma_canonical(b: Seq<u8>) {
        if b.len() >= 4 {
            lemma_byte_range_values();
            lemma_le_value_bound(b.take(4));
            lemma_le_bytes_of_value(b.take(4));
        }
    }
}

impl Encode for u64 {
    open spec fn encoding(v: u64) -> Seq<u8> {
        le_bytes(v as nat, 8)
    }

    fn encode(&self) -> (out: Vec<u8>) {
        let mut out: Vec<u8> = Vec::new();
        append_bytes(&mut out, &u64_to_le(*self));
        assert(out@ =~= le_bytes(*self as nat, 8));
        out
    }

    fn encoded_size(&self) -> (size: usize) {
        proof {
            lemma_le_bytes_len(*self as nat, 8);
        }
        8
    }
}

impl Decode for u64 {
    open spec fn parse(b: Seq<u8>) -> Parsed<u64> {
        if b.len() < 8 {
            Err(DecodeError::UnexpectedEof)
        } else {
            Ok((le_value(b.take(8)) as u64, 8))
        }
    }

    open spec fn decodable(v: u64) -> bool {
        true
    }

    fn decode(bytes: &[u8]) -> (r: Result<(Self, usize), DecodeError>) {
        if bytes.len() < 8 {
            return Err(DecodeError::UnexpectedEof);
        }
        Ok((u64_from_le(bytes), 8))
    }

    proof fn lemma_parse_bounds(b: Seq<u8>) {
    }

    proof fn lemma_round_trip(v: u64, rest: Seq<u8>) {
        lemma_le_bytes_len(v as nat, 8);
        lemma_byte_range_values();
        lemma_le_value_of_bytes(v as nat, 8);
        assert((le_bytes(v as nat, 8) + rest).take(8) =~= le_bytes(v as nat, 8));
    }
}

impl Canonical for u64 {
    proof fn lemma_canonical(b: Seq<u8>) {
        if b.len() >= 8 {
            lemma_byte_range_values();
            lemma_le_value_bound(b.take(8));
            lemma_le_bytes_of_value(b.take(8));
        }
    }
}

impl Encode for [u8; 32] {
    open spec fn encoding(v: Seq<u8>) -> Seq<u8> {
        v
    }

    fn encode(&self) -> (out: Vec<u8>) {
        let mut out: Vec<u8> = Vec::new();
        append_bytes(&mut out, self);
        assert(out@ =~= self@);
        out
    }

    fn encoded_size(&self) -> (size: usize) {
        32
    }
}

impl Decode for [u8; 32] {
    open spec fn parse(b: Seq<u8>) -> Parsed<Seq<u8>> {
        if b.len() < 32 {
            Err(DecodeError::UnexpectedEof)
        } else {
            Ok((b.take(32), 32))
        }
    }

    open spec fn decodable(v: Seq<u8>) -> bool {
        v.len() == 32
    }

    fn decode(bytes: &[u8]) -> (r: Result<(Self, usize), DecodeError>) {
        if bytes.len() < 32 {
            return Err(DecodeError::UnexpectedEof);
        }
        Ok((array32(bytes), 32))
    }

    proof fn lemma_parse_bounds(b: Seq<u8>) {
    }

    proof fn lemma_round_trip(v: Seq<u8>, rest: Seq<u8>) {
        assert((v + rest).take(32) =~= v);
    }
}

impl Canonical for [u8; 32] {
    proof fn lemma_canonical(b: Seq<u8>) {
    }
}

impl Encode for [u8; 16] {
    open spec fn encoding(v: Seq<u8>) -> Seq<u8> {
        v
    }

    fn encode(&self) -> (out: Vec<u8>) {
        let mut out: Vec<u8> = Vec::new();
        append_bytes(&mut out, self);
        assert(out@ =~= self@);
        out
    }

    fn encoded_size(&self) -> (size: usize) {
        16
    }
}

impl Decode for [u8; 16] {
    open spec fn parse(b: Seq<u8>) -> Parsed<Seq<u8>> {
        if b.len() < 16 {
            Err(DecodeError::UnexpectedEof)
        } else {
            Ok((b.take(16), 16))
        }
    }

    open spec fn decodable(v: Seq<u8>) -> bool {
        v.len() == 16
    }

    fn decode(bytes: &[u8]) -> (r: Result<(Self, usize), DecodeError>) {
        if bytes.len() < 16 {
            return Err(DecodeError::UnexpectedEof);
        }
        let mut out: [u8; 16] = [0u8; 16];
        let mut i: usize = 0;
        while i < 16
            invariant
                i <= 16,
                bytes@.len() >= 16,
                forall|j: int| 0 <= j < i ==> out@[j] == bytes@[j],
            decreases 16 - i,
        {
            out[i] = bytes[i];
            i += 1;
        }
        assert(out@ =~= bytes@.take(16));
        Ok((out, 16))
    }

    proof fn lemma_parse_bounds(b: Seq<u8>) {
    }

    proof fn lemma_round_trip(v: Seq<u8>, rest: Seq<u8>) {
        assert((v + rest).take(16) =~= v);
    }
}

impl Canonical for [u8; 16] {
    proof fn lemma_canonical(b: Seq<u8>) {
    }
}

/// A 16-bit number that is written most significant byte first.
#[derive(Debug, Clone, Copy, PartialEq, Eq, Structural)]
pub struct BigEndian16(pub u16);

impl View for BigEndian16 {
    type V = u16;

    open spec fn view(&self) -> u16 {
        self.0
    }
}

impl Encode for BigEndian16 {
    open spec fn encoding(v: u16) -> Seq<u8> {
        seq![(v / 256) as u8, (v % 256) as u8]
    }

    fn encode(&self) -> (out: Vec<u8>) {
        let mut out: Vec<u8> = Vec::new();
        out.push((self.0 / 256) as u8);
        out.push((self.0 % 256) as u8);
        assert(out@ =~= Self::encoding(self.0));
        out
    }

    fn encoded_size(&self) -> (size: usize) {
        2
    }
}

impl Decode for BigEndian16 {
    open spec fn parse(b: Seq<u8>) -> Parsed<u16> {
        if b.len() < 2 {
            Err(DecodeError::UnexpectedEof)
        } else {
            Ok(((b[0] * 256 + b[1]) as u16, 2))
        }
    }

    open spec fn decodable(v: u16) -> bool {
        true
    }

    fn decode(bytes: &[u8]) -> (r: Result<(Self, usize), DecodeError>) {
        if bytes.len() < 2 {
            return Err(DecodeError::UnexpectedEof);
        }
        Ok((BigEndian16(bytes[0] as u16 * 256 + bytes[1] as u16), 2))
    }

    proof fn lemma_parse_bounds(b: Seq<u8>) {
    }

    proof fn lemma_round_trip(v: u16, rest: Seq<u8>) {
    }
}

impl Canonical for BigEndian16 {
    proof fn lemma_canonical(b: Seq<u8>) {
        if b.len() >= 2 {
            let v = (b[0] * 256 + b[1]) as u16;
            assert(b.take(2) =~= Self::encoding(v));
        }
    }
}

/// Maximum number of bytes that a single `Vec<u8>` field may decode.
/// Prevents a crafted length varint from triggering a multi-gigabyte
/// allocation.
pub const MAX_VEC_DECODE_BYTES: usize = 33_554_432;

impl Encode for Vec<u8> {
    open spec fn encoding(v: Seq<u8>) -> Seq<u8> {
        varint_bytes(v.len() as u64) + v
    }

    fn encode(&self) -> (out: Vec<u8>) {
        let mut out: Vec<u8> = encode_varint(self.len() as u64);
        append_bytes(&mut out, self);
        out
    }

    fn encoded_size(&self) -> (size: usize) {
        encode_varint(self.len() as u64).len() + self.len()
    }
}

impl Decode for Vec<u8> {
    open spec fn parse(b: Seq<u8>) -> Parsed<Seq<u8>> {
        match varint_parse(b) {
            Err(e) => Err(varint_error(e)),
            Ok((len, n)) => if len > MAX_VEC_DECODE_BYTES {
                Err(DecodeError::Overflow)
            } else if b.len() < n + len {
                Err(DecodeError::UnexpectedEof)
            } else {
                Ok((b.skip(n).take(len as int), n + len))
            },
        }
    }

    open spec fn decodable(v: Seq<u8>) -> bool {
        v.len() <= MAX_VEC_DECODE_BYTES
    }

    fn decode(bytes: &[u8]) -> (r: Result<(Self, usize), DecodeError>) {
        let (len, consumed): (u64, usize) = match decode_varint(bytes) {
            Ok(p) => p,
            Err(e) => return Err(map_varint_error(e)),
        };
        if len > MAX_VEC_DECODE_BYTES as u64 {
            return Err(DecodeError::Overflow);
        }
        let len: usize = len as usize;
        proof {
            lemma_varint_canonical(bytes@);
        }
        if bytes.len() - consumed < len {
            return Err(DecodeError::UnexpectedEof);
        }
        let body = vstd::slice::slice_subrange(bytes, consumed, consumed + len);
        let data: Vec<u8> = vstd::slice::slice_to_vec(body);
        assert(data@ =~= bytes@.skip(consumed as int).take(len as int));
        Ok((data, consumed + len))
    }

    proof fn lemma_parse_bounds(b: Seq<u8>) {
        lemma_varint_canonical(b);
    }

    proof fn lemma_round_trip(v: Seq<u8>, rest: Seq<u8>) {
        let len = v.len() as u64;
        assert(Self::encoding(v) + rest =~= varint_bytes(len) + (v + rest));
        lemma_varint_round_trip(len, v + rest);
        assert((varint_bytes(len) + (v + rest)).skip(varint_bytes(len).len() as int).take(
            v.len() as int,
        ) =~= v);
    }
}

impl Canonical for Vec<u8> {
    proof fn lemma_canonical(b: Seq<u8>) {
        lemma_varint_canonical(b);
        if let Ok((v, n)) = Self::parse(b) {
            assert(b.take(n) =~= Self::encoding(v));
        }
    }
}

/// The decoding error that a varint error becomes.
pub open spec fn varint_error(err: VarIntError) -> DecodeError {
    match err {
        VarIntError::UnexpectedEof => DecodeError::UnexpectedEof,
        VarIntError::Overflow => DecodeError::Overflow,
        VarIntError::InvalidPrefix | VarIntError::NonMinimalEncoding => DecodeError::InvalidData,
    }
}

/// Maps a varint error to a decoding error.
pub fn map_varint_error(err: VarIntError) -> (r: DecodeError)
    ensures
        r == varint_error(err),
{
    match err {
        VarIntError::UnexpectedEof => DecodeError::UnexpectedEof,
        VarIntError::Overflow => DecodeError::Overflow,
        VarIntError::InvalidPrefix | VarIntError::NonMinimalEncoding => DecodeError::InvalidData,
    }
}

/// The encodings of the elements of a sequence, one behind the other.
pub open spec fn items_encoding<T: Encode>(s: Seq<T::V>) -> Seq<u8>
    decreases s.len(),
{
    if s.len() == 0 {
        Seq::empty()
    } else {
        items_encoding::<T>(s.drop_last()) + T::encoding(s.last())
    }
}

/// A counted list: its length as a varint, then its elements.
pub open spec fn list_encoding<T: Encode>(s: Seq<T::V>) -> Seq<u8> {
    varint_bytes(s.len() as u64) + items_encoding::<T>(s)
}

/// The first `n` elements at the front of a byte sequence.
pub open spec fn items_parse<T: Decode>(b: Seq<u8>, n: nat) -> Parsed<Seq<T::V>>
    decreases n,
{
    if n == 0 {
        Ok((Seq::empty(), 0))
    } else {
        match items_parse::<T>(b, (n - 1) as nat) {
            Err(e) => Err(e),
            Ok((s, off)) => match T::parse(b.skip(off)) {
                Err(e) => Err(e),
                Ok((v, k)) => Ok((s.push(v), off + k)),
            },
        }
    }
}

/// The counted list at the front of a byte sequence.
pub open spec fn list_parse<T: Decode>(b: Seq<u8>) -> Parsed<Seq<T::V>> {
    match varint_parse(b) {
        Err(e) => Err(varint_error(e)),
        Ok((count, c)) => match items_parse::<T>(b.skip(c), count as nat) {
            Err(e) => Err(e),
            Ok((s, n)) => Ok((s, c + n)),
        },
    }
}

/// Lists whose encoding decoding accepts.
pub open spec fn list_decodable<T: Decode>(s: Seq<T::V>) -> bool {
    &&& s.len() <= u64::MAX
    &&& forall|i: int| 0 <= i < s.len() ==> T::decodable(#[trigger] s[i])
}

pub proof fn lemma_items_bounds<T: Decode>(b: Seq<u8>, n: nat)
    ensures
        items_parse::<T>(b, n) matches Ok((s, k)) ==> s.len() == n && 0 <= k <= b.len(),
    decreases n,
{
    if n > 0 {
        lemma_items_bounds::<T>(b, (n - 1) as nat);
        if let Ok((s, off)) = items_parse::<T>(b, (n - 1) as nat) {
            T::lemma_parse_bounds(b.skip(off));
        }
    }
}

/// An error in the first elements is the error of the whole.
pub proof fn lemma_items_error<T: Decode>(b: Seq<u8>, m: nat, n: nat)
    requires
        m <= n,
        items_parse::<T>(b, m) is Err,
    ensures
        items_parse::<T>(b, n) == items_parse::<T>(b, m),
    decreases n,
{
    if m < n {
        lemma_items_error::<T>(b, m, (n - 1) as nat);
    }
}

pub proof fn lemma_items_round_trip<T: Decode>(s: Seq<T::V>, rest: Seq<u8>)
    requires
        forall|i: int| 0 <= i < s.len() ==> T::decodable(#[trigger] s[i]),
    ensures
        items_parse::<T>(items_encoding::<T>(s) + rest, s.len()) == Parsed::<Seq<T::V>>::Ok(
            (s, items_encoding::<T>(s).len() as int),
        ),
    decreases s.len(),
{
    if s.len() > 0 {
        let front = s.drop_last();
        let last = T::encoding(s.last());
        let fe = items_encoding::<T>(front);
        assert(items_encoding::<T>(s) + rest =~= fe + (last + rest));
        assert forall|i: int| 0 <= i < front.len() implies T::decodable(#[trigger] front[i]) by {
            assert(front[i] == s[i]);
        }
        lemma_items_round_trip::<T>(front, last + rest);
        assert((fe + (last + rest)).skip(fe.len() as int) =~= last + rest);
        T::lemma_round_trip(s.last(), rest);
        assert(front.push(s.last()) =~= s);
    } else {
        assert(s =~= Seq::empty());
    }
}

pub proof fn lemma_items_canonical<T: Canonical>(b: Seq<u8>, n: nat)
    ensures
        items_parse::<T>(b, n) matches Ok((s, k)) ==> b.take(k) == items_encoding::<T>(s) && (
        forall|i: int| 0 <= i < s.len() ==> T::decodable(#[trigger] s[i])),
    decreases n,
{
    if n > 0 {
        let m = (n - 1) as nat;
        lemma_items_canonical::<T>(b, m);
        lemma_items_bounds::<T>(b, m);
        if let Ok((s, off)) = items_parse::<T>(b, m) {
            T::lemma_canonical(b.skip(off));
            T::lemma_parse_bounds(b.skip(off));
            if let Ok((v, k)) = T::parse(b.skip(off)) {
                let t = s.push(v);
                assert(t.drop_last() =~= s);
                assert(b.take(off + k) =~= b.take(off) + b.skip(off).take(k));
                assert forall|i: int| 0 <= i < t.len() implies T::decodable(#[trigger] t[i]) by {
                    if i < s.len() {
                        assert(t[i] == s[i]);
                    }
                }
            }
        }
    } else {
        assert(b.take(0) =~= Seq::empty());
    }
}

/// Decoding an encoded list gives the list back, whatever follows it.
pub proof fn lemma_list_round_trip<T: Decode>(s: Seq<T::V>, rest: Seq<u8>)
    requires
        list_decodable::<T>(s),
    ensures
        list_parse::<T>(list_encoding::<T>(s) + rest) == Parsed::<Seq<T::V>>::Ok(
            (s, list_encoding::<T>(s).len() as int),
        ),
{
    let count = varint_bytes(s.len() as u64);
    let items = items_encoding::<T>(s);
    assert(list_encoding::<T>(s) + rest =~= count + (items + rest));
    lemma_varint_round_trip(s.len() as u64, items + rest);
    assert((count + (items + rest)).skip(count.len() as int) =~= items + rest);
    lemma_items_round_trip::<T>(s, rest);
}

pub proof fn lemma_list_bounds<T: Decode>(b: Seq<u8>)
    ensures
        list_parse::<T>(b) matches Ok((s, n)) ==> 1 <= n <= b.len() && s.len() <= u64::MAX,
{
    lemma_varint_canonical(b);
    if let Ok((count, c)) = varint_parse(b) {
        lemma_items_bounds::<T>(b.skip(c), count as nat);
    }
}

pub proof fn lemma_list_canonical<T: Canonical>(b: Seq<u8>)
    ensures
        list_parse::<T>(b) matches Ok((s, n)) ==> b.take(n) == list_encoding::<T>(s)
            && list_decodable::<T>(s),
{
    lemma_varint_canonical(b);
    if let Ok((count, c)) = varint_parse(b) {
        lemma_items_bounds::<T>(b.skip(c), count as nat);
        lemma_items_canonical::<T>(b.skip(c), count as nat);
        if let Ok((s, n)) = items_parse::<T>(b.skip(c), count as nat) {
            assert(b.take(c + n) =~= b.take(c) + b.skip(c).take(n));
        }
    }
}

/// Appends the encodings of the elements of a vector.
pub fn encode_items<T: Encode>(out: &mut Vec<u8>, items: &Vec<T>)
    ensures
        final(out)@ == old(out)@ + items_encoding::<T>(views(items@)),
{
    let mut i: usize = 0;
    while i < items.len()
        invariant
            i <= items.len(),
            out@ == old(out)@ + items_encoding::<T>(views(items@).take(i as int)),
        decreases items.len() - i,
    {
        let item = items[i].encode();
        append_bytes(out, &item);
        proof {
            let all = views(items@);
            assert(all.take(i + 1).drop_last() =~= all.take(i as int));
            assert(all.take(i + 1).last() == items[i as int]@);
            assert(out@ =~= old(out)@ + items_encoding::<T>(all.take(i + 1)));
        }
        i += 1;
    }
    assert(views(items@).take(i as int) =~= views(items@));
}

/// Appends a counted list.
pub fn encode_list<T: Encode>(out: &mut Vec<u8>, items: &Vec<T>)
    ensures
        final(out)@ == old(out)@ + list_encoding::<T>(views(items@)),
{
    let count = encode_varint(items.len() as u64);
    append_bytes(out, &count);
    encode_items(out, items);
    assert(out@ =~= old(out)@ + list_encoding::<T>(views(items@)));
}

pub proof fn lemma_items_len_monotone<T: Encode>(s: Seq<T::V>, i: int, j: int)
    requires
        0 <= i <= j <= s.len(),
    ensures
        items_encoding::<T>(s.take(i)).len() <= items_encoding::<T>(s.take(j)).len(),
    decreases j - i,
{
    if i < j {
        lemma_items_len_monotone::<T>(s, i, j - 1);
        assert(s.take(j).drop_last() =~= s.take(j - 1));
    }
}

/// Size of a counted list.
pub fn list_encoded_size<T: Encode>(items: &Vec<T>) -> (size: usize)
    requires
        list_encoding::<T>(views(items@)).len() <= usize::MAX,
    ensures
        size == list_encoding::<T>(views(items@)).len(),
{
    let ghost all = views(items@);
    let count = encode_varint(items.len() as u64);
    let mut size: usize = count.len();
    let mut i: usize = 0;
    assert(all.take(0) =~= Seq::empty());
    assert(all.take(all.len() as int) =~= all);
    while i < items.len()
        invariant
            i <= items.len(),
            all == views(items@),
            count@.len() + items_encoding::<T>(all).len() <= usize::MAX,
            all.take(all.len() as int) == all,
            size == count@.len() + items_encoding::<T>(all.take(i as int)).len(),
        decreases items.len() - i,
    {
        proof {
            assert(all.take(i + 1).drop_last() =~= all.take(i as int));
            assert(all.take(i + 1).last() == items[i as int]@);
            lemma_items_len_monotone::<T>(all, i + 1, all.len() as int);
        }
        size += items[i].encoded_size();
        i += 1;
    }
    size
}

/// Decodes a number of elements, one behind the other.
pub fn decode_items<T: Decode>(bytes: &[u8], count: u64) -> (r: Result<
    (Vec<T>, usize),
    DecodeError,
>)
    ensures
        match r {
            Ok((v, n)) => n <= bytes@.len() && items_parse::<T>(bytes@, count as nat) == Parsed::<
                Seq<T::V>,
            >::Ok((views(v@), n as int)),
            Err(e) => items_parse::<T>(bytes@, count as nat) == Parsed::<Seq<T::V>>::Err(e),
        },
{
    let total: usize = bytes.len();
    let mut items: Vec<T> = Vec::new();
    let mut offset: usize = 0;
    let mut i: u64 = 0;
    assert(views(items@) =~= Seq::empty());
    while i < count
        invariant
            i <= count,
            offset <= total,
            total == bytes@.len(),
            items_parse::<T>(bytes@, i as nat) == Parsed::<Seq<T::V>>::Ok(
                (views(items@), offset as int),
            ),
        decreases count - i,
    {
        match T::decode(tail_from(bytes, offset)) {
            Ok((item, consumed)) => {
                let ghost before = items@;
                items.push(item);
                offset += consumed;
                i += 1;
                assert(views(items@) =~= views(before).push(item@));
            },
            Err(e) => {
                proof {
                    lemma_items_error::<T>(bytes@, (i + 1) as nat, count as nat);
                }
                return Err(e);
            },
        }
    }
    Ok((items, offset))
}

/// Decodes a counted list.
pub fn decode_list<T: Decode>(bytes: &[u8]) -> (r: Result<(Vec<T>, usize), DecodeError>)
    ensures
        match r {
            Ok((v, n)) => n <= bytes@.len() && list_parse::<T>(bytes@) == Parsed::<Seq<T::V>>::Ok(
                (views(v@), n as int),
            ),
            Err(e) => list_parse::<T>(bytes@) == Parsed::<Seq<T::V>>::Err(e),
        },
{
    let (count, c): (u64, usize) = match decode_varint(bytes) {
        Ok(p) => p,
        Err(e) => return Err(map_varint_error(e)),
    };
    let total: usize = bytes.len();
    assert(c <= total);
    match decode_items::<T>(tail_from(bytes, c), count) {
        Ok((items, n)) => Ok((items, c + n)),
        Err(e) => Err(e),
    }
}

/// A counted list of values as one value of the wire format.
pub struct List<T>(pub Vec<T>);

impl<T: View> View for List<T> {
    type V = Seq<T::V>;

    open spec fn view(&self) -> Seq<T::V> {
        views(self.0@)
    }
}

impl<T: Encode> Encode for List<T> {
    open spec fn encoding(v: Seq<T::V>) -> Seq<u8> {
        list_encoding::<T>(v)
    }

    fn encode(&self) -> (out: Vec<u8>) {
        let mut out: Vec<u8> = Vec::new();
        encode_list(&mut out, &self.0);
        assert(out@ =~= list_encoding::<T>(views(self.0@)));
        out
    }

    fn encoded_size(&self) -> (size: usize) {
        list_encoded_size(&self.0)
    }
}

impl<T: Decode> Decode for List<T> {
    open spec fn parse(b: Seq<u8>) -> Parsed<Seq<T::V>> {
        list_parse::<T>(b)
    }

    open spec fn decodable(v: Seq<T::V>) -> bool {
        list_decodable::<T>(v)
    }

    fn decode(bytes: &[u8]) -> (r: Result<(Self, usize), DecodeError>) {
        match decode_list::<T>(bytes) {
            Ok((v, n)) => Ok((List(v), n)),
            Err(e) => Err(e),
        }
    }

    proof fn lemma_parse_bounds(b: Seq<u8>) {
        lemma_list_bounds::<T>(b);
    }

    proof fn lemma_round_trip(v: Seq<T::V>, rest: Seq<u8>) {
        lemma_list_round_trip::<T>(v, rest);
    }
}

impl<T: Canonical> Canonical for List<T> {
    proof fn lemma_canonical(b: Seq<u8>) {
        lemma_list_canonical::<T>(b);
    }
}

/// A counted list that holds no more than `MAX` values.
pub struct Capped<T, const MAX: usize>(pub Vec<T>);

impl<T: View, const MAX: usize> View for Capped<T, MAX> {
    type V = Seq<T::V>;

    open spec fn view(&self) -> Seq<T::V> {
        views(self.0@)
    }
}

impl<T: Encode, const MAX: usize> Encode for Capped<T, MAX> {
    open spec fn encoding(v: Seq<T::V>) -> Seq<u8> {
        list_encoding::<T>(v)
    }

    fn encode(&self) -> (out: Vec<u8>) {
        let mut out: Vec<u8> = Vec::new();
        encode_list(&mut out, &self.0);
        assert(out@ =~= list_encoding::<T>(views(self.0@)));
        out
    }

    fn encoded_size(&self) -> (size: usize) {
        list_encoded_size(&self.0)
    }
}

impl<T: Decode, const MAX: usize> Decode for Capped<T, MAX> {
    open spec fn parse(b: Seq<u8>) -> Parsed<Seq<T::V>> {
        match varint_parse(b) {
            Err(e) => Err(varint_error(e)),
            Ok((count, c)) => if count > MAX {
                Err(DecodeError::Overflow)
            } else {
                match items_parse::<T>(b.skip(c), count as nat) {
                    Err(e) => Err(e),
                    Ok((s, n)) => Ok((s, c + n)),
                }
            },
        }
    }

    open spec fn decodable(v: Seq<T::V>) -> bool {
        v.len() <= MAX && list_decodable::<T>(v)
    }

    fn decode(bytes: &[u8]) -> (r: Result<(Self, usize), DecodeError>) {
        let (count, c): (u64, usize) = match decode_varint(bytes) {
            Ok(p) => p,
            Err(e) => return Err(map_varint_error(e)),
        };
        if count > MAX as u64 {
            return Err(DecodeError::Overflow);
        }
        let total: usize = bytes.len();
        assert(c <= total);
        match decode_items::<T>(tail_from(bytes, c), count) {
            Ok((items, n)) => Ok((Capped(items), c + n)),
            Err(e) => Err(e),
        }
    }

    proof fn lemma_parse_bounds(b: Seq<u8>) {
        lemma_list_bounds::<T>(b);
    }

    proof fn lemma_round_trip(v: Seq<T::V>, rest: Seq<u8>) {
        lemma_list_round_trip::<T>(v, rest);
        let count = varint_bytes(v.len() as u64);
        assert(list_encoding::<T>(v) + rest =~= count + (items_encoding::<T>(v) + rest));
        lemma_varint_round_trip(v.len() as u64, items_encoding::<T>(v) + rest);
    }
}

impl<T: Canonical, const MAX: usize> Canonical for Capped<T, MAX> {
    proof fn lemma_canonical(b: Seq<u8>) {
        lemma_list_canonical::<T>(b);
        lemma_list_bounds::<T>(b);
        if let Ok((count, c)) = varint_parse(b) {
            lemma_items_bounds::<T>(b.skip(c), count as nat);
        }
    }
}

impl<A: Encode, B: Encode> Encode for (A, B) {
    open spec fn encoding(v: (A::V, B::V)) -> Seq<u8> {
        A::encoding(v.0) + B::encoding(v.1)
    }

    fn encode(&self) -> (out: Vec<u8>) {
        let mut out: Vec<u8> = self.0.encode();
        let second = self.1.encode();
        append_bytes(&mut out, &second);
        out
    }

    fn encoded_size(&self) -> (size: usize) {
        self.0.encoded_size() + self.1.encoded_size()
    }
}

impl<A: Decode, B: Decode> Decode for (A, B) {
    open spec fn parse(b: Seq<u8>) -> Parsed<(A::V, B::V)> {
        match A::parse(b) {
            Err(e) => Err(e),
            Ok((first, n)) => match B::parse(b.skip(n)) {
                Err(e) => Err(e),
                Ok((second, m)) => Ok(((first, second), n + m)),
            },
        }
    }

    open spec fn decodable(v: (A::V, B::V)) -> bool {
        A::decodable(v.0) && B::decodable(v.1)
    }

    fn decode(bytes: &[u8]) -> (r: Result<(Self, usize), DecodeError>) {
        let total: usize = bytes.len();
        let (first, n) = match A::decode(bytes) {
            Ok(p) => p,
            Err(e) => return Err(e),
        };
        assert(n <= total);
        match B::decode(tail_from(bytes, n)) {
            Ok((second, m)) => Ok(((first, second), n + m)),
            Err(e) => Err(e),
        }
    }

    proof fn lemma_parse_bounds(b: Seq<u8>) {
        A::lemma_parse_bounds(b);
        if let Ok((first, n)) = A::parse(b) {
            B::lemma_parse_bounds(b.skip(n));
        }
    }

    proof fn lemma_round_trip(v: (A::V, B::V), rest: Seq<u8>) {
        let first = A::encoding(v.0);
        let second = B::encoding(v.1);
        assert(first + second + rest =~= first + (second + rest));
        A::lemma_round_trip(v.0, second + rest);
        assert((first + (second + rest)).skip(first.len() as int) =~= second + rest);
        B::lemma_round_trip(v.1, rest);
    }
}

impl<A: Canonical, B: Canonical> Canonical for (A, B) {
    proof fn lemma_canonical(b: Seq<u8>) {
        A::lemma_canonical(b);
        A::lemma_parse_bounds(b);
        if let Ok((first, n)) = A::parse(b) {
            B::lemma_canonical(b.skip(n));
            B::lemma_parse_bounds(b.skip(n));
            if let Ok((second, m)) = B::parse(b.skip(n)) {
                assert(b.take(n + m) =~= b.take(n) + b.skip(n).take(m));
            }
        }
    }
}

} // verus!
