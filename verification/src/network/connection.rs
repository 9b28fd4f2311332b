//! Takes messages out of the bytes that a peer sends.

use crate::network::address::{SocketAddr, SocketAddrView};
use crate::network::message::{NetworkMessage, NetworkMessageView};
use crate::primitives::bytes::{
    append_bytes, le_value, lemma_byte_range_values, lemma_le_bytes_len, lemma_le_value_of_bytes,
    tail_from, u32_from_le,
};
use crate::primitives::serialize::{Decode, DecodeError, Encode};
use vstd::prelude::*;

verus! {

/// 32 MB
pub const MAX_MESSAGE_SIZE: u32 = 33_554_432;

/// Why a connection is given up.
#[derive(Debug, Clone, Copy, PartialEq, Eq, Structural)]
pub enum ConnectionError {
    /// A message states a length that no message has.
    TooLarge,
    /// A message cannot be read.
    Decode(DecodeError),
    /// A message is of another network.
    InvalidMagic,
}

/// The result of looking for a message: nothing yet, or a message with its length.
pub type Found = Result<Option<(NetworkMessageView, int)>, ConnectionError>;

/// The length that the message in front states for what follows its first 24 bytes.
pub open spec fn stated_length(buffer: Seq<u8>) -> nat {
    le_value(buffer.subrange(16, 20))
}

/// The message in front of a buffer.
pub open spec fn front_message(buffer: Seq<u8>, magic: Seq<u8>) -> Found {
    if buffer.len() < 24 {
        Ok(None)
    } else if stated_length(buffer) > MAX_MESSAGE_SIZE {
        Err(ConnectionError::TooLarge)
    } else if buffer.len() < 24 + stated_length(buffer) {
        Ok(None)
    } else {
        match NetworkMessage::parse(buffer.take((24 + stated_length(buffer)) as int)) {
            Err(e) => Err(ConnectionError::Decode(e)),
            Ok((m, n)) => if m.magic == magic {
                Ok(Some((m, n)))
            } else {
                Err(ConnectionError::InvalidMagic)
            },
        }
    }
}

/// A message that was sent is taken out as it was, and what follows it stays.
pub proof fn lemma_sent_is_received(m: NetworkMessageView, rest: Seq<u8>)
    requires
        NetworkMessage::decodable(m),
    ensures
        front_message(NetworkMessage::encoding(m) + rest, m.magic) == Found::Ok(
            Some((m, NetworkMessage::encoding(m).len() as int)),
        ),
        (NetworkMessage::encoding(m) + rest).skip(NetworkMessage::encoding(m).len() as int) == rest,
{
    let e = NetworkMessage::encoding(m);
    let b = e + rest;
    lemma_le_bytes_len(m.length as nat, 4);
    lemma_byte_range_values();
    lemma_le_value_of_bytes(m.length as nat, 4);
    assert(b.subrange(16, 20) =~= crate::primitives::bytes::le_bytes(m.length as nat, 4));
    assert(e.len() == 24 + m.length);
    assert(b.take(24 + m.length) =~= e);
    NetworkMessage::lemma_round_trip(m, Seq::empty());
    assert(e + Seq::empty() =~= e);
    assert(b.skip(e.len() as int) =~= rest);
}

/// A message that is there only in part is waited for.
pub proof fn lemma_part_is_waited_for(m: NetworkMessageView, n: int)
    requires
        NetworkMessage::decodable(m),
        0 <= n < NetworkMessage::encoding(m).len(),
    ensures
        front_message(NetworkMessage::encoding(m).take(n), m.magic) == Found::Ok(None),
{
    let e = NetworkMessage::encoding(m);
    let b = e.take(n);
    lemma_le_bytes_len(m.length as nat, 4);
    lemma_byte_range_values();
    lemma_le_value_of_bytes(m.length as nat, 4);
    assert(e.len() == 24 + m.length);
    if n >= 24 {
        assert(b.subrange(16, 20) =~= crate::primitives::bytes::le_bytes(m.length as nat, 4));
    }
}

/// A message of another network is refused.
pub proof fn lemma_other_network_refused(m: NetworkMessageView, rest: Seq<u8>, magic: Seq<u8>)
    requires
        NetworkMessage::decodable(m),
        m.magic != magic,
    ensures
        front_message(NetworkMessage::encoding(m) + rest, magic) == Found::Err(
            ConnectionError::InvalidMagic,
        ),
{
    lemma_sent_is_received(m, rest);
}

/// The bytes of a connection.
pub struct PeerConnection {
    magic: [u8; 4],
    addr: SocketAddr,
    buffer: Vec<u8>,
}

impl PeerConnection {
    /// The bytes that were received and not used.
    pub closed spec fn pending(self) -> Seq<u8> {
        self.buffer@
    }

    pub closed spec fn network(self) -> Seq<u8> {
        self.magic@
    }

    pub closed spec fn remote(self) -> SocketAddrView {
        self.addr@
    }

    pub fn new(addr: SocketAddr, magic: [u8; 4]) -> (r: Self)
        ensures
            r.pending() == Seq::<u8>::empty(),
            r.network() == magic@,
            r.remote() == addr@,
    {
        PeerConnection { magic, addr, buffer: Vec::new() }
    }

    /// The bytes of a message.
    pub fn message_bytes(message: &NetworkMessage) -> (r: Vec<u8>)
        ensures
            r@ == NetworkMessage::encoding(message@),
    {
        message.encode()
    }

    /// Bytes came in.
    pub fn receive_bytes(&mut self, bytes: &[u8])
        ensures
            final(self).pending() == old(self).pending() + bytes@,
            final(self).network() == old(self).network(),
            final(self).remote() == old(self).remote(),
    {
        append_bytes(&mut self.buffer, bytes);
    }

    fn try_parse_from_buffer(&self) -> (r: Result<Option<(NetworkMessage, usize)>, ConnectionError>)
        ensures
            match r {
                Ok(Some((m, n))) => front_message(self.pending(), self.network()) == Found::Ok(
                    Some((m@, n as int)),
                ) && n <= self.pending().len(),
                Ok(None) => front_message(self.pending(), self.network()) == Found::Ok(None),
                Err(e) => front_message(self.pending(), self.network()) == Found::Err(e),
            },
    {
        if self.buffer.len() < 24 {
            return Ok(None);
        }
        // Quick length check before allocating the full message.
        let tail = tail_from(self.buffer.as_slice(), 16);
        let length: u32 = u32_from_le(tail);
        assert(tail@.take(4) =~= self.buffer@.subrange(16, 20));
        if length > MAX_MESSAGE_SIZE {
            return Err(ConnectionError::TooLarge);
        }
        let total_len: usize = 24 + length as usize;
        if self.buffer.len() < total_len {
            return Ok(None);  // Need more data
        }
        let bytes = vstd::slice::slice_subrange(self.buffer.as_slice(), 0, total_len);
        assert(bytes@ =~= self.buffer@.take(total_len as int));
        // Decode message (validates checksum internally).
        match NetworkMessage::decode(bytes) {
            Err(e) => Err(ConnectionError::Decode(e)),
            Ok((msg, consumed)) => {
                proof {
                    NetworkMessage::lemma_parse_bounds(bytes@);
                }
                // Reject and disconnect peers of other networks.
                if !msg.verify_magic(&self.magic) {
                    return Err(ConnectionError::InvalidMagic);
                }
                Ok(Some((msg, consumed)))
            },
        }
    }

    /// Takes the message in front out of the bytes.
    pub fn next_message(&mut self) -> (r: Result<Option<NetworkMessage>, ConnectionError>)
        ensures
            final(self).network() == old(self).network(),
            final(self).remote() == old(self).remote(),
            match r {
                Ok(Some(m)) => front_message(
                    old(self).pending(),
                    old(self).network(),
                ) matches Ok(Some((v, n))) && m@ == v && final(self).pending() == old(
                    self,
                ).pending().skip(n),
                Ok(None) => front_message(old(self).pending(), old(self).network()) == Found::Ok(
                    None,
                ) && final(self).pending() == old(self).pending(),
                Err(e) => front_message(old(self).pending(), old(self).network()) == Found::Err(e)
                    && final(self).pending() == old(self).pending(),
            },
    {
        match self.try_parse_from_buffer() {
            Err(e) => Err(e),
            Ok(None) => Ok(None),
            Ok(Some((msg, consumed))) => {
                let rest = vstd::slice::slice_to_vec(
                    tail_from(self.buffer.as_slice(), consumed),
                );
                assert(rest@ =~= self.buffer@.skip(consumed as int));
                self.buffer = rest;
                Ok(Some(msg))
            },
        }
    }

    pub fn peer_addr(&self) -> (r: SocketAddr)
        ensures
            r@ == self.remote(),
    {
        self.addr
    }

    pub fn magic(&self) -> (r: [u8; 4])
        ensures
            r@ == self.network(),
    {
        self.magic
    }
}

} // verus!
