//! Messages of the peer-to-peer protocol.

use crate::consensus::block::{BlockHeader, BlockHeaderView, BlockView};
use crate::consensus::transaction::{Transaction, TransactionView};
use crate::network::address::{mapped_octets, SocketAddr};
use crate::primitives::bytes::append_bytes;
use crate::primitives::serialize::{
    encode_list, list_encoded_size, map_varint_error, varint_error, views, BigEndian16, Canonical,
    Capped, Decode, DecodeError, Encode, Parsed,
};
use crate::primitives::varint::{
    decode as decode_varint, encode as encode_varint, lemma_varint_canonical,
    lemma_varint_round_trip, varint_bytes, varint_parse,
};
use vstd::prelude::*;
use vstd::string::*;
use vstd::utf8::*;

verus! {

pub type ProtocolVersion = u32;

// Inventory types
pub const INV_TX: u32 = 1;

pub const INV_BLOCK: u32 = 2;

pub const MAX_INV_ITEMS: usize = 50_000;

pub const MAX_HEADERS: usize = 2_000;

pub const MAX_ADDR_ITEMS: usize = 1_000;

pub const MAX_LOCATOR_HASHES: usize = 101;

pub const MAX_BLOCK_TXS: usize = 100_000;

/// `String::from_utf8`: a string with these bytes exactly if they are valid
/// UTF-8.
#[verifier::external_body]
fn string_from_utf8(bytes: Vec<u8>) -> (r: Result<String, std::string::FromUtf8Error>)
    ensures
        match r {
            Ok(s) => valid_utf8(bytes@) && s@ == decode_utf8(bytes@),
            Err(_) => !valid_utf8(bytes@),
        },
{
    String::from_utf8(bytes)
}

/// The error of `String::from_utf8`.
#[verifier::external_type_specification]
#[verifier::external_body]
pub struct ExFromUtf8Error(std::string::FromUtf8Error);

/// A text that is written as its UTF-8 bytes behind their number.
pub struct Utf8Text(pub String);

impl View for Utf8Text {
    type V = Seq<char>;

    open spec fn view(&self) -> Seq<char> {
        self.0@
    }
}

fn text_bytes(s: &String) -> (out: Vec<u8>)
    ensures
        out@ == encode_utf8(s@),
{
    let mut out: Vec<u8> = Vec::new();
    append_bytes(&mut out, s.as_str().as_bytes());
    assert(out@ =~= encode_utf8(s@));
    out
}

impl Encode for Utf8Text {
    open spec fn encoding(v: Seq<char>) -> Seq<u8> {
        Vec::<u8>::encoding(encode_utf8(v))
    }

    fn encode(&self) -> (out: Vec<u8>) {
        text_bytes(&self.0).encode()
    }

    fn encoded_size(&self) -> (size: usize) {
        text_bytes(&self.0).encoded_size()
    }
}

impl Decode for Utf8Text {
    open spec fn parse(b: Seq<u8>) -> Parsed<Seq<char>> {
        match Vec::<u8>::parse(b) {
            Err(e) => Err(e),
            Ok((bytes, n)) => if valid_utf8(bytes) {
                Ok((decode_utf8(bytes), n))
            } else {
                Err(DecodeError::InvalidData)
            },
        }
    }

    open spec fn decodable(v: Seq<char>) -> bool {
        Vec::<u8>::decodable(encode_utf8(v))
    }

    fn decode(bytes: &[u8]) -> (r: Result<(Self, usize), DecodeError>) {
        match Vec::<u8>::decode(bytes) {
            Err(e) => Err(e),
            Ok((text, n)) => match string_from_utf8(text) {
                Ok(s) => Ok((Utf8Text(s), n)),
                Err(_) => Err(DecodeError::InvalidData),
            },
        }
    }

    proof fn lemma_parse_bounds(b: Seq<u8>) {
        Vec::<u8>::lemma_parse_bounds(b);
    }

    proof fn lemma_round_trip(v: Seq<char>, rest: Seq<u8>) {
        Vec::<u8>::lemma_round_trip(encode_utf8(v), rest);
        encode_utf8_valid_utf8(v);
        encode_utf8_decode_utf8(v);
    }
}

impl Canonical for Utf8Text {
    proof fn lemma_canonical(b: Seq<u8>) {
        Vec::<u8>::lemma_canonical(b);
        if let Ok((bytes, n)) = Vec::<u8>::parse(b) {
            if valid_utf8(bytes) {
                decode_utf8_encode_utf8(bytes);
            }
        }
    }
}

/// An address with the services that are offered there.
#[derive(Debug, Clone, Copy, PartialEq, Eq)]
pub struct NetAddr {
    pub services: u64,
    pub ip: [u8; 16],
    pub port: u16,
}

/// What an address with services stands for.
#[verifier::ext_equal]
pub struct NetAddrView {
    pub services: u64,
    pub ip: Seq<u8>,
    pub port: u16,
}

impl View for NetAddr {
    type V = NetAddrView;

    open spec fn view(&self) -> NetAddrView {
        NetAddrView { services: self.services, ip: self.ip@, port: self.port }
    }
}

impl NetAddr {
    pub fn new(addr: SocketAddr, services: u64) -> (r: Self)
        ensures
            r@ == (NetAddrView { services, ip: mapped_octets(addr@.ip), port: addr@.port }),
    {
        NetAddr { services, ip: addr.ip.octets16(), port: addr.port }
    }
}

/// Order of the fields on the wire. The port is in network byte order.
pub type NetAddrParts = (u64, ([u8; 16], BigEndian16));

impl Encode for NetAddr {
    open spec fn encoding(v: NetAddrView) -> Seq<u8> {
        <NetAddrParts as Encode>::encoding((v.services, (v.ip, v.port)))
    }

    fn encode(&self) -> (out: Vec<u8>) {
        let mut out: Vec<u8> = self.services.encode();
        append_bytes(&mut out, &self.ip);
        append_bytes(&mut out, &BigEndian16(self.port).encode());
        assert(out@ =~= Self::encoding(self@));
        out
    }

    fn encoded_size(&self) -> (size: usize) {
        self.services.encoded_size() + 16 + 2
    }
}

impl Decode for NetAddr {
    open spec fn parse(b: Seq<u8>) -> Parsed<NetAddrView> {
        match <NetAddrParts as Decode>::parse(b) {
            Ok((p, n)) => Ok((NetAddrView { services: p.0, ip: p.1.0, port: p.1.1 }, n)),
            Err(e) => Err(e),
        }
    }

    open spec fn decodable(v: NetAddrView) -> bool {
        <NetAddrParts as Decode>::decodable((v.services, (v.ip, v.port)))
    }

    fn decode(bytes: &[u8]) -> (r: Result<(Self, usize), DecodeError>) {
        match <NetAddrParts as Decode>::decode(bytes) {
            Ok(((services, (ip, port)), n)) => Ok((NetAddr { services, ip, port: port.0 }, n)),
            Err(e) => Err(e),
        }
    }

    proof fn lemma_parse_bounds(b: Seq<u8>) {
        <NetAddrParts as Decode>::lemma_parse_bounds(b);
    }

    proof fn lemma_round_trip(v: NetAddrView, rest: Seq<u8>) {
        <NetAddrParts as Decode>::lemma_round_trip((v.services, (v.ip, v.port)), rest);
    }
}

impl Canonical for NetAddr {
    proof fn lemma_canonical(b: Seq<u8>) {
        <NetAddrParts as Canonical>::lemma_canonical(b);
    }
}

/// The first message of a peer: what it is and what it knows.
#[derive(Debug, PartialEq, Eq)]
pub struct VersionMessage {
    pub version: u32,
    pub services: u64,
    pub timestamp: i64,
    pub receiver: NetAddr,
    pub sender: NetAddr,
    pub nonce: u64,
    pub user_agent: String,
    pub start_height: u32,
}

/// What a version message stands for.
#[verifier::ext_equal]
pub struct VersionView {
    pub version: u32,
    pub services: u64,
    pub timestamp: i64,
    pub receiver: NetAddrView,
    pub sender: NetAddrView,
    pub nonce: u64,
    pub user_agent: Seq<char>,
    pub start_height: u32,
}

impl View for VersionMessage {
    type V = VersionView;

    open spec fn view(&self) -> VersionView {
        VersionView {
            version: self.version,
            services: self.services,
            timestamp: self.timestamp,
            receiver: self.receiver@,
            sender: self.sender@,
            nonce: self.nonce,
            user_agent: self.user_agent@,
            start_height: self.start_height,
        }
    }
}

impl Clone for VersionMessage {
    fn clone(&self) -> (r: Self)
        ensures
            r@ == self@,
    {
        VersionMessage {
            version: self.version,
            services: self.services,
            timestamp: self.timestamp,
            receiver: self.receiver,
            sender: self.sender,
            nonce: self.nonce,
            user_agent: self.user_agent.clone(),
            start_height: self.start_height,
        }
    }
}

/// Order of the fields on the wire.
pub type VersionParts = (
    u32,
    (u64, (u64, (NetAddr, (NetAddr, (u64, (Utf8Text, u32)))))),
);

impl Encode for VersionMessage {
    open spec fn encoding(v: VersionView) -> Seq<u8> {
        <VersionParts as Encode>::encoding((v.version, (v.services, (v.timestamp as u64, (v.receiver, (v.sender, (v.nonce, (v.user_agent, v.start_height))))))))
    }

    fn encode(&self) -> (out: Vec<u8>) {
        let mut out: Vec<u8> = self.version.encode();
        append_bytes(&mut out, &self.services.encode());
        append_bytes(&mut out, &(self.timestamp as u64).encode());
        append_bytes(&mut out, &self.receiver.encode());
        append_bytes(&mut out, &self.sender.encode());
        append_bytes(&mut out, &self.nonce.encode());
        append_bytes(&mut out, &text_bytes(&self.user_agent).encode());
        append_bytes(&mut out, &self.start_height.encode());
        assert(out@ =~= Self::encoding(self@));
        out
    }

    fn encoded_size(&self) -> (size: usize) {
        self.version.encoded_size() + self.services.encoded_size() + (
        self.timestamp as u64).encoded_size() + self.receiver.encoded_size()
            + self.sender.encoded_size() + self.nonce.encoded_size() + text_bytes(
            &self.user_agent,
        ).encoded_size() + self.start_height.encoded_size()
    }
}

impl Decode for VersionMessage {
    open spec fn parse(b: Seq<u8>) -> Parsed<VersionView> {
        match <VersionParts as Decode>::parse(b) {
            Ok((p, n)) => Ok((VersionView { version: p.0, services: p.1.0, timestamp: p.1.1.0 as i64, receiver: p.1.1.1.0, sender: p.1.1.1.1.0, nonce: p.1.1.1.1.1.0, user_agent: p.1.1.1.1.1.1.0, start_height: p.1.1.1.1.1.1.1 }, n)),
            Err(e) => Err(e),
        }
    }

    open spec fn decodable(v: VersionView) -> bool {
        <VersionParts as Decode>::decodable((v.version, (v.services, (v.timestamp as u64, (v.receiver, (v.sender, (v.nonce, (v.user_agent, v.start_height))))))))
    }

    fn decode(bytes: &[u8]) -> (r: Result<(Self, usize), DecodeError>) {
        match <VersionParts as Decode>::decode(bytes) {
            Ok(((version, (services, (timestamp, (receiver, (sender, (nonce, (user_agent, start_height))))))), n)) => Ok((VersionMessage { version, services, timestamp: timestamp as i64, receiver, sender, nonce, user_agent: user_agent.0, start_height }, n)),
            Err(e) => Err(e),
        }
    }

    proof fn lemma_parse_bounds(b: Seq<u8>) {
        <VersionParts as Decode>::lemma_parse_bounds(b);
    }

    proof fn lemma_round_trip(v: VersionView, rest: Seq<u8>) {
        <VersionParts as Decode>::lemma_round_trip((v.version, (v.services, (v.timestamp as u64, (v.receiver, (v.sender, (v.nonce, (v.user_agent, v.start_height))))))), rest);
        let t = v.timestamp;
        assert((t as u64) as i64 == t) by (bit_vector);
    }
}

/// The message that asks for a sign of life.
#[derive(Debug, Clone, Copy, PartialEq, Eq, Structural)]
pub struct PingMessage {
    pub nonce: u64,
}

impl View for PingMessage {
    type V = u64;

    open spec fn view(&self) -> u64 {
        self.nonce
    }
}

impl Encode for PingMessage {
    open spec fn encoding(v: u64) -> Seq<u8> {
        <u64 as Encode>::encoding(v)
    }

    fn encode(&self) -> (out: Vec<u8>) {
        self.nonce.encode()
    }

    fn encoded_size(&self) -> (size: usize) {
        self.nonce.encoded_size()
    }
}

impl Decode for PingMessage {
    open spec fn parse(b: Seq<u8>) -> Parsed<u64> {
        match <u64 as Decode>::parse(b) {
            Ok((p, n)) => Ok((p, n)),
            Err(e) => Err(e),
        }
    }

    open spec fn decodable(v: u64) -> bool {
        <u64 as Decode>::decodable(v)
    }

    fn decode(bytes: &[u8]) -> (r: Result<(Self, usize), DecodeError>) {
        match <u64 as Decode>::decode(bytes) {
            Ok((nonce, n)) => Ok((PingMessage { nonce }, n)),
            Err(e) => Err(e),
        }
    }

    proof fn lemma_parse_bounds(b: Seq<u8>) {
        <u64 as Decode>::lemma_parse_bounds(b);
    }

    proof fn lemma_round_trip(v: u64, rest: Seq<u8>) {
        <u64 as Decode>::lemma_round_trip(v, rest);
    }
}

impl Canonical for PingMessage {
    proof fn lemma_canonical(b: Seq<u8>) {
        <u64 as Canonical>::lemma_canonical(b);
    }
}

/// The message that answers a ping.
#[derive(Debug, Clone, Copy, PartialEq, Eq, Structural)]
pub struct PongMessage {
    pub nonce: u64,
}

impl View for PongMessage {
    type V = u64;

    open spec fn view(&self) -> u64 {
        self.nonce
    }
}

impl Encode for PongMessage {
    open spec fn encoding(v: u64) -> Seq<u8> {
        <u64 as Encode>::encoding(v)
    }

    fn encode(&self) -> (out: Vec<u8>) {
        self.nonce.encode()
    }

    fn encoded_size(&self) -> (size: usize) {
        self.nonce.encoded_size()
    }
}

impl Decode for PongMessage {
    open spec fn parse(b: Seq<u8>) -> Parsed<u64> {
        match <u64 as Decode>::parse(b) {
            Ok((p, n)) => Ok((p, n)),
            Err(e) => Err(e),
        }
    }

    open spec fn decodable(v: u64) -> bool {
        <u64 as Decode>::decodable(v)
    }

    fn decode(bytes: &[u8]) -> (r: Result<(Self, usize), DecodeError>) {
        match <u64 as Decode>::decode(bytes) {
            Ok((nonce, n)) => Ok((PongMessage { nonce }, n)),
            Err(e) => Err(e),
        }
    }

    proof fn lemma_parse_bounds(b: Seq<u8>) {
        <u64 as Decode>::lemma_parse_bounds(b);
    }

    proof fn lemma_round_trip(v: u64, rest: Seq<u8>) {
        <u64 as Decode>::lemma_round_trip(v, rest);
    }
}

impl Canonical for PongMessage {
    proof fn lemma_canonical(b: Seq<u8>) {
        <u64 as Canonical>::lemma_canonical(b);
    }
}

/// The message that acknowledges a version.
#[derive(Debug, Clone, Copy, PartialEq, Eq, Structural)]
pub struct VerackMessage;

impl View for VerackMessage {
    type V = ();

    open spec fn view(&self) -> () {
        ()
    }
}

impl Encode for VerackMessage {
    open spec fn encoding(v: ()) -> Seq<u8> {
        Seq::empty()
    }

    fn encode(&self) -> (out: Vec<u8>) {
        let out: Vec<u8> = Vec::new();
        assert(out@ =~= Seq::empty());
        out
    }

    fn encoded_size(&self) -> (size: usize) {
        0
    }
}

impl Decode for VerackMessage {
    open spec fn parse(b: Seq<u8>) -> Parsed<()> {
        Ok(((), 0))
    }

    open spec fn decodable(v: ()) -> bool {
        true
    }

    fn decode(_bytes: &[u8]) -> (r: Result<(Self, usize), DecodeError>) {
        Ok((VerackMessage, 0))
    }

    proof fn lemma_parse_bounds(b: Seq<u8>) {
    }

    proof fn lemma_round_trip(v: (), rest: Seq<u8>) {
    }
}

/// The message that asks for addresses.
#[derive(Debug, Clone, Copy, PartialEq, Eq, Structural)]
pub struct GetAddrMessage;

impl View for GetAddrMessage {
    type V = ();

    open spec fn view(&self) -> () {
        ()
    }
}

impl Encode for GetAddrMessage {
    open spec fn encoding(v: ()) -> Seq<u8> {
        Seq::empty()
    }

    fn encode(&self) -> (out: Vec<u8>) {
        let out: Vec<u8> = Vec::new();
        assert(out@ =~= Seq::empty());
        out
    }

    fn encoded_size(&self) -> (size: usize) {
        0
    }
}

impl Decode for GetAddrMessage {
    open spec fn parse(b: Seq<u8>) -> Parsed<()> {
        Ok(((), 0))
    }

    open spec fn decodable(v: ()) -> bool {
        true
    }

    fn decode(_bytes: &[u8]) -> (r: Result<(Self, usize), DecodeError>) {
        Ok((GetAddrMessage, 0))
    }

    proof fn lemma_parse_bounds(b: Seq<u8>) {
    }

    proof fn lemma_round_trip(v: (), rest: Seq<u8>) {
    }
}

/// A transaction or a block, by its hash.
#[derive(Debug, Clone, Copy, PartialEq, Eq, Hash)]
pub struct InvVector {
    pub inv_type: u32,
    pub hash: [u8; 32],
}

/// What an inventory entry stands for.
#[verifier::ext_equal]
pub struct InvView {
    pub inv_type: u32,
    pub hash: Seq<u8>,
}

impl View for InvVector {
    type V = InvView;

    open spec fn view(&self) -> InvView {
        InvView { inv_type: self.inv_type, hash: self.hash@ }
    }
}

impl Encode for InvVector {
    open spec fn encoding(v: InvView) -> Seq<u8> {
        <(u32, [u8; 32]) as Encode>::encoding((v.inv_type, v.hash))
    }

    fn encode(&self) -> (out: Vec<u8>) {
        let mut out: Vec<u8> = self.inv_type.encode();
        append_bytes(&mut out, &self.hash);
        out
    }

    fn encoded_size(&self) -> (size: usize) {
        self.inv_type.encoded_size() + 32
    }
}

impl Decode for InvVector {
    open spec fn parse(b: Seq<u8>) -> Parsed<InvView> {
        match <(u32, [u8; 32]) as Decode>::parse(b) {
            Ok((p, n)) => Ok((InvView { inv_type: p.0, hash: p.1 }, n)),
            Err(e) => Err(e),
        }
    }

    open spec fn decodable(v: InvView) -> bool {
        <(u32, [u8; 32]) as Decode>::decodable((v.inv_type, v.hash))
    }

    fn decode(bytes: &[u8]) -> (r: Result<(Self, usize), DecodeError>) {
        match <(u32, [u8; 32]) as Decode>::decode(bytes) {
            Ok(((inv_type, hash), n)) => Ok((InvVector { inv_type, hash }, n)),
            Err(e) => Err(e),
        }
    }

    proof fn lemma_parse_bounds(b: Seq<u8>) {
        <(u32, [u8; 32]) as Decode>::lemma_parse_bounds(b);
    }

    proof fn lemma_round_trip(v: InvView, rest: Seq<u8>) {
        <(u32, [u8; 32]) as Decode>::lemma_round_trip((v.inv_type, v.hash), rest);
    }
}

impl Canonical for InvVector {
    proof fn lemma_canonical(b: Seq<u8>) {
        <(u32, [u8; 32]) as Canonical>::lemma_canonical(b);
    }
}

/// Announces transactions and blocks.
#[derive(Debug, PartialEq, Eq)]
pub struct InvMessage {
    pub inventory: Vec<InvVector>,
}

impl View for InvMessage {
    type V = Seq<InvView>;

    open spec fn view(&self) -> Seq<InvView> {
        views(self.inventory@)
    }
}

impl Clone for InvMessage {
    fn clone(&self) -> (r: Self)
        ensures
            r@ == self@,
    {
        let r = InvMessage { inventory: self.inventory.clone() };
        assert(r@ =~= self@);
        r
    }
}

impl Encode for InvMessage {
    open spec fn encoding(v: Seq<InvView>) -> Seq<u8> {
        <Capped<InvVector, MAX_INV_ITEMS> as Encode>::encoding(v)
    }

    fn encode(&self) -> (out: Vec<u8>) {
        let mut out: Vec<u8> = Vec::new();
        encode_list(&mut out, &self.inventory);
        assert(out@ =~= Self::encoding(self@));
        out
    }

    fn encoded_size(&self) -> (size: usize) {
        list_encoded_size(&self.inventory)
    }
}

impl Decode for InvMessage {
    open spec fn parse(b: Seq<u8>) -> Parsed<Seq<InvView>> {
        match <Capped<InvVector, MAX_INV_ITEMS> as Decode>::parse(b) {
            Ok((p, n)) => Ok((p, n)),
            Err(e) => Err(e),
        }
    }

    open spec fn decodable(v: Seq<InvView>) -> bool {
        <Capped<InvVector, MAX_INV_ITEMS> as Decode>::decodable(v)
    }

    fn decode(bytes: &[u8]) -> (r: Result<(Self, usize), DecodeError>) {
        match <Capped<InvVector, MAX_INV_ITEMS> as Decode>::decode(bytes) {
            Ok((list, n)) => Ok((InvMessage { inventory: list.0 }, n)),
            Err(e) => Err(e),
        }
    }

    proof fn lemma_parse_bounds(b: Seq<u8>) {
        <Capped<InvVector, MAX_INV_ITEMS> as Decode>::lemma_parse_bounds(b);
    }

    proof fn lemma_round_trip(v: Seq<InvView>, rest: Seq<u8>) {
        <Capped<InvVector, MAX_INV_ITEMS> as Decode>::lemma_round_trip(v, rest);
    }
}

impl Canonical for InvMessage {
    proof fn lemma_canonical(b: Seq<u8>) {
        <Capped<InvVector, MAX_INV_ITEMS> as Canonical>::lemma_canonical(b);
    }
}

/// Asks for transactions and blocks.
#[derive(Debug, PartialEq, Eq)]
pub struct GetDataMessage {
    pub inventory: Vec<InvVector>,
}

impl View for GetDataMessage {
    type V = Seq<InvView>;

    open spec fn view(&self) -> Seq<InvView> {
        views(self.inventory@)
    }
}

impl Clone for GetDataMessage {
    fn clone(&self) -> (r: Self)
        ensures
            r@ == self@,
    {
        let r = GetDataMessage { inventory: self.inventory.clone() };
        assert(r@ =~= self@);
        r
    }
}

impl Encode for GetDataMessage {
    open spec fn encoding(v: Seq<InvView>) -> Seq<u8> {
        <Capped<InvVector, MAX_INV_ITEMS> as Encode>::encoding(v)
    }

    fn encode(&self) -> (out: Vec<u8>) {
        let mut out: Vec<u8> = Vec::new();
        encode_list(&mut out, &self.inventory);
        assert(out@ =~= Self::encoding(self@));
        out
    }

    fn encoded_size(&self) -> (size: usize) {
        list_encoded_size(&self.inventory)
    }
}

impl Decode for GetDataMessage {
    open spec fn parse(b: Seq<u8>) -> Parsed<Seq<InvView>> {
        match <Capped<InvVector, MAX_INV_ITEMS> as Decode>::parse(b) {
            Ok((p, n)) => Ok((p, n)),
            Err(e) => Err(e),
        }
    }

    open spec fn decodable(v: Seq<InvView>) -> bool {
        <Capped<InvVector, MAX_INV_ITEMS> as Decode>::decodable(v)
    }

    fn decode(bytes: &[u8]) -> (r: Result<(Self, usize), DecodeError>) {
        match <Capped<InvVector, MAX_INV_ITEMS> as Decode>::decode(bytes) {
            Ok((list, n)) => Ok((GetDataMessage { inventory: list.0 }, n)),
            Err(e) => Err(e),
        }
    }

    proof fn lemma_parse_bounds(b: Seq<u8>) {
        <Capped<InvVector, MAX_INV_ITEMS> as Decode>::lemma_parse_bounds(b);
    }

    proof fn lemma_round_trip(v: Seq<InvView>, rest: Seq<u8>) {
        <Capped<InvVector, MAX_INV_ITEMS> as Decode>::lemma_round_trip(v, rest);
    }
}

impl Canonical for GetDataMessage {
    proof fn lemma_canonical(b: Seq<u8>) {
        <Capped<InvVector, MAX_INV_ITEMS> as Canonical>::lemma_canonical(b);
    }
}

/// A block on the wire.
#[derive(Debug, PartialEq, Eq)]
pub struct BlockMessage {
    pub header: BlockHeader,
    pub transactions: Vec<Transaction>,
}

impl View for BlockMessage {
    type V = BlockView;

    open spec fn view(&self) -> BlockView {
        BlockView { header: self.header@, transactions: views(self.transactions@) }
    }
}

impl Clone for BlockMessage {
    fn clone(&self) -> (r: Self)
        ensures
            r@ == self@,
    {
        let r = BlockMessage { header: self.header, transactions: self.transactions.clone() };
        assert(r@ =~= self@);
        r
    }
}

impl Encode for BlockMessage {
    open spec fn encoding(v: BlockView) -> Seq<u8> {
        <(BlockHeader, Capped<Transaction, MAX_BLOCK_TXS>) as Encode>::encoding((v.header, v.transactions))
    }

    fn encode(&self) -> (out: Vec<u8>) {
        let mut out: Vec<u8> = self.header.encode();
        encode_list(&mut out, &self.transactions);
        out
    }

    fn encoded_size(&self) -> (size: usize) {
        self.header.encoded_size() + list_encoded_size(&self.transactions)
    }
}

impl Decode for BlockMessage {
    open spec fn parse(b: Seq<u8>) -> Parsed<BlockView> {
        match <(BlockHeader, Capped<Transaction, MAX_BLOCK_TXS>) as Decode>::parse(b) {
            Ok((p, n)) => Ok((BlockView { header: p.0, transactions: p.1 }, n)),
            Err(e) => Err(e),
        }
    }

    open spec fn decodable(v: BlockView) -> bool {
        <(BlockHeader, Capped<Transaction, MAX_BLOCK_TXS>) as Decode>::decodable((v.header, v.transactions))
    }

    fn decode(bytes: &[u8]) -> (r: Result<(Self, usize), DecodeError>) {
        match <(BlockHeader, Capped<Transaction, MAX_BLOCK_TXS>) as Decode>::decode(bytes) {
            Ok(((header, list), n)) => Ok((BlockMessage { header, transactions: list.0 }, n)),
            Err(e) => Err(e),
        }
    }

    proof fn lemma_parse_bounds(b: Seq<u8>) {
        <(BlockHeader, Capped<Transaction, MAX_BLOCK_TXS>) as Decode>::lemma_parse_bounds(b);
    }

    proof fn lemma_round_trip(v: BlockView, rest: Seq<u8>) {
        <(BlockHeader, Capped<Transaction, MAX_BLOCK_TXS>) as Decode>::lemma_round_trip((v.header, v.transactions), rest);
    }
}

impl Canonical for BlockMessage {
    proof fn lemma_canonical(b: Seq<u8>) {
        <(BlockHeader, Capped<Transaction, MAX_BLOCK_TXS>) as Canonical>::lemma_canonical(b);
    }
}

/// Asks for the headers behind the first known hash of a locator.
#[derive(Debug, PartialEq, Eq)]
pub struct GetHeadersMessage {
    pub version: u32,
    pub block_locator: Vec<[u8; 32]>,
    pub stop_hash: [u8; 32],
}

/// What a request for headers stands for.
#[verifier::ext_equal]
pub struct GetHeadersView {
    pub version: u32,
    pub block_locator: Seq<Seq<u8>>,
    pub stop_hash: Seq<u8>,
}

impl View for GetHeadersMessage {
    type V = GetHeadersView;

    open spec fn view(&self) -> GetHeadersView {
        GetHeadersView {
            version: self.version,
            block_locator: views(self.block_locator@),
            stop_hash: self.stop_hash@,
        }
    }
}

impl Clone for GetHeadersMessage {
    fn clone(&self) -> (r: Self)
        ensures
            r@ == self@,
    {
        let block_locator = vstd::slice::slice_to_vec(self.block_locator.as_slice());
        GetHeadersMessage { version: self.version, block_locator, stop_hash: self.stop_hash }
    }
}

impl Encode for GetHeadersMessage {
    open spec fn encoding(v: GetHeadersView) -> Seq<u8> {
        <(u32, (Capped<[u8; 32], MAX_LOCATOR_HASHES>, [u8; 32])) as Encode>::encoding((v.version, (v.block_locator, v.stop_hash)))
    }

    fn encode(&self) -> (out: Vec<u8>) {
        let mut out: Vec<u8> = self.version.encode();
        encode_list(&mut out, &self.block_locator);
        append_bytes(&mut out, &self.stop_hash);
        assert(out@ =~= Self::encoding(self@));
        out
    }

    fn encoded_size(&self) -> (size: usize) {
        self.version.encoded_size() + list_encoded_size(&self.block_locator) + 32
    }
}

impl Decode for GetHeadersMessage {
    open spec fn parse(b: Seq<u8>) -> Parsed<GetHeadersView> {
        match <(u32, (Capped<[u8; 32], MAX_LOCATOR_HASHES>, [u8; 32])) as Decode>::parse(b) {
            Ok((p, n)) => Ok((GetHeadersView { version: p.0, block_locator: p.1.0, stop_hash: p.1.1 }, n)),
            Err(e) => Err(e),
        }
    }

    open spec fn decodable(v: GetHeadersView) -> bool {
        <(u32, (Capped<[u8; 32], MAX_LOCATOR_HASHES>, [u8; 32])) as Decode>::decodable((v.version, (v.block_locator, v.stop_hash)))
    }

    fn decode(bytes: &[u8]) -> (r: Result<(Self, usize), DecodeError>) {
        match <(u32, (Capped<[u8; 32], MAX_LOCATOR_HASHES>, [u8; 32])) as Decode>::decode(bytes) {
            Ok(((version, (list, stop_hash)), n)) => Ok((GetHeadersMessage { version, block_locator: list.0, stop_hash }, n)),
            Err(e) => Err(e),
        }
    }

    proof fn lemma_parse_bounds(b: Seq<u8>) {
        <(u32, (Capped<[u8; 32], MAX_LOCATOR_HASHES>, [u8; 32])) as Decode>::lemma_parse_bounds(b);
    }

    proof fn lemma_round_trip(v: GetHeadersView, rest: Seq<u8>) {
        <(u32, (Capped<[u8; 32], MAX_LOCATOR_HASHES>, [u8; 32])) as Decode>::lemma_round_trip((v.version, (v.block_locator, v.stop_hash)), rest);
    }
}

impl Canonical for GetHeadersMessage {
    proof fn lemma_canonical(b: Seq<u8>) {
        <(u32, (Capped<[u8; 32], MAX_LOCATOR_HASHES>, [u8; 32])) as Canonical>::lemma_canonical(b);
    }
}

/// A header in a list of headers. A transaction count follows it, which is
/// written as zero and read without regard to its value.
#[derive(Debug, Clone, Copy)]
pub struct HeaderItem(pub BlockHeader);

impl View for HeaderItem {
    type V = BlockHeaderView;

    open spec fn view(&self) -> BlockHeaderView {
        self.0@
    }
}

impl Encode for HeaderItem {
    open spec fn encoding(v: BlockHeaderView) -> Seq<u8> {
        BlockHeader::encoding(v) + varint_bytes(0)
    }

    fn encode(&self) -> (out: Vec<u8>) {
        let mut out: Vec<u8> = self.0.encode();
        append_bytes(&mut out, &encode_varint(0));
        out
    }

    fn encoded_size(&self) -> (size: usize) {
        self.0.encoded_size() + 1
    }
}

impl Decode for HeaderItem {
    open spec fn parse(b: Seq<u8>) -> Parsed<BlockHeaderView> {
        match BlockHeader::parse(b) {
            Err(e) => Err(e),
            Ok((h, n)) => match varint_parse(b.skip(n)) {
                Err(e) => Err(varint_error(e)),
                Ok((count, c)) => Ok((h, n + c)),
            },
        }
    }

    open spec fn decodable(v: BlockHeaderView) -> bool {
        BlockHeader::decodable(v)
    }

    fn decode(bytes: &[u8]) -> (r: Result<(Self, usize), DecodeError>) {
        let total: usize = bytes.len();
        let (header, n) = match BlockHeader::decode(bytes) {
            Ok(p) => p,
            Err(e) => return Err(e),
        };
        assert(n <= total);
        match decode_varint(crate::primitives::bytes::tail_from(bytes, n)) {
            Ok((_, c)) => Ok((HeaderItem(header), n + c)),
            Err(e) => Err(map_varint_error(e)),
        }
    }

    proof fn lemma_parse_bounds(b: Seq<u8>) {
        BlockHeader::lemma_parse_bounds(b);
        if let Ok((h, n)) = BlockHeader::parse(b) {
            lemma_varint_canonical(b.skip(n));
        }
    }

    proof fn lemma_round_trip(v: BlockHeaderView, rest: Seq<u8>) {
        let first = BlockHeader::encoding(v);
        let second = varint_bytes(0);
        assert(first + second + rest =~= first + (second + rest));
        BlockHeader::lemma_round_trip(v, second + rest);
        assert((first + (second + rest)).skip(first.len() as int) =~= second + rest);
        lemma_varint_round_trip(0, rest);
    }
}

/// A list of headers.
#[derive(Debug, PartialEq, Eq)]
pub struct HeadersMessage {
    pub headers: Vec<BlockHeader>,
}

impl View for HeadersMessage {
    type V = Seq<BlockHeaderView>;

    open spec fn view(&self) -> Seq<BlockHeaderView> {
        views(self.headers@)
    }
}

impl Clone for HeadersMessage {
    fn clone(&self) -> (r: Self)
        ensures
            r@ == self@,
    {
        HeadersMessage { headers: vstd::slice::slice_to_vec(self.headers.as_slice()) }
    }
}

fn header_items(headers: &Vec<BlockHeader>) -> (items: Vec<HeaderItem>)
    ensures
        views(items@) == views(headers@),
{
    let mut items: Vec<HeaderItem> = Vec::new();
    let mut i: usize = 0;
    while i < headers.len()
        invariant
            i <= headers.len(),
            items.len() == i,
            forall|j: int| 0 <= j < i ==> (#[trigger] items@[j])@ == headers@[j]@,
        decreases headers.len() - i,
    {
        items.push(HeaderItem(headers[i]));
        i += 1;
    }
    assert(views(items@) =~= views(headers@));
    items
}

fn item_headers(items: &Vec<HeaderItem>) -> (headers: Vec<BlockHeader>)
    ensures
        views(headers@) == views(items@),
{
    let mut headers: Vec<BlockHeader> = Vec::new();
    let mut i: usize = 0;
    while i < items.len()
        invariant
            i <= items.len(),
            headers.len() == i,
            forall|j: int| 0 <= j < i ==> (#[trigger] headers@[j])@ == items@[j]@,
        decreases items.len() - i,
    {
        headers.push(items[i].0);
        i += 1;
    }
    assert(views(headers@) =~= views(items@));
    headers
}

impl Encode for HeadersMessage {
    open spec fn encoding(v: Seq<BlockHeaderView>) -> Seq<u8> {
        <Capped<HeaderItem, MAX_HEADERS> as Encode>::encoding(v)
    }

    fn encode(&self) -> (out: Vec<u8>) {
        let mut out: Vec<u8> = Vec::new();
        encode_list(&mut out, &header_items(&self.headers));
        assert(out@ =~= Self::encoding(self@));
        out
    }

    fn encoded_size(&self) -> (size: usize) {
        list_encoded_size(&header_items(&self.headers))
    }
}

impl Decode for HeadersMessage {
    open spec fn parse(b: Seq<u8>) -> Parsed<Seq<BlockHeaderView>> {
        match <Capped<HeaderItem, MAX_HEADERS> as Decode>::parse(b) {
            Ok((p, n)) => Ok((p, n)),
            Err(e) => Err(e),
        }
    }

    open spec fn decodable(v: Seq<BlockHeaderView>) -> bool {
        <Capped<HeaderItem, MAX_HEADERS> as Decode>::decodable(v)
    }

    fn decode(bytes: &[u8]) -> (r: Result<(Self, usize), DecodeError>) {
        match <Capped<HeaderItem, MAX_HEADERS> as Decode>::decode(bytes) {
            Ok((list, n)) => Ok((HeadersMessage { headers: item_headers(&list.0) }, n)),
            Err(e) => Err(e),
        }
    }

    proof fn lemma_parse_bounds(b: Seq<u8>) {
        <Capped<HeaderItem, MAX_HEADERS> as Decode>::lemma_parse_bounds(b);
    }

    proof fn lemma_round_trip(v: Seq<BlockHeaderView>, rest: Seq<u8>) {
        <Capped<HeaderItem, MAX_HEADERS> as Decode>::lemma_round_trip(v, rest);
    }
}

/// A transaction on the wire.
#[derive(Debug, PartialEq, Eq)]
pub struct TxMessage {
    pub transaction: Transaction,
}

impl View for TxMessage {
    type V = TransactionView;

    open spec fn view(&self) -> TransactionView {
        self.transaction@
    }
}

impl Clone for TxMessage {
    fn clone(&self) -> (r: Self)
        ensures
            r@ == self@,
    {
        TxMessage { transaction: self.transaction.clone() }
    }
}

impl Encode for TxMessage {
    open spec fn encoding(v: TransactionView) -> Seq<u8> {
        <Transaction as Encode>::encoding(v)
    }

    fn encode(&self) -> (out: Vec<u8>) {
        self.transaction.encode()
    }

    fn encoded_size(&self) -> (size: usize) {
        self.transaction.encoded_size()
    }
}

impl Decode for TxMessage {
    open spec fn parse(b: Seq<u8>) -> Parsed<TransactionView> {
        match <Transaction as Decode>::parse(b) {
            Ok((p, n)) => Ok((p, n)),
            Err(e) => Err(e),
        }
    }

    open spec fn decodable(v: TransactionView) -> bool {
        <Transaction as Decode>::decodable(v)
    }

    fn decode(bytes: &[u8]) -> (r: Result<(Self, usize), DecodeError>) {
        match <Transaction as Decode>::decode(bytes) {
            Ok((transaction, n)) => Ok((TxMessage { transaction }, n)),
            Err(e) => Err(e),
        }
    }

    proof fn lemma_parse_bounds(b: Seq<u8>) {
        <Transaction as Decode>::lemma_parse_bounds(b);
    }

    proof fn lemma_round_trip(v: TransactionView, rest: Seq<u8>) {
        <Transaction as Decode>::lemma_round_trip(v, rest);
    }
}

impl Canonical for TxMessage {
    proof fn lemma_canonical(b: Seq<u8>) {
        <Transaction as Canonical>::lemma_canonical(b);
    }
}

/// An address with the time at which it was last heard of.
#[derive(Debug, Clone, Copy, PartialEq, Eq)]
pub struct NetworkAddr {
    pub timestamp: u32,
    pub services: u64,
    pub ip: [u8; 16],
    pub port: u16,
}

/// What an address with a time stands for.
#[verifier::ext_equal]
pub struct NetworkAddrView {
    pub timestamp: u32,
    pub services: u64,
    pub ip: Seq<u8>,
    pub port: u16,
}

impl View for NetworkAddr {
    type V = NetworkAddrView;

    open spec fn view(&self) -> NetworkAddrView {
        NetworkAddrView {
            timestamp: self.timestamp,
            services: self.services,
            ip: self.ip@,
            port: self.port,
        }
    }
}

/// Order of the fields on the wire. The port is in network byte order.
pub type NetworkAddrParts = (u32, (u64, ([u8; 16], BigEndian16)));

impl Encode for NetworkAddr {
    open spec fn encoding(v: NetworkAddrView) -> Seq<u8> {
        <NetworkAddrParts as Encode>::encoding((v.timestamp, (v.services, (v.ip, v.port))))
    }

    fn encode(&self) -> (out: Vec<u8>) {
        let mut out: Vec<u8> = self.timestamp.encode();
        append_bytes(&mut out, &self.services.encode());
        append_bytes(&mut out, &self.ip);
        append_bytes(&mut out, &BigEndian16(self.port).encode());
        assert(out@ =~= Self::encoding(self@));
        out
    }

    fn encoded_size(&self) -> (size: usize) {
        self.timestamp.encoded_size() + self.services.encoded_size() + 16 + 2
    }
}

impl Decode for NetworkAddr {
    open spec fn parse(b: Seq<u8>) -> Parsed<NetworkAddrView> {
        match <NetworkAddrParts as Decode>::parse(b) {
            Ok((p, n)) => Ok((NetworkAddrView { timestamp: p.0, services: p.1.0, ip: p.1.1.0, port: p.1.1.1 }, n)),
            Err(e) => Err(e),
        }
    }

    open spec fn decodable(v: NetworkAddrView) -> bool {
        <NetworkAddrParts as Decode>::decodable((v.timestamp, (v.services, (v.ip, v.port))))
    }

    fn decode(bytes: &[u8]) -> (r: Result<(Self, usize), DecodeError>) {
        match <NetworkAddrParts as Decode>::decode(bytes) {
            Ok(((timestamp, (services, (ip, port))), n)) => Ok((NetworkAddr { timestamp, services, ip, port: port.0 }, n)),
            Err(e) => Err(e),
        }
    }

    proof fn lemma_parse_bounds(b: Seq<u8>) {
        <NetworkAddrParts as Decode>::lemma_parse_bounds(b);
    }

    proof fn lemma_round_trip(v: NetworkAddrView, rest: Seq<u8>) {
        <NetworkAddrParts as Decode>::lemma_round_trip((v.timestamp, (v.services, (v.ip, v.port))), rest);
    }
}

impl Canonical for NetworkAddr {
    proof fn lemma_canonical(b: Seq<u8>) {
        <NetworkAddrParts as Canonical>::lemma_canonical(b);
    }
}

/// Addresses of other peers.
#[derive(Debug, PartialEq, Eq)]
pub struct AddrMessage {
    pub addresses: Vec<NetworkAddr>,
}

impl View for AddrMessage {
    type V = Seq<NetworkAddrView>;

    open spec fn view(&self) -> Seq<NetworkAddrView> {
        views(self.addresses@)
    }
}

impl Clone for AddrMessage {
    fn clone(&self) -> (r: Self)
        ensures
            r@ == self@,
    {
        let r = AddrMessage { addresses: self.addresses.clone() };
        assert(r@ =~= self@);
        r
    }
}

impl Encode for AddrMessage {
    open spec fn encoding(v: Seq<NetworkAddrView>) -> Seq<u8> {
        <Capped<NetworkAddr, MAX_ADDR_ITEMS> as Encode>::encoding(v)
    }

    fn encode(&self) -> (out: Vec<u8>) {
        let mut out: Vec<u8> = Vec::new();
        encode_list(&mut out, &self.addresses);
        assert(out@ =~= Self::encoding(self@));
        out
    }

    fn encoded_size(&self) -> (size: usize) {
        list_encoded_size(&self.addresses)
    }
}

impl Decode for AddrMessage {
    open spec fn parse(b: Seq<u8>) -> Parsed<Seq<NetworkAddrView>> {
        match <Capped<NetworkAddr, MAX_ADDR_ITEMS> as Decode>::parse(b) {
            Ok((p, n)) => Ok((p, n)),
            Err(e) => Err(e),
        }
    }

    open spec fn decodable(v: Seq<NetworkAddrView>) -> bool {
        <Capped<NetworkAddr, MAX_ADDR_ITEMS> as Decode>::decodable(v)
    }

    fn decode(bytes: &[u8]) -> (r: Result<(Self, usize), DecodeError>) {
        match <Capped<NetworkAddr, MAX_ADDR_ITEMS> as Decode>::decode(bytes) {
            Ok((list, n)) => Ok((AddrMessage { addresses: list.0 }, n)),
            Err(e) => Err(e),
        }
    }

    proof fn lemma_parse_bounds(b: Seq<u8>) {
        <Capped<NetworkAddr, MAX_ADDR_ITEMS> as Decode>::lemma_parse_bounds(b);
    }

    proof fn lemma_round_trip(v: Seq<NetworkAddrView>, rest: Seq<u8>) {
        <Capped<NetworkAddr, MAX_ADDR_ITEMS> as Decode>::lemma_round_trip(v, rest);
    }
}

impl Canonical for AddrMessage {
    proof fn lemma_canonical(b: Seq<u8>) {
        <Capped<NetworkAddr, MAX_ADDR_ITEMS> as Canonical>::lemma_canonical(b);
    }
}

/// What a message says.
#[derive(Debug, PartialEq, Eq)]
pub enum MessagePayload {
    Version(VersionMessage),
    Verack(VerackMessage),
    Ping(PingMessage),
    Pong(PongMessage),
    Inv(InvMessage),
    GetData(GetDataMessage),
    Block(BlockMessage),
    GetHeaders(GetHeadersMessage),
    Headers(HeadersMessage),
    Tx(TxMessage),
    Addr(AddrMessage),
    GetAddr(GetAddrMessage),
}

/// What the contents of a message stand for.
pub enum PayloadView {
    Version(VersionView),
    Verack(()),
    Ping(u64),
    Pong(u64),
    Inv(Seq<InvView>),
    GetData(Seq<InvView>),
    Block(BlockView),
    GetHeaders(GetHeadersView),
    Headers(Seq<BlockHeaderView>),
    Tx(TransactionView),
    Addr(Seq<NetworkAddrView>),
    GetAddr(()),
}

impl View for MessagePayload {
    type V = PayloadView;

    open spec fn view(&self) -> PayloadView {
        match self {
            MessagePayload::Version(m) => PayloadView::Version(m@),
            MessagePayload::Verack(m) => PayloadView::Verack(m@),
            MessagePayload::Ping(m) => PayloadView::Ping(m@),
            MessagePayload::Pong(m) => PayloadView::Pong(m@),
            MessagePayload::Inv(m) => PayloadView::Inv(m@),
            MessagePayload::GetData(m) => PayloadView::GetData(m@),
            MessagePayload::Block(m) => PayloadView::Block(m@),
            MessagePayload::GetHeaders(m) => PayloadView::GetHeaders(m@),
            MessagePayload::Headers(m) => PayloadView::Headers(m@),
            MessagePayload::Tx(m) => PayloadView::Tx(m@),
            MessagePayload::Addr(m) => PayloadView::Addr(m@),
            MessagePayload::GetAddr(m) => PayloadView::GetAddr(m@),
        }
    }
}

/// The name of a kind of message.
pub open spec fn command_name(p: PayloadView) -> Seq<u8> {
    match p {
        PayloadView::Version(_) => seq![0x76u8, 0x65u8, 0x72u8, 0x73u8, 0x69u8, 0x6fu8, 0x6eu8],
        PayloadView::Verack(_) => seq![0x76u8, 0x65u8, 0x72u8, 0x61u8, 0x63u8, 0x6bu8],
        PayloadView::Ping(_) => seq![0x70u8, 0x69u8, 0x6eu8, 0x67u8],
        PayloadView::Pong(_) => seq![0x70u8, 0x6fu8, 0x6eu8, 0x67u8],
        PayloadView::Inv(_) => seq![0x69u8, 0x6eu8, 0x76u8],
        PayloadView::GetData(_) => seq![0x67u8, 0x65u8, 0x74u8, 0x64u8, 0x61u8, 0x74u8, 0x61u8],
        PayloadView::Block(_) => seq![0x62u8, 0x6cu8, 0x6fu8, 0x63u8, 0x6bu8],
        PayloadView::GetHeaders(_) => seq![0x67u8, 0x65u8, 0x74u8, 0x68u8, 0x65u8, 0x61u8, 0x64u8, 0x65u8, 0x72u8, 0x73u8],
        PayloadView::Headers(_) => seq![0x68u8, 0x65u8, 0x61u8, 0x64u8, 0x65u8, 0x72u8, 0x73u8],
        PayloadView::Tx(_) => seq![0x74u8, 0x78u8],
        PayloadView::Addr(_) => seq![0x61u8, 0x64u8, 0x64u8, 0x72u8],
        PayloadView::GetAddr(_) => seq![0x67u8, 0x65u8, 0x74u8, 0x61u8, 0x64u8, 0x64u8, 0x72u8],
    }
}

impl MessagePayload {
    /// The name of the kind of message.
    pub fn command(&self) -> (r: &'static str)
        ensures
            r.spec_bytes() == command_name(self@),
    {
        broadcast use is_ascii_spec_bytes;

        proof {
            reveal_strlit("version");
            reveal_strlit("verack");
            reveal_strlit("ping");
            reveal_strlit("pong");
            reveal_strlit("inv");
            reveal_strlit("getdata");
            reveal_strlit("block");
            reveal_strlit("getheaders");
            reveal_strlit("headers");
            reveal_strlit("tx");
            reveal_strlit("addr");
            reveal_strlit("getaddr");
        }
        let r = match self {
            MessagePayload::Version(_) => "version",
            MessagePayload::Verack(_) => "verack",
            MessagePayload::Ping(_) => "ping",
            MessagePayload::Pong(_) => "pong",
            MessagePayload::Inv(_) => "inv",
            MessagePayload::GetData(_) => "getdata",
            MessagePayload::Block(_) => "block",
            MessagePayload::GetHeaders(_) => "getheaders",
            MessagePayload::Headers(_) => "headers",
            MessagePayload::Tx(_) => "tx",
            MessagePayload::Addr(_) => "addr",
            MessagePayload::GetAddr(_) => "getaddr",
        };
        assert(is_ascii(r));
        assert(r.spec_bytes() =~= command_name(self@));
        r
    }
}

impl Encode for MessagePayload {
    open spec fn encoding(v: PayloadView) -> Seq<u8> {
        match v {
            PayloadView::Version(m) => VersionMessage::encoding(m),
            PayloadView::Verack(m) => VerackMessage::encoding(m),
            PayloadView::Ping(m) => PingMessage::encoding(m),
            PayloadView::Pong(m) => PongMessage::encoding(m),
            PayloadView::Inv(m) => InvMessage::encoding(m),
            PayloadView::GetData(m) => GetDataMessage::encoding(m),
            PayloadView::Block(m) => BlockMessage::encoding(m),
            PayloadView::GetHeaders(m) => GetHeadersMessage::encoding(m),
            PayloadView::Headers(m) => HeadersMessage::encoding(m),
            PayloadView::Tx(m) => TxMessage::encoding(m),
            PayloadView::Addr(m) => AddrMessage::encoding(m),
            PayloadView::GetAddr(m) => GetAddrMessage::encoding(m),
        }
    }

    fn encode(&self) -> (out: Vec<u8>) {
        match self {
            MessagePayload::Version(msg) => msg.encode(),
            MessagePayload::Verack(msg) => msg.encode(),
            MessagePayload::Ping(msg) => msg.encode(),
            MessagePayload::Pong(msg) => msg.encode(),
            MessagePayload::Inv(msg) => msg.encode(),
            MessagePayload::GetData(msg) => msg.encode(),
            MessagePayload::Block(msg) => msg.encode(),
            MessagePayload::GetHeaders(msg) => msg.encode(),
            MessagePayload::Headers(msg) => msg.encode(),
            MessagePayload::Tx(msg) => msg.encode(),
            MessagePayload::Addr(msg) => msg.encode(),
            MessagePayload::GetAddr(msg) => msg.encode(),
        }
    }

    fn encoded_size(&self) -> (size: usize) {
        match self {
            MessagePayload::Version(msg) => msg.encoded_size(),
            MessagePayload::Verack(msg) => msg.encoded_size(),
            MessagePayload::Ping(msg) => msg.encoded_size(),
            MessagePayload::Pong(msg) => msg.encoded_size(),
            MessagePayload::Inv(msg) => msg.encoded_size(),
            MessagePayload::GetData(msg) => msg.encoded_size(),
            MessagePayload::Block(msg) => msg.encoded_size(),
            MessagePayload::GetHeaders(msg) => msg.encoded_size(),
            MessagePayload::Headers(msg) => msg.encoded_size(),
            MessagePayload::Tx(msg) => msg.encoded_size(),
            MessagePayload::Addr(msg) => msg.encoded_size(),
            MessagePayload::GetAddr(msg) => msg.encoded_size(),
        }
    }
}

} // verus!
