//! The envelope of messages: magic bytes, command, length and checksum.

use crate::consensus::block::{BlockHeaderView, BlockView};
use crate::consensus::transaction::TransactionView;
use crate::network::protocol::{
    command_name, AddrMessage, BlockMessage, GetAddrMessage, GetDataMessage, GetHeadersMessage,
    GetHeadersView, HeadersMessage, InvMessage, InvView, MessagePayload, NetworkAddrView,
    PayloadView, PingMessage, PongMessage, TxMessage, VerackMessage, VersionMessage, VersionView,
};
use crate::primitives::bytes::{
    append_bytes, bytes_equal, le_bytes, le_value, lemma_byte_range_values, lemma_le_bytes_len,
    lemma_le_bytes_of_value, lemma_le_value_bound, lemma_le_value_of_bytes, tail_from, u32_from_le,
    u32_to_le,
};
use crate::primitives::hash::{sha256d, sha256d_bytes};
use crate::primitives::serialize::{Canonical, Decode, DecodeError, Encode, Parsed};
use vstd::prelude::*;
use vstd::string::*;
use vstd::utf8::*;

verus! {

pub const MAINNET_MAGIC: [u8; 4] = [0xf9, 0xbe, 0xb4, 0xd9];

pub const TESTNET_MAGIC: [u8; 4] = [0x0b, 0x11, 0x09, 0x07];

pub const REGTEST_MAGIC: [u8; 4] = [0xfa, 0xbf, 0xb5, 0xda];

pub const CMD_INV: &'static str = "inv";

pub const CMD_GETDATA: &'static str = "getdata";

pub const CMD_BLOCK: &'static str = "block";

pub const CMD_GETHEADERS: &'static str = "getheaders";

pub const CMD_HEADERS: &'static str = "headers";

pub const CMD_TX: &'static str = "tx";

pub const CMD_ADDR: &'static str = "addr";

pub const CMD_GETADDR: &'static str = "getaddr";

/// Largest payload that is accepted.
pub const MAX_PAYLOAD_SIZE: u32 = 33_554_432;

/// Size of the envelope before the payload.
pub const ENVELOPE_SIZE: usize = 24;

/// A message with its envelope.
#[derive(Debug, PartialEq, Eq)]
pub struct NetworkMessage {
    pub magic: [u8; 4],
    pub command: [u8; 12],
    pub length: u32,
    pub checksum: [u8; 4],
    pub payload: Vec<u8>,
}

/// What a message with its envelope stands for.
#[verifier::ext_equal]
pub struct NetworkMessageView {
    pub magic: Seq<u8>,
    pub command: Seq<u8>,
    pub length: u32,
    pub checksum: Seq<u8>,
    pub payload: Seq<u8>,
}

impl View for NetworkMessage {
    type V = NetworkMessageView;

    open spec fn view(&self) -> NetworkMessageView {
        NetworkMessageView {
            magic: self.magic@,
            command: self.command@,
            length: self.length,
            checksum: self.checksum@,
            payload: self.payload@,
        }
    }
}

impl Clone for NetworkMessage {
    fn clone(&self) -> (r: Self)
        ensures
            r@ == self@,
    {
        let payload = self.payload.clone();
        assert(payload@ =~= self.payload@);
        NetworkMessage {
            magic: self.magic,
            command: self.command,
            length: self.length,
            checksum: self.checksum,
            payload,
        }
    }
}

/// A command name in its field of twelve bytes: cut to them, filled up with
/// zeros.
pub open spec fn command_field(name: Seq<u8>) -> Seq<u8> {
    Seq::new(
        12,
        |i: int|
            if i < name.len() {
                name[i]
            } else {
                0u8
            },
    )
}

/// The checksum of a payload: the first four bytes of its hash.
pub open spec fn payload_checksum(payload: Seq<u8>) -> Seq<u8> {
    sha256d_bytes(payload).take(4)
}

/// The message that carries a payload under a command name.
pub open spec fn envelope(magic: Seq<u8>, name: Seq<u8>, payload: Seq<u8>) -> NetworkMessageView {
    NetworkMessageView {
        magic,
        command: command_field(name),
        length: payload.len() as u32,
        checksum: payload_checksum(payload),
        payload,
    }
}

/// Whether the first zero byte of a field is at `n`, or there is none before the
/// end.
pub open spec fn ends_at(field: Seq<u8>, n: int) -> bool {
    0 <= n <= field.len() && (n < field.len() ==> field[n] == 0) && forall|j: int|
        0 <= j < n ==> field[j] != 0
}

/// The command name in its field: the bytes before the first zero.
pub open spec fn field_name(field: Seq<u8>) -> Seq<u8> {
    field.take(choose|n: int| ends_at(field, n))
}

pub proof fn lemma_field_name(field: Seq<u8>, n: int)
    requires
        ends_at(field, n),
    ensures
        field_name(field) == field.take(n),
{
    let m = choose|m: int| ends_at(field, m);
    if m < n {
        assert(field[m] != 0);
    } else if n < m {
        assert(field[n] != 0);
    }
}

/// The text that `String::from_utf8_lossy` makes of bytes.
pub uninterp spec fn lossy_text(bytes: Seq<u8>) -> Seq<char>;

/// `String::from_utf8_lossy`: the text depends on the bytes alone, and is their
/// text where they are valid UTF-8. What stands in for invalid bytes is not
/// stated.
#[verifier::external_body]
fn lossy_string(bytes: &[u8]) -> (s: String)
    ensures
        s@ == lossy_text(bytes@),
        valid_utf8(bytes@) ==> s@ == decode_utf8(bytes@),
{
    String::from_utf8_lossy(bytes).into_owned()
}

/// The kinds of messages.
#[derive(Debug, Clone, Copy, PartialEq, Eq, Structural)]
pub enum MessageKind {
    Version,
    Verack,
    Ping,
    Pong,
    Inv,
    GetData,
    Block,
    GetHeaders,
    Headers,
    Tx,
    Addr,
    GetAddr,
}

/// The kind of message that a command name stands for.
pub open spec fn kind_of_name(name: Seq<u8>) -> Option<MessageKind> {
    if name == seq![0x76u8, 0x65u8, 0x72u8, 0x73u8, 0x69u8, 0x6fu8, 0x6eu8] {
        Some(MessageKind::Version)
    } else if name == seq![0x76u8, 0x65u8, 0x72u8, 0x61u8, 0x63u8, 0x6bu8] {
        Some(MessageKind::Verack)
    } else if name == seq![0x70u8, 0x69u8, 0x6eu8, 0x67u8] {
        Some(MessageKind::Ping)
    } else if name == seq![0x70u8, 0x6fu8, 0x6eu8, 0x67u8] {
        Some(MessageKind::Pong)
    } else if name == seq![0x69u8, 0x6eu8, 0x76u8] {
        Some(MessageKind::Inv)
    } else if name == seq![0x67u8, 0x65u8, 0x74u8, 0x64u8, 0x61u8, 0x74u8, 0x61u8] {
        Some(MessageKind::GetData)
    } else if name == seq![0x62u8, 0x6cu8, 0x6fu8, 0x63u8, 0x6bu8] {
        Some(MessageKind::Block)
    } else if name == seq![0x67u8, 0x65u8, 0x74u8, 0x68u8, 0x65u8, 0x61u8, 0x64u8, 0x65u8, 0x72u8, 0x73u8] {
        Some(MessageKind::GetHeaders)
    } else if name == seq![0x68u8, 0x65u8, 0x61u8, 0x64u8, 0x65u8, 0x72u8, 0x73u8] {
        Some(MessageKind::Headers)
    } else if name == seq![0x74u8, 0x78u8] {
        Some(MessageKind::Tx)
    } else if name == seq![0x61u8, 0x64u8, 0x64u8, 0x72u8] {
        Some(MessageKind::Addr)
    } else if name == seq![0x67u8, 0x65u8, 0x74u8, 0x61u8, 0x64u8, 0x64u8, 0x72u8] {
        Some(MessageKind::GetAddr)
    } else {
        None
    }
}

/// The value at the front of a byte sequence, whatever follows it.
#[verifier::opaque]
pub open spec fn decoded_value<T: Decode>(b: Seq<u8>) -> Result<T::V, DecodeError> {
    match T::parse(b) {
        Ok((v, n)) => Ok(v),
        Err(e) => Err(e),
    }
}

fn decode_value<T: Decode>(bytes: &[u8]) -> (r: Result<T, DecodeError>)
    ensures
        match r {
            Ok(v) => decoded_value::<T>(bytes@) == Ok::<T::V, DecodeError>(v@),
            Err(e) => decoded_value::<T>(bytes@) == Err::<T::V, DecodeError>(e),
        },
{
    proof {
        reveal(decoded_value);
    }
    match T::decode(bytes) {
        Ok((v, _)) => Ok(v),
        Err(e) => Err(e),
    }
}

/// What a payload of a kind says.
pub open spec fn parse_kind(kind: MessageKind, b: Seq<u8>) -> Result<PayloadView, DecodeError> {
    match kind {
        MessageKind::Version => match decoded_value::<VersionMessage>(b) {
            Ok(m) => Ok(PayloadView::Version(m)),
            Err(e) => Err(e),
        },
        MessageKind::Verack => match decoded_value::<VerackMessage>(b) {
            Ok(m) => Ok(PayloadView::Verack(m)),
            Err(e) => Err(e),
        },
        MessageKind::Ping => match decoded_value::<PingMessage>(b) {
            Ok(m) => Ok(PayloadView::Ping(m)),
            Err(e) => Err(e),
        },
        MessageKind::Pong => match decoded_value::<PongMessage>(b) {
            Ok(m) => Ok(PayloadView::Pong(m)),
            Err(e) => Err(e),
        },
        MessageKind::Inv => match decoded_value::<InvMessage>(b) {
            Ok(m) => Ok(PayloadView::Inv(m)),
            Err(e) => Err(e),
        },
        MessageKind::GetData => match decoded_value::<GetDataMessage>(b) {
            Ok(m) => Ok(PayloadView::GetData(m)),
            Err(e) => Err(e),
        },
        MessageKind::Block => match decoded_value::<BlockMessage>(b) {
            Ok(m) => Ok(PayloadView::Block(m)),
            Err(e) => Err(e),
        },
        MessageKind::GetHeaders => match decoded_value::<GetHeadersMessage>(b) {
            Ok(m) => Ok(PayloadView::GetHeaders(m)),
            Err(e) => Err(e),
        },
        MessageKind::Headers => match decoded_value::<HeadersMessage>(b) {
            Ok(m) => Ok(PayloadView::Headers(m)),
            Err(e) => Err(e),
        },
        MessageKind::Tx => match decoded_value::<TxMessage>(b) {
            Ok(m) => Ok(PayloadView::Tx(m)),
            Err(e) => Err(e),
        },
        MessageKind::Addr => match decoded_value::<AddrMessage>(b) {
            Ok(m) => Ok(PayloadView::Addr(m)),
            Err(e) => Err(e),
        },
        MessageKind::GetAddr => match decoded_value::<GetAddrMessage>(b) {
            Ok(m) => Ok(PayloadView::GetAddr(m)),
            Err(e) => Err(e),
        },
    }
}

/// What the payload of a message says, by its command name.
pub open spec fn parse_command(name: Seq<u8>, b: Seq<u8>) -> Result<PayloadView, DecodeError> {
    match kind_of_name(name) {
        Some(kind) => parse_kind(kind, b),
        None => Err(DecodeError::InvalidData),
    }
}

impl NetworkMessage {
    pub fn new(magic: [u8; 4], command_str: &str, payload: Vec<u8>) -> (r: Self)
        ensures
            r@ == envelope(magic@, command_str.spec_bytes(), payload@),
    {
        let name = command_str.as_bytes();
        let mut command: [u8; 12] = [0u8; 12];
        let mut i: usize = 0;
        while i < 12 && i < name.len()
            invariant
                i <= 12,
                i <= name@.len(),
                forall|j: int| 0 <= j < i ==> command@[j] == name@[j],
                forall|j: int| i <= j < 12 ==> command@[j] == 0,
            decreases 12 - i,
        {
            command[i] = name[i];
            i += 1;
        }
        assert(command@ =~= command_field(name@));
        let hash = sha256d(&payload);
        let checksum: [u8; 4] = [hash[0], hash[1], hash[2], hash[3]];
        assert(checksum@ =~= payload_checksum(payload@));
        NetworkMessage { magic, command, length: payload.len() as u32, checksum, payload }
    }

    /// Returns `true` if the message's magic bytes match `expected`.
    ///
    /// Callers **must** call this after decoding a `NetworkMessage` received from
    /// the network. Decoding does not validate the magic bytes, so that the same
    /// parser works for all networks.
    pub fn verify_magic(&self, expected: &[u8; 4]) -> (r: bool)
        ensures
            r == (self@.magic == expected@),
    {
        bytes_equal(&self.magic, expected)
    }

    fn name_len(&self) -> (n: usize)
        ensures
            ends_at(self.command@, n as int),
    {
        let mut end: usize = 0;
        while end < 12 && self.command[end] != 0
            invariant
                end <= 12,
                forall|j: int| 0 <= j < end ==> self.command@[j] != 0,
            decreases 12 - end,
        {
            end += 1;
        }
        end
    }

    /// The command name, as text.
    pub fn command_string(&self) -> (s: String)
        ensures
            s@ == lossy_text(field_name(self@.command)),
            valid_utf8(field_name(self@.command)) ==> s@ == decode_utf8(field_name(self@.command)),
    {
        let end = self.name_len();
        proof {
            lemma_field_name(self.command@, end as int);
        }
        let name = vstd::slice::slice_subrange(self.command.as_slice(), 0, end);
        assert(name@ =~= self.command@.take(end as int));
        lossy_string(name)
    }

    /// Whether the message has a command name.
    pub fn is_command(&self, name: &str) -> (r: bool)
        ensures
            r == (field_name(self@.command) == name.spec_bytes()),
    {
        let end = self.name_len();
        proof {
            lemma_field_name(self.command@, end as int);
        }
        let field = vstd::slice::slice_subrange(self.command.as_slice(), 0, end);
        assert(field@ =~= self.command@.take(end as int));
        bytes_equal(field, name.as_bytes())
    }

    /// The kind of message that the command name stands for.
    pub fn kind(&self) -> (r: Option<MessageKind>)
        ensures
            r == kind_of_name(field_name(self@.command)),
    {
        proof {
            lemma_command_literals();
        }
        if self.is_command("version") {
            Some(MessageKind::Version)
        } else if self.is_command("verack") {
            Some(MessageKind::Verack)
        } else if self.is_command("ping") {
            Some(MessageKind::Ping)
        } else if self.is_command("pong") {
            Some(MessageKind::Pong)
        } else if self.is_command("inv") {
            Some(MessageKind::Inv)
        } else if self.is_command("getdata") {
            Some(MessageKind::GetData)
        } else if self.is_command("block") {
            Some(MessageKind::Block)
        } else if self.is_command("getheaders") {
            Some(MessageKind::GetHeaders)
        } else if self.is_command("headers") {
            Some(MessageKind::Headers)
        } else if self.is_command("tx") {
            Some(MessageKind::Tx)
        } else if self.is_command("addr") {
            Some(MessageKind::Addr)
        } else if self.is_command("getaddr") {
            Some(MessageKind::GetAddr)
        } else {
            None
        }
    }

    fn parse_version(bytes: &Vec<u8>) -> (r: Result<MessagePayload, DecodeError>)
        ensures
            payload_parsed(r, parse_kind(MessageKind::Version, bytes@)),
    {
        match decode_value::<VersionMessage>(bytes) {
            Ok(msg) => Ok(MessagePayload::Version(msg)),
            Err(e) => Err(e),
        }
    }

    fn parse_verack(bytes: &Vec<u8>) -> (r: Result<MessagePayload, DecodeError>)
        ensures
            payload_parsed(r, parse_kind(MessageKind::Verack, bytes@)),
    {
        match decode_value::<VerackMessage>(bytes) {
            Ok(msg) => Ok(MessagePayload::Verack(msg)),
            Err(e) => Err(e),
        }
    }

    fn parse_ping(bytes: &Vec<u8>) -> (r: Result<MessagePayload, DecodeError>)
        ensures
            payload_parsed(r, parse_kind(MessageKind::Ping, bytes@)),
    {
        match decode_value::<PingMessage>(bytes) {
            Ok(msg) => Ok(MessagePayload::Ping(msg)),
            Err(e) => Err(e),
        }
    }

    fn parse_pong(bytes: &Vec<u8>) -> (r: Result<MessagePayload, DecodeError>)
        ensures
            payload_parsed(r, parse_kind(MessageKind::Pong, bytes@)),
    {
        match decode_value::<PongMessage>(bytes) {
            Ok(msg) => Ok(MessagePayload::Pong(msg)),
            Err(e) => Err(e),
        }
    }

    fn parse_inv(bytes: &Vec<u8>) -> (r: Result<MessagePayload, DecodeError>)
        ensures
            payload_parsed(r, parse_kind(MessageKind::Inv, bytes@)),
    {
        match decode_value::<InvMessage>(bytes) {
            Ok(msg) => Ok(MessagePayload::Inv(msg)),
            Err(e) => Err(e),
        }
    }

    fn parse_getdata(bytes: &Vec<u8>) -> (r: Result<MessagePayload, DecodeError>)
        ensures
            payload_parsed(r, parse_kind(MessageKind::GetData, bytes@)),
    {
        match decode_value::<GetDataMessage>(bytes) {
            Ok(msg) => Ok(MessagePayload::GetData(msg)),
            Err(e) => Err(e),
        }
    }

    fn parse_block(bytes: &Vec<u8>) -> (r: Result<MessagePayload, DecodeError>)
        ensures
            payload_parsed(r, parse_kind(MessageKind::Block, bytes@)),
    {
        match decode_value::<BlockMessage>(bytes) {
            Ok(msg) => Ok(MessagePayload::Block(msg)),
            Err(e) => Err(e),
        }
    }

    fn parse_getheaders(bytes: &Vec<u8>) -> (r: Result<MessagePayload, DecodeError>)
        ensures
            payload_parsed(r, parse_kind(MessageKind::GetHeaders, bytes@)),
    {
        match decode_value::<GetHeadersMessage>(bytes) {
            Ok(msg) => Ok(MessagePayload::GetHeaders(msg)),
            Err(e) => Err(e),
        }
    }

    fn parse_headers(bytes: &Vec<u8>) -> (r: Result<MessagePayload, DecodeError>)
        ensures
            payload_parsed(r, parse_kind(MessageKind::Headers, bytes@)),
    {
        match decode_value::<HeadersMessage>(bytes) {
            Ok(msg) => Ok(MessagePayload::Headers(msg)),
            Err(e) => Err(e),
        }
    }

    fn parse_tx(bytes: &Vec<u8>) -> (r: Result<MessagePayload, DecodeError>)
        ensures
            payload_parsed(r, parse_kind(MessageKind::Tx, bytes@)),
    {
        match decode_value::<TxMessage>(bytes) {
            Ok(msg) => Ok(MessagePayload::Tx(msg)),
            Err(e) => Err(e),
        }
    }

    fn parse_addr(bytes: &Vec<u8>) -> (r: Result<MessagePayload, DecodeError>)
        ensures
            payload_parsed(r, parse_kind(MessageKind::Addr, bytes@)),
    {
        match decode_value::<AddrMessage>(bytes) {
            Ok(msg) => Ok(MessagePayload::Addr(msg)),
            Err(e) => Err(e),
        }
    }

    fn parse_getaddr(bytes: &Vec<u8>) -> (r: Result<MessagePayload, DecodeError>)
        ensures
            payload_parsed(r, parse_kind(MessageKind::GetAddr, bytes@)),
    {
        match decode_value::<GetAddrMessage>(bytes) {
            Ok(msg) => Ok(MessagePayload::GetAddr(msg)),
            Err(e) => Err(e),
        }
    }

    /// What the payload says.
    pub fn parse_payload(&self) -> (r: Result<MessagePayload, DecodeError>)
        ensures
            payload_parsed(r, parse_command(field_name(self@.command), self@.payload)),
    {
        let bytes = &self.payload;
        match self.kind() {
            None => Err(DecodeError::InvalidData),
            Some(MessageKind::Version) => NetworkMessage::parse_version(bytes),
            Some(MessageKind::Verack) => NetworkMessage::parse_verack(bytes),
            Some(MessageKind::Ping) => NetworkMessage::parse_ping(bytes),
            Some(MessageKind::Pong) => NetworkMessage::parse_pong(bytes),
            Some(MessageKind::Inv) => NetworkMessage::parse_inv(bytes),
            Some(MessageKind::GetData) => NetworkMessage::parse_getdata(bytes),
            Some(MessageKind::Block) => NetworkMessage::parse_block(bytes),
            Some(MessageKind::GetHeaders) => NetworkMessage::parse_getheaders(bytes),
            Some(MessageKind::Headers) => NetworkMessage::parse_headers(bytes),
            Some(MessageKind::Tx) => NetworkMessage::parse_tx(bytes),
            Some(MessageKind::Addr) => NetworkMessage::parse_addr(bytes),
            Some(MessageKind::GetAddr) => NetworkMessage::parse_getaddr(bytes),
        }
    }
}

/// The result of parsing a payload is what the specification says.
pub open spec fn payload_parsed(
    r: Result<MessagePayload, DecodeError>,
    want: Result<PayloadView, DecodeError>,
) -> bool {
    match r {
        Ok(p) => want == Ok::<PayloadView, DecodeError>(p@),
        Err(e) => want == Err::<PayloadView, DecodeError>(e),
    }
}

/// The bytes of the command names.
proof fn lemma_command_literals()
    ensures
        "version".spec_bytes() == seq![0x76u8, 0x65u8, 0x72u8, 0x73u8, 0x69u8, 0x6fu8, 0x6eu8],
        "verack".spec_bytes() == seq![0x76u8, 0x65u8, 0x72u8, 0x61u8, 0x63u8, 0x6bu8],
        "ping".spec_bytes() == seq![0x70u8, 0x69u8, 0x6eu8, 0x67u8],
        "pong".spec_bytes() == seq![0x70u8, 0x6fu8, 0x6eu8, 0x67u8],
        "inv".spec_bytes() == seq![0x69u8, 0x6eu8, 0x76u8],
        "getdata".spec_bytes() == seq![0x67u8, 0x65u8, 0x74u8, 0x64u8, 0x61u8, 0x74u8, 0x61u8],
        "block".spec_bytes() == seq![0x62u8, 0x6cu8, 0x6fu8, 0x63u8, 0x6bu8],
        "getheaders".spec_bytes() == seq![0x67u8, 0x65u8, 0x74u8, 0x68u8, 0x65u8, 0x61u8, 0x64u8, 0x65u8, 0x72u8, 0x73u8],
        "headers".spec_bytes() == seq![0x68u8, 0x65u8, 0x61u8, 0x64u8, 0x65u8, 0x72u8, 0x73u8],
        "tx".spec_bytes() == seq![0x74u8, 0x78u8],
        "addr".spec_bytes() == seq![0x61u8, 0x64u8, 0x64u8, 0x72u8],
        "getaddr".spec_bytes() == seq![0x67u8, 0x65u8, 0x74u8, 0x61u8, 0x64u8, 0x64u8, 0x72u8],
{
    broadcast use is_ascii_spec_bytes;

    reveal_strlit("version");
    assert(is_ascii("version"));
    assert("version".spec_bytes() =~= seq![0x76u8, 0x65u8, 0x72u8, 0x73u8, 0x69u8, 0x6fu8, 0x6eu8]);
    reveal_strlit("verack");
    assert(is_ascii("verack"));
    assert("verack".spec_bytes() =~= seq![0x76u8, 0x65u8, 0x72u8, 0x61u8, 0x63u8, 0x6bu8]);
    reveal_strlit("ping");
    assert(is_ascii("ping"));
    assert("ping".spec_bytes() =~= seq![0x70u8, 0x69u8, 0x6eu8, 0x67u8]);
    reveal_strlit("pong");
    assert(is_ascii("pong"));
    assert("pong".spec_bytes() =~= seq![0x70u8, 0x6fu8, 0x6eu8, 0x67u8]);
    reveal_strlit("inv");
    assert(is_ascii("inv"));
    assert("inv".spec_bytes() =~= seq![0x69u8, 0x6eu8, 0x76u8]);
    reveal_strlit("getdata");
    assert(is_ascii("getdata"));
    assert("getdata".spec_bytes() =~= seq![0x67u8, 0x65u8, 0x74u8, 0x64u8, 0x61u8, 0x74u8, 0x61u8]);
    reveal_strlit("block");
    assert(is_ascii("block"));
    assert("block".spec_bytes() =~= seq![0x62u8, 0x6cu8, 0x6fu8, 0x63u8, 0x6bu8]);
    reveal_strlit("getheaders");
    assert(is_ascii("getheaders"));
    assert("getheaders".spec_bytes() =~= seq![0x67u8, 0x65u8, 0x74u8, 0x68u8, 0x65u8, 0x61u8, 0x64u8, 0x65u8, 0x72u8, 0x73u8]);
    reveal_strlit("headers");
    assert(is_ascii("headers"));
    assert("headers".spec_bytes() =~= seq![0x68u8, 0x65u8, 0x61u8, 0x64u8, 0x65u8, 0x72u8, 0x73u8]);
    reveal_strlit("tx");
    assert(is_ascii("tx"));
    assert("tx".spec_bytes() =~= seq![0x74u8, 0x78u8]);
    reveal_strlit("addr");
    assert(is_ascii("addr"));
    assert("addr".spec_bytes() =~= seq![0x61u8, 0x64u8, 0x64u8, 0x72u8]);
    reveal_strlit("getaddr");
    assert(is_ascii("getaddr"));
    assert("getaddr".spec_bytes() =~= seq![0x67u8, 0x65u8, 0x74u8, 0x61u8, 0x64u8, 0x64u8, 0x72u8]);
}

/// A command name of up to twelve bytes without zeros is read as it was written.
pub proof fn lemma_command_field_reads_back(name: Seq<u8>)
    requires
        name.len() <= 12,
        forall|i: int| 0 <= i < name.len() ==> name[i] != 0,
    ensures
        field_name(command_field(name)) == name,
{
    let field = command_field(name);
    assert(ends_at(field, name.len() as int));
    lemma_field_name(field, name.len() as int);
    assert(field.take(name.len() as int) =~= name);
}

/// Whether a payload is within the limits of its kind.
pub open spec fn deliverable(p: PayloadView) -> bool {
    match p {
        PayloadView::Version(m) => VersionMessage::decodable(m),
        PayloadView::Verack(m) => VerackMessage::decodable(m),
        PayloadView::Ping(m) => PingMessage::decodable(m),
        PayloadView::Pong(m) => PongMessage::decodable(m),
        PayloadView::Inv(m) => InvMessage::decodable(m),
        PayloadView::GetData(m) => GetDataMessage::decodable(m),
        PayloadView::Block(m) => BlockMessage::decodable(m),
        PayloadView::GetHeaders(m) => GetHeadersMessage::decodable(m),
        PayloadView::Headers(m) => HeadersMessage::decodable(m),
        PayloadView::Tx(m) => TxMessage::decodable(m),
        PayloadView::Addr(m) => AddrMessage::decodable(m),
        PayloadView::GetAddr(m) => GetAddrMessage::decodable(m),
    }
}

/// The kind of a payload.
pub open spec fn payload_kind(p: PayloadView) -> MessageKind {
    match p {
        PayloadView::Version(_) => MessageKind::Version,
        PayloadView::Verack(_) => MessageKind::Verack,
        PayloadView::Ping(_) => MessageKind::Ping,
        PayloadView::Pong(_) => MessageKind::Pong,
        PayloadView::Inv(_) => MessageKind::Inv,
        PayloadView::GetData(_) => MessageKind::GetData,
        PayloadView::Block(_) => MessageKind::Block,
        PayloadView::GetHeaders(_) => MessageKind::GetHeaders,
        PayloadView::Headers(_) => MessageKind::Headers,
        PayloadView::Tx(_) => MessageKind::Tx,
        PayloadView::Addr(_) => MessageKind::Addr,
        PayloadView::GetAddr(_) => MessageKind::GetAddr,
    }
}

/// The command name of a payload stands for its kind.
pub proof fn lemma_command_name_kind(p: PayloadView)
    ensures
        kind_of_name(command_name(p)) == Some(payload_kind(p)),
        command_name(p).len() <= 12,
        forall|i: int| 0 <= i < command_name(p).len() ==> command_name(p)[i] != 0,
{
    let name = command_name(p);
    if name == seq![0x76u8, 0x65u8, 0x72u8, 0x73u8, 0x69u8, 0x6fu8, 0x6eu8] {
        assert(name.len() == 7 && name[0] == 0x76 && name[1] == 0x65);
    }
    if name == seq![0x76u8, 0x65u8, 0x72u8, 0x61u8, 0x63u8, 0x6bu8] {
        assert(name.len() == 6 && name[0] == 0x76 && name[1] == 0x65);
    }
    if name == seq![0x70u8, 0x69u8, 0x6eu8, 0x67u8] {
        assert(name.len() == 4 && name[0] == 0x70 && name[1] == 0x69);
    }
    if name == seq![0x70u8, 0x6fu8, 0x6eu8, 0x67u8] {
        assert(name.len() == 4 && name[0] == 0x70 && name[1] == 0x6f);
    }
    if name == seq![0x69u8, 0x6eu8, 0x76u8] {
        assert(name.len() == 3 && name[0] == 0x69 && name[1] == 0x6e);
    }
    if name == seq![0x67u8, 0x65u8, 0x74u8, 0x64u8, 0x61u8, 0x74u8, 0x61u8] {
        assert(name.len() == 7 && name[0] == 0x67 && name[3] == 0x64);
    }
    if name == seq![0x62u8, 0x6cu8, 0x6fu8, 0x63u8, 0x6bu8] {
        assert(name.len() == 5 && name[0] == 0x62 && name[1] == 0x6c);
    }
    if name == seq![0x67u8, 0x65u8, 0x74u8, 0x68u8, 0x65u8, 0x61u8, 0x64u8, 0x65u8, 0x72u8, 0x73u8] {
        assert(name.len() == 10 && name[0] == 0x67 && name[1] == 0x65);
    }
    if name == seq![0x68u8, 0x65u8, 0x61u8, 0x64u8, 0x65u8, 0x72u8, 0x73u8] {
        assert(name.len() == 7 && name[0] == 0x68 && name[1] == 0x65);
    }
    if name == seq![0x74u8, 0x78u8] {
        assert(name.len() == 2 && name[0] == 0x74 && name[1] == 0x78);
    }
    if name == seq![0x61u8, 0x64u8, 0x64u8, 0x72u8] {
        assert(name.len() == 4 && name[0] == 0x61 && name[1] == 0x64);
    }
    if name == seq![0x67u8, 0x65u8, 0x74u8, 0x61u8, 0x64u8, 0x64u8, 0x72u8] {
        assert(name.len() == 7 && name[0] == 0x67 && name[3] == 0x61);
    }
}

/// An encoded value with nothing behind it decodes to that value.
pub proof fn lemma_reads_back_alone<T: Decode>(v: T::V)
    requires
        T::decodable(v),
    ensures
        decoded_value::<T>(T::encoding(v)) == Ok::<T::V, DecodeError>(v),
{
    reveal(decoded_value);
    assert(T::encoding(v) + Seq::<u8>::empty() =~= T::encoding(v));
    T::lemma_round_trip(v, Seq::empty());
}

proof fn lemma_version_parses(m: VersionView)
    requires
        VersionMessage::decodable(m),
    ensures
        parse_kind(MessageKind::Version, VersionMessage::encoding(m)) == Ok::<PayloadView, DecodeError>(
            PayloadView::Version(m),
        ),
{
    lemma_reads_back_alone::<VersionMessage>(m);
}

proof fn lemma_verack_parses(m: ())
    requires
        VerackMessage::decodable(m),
    ensures
        parse_kind(MessageKind::Verack, VerackMessage::encoding(m)) == Ok::<PayloadView, DecodeError>(
            PayloadView::Verack(m),
        ),
{
    lemma_reads_back_alone::<VerackMessage>(m);
}

proof fn lemma_ping_parses(m: u64)
    requires
        PingMessage::decodable(m),
    ensures
        parse_kind(MessageKind::Ping, PingMessage::encoding(m)) == Ok::<PayloadView, DecodeError>(
            PayloadView::Ping(m),
        ),
{
    lemma_reads_back_alone::<PingMessage>(m);
}

proof fn lemma_pong_parses(m: u64)
    requires
        PongMessage::decodable(m),
    ensures
        parse_kind(MessageKind::Pong, PongMessage::encoding(m)) == Ok::<PayloadView, DecodeError>(
            PayloadView::Pong(m),
        ),
{
    lemma_reads_back_alone::<PongMessage>(m);
}

proof fn lemma_inv_parses(m: Seq<InvView>)
    requires
        InvMessage::decodable(m),
    ensures
        parse_kind(MessageKind::Inv, InvMessage::encoding(m)) == Ok::<PayloadView, DecodeError>(
            PayloadView::Inv(m),
        ),
{
    lemma_reads_back_alone::<InvMessage>(m);
}

proof fn lemma_getdata_parses(m: Seq<InvView>)
    requires
        GetDataMessage::decodable(m),
    ensures
        parse_kind(MessageKind::GetData, GetDataMessage::encoding(m)) == Ok::<PayloadView, DecodeError>(
            PayloadView::GetData(m),
        ),
{
    lemma_reads_back_alone::<GetDataMessage>(m);
}

proof fn lemma_block_parses(m: BlockView)
    requires
        BlockMessage::decodable(m),
    ensures
        parse_kind(MessageKind::Block, BlockMessage::encoding(m)) == Ok::<PayloadView, DecodeError>(
            PayloadView::Block(m),
        ),
{
    lemma_reads_back_alone::<BlockMessage>(m);
}

proof fn lemma_getheaders_parses(m: GetHeadersView)
    requires
        GetHeadersMessage::decodable(m),
    ensures
        parse_kind(MessageKind::GetHeaders, GetHeadersMessage::encoding(m)) == Ok::<PayloadView, DecodeError>(
            PayloadView::GetHeaders(m),
        ),
{
    lemma_reads_back_alone::<GetHeadersMessage>(m);
}

proof fn lemma_headers_parses(m: Seq<BlockHeaderView>)
    requires
        HeadersMessage::decodable(m),
    ensures
        parse_kind(MessageKind::Headers, HeadersMessage::encoding(m)) == Ok::<PayloadView, DecodeError>(
            PayloadView::Headers(m),
        ),
{
    lemma_reads_back_alone::<HeadersMessage>(m);
}

proof fn lemma_tx_parses(m: TransactionView)
    requires
        TxMessage::decodable(m),
    ensures
        parse_kind(MessageKind::Tx, TxMessage::encoding(m)) == Ok::<PayloadView, DecodeError>(
            PayloadView::Tx(m),
        ),
{
    lemma_reads_back_alone::<TxMessage>(m);
}

proof fn lemma_addr_parses(m: Seq<NetworkAddrView>)
    requires
        AddrMessage::decodable(m),
    ensures
        parse_kind(MessageKind::Addr, AddrMessage::encoding(m)) == Ok::<PayloadView, DecodeError>(
            PayloadView::Addr(m),
        ),
{
    lemma_reads_back_alone::<AddrMessage>(m);
}

proof fn lemma_getaddr_parses(m: ())
    requires
        GetAddrMessage::decodable(m),
    ensures
        parse_kind(MessageKind::GetAddr, GetAddrMessage::encoding(m)) == Ok::<PayloadView, DecodeError>(
            PayloadView::GetAddr(m),
        ),
{
    lemma_reads_back_alone::<GetAddrMessage>(m);
}

proof fn lemma_payload_parses(p: PayloadView)
    requires
        deliverable(p),
    ensures
        parse_kind(payload_kind(p), MessagePayload::encoding(p)) == Ok::<
            PayloadView,
            DecodeError,
        >(p),
{
    match p {
        PayloadView::Version(m) => lemma_version_parses(m),
        PayloadView::Verack(m) => lemma_verack_parses(m),
        PayloadView::Ping(m) => lemma_ping_parses(m),
        PayloadView::Pong(m) => lemma_pong_parses(m),
        PayloadView::Inv(m) => lemma_inv_parses(m),
        PayloadView::GetData(m) => lemma_getdata_parses(m),
        PayloadView::Block(m) => lemma_block_parses(m),
        PayloadView::GetHeaders(m) => lemma_getheaders_parses(m),
        PayloadView::Headers(m) => lemma_headers_parses(m),
        PayloadView::Tx(m) => lemma_tx_parses(m),
        PayloadView::Addr(m) => lemma_addr_parses(m),
        PayloadView::GetAddr(m) => lemma_getaddr_parses(m),
    }
}

/// A payload in its envelope is parsed as that payload.
pub proof fn lemma_payload_reads_back(magic: Seq<u8>, p: PayloadView)
    requires
        deliverable(p),
    ensures
        ({
            let msg = envelope(magic, command_name(p), MessagePayload::encoding(p));
            parse_command(field_name(msg.command), msg.payload) == Ok::<PayloadView, DecodeError>(p)
        }),
{
    lemma_payload_parses(p);
    lemma_command_name_kind(p);
    lemma_command_field_reads_back(command_name(p));
}

impl Encode for NetworkMessage {
    open spec fn encoding(v: NetworkMessageView) -> Seq<u8> {
        v.magic + v.command + le_bytes(v.length as nat, 4) + v.checksum + v.payload
    }

    fn encode(&self) -> (out: Vec<u8>) {
        let mut out: Vec<u8> = Vec::new();
        append_bytes(&mut out, &self.magic);
        append_bytes(&mut out, &self.command);
        append_bytes(&mut out, &u32_to_le(self.length));
        append_bytes(&mut out, &self.checksum);
        append_bytes(&mut out, &self.payload);
        assert(out@ =~= Self::encoding(self@));
        out
    }

    fn encoded_size(&self) -> (size: usize) {
        proof {
            lemma_le_bytes_len(self.length as nat, 4);
        }
        ENVELOPE_SIZE + self.payload.len()
    }
}

impl Decode for NetworkMessage {
    open spec fn parse(b: Seq<u8>) -> Parsed<NetworkMessageView> {
        if b.len() < ENVELOPE_SIZE {
            Err(DecodeError::UnexpectedEof)
        } else {
            let length = le_value(b.subrange(16, 20)) as u32;
            if length > MAX_PAYLOAD_SIZE {
                Err(DecodeError::InvalidData)
            } else if b.len() < ENVELOPE_SIZE + length {
                Err(DecodeError::UnexpectedEof)
            } else {
                let payload = b.subrange(24, 24 + length);
                if b.subrange(20, 24) != payload_checksum(payload) {
                    Err(DecodeError::InvalidData)
                } else {
                    Ok(
                        (
                            NetworkMessageView {
                                magic: b.subrange(0, 4),
                                command: b.subrange(4, 16),
                                length,
                                checksum: b.subrange(20, 24),
                                payload,
                            },
                            24 + length,
                        ),
                    )
                }
            }
        }
    }

    open spec fn decodable(v: NetworkMessageView) -> bool {
        v.magic.len() == 4 && v.command.len() == 12 && v.length == v.payload.len() && v.length
            <= MAX_PAYLOAD_SIZE && v.checksum.len() == 4 && v.checksum == payload_checksum(
            v.payload,
        )
    }

    fn decode(bytes: &[u8]) -> (r: Result<(Self, usize), DecodeError>) {
        if bytes.len() < ENVELOPE_SIZE {
            return Err(DecodeError::UnexpectedEof);
        }
        let magic: [u8; 4] = [bytes[0], bytes[1], bytes[2], bytes[3]];
        assert(magic@ =~= bytes@.subrange(0, 4));
        let command: [u8; 12] = [
            bytes[4],
            bytes[5],
            bytes[6],
            bytes[7],
            bytes[8],
            bytes[9],
            bytes[10],
            bytes[11],
            bytes[12],
            bytes[13],
            bytes[14],
            bytes[15],
        ];
        assert(command@ =~= bytes@.subrange(4, 16));
        let length_field = tail_from(bytes, 16);
        let length: u32 = u32_from_le(length_field);
        assert(length_field@.take(4) =~= bytes@.subrange(16, 20));
        if length > MAX_PAYLOAD_SIZE {
            return Err(DecodeError::InvalidData);
        }
        let checksum: [u8; 4] = [bytes[20], bytes[21], bytes[22], bytes[23]];
        assert(checksum@ =~= bytes@.subrange(20, 24));
        let total_len: usize = ENVELOPE_SIZE + length as usize;
        if bytes.len() < total_len {
            return Err(DecodeError::UnexpectedEof);
        }
        let payload = vstd::slice::slice_to_vec(
            vstd::slice::slice_subrange(bytes, ENVELOPE_SIZE, total_len),
        );
        // Validate checksum
        let hash = sha256d(&payload);
        let expected: [u8; 4] = [hash[0], hash[1], hash[2], hash[3]];
        assert(expected@ =~= payload_checksum(payload@));
        if !bytes_equal(&checksum, &expected) {
            return Err(DecodeError::InvalidData);
        }
        Ok((NetworkMessage { magic, command, length, checksum, payload }, total_len))
    }

    proof fn lemma_parse_bounds(b: Seq<u8>) {
    }

    proof fn lemma_round_trip(v: NetworkMessageView, rest: Seq<u8>) {
        let b = Self::encoding(v) + rest;
        lemma_le_bytes_len(v.length as nat, 4);
        lemma_byte_range_values();
        lemma_le_value_of_bytes(v.length as nat, 4);
        assert(b.subrange(0, 4) =~= v.magic);
        assert(b.subrange(4, 16) =~= v.command);
        assert(b.subrange(16, 20) =~= le_bytes(v.length as nat, 4));
        assert(b.subrange(20, 24) =~= v.checksum);
        assert(b.subrange(24, 24 + v.length) =~= v.payload);
    }
}

impl Canonical for NetworkMessage {
    proof fn lemma_canonical(b: Seq<u8>) {
        if let Ok((v, n)) = Self::parse(b) {
            let field = b.subrange(16, 20);
            lemma_byte_range_values();
            lemma_le_value_bound(field);
            lemma_le_bytes_of_value(field);
            assert(b.take(n) =~= Self::encoding(v));
        }
    }
}

/// A message whose checksum is not that of its payload is refused.
pub proof fn lemma_wrong_checksum_refused(v: NetworkMessageView, rest: Seq<u8>)
    requires
        v.magic.len() == 4,
        v.command.len() == 12,
        v.checksum.len() == 4,
        v.length == v.payload.len(),
        v.length <= MAX_PAYLOAD_SIZE,
        v.checksum != payload_checksum(v.payload),
    ensures
        NetworkMessage::parse(NetworkMessage::encoding(v) + rest) == Parsed::<
            NetworkMessageView,
        >::Err(DecodeError::InvalidData),
{
    let b = NetworkMessage::encoding(v) + rest;
    lemma_le_bytes_len(v.length as nat, 4);
    lemma_byte_range_values();
    lemma_le_value_of_bytes(v.length as nat, 4);
    assert(b.subrange(16, 20) =~= le_bytes(v.length as nat, 4));
    assert(b.subrange(20, 24) =~= v.checksum);
    assert(b.subrange(24, 24 + v.length) =~= v.payload);
}

} // verus!
