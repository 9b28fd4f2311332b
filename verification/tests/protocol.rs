use ferrous_node::consensus::block::BlockHeader;
use ferrous_node::network::address::{IpAddr, SocketAddr};
use ferrous_node::network::protocol::{
    AddrMessage, BlockMessage, GetAddrMessage, GetDataMessage, GetHeadersMessage, HeadersMessage,
    InvMessage, InvVector, MessagePayload, NetAddr, NetworkAddr, PingMessage, PongMessage,
    VersionMessage, INV_BLOCK, INV_TX,
};
use ferrous_node::primitives::serialize::{Decode, DecodeError, Encode};

fn local() -> SocketAddr {
    SocketAddr { ip: IpAddr::V4([127, 0, 0, 1]), port: 8333 }
}

#[test]
fn test_netaddr_encode_decode() {
    let net_addr = NetAddr::new(local(), 1);
    let encoded = net_addr.encode();
    let (decoded, len) = NetAddr::decode(&encoded).unwrap();
    assert_eq!(net_addr, decoded);
    assert_eq!(len, encoded.len());
}

#[test]
fn test_version_message_roundtrip() {
    let net_addr = NetAddr::new(local(), 1);

    let msg = VersionMessage {
        version: 70015,
        services: 1,
        timestamp: 123456789,
        receiver: net_addr.clone(),
        sender: net_addr,
        nonce: 0x1234567890abcdef,
        user_agent: "/Satoshi:0.18.0/".to_string(),
        start_height: 100,
    };

    let encoded = msg.encode();
    let (decoded, len) = VersionMessage::decode(&encoded).unwrap();

    assert_eq!(msg, decoded);
    assert_eq!(len, encoded.len());
}

#[test]
fn test_ping_pong_roundtrip() {
    let ping = PingMessage { nonce: 12345 };
    let encoded = ping.encode();
    let (decoded, len) = PingMessage::decode(&encoded).unwrap();
    assert_eq!(ping, decoded);
    assert_eq!(len, encoded.len());

    let pong = PongMessage { nonce: 67890 };
    let encoded = pong.encode();
    let (decoded, len) = PongMessage::decode(&encoded).unwrap();
    assert_eq!(pong, decoded);
    assert_eq!(len, encoded.len());
}

#[test]
fn test_inv_message_roundtrip() {
    let inv1 = InvVector { inv_type: INV_TX, hash: [0x11; 32] };
    let inv2 = InvVector { inv_type: INV_BLOCK, hash: [0x22; 32] };
    let msg = InvMessage { inventory: vec![inv1, inv2] };

    let encoded = msg.encode();
    let (decoded, len) = InvMessage::decode(&encoded).unwrap();

    assert_eq!(msg, decoded);
    assert_eq!(len, encoded.len());
}

#[test]
fn test_getdata_message_roundtrip() {
    let inv = InvVector { inv_type: INV_BLOCK, hash: [0x33; 32] };
    let msg = GetDataMessage { inventory: vec![inv] };

    let encoded = msg.encode();
    let (decoded, len) = GetDataMessage::decode(&encoded).unwrap();

    assert_eq!(msg, decoded);
    assert_eq!(len, encoded.len());
}

#[test]
fn test_block_message_roundtrip() {
    let header = BlockHeader {
        version: 1,
        prev_block_hash: [0x44; 32],
        merkle_root: [0x55; 32],
        timestamp: 123456,
        n_bits: 0x1d00ffff,
        nonce: 0,
    };
    // Empty transactions for simplicity
    let msg = BlockMessage { header, transactions: vec![] };

    let encoded = msg.encode();
    let (decoded, len) = BlockMessage::decode(&encoded).unwrap();

    assert_eq!(msg, decoded);
    assert_eq!(len, encoded.len());
}

#[test]
fn net_addr_layout() {
    let bytes = NetAddr::new(local(), 1).encode();
    assert_eq!(bytes.len(), 26);
    assert_eq!(&bytes[..8], &[1, 0, 0, 0, 0, 0, 0, 0]);
    assert_eq!(&bytes[8..24], &[0, 0, 0, 0, 0, 0, 0, 0, 0, 0, 0xff, 0xff, 127, 0, 0, 1]);
    // The port comes with its high byte first
    assert_eq!(&bytes[24..], &[0x20, 0x8d]);
}

#[test]
fn other_messages_read_back() {
    let headers = HeadersMessage { headers: vec![] };
    assert_eq!(HeadersMessage::decode(&headers.encode()).unwrap().0, headers);
    let request = GetHeadersMessage {
        version: 70015,
        block_locator: vec![[1; 32], [2; 32]],
        stop_hash: [0; 32],
    };
    assert_eq!(GetHeadersMessage::decode(&request.encode()).unwrap().0, request);
    let addr = NetworkAddr { timestamp: 5, services: 1, ip: [9; 16], port: 8333 };
    let list = AddrMessage { addresses: vec![addr] };
    assert_eq!(AddrMessage::decode(&list.encode()).unwrap().0, list);
    assert_eq!(MessagePayload::GetAddr(GetAddrMessage).encode().len(), 0);
}

#[test]
fn ping_that_is_cut_short_is_refused() {
    assert_eq!(PingMessage::decode(&[1, 2, 3]), Err(DecodeError::UnexpectedEof));
}

#[test]
fn user_agent_must_be_text() {
    let net_addr = NetAddr::new(local(), 1);
    let msg = VersionMessage {
        version: 70015,
        services: 1,
        timestamp: 1,
        receiver: net_addr,
        sender: net_addr,
        nonce: 1,
        user_agent: "ab".to_string(),
        start_height: 1,
    };
    let mut bytes = msg.encode();
    // Fixed part, then the length of the user agent, then its bytes
    let at = 4 + 8 + 8 + 26 + 26 + 8 + 1;
    assert_eq!(&bytes[at..at + 2], b"ab");
    bytes[at] = 0xff;
    assert!(VersionMessage::decode(&bytes).is_err());
}
