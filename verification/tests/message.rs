use ferrous_node::network::message::{
    NetworkMessage, CMD_ADDR, CMD_GETADDR, MAINNET_MAGIC, REGTEST_MAGIC,
};
use ferrous_node::network::outgoing::frame;
use ferrous_node::network::protocol::{
    AddrMessage, GetAddrMessage, MessagePayload, NetworkAddr, PingMessage,
};
use ferrous_node::primitives::serialize::{Decode, DecodeError, Encode};

#[test]
fn test_network_message_roundtrip() {
    let payload = vec![1, 2, 3, 4, 5];
    let msg = NetworkMessage::new(REGTEST_MAGIC, "test", payload.clone());
    let encoded = msg.encode();
    let (decoded, len) = NetworkMessage::decode(&encoded).unwrap();

    assert_eq!(msg, decoded);
    assert_eq!(len, encoded.len());
    assert_eq!(decoded.magic, REGTEST_MAGIC);
    assert_eq!(decoded.command_string(), "test");
    assert_eq!(decoded.payload, payload);
}

#[test]
fn test_invalid_checksum() {
    let payload = vec![1, 2, 3];
    let mut msg = NetworkMessage::new(MAINNET_MAGIC, "ping", payload);
    msg.checksum = [0, 0, 0, 0]; // Invalid checksum
    let encoded = msg.encode();
    let result = NetworkMessage::decode(&encoded);
    assert_eq!(result, Err(DecodeError::InvalidData));
}

#[test]
fn test_short_buffer() {
    let bytes = vec![0u8; 23];
    let result = NetworkMessage::decode(&bytes);
    assert_eq!(result, Err(DecodeError::UnexpectedEof));
}

#[test]
fn message_layout() {
    let msg = NetworkMessage::new(MAINNET_MAGIC, "verack", vec![]);
    let bytes = msg.encode();
    assert_eq!(bytes.len(), 24);
    assert_eq!(&bytes[..4], &[0xf9, 0xbe, 0xb4, 0xd9]);
    assert_eq!(&bytes[4..16], b"verack\0\0\0\0\0\0");
    assert_eq!(&bytes[16..20], &[0, 0, 0, 0]);
    // The double hash of nothing
    assert_eq!(&bytes[20..24], &[0x5d, 0xf6, 0xe0, 0xe2]);
}

#[test]
fn too_long_payload_is_refused() {
    let mut bytes = NetworkMessage::new(MAINNET_MAGIC, "ping", vec![]).encode();
    bytes[16..20].copy_from_slice(&33_554_433u32.to_le_bytes());
    assert_eq!(NetworkMessage::decode(&bytes), Err(DecodeError::InvalidData));
}

#[test]
fn payload_reads_back_from_its_frame() {
    let payload = MessagePayload::Ping(PingMessage { nonce: 77 });
    let msg = frame(REGTEST_MAGIC, &payload);
    assert_eq!(msg.parse_payload(), Ok(payload));
    assert!(msg.verify_magic(&REGTEST_MAGIC));
    assert!(!msg.verify_magic(&MAINNET_MAGIC));
}

#[test]
fn addresses_and_requests_for_them_are_read() {
    let ask = NetworkMessage::new(REGTEST_MAGIC, CMD_GETADDR, vec![]);
    assert_eq!(ask.parse_payload(), Ok(MessagePayload::GetAddr(GetAddrMessage)));
    let address = NetworkAddr { timestamp: 7, services: 1, ip: [9; 16], port: 8333 };
    let told = MessagePayload::Addr(AddrMessage { addresses: vec![address] });
    let msg = NetworkMessage::new(REGTEST_MAGIC, CMD_ADDR, told.encode());
    assert_eq!(msg.parse_payload(), Ok(told));
    // A number of addresses without addresses, and one above the limit
    let short = NetworkMessage::new(REGTEST_MAGIC, CMD_ADDR, vec![1]);
    assert_eq!(short.parse_payload(), Err(DecodeError::UnexpectedEof));
    let many = NetworkMessage::new(REGTEST_MAGIC, CMD_ADDR, vec![0xfd, 0xe9, 0x03]);
    assert_eq!(many.parse_payload(), Err(DecodeError::Overflow));
}

#[test]
fn unknown_command_is_invalid() {
    let msg = NetworkMessage::new(REGTEST_MAGIC, "nonsense", vec![]);
    assert_eq!(msg.parse_payload(), Err(DecodeError::InvalidData));
    // Bytes that are no text are shown with replacement characters
    let mut odd = NetworkMessage::new(REGTEST_MAGIC, "ab", vec![]);
    odd.command[1] = 0xff;
    assert_eq!(odd.command_string(), "a\u{fffd}");
}
