use ferrous_node::network::address::{IpAddr, SocketAddr};
use ferrous_node::network::connection::{ConnectionError, PeerConnection};
use ferrous_node::network::message::{NetworkMessage, REGTEST_MAGIC};
use ferrous_node::primitives::serialize::{DecodeError, Encode};

fn connection() -> PeerConnection {
    PeerConnection::new(SocketAddr { ip: IpAddr::V4([127, 0, 0, 1]), port: 1 }, REGTEST_MAGIC)
}

#[test]
fn test_peer_connection_send_receive() {
    let mut server = connection();
    let mut client = connection();

    let payload = vec![1, 2, 3, 4];
    let msg = NetworkMessage::new(REGTEST_MAGIC, "ping", payload);
    server.receive_bytes(&PeerConnection::message_bytes(&msg));
    let echoed = server.next_message().unwrap().unwrap();
    client.receive_bytes(&PeerConnection::message_bytes(&echoed));

    let response = client.next_message().unwrap().unwrap();
    assert_eq!(msg, response);
}

#[test]
fn test_invalid_magic() {
    // Send garbage magic
    let mut msg = NetworkMessage::new(REGTEST_MAGIC, "ping", vec![]);
    msg.magic = [0xde, 0xad, 0xbe, 0xef];
    let encoded = msg.encode();

    let mut conn = connection(); // Expects REGTEST_MAGIC
    conn.receive_bytes(&encoded);
    let result = conn.next_message();
    assert_eq!(result, Err(ConnectionError::InvalidMagic));
}

#[test]
fn message_in_parts_is_waited_for() {
    let msg = NetworkMessage::new(REGTEST_MAGIC, "ping", vec![9; 8]);
    let bytes = msg.encode();
    let mut conn = connection();
    for part in bytes.chunks(5) {
        assert_eq!(conn.next_message(), Ok(None));
        conn.receive_bytes(part);
    }
    assert_eq!(conn.next_message(), Ok(Some(msg)));
    assert_eq!(conn.next_message(), Ok(None));
}

#[test]
fn two_messages_come_one_by_one() {
    let first = NetworkMessage::new(REGTEST_MAGIC, "ping", vec![1; 8]);
    let second = NetworkMessage::new(REGTEST_MAGIC, "pong", vec![2; 8]);
    let mut conn = connection();
    conn.receive_bytes(&first.encode());
    conn.receive_bytes(&second.encode());
    assert_eq!(conn.next_message(), Ok(Some(first)));
    assert_eq!(conn.next_message(), Ok(Some(second)));
}

#[test]
fn broken_messages_are_refused() {
    let mut bytes = NetworkMessage::new(REGTEST_MAGIC, "ping", vec![1; 8]).encode();
    bytes[30] ^= 1;
    let mut conn = connection();
    conn.receive_bytes(&bytes);
    assert_eq!(conn.next_message(), Err(ConnectionError::Decode(DecodeError::InvalidData)));

    let mut large = NetworkMessage::new(REGTEST_MAGIC, "ping", vec![]).encode();
    large[16..20].copy_from_slice(&u32::MAX.to_le_bytes());
    let mut conn = connection();
    conn.receive_bytes(&large);
    assert_eq!(conn.next_message(), Err(ConnectionError::TooLarge));
}
