use ferrous_node::network::address::{IpAddr, SocketAddr};
use ferrous_node::network::handshake::{
    perform_handshake, perform_inbound_handshake, Handshake, HandshakeError, Phase,
    HANDSHAKE_TIMEOUT,
};
use ferrous_node::network::message::{NetworkMessage, REGTEST_MAGIC};
use ferrous_node::network::outgoing::frame;
use ferrous_node::network::peer::{Peer, PeerError, PeerState};
use ferrous_node::network::protocol::{MessagePayload, PingMessage, VerackMessage};

const PROTOCOL_VERSION: u32 = 70015;

fn create_test_peer_pair() -> (Peer, Peer) {
    let addr = SocketAddr { ip: IpAddr::V4([127, 0, 0, 1]), port: 1 };
    (Peer::new_inbound(1, addr, 0), Peer::new_inbound(2, addr, 0))
}

fn framed(payload: &MessagePayload) -> NetworkMessage {
    frame(REGTEST_MAGIC, payload)
}

fn deliver(
    handshake: &mut Handshake,
    peer: &mut Peer,
    inbox: Vec<MessagePayload>,
) -> Result<Vec<MessagePayload>, HandshakeError> {
    let mut answers = Vec::new();
    for payload in inbox {
        let reply = handshake.on_message(peer, &framed(&payload), 100);
        answers.extend(reply.sends);
        reply.result?;
    }
    Ok(answers)
}

#[test]
fn test_handshake_success() {
    let (mut client, mut server) = create_test_peer_pair();

    let (mut ours, hello) = perform_handshake(&mut client, PROTOCOL_VERSION, 0, 0, 12345, 100, 0);
    let (mut theirs, answer) =
        perform_handshake(&mut server, PROTOCOL_VERSION, 0, 0, 67890, 100, 0);

    let from_client = deliver(&mut ours, &mut client, vec![answer]).unwrap();
    let from_server = deliver(&mut theirs, &mut server, vec![hello]).unwrap();
    assert!(deliver(&mut ours, &mut client, from_server).is_ok());
    assert!(deliver(&mut theirs, &mut server, from_client).is_ok());
    assert_eq!(ours.phase, Phase::Done);
    assert_eq!(theirs.phase, Phase::Done);
    assert!(client.is_active());
    assert!(server.is_active());
}

#[test]
fn test_self_connection() {
    let (mut client, mut server) = create_test_peer_pair();

    let nonce = 12345;

    let (mut ours, hello) = perform_handshake(&mut client, PROTOCOL_VERSION, 0, 0, nonce, 100, 0);
    let (mut theirs, answer) =
        perform_handshake(&mut server, PROTOCOL_VERSION, 0, 0, nonce, 100, 0);

    let res1 = deliver(&mut ours, &mut client, vec![answer]);
    let res2 = deliver(&mut theirs, &mut server, vec![hello]);

    // One or both should detect self-connection
    assert!(res1.is_err() || res2.is_err());
    if let Err(e) = res1 {
        assert_eq!(e, HandshakeError::ConnectedToSelf);
    }
}

#[test]
fn inbound_handshake_answers_with_a_version() {
    let (mut caller, mut callee) = create_test_peer_pair();
    let (mut ours, hello) = perform_handshake(&mut caller, PROTOCOL_VERSION, 0, 7, 1, 100, 0);
    let mut theirs = perform_inbound_handshake(PROTOCOL_VERSION, 0, 9, 2, 0);

    let answers = deliver(&mut theirs, &mut callee, vec![hello]).unwrap();
    assert_eq!(answers.len(), 2);
    let back = deliver(&mut ours, &mut caller, answers).unwrap();
    assert!(deliver(&mut theirs, &mut callee, back).is_ok());
    assert_eq!(ours.phase, Phase::Done);
    assert_eq!(theirs.phase, Phase::Done);
    // Each side knows the height that the other told
    assert_eq!(callee.get_start_height(), 7);
    assert_eq!(caller.get_start_height(), 9);
    assert_eq!(caller.get_state(), PeerState::Active);
}

#[test]
fn other_messages_are_not_expected() {
    let (mut client, _) = create_test_peer_pair();
    let (mut ours, _) = perform_handshake(&mut client, PROTOCOL_VERSION, 0, 0, 1, 100, 0);
    let ping = MessagePayload::Ping(PingMessage { nonce: 1 });
    assert_eq!(
        ours.on_message(&mut client, &framed(&ping), 100).result,
        Err(HandshakeError::ExpectedVersion)
    );
    let verack = MessagePayload::Verack(VerackMessage);
    assert_eq!(
        ours.on_message(&mut client, &framed(&verack), 100).result,
        Err(HandshakeError::ExpectedVersion)
    );
}

#[test]
fn old_versions_are_refused() {
    let (mut client, mut server) = create_test_peer_pair();
    let (_, hello) = perform_handshake(&mut client, 60000, 0, 0, 1, 100, 0);
    let (mut theirs, _) = perform_handshake(&mut server, PROTOCOL_VERSION, 0, 0, 2, 100, 0);
    assert_eq!(
        deliver(&mut theirs, &mut server, vec![hello]),
        Err(HandshakeError::Peer(PeerError::VersionTooLow))
    );
}

#[test]
fn old_callers_are_told_our_version_before_they_are_refused() {
    let (mut caller, mut callee) = create_test_peer_pair();
    let (_, hello) = perform_handshake(&mut caller, 70000, 0, 0, 1, 100, 0);
    let mut theirs = perform_inbound_handshake(PROTOCOL_VERSION, 0, 9, 2, 0);
    let reply = theirs.on_message(&mut callee, &framed(&hello), 100);
    assert_eq!(reply.result, Err(HandshakeError::Peer(PeerError::VersionTooLow)));
    assert_eq!(reply.sends.len(), 1);
    let MessagePayload::Version(told) = &reply.sends[0] else { panic!("version") };
    assert_eq!((told.version, told.start_height, told.nonce), (PROTOCOL_VERSION, 9, 2));
    assert_eq!(callee.get_state(), PeerState::VersionSent);
    assert_eq!(theirs.phase, Phase::AwaitVersion);
    // To itself a node tells nothing.
    let (_, own) = perform_handshake(&mut caller, PROTOCOL_VERSION, 0, 0, 2, 100, 0);
    let reply = theirs.on_message(&mut callee, &framed(&own), 100);
    assert_eq!(reply.result, Err(HandshakeError::ConnectedToSelf));
    assert!(reply.sends.is_empty());
}

#[test]
fn version_that_cannot_be_read_is_refused() {
    let (mut client, _) = create_test_peer_pair();
    let (mut ours, _) = perform_handshake(&mut client, PROTOCOL_VERSION, 0, 0, 1, 100, 0);
    let broken = NetworkMessage::new(REGTEST_MAGIC, "version", vec![1, 2]);
    assert!(matches!(
        ours.on_message(&mut client, &broken, 100).result,
        Err(HandshakeError::BadVersion(_))
    ));
}

#[test]
fn handshake_runs_out_of_time() {
    let (mut client, _) = create_test_peer_pair();
    let (ours, _) = perform_handshake(&mut client, PROTOCOL_VERSION, 0, 0, 1, 100, 5);
    assert!(ours.check_time(5).is_ok());
    assert!(ours.check_time(5 + 2 * HANDSHAKE_TIMEOUT).is_err());
}
