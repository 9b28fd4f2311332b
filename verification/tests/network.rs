use ferrous_node::dashboard::stats::{BlockInfo, MiningEvent, MiningStats};
use ferrous_node::network::address::{IpAddr, SocketAddr};
use ferrous_node::network::batch::{BroadcastCache, MessageBatcher};
use ferrous_node::network::dos::DosProtection;
use ferrous_node::network::keepalive::{KeepaliveAction, KeepaliveManager};
use ferrous_node::network::message::REGTEST_MAGIC;
use ferrous_node::network::peer::{Peer, PeerError, PeerState};
use ferrous_node::network::protocol::{
    GetDataMessage, InvMessage, InvVector, MessagePayload, INV_BLOCK,
};
use ferrous_node::network::security::{NetGroup, NetworkSecurity};
use ferrous_node::network::stats::NetworkStats;
use ferrous_node::network::validation::{MessageValidator, ValidationError};
use ferrous_node::network::protocol::PingMessage;

const SECOND: u64 = 1_000_000_000;

fn ip(a: u8, b: u8, c: u8, d: u8) -> IpAddr {
    IpAddr::V4([a, b, c, d])
}

#[test]
fn connections_are_limited() {
    let mut dos = DosProtection::new();
    let home = ip(1, 2, 3, 4);
    for n in 0..3 {
        assert!(dos.can_accept_inbound(home, n * SECOND));
        dos.record_connection(n, home, true, n * SECOND);
    }
    // Three connections from one address are enough
    assert!(!dos.can_accept_inbound(home, 4 * SECOND));
    assert_eq!(dos.get_connection_counts(), (3, 3, 0));
    dos.record_disconnection(0, home, true);
    assert!(dos.can_accept_inbound(home, 5 * SECOND));
    // An address that failed waits for five minutes
    let other = ip(9, 9, 9, 9);
    dos.record_failed_attempt(other, 0);
    assert!(!dos.can_connect_outbound(other, 299 * SECOND));
    assert!(dos.can_connect_outbound(other, 300 * SECOND));
    // Memory is limited for each peer
    assert!(dos.can_allocate(1, 10_485_760));
    assert!(!dos.can_allocate(1, 10_485_761));
    dos.allocate(1, 1);
    assert!(!dos.can_allocate(1, 10_485_760));
}

#[test]
fn peers_come_from_many_networks() {
    assert_eq!(NetGroup::from_ip(ip(11, 1, 2, 3)), NetGroup::Ipv4Subnet16(0x0b01));
    assert_eq!(NetGroup::from_ip(ip(10, 1, 2, 3)), NetGroup::Local);
    assert_eq!(NetGroup::from_ip(ip(127, 0, 0, 1)), NetGroup::Local);
    let mut security = NetworkSecurity::new(0);
    for n in 0..3 {
        assert!(security.can_accept_for_diversity(ip(5, 6, n, 1), 20));
        security.record_peer(n as u64, ip(5, 6, n, 1), 0);
    }
    assert!(!security.can_accept_for_diversity(ip(5, 6, 9, 1), 20));
    // No network makes up more than three tenths of the peers
    assert!(security.can_accept_for_diversity(ip(7, 6, 9, 1), 3));
    assert!(!security.can_accept_for_diversity(ip(7, 6, 9, 1), 2));
    assert_eq!(security.get_diversity_stats(), (1, 3, 3));
    security.add_anchor(0);
    assert!(security.is_anchor(0));
    assert_eq!(security.select_eviction_candidate(), Some(1));
    security.remove_peer(1);
    assert_eq!(security.select_eviction_candidate(), Some(2));
    assert!(security.should_create_feeler(120 * SECOND));
    security.add_feeler(7, 120 * SECOND);
    assert!(security.is_feeler(7));
    assert!(!security.should_create_feeler(121 * SECOND));
}

#[test]
fn surrounding_is_noticed() {
    let mut security = NetworkSecurity::new(0);
    for n in 0..20 {
        security.record_peer(n, ip(5, 6, n as u8, 1), SECOND);
    }
    assert!(security.detect_eclipse_attempt(2 * SECOND));
    let mut mixed = NetworkSecurity::new(0);
    for n in 0..20 {
        mixed.record_peer(n, ip(n as u8 + 1, 6, 1, 1), SECOND);
    }
    assert!(!mixed.detect_eclipse_attempt(2 * SECOND));
}

#[test]
fn batches_wait_a_little() {
    let mut batcher = MessageBatcher::new(REGTEST_MAGIC);
    let item = InvVector { inv_type: INV_BLOCK, hash: [1; 32] };
    batcher.add_inv(4, item, 0);
    batcher.add_getdata(4, item, 50);
    assert!(!batcher.should_flush(4, 99_999_999));
    assert!(batcher.flush_all_needed(99_999_999).is_empty());
    let batches = batcher.flush_all_needed(100_000_000);
    assert_eq!(batches.len(), 1);
    assert_eq!(batches[0].0, 4);
    assert_eq!(
        batches[0].1[0].parse_payload(),
        Ok(MessagePayload::Inv(InvMessage { inventory: vec![item] }))
    );
    assert_eq!(
        batches[0].1[1].parse_payload(),
        Ok(MessagePayload::GetData(GetDataMessage { inventory: vec![item] }))
    );
    assert!(batcher.flush(4).is_empty());
    batcher.add_inv(5, item, 0);
    batcher.clear_peer(5);
    assert!(batcher.flush(5).is_empty());
}

#[test]
fn full_batches_go_at_once() {
    let mut batcher = MessageBatcher::new(REGTEST_MAGIC);
    for n in 0..1000u32 {
        let mut hash = [0; 32];
        hash[..4].copy_from_slice(&n.to_le_bytes());
        batcher.add_inv(1, InvVector { inv_type: INV_BLOCK, hash }, 0);
    }
    assert!(batcher.should_flush(1, 0));
}

#[test]
fn cache_remembers_so_much() {
    let mut cache = BroadcastCache::new(2);
    for n in 0..3 {
        cache.mark_sent(1, [n; 32]);
    }
    assert!(!cache.already_sent(1, &[0; 32]));
    assert!(cache.already_sent(1, &[2; 32]));
    assert!(!cache.already_sent(2, &[2; 32]));
    cache.clear_peer(1);
    assert!(!cache.already_sent(1, &[2; 32]));
}

#[test]
fn peers_answer_or_go() {
    let mut keepalive = KeepaliveManager::new();
    assert_eq!(keepalive.ping_due(1, 10, 0), KeepaliveAction::Ping(10));
    assert!(!keepalive.handle_pong(1, 11, 1));
    assert!(keepalive.handle_pong(1, 10, 1));
    for nonce in 20..23 {
        assert_eq!(keepalive.ping_due(1, nonce, 2), KeepaliveAction::Ping(nonce));
    }
    assert_eq!(keepalive.ping_due(1, 23, 3), KeepaliveAction::Disconnect);
    // Numbers are drawn
    let mut drawn = Vec::new();
    for peer in 100..110 {
        match keepalive.next_ping(peer, 0) {
            KeepaliveAction::Ping(n) => drawn.push(n),
            KeepaliveAction::Disconnect => panic!("a new peer"),
        }
    }
    drawn.sort();
    drawn.dedup();
    assert!(drawn.len() > 1);
}

#[test]
fn peers_go_through_their_states() {
    let addr = SocketAddr { ip: ip(1, 2, 3, 4), port: 5 };
    let mut peer = Peer::new(3, addr, 7);
    assert_eq!(peer.get_state(), PeerState::Connecting);
    assert_eq!(peer.handle_verack(), Err(PeerError::UnexpectedVerack));
    peer.record_received(20_000_000);
    assert!(peer.exceeds_bandwidth(7 + SECOND));
    assert!(!peer.exceeds_bandwidth(7 + 2 * SECOND));
    peer.add_ban_score(60);
    assert!(!peer.should_ban());
    peer.add_ban_score(u32::MAX);
    assert_eq!(peer.get_ban_score(), u32::MAX);
    assert!(peer.should_ban());
    for _ in 0..50 {
        assert!(peer.check_inv_rate(8));
        assert!(peer.check_getdata_rate(8));
    }
    assert!(!peer.check_inv_rate(8));
    assert!(!peer.check_getdata_rate(8));
}

#[test]
fn contents_are_checked() {
    let ping = |nonce| MessagePayload::Ping(PingMessage { nonce });
    assert_eq!(MessageValidator::validate_payload(&ping(1)), Ok(()));
    assert_eq!(
        MessageValidator::validate_payload(&ping(0)),
        Err(ValidationError::InvalidNonce)
    );
    let item = InvVector { inv_type: INV_BLOCK, hash: [0; 32] };
    let long = MessagePayload::Inv(InvMessage { inventory: vec![item; 50_001] });
    assert_eq!(
        MessageValidator::validate_payload(&long),
        Err(ValidationError::TooManyItems)
    );
    assert_eq!(MessageValidator::validate_tx_size(1_048_576), Ok(()));
    assert_eq!(
        MessageValidator::validate_tx_size(1_048_577),
        Err(ValidationError::MessageTooLarge)
    );
    assert_eq!(
        MessageValidator::validate_block_size(33_554_433),
        Err(ValidationError::MessageTooLarge)
    );
}

#[test]
fn statistics_count() {
    let mut stats = NetworkStats::new(5);
    stats.record_connection_accepted();
    stats.record_connection_initiated();
    stats.record_connection_closed();
    stats.record_message_sent(10);
    stats.record_message_received(20);
    stats.record_block_received();
    stats.record_banned_peer();
    let told = stats.get_snapshot(5 + 3 * SECOND);
    assert_eq!(told.uptime_secs, 3);
    assert_eq!(told.current_connections, 1);
    assert_eq!(told.bytes_sent, 10);
    assert_eq!(told.bytes_received, 20);
    assert_eq!(told.blocks_received, 1);
    assert_eq!(told.banned_peers, 1);
}

#[test]
fn mined_blocks_are_remembered() {
    let mut stats = MiningStats::new("regtest".to_string(), 4);
    for n in 0..7 {
        let event = MiningEvent {
            height: n,
            nonce: 1,
            worker_id: 2,
            hash: format!("h{}", n),
            hashes_tried: 100,
            elapsed: 50,
        };
        stats.add_block(BlockInfo::from_event(event, n as u64));
    }
    assert_eq!(stats.blocks_mined, 7);
    assert_eq!(stats.current_hash, "h6");
    let heights: Vec<u32> = stats.recent_blocks.iter().map(|b| b.height).collect();
    assert_eq!(heights, vec![6, 5, 4, 3, 2]);
    assert_eq!(stats.uptime(10), 6);
    assert_eq!(stats.effort, (100, 50));
}

#[test]
fn joint_flush_is_each_for_itself() {
    let item = InvVector { inv_type: INV_BLOCK, hash: [1; 32] };
    let fill = || {
        let mut batcher = MessageBatcher::new(REGTEST_MAGIC);
        batcher.add_inv(9, item, 0);
        batcher.add_getdata(3, item, 0);
        batcher.add_inv(5, item, 60_000_000);
        batcher
    };
    let mut joint = fill();
    let out = joint.flush_all_needed(110_000_000);
    assert_eq!(out.iter().map(|(peer, _)| *peer).collect::<Vec<u64>>(), vec![3, 9]);
    let mut alone = fill();
    for (peer, messages) in &out {
        assert!(*messages == alone.flush(*peer));
        assert!(joint.flush(*peer).is_empty());
    }
    // What was not due still waits.
    assert!(joint.flush(5) == alone.flush(5));
}
