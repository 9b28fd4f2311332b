use ferrous_node::consensus::chain::ChainState;
use ferrous_node::consensus::params::Network;
use ferrous_node::network::address::{IpAddr, SocketAddr};
use ferrous_node::network::addrman::AddressManager;
use ferrous_node::network::diagnostics::{ConnectionSummary, NetworkDiagnostics};
use ferrous_node::network::inspect::{open_block, trusted, Verdict};
use ferrous_node::network::keepalive::KeepaliveManager;
use ferrous_node::network::listener::NetworkListener;
use ferrous_node::network::manager::{PeerManager, Pick, PeerNotFound, Refusal};
use ferrous_node::network::mempool::NetworkMempool;
use ferrous_node::network::message::{NetworkMessage, MAINNET_MAGIC, REGTEST_MAGIC};
use ferrous_node::network::outgoing::frame;
use ferrous_node::network::peer::INACTIVITY_TIMEOUT;
use ferrous_node::network::protocol::{
    AddrMessage, GetAddrMessage, InvMessage, InvVector, MessagePayload, NetworkAddr, PingMessage,
    PongMessage, INV_BLOCK,
};
use ferrous_node::network::recovery::{RecoveryManager, Stage, RECOVERY_INTERVAL};
use ferrous_node::network::stats::NetworkStats;
use ferrous_node::network::sync::SyncManager;

fn at(n: u8) -> SocketAddr {
    SocketAddr { ip: IpAddr::V4([10, n, 0, 1]), port: 8333 }
}

fn with_peers(count: u8) -> PeerManager {
    let mut manager = PeerManager::new(REGTEST_MAGIC, 10, 70015, 0, 0, 0);
    for n in 0..count {
        let peer = manager.begin_outbound(at(n), 0).unwrap();
        manager.complete(peer, 0);
    }
    manager
}

#[test]
fn test_peer_manager_lifecycle() {
    let manager = PeerManager::new(REGTEST_MAGIC, 10, 70015, 0, 0, 0);

    // A listener for the manager
    let mut listener = NetworkListener::new(at(0), manager.magic(), 10);
    assert!(listener.take_slot());
    listener.release();

    assert_eq!(manager.get_peer_count(), 0);
}

#[test]
fn test_peer_limits() {
    let mut manager = PeerManager::new(REGTEST_MAGIC, 1, 70015, 0, 0, 0);
    assert!(manager.check_outbound(at(1), 0).is_ok());
    let peer = manager.begin_outbound(at(1), 0).unwrap();
    manager.complete(peer, 0);
    assert_eq!(manager.check_outbound(at(2), 0), Err(Refusal::MaxPeersReached));
    assert_eq!(manager.accept_inbound(at(2), 0).err(), Some(Refusal::MaxPeersReached));
}

#[test]
fn listener_serves_so_many_and_no_more() {
    let mut listener = NetworkListener::new(at(0), REGTEST_MAGIC, 2);
    assert!(listener.take_slot());
    assert!(listener.take_slot());
    assert!(!listener.take_slot());
    listener.release();
    assert!(listener.take_slot());
}

#[test]
fn one_connection_per_address() {
    let mut manager = with_peers(1);
    assert_eq!(manager.check_outbound(at(0), 0), Err(Refusal::AlreadyConnected));
    assert_eq!(manager.accept_inbound(at(0), 0).err(), Some(Refusal::AlreadyConnected));
    assert!(manager.accept_inbound(at(7), 0).is_ok());
}

#[test]
fn failed_addresses_cool_down() {
    let mut manager = with_peers(0);
    manager.outbound_failed(at(3), 0);
    assert_eq!(manager.check_outbound(at(3), 1), Err(Refusal::DosProtection));
    assert_eq!(manager.accept_inbound(at(3), 1).err(), Some(Refusal::DosProtection));
    manager.clear_failed_attempt(at(3).ip);
    assert!(manager.check_outbound(at(3), 1).is_ok());
}

#[test]
fn one_part_of_the_network_does_not_take_all_slots() {
    let mut manager = PeerManager::new(MAINNET_MAGIC, 100, 70015, 0, 0, 0);
    for n in 0..3 {
        let near = SocketAddr { ip: IpAddr::V4([10, 1, n, 1]), port: 1 };
        let peer = manager.begin_outbound(near, 0).unwrap();
        manager.complete(peer, 0);
    }
    let near = SocketAddr { ip: IpAddr::V4([10, 1, 9, 1]), port: 1 };
    assert_eq!(manager.accept_inbound(near, 0).err(), Some(Refusal::Diversity));
    // Those that are trusted come in all the same
    assert!(trusted(&IpAddr::V4([45, 77, 64, 221])));
    assert!(!trusted(&near.ip));
}

#[test]
fn peers_are_told_of_and_removed() {
    let mut manager = with_peers(3);
    let mut sync = SyncManager::new(0);
    assert_eq!(manager.get_connected_peers(), vec![0, 1, 2]);
    assert_eq!(manager.get_peer_count(), 3);
    assert_eq!(manager.outbound_peer_count(), 3);
    let info = manager.get_peer(1).unwrap();
    assert_eq!(info.id, 1);
    assert_eq!(info.addr, at(1));
    assert!(!info.inbound);
    manager.update_peer_height(1, 40);
    manager.update_peer_height(1, 30);
    assert_eq!(manager.get_peer_start_height(1), Some(40));
    assert!(manager.disconnect_peer(1, &mut sync, 0).is_ok());
    assert!(matches!(manager.disconnect_peer(1, &mut sync, 0), Err(PeerNotFound)));
    assert_eq!(manager.get_peer_start_height(1), None);
    assert_eq!(manager.get_peer_addrs().len(), 2);
}

#[test]
fn silent_peers_are_dropped() {
    let mut manager = with_peers(2);
    let mut sync = SyncManager::new(0);
    manager.cleanup_inactive_peers(&mut sync, INACTIVITY_TIMEOUT);
    assert_eq!(manager.peer_total(), 2);
    assert_eq!(manager.pick(Pick::Dead, INACTIVITY_TIMEOUT + 1), vec![0, 1]);
    manager.maintain(&mut sync, INACTIVITY_TIMEOUT + 1);
    assert_eq!(manager.peer_total(), 0);
}

#[test]
fn peers_are_punished_until_they_go() {
    let mut manager = with_peers(1);
    let mut sync = SyncManager::new(0);
    manager.punish_peer(0, 99, &mut sync, 0);
    assert_eq!(manager.peer_total(), 1);
    manager.punish_peer(0, 1, &mut sync, 0);
    assert_eq!(manager.peer_total(), 0);
}

#[test]
fn messages_are_inspected() {
    let mut manager = with_peers(2);
    let mut sync = SyncManager::new(0);
    let mut stats = NetworkStats::new(0);

    let ping = frame(REGTEST_MAGIC, &MessagePayload::Ping(PingMessage { nonce: 5 }));
    let r = manager.handle_message(0, &ping, &mut sync, &mut stats, 0, 1);
    assert!(matches!(r.verdict, Verdict::Dispatch(MessagePayload::Ping(_))));
    assert_eq!(stats.messages_received, 1);
    assert_eq!(stats.bytes_received, 32);

    // A ping without a number breaks a rule, and five of them get a peer banned
    let bad = frame(REGTEST_MAGIC, &MessagePayload::Ping(PingMessage { nonce: 0 }));
    for _ in 0..4 {
        let r = manager.handle_message(0, &bad, &mut sync, &mut stats, 0, 1);
        assert!(matches!(r.verdict, Verdict::Drop));
    }
    let r = manager.handle_message(0, &bad, &mut sync, &mut stats, 0, 1);
    assert!(matches!(r.verdict, Verdict::Ban));
    assert!(!r.recover);
    assert_eq!(manager.get_connected_peers(), vec![1]);

    // A message that cannot be read is counted
    let odd = NetworkMessage::new(REGTEST_MAGIC, "odd", vec![]);
    let r = manager.handle_message(1, &odd, &mut sync, &mut stats, 0, 1);
    assert!(matches!(r.verdict, Verdict::Drop));
    assert_eq!(stats.invalid_messages, 1);

    // Blocks are queued, and read later
    let block = NetworkMessage::new(REGTEST_MAGIC, "block", vec![1]);
    let r = manager.handle_message(1, &block, &mut sync, &mut stats, 0, 1);
    assert!(matches!(r.verdict, Verdict::QueueBlock));
    assert!(open_block(&block, 0).is_none());

    let (_, none_left) = manager.connection_lost(1, &mut sync, &mut stats, 1);
    assert!(none_left);
}

#[test]
fn floods_get_a_peer_banned() {
    let mut manager = with_peers(1);
    let mut sync = SyncManager::new(0);
    let mut stats = NetworkStats::new(0);
    let ping = frame(REGTEST_MAGIC, &MessagePayload::Ping(PingMessage { nonce: 5 }));
    let mut bans = 0;
    for _ in 0..2000 {
        let r = manager.handle_message(0, &ping, &mut sync, &mut stats, 0, 1);
        if matches!(r.verdict, Verdict::Ban) {
            bans += 1;
            assert!(r.recover);
        }
    }
    assert_eq!(bans, 1);
    assert_eq!(stats.banned_peers, 1);
    assert_eq!(stats.rate_limited, 9);
}

#[test]
fn pings_are_answered() {
    let mut manager = with_peers(1);
    let chain = ChainState::new_in_memory(Network::Regtest.params()).unwrap();
    let mut sync = SyncManager::new(0);
    let mut mempool = NetworkMempool::new();
    let mut addresses = AddressManager::new(10);
    let mut keepalive = KeepaliveManager::new();
    let mut stats = NetworkStats::new(0);
    let r = manager.dispatch_message(
        0,
        MessagePayload::Ping(PingMessage { nonce: 5 }),
        &chain,
        &mut sync,
        &mut mempool,
        &mut addresses,
        &mut keepalive,
        &mut stats,
        1,
    );
    assert_eq!(r.sends.len(), 1);
    assert_eq!(r.sends[0].payload, MessagePayload::Pong(PongMessage { nonce: 5 }));
    assert_eq!(stats.bytes_sent, 32);
    assert_eq!(manager.peer(0).unwrap().get_bytes_sent(), 32);
}

#[test]
fn addresses_travel_from_peer_to_peer() {
    let mut manager = with_peers(2);
    let chain = ChainState::new_in_memory(Network::Regtest.params()).unwrap();
    let mut sync = SyncManager::new(0);
    let mut mempool = NetworkMempool::new();
    let mut addresses = AddressManager::new(10);
    let mut keepalive = KeepaliveManager::new();
    let mut stats = NetworkStats::new(0);
    let ip: [u8; 16] = [0, 0, 0, 0, 0, 0, 0, 0, 0, 0, 0xff, 0xff, 10, 7, 0, 1];
    let heard = NetworkAddr { timestamp: 9, services: 1, ip, port: 8333 };
    let news = MessagePayload::Addr(AddrMessage { addresses: vec![heard] });
    let mut answers = Vec::new();
    for (peer, payload) in [(0, &news), (1, &MessagePayload::GetAddr(GetAddrMessage))] {
        let message = frame(REGTEST_MAGIC, payload);
        let r = manager.handle_message(peer, &message, &mut sync, &mut stats, 0, 1);
        let Verdict::Dispatch(contents) = r.verdict else { panic!("dispatched") };
        assert_eq!(contents, *payload);
        let r = manager.dispatch_message(
            peer,
            contents,
            &chain,
            &mut sync,
            &mut mempool,
            &mut addresses,
            &mut keepalive,
            &mut stats,
            1,
        );
        answers.extend(r.sends);
    }
    assert_eq!(stats.invalid_messages, 0);
    assert_eq!(addresses.size(), 1);
    assert_eq!(answers.len(), 1);
    assert_eq!(answers[0].peer_id, 1);
    assert_eq!(frame(REGTEST_MAGIC, &answers[0].payload).parse_payload(), Ok(news));
}

#[test]
fn inventory_is_told_once_to_each_peer() {
    let mut manager = with_peers(2);
    let item = InvVector { inv_type: INV_BLOCK, hash: [3; 32] };
    manager.broadcast_inventory(item, 0);
    manager.broadcast_inventory(item, 0);
    let batches = manager.flush_batches(200_000_000);
    assert_eq!(batches.len(), 2);
    for (_, messages) in &batches {
        assert_eq!(messages.len(), 1);
        assert_eq!(
            messages[0].parse_payload(),
            Ok(MessagePayload::Inv(InvMessage { inventory: vec![item] }))
        );
    }
    manager.broadcast_inventory(item, 300_000_000);
    assert!(manager.flush_batches(900_000_000).is_empty());
}

#[test]
fn recovery_escalates() {
    let mut addresses = AddressManager::new(10);
    let mut recovery = RecoveryManager::new(vec![at(1)], &mut addresses, 50);
    assert_eq!(addresses.size(), 1);
    assert!(!recovery.check_partition(0, 30, false));
    assert!(recovery.check_partition(0, 31, false));
    assert!(recovery.check_partition(5, 1801, false));
    assert!(!recovery.check_partition(5, 1801, true));
    recovery.note_peer_count(4);
    assert!(recovery.check_partition(0, 0, false));

    let stages = [
        Stage::KnownPeers,
        Stage::Seeds,
        Stage::Aggressive,
        Stage::Aggressive,
        Stage::Aggressive,
        Stage::FullReset,
        Stage::FullReset,
    ];
    for (n, stage) in stages.iter().enumerate() {
        let now = n as u64 * RECOVERY_INTERVAL;
        assert_eq!(recovery.watch(0, 100, false, now), Some(*stage));
        assert_eq!(recovery.watch(0, 100, false, now + 1), None);
    }
    assert!(recovery.is_partitioned());
    assert_eq!(recovery.get_attempts(), 7);
    assert_eq!(recovery.watch(2, 0, false, u64::MAX), None);
    assert!(!recovery.is_partitioned());
    assert_eq!(recovery.get_attempts(), 0);
}

#[test]
fn full_reset_keeps_only_the_seeds() {
    let mut manager = with_peers(3);
    let mut sync = SyncManager::new(0);
    let mut addresses = AddressManager::new(10);
    let recovery = RecoveryManager::new(vec![at(1)], &mut addresses, 50);
    addresses.add_address(at(8), 1, 60);
    manager.outbound_failed(at(1), 0);
    let (_, connect) =
        recovery.full_network_reset(&mut manager, &mut sync, &mut addresses, 70, 1);
    assert_eq!(connect, vec![at(1)]);
    assert_eq!(manager.peer_total(), 0);
    assert_eq!(addresses.size(), 1);
    assert!(manager.check_outbound(at(1), 1).is_ok());
    assert_eq!(recovery.reconnect_to_seeds(), vec![at(1)]);
    assert!(RecoveryManager::reconnect_to_known_peers(&addresses).is_empty());
    let (_, found) =
        RecoveryManager::aggressive_reconnect(&mut manager, &mut sync, &addresses, 1);
    assert_eq!(found, vec![at(1)]);
}

#[test]
fn health_is_scored() {
    let summary = NetworkDiagnostics::get_connection_summary(&with_peers(3));
    assert_eq!(
        summary,
        ConnectionSummary {
            total_peers: 3,
            inbound_peers: 0,
            outbound_peers: 3,
            active_peers: 3,
        }
    );
    assert_eq!(NetworkDiagnostics::get_health_score(&summary, false), 90);
    assert_eq!(NetworkDiagnostics::get_health_score(&summary, true), 75);
    let alone = NetworkDiagnostics::get_connection_summary(&with_peers(0));
    assert_eq!(NetworkDiagnostics::get_health_score(&alone, true), 30);
}

#[test]
fn peers_are_described_in_order() {
    let manager = with_peers(3);
    let info = NetworkDiagnostics::get_peer_info(&manager, 5_000);
    assert_eq!(info.len(), 3);
    for (n, peer) in info.iter().enumerate() {
        assert_eq!(Some(peer.peer_id), manager.get_connected_peers().get(n).copied());
        assert!(peer.address == at(n as u8));
        assert!(!peer.inbound);
        assert_eq!(peer.connected_duration, 5_000);
        assert_eq!(peer.last_message, 5_000);
        assert_eq!(peer.measured, 5_000);
        assert_eq!(peer.ban_score, 0);
        assert_eq!(peer.bytes_received, 0);
    }
}
