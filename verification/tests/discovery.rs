use ferrous_node::consensus::params::Network;
use ferrous_node::network::address::{IpAddr, SocketAddr};
use ferrous_node::network::addrman::AddressManager;
use ferrous_node::network::discovery::{
    get_seed_nodes, network_addr_to_socket_addr, PeerDiscovery,
};
use ferrous_node::network::protocol::{AddrMessage, MessagePayload, NetworkAddr};

#[test]
fn test_network_addr_conversion() {
    let ip: [u8; 16] = [0, 0, 0, 0, 0, 0, 0, 0, 0, 0, 0xFF, 0xFF, 127, 0, 0, 1]; // ::ffff:127.0.0.1
    let net_addr = NetworkAddr { timestamp: 0, services: 1, ip, port: 8333 };

    let socket_addr = network_addr_to_socket_addr(&net_addr).unwrap();
    assert_eq!(socket_addr.ip, IpAddr::V4([127, 0, 0, 1]));
    assert_eq!(socket_addr.port, 8333);
}

#[test]
fn other_addresses_stay_long() {
    let net_addr = NetworkAddr { timestamp: 0, services: 1, ip: [7; 16], port: 1 };
    let addr = network_addr_to_socket_addr(&net_addr).unwrap();
    assert_eq!(addr.ip, IpAddr::V6([7; 16]));
}

#[test]
fn addresses_that_were_told_are_told_on() {
    let mut manager = AddressManager::new(10);
    assert!(PeerDiscovery::handle_getaddr(&manager, 3).is_none());
    let ip: [u8; 16] = [0, 0, 0, 0, 0, 0, 0, 0, 0, 0, 0xFF, 0xFF, 10, 0, 0, 1];
    let told = NetworkAddr { timestamp: 9, services: 1, ip, port: 8333 };
    PeerDiscovery::handle_addr(&mut manager, &AddrMessage { addresses: vec![told] });
    assert_eq!(manager.size(), 1);
    let answer = PeerDiscovery::handle_getaddr(&manager, 3).unwrap();
    assert_eq!(answer.peer_id, 3);
    assert_eq!(
        answer.payload,
        MessagePayload::Addr(AddrMessage { addresses: vec![told] })
    );
}

#[test]
fn missing_connections_are_counted() {
    let discovery = PeerDiscovery::new(8);
    assert_eq!(discovery.connections_needed(3), 5);
    assert_eq!(discovery.connections_needed(9), 0);
}

#[test]
fn local_network_has_one_seed() {
    let seeds = get_seed_nodes(Network::Regtest);
    assert_eq!(seeds.len(), 1);
    assert_eq!(seeds[0], SocketAddr { ip: IpAddr::V4([127, 0, 0, 1]), port: seeds[0].port });
}
