use ferrous_node::network::address::{IpAddr, SocketAddr};
use ferrous_node::network::addrman::AddressManager;

fn local(port: u16) -> SocketAddr {
    SocketAddr { ip: IpAddr::V4([127, 0, 0, 1]), port }
}

#[test]
fn test_add_address() {
    let mut addrman = AddressManager::new(10);
    let addr = local(8333);

    addrman.add_address(addr, 1, 100);
    assert_eq!(addrman.size(), 1);

    // Update timestamp
    addrman.add_address(addr, 1, 200);
    assert_eq!(addrman.size(), 1);
    let all = addrman.get_all_addresses();
    assert_eq!(all[0].timestamp, 200);
}

#[test]
fn test_get_random_addresses() {
    let mut addrman = AddressManager::new(10);
    for i in 0..5 {
        addrman.add_address(local(8333 + i), 1, 100);
    }

    let random = addrman.get_random_addresses(3);
    assert_eq!(random.len(), 3);
}

#[test]
fn test_mark_success_failure() {
    let mut addrman = AddressManager::new(10);
    let addr = local(8333);
    addrman.add_address(addr, 1, 100);

    addrman.mark_tried(&addr);
    addrman.mark_success(&addr);
    assert_eq!(addrman.get_best_addresses(1).len(), 1);
}

#[test]
fn test_cleanup_old() {
    let mut addrman = AddressManager::new(10);
    let addr = local(8333);
    // Very old timestamp
    addrman.add_address(addr, 1, 100);

    addrman.cleanup_old(1); // Should remove it (now >> 100 + 1 day)
    assert_eq!(addrman.size(), 0);
}

#[test]
fn random_addresses_are_some_of_those_known() {
    let mut addrman = AddressManager::new(100);
    for i in 0..50 {
        addrman.add_address(local(1000 + i), 1, 100);
    }
    let mut ports: Vec<u16> = addrman.get_random_addresses(50).iter().map(|a| a.port).collect();
    let drawn = ports.clone();
    ports.sort();
    let all: Vec<u16> = (1000..1050).collect();
    assert_eq!(ports, all);
    // Fifty addresses come out in their first order about never
    assert_ne!(drawn, all);
}

#[test]
fn full_list_makes_room() {
    let mut addrman = AddressManager::new(2);
    addrman.add_address(local(1), 1, 10);
    addrman.add_address(local(2), 1, 20);
    addrman.add_address(local(3), 1, 30);
    assert_eq!(addrman.size(), 2);
}

#[test]
fn best_addresses_were_reached() {
    let mut addrman = AddressManager::new(10);
    addrman.add_address(local(1), 1, 10);
    addrman.add_address(local(2), 1, 20);
    addrman.mark_success_at(&local(2), 50);
    let best = addrman.get_best_addresses(5);
    assert_eq!(best.len(), 1);
    assert_eq!(best[0].port, 2);
}
