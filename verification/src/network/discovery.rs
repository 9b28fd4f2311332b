//! Finds peers to connect to.

use crate::consensus::params::Network;
use crate::network::addrman::{heard_of, told, AddressManager, AddressView};
use crate::network::address::{is_mapped, IpAddr, IpAddrView, SocketAddr, SocketAddrView};
use crate::network::outgoing::{Outgoing, OutgoingView};
use crate::network::protocol::{
    AddrMessage, MessagePayload, NetworkAddr, NetworkAddrView, PayloadView,
};
use crate::primitives::serialize::views;
use vstd::prelude::*;

verus! {

/// Most addresses that are told at once.
pub const MAX_ADDRS_TOLD: usize = 1000;

/// The address that sixteen bytes and a port stand for.
pub open spec fn socket_addr_of(a: NetworkAddrView) -> SocketAddrView {
    SocketAddrView {
        ip: if is_mapped(a.ip) {
            IpAddrView::V4(a.ip.subrange(12, 16))
        } else {
            IpAddrView::V6(a.ip)
        },
        port: a.port,
    }
}

/// The addresses after the first `n` of a list were heard of.
pub open spec fn heard_all(
    list: Seq<AddressView>,
    max: usize,
    news: Seq<NetworkAddrView>,
    n: nat,
) -> Seq<AddressView>
    decreases n,
{
    if n == 0 {
        list
    } else {
        let a = news[n - 1];
        heard_of(
            heard_all(list, max, news, (n - 1) as nat),
            max,
            socket_addr_of(a),
            a.services,
            a.timestamp,
        )
    }
}

/// How many addresses are told.
pub open spec fn told_count(n: nat) -> nat {
    if n > MAX_ADDRS_TOLD {
        MAX_ADDRS_TOLD as nat
    } else {
        n
    }
}

/// Sixteen bytes and a port as an address. A mapped IPv4 address becomes an IPv4
/// address.
pub fn network_addr_to_socket_addr(net_addr: &NetworkAddr) -> (r: Option<SocketAddr>)
    ensures
        r matches Some(a) && a@ == socket_addr_of(net_addr@),
{
    let o = net_addr.ip;
    let mapped: bool = o[0] == 0 && o[1] == 0 && o[2] == 0 && o[3] == 0 && o[4] == 0 && o[5] == 0
        && o[6] == 0 && o[7] == 0 && o[8] == 0 && o[9] == 0 && o[10] == 0xff && o[11] == 0xff;
    let ip = if mapped {
        let v4: [u8; 4] = [o[12], o[13], o[14], o[15]];
        assert(v4@ =~= o@.subrange(12, 16));
        IpAddr::V4(v4)
    } else {
        IpAddr::V6(o)
    };
    Some(SocketAddr { ip, port: net_addr.port })
}

/// The nodes that a network starts from.
pub fn get_seed_nodes(network: Network) -> (r: Vec<SocketAddr>)
    ensures
        network is Regtest ==> r@.len() == 1 && r@[0]@ == (SocketAddrView {
            ip: IpAddrView::V4(seq![127u8, 0, 0, 1]),
            port: 18444,
        }),
        !(network is Regtest) ==> r@.len() == 0,
{
    let mut r: Vec<SocketAddr> = Vec::new();
    match network {
        Network::Regtest => {
            let local: [u8; 4] = [127, 0, 0, 1];
            assert(local@ =~= seq![127u8, 0, 0, 1]);
            r.push(SocketAddr { ip: IpAddr::V4(local), port: 18444 });
        },
        _ => {},
    }
    r
}

/// Finds peers.
pub struct PeerDiscovery {
    pub target_outbound: usize,
}

impl PeerDiscovery {
    pub fn new(target_outbound: usize) -> (r: Self)
        ensures
            r.target_outbound == target_outbound,
    {
        PeerDiscovery { target_outbound }
    }

    /// How many more connections are wanted.
    pub fn connections_needed(&self, current: usize) -> (n: usize)
        ensures
            n == (if current < self.target_outbound {
                self.target_outbound - current
            } else {
                0
            }),
    {
        if current < self.target_outbound {
            self.target_outbound - current
        } else {
            0
        }
    }

    /// Addresses from a peer.
    pub fn handle_addr(addr_manager: &mut AddressManager, addrs: &AddrMessage)
        ensures
            final(addr_manager).list() == heard_all(
                old(addr_manager).list(),
                old(addr_manager).max(),
                addrs@,
                addrs@.len(),
            ),
            final(addr_manager).max() == old(addr_manager).max(),
            old(addr_manager).valid() ==> final(addr_manager).valid(),
    {
        let mut i: usize = 0;
        while i < addrs.addresses.len()
            invariant
                i <= addrs.addresses@.len(),
                addr_manager.max() == old(addr_manager).max(),
                addr_manager.list() == heard_all(
                    old(addr_manager).list(),
                    old(addr_manager).max(),
                    addrs@,
                    i as nat,
                ),
                old(addr_manager).valid() ==> addr_manager.valid(),
            decreases addrs.addresses@.len() - i,
        {
            let net_addr = addrs.addresses[i];
            assert(addrs@[i as int] == net_addr@);
            if let Some(addr) = network_addr_to_socket_addr(&net_addr) {
                addr_manager.add_address(addr, net_addr.services, net_addr.timestamp);
            }
            i += 1;
        }
    }

    /// Answers a request for addresses, if there are any.
    pub fn handle_getaddr(addr_manager: &AddressManager, peer_id: u64) -> (r: Option<Outgoing>)
        ensures
            match r {
                None => addr_manager.list().len() == 0,
                Some(m) => addr_manager.list().len() > 0 && m@ == (OutgoingView {
                    peer_id,
                    payload: PayloadView::Addr(
                        Seq::new(
                            told_count(addr_manager.list().len()),
                            |i: int| told(addr_manager.list()[i]),
                        ),
                    ),
                    required: true,
                }),
            },
    {
        let mut addresses = addr_manager.get_all_addresses();
        if addresses.len() == 0 {
            return None;
        }
        // Send up to 1000 addresses
        let ghost all = addresses@;
        if addresses.len() > MAX_ADDRS_TOLD {
            addresses.truncate(MAX_ADDRS_TOLD);
        }
        proof {
            let want = Seq::new(
                told_count(addr_manager.list().len()),
                |i: int| told(addr_manager.list()[i]),
            );
            assert forall|i: int| 0 <= i < addresses@.len() implies views(addresses@)[i]
                == want[i] by {
                assert(addresses@[i] == all[i]);
            }
            assert(views(addresses@) =~= want);
        }
        Some(
            Outgoing {
                peer_id,
                payload: MessagePayload::Addr(AddrMessage { addresses }),
                required: true,
            },
        )
    }
}

/// What is told of an address is understood as the same address.
pub proof fn lemma_addresses_read_back(addr: SocketAddr, services: u64, timestamp: u32)
    requires
        addr@.ip is V6 ==> !is_mapped(addr@.ip->V6_0),
    ensures
        socket_addr_of(
            told(
                AddressView {
                    addr: addr@,
                    services,
                    timestamp,
                    last_tried: None,
                    last_success: None,
                    attempts: 0,
                },
            ),
        ) == addr@,
{
    match addr.ip {
        IpAddr::V4(o) => {
            let m = crate::network::address::mapped_octets(addr@.ip);
            assert(m.subrange(12, 16) =~= o@);
        },
        IpAddr::V6(_) => {},
    }
}

} // verus!
