//! How the network is doing.

use crate::collections::id_map::listing;
use crate::network::address::{SocketAddr, SocketAddrView};
use crate::network::manager::{picked, PeerManager, Pick};
use crate::network::peer::{connected_for, counted_for, silence, PeerView};
use crate::primitives::serialize::views;
use vstd::prelude::*;

verus! {

/// What is known of a peer. Times are in nanoseconds.
#[derive(Debug, Clone, Copy)]
pub struct PeerDiagnosticInfo {
    pub peer_id: u64,
    pub address: SocketAddr,
    pub inbound: bool,
    pub connected_duration: u64,
    /// Time since last message
    pub last_message: u64,
    pub version: Option<u32>,
    pub services: u64,
    pub start_height: u32,
    pub ban_score: u32,
    // Performance metrics
    pub bytes_sent: u64,
    pub bytes_received: u64,
    /// Time over which the bytes were counted
    pub measured: u64,
}

/// The model of what is known of a peer.
#[verifier::ext_equal]
pub struct PeerDiagnosticView {
    pub peer_id: u64,
    pub address: SocketAddrView,
    pub inbound: bool,
    pub connected_duration: u64,
    pub last_message: u64,
    pub version: Option<u32>,
    pub services: u64,
    pub start_height: u32,
    pub ban_score: u32,
    pub bytes_sent: u64,
    pub bytes_received: u64,
    pub measured: u64,
}

impl View for PeerDiagnosticInfo {
    type V = PeerDiagnosticView;

    open spec fn view(&self) -> PeerDiagnosticView {
        PeerDiagnosticView {
            peer_id: self.peer_id,
            address: self.address@,
            inbound: self.inbound,
            connected_duration: self.connected_duration,
            last_message: self.last_message,
            version: self.version,
            services: self.services,
            start_height: self.start_height,
            ban_score: self.ban_score,
            bytes_sent: self.bytes_sent,
            bytes_received: self.bytes_received,
            measured: self.measured,
        }
    }
}

/// What is known of a peer at a time.
pub open spec fn known_of(p: PeerView, now: u64) -> PeerDiagnosticView {
    PeerDiagnosticView {
        peer_id: p.id,
        address: p.addr,
        inbound: p.inbound,
        connected_duration: connected_for(p, now),
        last_message: silence(p, now) as u64,
        version: p.version,
        services: p.services,
        start_height: p.start_height,
        ban_score: p.ban_score,
        bytes_sent: p.bytes_sent,
        bytes_received: p.bytes_received,
        measured: counted_for(p, now),
    }
}

/// Numbers of connections.
#[derive(Debug, Clone, Copy, PartialEq, Eq, Structural)]
pub struct ConnectionSummary {
    pub total_peers: usize,
    pub inbound_peers: usize,
    pub outbound_peers: usize,
    pub active_peers: usize,
}

/// What is taken off for few peers.
pub open spec fn few_peers_penalty(total: usize) -> int {
    if total < 3 {
        30
    } else if total < 8 {
        10
    } else {
        0
    }
}

/// How well the network does, out of a hundred. With `starved`, less than a byte comes in
/// each second.
pub open spec fn health(s: ConnectionSummary, starved: bool) -> int {
    100 - few_peers_penalty(s.total_peers) - (if s.outbound_peers == 0 {
        40int
    } else {
        0
    }) - (if s.active_peers > 0 && starved {
        15int
    } else {
        0
    })
}

/// A node never does worse for having more peers, or more of them that it connected to.
pub proof fn lemma_more_peers_are_no_worse(
    s: ConnectionSummary,
    t: ConnectionSummary,
    starved: bool,
)
    requires
        s.total_peers <= t.total_peers,
        s.outbound_peers <= t.outbound_peers,
        s.active_peers == t.active_peers,
    ensures
        health(s, starved) <= health(t, starved),
        15 <= health(s, starved) <= 100,
{
}

/// How the network is doing.
pub struct NetworkDiagnostics;

impl NetworkDiagnostics {
    // Get detailed peer information
    pub fn get_peer_info(peers: &PeerManager, now: u64) -> (r: Vec<PeerDiagnosticInfo>)
        ensures
            views(r@) == listing(peers@.peers.dom()).map_values(
                |id: u64| known_of(peers@.peers[id], now),
            ),
    {
        let ids = peers.get_connected_peers();
        let mut out: Vec<PeerDiagnosticInfo> = Vec::new();
        let mut i: usize = 0;
        while i < ids.len()
            invariant
                i <= ids@.len(),
                forall|id: u64|
                    #![trigger ids@.contains(id)]
                    ids@.contains(id) <==> peers@.peers.contains_key(id),
                out@.len() == i,
                forall|k: int|
                    0 <= k < i ==> (#[trigger] out@[k])@ == known_of(peers@.peers[ids@[k]], now),
            decreases ids@.len() - i,
        {
            let id: u64 = ids[i];
            assert(ids@.contains(id));
            match peers.peer(id) {
                Some(peer) => {
                    out.push(
                        PeerDiagnosticInfo {
                            peer_id: peer.get_id(),
                            address: peer.get_addr(),
                            inbound: peer.is_inbound(),
                            connected_duration: peer.connection_duration(now),
                            last_message: peer.time_since_last_recv(now),
                            version: peer.get_version(),
                            services: peer.get_services(),
                            start_height: peer.get_start_height(),
                            ban_score: peer.get_ban_score(),
                            bytes_sent: peer.get_bytes_sent(),
                            bytes_received: peer.get_bytes_received(),
                            measured: peer.bandwidth_time(now),
                        },
                    );
                },
                None => {},
            }
            i += 1;
        }
        assert(views(out@) =~= ids@.map_values(|id: u64| known_of(peers@.peers[id], now)));
        out
    }

    // Get connection summary
    pub fn get_connection_summary(peers: &PeerManager) -> (r: ConnectionSummary)
        ensures
            r.total_peers == peers@.peers.dom().len(),
            r.inbound_peers == picked(peers@.peers, Pick::Inbound, 0).len(),
            r.outbound_peers == picked(peers@.peers, Pick::Outbound, 0).len(),
            r.active_peers == picked(peers@.peers, Pick::Active, 0).len(),
    {
        ConnectionSummary {
            total_peers: peers.peer_total(),
            inbound_peers: peers.pick(Pick::Inbound, 0).len(),
            outbound_peers: peers.pick(Pick::Outbound, 0).len(),
            active_peers: peers.active_peer_count(),
        }
    }

    // Get network health score (0-100)
    pub fn get_health_score(summary: &ConnectionSummary, starved: bool) -> (score: u8)
        ensures
            score == health(*summary, starved),
    {
        let mut score: u8 = 100;
        // Penalty for too few peers
        if summary.total_peers < 3 {
            score = score - 30;
        } else if summary.total_peers < 8 {
            score = score - 10;
        }
        // Penalty for no outbound connections
        if summary.outbound_peers == 0 {
            score = score - 40;
        }
        // Penalty for low bandwidth (if we have peers but no data)
        if summary.active_peers > 0 && starved {
            score = score - 15;
        }
        score
    }
}

} // verus!
