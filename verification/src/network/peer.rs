//! A peer: how far it is, and how it behaves.

use crate::network::address::{mapped_octets, IpAddr, IpAddrView, SocketAddr, SocketAddrView};
use crate::network::protocol::{
    MessagePayload, NetAddr, NetAddrView, PayloadView, VerackMessage, VersionMessage, VersionView,
};
use crate::network::ratelimit::{allows, limiter_after, LimiterView, RateLimiter};
use crate::network::stats::counted;
use vstd::prelude::*;

verus! {

/// Nanoseconds of the windows in which messages are counted.
pub const RATE_WINDOW: u64 = 1_000_000_000;

/// Messages per window.
pub const MESSAGE_RATE: usize = 100;

/// INV messages per window.
pub const INV_RATE: usize = 50;

/// GetData requests per window.
pub const GETDATA_RATE: usize = 50;

/// Score at which a peer is banned.
pub const BAN_THRESHOLD: u32 = 100;

/// Oldest version that a peer may have.
pub const MIN_PEER_VERSION: u32 = 70001;

/// Name that the node gives itself.
pub const USER_AGENT: &'static str = "/Ferrous:0.1.0/";

/// Bytes per second that a peer may send.
pub const MAX_RECV_RATE: u64 = 10_000_000;

/// Nanoseconds without a message after which a peer is given up.
pub const INACTIVITY_TIMEOUT: u64 = 1_200_000_000_000;

#[derive(Debug, Clone, Copy, PartialEq, Eq, Structural)]
pub enum PeerState {
    Connecting,
    Connected,
    VersionSent,
    VersionReceived,
    Active,
    Disconnected,
}

/// Why a message of the handshake is not taken.
#[derive(Debug, Clone, Copy, PartialEq, Eq, Structural)]
pub enum PeerError {
    UnexpectedVersion,
    VersionTooLow,
    UnexpectedVerack,
}

/// What a peer stands for.
#[verifier::ext_equal]
pub struct PeerView {
    pub id: u64,
    pub addr: SocketAddrView,
    pub state: PeerState,
    pub version: Option<u32>,
    pub services: u64,
    pub start_height: u32,
    pub last_ping: u64,
    pub last_recv: u64,
    pub connected_at: u64,
    pub last_pong: u64,
    pub nonce: u64,
    pub inbound: bool,
    pub messages: LimiterView,
    pub invs: LimiterView,
    pub getdatas: LimiterView,
    pub bytes_sent: u64,
    pub bytes_received: u64,
    pub bandwidth_start: u64,
    pub ban_score: u32,
}

/// A limiter that has counted nothing.
pub open spec fn unused_limiter(max_events: usize) -> LimiterView {
    LimiterView { window: RATE_WINDOW, max_events, events: Seq::empty() }
}

/// A peer of which nothing is known but its address.
pub open spec fn fresh_peer(
    id: u64,
    addr: SocketAddrView,
    state: PeerState,
    inbound: bool,
    now: u64,
) -> PeerView {
    PeerView {
        id,
        addr,
        state,
        version: None,
        services: 0,
        start_height: 0,
        last_ping: now,
        last_recv: now,
        connected_at: now,
        last_pong: now,
        nonce: 0,
        inbound,
        messages: unused_limiter(MESSAGE_RATE),
        invs: unused_limiter(INV_RATE),
        getdatas: unused_limiter(GETDATA_RATE),
        bytes_sent: 0,
        bytes_received: 0,
        bandwidth_start: now,
        ban_score: 0,
    }
}

/// A score with more points.
pub open spec fn scored(score: u32, points: u32) -> u32 {
    if score + points > u32::MAX {
        u32::MAX
    } else {
        (score + points) as u32
    }
}

/// The first message that we send to a peer.
pub open spec fn our_version_message(
    p: PeerView,
    our_version: u32,
    our_services: u64,
    our_height: u32,
    our_nonce: u64,
    timestamp: i64,
) -> VersionView {
    VersionView {
        version: our_version,
        services: our_services,
        timestamp,
        receiver: NetAddrView { services: 0, ip: mapped_octets(p.addr.ip), port: p.addr.port },
        sender: NetAddrView {
            services: our_services,
            ip: mapped_octets(IpAddrView::V4(seq![127u8, 0, 0, 1])),
            port: 0,
        },
        nonce: our_nonce,
        user_agent: USER_AGENT@,
        start_height: our_height,
    }
}

/// What is wrong with a version message of a peer.
pub open spec fn version_fault(p: PeerView, m: VersionView) -> Option<PeerError> {
    if p.state != PeerState::Connected && p.state != PeerState::VersionSent {
        Some(PeerError::UnexpectedVersion)
    } else if m.version < MIN_PEER_VERSION {
        Some(PeerError::VersionTooLow)
    } else {
        None
    }
}

/// A peer whose version message was taken.
pub open spec fn with_version(p: PeerView, m: VersionView) -> PeerView {
    PeerView {
        version: Some(m.version),
        services: m.services,
        start_height: m.start_height,
        nonce: m.nonce,
        state: PeerState::VersionReceived,
        ..p
    }
}

/// How long nothing came from a peer.
pub open spec fn silence(p: PeerView, now: u64) -> int {
    if now >= p.last_recv {
        now - p.last_recv
    } else {
        0
    }
}

/// Whether a peer has sent more than it may, over the time since it connected.
pub open spec fn too_fast(p: PeerView, now: u64) -> bool {
    now > p.bandwidth_start && p.bytes_received * 1_000_000_000 > MAX_RECV_RATE * (now
        - p.bandwidth_start)
}

/// How long a peer has been connected.
pub open spec fn connected_for(p: PeerView, now: u64) -> u64 {
    if now >= p.connected_at {
        (now - p.connected_at) as u64
    } else {
        0
    }
}

/// How long the traffic of a peer has been counted.
pub open spec fn counted_for(p: PeerView, now: u64) -> u64 {
    if now >= p.bandwidth_start {
        (now - p.bandwidth_start) as u64
    } else {
        0
    }
}

/// A peer.
pub struct Peer {
    pub id: u64,
    pub addr: SocketAddr,
    pub state: PeerState,
    pub version: Option<u32>,
    pub services: u64,
    pub start_height: u32,
    pub last_ping: u64,
    pub last_recv: u64,
    pub connected_at: u64,
    pub last_pong: u64,
    pub nonce: u64,
    pub inbound: bool,
    // Rate limiters
    message_limiter: RateLimiter,
    inv_limiter: RateLimiter,
    getdata_limiter: RateLimiter,
    // Bandwidth tracking
    bytes_sent: u64,
    bytes_received: u64,
    bandwidth_start: u64,
    // Ban score
    ban_score: u32,
}

impl View for Peer {
    type V = PeerView;

    closed spec fn view(&self) -> PeerView {
        PeerView {
            id: self.id,
            addr: self.addr@,
            state: self.state,
            version: self.version,
            services: self.services,
            start_height: self.start_height,
            last_ping: self.last_ping,
            last_recv: self.last_recv,
            connected_at: self.connected_at,
            last_pong: self.last_pong,
            nonce: self.nonce,
            inbound: self.inbound,
            messages: self.message_limiter@,
            invs: self.inv_limiter@,
            getdatas: self.getdata_limiter@,
            bytes_sent: self.bytes_sent,
            bytes_received: self.bytes_received,
            bandwidth_start: self.bandwidth_start,
            ban_score: self.ban_score,
        }
    }
}

impl Peer {
    fn in_state(id: u64, addr: SocketAddr, state: PeerState, inbound: bool, now: u64) -> (r: Self)
        ensures
            r@ == fresh_peer(id, addr@, state, inbound, now),
    {
        Peer {
            id,
            addr,
            state,
            version: None,
            services: 0,
            start_height: 0,
            last_ping: now,
            last_recv: now,
            connected_at: now,
            last_pong: now,
            nonce: 0,
            inbound,
            message_limiter: RateLimiter::new(RATE_WINDOW, MESSAGE_RATE),
            inv_limiter: RateLimiter::new(RATE_WINDOW, INV_RATE),
            getdata_limiter: RateLimiter::new(RATE_WINDOW, GETDATA_RATE),
            bytes_sent: 0,
            bytes_received: 0,
            bandwidth_start: now,
            ban_score: 0,
        }
    }

    pub fn new(id: u64, addr: SocketAddr, now: u64) -> (r: Self)
        ensures
            r@ == fresh_peer(id, addr@, PeerState::Connecting, false, now),
    {
        Peer::in_state(id, addr, PeerState::Connecting, false, now)
    }

    pub fn new_inbound(id: u64, addr: SocketAddr, now: u64) -> (r: Self)
        ensures
            r@ == fresh_peer(id, addr@, PeerState::Connected, true, now),
    {
        Peer::in_state(id, addr, PeerState::Connected, true, now)
    }

    pub fn new_outbound(id: u64, addr: SocketAddr, now: u64) -> (r: Self)
        ensures
            r@ == fresh_peer(id, addr@, PeerState::Connected, false, now),
    {
        Peer::in_state(id, addr, PeerState::Connected, false, now)
    }

    /// Where the peer is.
    pub fn get_addr(&self) -> (r: SocketAddr)
        ensures
            r@ == self@.addr,
    {
        self.addr
    }

    /// The state of the connection.
    pub fn get_state(&self) -> (r: PeerState)
        ensures
            r == self@.state,
    {
        self.state
    }

    /// The protocol version that the peer told.
    pub fn get_version(&self) -> (r: Option<u32>)
        ensures
            r == self@.version,
    {
        self.version
    }

    /// The services that the peer told.
    pub fn get_services(&self) -> (r: u64)
        ensures
            r == self@.services,
    {
        self.services
    }

    /// The height that the peer is known to have.
    pub fn get_start_height(&self) -> (r: u32)
        ensures
            r == self@.start_height,
    {
        self.start_height
    }

    /// Whether the peer connected to us.
    pub fn is_inbound(&self) -> (r: bool)
        ensures
            r == self@.inbound,
    {
        self.inbound
    }

    /// The number of the peer.
    pub fn get_id(&self) -> (r: u64)
        ensures
            r == self@.id,
    {
        self.id
    }

    // Check if peer can send message
    pub fn check_message_rate(&mut self, now: u64) -> (r: bool)
        ensures
            r == allows(old(self)@.messages, now),
            final(self)@ == (PeerView {
                messages: limiter_after(old(self)@.messages, now),
                ..old(self)@
            }),
    {
        self.message_limiter.check_at(now)
    }

    pub fn check_inv_rate(&mut self, now: u64) -> (r: bool)
        ensures
            r == allows(old(self)@.invs, now),
            final(self)@ == (PeerView {
                invs: limiter_after(old(self)@.invs, now),
                ..old(self)@
            }),
    {
        self.inv_limiter.check_at(now)
    }

    pub fn check_getdata_rate(&mut self, now: u64) -> (r: bool)
        ensures
            r == allows(old(self)@.getdatas, now),
            final(self)@ == (PeerView {
                getdatas: limiter_after(old(self)@.getdatas, now),
                ..old(self)@
            }),
    {
        self.getdata_limiter.check_at(now)
    }

    // Update bandwidth stats
    pub fn record_sent(&mut self, bytes: usize)
        ensures
            final(self)@ == (PeerView {
                bytes_sent: counted(old(self)@.bytes_sent, bytes as int),
                ..old(self)@
            }),
    {
        self.bytes_sent = self.bytes_sent.saturating_add(bytes as u64);
    }

    pub fn record_received(&mut self, bytes: usize)
        ensures
            final(self)@ == (PeerView {
                bytes_received: counted(old(self)@.bytes_received, bytes as int),
                ..old(self)@
            }),
    {
        self.bytes_received = self.bytes_received.saturating_add(bytes as u64);
    }

    /// Whether the peer has sent more than it may.
    pub fn exceeds_bandwidth(&self, now: u64) -> (r: bool)
        ensures
            r == too_fast(self@, now),
    {
        now > self.bandwidth_start && self.bytes_received as u128 * 1_000_000_000u128
            > MAX_RECV_RATE as u128 * (now - self.bandwidth_start) as u128
    }

    pub fn add_ban_score(&mut self, points: u32)
        ensures
            final(self)@ == (PeerView {
                ban_score: scored(old(self)@.ban_score, points),
                ..old(self)@
            }),
    {
        self.ban_score = self.ban_score.saturating_add(points);
    }

    pub fn get_ban_score(&self) -> (r: u32)
        ensures
            r == self@.ban_score,
    {
        self.ban_score
    }

    pub fn should_ban(&self) -> (r: bool)
        ensures
            r == (self@.ban_score >= BAN_THRESHOLD),
    {
        self.ban_score >= BAN_THRESHOLD
    }

    pub fn get_bytes_sent(&self) -> (r: u64)
        ensures
            r == self@.bytes_sent,
    {
        self.bytes_sent
    }

    pub fn get_bytes_received(&self) -> (r: u64)
        ensures
            r == self@.bytes_received,
    {
        self.bytes_received
    }

    pub fn update_last_recv(&mut self, now: u64)
        ensures
            final(self)@ == (PeerView { last_recv: now, ..old(self)@ }),
    {
        self.last_recv = now;
    }

    pub fn time_since_last_recv(&self, now: u64) -> (r: u64)
        ensures
            r == silence(self@, now),
    {
        now.saturating_sub(self.last_recv)
    }

    pub fn connection_duration(&self, now: u64) -> (r: u64)
        ensures
            r == connected_for(self@, now),
    {
        now.saturating_sub(self.connected_at)
    }

    /// How long the traffic of the peer has been counted.
    pub fn bandwidth_time(&self, now: u64) -> (r: u64)
        ensures
            r == counted_for(self@, now),
    {
        now.saturating_sub(self.bandwidth_start)
    }

    /// The peer is through its handshake.
    pub fn activate(&mut self, now: u64)
        ensures
            final(self)@ == (PeerView {
                state: PeerState::Active,
                connected_at: now,
                last_recv: now,
                ..old(self)@
            }),
    {
        self.state = PeerState::Active;
        self.connected_at = now;
        self.last_recv = now;
    }

    /// The peer states a height. A lower one than before is left aside.
    pub fn note_height(&mut self, height: u32)
        ensures
            final(self)@ == (PeerView {
                start_height: if height > old(self)@.start_height {
                    height
                } else {
                    old(self)@.start_height
                },
                ..old(self)@
            }),
    {
        if height > self.start_height {
            self.start_height = height;
        }
    }

    /// The message that opens the handshake, which is then on its way.
    pub fn initiate_handshake(
        &mut self,
        our_version: u32,
        our_services: u64,
        our_height: u32,
        our_nonce: u64,
        timestamp: i64,
    ) -> (r: MessagePayload)
        ensures
            r@ == PayloadView::Version(
                our_version_message(
                    old(self)@,
                    our_version,
                    our_services,
                    our_height,
                    our_nonce,
                    timestamp,
                ),
            ),
            final(self)@ == (PeerView { state: PeerState::VersionSent, ..old(self)@ }),
    {
        // We don't know their services yet
        let receiver = NetAddr::new(self.addr, 0);
        let local: [u8; 4] = [127, 0, 0, 1];
        assert(local@ =~= seq![127u8, 0, 0, 1]);
        let sender = NetAddr::new(SocketAddr { ip: IpAddr::V4(local), port: 0 }, our_services);
        let msg = VersionMessage {
            version: our_version,
            services: our_services,
            timestamp,
            receiver,
            sender,
            nonce: our_nonce,
            user_agent: USER_AGENT.to_owned(),
            start_height: our_height,
        };
        self.state = PeerState::VersionSent;
        MessagePayload::Version(msg)
    }

    /// Takes the version message of the peer, and answers it.
    pub fn handle_version(&mut self, msg: &VersionMessage) -> (r: Result<MessagePayload, PeerError>)
        ensures
            match r {
                Ok(answer) => version_fault(old(self)@, msg@) is None && answer@
                    == PayloadView::Verack(()) && final(self)@ == with_version(old(self)@, msg@),
                Err(e) => version_fault(old(self)@, msg@) == Some(e) && final(self)@ == old(self)@,
            },
    {
        if self.state != PeerState::Connected && self.state != PeerState::VersionSent {
            return Err(PeerError::UnexpectedVersion);
        }
        if msg.version < MIN_PEER_VERSION {
            return Err(PeerError::VersionTooLow);
        }
        self.version = Some(msg.version);
        self.services = msg.services;
        self.start_height = msg.start_height;
        self.nonce = msg.nonce;
        self.state = PeerState::VersionReceived;
        Ok(MessagePayload::Verack(VerackMessage))
    }

    /// The peer has taken our version message.
    pub fn handle_verack(&mut self) -> (r: Result<(), PeerError>)
        ensures
            match r {
                Ok(_) => old(self)@.state == PeerState::VersionReceived && final(self)@ == (
                PeerView { state: PeerState::Active, ..old(self)@ }),
                Err(e) => old(self)@.state != PeerState::VersionReceived && e
                    == PeerError::UnexpectedVerack && final(self)@ == old(self)@,
            },
    {
        if self.state != PeerState::VersionReceived {
            return Err(PeerError::UnexpectedVerack);
        }
        self.state = PeerState::Active;
        Ok(())
    }

    pub fn is_active(&self) -> (r: bool)
        ensures
            r == (self@.state == PeerState::Active),
    {
        self.state == PeerState::Active
    }
}

} // verus!
