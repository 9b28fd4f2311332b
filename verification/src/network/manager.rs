//! The peers that are connected, and what is kept of them.

use crate::collections::id_map::{listing, IdMap};
use crate::network::address::{ip_key, IpAddr, IpAddrView, SocketAddr};
use crate::network::batch::{
    begun, unsent, waiting, with_sent, BatcherView, BroadcastCache, CacheView, MessageBatcher,
};
use crate::network::dos::{
    accepts_inbound, allows_outbound, asked_inbound, attempt_failed, connected, disconnected,
    no_connections, DosProtection, DosView,
};
use crate::network::inspect::{
    banned, inspect, inspected, is_trusted, trusted, with_points, Verdict, VerdictView,
};
use crate::network::message::{NetworkMessage, NetworkMessageView, REGTEST_MAGIC};
use crate::network::outgoing::{Outgoing, OutgoingView};
use crate::network::peer::{
    fresh_peer, silence, too_fast, Peer, PeerState, PeerView, INACTIVITY_TIMEOUT,
};
use crate::network::protocol::InvVector;
use crate::network::security::{
    keeps_diversity, with_peer, NetworkSecurity, SecurityView,
};
use crate::network::stats::{counted, one_less, NetworkStats};
use crate::network::sync::SyncManager;
use crate::network::sync_model::{peer_lost, SyncView};
use crate::primitives::bytes::bytes_equal;
use crate::primitives::serialize::{views, Encode};
use vstd::prelude::*;

verus! {

/// How many hashes are remembered for each peer.
pub const BROADCAST_CACHE_SIZE: usize = 1000;

/// What is told of a peer.
#[derive(Debug, Clone, Copy)]
pub struct PeerInfo {
    pub id: u64,
    pub addr: SocketAddr,
    pub state: PeerState,
    pub version: Option<u32>,
    pub services: u64,
    pub start_height: u32,
    pub inbound: bool,
}

/// Why a connection is refused.
#[derive(Debug, Clone, Copy, PartialEq, Eq, Structural)]
pub enum Refusal {
    DosProtection,
    Diversity,
    AlreadyConnected,
    MaxPeersReached,
    /// All numbers for peers were given out.
    NoNumberLeft,
}

/// There is no peer with that number.
#[derive(Debug, Clone, Copy, PartialEq, Eq, Structural)]
pub struct PeerNotFound;

/// Which peers are meant.
#[derive(Debug, Clone, Copy, PartialEq, Eq, Structural)]
pub enum Pick {
    /// Those that completed the handshake.
    Active,
    /// Those of them that we connected to.
    ActiveOutbound,
    /// Those that connected to us.
    Inbound,
    /// Those that we connected to.
    Outbound,
    /// Those that sent nothing for too long.
    Silent,
    /// Those and the ones that send too much.
    Dead,
}

/// What a peer manager holds.
#[verifier::ext_equal]
pub struct ManagerView {
    pub peers: Map<u64, PeerView>,
    pub next_id: u64,
    pub magic: Seq<u8>,
    pub max_peers: usize,
    pub dos: DosView,
    pub batcher: BatcherView,
    pub cache: CacheView,
    pub security: SecurityView,
}

/// Whether a peer is one of those that are meant.
pub open spec fn picks(p: PeerView, pick: Pick, now: u64) -> bool {
    match pick {
        Pick::Active => p.state == PeerState::Active,
        Pick::ActiveOutbound => p.state == PeerState::Active && !p.inbound,
        Pick::Inbound => p.inbound,
        Pick::Outbound => !p.inbound,
        Pick::Silent => silence(p, now) > INACTIVITY_TIMEOUT,
        Pick::Dead => silence(p, now) > INACTIVITY_TIMEOUT || too_fast(p, now),
    }
}

/// The numbers, out of some, of the peers that are meant.
pub open spec fn picked_of(
    peers: Map<u64, PeerView>,
    ids: Seq<u64>,
    pick: Pick,
    now: u64,
) -> Seq<u64>
    decreases ids.len(),
{
    if ids.len() == 0 {
        Seq::empty()
    } else {
        let rest = picked_of(peers, ids.drop_last(), pick, now);
        if picks(peers[ids.last()], pick, now) {
            rest.push(ids.last())
        } else {
            rest
        }
    }
}

/// The numbers of the peers that are meant, in ascending order.
pub open spec fn picked(peers: Map<u64, PeerView>, pick: Pick, now: u64) -> Seq<u64> {
    picked_of(peers, listing(peers.dom()), pick, now)
}

/// Whether a peer with that address is connected.
pub open spec fn has_ip(peers: Map<u64, PeerView>, ip: IpAddrView) -> bool {
    exists|id: u64| #[trigger] peers.contains_key(id) && peers[id].addr.ip == ip
}

/// A manager without a peer.
pub open spec fn forgotten(m: ManagerView, id: u64) -> ManagerView {
    if m.peers.contains_key(id) {
        ManagerView {
            peers: m.peers.remove(id),
            dos: disconnected(m.dos, id, ip_key(m.peers[id].addr.ip), m.peers[id].inbound),
            batcher: crate::network::batch::without_peer(m.batcher, id),
            cache: unsent(m.cache, id),
            security: crate::network::security::without_peer(m.security, id),
            ..m
        }
    } else {
        m
    }
}

/// What is left when peers are gone, and what is to be sent then.
#[verifier::ext_equal]
pub struct Departure {
    pub manager: ManagerView,
    pub sync: SyncView,
    pub sends: Seq<OutgoingView>,
}

/// A peer is disconnected.
pub open spec fn departed(m: ManagerView, v: SyncView, id: u64, now: u64) -> Departure {
    if m.peers.contains_key(id) {
        let r = peer_lost(v, id, now);
        Departure { manager: forgotten(m, id), sync: r.sync, sends: r.sends }
    } else {
        Departure { manager: m, sync: v, sends: Seq::empty() }
    }
}

/// The first `n` peers of a list are disconnected.
pub open spec fn all_departed(
    m: ManagerView,
    v: SyncView,
    ids: Seq<u64>,
    n: nat,
    now: u64,
) -> Departure
    decreases n,
{
    if n == 0 {
        Departure { manager: m, sync: v, sends: Seq::empty() }
    } else {
        let d = all_departed(m, v, ids, (n - 1) as nat, now);
        let e = departed(d.manager, d.sync, ids[n - 1], now);
        Departure { manager: e.manager, sync: e.sync, sends: d.sends + e.sends }
    }
}

/// The first `n` peers of a list are forgotten.
pub open spec fn all_forgotten(m: ManagerView, ids: Seq<u64>, n: nat) -> ManagerView
    decreases n,
{
    if n == 0 {
        m
    } else {
        forgotten(all_forgotten(m, ids, (n - 1) as nat), ids[n - 1])
    }
}

/// Why we do not connect to an address.
pub open spec fn outbound_refusal(m: ManagerView, ip: IpAddrView, now: u64) -> Option<Refusal> {
    if !allows_outbound(m.dos, ip_key(ip), now) {
        Some(Refusal::DosProtection)
    } else if m.peers.dom().len() >= m.max_peers {
        Some(Refusal::MaxPeersReached)
    } else if has_ip(m.peers, ip) {
        Some(Refusal::AlreadyConnected)
    } else {
        None
    }
}

/// Why a connection from an address is refused.
pub open spec fn inbound_refusal(m: ManagerView, ip: IpAddrView, now: u64) -> Option<Refusal> {
    let count = m.peers.dom().len();
    if !is_trusted(ip) && !accepts_inbound(m.dos, ip_key(ip), now) {
        Some(Refusal::DosProtection)
    } else if m.magic != REGTEST_MAGIC@ && !is_trusted(ip) && !keeps_diversity(
        m.security,
        ip,
        count as usize,
    ) {
        Some(Refusal::Diversity)
    } else if !is_trusted(ip) && has_ip(m.peers, ip) {
        Some(Refusal::AlreadyConnected)
    } else if count >= m.max_peers {
        Some(Refusal::MaxPeersReached)
    } else if m.next_id == u64::MAX {
        Some(Refusal::NoNumberLeft)
    } else {
        None
    }
}

/// What is kept once a connection from an address was looked at.
pub open spec fn knocked(m: ManagerView, ip: IpAddrView, now: u64) -> ManagerView {
    if is_trusted(ip) {
        m
    } else {
        let asked = asked_inbound(m.dos, ip_key(ip), now);
        ManagerView {
            dos: if accepts_inbound(m.dos, ip_key(ip), now) {
                asked
            } else {
                attempt_failed(asked, ip_key(ip), now)
            },
            ..m
        }
    }
}

/// The manager once a number was given out.
pub open spec fn numbered(m: ManagerView) -> ManagerView {
    ManagerView { next_id: (m.next_id + 1) as u64, ..m }
}

/// A peer that completed the handshake.
pub open spec fn activated(p: PeerView, now: u64) -> PeerView {
    PeerView { state: PeerState::Active, connected_at: now, last_recv: now, ..p }
}

/// The manager with a peer that completed the handshake.
pub open spec fn welcomed(m: ManagerView, p: PeerView, now: u64) -> ManagerView {
    ManagerView {
        peers: m.peers.insert(p.id, activated(p, now)),
        dos: connected(m.dos, p.id, ip_key(p.addr.ip), p.inbound, now),
        security: with_peer(m.security, p.id, p.addr.ip, now),
        ..m
    }
}

/// A message of a size was sent to a peer.
pub open spec fn sent_counted(m: ManagerView, id: u64, size: nat) -> ManagerView {
    if m.peers.contains_key(id) {
        let p = m.peers[id];
        ManagerView {
            peers: m.peers.insert(
                id,
                PeerView { bytes_sent: counted(p.bytes_sent, size as int), ..p },
            ),
            ..m
        }
    } else {
        m
    }
}

/// What a message of a peer leads to.
#[verifier::ext_equal]
pub struct Handled {
    pub manager: ManagerView,
    pub sync: SyncView,
    pub stats: NetworkStats,
    pub sends: Seq<OutgoingView>,
    pub verdict: VerdictView,
    /// Whether no peer is left.
    pub recover: bool,
}

/// A message of a peer is handled.
pub open spec fn message_handled(
    m: ManagerView,
    v: SyncView,
    stats: NetworkStats,
    id: u64,
    msg: NetworkMessageView,
    time: u64,
    now: u64,
) -> Handled {
    if !m.peers.contains_key(id) {
        Handled {
            manager: m,
            sync: v,
            stats,
            sends: Seq::empty(),
            verdict: VerdictView::Drop,
            recover: false,
        }
    } else {
        let r = inspected(m.peers[id], stats, msg, time, now);
        let m1 = ManagerView { peers: m.peers.insert(id, r.peer), ..m };
        if r.verdict is Ban {
            let d = departed(m1, v, id, now);
            Handled {
                manager: d.manager,
                sync: d.sync,
                stats: r.stats,
                sends: d.sends,
                verdict: r.verdict,
                recover: d.manager.peers.dom().len() == 0,
            }
        } else {
            Handled {
                manager: m1,
                sync: v,
                stats: r.stats,
                sends: Seq::empty(),
                verdict: r.verdict,
                recover: false,
            }
        }
    }
}

/// An item is to be announced to the first `n` peers of a list, save where it was.
pub open spec fn inventory_told(
    b: BatcherView,
    c: CacheView,
    item: InvVector,
    ids: Seq<u64>,
    n: nat,
    now: u64,
) -> (BatcherView, CacheView)
    decreases n,
{
    if n == 0 {
        (b, c)
    } else {
        let (b1, c1) = inventory_told(b, c, item, ids, (n - 1) as nat, now);
        let id = ids[n - 1];
        if waiting(c1.sent, id).contains(item.hash@) {
            (b1, c1)
        } else {
            (
                BatcherView {
                    inv: b1.inv.insert(id, waiting(b1.inv, id).push(item)),
                    started: begun(b1.started, id, now),
                    ..b1
                },
                with_sent(c1, id, item.hash@),
            )
        }
    }
}

/// A peer that is gone leaves nothing behind.
pub proof fn lemma_nothing_left(m: ManagerView, v: SyncView, id: u64, now: u64)
    requires
        m.peers.contains_key(id),
    ensures
        ({
            let d = departed(m, v, id, now);
            &&& !d.manager.peers.contains_key(id)
            &&& !d.manager.cache.sent.contains_key(id)
            &&& !d.manager.batcher.inv.contains_key(id)
            &&& !d.manager.batcher.getdata.contains_key(id)
            &&& !d.manager.batcher.addr.contains_key(id)
            &&& !d.manager.security.group_by_peer.contains_key(id)
            &&& forall|other: u64|
                other != id ==> (#[trigger] d.manager.peers.contains_key(other)
                    <==> m.peers.contains_key(other)) && d.manager.peers[other] == m.peers[other]
        }),
{
}

/// There are never more peers than the limit: what is let in from elsewhere finds room.
pub proof fn lemma_limit_kept(m: ManagerView, ip: IpAddrView, id: u64, p: PeerView, now: u64)
    requires
        m.peers.dom().finite(),
        p.id == id,
        inbound_refusal(m, ip, now) is None || outbound_refusal(m, ip, now) is None,
    ensures
        welcomed(m, p, now).peers.dom().len() <= m.max_peers,
{
}

/// An address that is not trusted is connected once: it is neither let in nor called
/// again.
pub proof fn lemma_one_connection_per_address(
    m: ManagerView,
    p: PeerView,
    earlier: u64,
    now: u64,
)
    requires
        !is_trusted(p.addr.ip),
    ensures
        inbound_refusal(welcomed(m, p, earlier), p.addr.ip, now) is Some,
        outbound_refusal(welcomed(m, p, earlier), p.addr.ip, now) is Some,
{
    let w = welcomed(m, p, earlier);
    assert(w.peers.contains_key(p.id) && w.peers[p.id].addr.ip == p.addr.ip);
}

/// Once the peers of a list are gone, none of them is connected.
pub proof fn lemma_all_departed(
    m: ManagerView,
    v: SyncView,
    ids: Seq<u64>,
    n: nat,
    now: u64,
    id: u64,
)
    requires
        n <= ids.len(),
    ensures
        all_departed(m, v, ids, n, now).manager.peers.contains_key(id) <==> m.peers.contains_key(
            id,
        ) && !ids.take(n as int).contains(id),
    decreases n,
{
    if n > 0 {
        lemma_all_departed(m, v, ids, (n - 1) as nat, now, id);
        let before = ids.take(n - 1);
        let after = ids.take(n as int);
        assert(after =~= before.push(ids[n - 1]));
        assert(after[n - 1] == ids[n - 1]);
        if before.contains(id) {
            let k = choose|k: int| 0 <= k < before.len() && before[k] == id;
            assert(after[k] == id);
        }
        if after.contains(id) && id != ids[n - 1] {
            let k = choose|k: int| 0 <= k < after.len() && after[k] == id;
            assert(before[k] == id);
        }
    }
}

/// The peers that are meant are those, and only those, that are picked.
pub proof fn lemma_picked_of(
    peers: Map<u64, PeerView>,
    ids: Seq<u64>,
    pick: Pick,
    now: u64,
    id: u64,
)
    ensures
        picked_of(peers, ids, pick, now).contains(id) <==> ids.contains(id) && picks(
            peers[id],
            pick,
            now,
        ),
    decreases ids.len(),
{
    if ids.len() > 0 {
        let shorter = ids.drop_last();
        lemma_picked_of(peers, shorter, pick, now, id);
        let rest = picked_of(peers, shorter, pick, now);
        assert(ids =~= shorter.push(ids.last()));
        if rest.contains(id) {
            let k = choose|k: int| 0 <= k < rest.len() && rest[k] == id;
            assert(rest.push(ids.last())[k] == id);
        }
        assert(rest.push(ids.last())[rest.len() as int] == ids.last());
        assert(ids[ids.len() - 1] == ids.last());
        if shorter.contains(id) {
            let k = choose|k: int| 0 <= k < shorter.len() && shorter[k] == id;
            assert(ids[k] == id);
        }
        if ids.contains(id) && id != ids.last() {
            let k = choose|k: int| 0 <= k < ids.len() && ids[k] == id;
            assert(shorter[k] == id);
        }
    }
}

/// After maintenance no peer is left that is silent or sends too much, and no other peer
/// is gone.
pub proof fn lemma_maintained(m: ManagerView, v: SyncView, ids: Seq<u64>, now: u64, id: u64)
    requires
        ids.to_set() == m.peers.dom(),
    ensures
        ({
            let dead = picked_of(m.peers, ids, Pick::Dead, now);
            let d = all_departed(m, v, dead, dead.len(), now);
            d.manager.peers.contains_key(id) <==> m.peers.contains_key(id) && !picks(
                m.peers[id],
                Pick::Dead,
                now,
            )
        }),
{
    let dead = picked_of(m.peers, ids, Pick::Dead, now);
    lemma_picked_of(m.peers, ids, Pick::Dead, now, id);
    lemma_all_departed(m, v, dead, dead.len(), now, id);
    assert(dead.take(dead.len() as int) =~= dead);
    assert(ids.contains(id) <==> ids.to_set().contains(id));
}

/// The peers that are connected.
pub struct PeerManager {
    peers: IdMap<Peer>,
    next_peer_id: u64,
    magic: [u8; 4],
    max_peers: usize,
    our_version: u32,
    our_services: u64,
    our_height: u32,
    dos_protection: DosProtection,
    batcher: MessageBatcher,
    broadcast_cache: BroadcastCache,
    security: NetworkSecurity,
}

impl View for PeerManager {
    type V = ManagerView;

    closed spec fn view(&self) -> ManagerView {
        ManagerView {
            peers: self.peers@,
            next_id: self.next_peer_id,
            magic: self.magic@,
            max_peers: self.max_peers,
            dos: self.dos_protection@,
            batcher: self.batcher@,
            cache: self.broadcast_cache@,
            security: self.security@,
        }
    }
}

/// What is to be done after a message of a peer.
pub struct Handling {
    pub verdict: Verdict,
    pub sends: Vec<Outgoing>,
    /// Whether no peer is left.
    pub recover: bool,
}

impl PeerManager {
    /// What is told of us in the handshake with a peer that we connect to.
    pub closed spec fn introduction(self) -> (u32, u64, u32) {
        (self.our_version, self.our_services, self.our_height)
    }

    /// A manager without peers.
    pub fn new(
        magic: [u8; 4],
        max_peers: usize,
        version: u32,
        services: u64,
        start_height: u32,
        now: u64,
    ) -> (r: Self)
        ensures
            r@ == (ManagerView {
                peers: Map::empty(),
                next_id: 0,
                magic: magic@,
                max_peers,
                dos: no_connections(),
                batcher: BatcherView {
                    inv: Map::empty(),
                    getdata: Map::empty(),
                    addr: Map::empty(),
                    started: Map::empty(),
                    magic: magic@,
                },
                cache: CacheView { sent: Map::empty(), max: BROADCAST_CACHE_SIZE },
                security: SecurityView {
                    groups: Map::empty(),
                    group_by_peer: Map::empty(),
                    anchors: Set::empty(),
                    last_feeler: now,
                    feelers: Set::empty(),
                    history: Seq::empty(),
                },
            }),
            r.introduction() == (version, services, start_height),
    {
        PeerManager {
            peers: IdMap::new(),
            next_peer_id: 0,
            magic,
            max_peers,
            our_version: version,
            our_services: services,
            our_height: start_height,
            dos_protection: DosProtection::new(),
            batcher: MessageBatcher::new(magic),
            broadcast_cache: BroadcastCache::new(BROADCAST_CACHE_SIZE),
            security: NetworkSecurity::new(now),
        }
    }

    /// The version, the services and the height that are told in a handshake.
    pub fn our_introduction(&self) -> (r: (u32, u64, u32))
        ensures
            r == self.introduction(),
    {
        (self.our_version, self.our_services, self.our_height)
    }

    pub fn magic(&self) -> (r: [u8; 4])
        ensures
            r@ == self@.magic,
    {
        self.magic
    }

    /// The numbers of the peers.
    pub fn get_connected_peers(&self) -> (r: Vec<u64>)
        ensures
            r@ == listing(self@.peers.dom()),
            forall|id: u64|
                #![trigger r@.contains(id)]
                r@.contains(id) <==> self@.peers.contains_key(id),
    {
        self.peers.ids()
    }

    /// The numbers of the peers that are meant.
    pub fn pick(&self, pick: Pick, now: u64) -> (r: Vec<u64>)
        ensures
            r@ == picked(self@.peers, pick, now),
    {
        let ids = self.peers.ids();
        let mut out: Vec<u64> = Vec::new();
        let mut i: usize = 0;
        while i < ids.len()
            invariant
                i <= ids@.len(),
                forall|id: u64|
                    #![trigger self.peers@.contains_key(id)]
                    self.peers@.contains_key(id) <==> ids@.contains(id),
                out@ == picked_of(self.peers@, ids@.take(i as int), pick, now),
            decreases ids@.len() - i,
        {
            let id: u64 = ids[i];
            assert(ids@.take(i + 1).drop_last() =~= ids@.take(i as int));
            assert(ids@.contains(id));
            assert(self.peers@.contains_key(id));
            match self.peers.get(id) {
                Some(peer) => {
                    let chosen: bool = match pick {
                        Pick::Active => peer.is_active(),
                        Pick::ActiveOutbound => peer.is_active() && !peer.is_inbound(),
                        Pick::Inbound => peer.is_inbound(),
                        Pick::Outbound => !peer.is_inbound(),
                        Pick::Silent => peer.time_since_last_recv(now) > INACTIVITY_TIMEOUT,
                        Pick::Dead => peer.time_since_last_recv(now) > INACTIVITY_TIMEOUT
                            || peer.exceeds_bandwidth(now),
                    };
                    if chosen {
                        out.push(id);
                    }
                },
                None => {},
            }
            i += 1;
        }
        assert(ids@.take(i as int) =~= ids@);
        out
    }

    /// Number of peers that completed the handshake.
    pub fn get_peer_count(&self) -> (n: usize)
        ensures
            n == picked(self@.peers, Pick::Active, 0).len(),
    {
        self.pick(Pick::Active, 0).len()
    }

    /// Number of peers that completed the handshake.
    pub fn active_peer_count(&self) -> (n: usize)
        ensures
            n == picked(self@.peers, Pick::Active, 0).len(),
    {
        self.pick(Pick::Active, 0).len()
    }

    /// Number of peers that we connected to and that completed the handshake.
    pub fn outbound_peer_count(&self) -> (n: usize)
        ensures
            n == picked(self@.peers, Pick::ActiveOutbound, 0).len(),
    {
        self.pick(Pick::ActiveOutbound, 0).len()
    }

    /// Number of peers.
    pub fn peer_total(&self) -> (n: usize)
        ensures
            self@.peers.dom().finite(),
            n == self@.peers.dom().len(),
    {
        self.peers.len()
    }

    /// Where the peers are.
    pub fn get_peer_addrs(&self) -> (r: Vec<SocketAddr>)
        ensures
            views(r@) == Seq::new(
                listing(self@.peers.dom()).len(),
                |i: int| self@.peers[listing(self@.peers.dom())[i]].addr,
            ),
    {
        let ids = self.peers.ids();
        let mut out: Vec<SocketAddr> = Vec::new();
        let mut i: usize = 0;
        while i < ids.len()
            invariant
                i <= ids@.len(),
                forall|id: u64|
                    #![trigger self.peers@.contains_key(id)]
                    self.peers@.contains_key(id) <==> ids@.contains(id),
                out@.len() == i,
                forall|k: int| 0 <= k < i ==> (#[trigger] out@[k])@ == self.peers@[ids@[k]].addr,
            decreases ids@.len() - i,
        {
            let id: u64 = ids[i];
            assert(ids@.contains(id));
            assert(self.peers@.contains_key(id));
            match self.peers.get(id) {
                Some(peer) => out.push(peer.get_addr()),
                None => {},
            }
            i += 1;
        }
        assert(views(out@) =~= Seq::new(ids@.len(), |i: int| self@.peers[ids@[i]].addr));
        out
    }

    /// The height that a peer is known to have.
    pub fn get_peer_start_height(&self, peer_id: u64) -> (r: Option<u32>)
        ensures
            r == (if self@.peers.contains_key(peer_id) {
                Some(self@.peers[peer_id].start_height)
            } else {
                None
            }),
    {
        match self.peers.get(peer_id) {
            Some(peer) => Some(peer.get_start_height()),
            None => None,
        }
    }

    /// What is told of a peer.
    pub fn get_peer(&self, peer_id: u64) -> (r: Option<PeerInfo>)
        ensures
            match r {
                Some(info) => self@.peers.contains_key(peer_id) && ({
                    let p = self@.peers[peer_id];
                    &&& info.id == p.id
                    &&& info.addr@ == p.addr
                    &&& info.state == p.state
                    &&& info.version == p.version
                    &&& info.services == p.services
                    &&& info.start_height == p.start_height
                    &&& info.inbound == p.inbound
                }),
                None => !self@.peers.contains_key(peer_id),
            },
    {
        match self.peers.get(peer_id) {
            Some(p) => Some(
                PeerInfo {
                    id: p.get_id(),
                    addr: p.get_addr(),
                    state: p.get_state(),
                    version: p.get_version(),
                    services: p.get_services(),
                    start_height: p.get_start_height(),
                    inbound: p.is_inbound(),
                },
            ),
            None => None,
        }
    }

    /// A peer.
    pub fn peer(&self, peer_id: u64) -> (r: Option<&Peer>)
        ensures
            match r {
                Some(p) => self@.peers.contains_key(peer_id) && p@ == self@.peers[peer_id],
                None => !self@.peers.contains_key(peer_id),
            },
    {
        self.peers.get(peer_id)
    }

    /// Notes that a peer has a height.
    pub fn update_peer_height(&mut self, peer_id: u64, height: u32)
        ensures
            final(self)@ == (if old(self)@.peers.contains_key(peer_id) {
                let p = old(self)@.peers[peer_id];
                ManagerView {
                    peers: old(self)@.peers.insert(
                        peer_id,
                        PeerView {
                            start_height: if height > p.start_height {
                                height
                            } else {
                                p.start_height
                            },
                            ..p
                        },
                    ),
                    ..old(self)@
                }
            } else {
                old(self)@
            }),
            final(self).introduction() == old(self).introduction(),
    {
        match self.peers.remove(peer_id) {
            Some(mut peer) => {
                peer.note_height(height);
                let _ = self.peers.insert(peer_id, peer);
            },
            None => {},
        }
        assert(self@ =~= (if old(self)@.peers.contains_key(peer_id) {
            ManagerView {
                peers: old(self)@.peers.insert(peer_id, self@.peers[peer_id]),
                ..old(self)@
            }
        } else {
            old(self)@
        }));
    }

    /// Removes a peer and what is kept of it.
    pub fn forget(&mut self, peer_id: u64) -> (r: bool)
        ensures
            r == old(self)@.peers.contains_key(peer_id),
            final(self)@ == forgotten(old(self)@, peer_id),
            final(self).introduction() == old(self).introduction(),
    {
        match self.peers.remove(peer_id) {
            Some(peer) => {
                let ip: IpAddr = peer.get_addr().ip;
                self.dos_protection.record_disconnection(peer_id, ip, peer.is_inbound());
                self.batcher.clear_peer(peer_id);
                self.broadcast_cache.clear_peer(peer_id);
                self.security.remove_peer(peer_id);
                true
            },
            None => {
                assert(self@.peers =~= old(self)@.peers);
                false
            },
        }
    }

    /// Disconnects a peer.
    pub fn disconnect_peer(&mut self, peer_id: u64, sync: &mut SyncManager, now: u64) -> (r: Result<
        Vec<Outgoing>,
        PeerNotFound,
    >)
        requires
            old(sync).valid(),
        ensures
            r is Ok <==> old(self)@.peers.contains_key(peer_id),
            ({
                let d = departed(old(self)@, old(sync)@, peer_id, now);
                &&& final(self)@ == d.manager
                &&& final(sync)@ == d.sync
                &&& r matches Ok(sends) ==> views(sends@) == d.sends
            }),
            final(sync).valid(),
            final(self).introduction() == old(self).introduction(),
    {
        if self.forget(peer_id) {
            Ok(sync.on_peer_disconnected(peer_id, now))
        } else {
            Err(PeerNotFound)
        }
    }

    /// Disconnects the peers of a list.
    pub fn disconnect_all(&mut self, ids: &Vec<u64>, sync: &mut SyncManager, now: u64) -> (sends:
        Vec<Outgoing>)
        requires
            old(sync).valid(),
        ensures
            ({
                let d = all_departed(old(self)@, old(sync)@, ids@, ids@.len(), now);
                &&& final(self)@ == d.manager
                &&& final(sync)@ == d.sync
                &&& views(sends@) == d.sends
            }),
            final(sync).valid(),
            final(self).introduction() == old(self).introduction(),
    {
        let mut sends: Vec<Outgoing> = Vec::new();
        let mut i: usize = 0;
        assert(views(sends@) =~= Seq::<OutgoingView>::empty());
        while i < ids.len()
            invariant
                i <= ids@.len(),
                sync.valid(),
                ({
                    let d = all_departed(old(self)@, old(sync)@, ids@, i as nat, now);
                    &&& self@ == d.manager
                    &&& sync@ == d.sync
                    &&& views(sends@) == d.sends
                }),
                self.introduction() == old(self).introduction(),
            decreases ids@.len() - i,
        {
            let ghost so_far = views(sends@);
            match self.disconnect_peer(ids[i], sync, now) {
                Ok(mut more) => {
                    let ghost news = views(more@);
                    sends.append(&mut more);
                    assert(views(sends@) =~= so_far + news);
                },
                Err(_) => {
                    assert(so_far =~= so_far + Seq::<OutgoingView>::empty());
                },
            }
            i += 1;
        }
        sends
    }

    /// Adds to the points of a peer, and disconnects it where they are too many.
    pub fn punish_peer(&mut self, peer_id: u64, score: u32, sync: &mut SyncManager, now: u64) -> (
        sends: Vec<Outgoing>)
        requires
            old(sync).valid(),
        ensures
            ({
                let m = old(self)@;
                let p = with_points(m.peers[peer_id], score);
                let m1 = ManagerView { peers: m.peers.insert(peer_id, p), ..m };
                let d = if !m.peers.contains_key(peer_id) {
                    Departure { manager: m, sync: old(sync)@, sends: Seq::empty() }
                } else if banned(p) {
                    departed(m1, old(sync)@, peer_id, now)
                } else {
                    Departure { manager: m1, sync: old(sync)@, sends: Seq::empty() }
                };
                &&& final(self)@ == d.manager
                &&& final(sync)@ == d.sync
                &&& views(sends@) == d.sends
            }),
            final(sync).valid(),
            final(self).introduction() == old(self).introduction(),
    {
        let ghost before = self@;
        let none: Vec<Outgoing> = Vec::new();
        assert(views(none@) =~= Seq::<OutgoingView>::empty());
        match self.peers.remove(peer_id) {
            Some(mut peer) => {
                peer.add_ban_score(score);
                let should_remove: bool = peer.should_ban();
                let _ = self.peers.insert(peer_id, peer);
                assert(self@.peers =~= before.peers.insert(
                    peer_id,
                    with_points(before.peers[peer_id], score),
                ));
                if should_remove {
                    match self.disconnect_peer(peer_id, sync, now) {
                        Ok(sends) => {
                            return sends;
                        },
                        Err(_) => {},
                    }
                }
            },
            None => {
                assert(self@.peers =~= before.peers);
            },
        }
        none
    }

    /// Disconnects the peers that sent nothing for too long.
    pub fn cleanup_inactive_peers(&mut self, sync: &mut SyncManager, now: u64) -> (sends: Vec<
        Outgoing,
    >)
        requires
            old(sync).valid(),
        ensures
            ({
                let silent = picked(old(self)@.peers, Pick::Silent, now);
                let d = all_departed(old(self)@, old(sync)@, silent, silent.len(), now);
                &&& final(self)@ == d.manager
                &&& final(sync)@ == d.sync
                &&& views(sends@) == d.sends
            }),
            final(sync).valid(),
            final(self).introduction() == old(self).introduction(),
    {
        let silent = self.pick(Pick::Silent, now);
        self.disconnect_all(&silent, sync, now)
    }

    /// Disconnects the peers that sent nothing for too long and those that send too much.
    pub fn maintain(&mut self, sync: &mut SyncManager, now: u64) -> (sends: Vec<Outgoing>)
        requires
            old(sync).valid(),
        ensures
            ({
                let dead = picked(old(self)@.peers, Pick::Dead, now);
                let d = all_departed(old(self)@, old(sync)@, dead, dead.len(), now);
                &&& final(self)@ == d.manager
                &&& final(sync)@ == d.sync
                &&& views(sends@) == d.sends
            }),
            final(sync).valid(),
            final(self).introduction() == old(self).introduction(),
    {
        let dead = self.pick(Pick::Dead, now);
        self.disconnect_all(&dead, sync, now)
    }

    /// Removes the peers to which a message could not be sent.
    pub fn forget_all(&mut self, ids: &Vec<u64>)
        ensures
            final(self)@ == all_forgotten(old(self)@, ids@, ids@.len()),
            final(self).introduction() == old(self).introduction(),
    {
        let mut i: usize = 0;
        while i < ids.len()
            invariant
                i <= ids@.len(),
                self@ == all_forgotten(old(self)@, ids@, i as nat),
                self.introduction() == old(self).introduction(),
            decreases ids@.len() - i,
        {
            let _ = self.forget(ids[i]);
            i += 1;
        }
    }

    fn connected_to(&self, ip: IpAddr) -> (r: bool)
        ensures
            r == has_ip(self@.peers, ip@),
    {
        let ids = self.peers.ids();
        let mut i: usize = 0;
        while i < ids.len()
            invariant
                i <= ids@.len(),
                forall|id: u64|
                    #![trigger self.peers@.contains_key(id)]
                    self.peers@.contains_key(id) <==> ids@.contains(id),
                forall|k: int| 0 <= k < i ==> self.peers@[#[trigger] ids@[k]].addr.ip != ip@,
            decreases ids@.len() - i,
        {
            let id: u64 = ids[i];
            assert(ids@.contains(id));
            assert(self.peers@.contains_key(id));
            match self.peers.get(id) {
                Some(peer) => {
                    if peer.get_addr().ip == ip {
                        return true;
                    }
                },
                None => {},
            }
            i += 1;
        }
        assert forall|id: u64| #[trigger]
            self.peers@.contains_key(id) implies self.peers@[id].addr.ip != ip@ by {
            let k = choose|k: int| 0 <= k < ids@.len() && ids@[k] == id;
            assert(ids@[k] == id);
        }
        false
    }

    /// Whether we may connect to an address.
    pub fn check_outbound(&self, addr: SocketAddr, now: u64) -> (r: Result<(), Refusal>)
        ensures
            match r {
                Ok(_) => outbound_refusal(self@, addr@.ip, now) is None,
                Err(e) => outbound_refusal(self@, addr@.ip, now) == Some(e),
            },
    {
        let ip: IpAddr = addr.ip;
        if !self.dos_protection.can_connect_outbound(ip, now) {
            return Err(Refusal::DosProtection);
        }
        if self.peers.len() >= self.max_peers {
            return Err(Refusal::MaxPeersReached);
        }
        // Skip if already connected to this IP
        if self.connected_to(ip) {
            return Err(Refusal::AlreadyConnected);
        }
        Ok(())
    }

    /// Notes that an address could not be reached.
    pub fn outbound_failed(&mut self, addr: SocketAddr, now: u64)
        ensures
            final(self)@ == (ManagerView {
                dos: attempt_failed(old(self)@.dos, ip_key(addr@.ip), now),
                ..old(self)@
            }),
            final(self).introduction() == old(self).introduction(),
    {
        self.dos_protection.record_failed_attempt(addr.ip, now);
    }

    /// A peer that we reached, before the handshake, or nothing once all numbers were
    /// given out.
    pub fn begin_outbound(&mut self, addr: SocketAddr, now: u64) -> (r: Option<Peer>)
        ensures
            match r {
                Some(p) => old(self)@.next_id < u64::MAX && p@ == fresh_peer(
                    old(self)@.next_id,
                    addr@,
                    PeerState::Connected,
                    false,
                    now,
                ) && final(self)@ == numbered(old(self)@),
                None => old(self)@.next_id == u64::MAX && final(self)@ == old(self)@,
            },
            final(self).introduction() == old(self).introduction(),
    {
        if self.next_peer_id == u64::MAX {
            return None;
        }
        let id: u64 = self.next_peer_id;
        self.next_peer_id = id + 1;
        Some(Peer::new_outbound(id, addr, now))
    }

    /// Whether somebody may connect to us: the peer, before the handshake, or why not.
    pub fn accept_inbound(&mut self, addr: SocketAddr, now: u64) -> (r: Result<Peer, Refusal>)
        ensures
            match r {
                Ok(p) => inbound_refusal(old(self)@, addr@.ip, now) is None && p@ == fresh_peer(
                    old(self)@.next_id,
                    addr@,
                    PeerState::Connected,
                    true,
                    now,
                ) && final(self)@ == numbered(knocked(old(self)@, addr@.ip, now)),
                Err(e) => inbound_refusal(old(self)@, addr@.ip, now) == Some(e) && final(self)@
                    == knocked(old(self)@, addr@.ip, now),
            },
            final(self).introduction() == old(self).introduction(),
    {
        let ip: IpAddr = addr.ip;
        let known: bool = trusted(&ip);
        if !known && !self.dos_protection.can_accept_inbound(ip, now) {
            self.dos_protection.record_failed_attempt(ip, now);
            return Err(Refusal::DosProtection);
        }
        // Diversity check
        let count: usize = self.peers.len();
        let is_regtest: bool = bytes_equal(&self.magic, &REGTEST_MAGIC);
        if !is_regtest && !known && !self.security.can_accept_for_diversity(ip, count) {
            return Err(Refusal::Diversity);
        }
        // Skip if already connected to this IP (but allow trusted peers to reconnect)
        if !known && self.connected_to(ip) {
            return Err(Refusal::AlreadyConnected);
        }
        if count >= self.max_peers {
            return Err(Refusal::MaxPeersReached);
        }
        if self.next_peer_id == u64::MAX {
            return Err(Refusal::NoNumberLeft);
        }
        let id: u64 = self.next_peer_id;
        self.next_peer_id = id + 1;
        Ok(Peer::new_inbound(id, addr, now))
    }

    /// Takes a peer in that completed the handshake.
    pub fn complete(&mut self, peer: Peer, now: u64)
        ensures
            final(self)@ == welcomed(old(self)@, peer@, now),
            final(self).introduction() == old(self).introduction(),
    {
        let mut peer = peer;
        peer.activate(now);
        let id: u64 = peer.get_id();
        let ip: IpAddr = peer.get_addr().ip;
        let inbound: bool = peer.is_inbound();
        let _ = self.peers.insert(id, peer);
        self.dos_protection.record_connection(id, ip, inbound, now);
        self.security.record_peer(id, ip, now);
    }

    /// Clear the DoS failed-attempt cooldown for an IP so recovery can immediately retry a
    /// configured seed node after a transient TCP failure.
    pub fn clear_failed_attempt(&mut self, ip: IpAddr)
        ensures
            final(self)@ == (ManagerView {
                dos: DosView { failed: old(self)@.dos.failed.remove(ip_key(ip@)), ..old(self)@.dos },
                ..old(self)@
            }),
            final(self).introduction() == old(self).introduction(),
    {
        self.dos_protection.clear_failed_attempt(ip);
    }

    /// Whether one part of the network seems to surround us.
    pub fn check_network_health(&self, now: u64) -> (r: bool)
        ensures
            r == crate::network::security::surrounded(self@.security, now),
    {
        self.security.detect_eclipse_attempt(now)
    }

    /// Counts a message that was sent to a peer.
    pub fn record_sent(&mut self, peer_id: u64, size: usize) -> (r: bool)
        ensures
            r == old(self)@.peers.contains_key(peer_id),
            final(self)@ == sent_counted(old(self)@, peer_id, size as nat),
            final(self).introduction() == old(self).introduction(),
    {
        match self.peers.remove(peer_id) {
            Some(mut peer) => {
                peer.record_sent(size);
                let _ = self.peers.insert(peer_id, peer);
                assert(self@.peers =~= sent_counted(old(self)@, peer_id, size as nat).peers);
                true
            },
            None => {
                assert(self@.peers =~= old(self)@.peers);
                false
            },
        }
    }

    /// Handles a message of a peer: inspects it, and disconnects the peer where it is to be
    /// banned.
    pub fn handle_message(
        &mut self,
        peer_id: u64,
        msg: &NetworkMessage,
        sync: &mut SyncManager,
        stats: &mut NetworkStats,
        time: u64,
        now: u64,
    ) -> (r: Handling)
        requires
            old(sync).valid(),
            NetworkMessage::encoding(msg@).len() <= usize::MAX,
        ensures
            ({
                let want = message_handled(
                    old(self)@,
                    old(sync)@,
                    *old(stats),
                    peer_id,
                    msg@,
                    time,
                    now,
                );
                &&& final(self)@ == want.manager
                &&& final(sync)@ == want.sync
                &&& *final(stats) == want.stats
                &&& views(r.sends@) == want.sends
                &&& r.verdict@ == want.verdict
                &&& r.recover == want.recover
            }),
            final(sync).valid(),
            final(self).introduction() == old(self).introduction(),
    {
        let ghost before = self@;
        let none: Vec<Outgoing> = Vec::new();
        assert(views(none@) =~= Seq::<OutgoingView>::empty());
        let mut peer = match self.peers.remove(peer_id) {
            Some(peer) => peer,
            None => {
                assert(self@.peers =~= before.peers);
                return Handling { verdict: Verdict::Drop, sends: none, recover: false };
            },
        };
        let ghost p = peer@;
        let verdict = inspect(&mut peer, stats, msg, time, now);
        let _ = self.peers.insert(peer_id, peer);
        assert(self@.peers =~= before.peers.insert(peer_id, peer@));
        match verdict {
            Verdict::Ban => {
                match self.disconnect_peer(peer_id, sync, now) {
                    Ok(sends) => {
                        let recover: bool = self.peers.len() == 0;
                        Handling { verdict, sends, recover }
                    },
                    Err(_) => Handling { verdict, sends: none, recover: false },
                }
            },
            _ => Handling { verdict, sends: none, recover: false },
        }
    }

    /// Removes a peer whose connection failed. Says also whether no peer is left.
    pub fn connection_lost(
        &mut self,
        peer_id: u64,
        sync: &mut SyncManager,
        stats: &mut NetworkStats,
        now: u64,
    ) -> (r: (Vec<Outgoing>, bool))
        requires
            old(sync).valid(),
        ensures
            ({
                let d = departed(old(self)@, old(sync)@, peer_id, now);
                &&& final(self)@ == d.manager
                &&& final(sync)@ == d.sync
                &&& views(r.0@) == d.sends
                &&& r.1 == (d.manager.peers.dom().len() == 0)
            }),
            *final(stats) == (NetworkStats {
                current_connections: one_less(old(stats).current_connections),
                ..*old(stats)
            }),
            final(sync).valid(),
            final(self).introduction() == old(self).introduction(),
    {
        stats.record_connection_closed();
        let sends = match self.disconnect_peer(peer_id, sync, now) {
            Ok(sends) => sends,
            Err(_) => Vec::new(),
        };
        let none_left: bool = self.peers.len() == 0;
        (sends, none_left)
    }

    /// Announces an item to all peers that were not told of it.
    pub fn broadcast_inventory(&mut self, item: InvVector, now: u64)
        ensures
            ({
                let ids = listing(old(self)@.peers.dom());
                let (b, c) = inventory_told(
                    old(self)@.batcher,
                    old(self)@.cache,
                    item,
                    ids,
                    ids.len(),
                    now,
                );
                final(self)@ == (ManagerView { batcher: b, cache: c, ..old(self)@ })
            }),
            final(self).introduction() == old(self).introduction(),
    {
        let ids = self.peers.ids();
        let mut i: usize = 0;
        while i < ids.len()
            invariant
                i <= ids@.len(),
                ({
                    let (b, c) = inventory_told(
                        old(self)@.batcher,
                        old(self)@.cache,
                        item,
                        ids@,
                        i as nat,
                        now,
                    );
                    self@ == (ManagerView { batcher: b, cache: c, ..old(self)@ })
                }),
                self.introduction() == old(self).introduction(),
            decreases ids@.len() - i,
        {
            let id: u64 = ids[i];
            if !self.broadcast_cache.already_sent(id, &item.hash) {
                self.batcher.add_inv(id, item, now);
                self.broadcast_cache.mark_sent(id, item.hash);
            }
            i += 1;
        }
    }

    /// The batches that are due.
    pub fn flush_batches(&mut self, now: u64) -> (out: Vec<(u64, Vec<NetworkMessage>)>)
        ensures
            ({
                let ids = listing(crate::network::batch::waiting_peers(old(self)@.batcher));
                let (b, sent) = crate::network::batch::flushed(old(self)@.batcher, ids, now);
                &&& final(self)@ == (ManagerView { batcher: b, ..old(self)@ })
                &&& crate::network::batch::peer_messages(out@) == sent
            }),
            final(self).introduction() == old(self).introduction(),
    {
        self.batcher.flush_all_needed(now)
    }
}

} // verus!
