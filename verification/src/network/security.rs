//! Keeps the peers spread over many networks.

use crate::collections::id_map::IdMap;
use crate::network::address::{IpAddr, IpAddrView};
use crate::primitives::serialize::views;
use vstd::prelude::*;

verus! {

// Security parameters
/// Min different /16 subnets
pub const MIN_SUBNET_DIVERSITY: usize = 8;

/// Max peers from same /16
pub const MAX_PEERS_PER_SUBNET: usize = 3;

/// Always-on trusted peers
pub const ANCHOR_CONNECTIONS: usize = 2;

/// 2 minutes, in nanoseconds
pub const FEELER_INTERVAL: u64 = 120_000_000_000;

/// Entries older than this are pruned from the history on every update, in
/// nanoseconds.
pub const CONNECTION_HISTORY_MAX_AGE: u64 = 60_000_000_000;

/// Max percentage of peers from one netgroup
pub const MAX_NETGROUP_PERCENTAGE: usize = 30;

/// Most entries of the history.
pub const CONNECTION_HISTORY_MAX: usize = 100;

/// Five minutes, in nanoseconds.
pub const ECLIPSE_WINDOW: u64 = 300_000_000_000;

/// A network that addresses belong to.
#[derive(Debug, Clone, Copy, PartialEq, Eq, Hash, Structural)]
pub enum NetGroup {
    /// First 16 bits of IPv4
    Ipv4Subnet16(u16),
    /// First 32 bits of IPv6
    Ipv6Subnet32(u32),
    Local,
}

/// Two bytes as a number, the first one the higher.
pub open spec fn pair(high: u8, low: u8) -> int {
    high * 256 + low
}

/// The network of an address.
pub open spec fn group_of(ip: IpAddrView) -> NetGroup {
    match ip {
        IpAddrView::V4(o) => if o[0] == 127 || o[0] == 10 {
            NetGroup::Local
        } else {
            NetGroup::Ipv4Subnet16(pair(o[0], o[1]) as u16)
        },
        IpAddrView::V6(o) => if pair(o[0], o[1]) == 0xfe80 || pair(o[0], o[1]) == 0 {
            NetGroup::Local
        } else {
            NetGroup::Ipv6Subnet32((pair(o[0], o[1]) * 65536 + pair(o[2], o[3])) as u32)
        },
    }
}

/// A number for a network.
pub open spec fn group_code(g: NetGroup) -> u64 {
    match g {
        NetGroup::Local => 0,
        NetGroup::Ipv4Subnet16(n) => (0x1_0000_0000 + n) as u64,
        NetGroup::Ipv6Subnet32(n) => (0x2_0000_0000 + n) as u64,
    }
}

/// Different networks have different numbers.
pub proof fn lemma_group_code_differs(a: NetGroup, b: NetGroup)
    ensures
        group_code(a) == group_code(b) ==> a == b,
{
}

/// The number of the network of an address.
pub open spec fn code_of(ip: IpAddrView) -> u64 {
    group_code(group_of(ip))
}

impl NetGroup {
    pub fn from_ip(ip: IpAddr) -> (r: Self)
        ensures
            r == group_of(ip@),
    {
        match ip {
            IpAddr::V4(o) => {
                if o[0] == 127 || o[0] == 10 {
                    NetGroup::Local
                } else {
                    NetGroup::Ipv4Subnet16(o[0] as u16 * 256 + o[1] as u16)
                }
            },
            IpAddr::V6(o) => {
                let first: u32 = o[0] as u32 * 256 + o[1] as u32;
                let second: u32 = o[2] as u32 * 256 + o[3] as u32;
                if first == 0xfe80 || first == 0 {
                    NetGroup::Local
                } else {
                    NetGroup::Ipv6Subnet32(first * 65536 + second)
                }
            },
        }
    }

    /// A number for the network.
    pub fn code(&self) -> (r: u64)
        ensures
            r == group_code(*self),
    {
        match self {
            NetGroup::Local => 0,
            NetGroup::Ipv4Subnet16(n) => 0x1_0000_0000 + *n as u64,
            NetGroup::Ipv6Subnet32(n) => 0x2_0000_0000 + *n as u64,
        }
    }
}

/// What is known of the networks of peers.
#[verifier::ext_equal]
pub struct SecurityView {
    /// The peers of each network, by its number.
    pub groups: Map<u64, Seq<u64>>,
    /// The number of the network of each peer.
    pub group_by_peer: Map<u64, u64>,
    pub anchors: Set<u64>,
    pub last_feeler: u64,
    pub feelers: Set<u64>,
    /// When which address connected, the latest at the end.
    pub history: Seq<(u64, IpAddrView)>,
}

/// The peers of a network.
pub open spec fn peers_in(groups: Map<u64, Seq<u64>>, code: u64) -> Seq<u64> {
    if groups.contains_key(code) {
        groups[code]
    } else {
        Seq::empty()
    }
}

/// Whether one more peer from an address leaves the peers spread: its network has
/// few of them, and not more than the share that one network may have.
pub open spec fn keeps_diversity(v: SecurityView, ip: IpAddrView, total_peers: usize) -> bool {
    let count = peers_in(v.groups, code_of(ip)).len();
    total_peers == 0 || (count < MAX_PEERS_PER_SUBNET && (count + 1) * 100
        <= MAX_NETGROUP_PERCENTAGE * (total_peers + 1))
}

/// The entries that are younger than an age.
pub open spec fn younger(history: Seq<(u64, IpAddrView)>, age: u64, now: u64) -> Seq<
    (u64, IpAddrView),
>
    decreases history.len(),
{
    if history.len() == 0 {
        history
    } else if now - history.last().0 < age {
        younger(history.drop_last(), age, now).push(history.last())
    } else {
        younger(history.drop_last(), age, now)
    }
}

/// The history once an address connected.
pub open spec fn history_with(history: Seq<(u64, IpAddrView)>, ip: IpAddrView, now: u64) -> Seq<
    (u64, IpAddrView),
> {
    let h = younger(history.push((now, ip)), CONNECTION_HISTORY_MAX_AGE, now);
    if h.len() > CONNECTION_HISTORY_MAX {
        h.skip(1)
    } else {
        h
    }
}

/// What is known once a peer connected.
pub open spec fn with_peer(v: SecurityView, peer: u64, ip: IpAddrView, now: u64) -> SecurityView {
    let code = code_of(ip);
    SecurityView {
        groups: v.groups.insert(code, peers_in(v.groups, code).push(peer)),
        group_by_peer: v.group_by_peer.insert(peer, code),
        history: history_with(v.history, ip, now),
        ..v
    }
}

/// Peers without one of them.
pub open spec fn others(peers: Seq<u64>, peer: u64) -> Seq<u64>
    decreases peers.len(),
{
    if peers.len() == 0 {
        peers
    } else if peers.last() == peer {
        others(peers.drop_last(), peer)
    } else {
        others(peers.drop_last(), peer).push(peers.last())
    }
}

/// The networks without a peer of one of them.
pub open spec fn groups_without(groups: Map<u64, Seq<u64>>, code: u64, peer: u64) -> Map<
    u64,
    Seq<u64>,
> {
    if !groups.contains_key(code) {
        groups
    } else if others(groups[code], peer).len() == 0 {
        groups.remove(code)
    } else {
        groups.insert(code, others(groups[code], peer))
    }
}

/// What is known once a peer is gone.
pub open spec fn without_peer(v: SecurityView, peer: u64) -> SecurityView {
    SecurityView {
        groups: if v.group_by_peer.contains_key(peer) {
            groups_without(v.groups, v.group_by_peer[peer], peer)
        } else {
            v.groups
        },
        group_by_peer: v.group_by_peer.remove(peer),
        anchors: v.anchors.remove(peer),
        feelers: v.feelers.remove(peer),
        ..v
    }
}

/// How many entries are of a network.
pub open spec fn entries_of(history: Seq<(u64, IpAddrView)>, code: u64) -> nat
    decreases history.len(),
{
    if history.len() == 0 {
        0
    } else if code_of(history.last().1) == code {
        entries_of(history.drop_last(), code) + 1
    } else {
        entries_of(history.drop_last(), code)
    }
}

/// The numbers of the networks of entries.
pub open spec fn codes(history: Seq<(u64, IpAddrView)>) -> Seq<u64> {
    Seq::new(history.len(), |i: int| code_of(history[i].1))
}

/// The last twenty entries.
pub open spec fn last_twenty(history: Seq<(u64, IpAddrView)>) -> Seq<(u64, IpAddrView)> {
    history.skip(history.len() - 20)
}

/// Whether connections look as if someone surrounded the node: many of one network
/// in a short time, or the last twenty of at most two networks.
pub open spec fn surrounded(v: SecurityView, now: u64) -> bool {
    let recent = younger(v.history, ECLIPSE_WINDOW, now);
    ||| recent.len() >= 10 && exists|code: u64| #[trigger] entries_of(recent, code) > 7
    ||| v.history.len() >= 20 && codes(last_twenty(v.history)).to_set().len() <= 2
}

/// Whether a network has most peers.
pub open spec fn is_largest(groups: Map<u64, Seq<u64>>, code: u64) -> bool {
    &&& groups.contains_key(code)
    &&& forall|c: u64| #[trigger] groups.contains_key(c) ==> groups[c].len() <= groups[code].len()
}

/// The first peer that is no anchor.
pub open spec fn first_evictable(peers: Seq<u64>, anchors: Set<u64>) -> Option<u64>
    decreases peers.len(),
{
    if peers.len() == 0 {
        None
    } else if !anchors.contains(peers[0]) {
        Some(peers[0])
    } else {
        first_evictable(peers.skip(1), anchors)
    }
}

/// How many peers the first `n` networks of a list have together.
pub open spec fn peer_total(groups: Map<u64, Seq<u64>>, list: Seq<u64>, n: nat) -> nat
    decreases n,
{
    if n == 0 {
        0
    } else {
        peer_total(groups, list, (n - 1) as nat) + groups[list[n - 1]].len()
    }
}

/// An anchor is never chosen for eviction.
pub proof fn lemma_anchors_stay(peers: Seq<u64>, anchors: Set<u64>)
    ensures
        match first_evictable(peers, anchors) {
            Some(p) => peers.contains(p) && !anchors.contains(p),
            None => forall|i: int| 0 <= i < peers.len() ==> anchors.contains(#[trigger] peers[i]),
        },
    decreases peers.len(),
{
    if peers.len() > 0 && anchors.contains(peers[0]) {
        let rest = peers.skip(1);
        lemma_anchors_stay(rest, anchors);
        match first_evictable(rest, anchors) {
            Some(p) => {
                let i = choose|i: int| 0 <= i < rest.len() && rest[i] == p;
                assert(peers[i + 1] == p);
            },
            None => {
                assert forall|i: int| 0 <= i < peers.len() implies anchors.contains(
                    #[trigger] peers[i],
                ) by {
                    if i > 0 {
                        assert(rest[i - 1] == peers[i]);
                    }
                }
            },
        }
    }
}

/// Watches the networks that peers come from.
pub struct NetworkSecurity {
    // Subnet tracking
    peers_by_netgroup: IdMap<Vec<u64>>,
    netgroups_by_peer: IdMap<u64>,
    // Anchor peers (trusted, persistent)
    anchor_peers: IdMap<bool>,
    // Feeler connections (test new addresses)
    last_feeler: u64,
    feeler_peers: IdMap<bool>,
    // Eclipse detection
    connection_history: Vec<(u64, IpAddr)>,
}

impl View for NetworkSecurity {
    type V = SecurityView;

    closed spec fn view(&self) -> SecurityView {
        SecurityView {
            groups: self.peers_by_netgroup@,
            group_by_peer: self.netgroups_by_peer@,
            anchors: self.anchor_peers@.dom(),
            last_feeler: self.last_feeler,
            feelers: self.feeler_peers@.dom(),
            history: views(self.connection_history@),
        }
    }
}

fn keep_younger(history: &Vec<(u64, IpAddr)>, age: u64, now: u64) -> (r: Vec<(u64, IpAddr)>)
    ensures
        views(r@) == younger(views(history@), age, now),
{
    let ghost all = views(history@);
    let mut out: Vec<(u64, IpAddr)> = Vec::new();
    let mut i: usize = 0;
    assert(views(out@) =~= younger(all.take(0), age, now));
    while i < history.len()
        invariant
            i <= history@.len(),
            all == views(history@),
            views(out@) == younger(all.take(i as int), age, now),
        decreases history@.len() - i,
    {
        let entry = history[i];
        let ghost before = out@;
        proof {
            let part = all.take(i + 1);
            assert(part.last() == entry@);
            assert(part.drop_last() =~= all.take(i as int));
        }
        if now < entry.0 || now - entry.0 < age {
            out.push(entry);
            assert(views(out@) =~= views(before).push(entry@));
        }
        i += 1;
    }
    assert(all.take(i as int) =~= all);
    out
}

fn count_entries(history: &Vec<(u64, IpAddr)>, code: u64) -> (n: usize)
    ensures
        n == entries_of(views(history@), code),
{
    let ghost all = views(history@);
    let mut n: usize = 0;
    let mut i: usize = 0;
    while i < history.len()
        invariant
            n <= i <= history@.len(),
            all == views(history@),
            n == entries_of(all.take(i as int), code),
        decreases history@.len() - i,
    {
        proof {
            let part = all.take(i + 1);
            assert(part.last() == history@[i as int]@);
            assert(part.drop_last() =~= all.take(i as int));
        }
        if NetGroup::from_ip(history[i].1).code() == code {
            n += 1;
        }
        i += 1;
    }
    assert(all.take(i as int) =~= all);
    n
}

proof fn lemma_counted_is_there(history: Seq<(u64, IpAddrView)>, code: u64)
    requires
        entries_of(history, code) > 0,
    ensures
        exists|i: int| 0 <= i < history.len() && #[trigger] codes(history)[i] == code,
    decreases history.len(),
{
    let n = history.len() - 1;
    if code_of(history.last().1) == code {
        assert(codes(history)[n] == code);
    } else {
        let front = history.drop_last();
        lemma_counted_is_there(front, code);
        let i = choose|i: int| 0 <= i < front.len() && #[trigger] codes(front)[i] == code;
        assert(codes(history)[i] == code);
    }
}

fn drop_other(peers: &Vec<u64>, peer: u64) -> (r: Vec<u64>)
    ensures
        r@ == others(peers@, peer),
{
    let mut out: Vec<u64> = Vec::new();
    let mut i: usize = 0;
    while i < peers.len()
        invariant
            i <= peers@.len(),
            out@ == others(peers@.take(i as int), peer),
        decreases peers@.len() - i,
    {
        let p: u64 = peers[i];
        assert(peers@.take(i + 1).drop_last() =~= peers@.take(i as int));
        if p != peer {
            out.push(p);
        }
        i += 1;
    }
    assert(peers@.take(i as int) =~= peers@);
    out
}

impl NetworkSecurity {
    pub fn new(now: u64) -> (r: Self)
        ensures
            r@ == (SecurityView {
                groups: Map::empty(),
                group_by_peer: Map::empty(),
                anchors: Set::empty(),
                last_feeler: now,
                feelers: Set::empty(),
                history: Seq::empty(),
            }),
    {
        let r = NetworkSecurity {
            peers_by_netgroup: IdMap::new(),
            netgroups_by_peer: IdMap::new(),
            anchor_peers: IdMap::new(),
            last_feeler: now,
            feeler_peers: IdMap::new(),
            connection_history: Vec::new(),
        };
        assert(r@.history =~= Seq::empty());
        assert(r@.anchors =~= Set::empty());
        assert(r@.feelers =~= Set::empty());
        r
    }

    /// Check if connection maintains network diversity
    pub fn can_accept_for_diversity(&self, ip: IpAddr, total_peers: usize) -> (r: bool)
        ensures
            r == keeps_diversity(self@, ip@, total_peers),
    {
        if total_peers == 0 {
            return true;  // Always accept first peer
        }
        let code: u64 = NetGroup::from_ip(ip).code();
        let count: usize = match self.peers_by_netgroup.get(code) {
            Some(peers) => peers.len(),
            None => 0,
        };
        // Check subnet limit
        if count >= MAX_PEERS_PER_SUBNET {
            return false;
        }
        // Check netgroup percentage
        (count as u128 + 1) * 100 <= 30 * (total_peers as u128 + 1)
    }

    /// Record new peer connection
    pub fn record_peer(&mut self, peer_id: u64, ip: IpAddr, now: u64)
        ensures
            final(self)@ == with_peer(old(self)@, peer_id, ip@, now),
    {
        let ghost before = self@;
        let code: u64 = NetGroup::from_ip(ip).code();
        let mut peers: Vec<u64> = match self.peers_by_netgroup.remove(code) {
            Some(peers) => peers,
            None => Vec::new(),
        };
        peers.push(peer_id);
        let _ = self.peers_by_netgroup.insert(code, peers);
        assert(self@.groups =~= before.groups.insert(
            code,
            peers_in(before.groups, code).push(peer_id),
        ));
        let _ = self.netgroups_by_peer.insert(peer_id, code);
        // Track connection history for Eclipse detection.
        self.connection_history.push((now, ip));
        assert(views(self.connection_history@) =~= before.history.push((now, ip@)));
        // Time-based pruning: drop entries older than the maximal age.
        let mut history = keep_younger(
            &self.connection_history,
            CONNECTION_HISTORY_MAX_AGE,
            now,
        );
        // Count-based cap as a secondary safety bound.
        let ghost young = views(history@);
        if history.len() > CONNECTION_HISTORY_MAX {
            let _ = history.remove(0);
            assert(views(history@) =~= young.skip(1));
        }
        self.connection_history = history;
    }

    /// Record peer disconnection
    pub fn remove_peer(&mut self, peer_id: u64)
        ensures
            final(self)@ == without_peer(old(self)@, peer_id),
    {
        let ghost before = self@;
        if let Some(code) = self.netgroups_by_peer.remove(peer_id) {
            if let Some(peers) = self.peers_by_netgroup.remove(code) {
                let left = drop_other(&peers, peer_id);
                if left.len() > 0 {
                    let _ = self.peers_by_netgroup.insert(code, left);
                }
            }
            assert(self@.groups =~= groups_without(before.groups, code, peer_id));
        }
        let _ = self.anchor_peers.remove(peer_id);
        let _ = self.feeler_peers.remove(peer_id);
        assert(self@.anchors =~= before.anchors.remove(peer_id));
        assert(self@.feelers =~= before.feelers.remove(peer_id));
    }

    /// Mark peer as anchor (trusted, persistent)
    pub fn add_anchor(&mut self, peer_id: u64)
        ensures
            final(self)@ == (SecurityView {
                anchors: old(self)@.anchors.insert(peer_id),
                ..old(self)@
            }),
    {
        let _ = self.anchor_peers.insert(peer_id, true);
        assert(self@.anchors =~= old(self)@.anchors.insert(peer_id));
    }

    /// Check if peer is anchor
    pub fn is_anchor(&self, peer_id: u64) -> (r: bool)
        ensures
            r == self@.anchors.contains(peer_id),
    {
        self.anchor_peers.contains(peer_id)
    }

    /// Get number of anchor connections
    pub fn anchor_count(&self) -> (n: usize)
        ensures
            n == self@.anchors.len(),
    {
        self.anchor_peers.len()
    }

    /// Check if should create feeler connection
    pub fn should_create_feeler(&self, now: u64) -> (r: bool)
        ensures
            r == (now - self@.last_feeler >= FEELER_INTERVAL && self@.feelers.len() < 2),
    {
        now >= self.last_feeler && now - self.last_feeler >= FEELER_INTERVAL
            && self.feeler_peers.len() < 2
    }

    /// Mark peer as feeler connection
    pub fn add_feeler(&mut self, peer_id: u64, now: u64)
        ensures
            final(self)@ == (SecurityView {
                feelers: old(self)@.feelers.insert(peer_id),
                last_feeler: now,
                ..old(self)@
            }),
    {
        let _ = self.feeler_peers.insert(peer_id, true);
        self.last_feeler = now;
        assert(self@.feelers =~= old(self)@.feelers.insert(peer_id));
    }

    /// Check if peer is feeler
    pub fn is_feeler(&self, peer_id: u64) -> (r: bool)
        ensures
            r == self@.feelers.contains(peer_id),
    {
        self.feeler_peers.contains(peer_id)
    }

    /// Network diversity statistics: how many networks there are, how many peers
    /// they have together, and how many the largest has.
    pub fn get_diversity_stats(&self) -> (r: (usize, u64, usize))
        requires
            forall|c: u64| #[trigger] self@.groups.contains_key(c) ==> self@.groups[c].len()
                <= u32::MAX,
            self@.groups.dom().len() <= u32::MAX,
        ensures
            r.0 == self@.groups.dom().len(),
            exists|list: Seq<u64>|
                {
                    &&& list.no_duplicates()
                    &&& list.to_set() == self@.groups.dom()
                    &&& r.1 == #[trigger] peer_total(self@.groups, list, list.len())
                },
            forall|c: u64| #[trigger] self@.groups.contains_key(c) ==> self@.groups[c].len()
                <= r.2,
            r.2 == 0 || exists|c: u64| #[trigger] self@.groups.contains_key(c)
                && self@.groups[c].len() == r.2,
    {
        let ids = self.peers_by_netgroup.ids();
        let ghost groups = self@.groups;
        let n: usize = self.peers_by_netgroup.len();
        proof {
            assert(ids@.no_duplicates());
            ids@.unique_seq_to_set();
            assert(ids@.to_set() =~= groups.dom());
        }
        let mut total: u64 = 0;
        let mut largest: usize = 0;
        let mut i: usize = 0;
        while i < ids.len()
            invariant
                i <= ids@.len() <= u32::MAX,
                groups == self@.groups,
                forall|id: u64|
                    #![trigger groups.contains_key(id)]
                    groups.contains_key(id) <==> ids@.contains(id),
                forall|c: u64| #[trigger] groups.contains_key(c) ==> groups[c].len() <= u32::MAX,
                total == peer_total(groups, ids@, i as nat),
                total <= i * u32::MAX,
                forall|j: int| 0 <= j < i ==> groups[#[trigger] ids@[j]].len() <= largest,
                largest == 0 || exists|c: u64| #[trigger] groups.contains_key(c)
                    && groups[c].len() == largest,
            decreases ids@.len() - i,
        {
            let id: u64 = ids[i];
            assert(ids@.contains(id));
            assert(groups.contains_key(id));
            if let Some(peers) = self.peers_by_netgroup.get(id) {
                assert(peers@ == groups[id]);
                assert(i * u32::MAX + u32::MAX == (i + 1) * u32::MAX) by (nonlinear_arith);
                assert((i + 1) * u32::MAX <= u32::MAX * u32::MAX) by (nonlinear_arith)
                    requires
                        i + 1 <= u32::MAX,
                ;
                total = total + peers.len() as u64;
                if peers.len() > largest {
                    largest = peers.len();
                }
            }
            i += 1;
        }
        proof {
            assert forall|c: u64| #[trigger] groups.contains_key(c) implies groups[c].len()
                <= largest by {
                assert(ids@.contains(c));
                let j = choose|j: int| 0 <= j < ids@.len() && ids@[j] == c;
                assert(groups[ids@[j]].len() <= largest);
            }
        }
        (n, total, largest)
    }

    /// Detect potential Eclipse attack
    pub fn detect_eclipse_attempt(&self, now: u64) -> (r: bool)
        ensures
            r == surrounded(self@, now),
    {
        // Many connections from same netgroup in short time
        let recent = keep_younger(&self.connection_history, ECLIPSE_WINDOW, now);
        let ghost all = views(recent@);
        if recent.len() >= 10 {
            let mut i: usize = 0;
            while i < recent.len()
                invariant
                    i <= recent@.len(),
                    recent@.len() >= 10,
                    all == views(recent@),
                    all == younger(self@.history, ECLIPSE_WINDOW, now),
                    forall|j: int| 0 <= j < i ==> entries_of(all, #[trigger] codes(all)[j]) <= 7,
                decreases recent@.len() - i,
            {
                let code: u64 = NetGroup::from_ip(recent[i].1).code();
                assert(codes(all)[i as int] == code);
                if count_entries(&recent, code) > 7 {
                    assert(entries_of(all, code) > 7);
                    return true;
                }
                i += 1;
            }
            proof {
                assert forall|code: u64| #[trigger] entries_of(all, code) <= 7 by {
                    if entries_of(all, code) > 7 {
                        lemma_counted_is_there(all, code);
                        let j = choose|j: int| 0 <= j < all.len() && #[trigger] codes(all)[j]
                            == code;
                        assert(entries_of(all, codes(all)[j]) <= 7);
                    }
                }
            }
        }
        let total: usize = self.connection_history.len();
        if total < 20 {
            return false;
        }
        // Unique netgroups of the last 20 connections
        let start: usize = total - 20;
        let ghost last = last_twenty(self@.history);
        let mut seen: IdMap<bool> = IdMap::new();
        let mut n: usize = 0;
        assert(seen@.dom() =~= codes(last).take(0).to_set());
        while n < 20
            invariant
                n <= 20,
                start + 20 == total,
                total == self.connection_history@.len(),
                last == last_twenty(self@.history),
                seen@.dom() == codes(last).take(n as int).to_set(),
            decreases 20 - n,
        {
            let entry = self.connection_history[start + n];
            let code: u64 = NetGroup::from_ip(entry.1).code();
            let _ = seen.insert(code, true);
            proof {
                assert(last[n as int] == entry@);
                let part = codes(last).take(n as int);
                assert(codes(last).take(n + 1) =~= part.push(code));
                part.lemma_push_to_set_commute(code);
                assert(seen@.dom() =~= codes(last).take(n + 1).to_set());
            }
            n += 1;
        }
        assert(codes(last).take(n as int) =~= codes(last));
        seen.len() <= 2
    }

    /// Get peer for eviction (least diverse netgroup)
    pub fn select_eviction_candidate(&self) -> (r: Option<u64>)
        ensures
            if self@.groups.dom() == Set::<u64>::empty() {
                r is None
            } else {
                exists|code: u64| #[trigger] is_largest(self@.groups, code) && r
                    == first_evictable(self@.groups[code], self@.anchors)
            },
    {
        let ids = self.peers_by_netgroup.ids();
        let ghost groups = self@.groups;
        // Find largest netgroup
        let mut best: Option<u64> = None;
        let mut size: usize = 0;
        let mut i: usize = 0;
        while i < ids.len()
            invariant
                i <= ids@.len(),
                groups == self@.groups,
                forall|id: u64|
                    #![trigger groups.contains_key(id)]
                    groups.contains_key(id) <==> ids@.contains(id),
                best is None ==> i == 0,
                best matches Some(b) ==> groups.contains_key(b) && groups[b].len() == size,
                forall|j: int| 0 <= j < i ==> groups[#[trigger] ids@[j]].len() <= size,
            decreases ids@.len() - i,
        {
            let id: u64 = ids[i];
            assert(ids@.contains(id));
            assert(groups.contains_key(id));
            if let Some(peers) = self.peers_by_netgroup.get(id) {
                if best.is_none() || peers.len() >= size {
                    best = Some(id);
                    size = peers.len();
                }
            }
            i += 1;
        }
        match best {
            None => {
                proof {
                    assert forall|c: u64| !groups.dom().contains(c) by {
                        assert(groups.contains_key(c) <==> ids@.contains(c));
                    }
                    assert(groups.dom() =~= Set::empty());
                }
                None
            },
            Some(code) => {
                proof {
                    assert forall|c: u64| #[trigger] groups.contains_key(c) implies groups[c].len()
                        <= groups[code].len() by {
                        assert(ids@.contains(c));
                        let j = choose|j: int| 0 <= j < ids@.len() && ids@[j] == c;
                        assert(groups[ids@[j]].len() <= size);
                    }
                    assert(is_largest(groups, code));
                }
                // Don't evict anchors
                match self.peers_by_netgroup.get(code) {
                    Some(peers) => self.first_other(peers),
                    None => None,
                }
            },
        }
    }

    fn first_other(&self, peers: &Vec<u64>) -> (r: Option<u64>)
        ensures
            r == first_evictable(peers@, self@.anchors),
    {
        let mut i: usize = 0;
        assert(peers@.skip(0) =~= peers@);
        while i < peers.len()
            invariant
                i <= peers@.len(),
                first_evictable(peers@, self@.anchors) == first_evictable(
                    peers@.skip(i as int),
                    self@.anchors,
                ),
            decreases peers@.len() - i,
        {
            assert(peers@.skip(i as int)[0] == peers@[i as int]);
            if !self.anchor_peers.contains(peers[i]) {
                return Some(peers[i]);
            }
            assert(peers@.skip(i as int).skip(1) =~= peers@.skip(i + 1));
            i += 1;
        }
        None
    }
}

} // verus!
