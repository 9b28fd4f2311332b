//! Limits on connections and on the memory that peers take.

use crate::collections::byte_map::ByteMap;
use crate::collections::id_map::IdMap;
use crate::network::address::{ip_key, IpAddr};
use crate::network::stats::{one_less, one_more};
use vstd::prelude::*;

verus! {

// Connection limits
pub const MAX_TOTAL_CONNECTIONS: usize = 125;

pub const MAX_INBOUND_CONNECTIONS: usize = 100;

pub const MAX_OUTBOUND_CONNECTIONS: usize = 25;

pub const MAX_CONNECTIONS_PER_IP: usize = 3;

pub const MAX_FEELER_CONNECTIONS: usize = 5;

// Rate limiting, in nanoseconds
pub const CONNECTION_ATTEMPT_WINDOW: u64 = 60_000_000_000;

pub const MAX_ATTEMPTS_PER_WINDOW: usize = 10;

/// Five minutes.
pub const FAILED_ATTEMPT_COOLDOWN: u64 = 300_000_000_000;

// Resource limits
/// 10 MB
pub const MAX_MEMORY_PER_PEER: usize = 10_485_760;

/// 500 MB
pub const MAX_TOTAL_MEMORY: usize = 524_288_000;

/// A connection that was tried.
#[derive(Debug, Clone, Copy)]
pub struct ConnectionAttempt {
    pub timestamp: u64,
    pub successful: bool,
}

/// What is known of connections, by the bytes of their addresses.
#[verifier::ext_equal]
pub struct DosView {
    pub connections: Map<Seq<u8>, usize>,
    pub inbound: usize,
    pub outbound: usize,
    pub attempts: Map<Seq<u8>, Seq<ConnectionAttempt>>,
    /// When a connection last failed.
    pub failed: Map<Seq<u8>, u64>,
    pub memory: Map<u64, usize>,
    pub total_memory: usize,
}

/// How many connections an address has.
pub open spec fn connections_of(v: DosView, ip: Seq<u8>) -> usize {
    if v.connections.contains_key(ip) {
        v.connections[ip]
    } else {
        0
    }
}

/// The attempts of an address.
pub open spec fn attempts_of(
    attempts: Map<Seq<u8>, Seq<ConnectionAttempt>>,
    ip: Seq<u8>,
) -> Seq<ConnectionAttempt> {
    if attempts.contains_key(ip) {
        attempts[ip]
    } else {
        Seq::empty()
    }
}

/// How much memory a peer takes.
pub open spec fn memory_of(v: DosView, peer: u64) -> usize {
    if v.memory.contains_key(peer) {
        v.memory[peer]
    } else {
        0
    }
}

/// Whether a connection to an address failed a short while ago.
pub open spec fn cooling_down(v: DosView, ip: Seq<u8>, now: u64) -> bool {
    v.failed.contains_key(ip) && now - v.failed[ip] < FAILED_ATTEMPT_COOLDOWN
}

/// The attempts that are still remembered: those of two windows.
pub open spec fn kept(attempts: Seq<ConnectionAttempt>, now: u64) -> Seq<ConnectionAttempt>
    decreases attempts.len(),
{
    if attempts.len() == 0 {
        attempts
    } else if attempts.last().timestamp + 2 * CONNECTION_ATTEMPT_WINDOW > now {
        kept(attempts.drop_last(), now).push(attempts.last())
    } else {
        kept(attempts.drop_last(), now)
    }
}

/// The attempts of all addresses that are still remembered.
pub open spec fn remembered(
    attempts: Map<Seq<u8>, Seq<ConnectionAttempt>>,
    now: u64,
) -> Map<Seq<u8>, Seq<ConnectionAttempt>> {
    Map::new(
        |ip: Seq<u8>| attempts.contains_key(ip) && kept(attempts[ip], now).len() > 0,
        |ip: Seq<u8>| kept(attempts[ip], now),
    )
}

/// How many attempts lie in the window.
pub open spec fn recent_attempts(attempts: Seq<ConnectionAttempt>, now: u64) -> nat
    decreases attempts.len(),
{
    if attempts.len() == 0 {
        0
    } else if now - attempts.last().timestamp < CONNECTION_ATTEMPT_WINDOW {
        recent_attempts(attempts.drop_last(), now) + 1
    } else {
        recent_attempts(attempts.drop_last(), now)
    }
}

/// Whether an address may connect as far as connections and failures go.
pub open spec fn below_limits(v: DosView, ip: Seq<u8>, now: u64) -> bool {
    connections_of(v, ip) < MAX_CONNECTIONS_PER_IP && !cooling_down(v, ip, now)
}

/// Whether an address may connect to us.
pub open spec fn accepts_inbound(v: DosView, ip: Seq<u8>, now: u64) -> bool {
    &&& v.inbound < MAX_INBOUND_CONNECTIONS
    &&& below_limits(v, ip, now)
    &&& recent_attempts(attempts_of(remembered(v.attempts, now), ip), now)
        < MAX_ATTEMPTS_PER_WINDOW
}

/// What is known once it was asked whether an address may connect to us.
pub open spec fn asked_inbound(v: DosView, ip: Seq<u8>, now: u64) -> DosView {
    if v.inbound < MAX_INBOUND_CONNECTIONS && below_limits(v, ip, now) {
        let left = remembered(v.attempts, now);
        DosView { attempts: left.insert(ip, attempts_of(left, ip)), ..v }
    } else {
        v
    }
}

/// Whether a connection to an address may be tried.
pub open spec fn allows_outbound(v: DosView, ip: Seq<u8>, now: u64) -> bool {
    v.outbound < MAX_OUTBOUND_CONNECTIONS && below_limits(v, ip, now)
}

/// What is known once a peer is connected.
pub open spec fn connected(v: DosView, peer: u64, ip: Seq<u8>, inbound: bool, now: u64) -> DosView {
    DosView {
        connections: v.connections.insert(ip, one_more(connections_of(v, ip))),
        inbound: if inbound {
            one_more(v.inbound)
        } else {
            v.inbound
        },
        outbound: if inbound {
            v.outbound
        } else {
            one_more(v.outbound)
        },
        attempts: v.attempts.insert(
            ip,
            attempts_of(v.attempts, ip).push(
                ConnectionAttempt { timestamp: now, successful: true },
            ),
        ),
        failed: v.failed.remove(ip),
        memory: v.memory.insert(peer, 0),
        ..v
    }
}

/// What is known once a connection failed.
pub open spec fn attempt_failed(v: DosView, ip: Seq<u8>, now: u64) -> DosView {
    DosView {
        attempts: v.attempts.insert(
            ip,
            attempts_of(v.attempts, ip).push(
                ConnectionAttempt { timestamp: now, successful: false },
            ),
        ),
        failed: v.failed.insert(ip, now),
        ..v
    }
}

/// What is known once a peer is gone.
pub open spec fn disconnected(v: DosView, peer: u64, ip: Seq<u8>, inbound: bool) -> DosView {
    DosView {
        connections: if one_less(connections_of(v, ip)) == 0 {
            v.connections.remove(ip)
        } else {
            v.connections.insert(ip, one_less(connections_of(v, ip)))
        },
        inbound: if inbound {
            one_less(v.inbound)
        } else {
            v.inbound
        },
        outbound: if inbound {
            v.outbound
        } else {
            one_less(v.outbound)
        },
        memory: v.memory.remove(peer),
        total_memory: if memory_of(v, peer) > v.total_memory {
            0
        } else {
            (v.total_memory - memory_of(v, peer)) as usize
        },
        ..v
    }
}

/// A peer that comes and goes leaves the numbers of connections as they were.
pub proof fn lemma_coming_and_going(v: DosView, peer: u64, ip: Seq<u8>, inbound: bool, now: u64)
    requires
        v.inbound < usize::MAX,
        v.outbound < usize::MAX,
        connections_of(v, ip) < usize::MAX,
        v.connections.contains_key(ip) ==> v.connections[ip] > 0,
    ensures
        ({
            let r = disconnected(connected(v, peer, ip, inbound, now), peer, ip, inbound);
            &&& r.connections == v.connections
            &&& r.inbound == v.inbound
            &&& r.outbound == v.outbound
            &&& r.total_memory == v.total_memory
        }),
{
    let r = disconnected(connected(v, peer, ip, inbound, now), peer, ip, inbound);
    assert(r.connections =~= v.connections);
}

/// An address whose connection failed may not connect until the time is over.
pub proof fn lemma_cooldown(v: DosView, ip: Seq<u8>, now: u64, later: u64)
    requires
        now <= later < now + FAILED_ATTEMPT_COOLDOWN,
    ensures
        !accepts_inbound(attempt_failed(v, ip, now), ip, later),
        !allows_outbound(attempt_failed(v, ip, now), ip, later),
{
}

/// Limits connections.
pub struct DosProtection {
    // Connection tracking
    connections_by_ip: ByteMap<usize>,
    inbound_count: usize,
    outbound_count: usize,
    // Rate limiting
    attempts_by_ip: ByteMap<Vec<ConnectionAttempt>>,
    failed_attempts: ByteMap<u64>,
    // Resource tracking
    memory_usage_by_peer: IdMap<usize>,
    total_memory_usage: usize,
}

impl View for DosProtection {
    type V = DosView;

    closed spec fn view(&self) -> DosView {
        DosView {
            connections: self.connections_by_ip@,
            inbound: self.inbound_count,
            outbound: self.outbound_count,
            attempts: self.attempts_by_ip@,
            failed: self.failed_attempts@,
            memory: self.memory_usage_by_peer@,
            total_memory: self.total_memory_usage,
        }
    }
}

/// Nothing is known of any connection.
pub open spec fn no_connections() -> DosView {
    DosView {
        connections: Map::empty(),
        inbound: 0,
        outbound: 0,
        attempts: Map::empty(),
        failed: Map::empty(),
        memory: Map::empty(),
        total_memory: 0,
    }
}

impl Default for DosProtection {
    fn default() -> (r: Self)
        ensures
            r@ == no_connections(),
    {
        DosProtection::new()
    }
}

fn keep_recent(attempts: &Vec<ConnectionAttempt>, now: u64) -> (r: Vec<ConnectionAttempt>)
    ensures
        r@ == kept(attempts@, now),
{
    let mut out: Vec<ConnectionAttempt> = Vec::new();
    let mut i: usize = 0;
    while i < attempts.len()
        invariant
            i <= attempts@.len(),
            out@ == kept(attempts@.take(i as int), now),
        decreases attempts@.len() - i,
    {
        let a = attempts[i];
        assert(attempts@.take(i + 1).drop_last() =~= attempts@.take(i as int));
        if a.timestamp >= now || now - a.timestamp < 2 * CONNECTION_ATTEMPT_WINDOW {
            out.push(a);
        }
        i += 1;
    }
    assert(attempts@.take(i as int) =~= attempts@);
    out
}

fn count_recent(attempts: &Vec<ConnectionAttempt>, now: u64) -> (n: usize)
    ensures
        n == recent_attempts(attempts@, now),
{
    let mut n: usize = 0;
    let mut i: usize = 0;
    while i < attempts.len()
        invariant
            n <= i <= attempts@.len(),
            n == recent_attempts(attempts@.take(i as int), now),
        decreases attempts@.len() - i,
    {
        let a = attempts[i];
        assert(attempts@.take(i + 1).drop_last() =~= attempts@.take(i as int));
        if now < a.timestamp || now - a.timestamp < CONNECTION_ATTEMPT_WINDOW {
            n += 1;
        }
        i += 1;
    }
    assert(attempts@.take(i as int) =~= attempts@);
    n
}

impl DosProtection {
    pub fn new() -> (r: Self)
        ensures
            r@ == no_connections(),
    {
        DosProtection {
            connections_by_ip: ByteMap::with_buckets(256),
            inbound_count: 0,
            outbound_count: 0,
            attempts_by_ip: ByteMap::with_buckets(256),
            failed_attempts: ByteMap::with_buckets(256),
            memory_usage_by_peer: IdMap::new(),
            total_memory_usage: 0,
        }
    }

    fn connections(&self, key: &Vec<u8>) -> (n: usize)
        ensures
            n == connections_of(self@, key@),
    {
        match self.connections_by_ip.get(key) {
            Some(n) => *n,
            None => 0,
        }
    }

    fn is_below_limits(&self, key: &Vec<u8>, now: u64) -> (r: bool)
        ensures
            r == below_limits(self@, key@, now),
    {
        // Check per-IP limit
        if self.connections(key) >= MAX_CONNECTIONS_PER_IP {
            return false;
        }
        // Check if IP is in cooldown (recent failed attempts)
        if let Some(failed_at) = self.failed_attempts.get(key) {
            if now < *failed_at || now - *failed_at < FAILED_ATTEMPT_COOLDOWN {
                return false;
            }
        }
        true
    }

    /// Cleanup old connection attempts
    fn cleanup_old_attempts(&mut self, now: u64)
        ensures
            final(self)@ == (DosView {
                attempts: remembered(old(self)@.attempts, now),
                ..old(self)@
            }),
    {
        let ghost before = self@.attempts;
        let keys = self.attempts_by_ip.keys();
        let ghost ks = crate::primitives::serialize::views(keys@);
        let mut left: ByteMap<Vec<ConnectionAttempt>> = ByteMap::with_buckets(256);
        let mut i: usize = 0;
        while i < keys.len()
            invariant
                i <= keys@.len(),
                ks == crate::primitives::serialize::views(keys@),
                self@ == old(self)@,
                before == self@.attempts,
                forall|k: Seq<u8>|
                    #![trigger before.contains_key(k)]
                    before.contains_key(k) <==> ks.contains(k),
                forall|k: Seq<u8>| #[trigger]
                    left@.contains_key(k) <==> ks.take(i as int).contains(k) && kept(
                        before[k],
                        now,
                    ).len() > 0,
                forall|k: Seq<u8>| #[trigger]
                    left@.contains_key(k) ==> left@[k] == kept(before[k], now),
            decreases keys@.len() - i,
        {
            let ghost key = ks[i as int];
            assert(key == keys@[i as int]@);
            assert(ks.contains(key));
            let ghost part = ks.take(i as int);
            let ghost was = left@;
            if let Some(attempts) = self.attempts_by_ip.get(&keys[i]) {
                let recent = keep_recent(attempts, now);
                if recent.len() > 0 {
                    let _ = left.insert(vstd::slice::slice_to_vec(keys[i].as_slice()), recent);
                }
            }
            proof {
                let next = ks.take(i + 1);
                assert forall|k: Seq<u8>| next.contains(k) <==> part.contains(k) || k == key by {
                    if next.contains(k) {
                        let j = choose|j: int| 0 <= j < next.len() && next[j] == k;
                        if j < i {
                            assert(part[j] == k);
                        }
                    }
                    if part.contains(k) {
                        let j = choose|j: int| 0 <= j < part.len() && part[j] == k;
                        assert(next[j] == k);
                    }
                    if k == key {
                        assert(next[i as int] == k);
                    }
                }
            }
            i += 1;
        }
        assert(ks.take(i as int) =~= ks);
        assert(left@ =~= remembered(before, now));
        self.attempts_by_ip = left;
    }

    /// Check if new inbound connection should be accepted
    pub fn can_accept_inbound(&mut self, ip: IpAddr, now: u64) -> (r: bool)
        ensures
            r == accepts_inbound(old(self)@, ip_key(ip@), now),
            final(self)@ == asked_inbound(old(self)@, ip_key(ip@), now),
    {
        // Check total limits
        if self.inbound_count >= MAX_INBOUND_CONNECTIONS {
            return false;
        }
        let key = ip.key();
        if !self.is_below_limits(&key, now) {
            return false;
        }
        // Check rate limiting
        let ghost start = self@;
        self.cleanup_old_attempts(now);
        let ghost left = self@.attempts;
        let attempts: Vec<ConnectionAttempt> = match self.attempts_by_ip.remove(&key) {
            Some(a) => a,
            None => Vec::new(),
        };
        let recent: usize = count_recent(&attempts, now);
        let _ = self.attempts_by_ip.insert(key, attempts);
        assert(self@.attempts =~= left.insert(ip_key(ip@), attempts_of(left, ip_key(ip@))));
        recent < MAX_ATTEMPTS_PER_WINDOW
    }

    /// Check if new outbound connection should be attempted
    pub fn can_connect_outbound(&self, ip: IpAddr, now: u64) -> (r: bool)
        ensures
            r == allows_outbound(self@, ip_key(ip@), now),
    {
        // Check total limits
        if self.outbound_count >= MAX_OUTBOUND_CONNECTIONS {
            return false;
        }
        self.is_below_limits(&ip.key(), now)
    }

    fn note_attempt(&mut self, key: &Vec<u8>, successful: bool, now: u64)
        ensures
            final(self)@ == (DosView {
                attempts: old(self)@.attempts.insert(
                    key@,
                    attempts_of(old(self)@.attempts, key@).push(
                        ConnectionAttempt { timestamp: now, successful },
                    ),
                ),
                ..old(self)@
            }),
    {
        let ghost before = self@.attempts;
        let mut attempts: Vec<ConnectionAttempt> = match self.attempts_by_ip.remove(key) {
            Some(a) => a,
            None => Vec::new(),
        };
        attempts.push(ConnectionAttempt { timestamp: now, successful });
        let _ = self.attempts_by_ip.insert(vstd::slice::slice_to_vec(key.as_slice()), attempts);
        assert(self@.attempts =~= before.insert(
            key@,
            attempts_of(before, key@).push(ConnectionAttempt { timestamp: now, successful }),
        ));
    }

    /// Record successful connection
    pub fn record_connection(&mut self, peer_id: u64, ip: IpAddr, inbound: bool, now: u64)
        ensures
            final(self)@ == connected(old(self)@, peer_id, ip_key(ip@), inbound, now),
    {
        let key = ip.key();
        // Record attempt
        self.note_attempt(&key, true, now);
        // Update counts
        let count: usize = self.connections(&key).saturating_add(1);
        // Clear failed attempt cooldown
        let _ = self.failed_attempts.remove(&key);
        let _ = self.connections_by_ip.insert(key, count);
        if inbound {
            self.inbound_count = self.inbound_count.saturating_add(1);
        } else {
            self.outbound_count = self.outbound_count.saturating_add(1);
        }
        // Initialize memory tracking
        let _ = self.memory_usage_by_peer.insert(peer_id, 0);
    }

    /// Record failed connection attempt
    pub fn record_failed_attempt(&mut self, ip: IpAddr, now: u64)
        ensures
            final(self)@ == attempt_failed(old(self)@, ip_key(ip@), now),
    {
        let key = ip.key();
        self.note_attempt(&key, false, now);
        let _ = self.failed_attempts.insert(key, now);
    }

    /// Record disconnection
    pub fn record_disconnection(&mut self, peer_id: u64, ip: IpAddr, inbound: bool)
        ensures
            final(self)@ == disconnected(old(self)@, peer_id, ip_key(ip@), inbound),
    {
        let ghost before = self@;
        let key = ip.key();
        // Update counts
        let count: usize = self.connections(&key).saturating_sub(1);
        if count == 0 {
            let _ = self.connections_by_ip.remove(&key);
        } else {
            let _ = self.connections_by_ip.insert(key, count);
        }
        if inbound {
            self.inbound_count = self.inbound_count.saturating_sub(1);
        } else {
            self.outbound_count = self.outbound_count.saturating_sub(1);
        }
        // Clean up memory tracking
        if let Some(usage) = self.memory_usage_by_peer.remove(peer_id) {
            self.total_memory_usage = self.total_memory_usage.saturating_sub(usage);
        }
    }

    /// Clear failed-attempt cooldown for an IP (used by recovery to unblock
    /// configured seed nodes after a transient TCP failure).
    pub fn clear_failed_attempt(&mut self, ip: IpAddr)
        ensures
            final(self)@ == (DosView {
                failed: old(self)@.failed.remove(ip_key(ip@)),
                ..old(self)@
            }),
    {
        let _ = self.failed_attempts.remove(&ip.key());
    }

    fn memory(&self, peer_id: u64) -> (n: usize)
        ensures
            n == memory_of(self@, peer_id),
    {
        match self.memory_usage_by_peer.get(peer_id) {
            Some(n) => *n,
            None => 0,
        }
    }

    /// Check if can allocate memory for peer
    pub fn can_allocate(&self, peer_id: u64, bytes: usize) -> (r: bool)
        ensures
            r == (memory_of(self@, peer_id) + bytes <= MAX_MEMORY_PER_PEER && self@.total_memory
                + bytes <= MAX_TOTAL_MEMORY),
    {
        match self.memory(peer_id).checked_add(bytes) {
            Some(n) => {
                // Check per-peer limit
                if n > MAX_MEMORY_PER_PEER {
                    return false;
                }
            },
            None => return false,
        }
        match self.total_memory_usage.checked_add(bytes) {
            // Check total limit
            Some(n) => n <= MAX_TOTAL_MEMORY,
            None => false,
        }
    }

    /// Record memory allocation
    pub fn allocate(&mut self, peer_id: u64, bytes: usize)
        requires
            memory_of(old(self)@, peer_id) + bytes <= usize::MAX,
            old(self)@.total_memory + bytes <= usize::MAX,
        ensures
            final(self)@ == (DosView {
                memory: old(self)@.memory.insert(
                    peer_id,
                    (memory_of(old(self)@, peer_id) + bytes) as usize,
                ),
                total_memory: (old(self)@.total_memory + bytes) as usize,
                ..old(self)@
            }),
    {
        let used: usize = self.memory(peer_id) + bytes;
        let _ = self.memory_usage_by_peer.insert(peer_id, used);
        self.total_memory_usage = self.total_memory_usage + bytes;
    }

    /// Get current connection counts
    pub fn get_connection_counts(&self) -> (r: (usize, usize, usize))
        requires
            self@.inbound + self@.outbound <= usize::MAX,
        ensures
            r.0 == self@.inbound + self@.outbound,
            r.1 == self@.inbound,
            r.2 == self@.outbound,
    {
        (self.inbound_count + self.outbound_count, self.inbound_count, self.outbound_count)
    }
}

} // verus!
