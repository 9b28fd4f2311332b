//! Finds the way back into the network.

use crate::consensus::chain::ChainState;
use crate::consensus::chain_model::ChainView;
use crate::network::addrman::{
    addrs_of, arranged, by_score, candidates, heard_of, is_order, shuffled, up_to, AddressManager,
    AddressView,
};
use crate::network::address::{ip_key, SocketAddr, SocketAddrView};
use crate::network::dos::DosView;
use crate::network::manager::{all_departed, ManagerView, PeerManager};
use crate::network::outgoing::Outgoing;
use crate::network::sync::SyncManager;
use crate::primitives::serialize::views;
use vstd::prelude::*;

verus! {

/// The least time between two attempts, in nanoseconds.
pub const RECOVERY_INTERVAL: u64 = 30_000_000_000;

/// Without peers, a tip older than that is stale, in seconds.
pub const LONELY_TIP_AGE: u64 = 30;

/// With peers, a tip older than that is stale, in seconds.
pub const STALE_TIP_AGE: u64 = 1800;

/// Number of known peers to try.
pub const KNOWN_PEERS_TRIED: usize = 8;

/// Number of addresses to try.
pub const ADDRESSES_TRIED: usize = 20;

/// The services that are noted for a seed node.
pub const SEED_SERVICES: u64 = 1;

/// What an attempt does.
#[derive(Debug, Clone, Copy, PartialEq, Eq, Structural)]
pub enum Stage {
    /// Reconnect to known good peers.
    KnownPeers,
    /// Try seed nodes.
    Seeds,
    /// Drop all peers and try many addresses.
    Aggressive,
    /// Start over from the seed nodes.
    FullReset,
}

/// What is remembered between attempts.
#[verifier::ext_equal]
pub struct RecoveryView {
    pub last_peer_count: usize,
    pub partition_detected: bool,
    pub attempts: u32,
    /// When recovery was last attempted.
    pub last_call: Option<u64>,
    pub seeds: Seq<SocketAddrView>,
}

/// Whether the node is cut off from the network.
pub open spec fn partitioned(
    v: RecoveryView,
    peer_count: usize,
    tip_age: u64,
    syncing: bool,
) -> bool {
    ||| peer_count == 0 && tip_age > LONELY_TIP_AGE
    ||| tip_age > STALE_TIP_AGE && !syncing
    ||| v.last_peer_count > 3 && peer_count == 0
}

/// Whether an attempt comes too soon.
pub open spec fn too_soon(v: RecoveryView, now: u64) -> bool {
    v.last_call matches Some(last) && now - last < RECOVERY_INTERVAL
}

/// The number of the next attempt.
pub open spec fn next_attempt(v: RecoveryView) -> u32 {
    if !v.partition_detected {
        1
    } else if v.attempts < u32::MAX {
        (v.attempts + 1) as u32
    } else {
        u32::MAX
    }
}

/// What an attempt does.
pub open spec fn stage_of(attempt: u32) -> Stage {
    if attempt == 1 {
        Stage::KnownPeers
    } else if attempt == 2 {
        Stage::Seeds
    } else if attempt <= 5 {
        Stage::Aggressive
    } else {
        Stage::FullReset
    }
}

/// What is remembered once an attempt begins.
pub open spec fn attempted(v: RecoveryView, now: u64) -> RecoveryView {
    if too_soon(v, now) {
        v
    } else {
        RecoveryView {
            partition_detected: true,
            attempts: next_attempt(v),
            last_call: Some(now),
            ..v
        }
    }
}

/// What is remembered after a look at the network.
pub open spec fn watched(
    v: RecoveryView,
    peer_count: usize,
    tip_age: u64,
    syncing: bool,
    now: u64,
) -> RecoveryView {
    if partitioned(v, peer_count, tip_age, syncing) {
        attempted(v, now)
    } else if peer_count > 0 && v.partition_detected {
        RecoveryView { partition_detected: false, attempts: 0, ..v }
    } else {
        v
    }
}

/// The first `n` seed nodes are added to the known addresses.
pub open spec fn seeds_added(
    list: Seq<AddressView>,
    max: usize,
    seeds: Seq<SocketAddrView>,
    n: nat,
    time: u32,
) -> Seq<AddressView>
    decreases n,
{
    if n == 0 {
        list
    } else {
        heard_of(
            seeds_added(list, max, seeds, (n - 1) as nat, time),
            max,
            seeds[n - 1],
            SEED_SERVICES,
            time,
        )
    }
}

/// The failures of the first `n` seed nodes are forgotten.
pub open spec fn seeds_forgiven(m: ManagerView, seeds: Seq<SocketAddrView>, n: nat) -> ManagerView
    decreases n,
{
    if n == 0 {
        m
    } else {
        let p = seeds_forgiven(m, seeds, (n - 1) as nat);
        ManagerView {
            dos: DosView { failed: p.dos.failed.remove(ip_key(seeds[n - 1].ip)), ..p.dos },
            ..p
        }
    }
}

/// How old the tip of the chain is.
pub open spec fn tip_age(chain: ChainView, time: u64) -> u64 {
    match chain.tip {
        Some(hash) => match chain.cached(hash) {
            Some(d) => if time >= d.block.header.timestamp {
                (time - d.block.header.timestamp) as u64
            } else {
                0
            },
            None => 0,
        },
        None => 0,
    }
}

/// Attempts follow each other at least at that interval.
pub proof fn lemma_attempts_are_spaced(v: RecoveryView, now: u64, later: u64)
    requires
        now <= later < now + RECOVERY_INTERVAL,
        !too_soon(v, now),
    ensures
        too_soon(attempted(v, now), later),
        attempted(attempted(v, now), later) == attempted(v, now),
{
}

/// The first attempt after a recovery tries the peers that are known.
pub proof fn lemma_recovery_starts_over(
    v: RecoveryView,
    peer_count: usize,
    age: u64,
    syncing: bool,
    now: u64,
    later: u64,
)
    requires
        !partitioned(v, peer_count, age, syncing),
        peer_count > 0,
    ensures
        !watched(v, peer_count, age, syncing, now).partition_detected,
        stage_of(next_attempt(watched(v, peer_count, age, syncing, now))) == Stage::KnownPeers,
{
}

/// From the sixth attempt on everything is reset.
pub proof fn lemma_attempts_escalate(v: RecoveryView)
    requires
        v.partition_detected,
        v.attempts >= 5,
    ensures
        stage_of(next_attempt(v)) == Stage::FullReset,
{
}

/// What is remembered between attempts.
pub struct RecoveryManager {
    last_peer_count: usize,
    partition_detected: bool,
    recovery_attempts: u32,
    last_recover_call: Option<u64>,
    /// Seed nodes that the operator configured.
    configured_seeds: Vec<SocketAddr>,
}

impl View for RecoveryManager {
    type V = RecoveryView;

    closed spec fn view(&self) -> RecoveryView {
        RecoveryView {
            last_peer_count: self.last_peer_count,
            partition_detected: self.partition_detected,
            attempts: self.recovery_attempts,
            last_call: self.last_recover_call,
            seeds: views(self.configured_seeds@),
        }
    }
}

fn add_seeds(addresses: &mut AddressManager, seeds: &Vec<SocketAddr>, time: u32)
    ensures
        final(addresses).list() == seeds_added(
            old(addresses).list(),
            old(addresses).max(),
            views(seeds@),
            seeds@.len(),
            time,
        ),
        final(addresses).max() == old(addresses).max(),
        old(addresses).valid() ==> final(addresses).valid(),
{
    let mut i: usize = 0;
    while i < seeds.len()
        invariant
            i <= seeds@.len(),
            addresses.list() == seeds_added(
                old(addresses).list(),
                old(addresses).max(),
                views(seeds@),
                i as nat,
                time,
            ),
            addresses.max() == old(addresses).max(),
            old(addresses).valid() ==> addresses.valid(),
        decreases seeds@.len() - i,
    {
        addresses.add_address(seeds[i], SEED_SERVICES, time);
        i += 1;
    }
}

fn copy_of(addrs: &Vec<SocketAddr>) -> (r: Vec<SocketAddr>)
    ensures
        r@ == addrs@,
{
    let mut out: Vec<SocketAddr> = Vec::new();
    let mut i: usize = 0;
    while i < addrs.len()
        invariant
            i <= addrs@.len(),
            out@ == addrs@.take(i as int),
        decreases addrs@.len() - i,
    {
        out.push(addrs[i]);
        assert(out@ =~= addrs@.take(i + 1));
        i += 1;
    }
    assert(out@ =~= addrs@);
    out
}

impl RecoveryManager {
    /// Starts with configured seed nodes, which become known addresses.
    pub fn new(configured_seeds: Vec<SocketAddr>, addresses: &mut AddressManager, time: u32) -> (r:
        Self)
        ensures
            r@ == (RecoveryView {
                last_peer_count: 0,
                partition_detected: false,
                attempts: 0,
                last_call: None,
                seeds: views(configured_seeds@),
            }),
            final(addresses).list() == seeds_added(
                old(addresses).list(),
                old(addresses).max(),
                views(configured_seeds@),
                configured_seeds@.len(),
                time,
            ),
            final(addresses).max() == old(addresses).max(),
            old(addresses).valid() ==> final(addresses).valid(),
    {
        add_seeds(addresses, &configured_seeds, time);
        RecoveryManager {
            last_peer_count: 0,
            partition_detected: false,
            recovery_attempts: 0,
            last_recover_call: None,
            configured_seeds,
        }
    }

    /// Returns the age of the chain tip in seconds.
    pub fn get_last_block_age_secs(chain: &ChainState, time: u64) -> (age: u64)
        ensures
            age == tip_age(chain@, time),
    {
        match chain.get_tip() {
            Ok(Some(tip)) => {
                let made: u64 = tip.block.header.timestamp;
                if time >= made {
                    time - made
                } else {
                    0
                }
            },
            _ => 0,
        }
    }

    /// Check if node is partitioned from network.
    pub fn check_partition(&self, peer_count: usize, tip_age: u64, is_syncing: bool) -> (r: bool)
        ensures
            r == partitioned(self@, peer_count, tip_age, is_syncing),
    {
        // Zero active peers and chain tip is stale.
        if peer_count == 0 && tip_age > LONELY_TIP_AGE {
            return true;
        }
        // Chain tip has not advanced for long, regardless of peers. While old blocks are
        // synchronised the local tip is old, so its age says nothing.
        if tip_age > STALE_TIP_AGE && !is_syncing {
            return true;
        }
        // All peers suddenly disconnected.
        self.last_peer_count > 3 && peer_count == 0
    }

    /// Attempt network recovery: what is to be done, unless it comes too soon after the
    /// last attempt.
    pub fn recover(&mut self, now: u64) -> (r: Option<Stage>)
        ensures
            final(self)@ == attempted(old(self)@, now),
            r == (if too_soon(old(self)@, now) {
                None
            } else {
                Some(stage_of(next_attempt(old(self)@)))
            }),
    {
        match self.last_recover_call {
            Some(last) => {
                if now < last || now - last < RECOVERY_INTERVAL {
                    return None;
                }
            },
            None => {},
        }
        self.last_recover_call = Some(now);
        if !self.partition_detected {
            // First detection
            self.partition_detected = true;
            self.recovery_attempts = 0;
        }
        if self.recovery_attempts < u32::MAX {
            self.recovery_attempts = self.recovery_attempts + 1;
        }
        let attempt: u32 = self.recovery_attempts;
        if attempt == 1 {
            Some(Stage::KnownPeers)
        } else if attempt == 2 {
            Some(Stage::Seeds)
        } else if attempt <= 5 {
            Some(Stage::Aggressive)
        } else {
            Some(Stage::FullReset)
        }
    }

    /// Looks at the network: what is to be done, where the node is cut off.
    pub fn watch(&mut self, peer_count: usize, tip_age: u64, is_syncing: bool, now: u64) -> (r:
        Option<Stage>)
        ensures
            final(self)@ == watched(old(self)@, peer_count, tip_age, is_syncing, now),
            r == (if partitioned(old(self)@, peer_count, tip_age, is_syncing) && !too_soon(
                old(self)@,
                now,
            ) {
                Some(stage_of(next_attempt(old(self)@)))
            } else {
                None
            }),
    {
        if self.check_partition(peer_count, tip_age, is_syncing) {
            return self.recover(now);
        }
        if peer_count > 0 && self.partition_detected {
            self.partition_detected = false;
            self.recovery_attempts = 0;
        }
        None
    }

    /// Remembers how many peers there were after a look at the network.
    pub fn note_peer_count(&mut self, peer_count: usize)
        ensures
            final(self)@ == (RecoveryView { last_peer_count: peer_count, ..old(self)@ }),
    {
        self.last_peer_count = peer_count;
    }

    /// The addresses of known good peers to reconnect to.
    pub fn reconnect_to_known_peers(addresses: &AddressManager) -> (r: Vec<SocketAddr>)
        ensures
            views(r@) == up_to(addrs_of(by_score(addresses.list())), KNOWN_PEERS_TRIED as nat),
    {
        addresses.get_best_addresses(KNOWN_PEERS_TRIED)
    }

    /// The seed nodes to reconnect to.
    pub fn reconnect_to_seeds(&self) -> (r: Vec<SocketAddr>)
        ensures
            views(r@) == self@.seeds,
    {
        copy_of(&self.configured_seeds)
    }

    /// Disconnects all peers.
    pub fn force_reconnect(peers: &mut PeerManager, sync: &mut SyncManager, now: u64) -> (sends:
        Vec<Outgoing>)
        requires
            old(sync).valid(),
        ensures
            ({
                let ids = crate::collections::id_map::listing(old(peers)@.peers.dom());
                let d = all_departed(old(peers)@, old(sync)@, ids, ids.len(), now);
                &&& final(peers)@ == d.manager
                &&& final(sync)@ == d.sync
                &&& views(sends@) == d.sends
            }),
            final(sync).valid(),
            final(peers).introduction() == old(peers).introduction(),
    {
        let ids = peers.get_connected_peers();
        peers.disconnect_all(&ids, sync, now)
    }

    /// Disconnects all peers, and says what is to be sent and which addresses are to be
    /// tried.
    pub fn aggressive_reconnect(
        peers: &mut PeerManager,
        sync: &mut SyncManager,
        addresses: &AddressManager,
        now: u64,
    ) -> (r: (Vec<Outgoing>, Vec<SocketAddr>))
        requires
            old(sync).valid(),
        ensures
            ({
                let ids = crate::collections::id_map::listing(old(peers)@.peers.dom());
                let d = all_departed(old(peers)@, old(sync)@, ids, ids.len(), now);
                &&& final(peers)@ == d.manager
                &&& final(sync)@ == d.sync
                &&& views(r.0@) == d.sends
            }),
            exists|order: Seq<usize>|
                {
                    &&& shuffled(order, candidates(addresses.list()).len())
                    &&& is_order(order, candidates(addresses.list()).len())
                    &&& views(r.1@) == up_to(
                        #[trigger] arranged(candidates(addresses.list()), order),
                        ADDRESSES_TRIED as nat,
                    )
                },
            final(sync).valid(),
            final(peers).introduction() == old(peers).introduction(),
    {
        let sends = RecoveryManager::force_reconnect(peers, sync, now);
        let found = addresses.get_random_addresses(ADDRESSES_TRIED);
        (sends, found)
    }

    /// Disconnects all peers, keeps only the seed nodes and forgets that they failed. Says
    /// what is to be sent and which addresses are to be tried.
    pub fn full_network_reset(
        &self,
        peers: &mut PeerManager,
        sync: &mut SyncManager,
        addresses: &mut AddressManager,
        time: u32,
        now: u64,
    ) -> (r: (Vec<Outgoing>, Vec<SocketAddr>))
        requires
            old(sync).valid(),
        ensures
            ({
                let ids = crate::collections::id_map::listing(old(peers)@.peers.dom());
                let d = all_departed(old(peers)@, old(sync)@, ids, ids.len(), now);
                &&& final(peers)@ == seeds_forgiven(d.manager, self@.seeds, self@.seeds.len())
                &&& final(sync)@ == d.sync
                &&& views(r.0@) == d.sends
            }),
            views(r.1@) == self@.seeds,
            final(addresses).list() == seeds_added(
                Seq::empty(),
                old(addresses).max(),
                self@.seeds,
                self@.seeds.len(),
                time,
            ),
            final(addresses).max() == old(addresses).max(),
            final(addresses).valid(),
            final(sync).valid(),
            final(peers).introduction() == old(peers).introduction(),
    {
        let sends = RecoveryManager::force_reconnect(peers, sync, now);
        addresses.clear();
        add_seeds(addresses, &self.configured_seeds, time);
        // A transient failure of an earlier stage does not block this attempt.
        let ghost gone = peers@;
        let ghost seeds = self@.seeds;
        let mut i: usize = 0;
        while i < self.configured_seeds.len()
            invariant
                i <= self.configured_seeds@.len(),
                seeds == views(self.configured_seeds@),
                peers@ == seeds_forgiven(gone, seeds, i as nat),
                peers.introduction() == old(peers).introduction(),
            decreases self.configured_seeds@.len() - i,
        {
            peers.clear_failed_attempt(self.configured_seeds[i].ip);
            i += 1;
        }
        (sends, copy_of(&self.configured_seeds))
    }

    /// Whether the node was found cut off.
    pub fn is_partitioned(&self) -> (r: bool)
        ensures
            r == self@.partition_detected,
    {
        self.partition_detected
    }

    /// Number of attempts so far.
    pub fn get_attempts(&self) -> (n: u32)
        ensures
            n == self@.attempts,
    {
        self.recovery_attempts
    }
}

} // verus!
