//! Pings peers and gives up those that do not answer.

use crate::collections::id_map::IdMap;
use crate::primitives::clock::{ask, comes_from};
use vstd::prelude::*;

verus! {

/// Unanswered pings after which a peer is given up.
pub const MAX_MISSED_PONGS: u32 = 3;

/// What is known of the pings of a peer.
#[derive(Debug, Clone, Copy)]
pub struct PingState {
    pub last_ping_sent: u64,
    pub last_pong_received: u64,
    pub pending_nonce: Option<u64>,
    pub missed_pongs: u32,
}

impl View for PingState {
    type V = PingState;

    open spec fn view(&self) -> PingState {
        *self
    }
}

/// What is to be done with a peer.
#[derive(Debug, Clone, Copy, PartialEq, Eq, Structural)]
pub enum KeepaliveAction {
    /// Send a ping with a number.
    Ping(u64),
    /// Give the peer up.
    Disconnect,
}

/// The pings of a peer, as far as there were any.
pub open spec fn pings_of(m: Map<u64, PingState>, peer: u64, now: u64) -> PingState {
    if m.contains_key(peer) {
        m[peer]
    } else {
        PingState {
            last_ping_sent: now,
            last_pong_received: now,
            pending_nonce: None,
            missed_pongs: 0,
        }
    }
}

/// How many pings a peer has not answered when the next one is due.
pub open spec fn missed(p: PingState) -> u32 {
    if p.pending_nonce is Some && p.missed_pongs < u32::MAX {
        (p.missed_pongs + 1) as u32
    } else {
        p.missed_pongs
    }
}

/// Whether a peer is given up when the next ping is due.
pub open spec fn given_up(p: PingState) -> bool {
    p.pending_nonce is Some && missed(p) >= MAX_MISSED_PONGS
}

/// The pings of a peer once the next one was due.
pub open spec fn pinged(p: PingState, nonce: u64, now: u64) -> PingState {
    if given_up(p) {
        PingState { missed_pongs: missed(p), ..p }
    } else {
        PingState {
            missed_pongs: missed(p),
            pending_nonce: Some(nonce),
            last_ping_sent: now,
            ..p
        }
    }
}

/// The pings of a peer once it answered.
pub open spec fn answered(p: PingState, now: u64) -> PingState {
    PingState { last_pong_received: now, pending_nonce: None, missed_pongs: 0, ..p }
}

/// A peer that answers every ping is never given up.
pub proof fn lemma_answering_peer_stays(p: PingState, nonce: u64, now: u64, later: u64)
    ensures
        !given_up(answered(p, now)),
        pinged(answered(p, now), nonce, later).missed_pongs == 0,
{
}

/// A peer that never answers is given up when the fourth ping would be due.
pub proof fn lemma_silent_peer_is_given_up(p: PingState, a: u64, b: u64, c: u64, now: u64)
    requires
        p.pending_nonce is None,
        p.missed_pongs == 0,
    ensures
        ({
            let first = pinged(p, a, now);
            let second = pinged(first, b, now);
            let third = pinged(second, c, now);
            &&& !given_up(first)
            &&& !given_up(second)
            &&& given_up(third)
        }),
{
}

/// `rand::random::<u64>`. Nothing is known of the result: it depends on chance.
#[verifier::external_body]
fn random_nonce() -> (nonce: u64) {
    rand::random::<u64>()
}

/// Whether a number was drawn by chance, as it is.
pub closed spec fn drawn(nonce: u64) -> bool {
    comes_from(random_nonce, nonce)
}

/// Pings peers.
pub struct KeepaliveManager {
    ping_state: IdMap<PingState>,
}

impl View for KeepaliveManager {
    type V = Map<u64, PingState>;

    closed spec fn view(&self) -> Map<u64, PingState> {
        self.ping_state@
    }
}

impl KeepaliveManager {
    pub fn new() -> (r: Self)
        ensures
            r@ == Map::<u64, PingState>::empty(),
    {
        KeepaliveManager { ping_state: IdMap::new() }
    }

    /// The next ping of a peer is due, and would have this number.
    pub fn ping_due(&mut self, peer_id: u64, nonce: u64, now: u64) -> (r: KeepaliveAction)
        ensures
            ({
                let p = pings_of(old(self)@, peer_id, now);
                &&& r == (if given_up(p) {
                    KeepaliveAction::Disconnect
                } else {
                    KeepaliveAction::Ping(nonce)
                })
                &&& final(self)@ == old(self)@.insert(peer_id, pinged(p, nonce, now))
            }),
    {
        let mut state = match self.ping_state.get(peer_id) {
            Some(s) => *s,
            None => PingState {
                last_ping_sent: now,
                last_pong_received: now,
                pending_nonce: None,
                missed_pongs: 0,
            },
        };
        // Check if previous ping was answered
        if state.pending_nonce.is_some() {
            state.missed_pongs = state.missed_pongs.saturating_add(1);
            if state.missed_pongs >= MAX_MISSED_PONGS {
                let _ = self.ping_state.insert(peer_id, state);
                return KeepaliveAction::Disconnect;
            }
        }
        state.pending_nonce = Some(nonce);
        state.last_ping_sent = now;
        let _ = self.ping_state.insert(peer_id, state);
        KeepaliveAction::Ping(nonce)
    }

    /// The next ping of a peer is due.
    pub fn next_ping(&mut self, peer_id: u64, now: u64) -> (r: KeepaliveAction)
        ensures
            r is Disconnect <==> given_up(pings_of(old(self)@, peer_id, now)),
            r matches KeepaliveAction::Ping(nonce) ==> drawn(nonce),
            r matches KeepaliveAction::Ping(nonce) ==> final(self)@ == old(self)@.insert(
                peer_id,
                pinged(pings_of(old(self)@, peer_id, now), nonce, now),
            ),
            r is Disconnect ==> final(self)@ == old(self)@.insert(
                peer_id,
                pinged(pings_of(old(self)@, peer_id, now), 0, now),
            ),
    {
        let nonce: u64 = ask(random_nonce);
        self.ping_due(peer_id, nonce, now)
    }

    /// A peer answered a ping. `false` where the number is not that of the last
    /// ping.
    pub fn handle_pong(&mut self, peer_id: u64, nonce: u64, now: u64) -> (r: bool)
        ensures
            r == (!old(self)@.contains_key(peer_id) || old(self)@[peer_id].pending_nonce == Some(
                nonce,
            )),
            final(self)@ == (if old(self)@.contains_key(peer_id)
                && old(self)@[peer_id].pending_nonce == Some(nonce) {
                old(self)@.insert(peer_id, answered(old(self)@[peer_id], now))
            } else {
                old(self)@
            }),
    {
        let mut state = match self.ping_state.get(peer_id) {
            Some(s) => *s,
            // First pong or unexpected: ignore
            None => return true,
        };
        // Verify nonce matches
        let matches: bool = match state.pending_nonce {
            Some(pending) => pending == nonce,
            None => false,
        };
        if matches {
            state.last_pong_received = now;
            state.pending_nonce = None;
            state.missed_pongs = 0;
            let _ = self.ping_state.insert(peer_id, state);
        }
        matches
    }
}

} // verus!
