//! How many connections a listener serves at once.

use crate::network::address::SocketAddr;
use vstd::prelude::*;

verus! {

/// Where connections are awaited, and how many are served.
pub struct NetworkListener {
    pub addr: SocketAddr,
    pub magic: [u8; 4],
    pub max_peers: usize,
    pub active_peers: usize,
}

impl NetworkListener {
    /// No more connections are served than the limit.
    pub open spec fn valid(self) -> bool {
        self.active_peers <= self.max_peers
    }

    pub fn new(addr: SocketAddr, magic: [u8; 4], max_peers: usize) -> (r: Self)
        ensures
            r == (NetworkListener { addr, magic, max_peers, active_peers: 0 }),
            r.valid(),
    {
        NetworkListener { addr, magic, max_peers, active_peers: 0 }
    }

    /// Whether one more connection is served; if so, it is counted.
    pub fn take_slot(&mut self) -> (r: bool)
        requires
            old(self).valid(),
        ensures
            r == (old(self).active_peers < old(self).max_peers),
            *final(self) == (NetworkListener {
                active_peers: if r {
                    (old(self).active_peers + 1) as usize
                } else {
                    old(self).active_peers
                },
                ..*old(self)
            }),
            final(self).valid(),
    {
        if self.active_peers >= self.max_peers {
            // Too many peers, drop connection
            return false;
        }
        self.active_peers = self.active_peers + 1;
        true
    }

    /// A connection that was served has ended.
    pub fn release(&mut self)
        requires
            old(self).valid(),
            old(self).active_peers > 0,
        ensures
            *final(self) == (NetworkListener {
                active_peers: (old(self).active_peers - 1) as usize,
                ..*old(self)
            }),
            final(self).valid(),
    {
        self.active_peers = self.active_peers - 1;
    }
}

} // verus!
