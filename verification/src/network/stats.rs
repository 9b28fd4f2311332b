//! Counts what goes over the network.

use vstd::prelude::*;

verus! {

/// Counters of a network. A counter that has reached its largest value stays there.
#[derive(Debug, Clone, Copy)]
pub struct NetworkStats {
    /// When counting began, in nanoseconds.
    pub start_time: u64,
    // Connection stats
    pub total_connections_accepted: u64,
    pub total_connections_initiated: u64,
    pub total_connections_failed: u64,
    pub current_connections: usize,
    // Message stats
    pub messages_sent: u64,
    pub messages_received: u64,
    pub bytes_sent: u64,
    pub bytes_received: u64,
    // Protocol stats
    pub blocks_received: u64,
    pub blocks_sent: u64,
    pub transactions_received: u64,
    pub transactions_sent: u64,
    // Error stats
    pub invalid_messages: u64,
    pub rate_limited: u64,
    pub banned_peers: u64,
}

/// The counters at a time, with the seconds since counting began.
#[derive(Debug, Clone, Copy)]
pub struct NetworkStatsSnapshot {
    pub uptime_secs: u64,
    pub total_connections_accepted: u64,
    pub total_connections_initiated: u64,
    pub total_connections_failed: u64,
    pub current_connections: usize,
    pub messages_sent: u64,
    pub messages_received: u64,
    pub bytes_sent: u64,
    pub bytes_received: u64,
    pub blocks_received: u64,
    pub blocks_sent: u64,
    pub transactions_received: u64,
    pub invalid_messages: u64,
    pub rate_limited: u64,
    pub banned_peers: u64,
}

/// A counter after more was counted.
pub open spec fn counted(counter: u64, more: int) -> u64 {
    if counter + more > u64::MAX {
        u64::MAX
    } else {
        (counter + more) as u64
    }
}

/// A number of connections after one more.
pub open spec fn one_more(n: usize) -> usize {
    if n == usize::MAX {
        n
    } else {
        (n + 1) as usize
    }
}

/// A number of connections after one less.
pub open spec fn one_less(n: usize) -> usize {
    if n == 0 {
        0
    } else {
        (n - 1) as usize
    }
}

impl NetworkStats {
    pub fn new(now: u64) -> (r: Self)
        ensures
            r == (NetworkStats {
                start_time: now,
                total_connections_accepted: 0,
                total_connections_initiated: 0,
                total_connections_failed: 0,
                current_connections: 0,
                messages_sent: 0,
                messages_received: 0,
                bytes_sent: 0,
                bytes_received: 0,
                blocks_received: 0,
                blocks_sent: 0,
                transactions_received: 0,
                transactions_sent: 0,
                invalid_messages: 0,
                rate_limited: 0,
                banned_peers: 0,
            }),
    {
        NetworkStats {
            start_time: now,
            total_connections_accepted: 0,
            total_connections_initiated: 0,
            total_connections_failed: 0,
            current_connections: 0,
            messages_sent: 0,
            messages_received: 0,
            bytes_sent: 0,
            bytes_received: 0,
            blocks_received: 0,
            blocks_sent: 0,
            transactions_received: 0,
            transactions_sent: 0,
            invalid_messages: 0,
            rate_limited: 0,
            banned_peers: 0,
        }
    }

    pub fn record_connection_accepted(&mut self)
        ensures
            *final(self) == (NetworkStats {
                total_connections_accepted: counted(old(self).total_connections_accepted, 1),
                current_connections: one_more(old(self).current_connections),
                ..*old(self)
            }),
    {
        self.total_connections_accepted = self.total_connections_accepted.saturating_add(1);
        self.current_connections = self.current_connections.saturating_add(1);
    }

    pub fn record_connection_initiated(&mut self)
        ensures
            *final(self) == (NetworkStats {
                total_connections_initiated: counted(old(self).total_connections_initiated, 1),
                current_connections: one_more(old(self).current_connections),
                ..*old(self)
            }),
    {
        self.total_connections_initiated = self.total_connections_initiated.saturating_add(1);
        self.current_connections = self.current_connections.saturating_add(1);
    }

    pub fn record_connection_failed(&mut self)
        ensures
            *final(self) == (NetworkStats {
                total_connections_failed: counted(old(self).total_connections_failed, 1),
                ..*old(self)
            }),
    {
        self.total_connections_failed = self.total_connections_failed.saturating_add(1);
    }

    pub fn record_connection_closed(&mut self)
        ensures
            *final(self) == (NetworkStats {
                current_connections: one_less(old(self).current_connections),
                ..*old(self)
            }),
    {
        if self.current_connections > 0 {
            self.current_connections = self.current_connections - 1;
        }
    }

    pub fn record_message_sent(&mut self, bytes: usize)
        ensures
            *final(self) == (NetworkStats {
                messages_sent: counted(old(self).messages_sent, 1),
                bytes_sent: counted(old(self).bytes_sent, bytes as int),
                ..*old(self)
            }),
    {
        self.messages_sent = self.messages_sent.saturating_add(1);
        self.bytes_sent = self.bytes_sent.saturating_add(bytes as u64);
    }

    pub fn record_message_received(&mut self, bytes: usize)
        ensures
            *final(self) == (NetworkStats {
                messages_received: counted(old(self).messages_received, 1),
                bytes_received: counted(old(self).bytes_received, bytes as int),
                ..*old(self)
            }),
    {
        self.messages_received = self.messages_received.saturating_add(1);
        self.bytes_received = self.bytes_received.saturating_add(bytes as u64);
    }

    pub fn record_block_received(&mut self)
        ensures
            *final(self) == (NetworkStats {
                blocks_received: counted(old(self).blocks_received, 1),
                ..*old(self)
            }),
    {
        self.blocks_received = self.blocks_received.saturating_add(1);
    }

    pub fn record_block_sent(&mut self)
        ensures
            *final(self) == (NetworkStats {
                blocks_sent: counted(old(self).blocks_sent, 1),
                ..*old(self)
            }),
    {
        self.blocks_sent = self.blocks_sent.saturating_add(1);
    }

    pub fn record_transaction_received(&mut self)
        ensures
            *final(self) == (NetworkStats {
                transactions_received: counted(old(self).transactions_received, 1),
                ..*old(self)
            }),
    {
        self.transactions_received = self.transactions_received.saturating_add(1);
    }

    pub fn record_transaction_sent(&mut self)
        ensures
            *final(self) == (NetworkStats {
                transactions_sent: counted(old(self).transactions_sent, 1),
                ..*old(self)
            }),
    {
        self.transactions_sent = self.transactions_sent.saturating_add(1);
    }

    pub fn record_invalid_message(&mut self)
        ensures
            *final(self) == (NetworkStats {
                invalid_messages: counted(old(self).invalid_messages, 1),
                ..*old(self)
            }),
    {
        self.invalid_messages = self.invalid_messages.saturating_add(1);
    }

    pub fn record_rate_limited(&mut self)
        ensures
            *final(self) == (NetworkStats {
                rate_limited: counted(old(self).rate_limited, 1),
                ..*old(self)
            }),
    {
        self.rate_limited = self.rate_limited.saturating_add(1);
    }

    pub fn record_banned_peer(&mut self)
        ensures
            *final(self) == (NetworkStats {
                banned_peers: counted(old(self).banned_peers, 1),
                ..*old(self)
            }),
    {
        self.banned_peers = self.banned_peers.saturating_add(1);
    }

    /// The counters at a time.
    pub fn get_snapshot(&self, now: u64) -> (r: NetworkStatsSnapshot)
        ensures
            r.uptime_secs == (if now >= self.start_time {
                (now - self.start_time) / 1_000_000_000
            } else {
                0
            }),
            r == (NetworkStatsSnapshot {
                uptime_secs: r.uptime_secs,
                total_connections_accepted: self.total_connections_accepted,
                total_connections_initiated: self.total_connections_initiated,
                total_connections_failed: self.total_connections_failed,
                current_connections: self.current_connections,
                messages_sent: self.messages_sent,
                messages_received: self.messages_received,
                bytes_sent: self.bytes_sent,
                bytes_received: self.bytes_received,
                blocks_received: self.blocks_received,
                blocks_sent: self.blocks_sent,
                transactions_received: self.transactions_received,
                invalid_messages: self.invalid_messages,
                rate_limited: self.rate_limited,
                banned_peers: self.banned_peers,
            }),
    {
        let uptime_secs: u64 = if now >= self.start_time {
            (now - self.start_time) / 1_000_000_000
        } else {
            0
        };
        NetworkStatsSnapshot {
            uptime_secs,
            total_connections_accepted: self.total_connections_accepted,
            total_connections_initiated: self.total_connections_initiated,
            total_connections_failed: self.total_connections_failed,
            current_connections: self.current_connections,
            messages_sent: self.messages_sent,
            messages_received: self.messages_received,
            bytes_sent: self.bytes_sent,
            bytes_received: self.bytes_received,
            blocks_received: self.blocks_received,
            blocks_sent: self.blocks_sent,
            transactions_received: self.transactions_received,
            invalid_messages: self.invalid_messages,
            rate_limited: self.rate_limited,
            banned_peers: self.banned_peers,
        }
    }
}

} // verus!
