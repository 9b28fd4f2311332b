//! What peers may do, and how often.

use crate::network::dos::{
    accepts_inbound, allows_outbound, attempt_failed, attempts_of, connected, connections_of,
    disconnected, kept, memory_of, recent_attempts, ConnectionAttempt, DosView,
};
use crate::network::handshake::{overtime, version_read, Handshake, HandshakeError, Phase};
use crate::network::inspect::{
    banned, inspected, is_trusted, message_opened, received, requests_counted, with_points,
    VerdictView,
};
use crate::network::keepalive::{answered, given_up, pinged, pings_of, PingState};
use crate::network::message::{
    field_name, kind_of_name, parse_command, MessageKind, NetworkMessageView,
};
use crate::network::peer::{
    fresh_peer, silence, too_fast, version_fault, with_version, PeerState, PeerView,
};
use crate::network::protocol::{PayloadView, VersionView};
use crate::network::ratelimit::{allows, in_window, lemma_in_window, limiter_after, LimiterView};
use crate::network::recovery::{attempted, partitioned, stage_of, watched, RecoveryView, Stage};
use crate::network::stats::NetworkStats;
use crate::network::validation::{payload_violation, size_violation};
use vstd::prelude::*;

verus! {

/// How many events lie no longer ago than a window.
pub open spec fn count_within(events: Seq<u64>, window: u64, now: u64) -> nat
    decreases events.len(),
{
    if events.len() == 0 {
        0
    } else {
        count_within(events.drop_last(), window, now) + (if now <= events.last() + window {
            1nat
        } else {
            0nat
        })
    }
}

proof fn lemma_count_cut(events: Seq<u64>, window: u64, now: u64, d: int)
    requires
        0 <= d <= events.len(),
        forall|i: int| 0 <= i < d ==> (#[trigger] events[i]) + window < now,
        forall|i: int| d <= i < events.len() ==> (#[trigger] events[i]) + window >= now,
    ensures
        count_within(events, window, now) == events.len() - d,
    decreases events.len(),
{
    if events.len() > 0 {
        let front = events.drop_last();
        if d == events.len() {
            lemma_count_cut(front, window, now, d - 1);
        } else {
            lemma_count_cut(front, window, now, d);
        }
    }
}

/// Of events in the order of time, one more is allowed exactly if fewer than the limit lie within
/// the window. It is then remembered, and nothing that lies outside the window is.
pub proof fn lemma_rate_kept(l: LimiterView, now: u64)
    requires
        forall|i: int, j: int| 0 <= i <= j < l.events.len() ==> l.events[i] <= l.events[j],
    ensures
        allows(l, now) <==> count_within(l.events, l.window, now) < l.max_events,
        limiter_after(l, now).window == l.window,
        limiter_after(l, now).max_events == l.max_events,
        ({
            let after = limiter_after(l, now).events;
            let left = if allows(l, now) {
                after.drop_last()
            } else {
                after
            };
            &&& allows(l, now) ==> after.len() > 0 && after.last() == now
            &&& left.len() == count_within(l.events, l.window, now)
            &&& left == l.events.skip(l.events.len() - left.len())
            &&& forall|i: int| 0 <= i < left.len() ==> now <= (#[trigger] left[i]) + l.window
        }),
{
    lemma_in_window(l.events, l.window, now);
    let left = in_window(l.events, l.window, now);
    let d = l.events.len() - left.len();
    lemma_count_cut(l.events, l.window, now, d);
    let after = limiter_after(l, now).events;
    if allows(l, now) {
        assert(after.drop_last() =~= left);
    }
    assert forall|i: int| 0 <= i < left.len() implies now <= (#[trigger] left[i]) + l.window by {
        assert(left[i] == l.events[d + i]);
    }
}

/// How many attempts were made less than a minute ago.
pub open spec fn count_minute(attempts: Seq<ConnectionAttempt>, now: u64) -> nat
    decreases attempts.len(),
{
    if attempts.len() == 0 {
        0
    } else {
        count_minute(attempts.drop_last(), now) + (if now < attempts.last().timestamp
            + 60_000_000_000 {
            1nat
        } else {
            0nat
        })
    }
}

proof fn lemma_kept_counts(attempts: Seq<ConnectionAttempt>, now: u64)
    ensures
        recent_attempts(kept(attempts, now), now) == count_minute(attempts, now),
        kept(attempts, now).len() == 0 ==> count_minute(attempts, now) == 0,
    decreases attempts.len(),
{
    if attempts.len() > 0 {
        let front = attempts.drop_last();
        lemma_kept_counts(front, now);
        let k = kept(front, now);
        assert(k.push(attempts.last()).drop_last() =~= k);
    }
}

/// An address may connect to us exactly if fewer than a hundred have, fewer than three of them from
/// it, no connection to it failed within five minutes, and it tried fewer than ten times within one.
pub proof fn lemma_inbound_limits(v: DosView, ip: Seq<u8>, now: u64)
    ensures
        accepts_inbound(v, ip, now) <==> {
            &&& v.inbound < 100
            &&& v.connections.contains_key(ip) ==> v.connections[ip] < 3
            &&& v.failed.contains_key(ip) ==> now >= v.failed[ip] + 300_000_000_000
            &&& v.attempts.contains_key(ip) ==> count_minute(v.attempts[ip], now) < 10
        },
{
    if v.attempts.contains_key(ip) {
        lemma_kept_counts(v.attempts[ip], now);
    }
}

/// A connection may be tried exactly if fewer than 25 are open, fewer than three of them to the
/// address, and none to it failed within five minutes.
pub proof fn lemma_outbound_limits(v: DosView, ip: Seq<u8>, now: u64)
    ensures
        allows_outbound(v, ip, now) <==> {
            &&& v.outbound < 25
            &&& v.connections.contains_key(ip) ==> v.connections[ip] < 3
            &&& v.failed.contains_key(ip) ==> now >= v.failed[ip] + 300_000_000_000
        },
{
}

/// A connection counts for its address and its direction, and for nothing else.
pub proof fn lemma_connection_counts(
    v: DosView,
    peer: u64,
    ip: Seq<u8>,
    other: Seq<u8>,
    inbound: bool,
    now: u64,
)
    requires
        other != ip,
        connections_of(v, ip) < usize::MAX,
        v.inbound < usize::MAX,
        v.outbound < usize::MAX,
    ensures
        ({
            let after = connected(v, peer, ip, inbound, now);
            let gone = disconnected(v, peer, ip, inbound);
            &&& connections_of(after, ip) == connections_of(v, ip) + 1
            &&& connections_of(after, other) == connections_of(v, other)
            &&& after.inbound + after.outbound == v.inbound + v.outbound + 1
            &&& inbound ==> after.inbound == v.inbound + 1
            &&& !inbound ==> after.outbound == v.outbound + 1
            &&& !after.failed.contains_key(ip)
            &&& after.failed.contains_key(other) == v.failed.contains_key(other)
            &&& attempts_of(after.attempts, ip).len() == attempts_of(v.attempts, ip).len() + 1
            &&& attempts_of(after.attempts, ip).last().timestamp == now
            &&& attempts_of(after.attempts, other) == attempts_of(v.attempts, other)
            &&& memory_of(after, peer) == 0
            &&& after.total_memory == v.total_memory
            &&& connections_of(v, ip) > 0 ==> connections_of(gone, ip) == connections_of(v, ip) - 1
            &&& connections_of(gone, other) == connections_of(v, other)
            &&& gone.connections.contains_key(ip) ==> connections_of(gone, ip) > 0
            &&& inbound && v.inbound > 0 ==> gone.inbound == v.inbound - 1 && gone.outbound
                == v.outbound
            &&& !inbound && v.outbound > 0 ==> gone.outbound == v.outbound - 1 && gone.inbound
                == v.inbound
            &&& gone.attempts == v.attempts
            &&& gone.failed == v.failed
            &&& !gone.memory.contains_key(peer)
            &&& memory_of(v, peer) <= v.total_memory ==> gone.total_memory + memory_of(v, peer)
                == v.total_memory
        }),
{
}

/// A failure bars the address for five minutes, and is one more attempt of it.
pub proof fn lemma_failure_bars(v: DosView, ip: Seq<u8>, other: Seq<u8>, now: u64, later: u64)
    requires
        now <= later,
        other != ip,
    ensures
        later < now + 300_000_000_000 ==> !accepts_inbound(attempt_failed(v, ip, now), ip, later)
            && !allows_outbound(attempt_failed(v, ip, now), ip, later),
        later >= now + 300_000_000_000 ==> (allows_outbound(attempt_failed(v, ip, now), ip, later)
            <==> v.outbound < 25 && connections_of(v, ip) < 3),
        allows_outbound(attempt_failed(v, ip, now), other, later) == allows_outbound(
            v,
            other,
            later,
        ),
        attempts_of(attempt_failed(v, ip, now).attempts, ip).len() == attempts_of(
            v.attempts,
            ip,
        ).len() + 1,
{
}

/// A peer is given up exactly when a third ping is still unanswered as the next is due.
pub proof fn lemma_given_up_after_three(p: PingState, nonce: u64, now: u64)
    requires
        p.missed_pongs < 0xFFFF_FFFF,
    ensures
        given_up(p) <==> p.pending_nonce is Some && p.missed_pongs >= 2,
        p.pending_nonce is Some ==> pinged(p, nonce, now).missed_pongs == p.missed_pongs + 1,
        p.pending_nonce is None ==> pinged(p, nonce, now).missed_pongs == p.missed_pongs,
        !given_up(p) ==> pinged(p, nonce, now).pending_nonce == Some(nonce) && pinged(
            p,
            nonce,
            now,
        ).last_ping_sent == now,
        pinged(p, nonce, now).last_pong_received == p.last_pong_received,
        answered(p, now).missed_pongs == 0,
        answered(p, now).pending_nonce is None,
        answered(p, now).last_pong_received == now,
        answered(p, now).last_ping_sent == p.last_ping_sent,
{
}

/// A peer that was never pinged has missed nothing.
pub proof fn lemma_unknown_pings(m: Map<u64, PingState>, peer: u64, now: u64)
    ensures
        !m.contains_key(peer) ==> pings_of(m, peer, now).missed_pongs == 0 && pings_of(
            m,
            peer,
            now,
        ).pending_nonce is None,
        m.contains_key(peer) ==> pings_of(m, peer, now) == m[peer],
{
}

/// Points add up to the largest number that can be written; a peer with a hundred is banned.
pub proof fn lemma_points_add_up(p: PeerView, points: u32)
    ensures
        with_points(p, points).ban_score == (if p.ban_score + points <= 0xFFFF_FFFF {
            p.ban_score + points
        } else {
            0xFFFF_FFFF
        }),
        banned(p) <==> p.ban_score >= 100,
        with_points(p, points).state == p.state,
        with_points(p, points).addr == p.addr,
        banned(p) ==> banned(with_points(p, points)),
{
}

/// A request beyond the fifty within a second costs a peer twenty points, unless it is trusted.
pub proof fn lemma_request_points(p: PeerView, payload: PayloadView, now: u64)
    requires
        p.ban_score <= 0xFFFF_FF00,
    ensures
        ({
            let after = requests_counted(p, payload, now);
            let over = (payload is Inv && !allows(p.invs, now)) || (payload is GetData && !allows(
                p.getdatas,
                now,
            ));
            &&& is_trusted(p.addr.ip) ==> after == p
            &&& !is_trusted(p.addr.ip) && over ==> after.ban_score == p.ban_score + 20
            &&& !over ==> after.ban_score == p.ban_score
            &&& !is_trusted(p.addr.ip) && payload is Inv ==> after.invs == limiter_after(
                p.invs,
                now,
            ) && after.getdatas == p.getdatas
            &&& !is_trusted(p.addr.ip) && payload is GetData ==> after.getdatas == limiter_after(
                p.getdatas,
                now,
            ) && after.invs == p.invs
            &&& payload !is Inv && payload !is GetData ==> after == p
        }),
{
}

/// A peer that just connected may send a hundred messages within a second, and of inventories and of
/// requests fifty each.
pub proof fn lemma_fresh_limits(
    id: u64,
    addr: crate::network::address::SocketAddrView,
    state: PeerState,
    inbound: bool,
    now: u64,
)
    ensures
        ({
            let p = fresh_peer(id, addr, state, inbound, now);
            &&& p.messages.max_events == 100 && p.messages.window == 1_000_000_000
            &&& p.invs.max_events == 50 && p.invs.window == 1_000_000_000
            &&& p.getdatas.max_events == 50 && p.getdatas.window == 1_000_000_000
            &&& p.messages.events.len() == 0
            &&& p.ban_score == 0
            &&& p.bytes_received == 0
            &&& p.last_recv == now
            &&& p.state == state
            &&& p.inbound == inbound
        }),
{
}

/// A message that is too long costs ten points and is not read. Any other is counted.
pub proof fn lemma_size_inspected(
    p: PeerView,
    stats: NetworkStats,
    m: NetworkMessageView,
    time: u64,
    now: u64,
)
    requires
        p.ban_score <= 0xFFFF_FF00,
    ensures
        ({
            let r = inspected(p, stats, m, time, now);
            &&& m.length > 33_554_432 ==> r.peer.ban_score == p.ban_score + 10 && r.stats == stats && (
            p.ban_score + 10 >= 100 <==> r.verdict == VerdictView::Ban) && (p.ban_score + 10 < 100
                <==> r.verdict == VerdictView::Drop)
            &&& m.length <= 33_554_432 ==> r.peer.last_recv == now && r.peer.messages
                == limiter_after(p.messages, now)
            &&& m.length <= 33_554_432 && !allows(p.messages, now) ==> r.peer.ban_score
                >= p.ban_score + 10
        }),
{
}

/// What messages may hold: versions from 70001 to 70016 and no more than two hours ahead, fifty
/// thousand inventories or requests, two thousand headers, a thousand addresses, and pings with a
/// number other than zero.
pub proof fn lemma_payload_limits(payload: PayloadView, now: u64)
    ensures
        payload_violation(payload, now) is None <==> match payload {
            PayloadView::Version(v) => v.timestamp <= now + 7200 && 70001 <= v.version <= 70016,
            PayloadView::Inv(items) => items.len() <= 50_000,
            PayloadView::GetData(items) => items.len() <= 50_000,
            PayloadView::Headers(headers) => headers.len() <= 2_000,
            PayloadView::Addr(list) => list.len() <= 1_000,
            PayloadView::Ping(nonce) => nonce != 0,
            PayloadView::Pong(nonce) => nonce != 0,
            _ => true,
        },
        forall|size: nat, max: usize| #[trigger] size_violation(size, max) is None <==> size <= max,
{
}

/// A version is taken of a peer that is connected and has sent none, from 70001 on.
pub proof fn lemma_version_taken(p: PeerView, m: VersionView)
    ensures
        version_fault(p, m) is None <==> (p.state == PeerState::Connected || p.state
            == PeerState::VersionSent) && m.version >= 70001,
        with_version(p, m).state == PeerState::VersionReceived,
        with_version(p, m).version == Some(m.version),
        with_version(p, m).services == m.services,
        with_version(p, m).start_height == m.start_height,
        with_version(p, m).nonce == m.nonce,
        with_version(p, m).addr == p.addr,
        with_version(p, m).ban_score == p.ban_score,
{
}

/// A peer that sends more than ten million bytes a second on average is too fast.
pub proof fn lemma_too_fast(p: PeerView, now: u64)
    requires
        now > p.bandwidth_start,
    ensures
        too_fast(p, now) <==> p.bytes_received * 100 > now - p.bandwidth_start,
        now >= p.last_recv ==> silence(p, now) == now - p.last_recv,
{
}

/// A handshake may take thirty seconds.
pub proof fn lemma_handshake_time(h: Handshake, now: u64)
    ensures
        overtime(h, now) is Some <==> now > h.started + 30_000_000_000 && h.phase != Phase::Done,
        overtime(h, now) == Some(HandshakeError::TimeoutVersion) ==> h.phase == Phase::AwaitVersion,
        overtime(h, now) == Some(HandshakeError::TimeoutVerack) ==> h.phase == Phase::AwaitVerack,
{
}

/// Who opened the connection is told our version before the acknowledgement; who did not is sent the
/// acknowledgement alone. One that shows our own number is sent nothing.
pub proof fn lemma_version_answered(h: Handshake, p: PeerView, m: VersionView, timestamp: i64)
    ensures
        ({
            let r = version_read(h, p, m, timestamp);
            &&& m.nonce == h.our_nonce ==> r.sends.len() == 0 && r.result == Err::<
                (),
                HandshakeError,
            >(HandshakeError::ConnectedToSelf) && r.peer == p && r.handshake == h
            &&& m.nonce != h.our_nonce && h.inbound ==> r.sends.len() > 0 && r.sends[0] is Version
            &&& m.nonce != h.our_nonce && h.inbound && r.result is Ok ==> r.sends.len() == 2
                && r.sends[1] is Verack
            &&& m.nonce != h.our_nonce && !h.inbound && r.result is Ok ==> r.sends.len() == 1
                && r.sends[0] is Verack
            &&& r.result is Ok ==> r.handshake.phase == Phase::AwaitVerack && r.peer.version
                == Some(m.version) && m.version >= 70001
            &&& h.inbound && m.nonce != h.our_nonce && m.version >= 70001 ==> r.result is Ok
        }),
{
}

/// The network is taken to be lost exactly if nobody is connected and the tip is older than half a
/// minute, or the tip is older than half an hour and nothing is being fetched, or all of more than
/// three peers are gone.
pub proof fn lemma_lost(v: RecoveryView, peers: usize, age: u64, syncing: bool)
    ensures
        partitioned(v, peers, age, syncing) <==> (peers == 0 && age > 30) || (age > 1800
            && !syncing) || (peers == 0 && v.last_peer_count > 3),
{
}

/// Attempts to recover lie at least thirty seconds apart, are counted from one, and go from known
/// peers over seeds to more and more.
pub proof fn lemma_recovery_steps(v: RecoveryView, now: u64)
    requires
        v.attempts < 0xFFFF_FFFF,
    ensures
        ({
            let soon = v.last_call is Some && now < v.last_call->Some_0 + 30_000_000_000;
            let after = attempted(v, now);
            &&& soon ==> after == v
            &&& !soon ==> after.partition_detected && after.last_call == Some(now)
            &&& !soon && !v.partition_detected ==> after.attempts == 1
            &&& !soon && v.partition_detected ==> after.attempts == v.attempts + 1
            &&& after.last_peer_count == v.last_peer_count
            &&& after.seeds == v.seeds
        }),
        stage_of(1) == Stage::KnownPeers,
        stage_of(2) == Stage::Seeds,
        forall|n: u32| 3 <= n <= 5 ==> #[trigger] stage_of(n) == Stage::Aggressive,
        forall|n: u32| n > 5 ==> #[trigger] stage_of(n) == Stage::FullReset,
{
}

/// A look at the network tries to recover where it is lost, and starts over where it is found again.
pub proof fn lemma_watched(v: RecoveryView, peers: usize, age: u64, syncing: bool, now: u64)
    ensures
        partitioned(v, peers, age, syncing) ==> watched(v, peers, age, syncing, now) == attempted(
            v,
            now,
        ),
        !partitioned(v, peers, age, syncing) && peers > 0 ==> !watched(
            v,
            peers,
            age,
            syncing,
            now,
        ).partition_detected,
        !partitioned(v, peers, age, syncing) && peers > 0 && v.partition_detected ==> watched(
            v,
            peers,
            age,
            syncing,
            now,
        ).attempts == 0,
        !partitioned(v, peers, age, syncing) && peers == 0 ==> watched(v, peers, age, syncing, now)
            == v,
        watched(v, peers, age, syncing, now).last_peer_count == v.last_peer_count,
{
}

/// What a peer sends is counted, for it and in all, up to the largest number that a counter holds.
pub proof fn lemma_received_counted(p: PeerView, stats: NetworkStats, size: nat, now: u64)
    ensures
        ({
            let (p1, s1) = received(p, stats, size, now);
            &&& p1.last_recv == now
            &&& p.bytes_received + size < 0x1_0000_0000_0000_0000 ==> p1.bytes_received
                == p.bytes_received + size
            &&& stats.bytes_received + size < 0x1_0000_0000_0000_0000 ==> s1.bytes_received
                == stats.bytes_received + size
            &&& stats.messages_received < 0xFFFF_FFFF_FFFF_FFFF ==> s1.messages_received
                == stats.messages_received + 1
            &&& s1.messages_sent == stats.messages_sent
            &&& s1.bytes_sent == stats.bytes_sent
            &&& p1.bytes_sent == p.bytes_sent
            &&& p1.ban_score == p.ban_score
            &&& p1.id == p.id
        }),
{
}

/// A message that cannot be read is dropped and counted; its sender gets no points for it.
pub proof fn lemma_unreadable_counted(
    p: PeerView,
    stats: NetworkStats,
    m: NetworkMessageView,
    time: u64,
    now: u64,
)
    requires
        kind_of_name(field_name(m.command)) != Some(MessageKind::Block),
        parse_command(field_name(m.command), m.payload) is Err,
        stats.invalid_messages < 0xFFFF_FFFF_FFFF_FFFF,
    ensures
        ({
            let r = message_opened(p, stats, m, time, now);
            &&& r.verdict is Drop
            &&& r.peer == p
            &&& r.stats.invalid_messages == stats.invalid_messages + 1
            &&& r.stats.messages_received == stats.messages_received
        }),
{
}

/// A block is not read at once: it waits for its turn.
pub proof fn lemma_block_waits(
    p: PeerView,
    stats: NetworkStats,
    m: NetworkMessageView,
    time: u64,
    now: u64,
)
    requires
        kind_of_name(field_name(m.command)) == Some(MessageKind::Block),
    ensures
        message_opened(p, stats, m, time, now).verdict is QueueBlock,
        message_opened(p, stats, m, time, now).peer == p,
        message_opened(p, stats, m, time, now).stats == stats,
{
}

} // verus!
