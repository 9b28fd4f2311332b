//! What is remembered of addresses, and how peers are spread over networks.

use crate::network::address::{is_mapped, IpAddrView, SocketAddrView};
use crate::network::addrman::{
    arranged, by_score, candidates, distinct, fresh, heard_of, is_fresh, place_by_score, position,
    reached, score, told, tried, up_to, worth_trying, AddressView,
};
use crate::network::batch::{
    begun, due, messages_for, remembered, unsent, waiting, with_sent, BatcherView, CacheView,
};
use crate::network::discovery::{socket_addr_of, told_count};
use crate::network::diagnostics::{health, ConnectionSummary};
use crate::network::security::{
    code_of, entries_of, first_evictable, history_with, keeps_diversity, others, surrounded,
    with_peer, without_peer, younger, SecurityView,
};
use vstd::prelude::*;

verus! {

/// The place of an address is where it stands, or the end.
proof fn lemma_place(list: Seq<AddressView>, addr: SocketAddrView)
    ensures
        0 <= position(list, addr) <= list.len(),
        position(list, addr) < list.len() ==> list[position(list, addr)].addr == addr,
        forall|i: int| 0 <= i < position(list, addr) ==> (#[trigger] list[i]).addr != addr,
    decreases list.len(),
{
    if list.len() > 0 && list[0].addr != addr {
        let rest = list.skip(1);
        lemma_place(rest, addr);
        assert forall|i: int| 0 <= i < position(list, addr) implies (#[trigger] list[i]).addr
            != addr by {
            if i > 0 {
                assert(rest[i - 1] == list[i]);
            }
        }
    }
}

/// Whether no entry of a list is of an address.
pub open spec fn is_new(list: Seq<AddressView>, addr: SocketAddrView) -> bool {
    forall|i: int| 0 <= i < list.len() ==> (#[trigger] list[i]).addr != addr
}

/// News of a known address replaces older news of it; what was tried stays. All else stays as it is.
pub proof fn lemma_news_of_known(
    list: Seq<AddressView>,
    max: usize,
    i: int,
    services: u64,
    timestamp: u32,
)
    requires
        distinct(list),
        0 <= i < list.len(),
    ensures
        ({
            let after = heard_of(list, max, list[i].addr, services, timestamp);
            &&& after.len() == list.len()
            &&& forall|j: int| 0 <= j < list.len() && j != i ==> (#[trigger] after[j]) == list[j]
            &&& after[i].addr == list[i].addr
            &&& after[i].last_tried == list[i].last_tried
            &&& after[i].last_success == list[i].last_success
            &&& after[i].attempts == list[i].attempts
            &&& timestamp > list[i].timestamp ==> after[i].timestamp == timestamp
                && after[i].services == services
            &&& timestamp <= list[i].timestamp ==> after[i] == list[i]
        }),
{
    lemma_place(list, list[i].addr);
    let at = position(list, list[i].addr);
    if at != i {
        assert(list[at].addr != list[i].addr);
    }
}

/// A new address is put behind the others, untried, as long as there is room.
pub proof fn lemma_new_address(
    list: Seq<AddressView>,
    max: usize,
    addr: SocketAddrView,
    services: u64,
    timestamp: u32,
)
    requires
        is_new(list, addr),
    ensures
        ({
            let after = heard_of(list, max, addr, services, timestamp);
            &&& list.len() >= max ==> after == list
            &&& list.len() < max ==> {
                &&& after.len() == list.len() + 1
                &&& after.drop_last() == list
                &&& after.last().addr == addr
                &&& after.last().services == services
                &&& after.last().timestamp == timestamp
                &&& after.last().last_tried is None
                &&& after.last().last_success is None
                &&& after.last().attempts == 0
            }
        }),
{
    lemma_place(list, addr);
    let after = heard_of(list, max, addr, services, timestamp);
    if list.len() < max {
        assert(after.drop_last() =~= list);
    }
}

/// An attempt and a success are noted at the address and nowhere else: an attempt is one more, a
/// success makes them none.
pub proof fn lemma_attempts_noted(list: Seq<AddressView>, i: int, now: u32)
    requires
        distinct(list),
        0 <= i < list.len(),
    ensures
        ({
            let a = tried(list, list[i].addr, now);
            let b = reached(list, list[i].addr, now);
            &&& a.len() == list.len() && b.len() == list.len()
            &&& forall|j: int| 0 <= j < list.len() && j != i ==> (#[trigger] a[j]) == list[j]
            &&& forall|j: int| 0 <= j < list.len() && j != i ==> (#[trigger] b[j]) == list[j]
            &&& a[i].last_tried == Some(now)
            &&& list[i].attempts < 0xFFFF_FFFF ==> a[i].attempts == list[i].attempts + 1
            &&& a[i].last_success == list[i].last_success
            &&& b[i].last_success == Some(now)
            &&& b[i].attempts == 0
            &&& b[i].last_tried == list[i].last_tried
            &&& a[i].addr == list[i].addr && b[i].addr == list[i].addr
            &&& a[i].timestamp == list[i].timestamp && b[i].timestamp == list[i].timestamp
            &&& a[i].services == list[i].services && b[i].services == list[i].services
        }),
{
    lemma_place(list, list[i].addr);
    let at = position(list, list[i].addr);
    if at != i {
        assert(list[at].addr != list[i].addr);
    }
}

/// Of an address that is not known nothing is noted.
pub proof fn lemma_unknown_not_noted(list: Seq<AddressView>, addr: SocketAddrView, now: u32)
    requires
        is_new(list, addr),
    ensures
        tried(list, addr, now) == list,
        reached(list, addr, now) == list,
{
    lemma_place(list, addr);
}

/// Whether a time lies less than an age ago.
pub open spec fn within(time: u32, age: int, now: u32) -> bool {
    age > 0 && now < time + age
}

/// A cleanup keeps exactly what was heard of or reached within the age.
pub proof fn lemma_cleanup_keeps(list: Seq<AddressView>, age: int, now: u32, e: AddressView)
    requires
        0 < age <= 0xFFFF_FFFF,
    ensures
        fresh(list, age, now).contains(e) <==> list.contains(e) && (within(e.timestamp, age, now)
            || (e.last_success is Some && within(e.last_success->Some_0, age, now))),
    decreases list.len(),
{
    if list.len() > 0 {
        let front = list.drop_last();
        lemma_cleanup_keeps(front, age, now, e);
        let before = fresh(front, age, now);
        let after = fresh(list, age, now);
        assert(is_fresh(list.last(), age, now) <==> within(list.last().timestamp, age, now) || (
        list.last().last_success is Some && within(list.last().last_success->Some_0, age, now)));
        lemma_contains_last(list, e);
        if is_fresh(list.last(), age, now) {
            lemma_contains_last(after, e);
            assert(after.drop_last() =~= before);
        }
    } else {
        assert(!list.contains(e));
    }
}

proof fn lemma_contains_last<A>(s: Seq<A>, e: A)
    requires
        s.len() > 0,
    ensures
        s.contains(e) <==> s.drop_last().contains(e) || s.last() == e,
{
    if s.contains(e) {
        let i = choose|i: int| 0 <= i < s.len() && s[i] == e;
        if i < s.len() - 1 {
            assert(s.drop_last()[i] == e);
        }
    }
    if s.drop_last().contains(e) {
        let i = choose|i: int| 0 <= i < s.drop_last().len() && s.drop_last()[i] == e;
        assert(s[i] == e);
    }
    if s.last() == e {
        assert(s[s.len() - 1] == e);
    }
}

/// How good an address is: when it was last reached, less the attempts since.
pub open spec fn merit(e: AddressView) -> int {
    match e.last_success {
        Some(t) => t - e.attempts,
        None => -(e.attempts as int),
    }
}

/// Whether entries come the best first.
pub open spec fn best_first(s: Seq<AddressView>) -> bool {
    forall|i: int, j: int| 0 <= i <= j < s.len() ==> merit(#[trigger] s[i]) >= merit(#[trigger] s[j])
}

proof fn lemma_placed(s: Seq<AddressView>, info: AddressView, e: AddressView)
    requires
        best_first(s),
    ensures
        best_first(place_by_score(s, info)),
        place_by_score(s, info).len() == s.len() + 1,
        place_by_score(s, info).contains(e) <==> s.contains(e) || e == info,
        forall|i: int|
            0 <= i < place_by_score(s, info).len() ==> (#[trigger] place_by_score(s, info)[i])
                == info || s.contains(place_by_score(s, info)[i]),
    decreases s.len(),
{
    let r = place_by_score(s, info);
    if s.len() == 0 || score(s.last()) >= score(info) {
        assert(r =~= s.push(info));
        lemma_contains_last(r, e);
        assert(r.drop_last() =~= s);
        assert forall|i: int, j: int| 0 <= i <= j < r.len() implies merit(#[trigger] r[i]) >= merit(
            #[trigger] r[j],
        ) by {
            if j == s.len() && i < j {
                assert(merit(s[i]) >= merit(s[s.len() - 1]));
            }
        }
        assert forall|i: int| 0 <= i < r.len() implies (#[trigger] r[i]) == info || s.contains(
            r[i],
        ) by {
            if i < s.len() {
                assert(r[i] == s[i]);
            }
        }
    } else {
        let front = s.drop_last();
        assert(best_first(front)) by {
            assert forall|i: int, j: int| 0 <= i <= j < front.len() implies merit(
                #[trigger] front[i],
            ) >= merit(#[trigger] front[j]) by {
                assert(front[i] == s[i] && front[j] == s[j]);
            }
        }
        lemma_placed(front, info, e);
        let p = place_by_score(front, info);
        assert(r == p.push(s.last()));
        lemma_contains_last(r, e);
        assert(r.drop_last() =~= p);
        lemma_contains_last(s, e);
        assert forall|i: int| 0 <= i < r.len() implies (#[trigger] r[i]) == info || s.contains(
            r[i],
        ) by {
            if i < p.len() {
                assert(r[i] == p[i]);
                if p[i] != info {
                    let k = choose|k: int| 0 <= k < front.len() && front[k] == p[i];
                    assert(s[k] == p[i]);
                }
            } else {
                assert(s[s.len() - 1] == r[i]);
            }
        }
        assert forall|i: int, j: int| 0 <= i <= j < r.len() implies merit(#[trigger] r[i]) >= merit(
            #[trigger] r[j],
        ) by {
            if j < p.len() {
                assert(r[i] == p[i] && r[j] == p[j]);
            } else if i < p.len() {
                assert(r[i] == p[i]);
                if p[i] != info {
                    let k = choose|k: int| 0 <= k < front.len() && front[k] == p[i];
                    assert(s[k] == p[i]);
                    assert(merit(s[k]) >= merit(s[s.len() - 1]));
                }
            }
        }
    }
}

/// The best addresses are those that were ever reached, the best first.
pub proof fn lemma_best_addresses(list: Seq<AddressView>, e: AddressView)
    ensures
        best_first(by_score(list)),
        by_score(list).contains(e) <==> list.contains(e) && e.last_success is Some,
    decreases list.len(),
{
    if list.len() > 0 {
        lemma_best_addresses(list.drop_last(), e);
        lemma_contains_last(list, e);
        if list.last().last_success is Some {
            lemma_placed(by_score(list.drop_last()), list.last(), e);
        }
    } else {
        assert(!by_score(list).contains(e));
    }
}

/// An address may be drawn exactly if it was ever reached, or tried fewer than three times.
pub proof fn lemma_worth_drawing(list: Seq<AddressView>, addr: SocketAddrView)
    ensures
        candidates(list).contains(addr) <==> exists|i: int|
            0 <= i < list.len() && (#[trigger] list[i]).addr == addr && (list[i].attempts < 3
                || list[i].last_success is Some),
    decreases list.len(),
{
    if list.len() > 0 {
        let front = list.drop_last();
        lemma_worth_drawing(front, addr);
        let after = candidates(list);
        let last = list.last();
        if worth_trying(last) {
            lemma_contains_last(after, addr);
            assert(after.drop_last() =~= candidates(front));
        }
        if exists|i: int|
            0 <= i < front.len() && (#[trigger] front[i]).addr == addr && (front[i].attempts < 3
                || front[i].last_success is Some) {
            let i = choose|i: int|
                0 <= i < front.len() && (#[trigger] front[i]).addr == addr && (front[i].attempts < 3
                    || front[i].last_success is Some);
            assert(list[i] == front[i]);
        }
        if last.addr == addr && worth_trying(last) {
            assert(list[list.len() - 1] == last);
        }
        if exists|i: int|
            0 <= i < list.len() && (#[trigger] list[i]).addr == addr && (list[i].attempts < 3
                || list[i].last_success is Some) {
            let i = choose|i: int|
                0 <= i < list.len() && (#[trigger] list[i]).addr == addr && (list[i].attempts < 3
                    || list[i].last_success is Some);
            if i < front.len() {
                assert(front[i] == list[i]);
            }
        }
    } else {
        assert(!candidates(list).contains(addr));
    }
}

/// Of a sequence up to a number is taken, from its front; in another order each place holds the
/// element that the order names.
pub proof fn lemma_drawn(s: Seq<SocketAddrView>, n: nat, order: Seq<usize>, i: int)
    requires
        0 <= i < order.len(),
    ensures
        s.len() <= n ==> up_to(s, n) == s,
        s.len() > n ==> up_to(s, n).len() == n && up_to(s, n) == s.subrange(0, n as int),
        arranged(s, order).len() == order.len(),
        arranged(s, order)[i] == s[order[i] as int],
        told_count(n) <= 1000 && told_count(n) <= n && (told_count(n) == n || told_count(n) == 1000),
{
}

/// An IPv4 address is told as the last four of sixteen bytes, behind ten zeros and two bytes of ones,
/// and read back as it was.
pub proof fn lemma_address_told(e: AddressView)
    requires
        e.addr.ip matches IpAddrView::V4(o) ==> o.len() == 4,
        e.addr.ip matches IpAddrView::V6(o) ==> o.len() == 16 && !is_mapped(o),
    ensures
        ({
            let t = told(e);
            &&& t.ip.len() == 16
            &&& t.port == e.addr.port
            &&& t.services == e.services
            &&& t.timestamp == e.timestamp
            &&& e.addr.ip matches IpAddrView::V4(o) ==> {
                &&& t.ip.subrange(12, 16) == o
                &&& forall|i: int| 0 <= i < 10 ==> #[trigger] t.ip[i] == 0
                &&& t.ip[10] == 255 && t.ip[11] == 255
            }
            &&& e.addr.ip matches IpAddrView::V6(o) ==> t.ip == o
            &&& socket_addr_of(t) == e.addr
        }),
{
    match e.addr.ip {
        IpAddrView::V4(o) => {
            assert(told(e).ip.subrange(12, 16) =~= o);
        },
        IpAddrView::V6(o) => {},
    }
}

/// The network of an IPv4 address is its first two bytes, that of an IPv6 address its first four.
pub proof fn lemma_same_network(a: Seq<u8>, b: Seq<u8>)
    ensures
        a.len() == 4 && b.len() == 4 && a[0] != 10 && a[0] != 127 && b[0] != 10 && b[0] != 127 ==> (
        code_of(IpAddrView::V4(a)) == code_of(IpAddrView::V4(b)) <==> a[0] == b[0] && a[1] == b[1]),
        a.len() == 4 && (a[0] == 10 || a[0] == 127) ==> code_of(IpAddrView::V4(a)) == 0,
        a.len() == 16 && b.len() == 16 && !(a[0] == 0 && a[1] == 0) && !(b[0] == 0 && b[1] == 0)
            && !(a[0] == 0xfe && a[1] == 0x80) && !(b[0] == 0xfe && b[1] == 0x80) ==> (code_of(
            IpAddrView::V6(a),
        ) == code_of(IpAddrView::V6(b)) <==> a[0] == b[0] && a[1] == b[1] && a[2] == b[2] && a[3]
            == b[3]),
        a.len() == 4 && b.len() == 16 && a[0] != 10 && a[0] != 127 ==> code_of(IpAddrView::V4(a))
            != code_of(IpAddrView::V6(b)),
        a.len() == 16 && ((a[0] == 0 && a[1] == 0) || (a[0] == 0xfe && a[1] == 0x80)) ==> code_of(
            IpAddrView::V6(a),
        ) == 0,
{
}

/// One more peer of a network is taken exactly if there are no peers yet, or the network has fewer
/// than three and would have no more than thirty of a hundred.
pub proof fn lemma_spread(v: SecurityView, ip: IpAddrView, total: usize)
    ensures
        ({
            let count = if v.groups.contains_key(code_of(ip)) {
                v.groups[code_of(ip)].len()
            } else {
                0
            };
            keeps_diversity(v, ip, total) <==> total == 0 || (count < 3 && 10 * (count + 1) <= 3 * (
            total + 1))
        }),
{
}

/// What is left of a history is what is younger than an age, in its order.
pub proof fn lemma_younger(history: Seq<(u64, IpAddrView)>, age: u64, now: u64, e: (u64, IpAddrView))
    ensures
        younger(history, age, now).contains(e) <==> history.contains(e) && now < e.0 + age,
        younger(history, age, now).len() <= history.len(),
    decreases history.len(),
{
    if history.len() > 0 {
        let front = history.drop_last();
        lemma_younger(front, age, now, e);
        lemma_contains_last(history, e);
        let after = younger(history, age, now);
        if now - history.last().0 < age {
            lemma_contains_last(after, e);
            assert(after.drop_last() =~= younger(front, age, now));
        }
    } else {
        assert(!younger(history, age, now).contains(e));
    }
}

/// A connection is remembered for a minute; at most a hundred are, and the one that was just made is
/// always among them.
pub proof fn lemma_history(history: Seq<(u64, IpAddrView)>, ip: IpAddrView, now: u64)
    requires
        history.len() <= 100,
    ensures
        history_with(history, ip, now).len() <= 100,
        history_with(history, ip, now).len() > 0,
        history_with(history, ip, now).last() == (now, ip),
        forall|i: int|
            0 <= i < history_with(history, ip, now).len() ==> now < (#[trigger] history_with(
                history,
                ip,
                now,
            )[i]).0 + 60_000_000_000,
{
    let all = history.push((now, ip));
    let h = younger(all, 60_000_000_000, now);
    lemma_younger(all, 60_000_000_000, now, (now, ip));
    assert(all.drop_last() =~= history);
    assert(h.last() == (now, ip));
    assert forall|i: int| 0 <= i < h.len() implies now < (#[trigger] h[i]).0 + 60_000_000_000 by {
        assert(h.contains(h[i]));
        lemma_younger(all, 60_000_000_000, now, h[i]);
    }
}

/// A peer counts for its network from when it connects until it is gone.
pub proof fn lemma_network_counts(v: SecurityView, peer: u64, ip: IpAddrView, now: u64, code: u64)
    requires
        code != code_of(ip),
    ensures
        ({
            let after = with_peer(v, peer, ip, now);
            let c = code_of(ip);
            &&& after.groups.contains_key(c)
            &&& after.groups[c].last() == peer
            &&& v.groups.contains_key(c) ==> after.groups[c].drop_last() == v.groups[c]
            &&& !v.groups.contains_key(c) ==> after.groups[c].len() == 1
            &&& after.groups.contains_key(code) == v.groups.contains_key(code)
            &&& v.groups.contains_key(code) ==> after.groups[code] == v.groups[code]
            &&& after.group_by_peer.contains_key(peer) && after.group_by_peer[peer] == c
            &&& after.anchors == v.anchors
            &&& after.feelers == v.feelers
        }),
{
    let c = code_of(ip);
    if v.groups.contains_key(c) {
        assert(v.groups[c].push(peer).drop_last() =~= v.groups[c]);
    }
}

/// Without a peer all others stay.
pub proof fn lemma_others(peers: Seq<u64>, peer: u64, p: u64)
    ensures
        others(peers, peer).contains(p) <==> peers.contains(p) && p != peer,
        others(peers, peer).len() <= peers.len(),
    decreases peers.len(),
{
    if peers.len() > 0 {
        lemma_others(peers.drop_last(), peer, p);
        lemma_contains_last(peers, p);
        let after = others(peers, peer);
        if peers.last() != peer {
            lemma_contains_last(after, p);
            assert(after.drop_last() =~= others(peers.drop_last(), peer));
        }
    } else {
        assert(!others(peers, peer).contains(p));
    }
}

/// A peer that is gone counts for nothing any more.
pub proof fn lemma_peer_forgotten(v: SecurityView, peer: u64, code: u64, p: u64)
    ensures
        ({
            let after = without_peer(v, peer);
            &&& !after.group_by_peer.contains_key(peer)
            &&& !after.anchors.contains(peer)
            &&& !after.feelers.contains(peer)
            &&& after.history == v.history
            &&& v.group_by_peer.contains_key(peer) && code == v.group_by_peer[peer] ==> {
                &&& after.groups.contains_key(code) ==> (after.groups[code].contains(p)
                    <==> v.groups[code].contains(p) && p != peer)
                &&& after.groups.contains_key(code) ==> v.groups.contains_key(code)
                    && after.groups[code].len() > 0
            }
            &&& !(v.group_by_peer.contains_key(peer) && code == v.group_by_peer[peer]) ==> {
                &&& after.groups.contains_key(code) == v.groups.contains_key(code)
                &&& v.groups.contains_key(code) ==> after.groups[code] == v.groups[code]
            }
        }),
{
    if v.groups.contains_key(code) {
        lemma_others(v.groups[code], peer, p);
    }
}

/// The first that is no anchor is evicted, if there is one.
pub proof fn lemma_first_evicted(peers: Seq<u64>, anchors: Set<u64>, i: int)
    requires
        0 <= i < peers.len(),
        !anchors.contains(peers[i]),
        forall|j: int| 0 <= j < i ==> anchors.contains(#[trigger] peers[j]),
    ensures
        first_evictable(peers, anchors) == Some(peers[i]),
    decreases i,
{
    if i > 0 {
        assert(anchors.contains(peers[0]));
        let rest = peers.skip(1);
        assert forall|j: int| 0 <= j < i - 1 implies anchors.contains(#[trigger] rest[j]) by {
            assert(rest[j] == peers[j + 1]);
        }
        lemma_first_evicted(rest, anchors, i - 1);
    }
}

/// More than seven of at least ten connections within five minutes from one network look as if
/// someone surrounded the node.
pub proof fn lemma_surrounded(v: SecurityView, now: u64, code: u64)
    requires
        younger(v.history, 300_000_000_000, now).len() >= 10,
        entries_of(younger(v.history, 300_000_000_000, now), code) > 7,
    ensures
        surrounded(v, now),
{
}

/// The items of a peer go out when they have waited a tenth of a second, or a thousand of a kind are
/// there.
pub proof fn lemma_batch_due(v: BatcherView, peer: u64, now: u64)
    ensures
        due(v, peer, now) <==> (v.started.contains_key(peer) && now >= v.started[peer]
            + 100_000_000) || (v.inv.contains_key(peer) && v.inv[peer].len() >= 1000) || (
        v.getdata.contains_key(peer) && v.getdata[peer].len() >= 1000) || (v.addr.contains_key(peer)
            && v.addr[peer].len() >= 1000),
        begun(v.started, peer, now).contains_key(peer),
        v.started.contains_key(peer) ==> begun(v.started, peer, now)[peer] == v.started[peer],
        !v.started.contains_key(peer) ==> begun(v.started, peer, now)[peer] == now,
{
}

/// As many messages go out as there are kinds of which something waits.
pub proof fn lemma_batch_messages(v: BatcherView, peer: u64)
    ensures
        messages_for(v, peer).len() == (if waiting(v.inv, peer).len() > 0 {
            1int
        } else {
            0
        }) + (if waiting(v.getdata, peer).len() > 0 {
            1int
        } else {
            0
        }) + (if waiting(v.addr, peer).len() > 0 {
            1int
        } else {
            0
        }),
{
}

/// What was sent is remembered once; where there is no room, the oldest is forgotten.
pub proof fn lemma_sent_once(sent: Seq<Seq<u8>>, hash: Seq<u8>, max: usize)
    requires
        0 < max,
        sent.len() <= max,
    ensures
        sent.contains(hash) ==> remembered(sent, hash, max) == sent,
        !sent.contains(hash) ==> remembered(sent, hash, max).last() == hash,
        !sent.contains(hash) && sent.len() < max ==> remembered(sent, hash, max).drop_last()
            == sent,
        !sent.contains(hash) && sent.len() == max ==> remembered(sent, hash, max).drop_last()
            == sent.skip(1),
{
    let after = remembered(sent, hash, max);
    if !sent.contains(hash) {
        if sent.len() < max {
            assert(after.drop_last() =~= sent);
        } else {
            assert(after.drop_last() =~= sent.skip(1));
        }
    }
}

/// How well the network does: fewer than three peers cost thirty of a hundred, fewer than eight ten,
/// none that we connected to forty, and silence fifteen.
pub proof fn lemma_health(s: ConnectionSummary, starved: bool)
    ensures
        s.total_peers >= 8 && s.outbound_peers > 0 && !starved ==> health(s, starved) == 100,
        3 <= s.total_peers < 8 && s.outbound_peers > 0 && !starved ==> health(s, starved) == 90,
        s.total_peers < 3 && s.outbound_peers > 0 && !starved ==> health(s, starved) == 70,
        s.outbound_peers == 0 && s.active_peers > 0 && starved ==> health(s, starved) == health(
            ConnectionSummary { outbound_peers: 1, ..s },
            false,
        ) - 55,
        s.active_peers == 0 ==> health(s, true) == health(s, false),
        s.active_peers > 0 ==> health(s, true) == health(s, false) - 15,
        health(ConnectionSummary { outbound_peers: 0, ..s }, starved) == health(
            ConnectionSummary { outbound_peers: 1, ..s },
            starved,
        ) - 40,
{
}

/// What was sent to a peer is remembered beside what was sent before, for this peer alone, and
/// forgotten when the peer has gone.
pub proof fn lemma_sends_remembered(
    c: CacheView,
    peer: u64,
    other: u64,
    hash: Seq<u8>,
    earlier: Seq<u8>,
)
    requires
        peer != other,
        waiting(c.sent, peer).len() < c.max,
        waiting(c.sent, peer).contains(earlier),
    ensures
        waiting(with_sent(c, peer, hash).sent, peer).contains(hash),
        waiting(with_sent(c, peer, hash).sent, peer).contains(earlier),
        waiting(with_sent(c, peer, hash).sent, other) == waiting(c.sent, other),
        waiting(unsent(c, peer).sent, peer).len() == 0,
        waiting(unsent(c, peer).sent, other) == waiting(c.sent, other),
{
    let s = waiting(c.sent, peer);
    let k = s.index_of(earlier);
    assert(s[k] == earlier);
    assert(s.push(hash)[k] == earlier);
    assert(s.push(hash)[s.len() as int] == hash);
}

} // verus!
