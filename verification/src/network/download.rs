//! The queue of blocks to download: which are still to be requested, which were
//! requested of which peer, and how much each peer carries.

use crate::collections::byte_map::ByteMap;
use crate::collections::id_map::IdMap;
use crate::primitives::bytes::bytes_equal;
use crate::primitives::hash::Hash256;
use crate::primitives::serialize::views;
use std::collections::VecDeque;
use vstd::prelude::*;
use vstd::slice::slice_to_vec;

verus! {

/// Number of blocks each peer may have in-flight simultaneously.
pub const DOWNLOAD_WINDOW: usize = 64;

/// Global cap on total in-flight block requests across all peers.
pub const MAX_INFLIGHT: usize = 512;

/// Re-request a block if no response arrives within this many nanoseconds.
pub const BLOCK_REQUEST_TIMEOUT: u64 = 30_000_000_000;

/// What a download queue stands for.
#[verifier::ext_equal]
pub struct DownloadView {
    /// Hashes not yet dispatched, the next one first.
    pub pending: Seq<Seq<u8>>,
    /// Hashes that were requested: of which peer, and when.
    pub in_flight: Map<Seq<u8>, (u64, u64)>,
    /// How many requests each peer carries.
    pub load: Map<u64, usize>,
    /// The hashes that wait or are in flight, in the order in which they were queued.
    pub order: Seq<Seq<u8>>,
}

/// What a distribution of requests leads to.
pub struct Drained {
    pub queue: DownloadView,
    /// The requests, each with the peer that it goes to.
    pub batches: Seq<(u64, Seq<Seq<u8>>)>,
}

/// What one peer gets of a distribution.
pub struct Filled {
    pub queue: DownloadView,
    pub hashes: Seq<Seq<u8>>,
}

/// How many requests a peer carries.
pub open spec fn load_of(load: Map<u64, usize>, peer: u64) -> usize {
    if load.contains_key(peer) {
        load[peer]
    } else {
        0
    }
}

/// A load less one, but not below zero.
pub open spec fn less_one(load: usize) -> usize {
    if load == 0 {
        0
    } else {
        (load - 1) as usize
    }
}

/// The hashes that were requested of a peer.
pub open spec fn requested_of(in_flight: Map<Seq<u8>, (u64, u64)>, peer: u64) -> Set<Seq<u8>> {
    in_flight.dom().filter(|h: Seq<u8>| in_flight[h].0 == peer)
}

/// Whether a request has waited too long.
pub open spec fn late(sent_at: u64, now: u64) -> bool {
    now - sent_at > BLOCK_REQUEST_TIMEOUT
}

/// The hashes whose requests have waited too long.
pub open spec fn overdue(in_flight: Map<Seq<u8>, (u64, u64)>, now: u64) -> Set<Seq<u8>> {
    in_flight.dom().filter(|h: Seq<u8>| late(in_flight[h].1, now))
}

/// A sequence of hashes without one of them.
pub open spec fn without(s: Seq<Seq<u8>>, hash: Seq<u8>) -> Seq<Seq<u8>>
    decreases s.len(),
{
    if s.len() == 0 {
        s
    } else if s.last() == hash {
        without(s.drop_last(), hash)
    } else {
        without(s.drop_last(), hash).push(s.last())
    }
}

/// A sequence of hashes without the first occurrence of one of them.
pub open spec fn without_first(s: Seq<Seq<u8>>, hash: Seq<u8>) -> Seq<Seq<u8>>
    decreases s.len(),
{
    if s.len() == 0 {
        s
    } else if s[0] == hash {
        s.skip(1)
    } else {
        seq![s[0]] + without_first(s.skip(1), hash)
    }
}

/// Some of the hashes that were queued, in the order in which they were queued.
pub open spec fn in_queue_order(order: Seq<Seq<u8>>, some: Set<Seq<u8>>) -> Seq<Seq<u8>> {
    order.filter(|h: Seq<u8>| some.contains(h))
}

/// The queue without anything.
pub open spec fn empty_queue() -> DownloadView {
    DownloadView {
        pending: Seq::empty(),
        in_flight: Map::empty(),
        load: Map::empty(),
        order: Seq::empty(),
    }
}

/// The queue once a hash is no longer in flight, which keeps its place in the order.
pub open spec fn let_go(d: DownloadView, hash: Seq<u8>) -> DownloadView {
    if d.in_flight.contains_key(hash) {
        let peer = d.in_flight[hash].0;
        DownloadView {
            in_flight: d.in_flight.remove(hash),
            load: d.load.insert(peer, less_one(load_of(d.load, peer))),
            ..d
        }
    } else {
        d
    }
}

/// The queue once none of a list of hashes is in flight.
pub open spec fn let_go_all(d: DownloadView, hashes: Seq<Seq<u8>>) -> DownloadView
    decreases hashes.len(),
{
    if hashes.len() == 0 {
        d
    } else {
        let_go(let_go_all(d, hashes.drop_last()), hashes.last())
    }
}

/// The queue once a hash that was in flight has arrived.
pub open spec fn released(d: DownloadView, hash: Seq<u8>) -> DownloadView {
    if d.in_flight.contains_key(hash) {
        DownloadView { order: without_first(d.order, hash), ..let_go(d, hash) }
    } else {
        d
    }
}

/// The queue after hashes were added behind those that wait. A hash that waits or
/// is in flight is left where it is.
pub open spec fn enqueued(d: DownloadView, hashes: Seq<Seq<u8>>) -> DownloadView
    decreases hashes.len(),
{
    if hashes.len() == 0 {
        d
    } else {
        let before = enqueued(d, hashes.drop_last());
        let hash = hashes.last();
        if before.in_flight.contains_key(hash) || before.pending.contains(hash) {
            before
        } else {
            DownloadView {
                pending: before.pending.push(hash),
                order: before.order.push(hash),
                ..before
            }
        }
    }
}

/// The queue after a hash was put in front, before all that were queued.
pub open spec fn requeued(d: DownloadView, hash: Seq<u8>) -> DownloadView {
    let r = released(d, hash);
    DownloadView {
        pending: seq![hash] + without(r.pending, hash),
        order: seq![hash] + without_first(r.order, hash),
        ..r
    }
}

/// Puts a peer behind the last one that carries no more.
pub open spec fn place_by_load(load: Map<u64, usize>, s: Seq<u64>, peer: u64) -> Seq<u64>
    decreases s.len(),
{
    if s.len() == 0 || load_of(load, s.last()) <= load_of(load, peer) {
        s.push(peer)
    } else {
        place_by_load(load, s.drop_last(), peer).push(s.last())
    }
}

/// Peers in the order of what they carry, the lightest first.
pub open spec fn by_load(load: Map<u64, usize>, peers: Seq<u64>) -> Seq<u64>
    decreases peers.len(),
{
    if peers.len() == 0 {
        peers
    } else {
        place_by_load(load, by_load(load, peers.drop_last()), peers.last())
    }
}

/// Whether no peer carries more than one behind it.
pub open spec fn lightest_first(load: Map<u64, usize>, s: Seq<u64>) -> bool {
    forall|i: int, j: int|
        0 <= i <= j < s.len() ==> load_of(load, #[trigger] s[i]) <= load_of(load, #[trigger] s[j])
}

proof fn lemma_place_by_load(load: Map<u64, usize>, s: Seq<u64>, peer: u64)
    requires
        lightest_first(load, s),
    ensures
        lightest_first(load, place_by_load(load, s, peer)),
        place_by_load(load, s, peer).to_multiset() == s.to_multiset().insert(peer),
        forall|i: int|
            0 <= i < place_by_load(load, s, peer).len() ==> s.contains(
                #[trigger] place_by_load(load, s, peer)[i],
            ) || place_by_load(load, s, peer)[i] == peer,
    decreases s.len(),
{
    broadcast use vstd::seq_lib::group_to_multiset_ensures;

    if s.len() == 0 || load_of(load, s.last()) <= load_of(load, peer) {
        assert forall|i: int| 0 <= i < s.push(peer).len() implies s.contains(
            #[trigger] s.push(peer)[i],
        ) || s.push(peer)[i] == peer by {
            if i < s.len() {
                assert(s[i] == s.push(peer)[i]);
            }
        }
    } else {
        let shorter = s.drop_last();
        lemma_place_by_load(load, shorter, peer);
        let placed = place_by_load(load, shorter, peer);
        assert(s =~= shorter.push(s.last()));
        assert(placed.push(s.last()).to_multiset() =~= s.to_multiset().insert(peer));
        assert forall|i: int| 0 <= i < placed.len() implies load_of(load, #[trigger] placed[i])
            <= load_of(load, s.last()) by {
            if shorter.contains(placed[i]) {
                let k = choose|k: int| 0 <= k < shorter.len() && shorter[k] == placed[i];
                assert(s[k] == placed[i]);
            }
        }
        assert forall|i: int| 0 <= i < placed.push(s.last()).len() implies s.contains(
            #[trigger] placed.push(s.last())[i],
        ) || placed.push(s.last())[i] == peer by {
            if i < placed.len() {
                assert(placed[i] == placed.push(s.last())[i]);
                if shorter.contains(placed[i]) {
                    let k = choose|k: int| 0 <= k < shorter.len() && shorter[k] == placed[i];
                    assert(s[k] == placed[i]);
                }
            } else {
                assert(s[s.len() - 1] == s.last());
            }
        }
    }
}

/// Work is handed out to all peers, those that carry the least first.
pub proof fn lemma_by_load(load: Map<u64, usize>, peers: Seq<u64>)
    ensures
        lightest_first(load, by_load(load, peers)),
        by_load(load, peers).to_multiset() == peers.to_multiset(),
    decreases peers.len(),
{
    broadcast use vstd::seq_lib::group_to_multiset_ensures;

    if peers.len() > 0 {
        let shorter = peers.drop_last();
        lemma_by_load(load, shorter);
        lemma_place_by_load(load, by_load(load, shorter), peers.last());
        assert(peers =~= shorter.push(peers.last()));
        assert(by_load(load, peers).to_multiset() =~= peers.to_multiset());
    }
}

/// How many more requests a peer may get.
pub open spec fn room(d: DownloadView, peer: u64) -> nat {
    if load_of(d.load, peer) < DOWNLOAD_WINDOW {
        (DOWNLOAD_WINDOW - load_of(d.load, peer)) as nat
    } else {
        0
    }
}

/// The queue once the hash in front was requested of a peer.
pub open spec fn dispatched(d: DownloadView, peer: u64, now: u64) -> DownloadView {
    DownloadView {
        pending: d.pending.skip(1),
        in_flight: d.in_flight.insert(d.pending[0], (peer, now)),
        load: d.load.insert(peer, (load_of(d.load, peer) + 1) as usize),
        ..d
    }
}

/// Up to `n` hashes from the front go to a peer, as long as the cap is not
/// reached.
pub open spec fn filled(d: DownloadView, peer: u64, n: nat, now: u64) -> Filled
    decreases n,
{
    if n == 0 || d.pending.len() == 0 || d.in_flight.dom().len() >= MAX_INFLIGHT {
        Filled { queue: d, hashes: Seq::empty() }
    } else {
        let rest = filled(dispatched(d, peer, now), peer, (n - 1) as nat, now);
        Filled { queue: rest.queue, hashes: seq![d.pending[0]] + rest.hashes }
    }
}

/// Each peer of a list in turn gets what it has room for.
pub open spec fn drained_in_turn(d: DownloadView, peers: Seq<u64>, now: u64) -> Drained
    decreases peers.len(),
{
    if peers.len() == 0 {
        Drained { queue: d, batches: Seq::empty() }
    } else {
        let first = filled(d, peers[0], room(d, peers[0]), now);
        let rest = drained_in_turn(first.queue, peers.skip(1), now);
        if first.hashes.len() == 0 {
            rest
        } else {
            Drained {
                queue: rest.queue,
                batches: seq![(peers[0], first.hashes)] + rest.batches,
            }
        }
    }
}

/// The hashes in front are distributed over peers, the lightest first.
pub open spec fn drained(d: DownloadView, peers: Seq<u64>, now: u64) -> Drained {
    drained_in_turn(d, by_load(d.load, peers), now)
}

/// The queue once a peer is gone: what it carried is in front again, in the order in which
/// it was queued.
pub open spec fn peer_gone(d: DownloadView, peer: u64) -> DownloadView {
    let returned = requested_of(d.in_flight, peer);
    DownloadView {
        pending: in_queue_order(d.order, returned) + d.pending,
        in_flight: d.in_flight.remove_keys(returned),
        load: d.load.remove(peer),
        ..d
    }
}

/// The queue once requests that waited too long are in front again, in the order in which
/// they were queued.
pub open spec fn rechecked(d: DownloadView, now: u64) -> DownloadView {
    let returned = in_queue_order(d.order, overdue(d.in_flight, now));
    let r = let_go_all(d, returned);
    DownloadView { pending: returned + r.pending, ..r }
}

impl DownloadView {
    /// What waits or is in flight is listed once in the order in which it was queued.
    pub open spec fn consistent(self) -> bool {
        &&& self.accounted()
        &&& self.order.no_duplicates()
        &&& self.order.to_set() == self.tracked_hashes()
    }

    /// A hash has 32 bytes; it waits once or is in flight, and not both. A peer carries as many
    /// requests as are in flight with it, and the cap is kept.
    pub open spec fn accounted(self) -> bool {
        &&& self.in_flight.dom().finite()
        &&& self.in_flight.dom().len() <= MAX_INFLIGHT
        &&& self.pending.no_duplicates()
        &&& forall|i: int|
            0 <= i < self.pending.len() ==> !self.in_flight.contains_key(
                #[trigger] self.pending[i],
            ) && self.pending[i].len() == 32
        &&& forall|h: Seq<u8>| (#[trigger] self.in_flight.contains_key(h)) ==> h.len() == 32
        &&& forall|peer: u64|
            #[trigger] load_of(self.load, peer) == requested_of(self.in_flight, peer).len()
    }

    /// The hashes that wait or are in flight.
    pub open spec fn tracked_hashes(self) -> Set<Seq<u8>> {
        self.pending.to_set().union(self.in_flight.dom())
    }
}

proof fn lemma_without(s: Seq<Seq<u8>>, hash: Seq<u8>)
    ensures
        !without(s, hash).contains(hash),
        forall|h: Seq<u8>|
            h != hash ==> (#[trigger] without(s, hash).contains(h) <==> s.contains(h)),
        s.no_duplicates() ==> without(s, hash).no_duplicates(),
    decreases s.len(),
{
    if s.len() > 0 {
        let front = s.drop_last();
        lemma_without(front, hash);
        let r = without(s, hash);
        let fr = without(front, hash);
        assert forall|h: Seq<u8>| s.contains(h) <==> front.contains(h) || h == s.last() by {
            if s.contains(h) {
                let i = choose|i: int| 0 <= i < s.len() && s[i] == h;
                if i < front.len() {
                    assert(front[i] == h);
                }
            }
            if front.contains(h) {
                let i = choose|i: int| 0 <= i < front.len() && front[i] == h;
                assert(s[i] == h);
            }
            if h == s.last() {
                assert(s[s.len() - 1] == h);
            }
        }
        if s.last() != hash {
            assert forall|h: Seq<u8>| r.contains(h) <==> fr.contains(h) || h == s.last() by {
                if r.contains(h) {
                    let i = choose|i: int| 0 <= i < r.len() && r[i] == h;
                    if i < fr.len() {
                        assert(fr[i] == h);
                    }
                }
                if fr.contains(h) {
                    let i = choose|i: int| 0 <= i < fr.len() && fr[i] == h;
                    assert(r[i] == h);
                }
                if h == s.last() {
                    assert(r[fr.len() as int] == h);
                }
            }
            if s.no_duplicates() {
                assert(!front.contains(s.last()));
                assert(!fr.contains(s.last()));
                assert(front.no_duplicates());
            }
        } else if s.no_duplicates() {
            assert(front.no_duplicates());
        }
    }
}

proof fn lemma_without_first(s: Seq<Seq<u8>>, hash: Seq<u8>)
    requires
        s.no_duplicates(),
    ensures
        without_first(s, hash).no_duplicates(),
        without_first(s, hash).to_set() == s.to_set().remove(hash),
    decreases s.len(),
{
    let r = without_first(s, hash);
    if s.len() == 0 {
        assert(r.to_set() =~= s.to_set().remove(hash));
    } else {
        let rest = s.skip(1);
        assert(s =~= seq![s[0]] + rest);
        assert(rest.no_duplicates());
        assert(!rest.contains(s[0])) by {
            if rest.contains(s[0]) {
                let k = choose|k: int| 0 <= k < rest.len() && rest[k] == s[0];
                assert(s[k + 1] == s[0]);
            }
        }
        assert forall|h: Seq<u8>| s.contains(h) <==> h == s[0] || rest.contains(h) by {
            if s.contains(h) {
                let k = choose|k: int| 0 <= k < s.len() && s[k] == h;
                if k > 0 {
                    assert(rest[k - 1] == h);
                }
            }
            if rest.contains(h) {
                let k = choose|k: int| 0 <= k < rest.len() && rest[k] == h;
                assert(s[k + 1] == h);
            }
            if h == s[0] {
                assert(s.contains(s[0]));
            }
        }
        if s[0] != hash {
            lemma_without_first(rest, hash);
            let fr = without_first(rest, hash);
            assert forall|h: Seq<u8>| fr.contains(h) <==> rest.contains(h) && h != hash by {
                assert(fr.to_set().contains(h) <==> rest.to_set().remove(hash).contains(h));
            }
            lemma_led(s[0], fr);
        }
        assert(r.to_set() =~= s.to_set().remove(hash));
    }
}

proof fn lemma_led(hash: Seq<u8>, s: Seq<Seq<u8>>)
    requires
        s.no_duplicates(),
        !s.contains(hash),
    ensures
        (seq![hash] + s).no_duplicates(),
        (seq![hash] + s).to_set() == s.to_set().insert(hash),
        forall|h: Seq<u8>| (#[trigger] (seq![hash] + s).contains(h)) <==> h == hash || s.contains(h),
{
    let r = seq![hash] + s;
    assert forall|h: Seq<u8>| (#[trigger] r.contains(h)) <==> h == hash || s.contains(h) by {
        if r.contains(h) {
            let k = choose|k: int| 0 <= k < r.len() && r[k] == h;
            if k > 0 {
                assert(s[k - 1] == h);
            }
        }
        if s.contains(h) {
            let k = choose|k: int| 0 <= k < s.len() && s[k] == h;
            assert(r[k + 1] == h);
        }
        if h == hash {
            assert(r[0] == h);
        }
    }
    assert forall|i: int, j: int| 0 <= i < r.len() && 0 <= j < r.len() && i != j implies r[i]
        != r[j] by {
        if i > 0 {
            assert(s.contains(s[i - 1]));
        }
        if j > 0 {
            assert(s.contains(s[j - 1]));
        }
    }
    assert(r.to_set() =~= s.to_set().insert(hash));
}

/// Hashes that were queued are listed once, those that were queued first in front.
pub proof fn lemma_in_queue_order(order: Seq<Seq<u8>>, some: Set<Seq<u8>>)
    requires
        order.no_duplicates(),
        some.subset_of(order.to_set()),
    ensures
        in_queue_order(order, some).no_duplicates(),
        in_queue_order(order, some).to_set() == some,
        forall|i: int, j: int|
            0 <= i < j < in_queue_order(order, some).len() ==> queued_before(
                order,
                #[trigger] in_queue_order(order, some)[i],
                #[trigger] in_queue_order(order, some)[j],
            ),
{
    let kept = in_queue_order(order, some);
    lemma_kept(order, some);
    assert forall|h: Seq<u8>| kept.to_set().contains(h) <==> some.contains(h) by {
        if some.contains(h) {
            assert(order.to_set().contains(h));
        }
    }
    assert(kept.to_set() =~= some);
}

/// Whether one hash was queued before another.
pub open spec fn queued_before(order: Seq<Seq<u8>>, x: Seq<u8>, y: Seq<u8>) -> bool {
    exists|a: int, b: int|
        0 <= a < b < order.len() && #[trigger] order[a] == x && #[trigger] order[b] == y
}

proof fn lemma_kept(order: Seq<Seq<u8>>, some: Set<Seq<u8>>)
    requires
        order.no_duplicates(),
    ensures
        in_queue_order(order, some).no_duplicates(),
        forall|h: Seq<u8>|
            (#[trigger] in_queue_order(order, some).contains(h)) <==> order.contains(h)
                && some.contains(h),
        forall|i: int, j: int|
            0 <= i < j < in_queue_order(order, some).len() ==> queued_before(
                order,
                #[trigger] in_queue_order(order, some)[i],
                #[trigger] in_queue_order(order, some)[j],
            ),
    decreases order.len(),
{
    reveal(Seq::filter);
    let kept = in_queue_order(order, some);
    if order.len() > 0 {
        let front = order.drop_last();
        let before = in_queue_order(front, some);
        let last = order.last();
        lemma_kept(front, some);
        assert(!front.contains(last));
        assert forall|h: Seq<u8>| order.contains(h) <==> front.contains(h) || h == last by {
            if order.contains(h) {
                let i = choose|i: int| 0 <= i < order.len() && order[i] == h;
                if i < front.len() {
                    assert(front[i] == h);
                }
            }
            if front.contains(h) {
                let i = choose|i: int| 0 <= i < front.len() && front[i] == h;
                assert(order[i] == h);
            }
            if h == last {
                assert(order[order.len() - 1] == h);
            }
        }
        if some.contains(last) {
            assert(kept == before.push(last));
            assert(!before.contains(last));
            assert forall|h: Seq<u8>|
                (#[trigger] kept.contains(h)) <==> order.contains(h) && some.contains(h) by {
                if kept.contains(h) {
                    let i = choose|i: int| 0 <= i < kept.len() && kept[i] == h;
                    if i < before.len() {
                        assert(before[i] == h);
                        assert(before.contains(h));
                    }
                }
                if before.contains(h) {
                    let i = choose|i: int| 0 <= i < before.len() && before[i] == h;
                    assert(kept[i] == h);
                }
                if h == last {
                    assert(kept[before.len() as int] == h);
                }
            }
        } else {
            assert(kept == before);
        }
        assert forall|i: int, j: int| 0 <= i < j < kept.len() implies queued_before(
            order,
            #[trigger] kept[i],
            #[trigger] kept[j],
        ) by {
            if j < before.len() {
                assert(before[i] == kept[i] && before[j] == kept[j]);
                assert(queued_before(front, before[i], before[j]));
                let (a, b): (int, int) = choose|a: int, b: int|
                    0 <= a < b < front.len() && #[trigger] front[a] == before[i]
                        && #[trigger] front[b] == before[j];
                assert(order[a] == kept[i] && order[b] == kept[j]);
            } else {
                assert(before[i] == kept[i]);
                assert(before.contains(before[i]));
                assert(front.contains(before[i]));
                let a = choose|a: int| 0 <= a < front.len() && front[a] == before[i];
                let b = order.len() - 1;
                assert(order[a] == kept[i] && order[b] == kept[j]);
            }
        }
    }
}

proof fn lemma_requested_insert(
    m: Map<Seq<u8>, (u64, u64)>,
    hash: Seq<u8>,
    to: u64,
    at: u64,
    peer: u64,
)
    requires
        m.dom().finite(),
        !m.contains_key(hash),
    ensures
        requested_of(m.insert(hash, (to, at)), peer).len() == requested_of(m, peer).len() + (
        if peer == to {
            1int
        } else {
            0
        }),
{
    let n = m.insert(hash, (to, at));
    if peer == to {
        assert(requested_of(n, peer) =~= requested_of(m, peer).insert(hash));
    } else {
        assert(requested_of(n, peer) =~= requested_of(m, peer));
    }
}

proof fn lemma_requested_remove(m: Map<Seq<u8>, (u64, u64)>, hash: Seq<u8>, peer: u64)
    requires
        m.dom().finite(),
        m.contains_key(hash),
    ensures
        requested_of(m.remove(hash), peer).len() == requested_of(m, peer).len() - (if peer
            == m[hash].0 {
            1int
        } else {
            0
        }),
{
    let n = m.remove(hash);
    if peer == m[hash].0 {
        assert(requested_of(m, peer).contains(hash));
        assert(requested_of(n, peer) =~= requested_of(m, peer).remove(hash));
    } else {
        assert(requested_of(n, peer) =~= requested_of(m, peer));
    }
}

/// The queue without anything is consistent.
pub proof fn lemma_empty_queue()
    ensures
        empty_queue().consistent(),
{
    let d = empty_queue();
    assert forall|peer: u64| #[trigger] load_of(d.load, peer) == requested_of(
        d.in_flight,
        peer,
    ).len() by {
        assert(requested_of(d.in_flight, peer) =~= Set::empty());
    }
    assert(d.order.to_set() =~= d.tracked_hashes());
}

proof fn lemma_let_go(d: DownloadView, hash: Seq<u8>)
    requires
        d.accounted(),
    ensures
        let_go(d, hash).accounted(),
        let_go(d, hash).pending == d.pending,
        let_go(d, hash).order == d.order,
        let_go(d, hash).in_flight == d.in_flight.remove(hash),
{
    let r = let_go(d, hash);
    if d.in_flight.contains_key(hash) {
        assert forall|peer: u64| #[trigger] load_of(r.load, peer) == requested_of(
            r.in_flight,
            peer,
        ).len() by {
            lemma_requested_remove(d.in_flight, hash, peer);
            assert(load_of(d.load, peer) == requested_of(d.in_flight, peer).len());
        }
    } else {
        assert(d.in_flight.remove(hash) =~= d.in_flight);
    }
}

proof fn lemma_let_go_all(d: DownloadView, hashes: Seq<Seq<u8>>)
    requires
        d.accounted(),
    ensures
        let_go_all(d, hashes).accounted(),
        let_go_all(d, hashes).pending == d.pending,
        let_go_all(d, hashes).order == d.order,
        let_go_all(d, hashes).in_flight == d.in_flight.remove_keys(hashes.to_set()),
    decreases hashes.len(),
{
    if hashes.len() == 0 {
        assert(d.in_flight.remove_keys(hashes.to_set()) =~= d.in_flight);
    } else {
        let front = hashes.drop_last();
        lemma_let_go_all(d, front);
        lemma_let_go(let_go_all(d, front), hashes.last());
        assert(hashes =~= front.push(hashes.last()));
        front.lemma_push_to_set_commute(hashes.last());
        assert(d.in_flight.remove_keys(hashes.to_set()) =~= d.in_flight.remove_keys(
            front.to_set(),
        ).remove(hashes.last()));
    }
}

/// A received block leaves the queue consistent and is no longer in flight;
/// nothing else is lost.
pub proof fn lemma_released(d: DownloadView, hash: Seq<u8>)
    requires
        d.consistent(),
    ensures
        released(d, hash).consistent(),
        released(d, hash).pending == d.pending,
        released(d, hash).in_flight == d.in_flight.remove(hash),
{
    let r = released(d, hash);
    lemma_let_go(d, hash);
    if d.in_flight.contains_key(hash) {
        let g = let_go(d, hash);
        assert forall|peer: u64| #[trigger] load_of(r.load, peer) == requested_of(
            r.in_flight,
            peer,
        ).len() by {
            assert(load_of(g.load, peer) == requested_of(g.in_flight, peer).len());
        }
        lemma_without_first(d.order, hash);
        assert(!d.pending.contains(hash));
        assert(r.order.to_set() =~= r.tracked_hashes());
    } else {
        assert(d.in_flight.remove(hash) =~= d.in_flight);
    }
}

/// Adding hashes leaves the queue consistent, and each of them is then there.
pub proof fn lemma_enqueued(d: DownloadView, hashes: Seq<Seq<u8>>)
    requires
        d.consistent(),
        forall|i: int| 0 <= i < hashes.len() ==> (#[trigger] hashes[i]).len() == 32,
    ensures
        enqueued(d, hashes).consistent(),
        enqueued(d, hashes).in_flight == d.in_flight,
        d.pending.is_prefix_of(enqueued(d, hashes).pending),
        enqueued(d, hashes).tracked_hashes() == d.tracked_hashes().union(hashes.to_set()),
    decreases hashes.len(),
{
    if hashes.len() == 0 {
        assert(d.tracked_hashes().union(hashes.to_set()) =~= d.tracked_hashes());
    } else {
        let front = hashes.drop_last();
        lemma_enqueued(d, front);
        let before = enqueued(d, front);
        let hash = hashes.last();
        assert(hashes =~= front.push(hash));
        front.lemma_push_to_set_commute(hash);
        let r = enqueued(d, hashes);
        if before.in_flight.contains_key(hash) || before.pending.contains(hash) {
            assert(before.tracked_hashes().contains(hash)) by {
                if before.pending.contains(hash) {
                    assert(before.pending.to_set().contains(hash));
                }
            }
            assert(before.tracked_hashes() =~= before.tracked_hashes().insert(hash));
            assert(d.tracked_hashes().union(hashes.to_set()) =~= d.tracked_hashes().union(
                front.to_set(),
            ).insert(hash));
            assert(r.tracked_hashes() =~= d.tracked_hashes().union(hashes.to_set()));
        } else {
            before.pending.lemma_push_to_set_commute(hash);
            assert(r.tracked_hashes() =~= before.tracked_hashes().insert(hash));
            before.order.lemma_push_to_set_commute(hash);
            assert(!before.order.contains(hash)) by {
                if before.order.contains(hash) {
                    assert(before.order.to_set().contains(hash));
                    assert(before.pending.to_set().contains(hash));
                }
            }
            assert(r.order.no_duplicates());
            assert(d.tracked_hashes().union(hashes.to_set()) =~= d.tracked_hashes().union(
                front.to_set(),
            ).insert(hash));
            assert forall|peer: u64| #[trigger] load_of(r.load, peer) == requested_of(
                r.in_flight,
                peer,
            ).len() by {
                assert(load_of(before.load, peer) == requested_of(before.in_flight, peer).len());
            }
        }
    }
}

/// Putting a hash in front leaves the queue consistent; the hash is the next one
/// to be requested.
pub proof fn lemma_requeued(d: DownloadView, hash: Seq<u8>)
    requires
        d.consistent(),
        hash.len() == 32,
    ensures
        requeued(d, hash).consistent(),
        requeued(d, hash).pending[0] == hash,
        requeued(d, hash).tracked_hashes() == d.tracked_hashes().insert(hash),
{
    lemma_released(d, hash);
    let r = released(d, hash);
    let q = requeued(d, hash);
    let rest = without(r.pending, hash);
    lemma_without(r.pending, hash);
    assert forall|i: int| 0 <= i < q.pending.len() implies !q.in_flight.contains_key(
        #[trigger] q.pending[i],
    ) && q.pending[i].len() == 32 by {
        if i > 0 {
            assert(q.pending[i] == rest[i - 1]);
            assert(rest.contains(rest[i - 1]));
            assert(r.pending.contains(rest[i - 1]));
        }
    }
    assert forall|i: int, j: int|
        0 <= i < q.pending.len() && 0 <= j < q.pending.len() && i != j implies q.pending[i]
        != q.pending[j] by {
        if i > 0 {
            assert(rest.contains(rest[i - 1]));
        }
        if j > 0 {
            assert(rest.contains(rest[j - 1]));
        }
    }
    assert forall|peer: u64| #[trigger] load_of(q.load, peer) == requested_of(
        q.in_flight,
        peer,
    ).len() by {
        assert(load_of(r.load, peer) == requested_of(r.in_flight, peer).len());
    }
    assert forall|h: Seq<u8>| #[trigger]
        q.tracked_hashes().contains(h) <==> d.tracked_hashes().insert(hash).contains(h) by {
        if q.pending.contains(h) {
            let i = choose|i: int| 0 <= i < q.pending.len() && q.pending[i] == h;
            if i > 0 {
                assert(rest[i - 1] == h);
                assert(rest.contains(h));
            }
        }
        if d.pending.contains(h) && h != hash {
            assert(rest.contains(h));
            let i = choose|i: int| 0 <= i < rest.len() && rest[i] == h;
            assert(q.pending[i + 1] == h);
        }
        if h == hash {
            assert(q.pending[0] == h);
        }
    }
    assert(q.tracked_hashes() =~= d.tracked_hashes().insert(hash));
    lemma_without_first(r.order, hash);
    let others = without_first(r.order, hash);
    assert(!others.contains(hash)) by {
        assert(!others.to_set().contains(hash));
    }
    lemma_led(hash, others);
    assert forall|h: Seq<u8>| #[trigger] q.order.to_set().contains(h) <==> q.tracked_hashes().contains(
        h,
    ) by {
        assert(q.order.contains(h) <==> h == hash || others.to_set().contains(h));
        assert(r.order.to_set().contains(h) <==> r.tracked_hashes().contains(h));
        if h != hash {
            assert(r.pending.contains(h) <==> d.pending.contains(h));
        }
    }
    assert(q.order.to_set() =~= q.tracked_hashes());
}

proof fn lemma_dispatched(d: DownloadView, peer: u64, now: u64)
    requires
        d.consistent(),
        d.pending.len() > 0,
        d.in_flight.dom().len() < MAX_INFLIGHT,
        load_of(d.load, peer) < DOWNLOAD_WINDOW,
    ensures
        dispatched(d, peer, now).consistent(),
        dispatched(d, peer, now).tracked_hashes() == d.tracked_hashes(),
{
    let hash = d.pending[0];
    let r = dispatched(d, peer, now);
    assert(!d.in_flight.contains_key(hash));
    assert forall|i: int| 0 <= i < r.pending.len() implies !r.in_flight.contains_key(
        #[trigger] r.pending[i],
    ) && r.pending[i].len() == 32 by {
        assert(r.pending[i] == d.pending[i + 1]);
    }
    assert forall|p: u64| #[trigger] load_of(r.load, p) == requested_of(r.in_flight, p).len() by {
        lemma_requested_insert(d.in_flight, hash, peer, now, p);
        assert(load_of(d.load, p) == requested_of(d.in_flight, p).len());
    }
    assert forall|h: Seq<u8>| #[trigger]
        r.tracked_hashes().contains(h) <==> d.tracked_hashes().contains(h) by {
        if r.pending.contains(h) {
            let i = choose|i: int| 0 <= i < r.pending.len() && r.pending[i] == h;
            assert(d.pending[i + 1] == h);
        }
        if d.pending.contains(h) {
            let i = choose|i: int| 0 <= i < d.pending.len() && d.pending[i] == h;
            if i > 0 {
                assert(r.pending[i - 1] == h);
            }
        }
        if h == hash {
            assert(d.pending[0] == h);
        }
    }
    assert(r.tracked_hashes() =~= d.tracked_hashes());
}

proof fn lemma_filled(d: DownloadView, peer: u64, n: nat, now: u64)
    requires
        d.consistent(),
        load_of(d.load, peer) + n <= DOWNLOAD_WINDOW || n == 0,
    ensures
        ({
            let r = filled(d, peer, n, now);
            &&& r.queue.consistent()
            &&& r.queue.tracked_hashes() == d.tracked_hashes()
            &&& d.pending == r.hashes + r.queue.pending
            &&& r.queue.order == d.order
            &&& r.hashes.len() <= n
            &&& load_of(r.queue.load, peer) == load_of(d.load, peer) + r.hashes.len()
            &&& forall|q: u64| q != peer ==> #[trigger] load_of(r.queue.load, q) == load_of(
                d.load,
                q,
            )
            &&& forall|h: Seq<u8>|
                (#[trigger] r.queue.in_flight.contains_key(h)) ==> d.in_flight.contains_key(h)
                    || r.hashes.contains(h) && r.queue.in_flight[h] == (peer, now)
        }),
    decreases n,
{
    let r = filled(d, peer, n, now);
    if n == 0 || d.pending.len() == 0 || d.in_flight.dom().len() >= MAX_INFLIGHT {
        assert(d.pending =~= r.hashes + r.queue.pending);
    } else {
        lemma_dispatched(d, peer, now);
        let d1 = dispatched(d, peer, now);
        lemma_filled(d1, peer, (n - 1) as nat, now);
        let rest = filled(d1, peer, (n - 1) as nat, now);
        assert(d.pending =~= seq![d.pending[0]] + d1.pending);
        assert(d.pending =~= r.hashes + r.queue.pending);
        assert forall|q: u64| q != peer implies #[trigger] load_of(r.queue.load, q) == load_of(
            d.load,
            q,
        ) by {
            assert(load_of(d1.load, q) == load_of(d.load, q));
        }
        assert forall|h: Seq<u8>| (#[trigger] r.queue.in_flight.contains_key(h)) implies
            d.in_flight.contains_key(h) || r.hashes.contains(h) && r.queue.in_flight[h] == (
            peer,
            now,
        ) by {
            if rest.hashes.contains(h) {
                let i = choose|i: int| 0 <= i < rest.hashes.len() && rest.hashes[i] == h;
                assert(r.hashes[i + 1] == h);
            }
            if h == d.pending[0] {
                assert(r.hashes[0] == h);
                lemma_fill_keeps(d1, peer, (n - 1) as nat, now, h);
            }
        }
    }
}

proof fn lemma_fill_keeps(d: DownloadView, peer: u64, n: nat, now: u64, hash: Seq<u8>)
    requires
        d.in_flight.contains_key(hash),
        d.in_flight[hash] == (peer, now),
    ensures
        filled(d, peer, n, now).queue.in_flight.contains_key(hash),
        filled(d, peer, n, now).queue.in_flight[hash] == (peer, now),
    decreases n,
{
    if n == 0 || d.pending.len() == 0 || d.in_flight.dom().len() >= MAX_INFLIGHT {
    } else {
        lemma_fill_keeps(dispatched(d, peer, now), peer, (n - 1) as nat, now, hash);
    }
}

/// The hashes of all batches, one after the other.
pub open spec fn all_requested(batches: Seq<(u64, Seq<Seq<u8>>)>) -> Seq<Seq<u8>>
    decreases batches.len(),
{
    if batches.len() == 0 {
        Seq::empty()
    } else {
        batches[0].1 + all_requested(batches.skip(1))
    }
}

proof fn lemma_drained_in_turn(d: DownloadView, peers: Seq<u64>, now: u64)
    requires
        d.consistent(),
    ensures
        ({
            let r = drained_in_turn(d, peers, now);
            &&& r.queue.consistent()
            &&& r.queue.tracked_hashes() == d.tracked_hashes()
            &&& r.queue.order == d.order
            &&& d.pending == all_requested(r.batches) + r.queue.pending
            &&& forall|p: u64|
                #[trigger] load_of(r.queue.load, p) <= DOWNLOAD_WINDOW || load_of(r.queue.load, p)
                    == load_of(d.load, p)
        }),
    decreases peers.len(),
{
    let r = drained_in_turn(d, peers, now);
    if peers.len() == 0 {
        assert(d.pending =~= all_requested(r.batches) + r.queue.pending);
    } else {
        let first = filled(d, peers[0], room(d, peers[0]), now);
        lemma_filled(d, peers[0], room(d, peers[0]), now);
        lemma_drained_in_turn(first.queue, peers.skip(1), now);
        let rest = drained_in_turn(first.queue, peers.skip(1), now);
        if first.hashes.len() == 0 {
            assert(d.pending =~= first.queue.pending);
        } else {
            assert(r.batches.skip(1) =~= rest.batches);
            assert(d.pending =~= all_requested(r.batches) + r.queue.pending);
        }
        assert forall|p: u64| #[trigger]
            load_of(r.queue.load, p) <= DOWNLOAD_WINDOW || load_of(r.queue.load, p) == load_of(
            d.load,
            p,
        ) by {
            assert(load_of(rest.queue.load, p) <= DOWNLOAD_WINDOW || load_of(rest.queue.load, p)
                == load_of(first.queue.load, p));
            assert(p != peers[0] ==> load_of(first.queue.load, p) == load_of(d.load, p));
        }
    }
}

/// A distribution leaves the queue consistent and loses nothing. What it requests
/// is what waited in front, in the order in which it waited, and no peer gets more
/// than its window.
pub proof fn lemma_drained(d: DownloadView, peers: Seq<u64>, now: u64)
    requires
        d.consistent(),
    ensures
        drained(d, peers, now).queue.consistent(),
        drained(d, peers, now).queue.tracked_hashes() == d.tracked_hashes(),
        drained(d, peers, now).queue.order == d.order,
        d.pending == all_requested(drained(d, peers, now).batches) + drained(
            d,
            peers,
            now,
        ).queue.pending,
        forall|p: u64|
            #[trigger] load_of(drained(d, peers, now).queue.load, p) <= DOWNLOAD_WINDOW || load_of(
                drained(d, peers, now).queue.load,
                p,
            ) == load_of(d.load, p),
{
    lemma_drained_in_turn(d, by_load(d.load, peers), now);
}

proof fn lemma_returned(d: DownloadView, returned: Set<Seq<u8>>, kept: Map<Seq<u8>, (u64, u64)>)
    requires
        d.consistent(),
        returned.subset_of(d.in_flight.dom()),
        kept == d.in_flight.remove_keys(returned),
    ensures
        kept.dom().finite(),
        kept.dom().len() <= MAX_INFLIGHT,
        in_queue_order(d.order, returned).to_set() == returned,
        ({
            let s = in_queue_order(d.order, returned) + d.pending;
            &&& s.no_duplicates()
            &&& forall|i: int|
                0 <= i < s.len() ==> !kept.contains_key(#[trigger] s[i]) && s[i].len() == 32
            &&& s.to_set().union(kept.dom()) == d.tracked_hashes()
        }),
{
    assert(returned.subset_of(d.order.to_set())) by {
        assert forall|h: Seq<u8>| #[trigger] returned.contains(h) implies d.order.to_set().contains(
            h,
        ) by {
            assert(d.in_flight.dom().contains(h));
            assert(d.tracked_hashes().contains(h));
        }
    }
    lemma_in_queue_order(d.order, returned);
    let front = in_queue_order(d.order, returned);
    let s = front + d.pending;
    assert(kept.dom() =~= d.in_flight.dom().difference(returned));
    vstd::set_lib::lemma_len_subset(kept.dom(), d.in_flight.dom());
    assert forall|i: int| 0 <= i < front.len() implies returned.contains(
        #[trigger] front[i],
    ) by {
        assert(front.to_set().contains(front[i]));
    }
    assert forall|i: int, j: int| 0 <= i < s.len() && 0 <= j < s.len() && i != j implies s[i]
        != s[j] by {
        if i < front.len() && j >= front.len() {
            assert(returned.contains(front[i]));
            assert(s[j] == d.pending[j - front.len()]);
            assert(!d.in_flight.contains_key(d.pending[j - front.len()]));
        } else if j < front.len() && i >= front.len() {
            assert(returned.contains(front[j]));
            assert(s[i] == d.pending[i - front.len()]);
            assert(!d.in_flight.contains_key(d.pending[i - front.len()]));
        }
    }
    assert forall|i: int| 0 <= i < s.len() implies !kept.contains_key(#[trigger] s[i])
        && s[i].len() == 32 by {
        if i < front.len() {
            assert(returned.contains(front[i]));
            assert(d.in_flight.contains_key(front[i]));
        } else {
            assert(s[i] == d.pending[i - front.len()]);
        }
    }
    let all = s.to_set().union(kept.dom());
    assert forall|h: Seq<u8>| #[trigger] all.contains(h) <==> d.tracked_hashes().contains(h) by {
        if s.contains(h) {
            let i = choose|i: int| 0 <= i < s.len() && s[i] == h;
            if i < front.len() {
                assert(returned.contains(front[i]));
            } else {
                assert(d.pending[i - front.len()] == h);
            }
        }
        if d.pending.contains(h) {
            let i = choose|i: int| 0 <= i < d.pending.len() && d.pending[i] == h;
            assert(s[i + front.len()] == h);
        }
        if returned.contains(h) {
            assert(front.to_set().contains(h));
            let i = choose|i: int| 0 <= i < front.len() && front[i] == h;
            assert(s[i] == h);
        }
    }
    assert(all =~= d.tracked_hashes());
}

/// When a peer is gone, the queue is consistent, nothing is lost, and nothing is in
/// flight with that peer.
pub proof fn lemma_peer_gone(d: DownloadView, peer: u64)
    requires
        d.consistent(),
    ensures
        peer_gone(d, peer).consistent(),
        peer_gone(d, peer).tracked_hashes() == d.tracked_hashes(),
        requested_of(peer_gone(d, peer).in_flight, peer) == Set::<Seq<u8>>::empty(),
{
    let returned = requested_of(d.in_flight, peer);
    let r = peer_gone(d, peer);
    lemma_returned(d, returned, r.in_flight);
    assert(requested_of(r.in_flight, peer) =~= Set::<Seq<u8>>::empty());
    assert forall|p: u64| #[trigger] load_of(r.load, p) == requested_of(r.in_flight, p).len() by {
        if p != peer {
            assert(requested_of(r.in_flight, p) =~= requested_of(d.in_flight, p));
            assert(load_of(d.load, p) == requested_of(d.in_flight, p).len());
        }
    }
}

proof fn lemma_kept_prefix(
    order: Seq<Seq<u8>>,
    some: Set<Seq<u8>>,
    x: Seq<Seq<u8>>,
    y: Seq<Seq<u8>>,
)
    requires
        order.no_duplicates(),
        in_queue_order(order, some) == x + y,
    ensures
        in_queue_order(order, x.to_set()) == x,
    decreases order.len(),
{
    reveal(Seq::filter);
    lemma_kept(order, some);
    let kept = in_queue_order(order, some);
    if order.len() == 0 {
        assert(x =~= Seq::<Seq<u8>>::empty());
        assert(in_queue_order(order, x.to_set()) =~= x);
    } else {
        let front = order.drop_last();
        let last = order.last();
        lemma_kept(front, some);
        assert(!front.contains(last));
        if some.contains(last) {
            assert(kept == in_queue_order(front, some).push(last));
            if y.len() > 0 {
                assert(in_queue_order(front, some) =~= kept.drop_last());
                assert(kept.drop_last() =~= x + y.drop_last());
                lemma_kept_prefix(front, some, x, y.drop_last());
                assert(!x.contains(last)) by {
                    if x.contains(last) {
                        let i = choose|i: int| 0 <= i < x.len() && x[i] == last;
                        assert(kept[i] == last);
                        assert(kept[kept.len() - 1] == last);
                    }
                }
            } else {
                assert(kept =~= x);
                let x1 = x.drop_last();
                assert(in_queue_order(front, some) =~= x1 + Seq::<Seq<u8>>::empty());
                lemma_kept_prefix(front, some, x1, Seq::empty());
                assert(x =~= x1.push(last));
                x1.lemma_push_to_set_commute(last);
                lemma_same_kept(front, x1.to_set(), x.to_set());
            }
        } else {
            lemma_kept_prefix(front, some, x, y);
            assert(!x.contains(last)) by {
                if x.contains(last) {
                    let i = choose|i: int| 0 <= i < x.len() && x[i] == last;
                    assert(kept[i] == last);
                    assert(kept.contains(last));
                }
            }
        }
        assert(in_queue_order(order, x.to_set()) =~= x);
    }
}

proof fn lemma_same_kept(order: Seq<Seq<u8>>, a: Set<Seq<u8>>, b: Set<Seq<u8>>)
    requires
        forall|h: Seq<u8>| order.contains(h) ==> (#[trigger] a.contains(h) <==> b.contains(h)),
    ensures
        in_queue_order(order, a) == in_queue_order(order, b),
    decreases order.len(),
{
    reveal(Seq::filter);
    if order.len() > 0 {
        let front = order.drop_last();
        assert forall|h: Seq<u8>| front.contains(h) implies (#[trigger] a.contains(h)
            <==> b.contains(h)) by {
            let i = choose|i: int| 0 <= i < front.len() && front[i] == h;
            assert(order[i] == h);
            assert(order.contains(h));
        }
        lemma_same_kept(front, a, b);
        assert(order.contains(order.last()));
        assert(a.contains(order.last()) <==> b.contains(order.last()));
    }
}

/// What is handed to a peer that is then lost waits again where it waited before: as long as
/// the queue is in the order in which it was filled, it is as if the peer had got nothing.
pub proof fn lemma_lost_work_returns(d: DownloadView, peer: u64, now: u64)
    requires
        d.consistent(),
        load_of(d.load, peer) == 0,
        d.pending == in_queue_order(d.order, d.pending.to_set()),
    ensures
        peer_gone(filled(d, peer, room(d, peer), now).queue, peer).pending == d.pending,
        peer_gone(filled(d, peer, room(d, peer), now).queue, peer).order == d.order,
{
    let r = filled(d, peer, room(d, peer), now);
    let q = r.queue;
    lemma_filled(d, peer, room(d, peer), now);
    let given = r.hashes.to_set();
    assert(load_of(q.load, peer) == requested_of(q.in_flight, peer).len());
    assert(r.hashes.no_duplicates()) by {
        assert forall|i: int, j: int|
            0 <= i < r.hashes.len() && 0 <= j < r.hashes.len() && i != j implies r.hashes[i]
            != r.hashes[j] by {
            assert(d.pending[i] == r.hashes[i] && d.pending[j] == r.hashes[j]);
        }
    }
    r.hashes.unique_seq_to_set();
    assert forall|h: Seq<u8>| #[trigger] given.contains(h) implies requested_of(
        q.in_flight,
        peer,
    ).contains(h) by {
        let i = choose|i: int| 0 <= i < r.hashes.len() && r.hashes[i] == h;
        assert(d.pending[i] == h);
        assert(d.pending.contains(h));
        assert(!d.in_flight.contains_key(d.pending[i]));
        assert(!q.pending.contains(h)) by {
            if q.pending.contains(h) {
                let j = choose|j: int| 0 <= j < q.pending.len() && q.pending[j] == h;
                assert(d.pending[j + r.hashes.len()] == h);
            }
        }
        assert(d.tracked_hashes().contains(h));
        assert(q.tracked_hashes().contains(h));
        assert(q.in_flight.contains_key(h));
    }
    vstd::set_lib::lemma_set_subset_finite(q.in_flight.dom(), requested_of(q.in_flight, peer));
    vstd::set_lib::lemma_subset_equality(given, requested_of(q.in_flight, peer));
    lemma_kept_prefix(d.order, d.pending.to_set(), r.hashes, q.pending);
}

/// Taking late requests back leaves the queue consistent and loses nothing.
pub proof fn lemma_rechecked(d: DownloadView, now: u64)
    requires
        d.consistent(),
    ensures
        rechecked(d, now).consistent(),
        rechecked(d, now).tracked_hashes() == d.tracked_hashes(),
        overdue(rechecked(d, now).in_flight, now) == Set::<Seq<u8>>::empty(),
{
    let late_set = overdue(d.in_flight, now);
    let returned = in_queue_order(d.order, late_set);
    lemma_let_go_all(d, returned);
    let r = rechecked(d, now);
    let rel = let_go_all(d, returned);
    lemma_returned(d, late_set, d.in_flight.remove_keys(late_set));
    assert forall|p: u64| #[trigger] load_of(r.load, p) == requested_of(r.in_flight, p).len() by {
        assert(load_of(rel.load, p) == requested_of(rel.in_flight, p).len());
    }
    assert(overdue(r.in_flight, now) =~= Set::<Seq<u8>>::empty());
}

/// Tracks which block hashes still need to be downloaded, which are currently
/// in-flight (requested but not yet received), and how many in-flight requests
/// each peer currently carries.
pub struct BlockDownloadQueue {
    /// Hashes not yet dispatched, ordered FIFO (oldest first = lowest height first).
    pending: VecDeque<Hash256>,
    /// Hashes dispatched to a peer but not yet received: hash to peer and time.
    in_flight: ByteMap<(u64, u64)>,
    /// Number of in-flight requests currently assigned to each peer.
    peer_load: IdMap<usize>,
    /// Hashes not yet received, in the order in which they were queued.
    order: VecDeque<Hash256>,
}

impl View for BlockDownloadQueue {
    type V = DownloadView;

    closed spec fn view(&self) -> DownloadView {
        DownloadView {
            pending: views(self.pending@),
            in_flight: self.in_flight@,
            load: self.peer_load@,
            order: views(self.order@),
        }
    }
}

/// The model of requests, each with the peer that it goes to.
pub open spec fn batch_views(batches: Seq<(u64, Vec<Hash256>)>) -> Seq<(u64, Seq<Seq<u8>>)> {
    Seq::new(batches.len(), |i: int| (batches[i].0, views(batches[i].1@)))
}

impl BlockDownloadQueue {
    pub fn new() -> (r: Self)
        ensures
            r@ == empty_queue(),
    {
        let r = BlockDownloadQueue {
            pending: VecDeque::new(),
            in_flight: ByteMap::with_buckets(256),
            peer_load: IdMap::new(),
            order: VecDeque::new(),
        };
        assert(r@ =~= empty_queue());
        r
    }

    fn load(&self, peer: u64) -> (n: usize)
        ensures
            n == load_of(self@.load, peer),
    {
        match self.peer_load.get(peer) {
            Some(n) => *n,
            None => 0,
        }
    }

    /// Whether nothing waits and nothing is in flight.
    pub fn is_idle(&self) -> (r: bool)
        ensures
            r == (self@.pending.len() == 0 && self@.in_flight.dom() == Set::<Seq<u8>>::empty()),
    {
        let n: usize = self.in_flight.len();
        proof {
            if n == 0 {
                assert(self@.in_flight.dom() =~= Set::<Seq<u8>>::empty());
            }
        }
        self.pending.len() == 0 && n == 0
    }

    /// Add hashes to the pending queue.  Hashes already in-flight are skipped
    /// (they will be re-queued automatically if they time out), and so are those
    /// that wait already.
    pub fn enqueue_batch(&mut self, hashes: &Vec<Hash256>)
        ensures
            final(self)@ == enqueued(old(self)@, views(hashes@)),
    {
        let mut waiting: ByteMap<bool> = ByteMap::with_buckets(1024);
        let mut i: usize = 0;
        let ghost start = self@;
        assert(start.pending.take(0).to_set() =~= Set::<Seq<u8>>::empty());
        assert(waiting@.dom() =~= Set::<Seq<u8>>::empty());
        while i < self.pending.len()
            invariant
                i <= self.pending@.len(),
                start == self@,
                waiting@.dom() == start.pending.take(i as int).to_set(),
            decreases self.pending@.len() - i,
        {
            let hash = self.pending[i];
            let _ = waiting.insert(slice_to_vec(&hash), true);
            proof {
                let part = start.pending.take(i as int);
                assert(start.pending.take(i + 1) =~= part.push(hash@));
                part.lemma_push_to_set_commute(hash@);
                assert(waiting@.dom() =~= start.pending.take(i + 1).to_set());
            }
            i += 1;
        }
        assert(start.pending.take(i as int) =~= start.pending);
        let mut n: usize = 0;
        let ghost all = views(hashes@);
        assert(all.take(0) =~= Seq::<Seq<u8>>::empty());
        while n < hashes.len()
            invariant
                n <= hashes@.len(),
                all == views(hashes@),
                self@ == enqueued(start, all.take(n as int)),
                waiting@.dom() == self@.pending.to_set(),
            decreases hashes@.len() - n,
        {
            let hash = hashes[n];
            let ghost before = self@;
            proof {
                assert(all.take(n + 1).drop_last() =~= all.take(n as int));
                assert(all.take(n + 1).last() == hash@);
                assert(before.pending.contains(hash@) == before.pending.to_set().contains(
                    hash@,
                ));
            }
            if !self.in_flight.contains_key(&hash) && !waiting.contains_key(&hash) {
                self.pending.push_back(hash);
                self.order.push_back(hash);
                let _ = waiting.insert(slice_to_vec(&hash), true);
                proof {
                    assert(self@.pending =~= before.pending.push(hash@));
                    assert(self@.order =~= before.order.push(hash@));
                    before.pending.lemma_push_to_set_commute(hash@);
                    assert(waiting@.dom() =~= self@.pending.to_set());
                }
            }
            n += 1;
        }
        assert(all.take(n as int) =~= all);
    }

    /// A hash is no longer in flight.
    fn let_go(&mut self, hash: &Hash256) -> (was: bool)
        ensures
            final(self)@ == let_go(old(self)@, hash@),
            was == old(self)@.in_flight.contains_key(hash@),
    {
        match self.in_flight.remove(hash) {
            Some((peer, _)) => {
                let load: usize = self.load(peer);
                let less: usize = if load == 0 {
                    0
                } else {
                    load - 1
                };
                let _ = self.peer_load.insert(peer, less);
                true
            },
            None => {
                assert(self@.in_flight =~= old(self)@.in_flight);
                false
            },
        }
    }

    /// A hash loses its place in the order.
    fn lose_place(&mut self, hash: &Hash256)
        ensures
            final(self)@ == (DownloadView {
                order: without_first(old(self)@.order, hash@),
                ..old(self)@
            }),
    {
        let ghost start = self@;
        // What is in flight stands near the front.
        let mut passed: Vec<Hash256> = Vec::new();
        let mut found: bool = false;
        assert(without_first(start.order, hash@) =~= views(passed@) + without_first(
            self@.order,
            hash@,
        ));
        while !found && self.order.len() > 0
            invariant
                self@ == (DownloadView { order: self@.order, ..start }),
                !found ==> without_first(start.order, hash@) == views(passed@) + without_first(
                    self@.order,
                    hash@,
                ),
                found ==> without_first(start.order, hash@) == views(passed@) + self@.order,
            decreases self.order@.len() + (if found {
                0int
            } else {
                1
            }),
        {
            let ghost before = self@.order;
            match self.order.pop_front() {
                Some(other) => {
                    proof {
                        assert(other@ == before[0]);
                        assert(self@.order =~= before.skip(1));
                    }
                    if bytes_equal(&other, hash) {
                        found = true;
                    } else {
                        let ghost done = views(passed@);
                        passed.push(other);
                        proof {
                            assert(views(passed@) =~= done.push(other@));
                            assert(done + (seq![other@] + without_first(self@.order, hash@))
                                =~= views(passed@) + without_first(self@.order, hash@));
                        }
                    }
                },
                None => {},
            }
        }
        let ghost rest = self@.order;
        proof {
            if !found {
                assert(without_first(rest, hash@) =~= rest);
            }
        }
        let ghost all = views(passed@);
        let mut n: usize = passed.len();
        assert(all.skip(n as int) + rest =~= rest);
        while n > 0
            invariant
                n <= passed@.len(),
                all == views(passed@),
                self@ == (DownloadView { order: all.skip(n as int) + rest, ..start }),
            decreases n,
        {
            n -= 1;
            let ghost before = self.order@;
            self.order.push_front(passed[n]);
            proof {
                assert(all.skip(n as int) =~= seq![all[n as int]] + all.skip(n + 1));
                assert(views(self.order@) =~= seq![all[n as int]] + views(before));
                assert(self@.order =~= all.skip(n as int) + rest);
            }
        }
        assert(all.skip(0) =~= all);
    }

    /// Mark a block as received.  Removes from in_flight and decrements peer_load.
    pub fn mark_received(&mut self, hash: &Hash256)
        ensures
            final(self)@ == released(old(self)@, hash@),
    {
        if self.let_go(hash) {
            self.lose_place(hash);
        }
    }

    /// Push a single hash to the *front* of the pending queue (priority re-request).
    pub fn requeue_front(&mut self, hash: Hash256)
        ensures
            final(self)@ == requeued(old(self)@, hash@),
    {
        self.mark_received(&hash);
        let ghost middle = self@;
        let mut pending: VecDeque<Hash256> = VecDeque::new();
        let mut i: usize = 0;
        assert(views(pending@) =~= without(middle.pending.take(0), hash@));
        while i < self.pending.len()
            invariant
                i <= self.pending@.len(),
                self@ == middle,
                views(pending@) == without(middle.pending.take(i as int), hash@),
            decreases self.pending@.len() - i,
        {
            let other = self.pending[i];
            let ghost part = middle.pending.take(i + 1);
            assert(part.drop_last() =~= middle.pending.take(i as int));
            assert(part.last() == other@);
            let ghost before = pending@;
            if !bytes_equal(&other, &hash) {
                pending.push_back(other);
                assert(views(pending@) =~= views(before).push(other@));
            }
            i += 1;
        }
        assert(middle.pending.take(i as int) =~= middle.pending);
        let ghost rest = pending@;
        pending.push_front(hash);
        assert(views(pending@) =~= seq![hash@] + views(rest));
        self.pending = pending;
        self.lose_place(&hash);
        let ghost places = self@.order;
        self.order.push_front(hash);
        assert(self@.order =~= seq![hash@] + places);
    }

    fn sort_by_load(&self, peers: &Vec<u64>) -> (out: Vec<u64>)
        ensures
            out@ == by_load(self@.load, peers@),
    {
        let mut out: Vec<u64> = Vec::new();
        let mut n: usize = 0;
        while n < peers.len()
            invariant
                n <= peers@.len(),
                out@ == by_load(self@.load, peers@.take(n as int)),
            decreases peers@.len() - n,
        {
            let peer: u64 = peers[n];
            let load: usize = self.load(peer);
            let ghost sorted = out@;
            let mut at: usize = out.len();
            assert(sorted.take(at as int) =~= sorted);
            assert(sorted.skip(at as int) =~= Seq::<u64>::empty());
            assert(place_by_load(self@.load, sorted, peer) =~= place_by_load(
                self@.load,
                sorted.take(at as int),
                peer,
            ) + sorted.skip(at as int));
            while at > 0 && self.load(out[at - 1]) > load
                invariant
                    at <= sorted.len(),
                    out@ == sorted,
                    load == load_of(self@.load, peer),
                    place_by_load(self@.load, sorted, peer) == place_by_load(
                        self@.load,
                        sorted.take(at as int),
                        peer,
                    ) + sorted.skip(at as int),
                decreases at,
            {
                proof {
                    let part = sorted.take(at as int);
                    assert(part.last() == sorted[at - 1]);
                    assert(part.drop_last() =~= sorted.take(at - 1));
                    assert(sorted.skip(at - 1) =~= seq![sorted[at - 1]] + sorted.skip(at as int));
                    assert(place_by_load(self@.load, sorted, peer) =~= place_by_load(
                        self@.load,
                        sorted.take(at - 1),
                        peer,
                    ) + sorted.skip(at - 1));
                }
                at -= 1;
            }
            proof {
                let part = sorted.take(at as int);
                if at > 0 {
                    assert(part.last() == sorted[at - 1]);
                }
                assert(place_by_load(self@.load, part, peer) == part.push(peer));
                assert(sorted.insert(at as int, peer) =~= part.push(peer) + sorted.skip(
                    at as int,
                ));
                assert(peers@.take(n + 1).drop_last() =~= peers@.take(n as int));
            }
            out.insert(at, peer);
            n += 1;
        }
        assert(peers@.take(n as int) =~= peers@);
        out
    }

    /// The next hashes go to one peer.
    fn fill(&mut self, peer: u64, capacity: usize, now: u64) -> (batch: Vec<Hash256>)
        requires
            load_of(old(self)@.load, peer) + capacity <= DOWNLOAD_WINDOW,
        ensures
            ({
                let want = filled(old(self)@, peer, capacity as nat, now);
                &&& final(self)@ == want.queue
                &&& views(batch@) == want.hashes
            }),
    {
        let mut batch: Vec<Hash256> = Vec::new();
        let ghost want = filled(self@, peer, capacity as nat, now);
        let mut left: usize = capacity;
        let mut flying: usize = self.in_flight.len();
        assert(want.hashes =~= views(batch@) + filled(self@, peer, left as nat, now).hashes);
        while left > 0 && flying < MAX_INFLIGHT && self.pending.len() > 0
            invariant
                load_of(self@.load, peer) + left <= DOWNLOAD_WINDOW,
                self@.in_flight.dom().finite(),
                flying == self@.in_flight.dom().len(),
                want.queue == filled(self@, peer, left as nat, now).queue,
                want.hashes == views(batch@) + filled(self@, peer, left as nat, now).hashes,
            decreases left,
        {
            let ghost before = self@;
            let ghost done = batch@;
            let ghost rest = filled(
                dispatched(before, peer, now),
                peer,
                (left - 1) as nat,
                now,
            ).hashes;
            match self.pending.pop_front() {
                Some(hash) => {
                    let replaced = self.in_flight.insert(slice_to_vec(&hash), (peer, now));
                    let load: usize = self.load(peer);
                    let _ = self.peer_load.insert(peer, load + 1);
                    batch.push(hash);
                    proof {
                        assert(hash@ == before.pending[0]);
                        assert(self@.pending =~= before.pending.skip(1));
                        assert(self@ =~= dispatched(before, peer, now));
                        assert(views(batch@) =~= views(done).push(hash@));
                        assert(views(done) + (seq![hash@] + rest) =~= views(batch@) + rest);
                        if replaced is Some {
                            assert(before.in_flight.dom().insert(hash@)
                                =~= before.in_flight.dom());
                        }
                        assert(self@.in_flight.dom() =~= before.in_flight.dom().insert(hash@));
                    }
                    if replaced.is_none() {
                        flying += 1;
                    }
                    left -= 1;
                },
                None => {
                    return batch;
                },
            }
        }
        assert(views(batch@) + Seq::<Seq<u8>>::empty() =~= views(batch@));
        batch
    }

    /// Distribute pending hashes across `peers`, respecting per-peer window and
    /// global cap.  Returns a list of `(peer_id, hashes_to_request)` pairs.
    ///
    /// Peers are filled lightest-first so work spreads evenly.
    pub fn drain_to_peers(&mut self, peers: &Vec<u64>, now: u64) -> (r: Vec<(u64, Vec<Hash256>)>)
        ensures
            ({
                let want = drained(old(self)@, peers@, now);
                &&& final(self)@ == want.queue
                &&& batch_views(r@) == want.batches
            }),
    {
        let sorted = self.sort_by_load(peers);
        let mut result: Vec<(u64, Vec<Hash256>)> = Vec::new();
        let ghost want = drained(self@, peers@, now);
        let mut n: usize = 0;
        assert(sorted@.skip(0) =~= sorted@);
        assert(want.batches =~= batch_views(result@) + drained_in_turn(
            self@,
            sorted@.skip(0),
            now,
        ).batches);
        while n < sorted.len()
            invariant
                n <= sorted@.len(),
                want.queue == drained_in_turn(self@, sorted@.skip(n as int), now).queue,
                want.batches == batch_views(result@) + drained_in_turn(
                    self@,
                    sorted@.skip(n as int),
                    now,
                ).batches,
            decreases sorted@.len() - n,
        {
            let peer: u64 = sorted[n];
            let ghost rest = sorted@.skip(n as int);
            assert(rest[0] == peer);
            assert(rest.skip(1) =~= sorted@.skip(n + 1));
            let load: usize = self.load(peer);
            let ghost before = self@;
            if load < DOWNLOAD_WINDOW {
                let batch = self.fill(peer, DOWNLOAD_WINDOW - load, now);
                if batch.len() > 0 {
                    let ghost done = result@;
                    let ghost hashes = views(batch@);
                    result.push((peer, batch));
                    proof {
                        let later = drained_in_turn(self@, sorted@.skip(n + 1), now).batches;
                        assert(batch_views(result@) =~= batch_views(done).push((peer, hashes)));
                        assert(batch_views(done) + (seq![(peer, hashes)] + later) =~= batch_views(
                            result@,
                        ) + later);
                    }
                }
            }
            n += 1;
        }
        assert(sorted@.skip(n as int) =~= Seq::<u64>::empty());
        assert(batch_views(result@) + Seq::<(u64, Seq<Seq<u8>>)>::empty() =~= batch_views(
            result@,
        ));
        result
    }

    /// The hashes in flight that were sent to a peer, or too long ago, those that were
    /// queued first in front.
    fn select(&self, of_peer: Option<u64>, now: u64) -> (out: Vec<Hash256>)
        ensures
            match of_peer {
                Some(peer) => views(out@) == in_queue_order(
                    self@.order,
                    requested_of(self@.in_flight, peer),
                ),
                None => views(out@) == in_queue_order(
                    self@.order,
                    overdue(self@.in_flight, now),
                ),
            },
    {
        let ghost want = match of_peer {
            Some(peer) => requested_of(self@.in_flight, peer),
            None => overdue(self@.in_flight, now),
        };
        let ghost all = self@.order;
        let mut out: Vec<Hash256> = Vec::new();
        let mut n: usize = 0;
        proof {
            reveal(Seq::filter);
            assert(views(out@) =~= in_queue_order(all.take(0), want));
        }
        while n < self.order.len()
            invariant
                n <= self.order@.len(),
                all == self@.order,
                want == match of_peer {
                    Some(peer) => requested_of(self@.in_flight, peer),
                    None => overdue(self@.in_flight, now),
                },
                views(out@) == in_queue_order(all.take(n as int), want),
            decreases self.order@.len() - n,
        {
            let hash = self.order[n];
            let chosen: bool = match self.in_flight.get(&hash) {
                Some(e) => match of_peer {
                    Some(peer) => e.0 == peer,
                    None => now > e.1 && now - e.1 > BLOCK_REQUEST_TIMEOUT,
                },
                None => false,
            };
            proof {
                reveal(Seq::filter);
                assert(chosen == want.contains(hash@));
                assert(all.take(n + 1).drop_last() =~= all.take(n as int));
                assert(all.take(n + 1).last() == hash@);
            }
            let ghost before = views(out@);
            if chosen {
                out.push(hash);
                assert(views(out@) =~= before.push(hash@));
            }
            n += 1;
        }
        assert(all.take(n as int) =~= all);
        out
    }

    fn put_in_front(&mut self, hashes: &Vec<Hash256>)
        ensures
            final(self)@ == (DownloadView {
                pending: views(hashes@) + old(self)@.pending,
                ..old(self)@
            }),
    {
        let mut n: usize = hashes.len();
        let ghost all = views(hashes@);
        let ghost start = self@;
        assert(all.skip(n as int) + start.pending =~= start.pending);
        while n > 0
            invariant
                n <= hashes@.len(),
                all == views(hashes@),
                self@ == (DownloadView {
                    pending: all.skip(n as int) + start.pending,
                    ..start
                }),
            decreases n,
        {
            n -= 1;
            let ghost before = self.pending@;
            self.pending.push_front(hashes[n]);
            proof {
                assert(all.skip(n as int) =~= seq![all[n as int]] + all.skip(n + 1));
                assert(views(self.pending@) =~= seq![all[n as int]] + views(before));
                assert(self@.pending =~= all.skip(n as int) + start.pending);
            }
        }
        assert(all.skip(0) =~= all);
    }

    /// Called when a peer disconnects.  Moves all of its in-flight hashes back to
    /// the front of the pending queue so another peer can take over.
    pub fn on_peer_disconnected(&mut self, peer: u64)
        requires
            old(self)@.consistent(),
        ensures
            final(self)@ == peer_gone(old(self)@, peer),
    {
        let ghost start = self@;
        let returned = self.select(Some(peer), 0);
        let mut n: usize = 0;
        let ghost all = views(returned@);
        proof {
            lemma_returned(
                start,
                requested_of(start.in_flight, peer),
                peer_gone(start, peer).in_flight,
            );
            assert(start.in_flight.remove_keys(all.take(0).to_set()) =~= start.in_flight);
        }
        while n < returned.len()
            invariant
                n <= returned@.len(),
                all == views(returned@),
                self@.pending == start.pending,
                self@.load == start.load,
                self@.order == start.order,
                self@.in_flight == start.in_flight.remove_keys(all.take(n as int).to_set()),
            decreases returned@.len() - n,
        {
            let _ = self.in_flight.remove(&returned[n]);
            proof {
                let part = all.take(n as int);
                assert(all.take(n + 1) =~= part.push(all[n as int]));
                part.lemma_push_to_set_commute(all[n as int]);
                assert(self@.in_flight =~= start.in_flight.remove_keys(
                    all.take(n + 1).to_set(),
                ));
            }
            n += 1;
        }
        assert(all.take(n as int) =~= all);
        let _ = self.peer_load.remove(peer);
        // The lowest-height hash, which was queued first, ends up at the very front.
        self.put_in_front(&returned);
        assert(self@ =~= peer_gone(start, peer));
    }

    /// Move any in-flight hashes that have exceeded `BLOCK_REQUEST_TIMEOUT` back
    /// to the front of the pending queue for re-dispatch.
    pub fn recheck_timeouts(&mut self, now: u64)
        ensures
            final(self)@ == rechecked(old(self)@, now),
    {
        let ghost start = self@;
        let returned = self.select(None, now);
        let mut n: usize = 0;
        let ghost all = views(returned@);
        assert(all.take(0) =~= Seq::<Seq<u8>>::empty());
        while n < returned.len()
            invariant
                n <= returned@.len(),
                all == views(returned@),
                self@ == let_go_all(start, all.take(n as int)),
            decreases returned@.len() - n,
        {
            let _ = self.let_go(&returned[n]);
            proof {
                assert(all.take(n + 1).drop_last() =~= all.take(n as int));
                assert(all.take(n + 1).last() == all[n as int]);
            }
            n += 1;
        }
        assert(all.take(n as int) =~= all);
        self.put_in_front(&returned);
    }

    /// Reset all state (used when starting a fresh sync session).
    pub fn clear(&mut self)
        ensures
            final(self)@ == empty_queue(),
    {
        *self = BlockDownloadQueue::new();
    }
}

} // verus!
