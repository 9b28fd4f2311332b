//! Collects what is to be announced to a peer, so that it goes out in few messages,
//! and remembers what was announced.

use crate::collections::id_map::{lemma_listing, listing, rising, IdMap};
use crate::network::message::{NetworkMessage, NetworkMessageView};
use crate::network::outgoing::{frame, framed};
use crate::network::protocol::{
    AddrMessage, GetDataMessage, InvMessage, InvVector, MessagePayload, NetworkAddr, PayloadView,
};
use crate::primitives::bytes::bytes_equal;
use crate::primitives::hash::Hash256;
use crate::primitives::serialize::views;
use vstd::prelude::*;

verus! {

// Batching parameters
/// How long items wait at most, in nanoseconds.
pub const BATCH_INTERVAL: u64 = 100_000_000;

pub const MAX_INV_BATCH: usize = 1000;

pub const MAX_GETDATA_BATCH: usize = 1000;

pub const MAX_ADDR_BATCH: usize = 1000;

/// What a batcher holds.
#[verifier::ext_equal]
pub struct BatcherView {
    pub inv: Map<u64, Seq<InvVector>>,
    pub getdata: Map<u64, Seq<InvVector>>,
    pub addr: Map<u64, Seq<NetworkAddr>>,
    /// When the first item of the current batch of a peer was added.
    pub started: Map<u64, u64>,
    pub magic: Seq<u8>,
}

/// The items that wait for a peer.
pub open spec fn waiting<T>(m: Map<u64, Seq<T>>, peer: u64) -> Seq<T> {
    if m.contains_key(peer) {
        m[peer]
    } else {
        Seq::empty()
    }
}

/// The times once the batch of a peer has begun.
pub open spec fn begun(started: Map<u64, u64>, peer: u64, now: u64) -> Map<u64, u64> {
    if started.contains_key(peer) {
        started
    } else {
        started.insert(peer, now)
    }
}

/// Whether the items of a peer are to go out: they have waited long enough, or there
/// are many of one kind.
pub open spec fn due(v: BatcherView, peer: u64, now: u64) -> bool {
    ||| v.started.contains_key(peer) && now - v.started[peer] >= BATCH_INTERVAL
    ||| waiting(v.inv, peer).len() >= MAX_INV_BATCH
    ||| waiting(v.getdata, peer).len() >= MAX_GETDATA_BATCH
    ||| waiting(v.addr, peer).len() >= MAX_ADDR_BATCH
}

/// The message with some contents, unless there is nothing to say.
pub open spec fn message_unless(empty: bool, magic: Seq<u8>, payload: PayloadView) -> Seq<
    NetworkMessageView,
> {
    if empty {
        Seq::empty()
    } else {
        seq![framed(magic, payload)]
    }
}

/// The messages with the items of a peer.
pub open spec fn messages_for(v: BatcherView, peer: u64) -> Seq<NetworkMessageView> {
    let inv = waiting(v.inv, peer);
    let getdata = waiting(v.getdata, peer);
    let addr = waiting(v.addr, peer);
    message_unless(inv.len() == 0, v.magic, PayloadView::Inv(views(inv))) + message_unless(
        getdata.len() == 0,
        v.magic,
        PayloadView::GetData(views(getdata)),
    ) + message_unless(addr.len() == 0, v.magic, PayloadView::Addr(views(addr)))
}

/// The batcher without a peer.
pub open spec fn without_peer(v: BatcherView, peer: u64) -> BatcherView {
    BatcherView {
        inv: v.inv.remove(peer),
        getdata: v.getdata.remove(peer),
        addr: v.addr.remove(peer),
        started: v.started.remove(peer),
        ..v
    }
}

/// The peers that items wait for.
pub open spec fn waiting_peers(v: BatcherView) -> Set<u64> {
    v.inv.dom().union(v.getdata.dom()).union(v.addr.dom())
}

/// What is left and what goes out once each peer of a list was looked at.
pub open spec fn flushed(v: BatcherView, peers: Seq<u64>, now: u64) -> (
    BatcherView,
    Seq<(u64, Seq<NetworkMessageView>)>,
)
    decreases peers.len(),
{
    if peers.len() == 0 {
        (v, Seq::empty())
    } else {
        let (before, out) = flushed(v, peers.drop_last(), now);
        let peer = peers.last();
        if !due(before, peer, now) {
            (before, out)
        } else if messages_for(before, peer).len() == 0 {
            (without_peer(before, peer), out)
        } else {
            (without_peer(before, peer), out.push((peer, messages_for(before, peer))))
        }
    }
}

/// Whether as much waits for a peer as before, since the same time.
pub open spec fn as_before(v: BatcherView, w: BatcherView, peer: u64) -> bool {
    &&& w.inv.contains_key(peer) == v.inv.contains_key(peer)
    &&& w.getdata.contains_key(peer) == v.getdata.contains_key(peer)
    &&& w.addr.contains_key(peer) == v.addr.contains_key(peer)
    &&& w.started.contains_key(peer) == v.started.contains_key(peer)
    &&& waiting(w.inv, peer) == waiting(v.inv, peer)
    &&& waiting(w.getdata, peer) == waiting(v.getdata, peer)
    &&& waiting(w.addr, peer) == waiting(v.addr, peer)
    &&& v.started.contains_key(peer) ==> w.started[peer] == v.started[peer]
}

/// Whether a list of messages holds some for a peer.
pub open spec fn served(out: Seq<(u64, Seq<NetworkMessageView>)>, peer: u64) -> bool {
    exists|i: int| 0 <= i < out.len() && (#[trigger] out[i]).0 == peer
}

/// Whether of some peers each that was due, and for which something waited, got what its own
/// flush gives, once, and all others are as they were.
pub open spec fn each_flushed(
    v: BatcherView,
    w: BatcherView,
    peers: Set<u64>,
    out: Seq<(u64, Seq<NetworkMessageView>)>,
    now: u64,
) -> bool {
    &&& forall|peer: u64| #[trigger]
        served(out, peer) <==> peers.contains(peer) && due(v, peer, now) && messages_for(
            v,
            peer,
        ).len() > 0
    &&& forall|i: int| 0 <= i < out.len() ==> (#[trigger] out[i]).1 == messages_for(v, out[i].0)
    &&& forall|i: int, j: int|
        0 <= i < j < out.len() ==> (#[trigger] out[i]).0 != (#[trigger] out[j]).0
    &&& forall|peer: u64|
        #![trigger messages_for(w, peer)]
        #![trigger as_before(v, w, peer)]
        if peers.contains(peer) && due(v, peer, now) {
            messages_for(w, peer).len() == 0
        } else {
            as_before(v, w, peer)
        }
    &&& w.magic == v.magic
}

/// The joint flush gives each peer of a list that is due what its own flush gives, and leaves
/// the others as they are.
pub proof fn lemma_each_flushed(v: BatcherView, peers: Seq<u64>, now: u64)
    requires
        peers.no_duplicates(),
    ensures
        each_flushed(
            v,
            flushed(v, peers, now).0,
            peers.to_set(),
            flushed(v, peers, now).1,
            now,
        ),
    decreases peers.len(),
{
    let (w, out) = flushed(v, peers, now);
    if peers.len() == 0 {
        assert forall|peer: u64| as_before(v, w, peer) by {}
    } else {
        let front = peers.drop_last();
        let p = peers.last();
        lemma_each_flushed(v, front, now);
        let (w1, out1) = flushed(v, front, now);
        assert(peers =~= front.push(p));
        front.lemma_push_to_set_commute(p);
        assert(!front.contains(p));
        assert(!front.to_set().contains(p));
        assert(as_before(v, w1, p));
        assert(due(w1, p, now) == due(v, p, now));
        assert(messages_for(w1, p) == messages_for(v, p));
        assert(!served(out1, p));
        if due(v, p, now) {
            lemma_nothing_lost(w1, p);
            assert forall|peer: u64| peer != p implies as_before(w1, w, peer) by {}
            assert forall|peer: u64| peer != p implies messages_for(w, peer) == messages_for(
                w1,
                peer,
            ) by {
                assert(as_before(w1, w, peer));
            }
        }
        assert forall|peer: u64| #[trigger] served(out, peer) <==> served(out1, peer) || (peer == p
            && due(v, p, now) && messages_for(v, p).len() > 0) by {
            if served(out1, peer) {
                let i = choose|i: int| 0 <= i < out1.len() && (#[trigger] out1[i]).0 == peer;
                assert(out[i].0 == peer);
            }
            if served(out, peer) {
                let i = choose|i: int| 0 <= i < out.len() && (#[trigger] out[i]).0 == peer;
                if i < out1.len() {
                    assert(out1[i].0 == peer);
                }
            }
            if peer == p && due(v, p, now) && messages_for(v, p).len() > 0 {
                assert(out[out1.len() as int].0 == p);
            }
        }
        assert forall|i: int, j: int| 0 <= i < j < out.len() implies (#[trigger] out[i]).0 != (
        #[trigger] out[j]).0 by {
            assert(out[i] == out1[i]);
            if j < out1.len() {
                assert(out[j] == out1[j]);
            } else {
                assert(served(out1, out1[i].0));
            }
        }
        assert forall|i: int| 0 <= i < out.len() implies (#[trigger] out[i]).1 == messages_for(
            v,
            out[i].0,
        ) by {
            if i < out1.len() {
                assert(out[i] == out1[i]);
            }
        }
        assert forall|peer: u64|
            #![trigger messages_for(w, peer)]
            #![trigger as_before(v, w, peer)]
            if peers.to_set().contains(peer) && due(v, peer, now) {
                messages_for(w, peer).len() == 0
            } else {
                as_before(v, w, peer)
            } by {
            if peer != p {
                assert(as_before(v, w1, peer) || messages_for(w1, peer).len() == 0);
            }
        }
    }
}

/// The model of messages for peers.
pub open spec fn peer_messages(out: Seq<(u64, Vec<NetworkMessage>)>) -> Seq<
    (u64, Seq<NetworkMessageView>),
> {
    Seq::new(out.len(), |i: int| (out[i].0, views(out[i].1@)))
}

/// Collects items for peers.
pub struct MessageBatcher {
    // Pending inventory items per peer
    pending_inv: IdMap<Vec<InvVector>>,
    pending_getdata: IdMap<Vec<InvVector>>,
    pending_addr: IdMap<Vec<NetworkAddr>>,
    // Time when the first item was added to the current batch for a peer
    batch_start_time: IdMap<u64>,
    // Magic for message creation
    magic: [u8; 4],
}

impl View for MessageBatcher {
    type V = BatcherView;

    closed spec fn view(&self) -> BatcherView {
        BatcherView {
            inv: self.pending_inv@,
            getdata: self.pending_getdata@,
            addr: self.pending_addr@,
            started: self.batch_start_time@,
            magic: self.magic@,
        }
    }
}

fn push_for<T>(m: &mut IdMap<Vec<T>>, peer: u64, item: T)
    ensures
        final(m)@ == old(m)@.insert(peer, waiting(old(m)@, peer).push(item)),
{
    let ghost before = m@;
    let mut list: Vec<T> = match m.remove(peer) {
        Some(list) => list,
        None => Vec::new(),
    };
    list.push(item);
    let _ = m.insert(peer, list);
    assert(m@ =~= before.insert(peer, waiting(before, peer).push(item)));
}

impl MessageBatcher {
    pub fn new(magic: [u8; 4]) -> (r: Self)
        ensures
            r@ == (BatcherView {
                inv: Map::empty(),
                getdata: Map::empty(),
                addr: Map::empty(),
                started: Map::empty(),
                magic: magic@,
            }),
    {
        MessageBatcher {
            pending_inv: IdMap::new(),
            pending_getdata: IdMap::new(),
            pending_addr: IdMap::new(),
            batch_start_time: IdMap::new(),
            magic,
        }
    }

    fn ensure_timer_started(&mut self, peer_id: u64, now: u64)
        ensures
            final(self)@ == (BatcherView {
                started: begun(old(self)@.started, peer_id, now),
                ..old(self)@
            }),
    {
        if !self.batch_start_time.contains(peer_id) {
            let _ = self.batch_start_time.insert(peer_id, now);
        }
    }

    /// Add inventory item to batch
    pub fn add_inv(&mut self, peer_id: u64, item: InvVector, now: u64)
        ensures
            final(self)@ == (BatcherView {
                inv: old(self)@.inv.insert(
                    peer_id,
                    waiting(old(self)@.inv, peer_id).push(item),
                ),
                started: begun(old(self)@.started, peer_id, now),
                ..old(self)@
            }),
    {
        self.ensure_timer_started(peer_id, now);
        push_for(&mut self.pending_inv, peer_id, item);
    }

    /// Add getdata item to batch
    pub fn add_getdata(&mut self, peer_id: u64, item: InvVector, now: u64)
        ensures
            final(self)@ == (BatcherView {
                getdata: old(self)@.getdata.insert(
                    peer_id,
                    waiting(old(self)@.getdata, peer_id).push(item),
                ),
                started: begun(old(self)@.started, peer_id, now),
                ..old(self)@
            }),
    {
        self.ensure_timer_started(peer_id, now);
        push_for(&mut self.pending_getdata, peer_id, item);
    }

    /// Add addr to batch
    pub fn add_addr(&mut self, peer_id: u64, addr: NetworkAddr, now: u64)
        ensures
            final(self)@ == (BatcherView {
                addr: old(self)@.addr.insert(
                    peer_id,
                    waiting(old(self)@.addr, peer_id).push(addr),
                ),
                started: begun(old(self)@.started, peer_id, now),
                ..old(self)@
            }),
    {
        self.ensure_timer_started(peer_id, now);
        push_for(&mut self.pending_addr, peer_id, addr);
    }

    /// Check if peer needs flushing
    pub fn should_flush(&self, peer_id: u64, now: u64) -> (r: bool)
        ensures
            r == due(self@, peer_id, now),
    {
        // Check time-based flush
        if let Some(start) = self.batch_start_time.get(peer_id) {
            if now >= *start && now - *start >= BATCH_INTERVAL {
                return true;
            }
        }
        // Check size-based flush
        if let Some(inv) = self.pending_inv.get(peer_id) {
            if inv.len() >= MAX_INV_BATCH {
                return true;
            }
        }
        if let Some(getdata) = self.pending_getdata.get(peer_id) {
            if getdata.len() >= MAX_GETDATA_BATCH {
                return true;
            }
        }
        if let Some(addr) = self.pending_addr.get(peer_id) {
            if addr.len() >= MAX_ADDR_BATCH {
                return true;
            }
        }
        false
    }

    /// Flush batched messages for peer
    pub fn flush(&mut self, peer_id: u64) -> (messages: Vec<NetworkMessage>)
        ensures
            views(messages@) == messages_for(old(self)@, peer_id),
            final(self)@ == without_peer(old(self)@, peer_id),
    {
        let ghost v = self@;
        let ghost magic = self.magic@;
        let mut messages: Vec<NetworkMessage> = Vec::new();
        let ghost inv = message_unless(
            waiting(v.inv, peer_id).len() == 0,
            magic,
            PayloadView::Inv(views(waiting(v.inv, peer_id))),
        );
        let ghost getdata = message_unless(
            waiting(v.getdata, peer_id).len() == 0,
            magic,
            PayloadView::GetData(views(waiting(v.getdata, peer_id))),
        );
        if let Some(items) = self.pending_inv.remove(peer_id) {
            if items.len() > 0 {
                let payload = MessagePayload::Inv(InvMessage { inventory: items });
                messages.push(frame(self.magic, &payload));
            }
        }
        assert(views(messages@) =~= inv);
        if let Some(items) = self.pending_getdata.remove(peer_id) {
            if items.len() > 0 {
                let payload = MessagePayload::GetData(GetDataMessage { inventory: items });
                messages.push(frame(self.magic, &payload));
            }
        }
        assert(views(messages@) =~= inv + getdata);
        if let Some(addrs) = self.pending_addr.remove(peer_id) {
            if addrs.len() > 0 {
                let payload = MessagePayload::Addr(AddrMessage { addresses: addrs });
                messages.push(frame(self.magic, &payload));
            }
        }
        assert(views(messages@) =~= messages_for(v, peer_id));
        // Reset timer
        let _ = self.batch_start_time.remove(peer_id);
        messages
    }

    fn peers(&self) -> (ids: Vec<u64>)
        ensures
            ids@ == listing(waiting_peers(self@)),
            rising(ids@),
            ids@.to_set() == waiting_peers(self@),
    {
        let mut all: IdMap<bool> = IdMap::new();
        let inv = self.pending_inv.ids();
        let getdata = self.pending_getdata.ids();
        let addr = self.pending_addr.ids();
        mark_all(&mut all, &inv);
        mark_all(&mut all, &getdata);
        mark_all(&mut all, &addr);
        let ids = all.ids();
        proof {
            assert forall|id: u64| ids@.to_set().contains(id) <==> waiting_peers(self@).contains(
                id,
            ) by {
                assert(all@.contains_key(id) <==> ids@.contains(id));
                assert(self@.inv.contains_key(id) <==> inv@.contains(id));
                assert(self@.getdata.contains_key(id) <==> getdata@.contains(id));
                assert(self@.addr.contains_key(id) <==> addr@.contains(id));
            }
            assert(ids@.to_set() =~= waiting_peers(self@));
            lemma_listing(ids@);
        }
        ids
    }

    /// Flush all peers that need flushing
    pub fn flush_all_needed(&mut self, now: u64) -> (out: Vec<(u64, Vec<NetworkMessage>)>)
        ensures
            (final(self)@, peer_messages(out@)) == flushed(
                old(self)@,
                listing(waiting_peers(old(self)@)),
                now,
            ),
            each_flushed(
                old(self)@,
                final(self)@,
                waiting_peers(old(self)@),
                peer_messages(out@),
                now,
            ),
    {
        let ids = self.peers();
        let ghost start = self@;
        let mut out: Vec<(u64, Vec<NetworkMessage>)> = Vec::new();
        let mut i: usize = 0;
        assert(peer_messages(out@) =~= Seq::empty());
        while i < ids.len()
            invariant
                i <= ids@.len(),
                (self@, peer_messages(out@)) == flushed(start, ids@.take(i as int), now),
            decreases ids@.len() - i,
        {
            let peer_id: u64 = ids[i];
            assert(ids@.take(i + 1).drop_last() =~= ids@.take(i as int));
            if self.should_flush(peer_id, now) {
                let ghost before = self@;
                let ghost done = out@;
                let messages = self.flush(peer_id);
                let ghost sent = views(messages@);
                if messages.len() > 0 {
                    out.push((peer_id, messages));
                    assert(peer_messages(out@) =~= peer_messages(done).push((peer_id, sent)));
                }
            }
            i += 1;
        }
        assert(ids@.take(i as int) =~= ids@);
        proof {
            assert(ids@.no_duplicates());
            lemma_each_flushed(start, ids@, now);
        }
        out
    }

    /// Clear peer state on disconnect
    pub fn clear_peer(&mut self, peer_id: u64)
        ensures
            final(self)@ == without_peer(old(self)@, peer_id),
    {
        let _ = self.pending_inv.remove(peer_id);
        let _ = self.pending_getdata.remove(peer_id);
        let _ = self.pending_addr.remove(peer_id);
        let _ = self.batch_start_time.remove(peer_id);
    }
}

fn mark_all(all: &mut IdMap<bool>, ids: &Vec<u64>)
    ensures
        forall|id: u64| #[trigger]
            final(all)@.contains_key(id) <==> old(all)@.contains_key(id) || ids@.contains(id),
{
    let mut i: usize = 0;
    while i < ids.len()
        invariant
            i <= ids@.len(),
            forall|id: u64| #[trigger]
                all@.contains_key(id) <==> old(all)@.contains_key(id) || ids@.take(
                    i as int,
                ).contains(id),
        decreases ids@.len() - i,
    {
        let _ = all.insert(ids[i], true);
        proof {
            let part = ids@.take(i as int);
            let next = ids@.take(i + 1);
            assert forall|id: u64| next.contains(id) <==> part.contains(id) || id == ids@[i as int] by {
                if next.contains(id) {
                    let j = choose|j: int| 0 <= j < next.len() && next[j] == id;
                    if j < i {
                        assert(part[j] == id);
                    }
                }
                if part.contains(id) {
                    let j = choose|j: int| 0 <= j < part.len() && part[j] == id;
                    assert(next[j] == id);
                }
                if id == ids@[i as int] {
                    assert(next[i as int] == id);
                }
            }
        }
        i += 1;
    }
    assert(ids@.take(i as int) =~= ids@);
}

/// What goes out for a peer holds every item that waited, in the order in which the
/// items came.
pub proof fn lemma_nothing_lost(v: BatcherView, peer: u64)
    ensures
        waiting(v.inv, peer).len() > 0 ==> messages_for(v, peer).contains(
            framed(v.magic, PayloadView::Inv(views(waiting(v.inv, peer)))),
        ),
        waiting(v.getdata, peer).len() > 0 ==> messages_for(v, peer).contains(
            framed(v.magic, PayloadView::GetData(views(waiting(v.getdata, peer)))),
        ),
        waiting(v.addr, peer).len() > 0 ==> messages_for(v, peer).contains(
            framed(v.magic, PayloadView::Addr(views(waiting(v.addr, peer)))),
        ),
        messages_for(without_peer(v, peer), peer).len() == 0,
{
    let inv = waiting(v.inv, peer).len();
    let getdata = waiting(v.getdata, peer).len();
    let m = messages_for(v, peer);
    let a: int = if inv == 0 {
        0
    } else {
        1
    };
    let b: int = if getdata == 0 {
        a
    } else {
        a + 1
    };
    if inv > 0 {
        assert(m[0] == framed(v.magic, PayloadView::Inv(views(waiting(v.inv, peer)))));
    }
    if getdata > 0 {
        assert(m[a] == framed(v.magic, PayloadView::GetData(views(waiting(v.getdata, peer)))));
    }
    if waiting(v.addr, peer).len() > 0 {
        assert(m[b] == framed(v.magic, PayloadView::Addr(views(waiting(v.addr, peer)))));
    }
}

/// What was sent to a peer: the latest hashes, up to a number.
pub open spec fn remembered(sent: Seq<Seq<u8>>, hash: Seq<u8>, max: usize) -> Seq<Seq<u8>> {
    if sent.contains(hash) {
        sent
    } else if sent.len() + 1 > max {
        sent.push(hash).skip(1)
    } else {
        sent.push(hash)
    }
}

/// Broadcast cache to avoid duplicate sends
pub struct BroadcastCache {
    // Track what we've sent to each peer, the oldest first
    sent_to_peer: IdMap<Vec<Hash256>>,
    max_cache_size: usize,
}

/// What a broadcast cache holds: for each peer, the hashes that were sent to it.
#[verifier::ext_equal]
pub struct CacheView {
    pub sent: Map<u64, Seq<Seq<u8>>>,
    pub max: usize,
}

impl View for BroadcastCache {
    type V = CacheView;

    closed spec fn view(&self) -> CacheView {
        CacheView {
            sent: Map::new(
                |peer: u64| self.sent_to_peer@.contains_key(peer),
                |peer: u64| views(self.sent_to_peer@[peer]),
            ),
            max: self.max_cache_size,
        }
    }
}

/// What is remembered once a hash was sent to a peer.
pub open spec fn with_sent(c: CacheView, peer: u64, hash: Seq<u8>) -> CacheView {
    CacheView {
        sent: c.sent.insert(peer, remembered(waiting(c.sent, peer), hash, c.max)),
        ..c
    }
}

/// What is remembered once a peer is gone.
pub open spec fn unsent(c: CacheView, peer: u64) -> CacheView {
    CacheView { sent: c.sent.remove(peer), ..c }
}

/// For no peer more is remembered than the limit.
pub open spec fn bounded(c: CacheView) -> bool {
    forall|peer: u64| #[trigger] c.sent.contains_key(peer) ==> c.sent[peer].len() <= c.max
}

/// What was sent to a peer is remembered, unless nothing is, and never more than the
/// limit.
pub proof fn lemma_sent_is_remembered(c: CacheView, peer: u64, hash: Seq<u8>)
    requires
        bounded(c),
    ensures
        bounded(with_sent(c, peer, hash)),
        c.max > 0 ==> waiting(with_sent(c, peer, hash).sent, peer).contains(hash),
{
    let before = waiting(c.sent, peer);
    let now = remembered(before, hash, c.max);
    if c.max > 0 && !before.contains(hash) {
        assert(now[now.len() - 1] == hash);
    }
    assert(before.len() <= c.max);
}

impl BroadcastCache {
    pub fn new(max_cache_size: usize) -> (r: Self)
        ensures
            r@ == (CacheView { sent: Map::empty(), max: max_cache_size }),
            bounded(r@),
    {
        let r = BroadcastCache { sent_to_peer: IdMap::new(), max_cache_size };
        assert(r@.sent =~= Map::empty());
        r
    }

    /// Check if already sent to peer
    pub fn already_sent(&self, peer_id: u64, hash: &[u8; 32]) -> (r: bool)
        ensures
            r == waiting(self@.sent, peer_id).contains(hash@),
    {
        match self.sent_to_peer.get(peer_id) {
            Some(cache) => contains_hash(cache, hash),
            None => false,
        }
    }

    /// Mark as sent to peer
    pub fn mark_sent(&mut self, peer_id: u64, hash: [u8; 32])
        ensures
            final(self)@ == with_sent(old(self)@, peer_id, hash@),
    {
        let ghost before = self@;
        let mut cache: Vec<Hash256> = match self.sent_to_peer.remove(peer_id) {
            Some(cache) => cache,
            None => Vec::new(),
        };
        let ghost held = views(cache@);
        assert(held =~= waiting(before.sent, peer_id));
        if !contains_hash(&cache, &hash) {
            cache.push(hash);
            assert(views(cache@) =~= held.push(hash@));
            // Keep cache bounded
            if cache.len() > self.max_cache_size {
                let _ = cache.remove(0);
                assert(views(cache@) =~= held.push(hash@).skip(1));
            }
        }
        let _ = self.sent_to_peer.insert(peer_id, cache);
        assert(self@.sent =~= with_sent(before, peer_id, hash@).sent);
    }

    /// Clear peer cache on disconnect
    pub fn clear_peer(&mut self, peer_id: u64)
        ensures
            final(self)@ == unsent(old(self)@, peer_id),
    {
        let _ = self.sent_to_peer.remove(peer_id);
        assert(self@.sent =~= old(self)@.sent.remove(peer_id));
    }
}

fn contains_hash(hashes: &Vec<Hash256>, hash: &Hash256) -> (r: bool)
    ensures
        r == views(hashes@).contains(hash@),
{
    let mut i: usize = 0;
    while i < hashes.len()
        invariant
            i <= hashes@.len(),
            forall|j: int| 0 <= j < i ==> views(hashes@)[j] != hash@,
        decreases hashes@.len() - i,
    {
        assert(views(hashes@)[i as int] == hashes@[i as int]@);
        if bytes_equal(&hashes[i], hash) {
            return true;
        }
        i += 1;
    }
    false
}

} // verus!
