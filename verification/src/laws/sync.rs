//! How blocks and headers are fetched.

use crate::consensus::block::{BlockHeaderView, BlockView};
use crate::consensus::chain_model::ChainView;
use crate::laws::answers::lemma_headers_downwards;
use crate::laws::blocks::{count_below, lemma_time_allowed, stated_times};
use crate::network::download::{
    by_load, dispatched, drained, drained_in_turn, enqueued, filled, in_queue_order, lemma_by_load,
    let_go_all, lightest_first, load_of, overdue, peer_gone, place_by_load, rechecked, released,
    requeued, room, DownloadView,
};
use crate::network::headers::{
    header_fault, headers_down, locator_height, placed, read_step, stored_height, time_window,
    with_read, BatchView, HeaderSources,
};
use crate::network::protocol::PayloadView;
use crate::network::sync_model::{
    advanced, ask_blocks, ask_headers, block_arrived, block_inventory, children, dispatch,
    hashes_from, header_start, joined, orphan_index, peers_without, should_download, strangers,
    stall_checked, tip_or_zero, with_orphan, RunView, SyncStateView, SyncView,
};
use crate::storage::blocks::{header_at, header_at_height, Lookup};
use vstd::prelude::*;

verus! {

/// A request is overdue exactly if it is in flight and was sent more than thirty seconds ago.
pub proof fn lemma_overdue(in_flight: Map<Seq<u8>, (u64, u64)>, hash: Seq<u8>, now: u64)
    ensures
        overdue(in_flight, now).contains(hash) <==> in_flight.contains_key(hash) && now
            > in_flight[hash].1 + 30_000_000_000,
{
}

proof fn lemma_fill_goes_on(d: DownloadView, peer: u64, n: nat, now: u64)
    requires
        d.in_flight.dom().finite(),
        load_of(d.load, peer) + n <= 64,
    ensures
        ({
            let r = filled(d, peer, n, now);
            &&& r.queue.in_flight.dom().finite()
            &&& r.queue.in_flight.dom().len() >= d.in_flight.dom().len()
            &&& r.queue.pending.len() <= d.pending.len()
            &&& r.queue.pending.len() == 0 || r.queue.in_flight.dom().len() >= 512 || load_of(
                r.queue.load,
                peer,
            ) == load_of(d.load, peer) + n
            &&& load_of(r.queue.load, peer) >= load_of(d.load, peer)
            &&& load_of(r.queue.load, peer) <= load_of(d.load, peer) + n
            &&& forall|p: u64|
                p != peer ==> #[trigger] load_of(r.queue.load, p) == load_of(d.load, p)
            &&& r.hashes.len() <= n
            &&& forall|i: int|
                0 <= i < r.hashes.len() ==> (#[trigger] r.hashes[i]) == d.pending[i]
            &&& r.queue.pending == d.pending.skip(r.hashes.len() as int)
            &&& r.hashes.len() <= d.pending.len()
        }),
    decreases n,
{
    if n == 0 || d.pending.len() == 0 || d.in_flight.dom().len() >= 512 {
        assert(d.pending.skip(0) =~= d.pending);
    } else {
        let next = dispatched(d, peer, now);
        assert(next.in_flight.dom() =~= d.in_flight.dom().insert(d.pending[0]));
        assert(load_of(next.load, peer) == load_of(d.load, peer) + 1);
        lemma_fill_goes_on(next, peer, (n - 1) as nat, now);
        let rest = filled(next, peer, (n - 1) as nat, now);
        let r = filled(d, peer, n, now);
        assert forall|p: u64| p != peer implies #[trigger] load_of(r.queue.load, p) == load_of(
            d.load,
            p,
        ) by {
            assert(load_of(next.load, p) == load_of(d.load, p));
        }
        assert forall|i: int| 0 <= i < r.hashes.len() implies (#[trigger] r.hashes[i])
            == d.pending[i] by {
            if i > 0 {
                assert(r.hashes[i] == rest.hashes[i - 1]);
            }
        }
        assert(next.pending.skip(rest.hashes.len() as int) =~= d.pending.skip(
            r.hashes.len() as int,
        ));
    }
}

/// Whether nothing more can be requested of some peers.
pub open spec fn exhausted(d: DownloadView, peers: Seq<u64>) -> bool {
    ||| d.pending.len() == 0
    ||| d.in_flight.dom().len() >= 512
    ||| forall|i: int| 0 <= i < peers.len() ==> load_of(d.load, #[trigger] peers[i]) >= 64
}

proof fn lemma_turns_exhaust(d: DownloadView, peers: Seq<u64>, now: u64)
    requires
        d.in_flight.dom().finite(),
    ensures
        ({
            let r = drained_in_turn(d, peers, now).queue;
            &&& r.in_flight.dom().finite()
            &&& r.in_flight.dom().len() >= d.in_flight.dom().len()
            &&& r.pending.len() <= d.pending.len()
            &&& exhausted(r, peers)
            &&& forall|p: u64| #[trigger] load_of(r.load, p) >= load_of(d.load, p)
            &&& forall|p: u64|
                load_of(d.load, p) <= 64 ==> #[trigger] load_of(r.load, p) <= 64
        }),
    decreases peers.len(),
{
    if peers.len() > 0 {
        let peer = peers[0];
        let n = room(d, peer);
        if load_of(d.load, peer) < 64 {
            lemma_fill_goes_on(d, peer, n, now);
        } else {
            assert(filled(d, peer, 0, now).queue == d);
        }
        let first = filled(d, peer, n, now).queue;
        let rest = peers.skip(1);
        lemma_turns_exhaust(first, rest, now);
        let r = drained_in_turn(d, peers, now).queue;
        assert(r == drained_in_turn(first, rest, now).queue);
        assert(load_of(r.load, peer) >= load_of(first.load, peer));
        assert forall|p: u64| #[trigger] load_of(r.load, p) >= load_of(d.load, p) by {
            assert(load_of(r.load, p) >= load_of(first.load, p));
        }
        assert forall|p: u64| load_of(d.load, p) <= 64 implies #[trigger] load_of(r.load, p)
            <= 64 by {
            assert(load_of(first.load, p) <= 64);
        }
        if r.pending.len() > 0 && r.in_flight.dom().len() < 512 {
            assert forall|i: int| 0 <= i < peers.len() implies load_of(r.load, #[trigger] peers[i])
                >= 64 by {
                if i > 0 {
                    assert(rest[i - 1] == peers[i]);
                }
            }
        }
    }
}

/// As much is requested as may be: what still waits does so because 512 requests are in flight, or
/// each peer carries 64. No peer is given more than that.
pub proof fn lemma_requests_go_out(d: DownloadView, peers: Seq<u64>, now: u64, peer: u64)
    requires
        d.in_flight.dom().finite(),
    ensures
        exhausted(drained(d, peers, now).queue, peers),
        load_of(d.load, peer) <= 64 ==> load_of(drained(d, peers, now).queue.load, peer) <= 64,
{
    let order = by_load(d.load, peers);
    lemma_by_load(d.load, peers);
    lemma_turns_exhaust(d, order, now);
    let r = drained(d, peers, now).queue;
    if r.pending.len() > 0 && r.in_flight.dom().len() < 512 {
        broadcast use vstd::seq_lib::group_to_multiset_ensures;

        assert forall|i: int| 0 <= i < peers.len() implies load_of(r.load, #[trigger] peers[i])
            >= 64 by {
            assert(peers.contains(peers[i]));
            assert(peers.to_multiset().count(peers[i]) > 0);
            assert(order.to_multiset().count(peers[i]) > 0);
            assert(order.contains(peers[i]));
            let j = choose|j: int| 0 <= j < order.len() && order[j] == peers[i];
            assert(load_of(r.load, order[j]) >= 64);
        }
    }
}

/// A hash waits after some were queued exactly if it waited before, or it is one of them and was not
/// in flight. What is in flight stays so.
pub proof fn lemma_queued(d: DownloadView, hashes: Seq<Seq<u8>>, h: Seq<u8>)
    ensures
        enqueued(d, hashes).pending.contains(h) <==> d.pending.contains(h) || (hashes.contains(h)
            && !d.in_flight.contains_key(h)),
        enqueued(d, hashes).in_flight == d.in_flight,
        enqueued(d, hashes).load == d.load,
    decreases hashes.len(),
{
    if hashes.len() > 0 {
        let front = hashes.drop_last();
        let last = hashes.last();
        lemma_queued(d, front, h);
        lemma_queued(d, front, last);
        let before = enqueued(d, front);
        assert(hashes.contains(h) <==> front.contains(h) || h == last) by {
            if hashes.contains(h) {
                let i = choose|i: int| 0 <= i < hashes.len() && hashes[i] == h;
                if i < front.len() {
                    assert(front[i] == h);
                }
            }
            if front.contains(h) {
                let i = choose|i: int| 0 <= i < front.len() && front[i] == h;
                assert(hashes[i] == h);
            }
            if h == last {
                assert(hashes[hashes.len() - 1] == h);
            }
        }
        let more = before.pending.push(last);
        assert(more.contains(h) <==> before.pending.contains(h) || h == last) by {
            if more.contains(h) {
                let i = choose|i: int| 0 <= i < more.len() && more[i] == h;
                if i < before.pending.len() {
                    assert(before.pending[i] == h);
                }
            }
            if before.pending.contains(h) {
                let i = choose|i: int| 0 <= i < before.pending.len() && before.pending[i] == h;
                assert(more[i] == h);
            }
            if h == last {
                assert(more[before.pending.len() as int] == h);
            }
        }
    }
}

/// A hash that is put in front is the next to be requested, and no longer in flight.
pub proof fn lemma_put_in_front(d: DownloadView, hash: Seq<u8>)
    ensures
        requeued(d, hash).pending.len() > 0,
        requeued(d, hash).pending[0] == hash,
        !requeued(d, hash).in_flight.contains_key(hash),
        requeued(d, hash).order[0] == hash,
{
}

/// What has arrived is no longer in flight; all else is.
pub proof fn lemma_arrived(d: DownloadView, hash: Seq<u8>, other: Seq<u8>)
    requires
        other != hash,
    ensures
        !released(d, hash).in_flight.contains_key(hash),
        released(d, hash).in_flight.contains_key(other) == d.in_flight.contains_key(other),
        d.in_flight.contains_key(other) ==> released(d, hash).in_flight[other]
            == d.in_flight[other],
        released(d, hash).pending == d.pending,
        d.in_flight.contains_key(hash) && load_of(d.load, d.in_flight[hash].0) > 0 ==> load_of(
            released(d, hash).load,
            d.in_flight[hash].0,
        ) == load_of(d.load, d.in_flight[hash].0) - 1,
{
}

/// Requests for blocks name each by its hash, in order, as a block.
pub proof fn lemma_block_request(peer: u64, hashes: Seq<Seq<u8>>, i: int)
    requires
        0 <= i < hashes.len(),
    ensures
        block_inventory(hashes).len() == hashes.len(),
        block_inventory(hashes)[i].inv_type == 2,
        block_inventory(hashes)[i].hash == hashes[i],
        ask_blocks(peer, hashes).peer_id == peer,
        ask_blocks(peer, hashes).payload == PayloadView::GetData(block_inventory(hashes)),
{
}

/// Requests for headers go to a peer with a locator, and name no end.
pub proof fn lemma_header_request(peer: u64, locator: Seq<Seq<u8>>)
    ensures
        ask_headers(peer, locator).peer_id == peer,
        ask_headers(peer, locator).payload is GetHeaders,
        ask_headers(peer, locator).payload->GetHeaders_0.block_locator == locator,
        ask_headers(peer, locator).payload->GetHeaders_0.version == 70015,
        forall|i: int|
            0 <= i < 32 ==> #[trigger] ask_headers(
                peer,
                locator,
            ).payload->GetHeaders_0.stop_hash[i] == 0,
        ask_headers(peer, locator).payload->GetHeaders_0.stop_hash.len() == 32,
{
}

/// Nothing is requested while 1024 blocks wait for their turn.
pub proof fn lemma_full_buffer(v: SyncView, peers: Seq<u64>, now: u64)
    ensures
        v.buffer.dom().len() >= 1024 ==> dispatch(v, peers, now).sends.len() == 0 && dispatch(
            v,
            peers,
            now,
        ).sync == v,
        v.buffer.dom().len() < 1024 ==> dispatch(v, peers, now).sync.queue == drained(
            v.queue,
            peers,
            now,
        ).queue && dispatch(v, peers, now).sends.len() == drained(v.queue, peers, now).batches.len(),
{
}

/// Blocks are fetched exactly if some are missing and there are more than we have, or they carry
/// more work, or as much and stand beside our chain; where the work is not known, if they do.
pub proof fn lemma_worth_fetching(
    start: u64,
    best: u32,
    ours: u32,
    theirs: Option<nat>,
    work: nat,
    fork_start: Option<u32>,
)
    ensures
        should_download(start, best, ours, theirs, work, fork_start) <==> start <= best && {
            ||| best > ours
            ||| theirs is Some && theirs->Some_0 > work
            ||| fork_start is Some && (theirs is None || theirs->Some_0 == work)
        },
{
}

/// The hashes between two heights are those that are filed there, from below.
pub proof fn lemma_hashes_between(by_height: Map<u64, Seq<u8>>, start: u64, n: nat, h: Seq<u8>)
    requires
        start + n <= 0xFFFF_FFFF_FFFF_FFFF,
    ensures
        hashes_from(by_height, start, n).contains(h) <==> exists|k: u64|
            start <= k < start + n && #[trigger] by_height.contains_key(k) && by_height[k] == h,
        (forall|k: u64| start <= k < start + n ==> #[trigger] by_height.contains_key(k)) ==> {
            &&& hashes_from(by_height, start, n).len() == n
            &&& forall|i: int|
                0 <= i < n ==> (#[trigger] hashes_from(by_height, start, n)[i]) == by_height[(start
                    + i) as u64]
        },
    decreases n,
{
    if n > 0 {
        let m = (n - 1) as nat;
        lemma_hashes_between(by_height, start, m, h);
        let front = hashes_from(by_height, start, m);
        let all = hashes_from(by_height, start, n);
        let last = (start + n - 1) as u64;
        if by_height.contains_key(last) {
            let more = front.push(by_height[last]);
            assert(more.contains(h) <==> front.contains(h) || h == by_height[last]) by {
                if more.contains(h) {
                    let i = choose|i: int| 0 <= i < more.len() && more[i] == h;
                    if i < front.len() {
                        assert(front[i] == h);
                    }
                }
                if front.contains(h) {
                    let i = choose|i: int| 0 <= i < front.len() && front[i] == h;
                    assert(more[i] == h);
                }
                if h == by_height[last] {
                    assert(more[front.len() as int] == h);
                }
            }
        }
        if forall|k: u64| start <= k < start + n ==> #[trigger] by_height.contains_key(k) {
            assert(by_height.contains_key(last));
            assert forall|i: int| 0 <= i < n implies (#[trigger] all[i]) == by_height[(start
                + i) as u64] by {
                if i < m {
                    assert(all[i] == front[i]);
                }
            }
        }
    }
}

/// A header is accepted exactly if its hash reaches its target, the target follows from its
/// predecessor, and its time is allowed behind the headers before it.
pub proof fn lemma_header_accepted(
    s: HeaderSources,
    b: BatchView,
    header: BlockHeaderView,
    prev: (BlockHeaderView, u32),
    pow_hash: Seq<u8>,
    now: u64,
)
    requires
        time_window(s, b, prev).len() > 0,
    ensures
        header_fault(s, b, header, prev, pow_hash, now) is None <==> {
            let before = time_window(s, b, prev);
            &&& header.meets_target(pow_hash)
            &&& crate::consensus::difficulty::difficulty_error(
                prev.0,
                header,
                s.chain.params,
            ) is None
            &&& 2 * count_below(stated_times(before), header.timestamp) >= before.len()
            &&& header.timestamp <= now + 7200
        },
{
    lemma_time_allowed(header, time_window(s, b, prev), now);
}

/// A header that was read lies one above its predecessor and is the best; it and at most ten before
/// it are what the next time is held against.
pub proof fn lemma_header_read(
    s: HeaderSources,
    b: BatchView,
    header: BlockHeaderView,
    prev: (BlockHeaderView, u32),
)
    requires
        prev.1 < 0xFFFF_FFFF,
        time_window(s, b, prev).len() <= 11,
    ensures
        ({
            let after = with_read(s, b, header, prev);
            let before = time_window(s, b, prev);
            &&& after.best_height == prev.1 + 1
            &&& after.best_hash == header.hash()
            &&& after.prev == Some((header, (prev.1 + 1) as u32))
            &&& after.stored.drop_last() == b.stored
            &&& after.stored.last() == (header, (prev.1 + 1) as u64)
            &&& after.fresh.contains_key(header.hash()) && after.fresh[header.hash()] == prev.1 + 1
            &&& after.window.len() > 0 && after.window[0] == header
            &&& after.window.len() == (if before.len() < 11 {
                before.len() + 1
            } else {
                11
            })
            &&& forall|i: int|
                1 <= i < after.window.len() ==> (#[trigger] after.window[i]) == before[i - 1]
        }),
{
    let after = with_read(s, b, header, prev);
    assert(after.stored.drop_last() =~= b.stored);
}

/// A block of the peer is added exactly when it is its turn, it is the one that the headers name at
/// its height, and it follows the one before.
pub proof fn lemma_turn_comes(v: SyncView, block: BlockView, now: u64)
    ensures
        block_arrived(v, block, now).verdict is Apply <==> {
            &&& v.by_hash.contains_key(block.hash())
            &&& v.state is DownloadingBlocks
            &&& v.by_hash[block.hash()] == v.state->next_apply_height
            &&& v.by_height.contains_key(v.by_hash[block.hash()] as u64)
            &&& v.by_height[v.by_hash[block.hash()] as u64] == block.hash()
            &&& v.by_hash[block.hash()] > 0 && v.by_height.contains_key(
                (v.by_hash[block.hash()] - 1) as u64,
            ) ==> v.by_height[(v.by_hash[block.hash()] - 1) as u64] == block.header.prev_block_hash
        },
        block_arrived(v, block, now).verdict is Untracked <==> !v.by_hash.contains_key(
            block.hash(),
        ),
        block_arrived(v, block, now).verdict is Untracked ==> block_arrived(v, block, now).sync
            == v,
        block_arrived(v, block, now).verdict is Apply ==> block_arrived(
            v,
            block,
            now,
        ).verdict->height == v.by_hash[block.hash()],
{
}

/// A block that comes before its turn waits under its height.
pub proof fn lemma_early_block_waits(v: SyncView, block: BlockView, now: u64)
    requires
        v.by_hash.contains_key(block.hash()),
        v.state is DownloadingBlocks,
        v.by_hash[block.hash()] > v.state->next_apply_height,
    ensures
        ({
            let r = block_arrived(v, block, now);
            let height = v.by_hash[block.hash()] as u64;
            &&& r.verdict is Handled
            &&& r.sync.buffer.contains_key(height)
            &&& r.sync.buffer[height] == block
            &&& r.sync.by_height == v.by_height
            &&& r.sync.state == v.state
        }),
{
}

/// A late block is dropped.
pub proof fn lemma_late_block_dropped(v: SyncView, block: BlockView, now: u64)
    requires
        v.by_hash.contains_key(block.hash()),
        v.state is DownloadingBlocks,
        v.by_hash[block.hash()] < v.state->next_apply_height,
    ensures
        block_arrived(v, block, now).verdict is Handled,
        block_arrived(v, block, now).sync.buffer == v.buffer,
        block_arrived(v, block, now).sends.len() == 0,
{
}

/// Of the orphans those that name a block as their predecessor follow it, and all others stay.
pub proof fn lemma_orphans_part(
    orphans: Seq<(Seq<u8>, BlockView)>,
    parent: Seq<u8>,
    o: (Seq<u8>, BlockView),
)
    ensures
        strangers(orphans, parent).contains(o) <==> orphans.contains(o)
            && o.1.header.prev_block_hash != parent,
        children(orphans, parent).contains(o.1) <==> o.1.header.prev_block_hash == parent && exists|
            i: int,
        |
            0 <= i < orphans.len() && (#[trigger] orphans[i]).1 == o.1,
        strangers(orphans, parent).len() + children(orphans, parent).len() == orphans.len(),
    decreases orphans.len(),
{
    if orphans.len() > 0 {
        let front = orphans.drop_last();
        let last = orphans.last();
        lemma_orphans_part(front, parent, o);
        lemma_last(orphans, o);
        if last.1.header.prev_block_hash == parent {
            let more = children(front, parent).push(last.1);
            lemma_last(more, o.1);
            assert(more.drop_last() =~= children(front, parent));
        } else {
            let more = strangers(front, parent).push(last);
            lemma_last(more, o);
            assert(more.drop_last() =~= strangers(front, parent));
        }
        if exists|i: int| 0 <= i < front.len() && (#[trigger] front[i]).1 == o.1 {
            let i = choose|i: int| 0 <= i < front.len() && (#[trigger] front[i]).1 == o.1;
            assert(orphans[i].1 == o.1);
        }
        if last.1 == o.1 {
            assert(orphans[orphans.len() - 1].1 == o.1);
        }
        if exists|i: int| 0 <= i < orphans.len() && (#[trigger] orphans[i]).1 == o.1 {
            let i = choose|i: int| 0 <= i < orphans.len() && (#[trigger] orphans[i]).1 == o.1;
            if i < front.len() {
                assert(front[i].1 == o.1);
            }
        }
    } else {
        assert(!strangers(orphans, parent).contains(o));
        assert(!children(orphans, parent).contains(o.1));
    }
}

proof fn lemma_last<A>(s: Seq<A>, e: A)
    requires
        s.len() > 0,
    ensures
        s.contains(e) <==> s.drop_last().contains(e) || s.last() == e,
{
    if s.contains(e) {
        let i = choose|i: int| 0 <= i < s.len() && s[i] == e;
        if i < s.len() - 1 {
            assert(s.drop_last()[i] == e);
        }
    }
    if s.drop_last().contains(e) {
        let i = choose|i: int| 0 <= i < s.drop_last().len() && s.drop_last()[i] == e;
        assert(s[i] == e);
    }
    if s.last() == e {
        assert(s[s.len() - 1] == e);
    }
}

/// An orphan that was kept is there; at most 2048 are, and the oldest goes first.
pub proof fn lemma_orphan_kept(
    orphans: Seq<(Seq<u8>, BlockView)>,
    hash: Seq<u8>,
    block: BlockView,
)
    requires
        orphans.len() <= 2048,
        forall|i: int| 0 <= i < orphans.len() ==> (#[trigger] orphans[i]).0 != hash,
    ensures
        with_orphan(orphans, hash, block).len() <= 2048,
        with_orphan(orphans, hash, block).last() == (hash, block),
        orphans.len() < 2048 ==> with_orphan(orphans, hash, block).drop_last() == orphans,
        orphans.len() == 2048 ==> with_orphan(orphans, hash, block).drop_last() == orphans.skip(1),
{
    let kept = if orphans.len() >= 2048 {
        orphans.skip(1)
    } else {
        orphans
    };
    assert forall|i: int| 0 <= i < kept.len() implies (#[trigger] kept[i]).0 != hash by {
        if orphans.len() >= 2048 {
            assert(kept[i] == orphans[i + 1]);
        } else {
            assert(kept[i] == orphans[i]);
        }
    }
    lemma_no_orphan(kept, hash);
    assert(with_orphan(orphans, hash, block).drop_last() =~= kept);
}

proof fn lemma_no_orphan(orphans: Seq<(Seq<u8>, BlockView)>, hash: Seq<u8>)
    requires
        forall|i: int| 0 <= i < orphans.len() ==> (#[trigger] orphans[i]).0 != hash,
    ensures
        orphan_index(orphans, hash) == orphans.len(),
    decreases orphans.len(),
{
    if orphans.len() > 0 {
        let rest = orphans.skip(1);
        assert(orphans[0].0 != hash);
        assert forall|i: int| 0 <= i < rest.len() implies (#[trigger] rest[i]).0 != hash by {
            assert(rest[i] == orphans[i + 1]);
        }
        lemma_no_orphan(rest, hash);
    }
}

/// Peers without one are the others; with one more, it is among them once.
pub proof fn lemma_peer_lists(peers: Seq<u64>, peer: u64, p: u64)
    ensures
        peers_without(peers, peer).contains(p) <==> peers.contains(p) && p != peer,
        joined(peers, peer).contains(p) <==> peers.contains(p) || p == peer,
        peers.contains(peer) ==> joined(peers, peer) == peers,
    decreases peers.len(),
{
    if peers.len() > 0 {
        lemma_peer_lists(peers.drop_last(), peer, p);
        lemma_last(peers, p);
        if peers.last() != peer {
            let more = peers_without(peers.drop_last(), peer).push(peers.last());
            lemma_last(more, p);
            assert(more.drop_last() =~= peers_without(peers.drop_last(), peer));
        }
    } else {
        assert(!peers_without(peers, peer).contains(p));
    }
    let more = peers.push(peer);
    lemma_last(more, p);
    assert(more.drop_last() =~= peers);
}

/// Stalled requests are looked for every ten seconds at most.
pub proof fn lemma_stalls_looked_for(v: SyncView, now: u64)
    ensures
        now < v.last_recheck + 10_000_000_000 ==> stall_checked(v, now).sync == v && stall_checked(
            v,
            now,
        ).sends.len() == 0,
        now >= v.last_recheck + 10_000_000_000 ==> stall_checked(v, now).sync.last_recheck == now,
{
}

/// The chain of the peer is complete once a block above its height would be next.
pub proof fn lemma_complete(v: SyncView, run: RunView, chain: ChainView, now: u64)
    ensures
        run.height > run.total_height ==> advanced(v, run, chain, now).sync.state
            == SyncStateView::Synced,
        run.height <= run.total_height ==> advanced(v, run, chain, now).sync.state
            is DownloadingBlocks && advanced(v, run, chain, now).sync.state->next_apply_height
            == run.height as u32,
        advanced(v, run, chain, now).chain == chain,
{
}

/// The headers that are there end at the best header where it is above the tip, and at the tip else.
pub proof fn lemma_header_start(chain: ChainView)
    ensures
        header_start(chain) == tip_or_zero(chain) || header_start(chain).0
            > crate::network::headers::tip_height(chain) as u32,
{
}

/// The time of a header is held against its predecessor and the ten headers below that.
pub proof fn lemma_time_window(
    s: HeaderSources,
    b: BatchView,
    prev: (BlockHeaderView, u32),
    i: int,
)
    requires
        b.window.len() == 0,
        prev.1 > 0,
        1 <= i < time_window(s, b, prev).len(),
    ensures
        time_window(s, b, prev).len() <= 11,
        time_window(s, b, prev)[0] == prev.0,
        i <= prev.1,
        header_at_height(s.chain.blocks, (prev.1 - i) as u64) == Lookup::<BlockHeaderView>::Ok(
            Some(time_window(s, b, prev)[i]),
        ),
{
    let rest = headers_down(s.chain, (prev.1 - 1) as u32, 10);
    assert(time_window(s, b, prev) == seq![prev.0] + rest);
    lemma_headers_downwards(s.chain, (prev.1 - 1) as u32, 10, i - 1);
    assert(time_window(s, b, prev)[i] == rest[i - 1]);
}

/// A header is placed behind the one that it names: the last that was read, one that is stored,
/// or a recent block.
pub proof fn lemma_header_placed(s: HeaderSources, b: BatchView, header: BlockHeaderView)
    requires
        placed(s, b, header) is Ok,
    ensures
        ({
            let prev = placed(s, b, header)->Ok_0;
            &&& prev.1 < 0xFFFF_FFFF
            &&& b.prev is Some && header.prev_block_hash == b.best_hash ==> prev == b.prev->Some_0
            &&& b.prev is None ==> header_at(s.chain.blocks, header.prev_block_hash) == Lookup::<
                BlockHeaderView,
            >::Ok(Some(prev.0))
            &&& b.prev is Some && header.prev_block_hash != b.best_hash && b.fresh.contains_key(
                header.prev_block_hash,
            ) ==> prev.1 == b.fresh[header.prev_block_hash] && header_at(
                s.chain.blocks,
                header.prev_block_hash,
            ) == Lookup::<BlockHeaderView>::Ok(Some(prev.0))
            &&& b.prev is Some && header.prev_block_hash != b.best_hash && !b.fresh.contains_key(
                header.prev_block_hash,
            ) && s.known.contains_key(header.prev_block_hash) ==> prev.1
                == s.known[header.prev_block_hash] && header_at(
                s.chain.blocks,
                header.prev_block_hash,
            ) == Lookup::<BlockHeaderView>::Ok(Some(prev.0))
            &&& b.prev is Some && header.prev_block_hash != b.best_hash && !b.fresh.contains_key(
                header.prev_block_hash,
            ) && !s.known.contains_key(header.prev_block_hash) ==> s.chain.cached(
                header.prev_block_hash,
            ) is Some && prev.0 == s.chain.cached(header.prev_block_hash)->Some_0.block.header
            &&& b.prev is None && header.prev_block_hash == b.best_hash ==> prev.1 == b.best_height
        }),
{
}

/// The height of a stored header is told by the recent blocks, else by the locator, else by the
/// lowest height at which the peer named it.
pub proof fn lemma_stored_height(s: HeaderSources, hash: Seq<u8>, height: u64)
    ensures
        s.chain.cached(hash) is Some ==> stored_height(s, hash) == Some(
            s.chain.cached(hash)->Some_0.height,
        ),
        s.chain.cached(hash) is None && locator_height(s.locator, hash) is Some ==> stored_height(
            s,
            hash,
        ) == locator_height(s.locator, hash),
        s.chain.cached(hash) is None && locator_height(s.locator, hash) is None && stored_height(
            s,
            hash,
        ) == Some(height) ==> s.by_height.contains_key(height) && s.by_height[height] == hash
            && forall|k: u64|
            k < height && s.by_height.contains_key(k) ==> #[trigger] s.by_height[k] != hash,
{
}

/// A header is read exactly if it can be placed and is accepted there.
pub proof fn lemma_read_exactly_if(
    s: HeaderSources,
    b: BatchView,
    header: BlockHeaderView,
    pow_hash: Seq<u8>,
    now: u64,
)
    ensures
        read_step(s, b, header, pow_hash, now) is Ok <==> placed(s, b, header) is Ok && header_fault(
            s,
            b,
            header,
            placed(s, b, header)->Ok_0,
            pow_hash,
            now,
        ) is None,
        read_step(s, b, header, pow_hash, now) is Ok ==> read_step(s, b, header, pow_hash, now)->Ok_0
            == with_read(s, b, header, placed(s, b, header)->Ok_0),
{
}

/// A peer takes its place behind those that carry no more than it, and before those that carry
/// more: of two that carry the same, the one that came first stays first.
pub proof fn lemma_place_by_load(load: Map<u64, usize>, s: Seq<u64>, peer: u64) -> (k: int)
    requires
        lightest_first(load, s),
    ensures
        0 <= k <= s.len(),
        place_by_load(load, s, peer) == s.take(k) + seq![peer] + s.skip(k),
        forall|i: int| 0 <= i < k ==> load_of(load, #[trigger] s[i]) <= load_of(load, peer),
        forall|i: int| k <= i < s.len() ==> load_of(load, #[trigger] s[i]) > load_of(load, peer),
    decreases s.len(),
{
    if s.len() == 0 || load_of(load, s.last()) <= load_of(load, peer) {
        assert(s.take(s.len() as int) + seq![peer] + s.skip(s.len() as int) =~= s.push(peer));
        assert forall|i: int| 0 <= i < s.len() implies load_of(load, #[trigger] s[i]) <= load_of(
            load,
            peer,
        ) by {
            assert(load_of(load, s[i]) <= load_of(load, s[s.len() - 1]));
        }
        s.len() as int
    } else {
        let t = s.drop_last();
        assert forall|i: int, j: int| 0 <= i <= j < t.len() implies load_of(load, #[trigger] t[i])
            <= load_of(load, #[trigger] t[j]) by {
            assert(t[i] == s[i] && t[j] == s[j]);
        }
        let k = lemma_place_by_load(load, t, peer);
        assert((t.take(k) + seq![peer] + t.skip(k)).push(s.last()) =~= s.take(k) + seq![peer]
            + s.skip(k));
        assert forall|i: int| 0 <= i < k implies load_of(load, #[trigger] s[i]) <= load_of(
            load,
            peer,
        ) by {
            assert(t[i] == s[i]);
        }
        assert forall|i: int| k <= i < s.len() implies load_of(load, #[trigger] s[i]) > load_of(
            load,
            peer,
        ) by {
            if i < t.len() {
                assert(t[i] == s[i]);
            }
        }
        k
    }
}

/// What was asked of a peer that has gone, and what is overdue, waits again in front of what waited
/// before.
pub proof fn lemma_returned_first(d: DownloadView, peer: u64, now: u64)
    ensures
        peer_gone(d, peer).pending.len() >= d.pending.len(),
        peer_gone(d, peer).pending.skip(peer_gone(d, peer).pending.len() - d.pending.len())
            == d.pending,
        rechecked(d, now).pending.len() >= d.pending.len(),
        rechecked(d, now).pending.skip(rechecked(d, now).pending.len() - d.pending.len())
            == d.pending,
{
    lemma_let_go_waits(d, in_queue_order(d.order, overdue(d.in_flight, now)));
}

/// Requests that are let go leave what waits as it is.
proof fn lemma_let_go_waits(d: DownloadView, hashes: Seq<Seq<u8>>)
    ensures
        let_go_all(d, hashes).pending == d.pending,
    decreases hashes.len(),
{
    if hashes.len() > 0 {
        lemma_let_go_waits(d, hashes.drop_last());
    }
}

/// A peer that has gone owes nothing and carries nothing; what others owe stays asked.
pub proof fn lemma_peer_gone_owes_nothing(d: DownloadView, peer: u64, hash: Seq<u8>)
    ensures
        !peer_gone(d, peer).load.contains_key(peer),
        peer_gone(d, peer).in_flight.contains_key(hash) <==> d.in_flight.contains_key(hash)
            && d.in_flight[hash].0 != peer,
        peer_gone(d, peer).in_flight.contains_key(hash) ==> peer_gone(d, peer).in_flight[hash]
            == d.in_flight[hash],
{
}

} // verus!
