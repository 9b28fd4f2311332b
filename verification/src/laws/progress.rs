//! How a synchronisation goes on.

use crate::consensus::block::{BlockHeaderView, BlockView};
use crate::consensus::chain_model::{add_block, locator, ChainView, Outcome};

use crate::consensus::transaction::TransactionView;
use crate::laws::sync::{lemma_hashes_between, lemma_queued};
use crate::network::address::SocketAddrView;
use crate::network::addrman::{heard_of, AddressView};
use crate::network::batch::{due, flushed, messages_for, waiting, BatcherView};
use crate::network::discovery::{heard_all, socket_addr_of};
use crate::network::download::enqueued;
use crate::network::headers::{BatchView, HeaderFault, HeaderRun};
use crate::network::protocol::NetworkAddrView;
use crate::network::recovery::seeds_added;
use crate::network::sync_model::{
    advanced, begin_download, block_added, children, current_done, first_missing, hashes_from,
    headers_read, no_more_headers, orphan_done, reset, settle, should_download, strangers, walked,
    with_batch, with_headers_of, RunView, SyncStateView, SyncView, Walk,
};
use vstd::prelude::*;

verus! {

/// Headers that were read are stored, and nothing else of the chain changes.
pub proof fn lemma_batch_stored(chain: ChainView, batch: BatchView)
    ensures
        with_batch(chain, batch).utxos == chain.utxos,
        with_batch(chain, batch).tip == chain.tip,
        with_batch(chain, batch).cache == chain.cache,
        with_batch(chain, batch).params == chain.params,
{
}

/// A full message of headers leads to a request for those behind the last; headers that do not fit
/// lead to one with a new locator; faulty ones to nothing.
pub proof fn lemma_headers_followed_up(
    v: SyncView,
    chain: ChainView,
    peer: u64,
    headers: Seq<BlockHeaderView>,
    run: HeaderRun,
    now: u64,
)
    requires
        headers.len() > 0,
    ensures
        ({
            let r = headers_read(v, chain, peer, headers, run, now);
            &&& run.fault is None && headers.len() >= 2000 ==> {
                &&& r.sends.len() == 1
                &&& r.sends[0].peer_id == peer
                &&& r.sends[0].payload is GetHeaders
                &&& r.sends[0].payload->GetHeaders_0.block_locator == seq![run.batch.best_hash]
                &&& r.sync.state is DownloadingHeaders
                &&& r.sync.state->peer_id == peer
                &&& r.sync.state->best_header_height == run.batch.best_height
                &&& r.sync.state->best_header_hash == run.batch.best_hash
                &&& r.fault is None
            }
            &&& run.fault == Some(HeaderFault::HeadersNeeded) ==> {
                &&& r.sends.len() == 1
                &&& r.sends[0].peer_id == peer
                &&& r.sends[0].payload is GetHeaders
                &&& r.sends[0].payload->GetHeaders_0.block_locator.len() == locator(chain).len()
                &&& r.chain == chain
                &&& r.sync.locator == locator(chain)
                &&& r.fault is None
            }
            &&& run.fault is Some && run.fault != Some(HeaderFault::HeadersNeeded) ==> {
                &&& r.sends.len() == 0
                &&& r.chain == chain
                &&& r.fault == run.fault
                &&& r.sync.state == v.state
            }
            &&& run.fault is None ==> r.chain == with_batch(chain, run.batch)
        }),
{
}

/// A download begins with the blocks between two heights that are named there: each waits or is
/// requested, unless it was in flight already.
pub proof fn lemma_download_begins(v: SyncView, peer: u64, start: u64, best: u32, now: u64, k: u64)
    requires
        start <= k <= best,
        v.by_height.contains_key(k),
        !v.queue.in_flight.contains_key(v.by_height[k]),
    ensures
        ({
            let hashes = hashes_from(v.by_height, start, (best - start + 1) as nat);
            let r = begin_download(v, peer, start, best, now);
            &&& hashes.contains(v.by_height[k])
            &&& enqueued(v.queue, hashes).pending.contains(v.by_height[k])
            &&& r.sync.state is DownloadingBlocks
            &&& r.sync.state->next_apply_height == start as u32
            &&& r.sync.state->total_height == best
            &&& r.sync.state->active_peers == seq![peer]
            &&& r.sync.by_height == v.by_height
        }),
{
    let n = (best - start + 1) as nat;
    let h = v.by_height[k];
    lemma_hashes_between(v.by_height, start, n, h);
    let hashes = hashes_from(v.by_height, start, n);
    lemma_queued(v.queue, hashes, h);
}

/// Where there is nothing worth fetching, the synchronisation is done and nothing is asked for.
pub proof fn lemma_nothing_to_fetch(
    v: SyncView,
    chain: ChainView,
    peer: u64,
    best: u32,
    fork_start: Option<u32>,
    work: Option<nat>,
    now: u64,
)
    ensures
        ({
            let w = walked(
                chain,
                Walk {
                    by_height: v.by_height,
                    by_hash: v.by_hash,
                    start: first_missing(chain, v.by_height, best),
                },
            );
            let worth = should_download(
                w.start,
                best,
                crate::network::headers::tip_height(chain) as u32,
                work,
                crate::network::sync_model::local_work(chain),
                fork_start,
            );
            let r = settle(v, chain, peer, best, fork_start, work, now);
            &&& !worth ==> r.sync.state == SyncStateView::Synced && r.sends.len() == 0
            &&& worth ==> r.sync.state is DownloadingBlocks && r.sync.state->next_apply_height
                == w.start as u32 && r.sync.state->total_height == best
        }),
{
}

/// The work of our chain is what is stored of its tip.
pub proof fn lemma_our_work(chain: ChainView)
    ensures
        crate::storage::chain_state::tip_at(chain.state) matches Ok(Some(t))
            ==> crate::network::sync_model::local_work(chain) == t.cumulative_work,
        !(crate::storage::chain_state::tip_at(chain.state) matches Ok(Some(_)))
            ==> crate::network::sync_model::local_work(chain) == 0,
{
}

/// A peer without further headers ends the synchronisation where no block is missing.
pub proof fn lemma_no_more(v: SyncView, chain: ChainView, peer: u64, now: u64)
    ensures
        v.by_height.dom().len() == 0 ==> no_more_headers(v, chain, peer, now).sync.state
            == SyncStateView::Synced && no_more_headers(v, chain, peer, now).sends.len() == 0,
        v.state is DownloadingHeaders && first_missing(
            chain,
            v.by_height,
            v.state->best_header_height,
        ) > v.state->best_header_height ==> no_more_headers(v, chain, peer, now).sync.state
            == SyncStateView::Synced,
{
}

/// The next block that was added is noted with its height, and the run goes on one above it; its
/// orphans come first. One that was refused ends the run and changes nothing of the synchronisation.
pub proof fn lemma_block_done(
    v: SyncView,
    run: RunView,
    block: BlockView,
    o: Outcome<Seq<TransactionView>>,
    now: u64,
)
    requires
        run.height < 0xFFFF_FFFF,
    ensures
        ({
            let r = current_done(v, run, block, o, now);
            &&& r.chain == o.chain
            &&& o.result is Err ==> r.sync == v && r.run.current is None && r.run.applied
                == run.applied && r.run.height == run.height && r.sends.len() == 0
            &&& o.result is Ok ==> {
                &&& r.run.height == run.height + 1
                &&& r.run.applied.len() == run.applied.len() + 1
                &&& r.run.applied.last() == (block, run.height as u32)
                &&& r.run.applied.drop_last() == run.applied
                &&& r.run.requeued == run.requeued + o.result->Ok_0
                &&& r.run.orphans == children(v.orphans, block.hash())
                &&& r.sync.orphans == strangers(v.orphans, block.hash())
                &&& r.run.total_height == run.total_height
            }
        }),
{
    let r = current_done(v, run, block, o, now);
    if o.result is Ok {
        assert(r.run.applied.drop_last() =~= run.applied);
    }
}

/// Orphans are tried one after the other; one that is refused is passed over.
pub proof fn lemma_orphan_tried(
    v: SyncView,
    run: RunView,
    o: Outcome<Seq<TransactionView>>,
    now: u64,
)
    requires
        run.orphans.len() > 0,
    ensures
        ({
            let r = orphan_done(v, run, o, now);
            &&& r.chain == o.chain
            &&& r.run.orphans == run.orphans.skip(1)
            &&& r.run.height == run.height
            &&& r.run.applied == run.applied
            &&& o.result is Ok ==> r.run.requeued == run.requeued + o.result->Ok_0
            &&& o.result is Err ==> r.run.requeued == run.requeued
        }),
{
}

/// The block that is added is the first orphan, or else the next of the chain.
pub proof fn lemma_next_added(
    v: SyncView,
    run: RunView,
    chain: ChainView,
    pow_hash: Seq<u8>,
    time: u64,
    now: u64,
)
    ensures
        run.next_block() == (if run.orphans.len() > 0 {
            Some(run.orphans[0])
        } else {
            run.current
        }),
        run.next_block() is Some ==> block_added(v, run, chain, pow_hash, time, now).chain
            == add_block(chain, run.next_block()->Some_0, pow_hash, time).chain,
        run.next_block() is None ==> block_added(v, run, chain, pow_hash, time, now).chain == chain
            && block_added(v, run, chain, pow_hash, time, now).sync == v,
{
}

/// The next block of the buffer is taken once its turn has come, if it is the one that is named.
pub proof fn lemma_buffer_taken(v: SyncView, run: RunView, chain: ChainView, now: u64)
    requires
        run.height <= run.total_height,
        v.buffer.dom().len() >= 1024,
    ensures
        ({
            let r = advanced(v, run, chain, now);
            &&& !r.sync.buffer.contains_key(run.height)
            &&& v.buffer.contains_key(run.height) && v.by_height.contains_key(run.height)
                && v.by_height[run.height] == v.buffer[run.height].hash() ==> r.run.current == Some(
                v.buffer[run.height],
            )
            &&& !v.buffer.contains_key(run.height) ==> r.run.current is None
        }),
{
}

/// News of addresses are taken one after the other.
pub proof fn lemma_news_in_turn(
    list: Seq<AddressView>,
    max: usize,
    news: Seq<NetworkAddrView>,
    n: nat,
)
    requires
        n < news.len(),
    ensures
        heard_all(list, max, news, 0) == list,
        heard_all(list, max, news, n + 1) == heard_of(
            heard_all(list, max, news, n),
            max,
            socket_addr_of(news[n as int]),
            news[n as int].services,
            news[n as int].timestamp,
        ),
{
}

/// Seeds are heard of one after the other, as full nodes, at a time.
pub proof fn lemma_seeds_in_turn(
    list: Seq<AddressView>,
    max: usize,
    seeds: Seq<SocketAddrView>,
    n: nat,
    time: u32,
)
    requires
        n < seeds.len(),
    ensures
        seeds_added(list, max, seeds, 0, time) == list,
        seeds_added(list, max, seeds, n + 1, time) == heard_of(
            seeds_added(list, max, seeds, n, time),
            max,
            seeds[n as int],
            1,
            time,
        ),
{
}

/// A flush of one peer sends what waits for it exactly if it is due, and leaves nothing for it then.
pub proof fn lemma_one_flushed(v: BatcherView, peer: u64, now: u64)
    ensures
        ({
            let (w, out) = flushed(v, seq![peer], now);
            &&& !due(v, peer, now) ==> w == v && out.len() == 0
            &&& due(v, peer, now) ==> waiting(w.inv, peer).len() == 0 && waiting(
                w.getdata,
                peer,
            ).len() == 0 && waiting(w.addr, peer).len() == 0 && !w.started.contains_key(peer)
            &&& due(v, peer, now) && messages_for(v, peer).len() > 0 ==> out.len() == 1 && out[0] == (
                peer,
                messages_for(v, peer),
            )
            &&& due(v, peer, now) && messages_for(v, peer).len() == 0 ==> out.len() == 0
        }),
{
    let none = Seq::<u64>::empty();
    assert(seq![peer].drop_last() =~= none);
    assert(flushed(v, none, now).0 == v);
    assert(flushed(v, none, now).1.len() == 0);
}

/// The headers of a batch are known by their heights, beside those that were known before, and the
/// peer is asked on from the last of them.
pub proof fn lemma_headers_noted(
    v: SyncView,
    peer: u64,
    first: BlockHeaderView,
    batch: BatchView,
    hash: Seq<u8>,
)
    ensures
        ({
            let v1 = with_headers_of(v, peer, first, batch);
            &&& v1.known.contains_key(hash) <==> v.known.contains_key(hash)
                || batch.fresh.contains_key(hash)
            &&& batch.fresh.contains_key(hash) ==> v1.known[hash] == batch.fresh[hash]
            &&& !batch.fresh.contains_key(hash) && v.known.contains_key(hash) ==> v1.known[hash]
                == v.known[hash]
            &&& v1.state is DownloadingHeaders
            &&& v1.state->DownloadingHeaders_peer_id == peer
            &&& v1.state->best_header_height == batch.best_height
            &&& v1.state->best_header_hash == batch.best_hash
        }),
{
}

/// Nothing of a synchronisation is left once it is reset.
pub proof fn lemma_reset(v: SyncView, hash: Seq<u8>, height: u64)
    ensures
        !reset(v).by_hash.contains_key(hash),
        !reset(v).by_height.contains_key(height),
        !reset(v).buffer.contains_key(height),
        reset(v).orphans.len() == 0,
        reset(v).queue.pending.len() == 0,
        !reset(v).queue.in_flight.contains_key(hash),
        reset(v).known == v.known,
        reset(v).state == v.state,
{
}

} // verus!
