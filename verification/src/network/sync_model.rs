//! What a synchronisation with peers is, and what each event makes of it.

use crate::consensus::block::{BlockHeaderView, BlockView};
use crate::consensus::chain_model::{add_block, locator, ChainView, Outcome};
use crate::consensus::merkle::zero_hash;
use crate::consensus::transaction::TransactionView;
use crate::consensus::u256::two_256;
use crate::network::download::{
    drained, empty_queue, enqueued, peer_gone, rechecked, released, requeued, DownloadView,
    DOWNLOAD_WINDOW,
};
use crate::network::headers::{
    read_headers, tip_height, BatchView, HeaderFault, HeaderRun, HeaderSources,
};
use crate::network::outgoing::OutgoingView;
use crate::network::protocol::{GetHeadersView, InvView, PayloadView, INV_BLOCK};
use crate::storage::blocks::{block_at, hash_at_height, header_at, meta_at, with_headers, Lookup};
use crate::storage::chain_state::{best_header_at, tip_at, with_best_header};
use vstd::prelude::*;

verus! {

/// Maximum number of orphan blocks held in memory.
pub const ORPHAN_POOL_MAX: usize = 2048;

/// Maximum number of out-of-order blocks buffered while waiting for sequential apply.
/// When the buffer is full, block dispatch is paused until it drains (backpressure).
pub const BLOCK_BUFFER_MAX: usize = 1024;

/// Shortest time between two looks for stalled requests, in nanoseconds.
pub const MIN_RECHECK_INTERVAL: u64 = 10_000_000_000;

/// Number of headers that a full message holds.
pub const HEADERS_PER_MESSAGE: usize = 2000;

/// Version that requests for headers state.
pub const SYNC_VERSION: u32 = 70015;

/// Steps that are made at most from a header to one whose work is known.
pub const WORK_STEPS: u64 = u64::MAX;

/// How far a synchronisation is.
#[verifier::ext_equal]
pub enum SyncStateView {
    Idle,
    DownloadingHeaders {
        peer_id: u64,
        best_header_height: u32,
        best_header_hash: Seq<u8>,
        fork_start_height: Option<u32>,
    },
    DownloadingBlocks { active_peers: Seq<u64>, next_apply_height: u32, total_height: u32 },
    Synced,
}

/// What a synchronisation knows.
#[verifier::ext_equal]
pub struct SyncView {
    pub state: SyncStateView,
    /// Heights of headers that were seen.
    pub known: Map<Seq<u8>, u32>,
    /// The locator that was sent last, with heights.
    pub locator: Seq<(Seq<u8>, u64)>,
    /// The headers of the peer, by height.
    pub by_height: Map<u64, Seq<u8>>,
    /// The heights of the headers of the peer.
    pub by_hash: Map<Seq<u8>, u32>,
    /// Blocks that came before their turn, by height.
    pub buffer: Map<u64, BlockView>,
    pub queue: DownloadView,
    /// Blocks whose parent is not known, the oldest first.
    pub orphans: Seq<(Seq<u8>, BlockView)>,
    /// When stalled requests were last looked for.
    pub last_recheck: u64,
}

/// What an event leads to.
pub struct Reaction {
    pub sync: SyncView,
    pub sends: Seq<OutgoingView>,
}

/// Asks a peer for headers.
pub open spec fn ask_headers(peer_id: u64, block_locator: Seq<Seq<u8>>) -> OutgoingView {
    OutgoingView {
        peer_id,
        payload: PayloadView::GetHeaders(
            GetHeadersView { version: SYNC_VERSION, block_locator, stop_hash: zero_hash() },
        ),
        required: true,
    }
}

/// Blocks by their hashes.
pub open spec fn block_inventory(hashes: Seq<Seq<u8>>) -> Seq<InvView> {
    Seq::new(hashes.len(), |i: int| InvView { inv_type: INV_BLOCK, hash: hashes[i] })
}

/// Asks a peer for blocks.
pub open spec fn ask_blocks(peer_id: u64, hashes: Seq<Seq<u8>>) -> OutgoingView {
    OutgoingView {
        peer_id,
        payload: PayloadView::GetData(block_inventory(hashes)),
        required: false,
    }
}

/// Tells a peer of a block.
pub open spec fn announce_block(peer_id: u64, hash: Seq<u8>) -> OutgoingView {
    OutgoingView {
        peer_id,
        payload: PayloadView::Inv(block_inventory(seq![hash])),
        required: false,
    }
}

/// The hashes of a locator.
pub open spec fn locator_hashes(entries: Seq<(Seq<u8>, u64)>) -> Seq<Seq<u8>> {
    Seq::new(entries.len(), |i: int| entries[i].0)
}

/// Requests for what waits go out, unless the buffer of blocks is full.
pub open spec fn dispatch(v: SyncView, peers: Seq<u64>, now: u64) -> Reaction {
    if v.buffer.dom().len() >= BLOCK_BUFFER_MAX {
        Reaction { sync: v, sends: Seq::empty() }
    } else {
        let d = drained(v.queue, peers, now);
        Reaction {
            sync: SyncView { queue: d.queue, ..v },
            sends: Seq::new(d.batches.len(), |i: int| ask_blocks(d.batches[i].0, d.batches[i].1)),
        }
    }
}

/// Whether a block is stored.
pub open spec fn has_block(chain: ChainView, hash: Seq<u8>) -> bool {
    block_at(chain.blocks, hash) matches Ok(Some(_))
}

/// Whether a height is the lowest one of the peer whose block is not stored.
pub open spec fn is_first_missing(
    chain: ChainView,
    by_height: Map<u64, Seq<u8>>,
    height: u64,
) -> bool {
    &&& by_height.contains_key(height)
    &&& !has_block(chain, by_height[height])
    &&& forall|k: u64|
        k < height && by_height.contains_key(k) ==> #[trigger] has_block(chain, by_height[k])
}

/// The lowest height of the peer whose block is not stored, or the one behind the
/// total.
pub open spec fn first_missing(
    chain: ChainView,
    by_height: Map<u64, Seq<u8>>,
    total_height: u32,
) -> u64 {
    if exists|h: u64| is_first_missing(chain, by_height, h) {
        choose|h: u64| is_first_missing(chain, by_height, h)
    } else {
        (total_height + 1) as u64
    }
}

/// The way from the first missing block back to one that is stored.
#[verifier::ext_equal]
pub struct Walk {
    pub by_height: Map<u64, Seq<u8>>,
    pub by_hash: Map<Seq<u8>, u32>,
    pub start: u64,
}

/// Goes back from a height as long as the block below is not stored. Hashes of the
/// active chain stand in for headers that the peer did not send.
pub open spec fn walked(chain: ChainView, w: Walk) -> Walk
    decreases w.start,
{
    if w.start == 0 {
        w
    } else {
        let below = (w.start - 1) as u64;
        if w.by_height.contains_key(below) {
            if has_block(chain, w.by_height[below]) {
                w
            } else {
                walked(chain, Walk { start: below, ..w })
            }
        } else {
            match hash_at_height(chain.blocks, below) {
                Ok(Some(hash)) => {
                    let by_height = w.by_height.insert(below, hash);
                    let by_hash = w.by_hash.insert(hash, below as u32);
                    if has_block(chain, hash) {
                        Walk { by_height, by_hash, ..w }
                    } else {
                        walked(chain, Walk { by_height, by_hash, start: below })
                    }
                },
                _ => w,
            }
        }
    }
}

/// The work up to a header, if it can be found within a number of steps.
pub open spec fn header_work(chain: ChainView, hash: Seq<u8>, steps: nat) -> Option<nat>
    decreases steps,
{
    match meta_at(chain.blocks, hash) {
        Err(_) => None,
        Ok(Some(m)) => Some(m.cumulative_work),
        Ok(None) => match header_at(chain.blocks, hash) {
            Ok(Some(h)) => if h.prev_block_hash == zero_hash() {
                Some(h.work() % two_256())
            } else if steps == 0 {
                None
            } else {
                match header_work(chain, h.prev_block_hash, (steps - 1) as nat) {
                    Some(w) => Some((w + h.work()) % two_256()),
                    None => None,
                }
            },
            _ => None,
        },
    }
}

/// The work of the tip that is stored.
pub open spec fn local_work(chain: ChainView) -> nat {
    match tip_at(chain.state) {
        Ok(Some(t)) => t.cumulative_work,
        _ => 0,
    }
}

/// Whether the blocks behind headers are worth having: there are more of them, or
/// they carry more work, or as much and stand beside the active chain.
pub open spec fn should_download(
    start: u64,
    best_height: u32,
    local_height: u32,
    peer_work: Option<nat>,
    work: nat,
    fork_start: Option<u32>,
) -> bool {
    start <= best_height && (local_height < best_height || match peer_work {
        Some(w) => w > work || (w == work && fork_start is Some),
        None => fork_start is Some,
    })
}

/// The hashes of `n` heights from a height on, as far as they are known.
pub open spec fn hashes_from(by_height: Map<u64, Seq<u8>>, start: u64, n: nat) -> Seq<Seq<u8>>
    decreases n,
{
    if n == 0 {
        Seq::empty()
    } else {
        let front = hashes_from(by_height, start, (n - 1) as nat);
        let height = (start + n - 1) as u64;
        if by_height.contains_key(height) {
            front.push(by_height[height])
        } else {
            front
        }
    }
}

/// The download of blocks between two heights begins.
pub open spec fn begin_download(
    v: SyncView,
    peer_id: u64,
    start: u64,
    best_height: u32,
    now: u64,
) -> Reaction {
    let hashes = hashes_from(v.by_height, start, (best_height - start + 1) as nat);
    dispatch(
        SyncView {
            queue: enqueued(v.queue, hashes),
            state: SyncStateView::DownloadingBlocks {
                active_peers: seq![peer_id],
                next_apply_height: start as u32,
                total_height: best_height,
            },
            ..v
        },
        seq![peer_id],
        now,
    )
}

/// The headers of a peer are complete: its blocks are downloaded, or there is
/// nothing to download.
pub open spec fn settle(
    v: SyncView,
    chain: ChainView,
    peer_id: u64,
    best_height: u32,
    fork_start: Option<u32>,
    peer_work: Option<nat>,
    now: u64,
) -> Reaction {
    let w = walked(
        chain,
        Walk {
            by_height: v.by_height,
            by_hash: v.by_hash,
            start: first_missing(chain, v.by_height, best_height),
        },
    );
    let v1 = SyncView { by_height: w.by_height, by_hash: w.by_hash, ..v };
    if should_download(
        w.start,
        best_height,
        tip_height(chain) as u32,
        peer_work,
        local_work(chain),
        fork_start,
    ) {
        begin_download(v1, peer_id, w.start, best_height, now)
    } else {
        Reaction {
            sync: SyncView { state: SyncStateView::Synced, ..v1 },
            sends: Seq::empty(),
        }
    }
}

/// Height and hash of the tip, as far as it is among the recent blocks.
pub open spec fn tip_header(chain: ChainView) -> Option<(u32, Seq<u8>)> {
    match chain.tip {
        Some(t) => match chain.cached(t) {
            Some(d) => Some((d.height as u32, d.block.hash())),
            None => None,
        },
        None => None,
    }
}

/// Height and hash of the tip, or zeros.
pub open spec fn tip_or_zero(chain: ChainView) -> (u32, Seq<u8>) {
    match tip_header(chain) {
        Some(t) => t,
        None => (0, zero_hash()),
    }
}

/// The peer has no further headers.
pub open spec fn no_more_headers(v: SyncView, chain: ChainView, peer_id: u64, now: u64) -> Reaction {
    let (best, fork_start, peer) = match v.state {
        SyncStateView::DownloadingHeaders {
            peer_id: p,
            best_header_height,
            best_header_hash,
            fork_start_height,
        } => ((best_header_height, best_header_hash), fork_start_height, p),
        _ => (
            match best_header_at(chain.state) {
                Ok(Some((hash, height))) => (height as u32, hash),
                _ => (0u32, zero_hash()),
            },
            None,
            peer_id,
        ),
    };
    if v.by_height.dom().len() > 0 && first_missing(chain, v.by_height, best.0) <= best.0 {
        let work = if best.1 == zero_hash() {
            None
        } else {
            header_work(chain, best.1, WORK_STEPS as nat)
        };
        settle(v, chain, peer, best.0, fork_start, work, now)
    } else {
        Reaction {
            sync: SyncView { state: SyncStateView::Synced, ..v },
            sends: Seq::empty(),
        }
    }
}

/// What a batch of headers builds on.
pub open spec fn batch_start(v: SyncView, chain: ChainView) -> BatchView {
    let (best, fork_start) = match v.state {
        SyncStateView::DownloadingHeaders {
            best_header_height,
            best_header_hash,
            fork_start_height,
            ..
        } => ((best_header_height, best_header_hash), fork_start_height),
        _ => (tip_or_zero(chain), None),
    };
    BatchView {
        best_height: best.0,
        best_hash: best.1,
        fork_start,
        fresh: Map::empty(),
        prev: None,
        window: Seq::empty(),
        stored: Seq::empty(),
    }
}

/// What headers are held against.
pub open spec fn sources(v: SyncView, chain: ChainView) -> HeaderSources {
    HeaderSources { chain, locator: v.locator, by_height: v.by_height, known: v.known }
}

/// Files the first `n` headers of a batch.
pub open spec fn filed(v: SyncView, stored: Seq<(BlockHeaderView, u64)>, n: nat) -> SyncView
    decreases n,
{
    if n == 0 {
        v
    } else {
        let before = filed(v, stored, (n - 1) as nat);
        let hash = stored[n - 1].0.hash();
        let height = stored[n - 1].1 as u32;
        SyncView {
            by_height: before.by_height.insert(height as u64, hash),
            by_hash: before.by_hash.insert(hash, height),
            ..before
        }
    }
}

/// Files the header that a batch builds on, where nothing is filed yet.
pub open spec fn anchored(v: SyncView, height: u32, hash: Seq<u8>) -> SyncView {
    SyncView {
        by_height: if v.by_height.contains_key(height as u64) {
            v.by_height
        } else {
            v.by_height.insert(height as u64, hash)
        },
        by_hash: if v.by_hash.contains_key(hash) {
            v.by_hash
        } else {
            v.by_hash.insert(hash, height)
        },
        ..v
    }
}

/// What headers from a peer lead to.
pub struct HeadersOutcome {
    pub sync: SyncView,
    pub chain: ChainView,
    pub sends: Seq<OutgoingView>,
    pub fault: Option<HeaderFault>,
}

/// The chain once a batch of headers is stored.
pub open spec fn with_batch(chain: ChainView, batch: BatchView) -> ChainView {
    ChainView {
        blocks: with_headers(chain.blocks, batch.stored, batch.stored.len()),
        state: with_best_header(chain.state, batch.best_hash, batch.best_height as u64),
        ..chain
    }
}

/// The synchronisation once a batch of headers is filed.
pub open spec fn with_headers_of(
    v: SyncView,
    peer_id: u64,
    first: BlockHeaderView,
    batch: BatchView,
) -> SyncView {
    let f = anchored(
        filed(v, batch.stored, batch.stored.len()),
        (batch.stored[0].1 - 1) as u32,
        first.prev_block_hash,
    );
    SyncView {
        known: v.known.union_prefer_right(batch.fresh),
        state: SyncStateView::DownloadingHeaders {
            peer_id,
            best_header_height: batch.best_height,
            best_header_hash: batch.best_hash,
            fork_start_height: batch.fork_start,
        },
        ..f
    }
}

/// Headers from a peer.
pub open spec fn headers_received(
    v: SyncView,
    chain: ChainView,
    peer_id: u64,
    headers: Seq<BlockHeaderView>,
    pow_hashes: Seq<Seq<u8>>,
    time: u64,
    now: u64,
) -> HeadersOutcome {
    if headers.len() == 0 {
        let r = no_more_headers(v, chain, peer_id, now);
        HeadersOutcome { sync: r.sync, chain, sends: r.sends, fault: None }
    } else {
        let run = read_headers(
            sources(v, chain),
            batch_start(v, chain),
            headers,
            pow_hashes,
            time,
            headers.len(),
        );
        headers_read(v, chain, peer_id, headers, run, now)
    }
}

/// Headers from a peer, once they were read.
pub open spec fn headers_read(
    v: SyncView,
    chain: ChainView,
    peer_id: u64,
    headers: Seq<BlockHeaderView>,
    run: HeaderRun,
    now: u64,
) -> HeadersOutcome {
    match run.fault {
        Some(HeaderFault::HeadersNeeded) => HeadersOutcome {
            sync: SyncView { known: v.known.union_prefer_right(run.batch.fresh), locator: locator(chain), ..v },
            chain,
            sends: seq![ask_headers(peer_id, locator_hashes(locator(chain)))],
            fault: None,
        },
        Some(f) => HeadersOutcome {
            sync: SyncView { known: v.known.union_prefer_right(run.batch.fresh), ..v },
            chain,
            sends: Seq::empty(),
            fault: Some(f),
        },
        None => {
            let c = with_batch(chain, run.batch);
            let v1 = with_headers_of(v, peer_id, headers[0], run.batch);
            let best = (run.batch.best_height, run.batch.best_hash);
            if headers.len() >= HEADERS_PER_MESSAGE {
                HeadersOutcome {
                    sync: v1,
                    chain: c,
                    sends: seq![ask_headers(peer_id, seq![best.1])],
                    fault: None,
                }
            } else {
                let r = settle(
                    v1,
                    c,
                    peer_id,
                    best.0,
                    run.batch.fork_start,
                    header_work(c, best.1, WORK_STEPS as nat),
                    now,
                );
                HeadersOutcome { sync: r.sync, chain: c, sends: r.sends, fault: None }
            }
        },
    }
}

/// Nothing is known of any peer's chain, but for the headers that were seen.
pub open spec fn reset(v: SyncView) -> SyncView {
    SyncView {
        by_height: Map::empty(),
        by_hash: Map::empty(),
        buffer: Map::empty(),
        queue: empty_queue(),
        orphans: Seq::empty(),
        ..v
    }
}

/// Where the headers that are there end: at the best header, if it is above the
/// tip, else at the tip.
pub open spec fn header_start(chain: ChainView) -> (u32, Seq<u8>) {
    let best = match best_header_at(chain.state) {
        Ok(Some((hash, height))) => (height as u32, hash),
        _ => tip_or_zero(chain),
    };
    if best.0 > tip_height(chain) as u32 {
        best
    } else {
        tip_or_zero(chain)
    }
}

/// A synchronisation with a peer begins.
pub open spec fn fresh_sync(v: SyncView, chain: ChainView, peer_id: u64) -> Reaction {
    let start = header_start(chain);
    let ask = seq![ask_headers(peer_id, locator_hashes(locator(chain)))];
    Reaction {
        sync: SyncView {
            locator: locator(chain),
            state: SyncStateView::DownloadingHeaders {
                peer_id,
                best_header_height: start.0,
                best_header_hash: start.1,
                fork_start_height: None,
            },
            ..reset(v)
        },
        sends: match tip_header(chain) {
            Some(t) => ask.push(announce_block(peer_id, t.1)),
            None => ask,
        },
    }
}

/// The peers of a download, with one more.
pub open spec fn joined(active_peers: Seq<u64>, peer_id: u64) -> Seq<u64> {
    if active_peers.contains(peer_id) {
        active_peers
    } else {
        active_peers.push(peer_id)
    }
}

/// A peer is there to synchronise with.
pub open spec fn sync_started(v: SyncView, chain: ChainView, peer_id: u64, now: u64) -> Reaction {
    match v.state {
        SyncStateView::DownloadingHeaders { .. } => Reaction { sync: v, sends: Seq::empty() },
        SyncStateView::DownloadingBlocks { active_peers, next_apply_height, total_height } => {
            let r = dispatch(
                SyncView {
                    state: SyncStateView::DownloadingBlocks {
                        active_peers: joined(active_peers, peer_id),
                        next_apply_height,
                        total_height,
                    },
                    ..v
                },
                seq![peer_id],
                now,
            );
            if r.sync.queue.pending.len() == 0 && r.sync.queue.in_flight.dom() == Set::<
                Seq<u8>,
            >::empty() {
                let f = fresh_sync(r.sync, chain, peer_id);
                Reaction { sync: f.sync, sends: r.sends + f.sends }
            } else {
                r
            }
        },
        _ => fresh_sync(v, chain, peer_id),
    }
}

/// Peers without one of them.
pub open spec fn peers_without(peers: Seq<u64>, peer_id: u64) -> Seq<u64>
    decreases peers.len(),
{
    if peers.len() == 0 {
        peers
    } else if peers.last() == peer_id {
        peers_without(peers.drop_last(), peer_id)
    } else {
        peers_without(peers.drop_last(), peer_id).push(peers.last())
    }
}

/// A peer is gone: others take over what it was to send.
pub open spec fn peer_lost(v: SyncView, peer_id: u64, now: u64) -> Reaction {
    let v1 = SyncView { queue: peer_gone(v.queue, peer_id), ..v };
    match v.state {
        SyncStateView::DownloadingBlocks { active_peers, next_apply_height, total_height } => {
            let left = peers_without(active_peers, peer_id);
            let v2 = SyncView {
                state: SyncStateView::DownloadingBlocks {
                    active_peers: left,
                    next_apply_height,
                    total_height,
                },
                ..v1
            };
            if left.len() > 0 {
                dispatch(v2, left, now)
            } else {
                Reaction { sync: v2, sends: Seq::empty() }
            }
        },
        _ => Reaction { sync: v1, sends: Seq::empty() },
    }
}

/// A look for stalled requests, at most once in an interval.
pub open spec fn stall_checked(v: SyncView, now: u64) -> Reaction {
    if now - v.last_recheck < MIN_RECHECK_INTERVAL {
        Reaction { sync: v, sends: Seq::empty() }
    } else {
        let v1 = SyncView { last_recheck: now, ..v };
        match v.state {
            SyncStateView::DownloadingBlocks { active_peers, .. } => dispatch(
                SyncView { queue: rechecked(v.queue, now), ..v1 },
                active_peers,
                now,
            ),
            _ => Reaction { sync: v1, sends: Seq::empty() },
        }
    }
}

/// Where an orphan with a hash is, or the end.
pub open spec fn orphan_index(orphans: Seq<(Seq<u8>, BlockView)>, hash: Seq<u8>) -> int
    decreases orphans.len(),
{
    if orphans.len() == 0 {
        0
    } else if orphans[0].0 == hash {
        0
    } else {
        1 + orphan_index(orphans.skip(1), hash)
    }
}

/// The orphans with one more. A full pool gives up the oldest first.
pub open spec fn with_orphan(
    orphans: Seq<(Seq<u8>, BlockView)>,
    hash: Seq<u8>,
    block: BlockView,
) -> Seq<(Seq<u8>, BlockView)> {
    let kept = if orphans.len() >= ORPHAN_POOL_MAX {
        orphans.skip(1)
    } else {
        orphans
    };
    let at = orphan_index(kept, hash);
    if at < kept.len() {
        kept.update(at, (hash, block))
    } else {
        kept.push((hash, block))
    }
}

/// The orphans that follow a block.
pub open spec fn children(orphans: Seq<(Seq<u8>, BlockView)>, parent: Seq<u8>) -> Seq<BlockView>
    decreases orphans.len(),
{
    if orphans.len() == 0 {
        Seq::empty()
    } else {
        let front = children(orphans.drop_last(), parent);
        if orphans.last().1.header.prev_block_hash == parent {
            front.push(orphans.last().1)
        } else {
            front
        }
    }
}

/// The orphans that do not follow a block.
pub open spec fn strangers(orphans: Seq<(Seq<u8>, BlockView)>, parent: Seq<u8>) -> Seq<
    (Seq<u8>, BlockView),
>
    decreases orphans.len(),
{
    if orphans.len() == 0 {
        Seq::empty()
    } else {
        let front = strangers(orphans.drop_last(), parent);
        if orphans.last().1.header.prev_block_hash == parent {
            front
        } else {
            front.push(orphans.last())
        }
    }
}

/// What is to be done with a block.
#[verifier::ext_equal]
pub enum Verdict {
    /// It is not one of the peer's headers.
    Untracked,
    /// It waits for its turn, or is of no use.
    Handled,
    /// It is the next one of the chain.
    Apply { height: u32, total_height: u32, active_peers: Seq<u64> },
}

/// What the arrival of a block leads to.
pub struct Arrival {
    pub sync: SyncView,
    pub sends: Seq<OutgoingView>,
    pub verdict: Verdict,
}

/// A hash of the peer is requested once more.
pub open spec fn requested_again(v: SyncView, height: u64) -> SyncView {
    if v.by_height.contains_key(height) {
        SyncView { queue: requeued(v.queue, v.by_height[height]), ..v }
    } else {
        v
    }
}

/// A block is not the next one: what waits is requested.
pub open spec fn set_aside(v: SyncView, active_peers: Seq<u64>, now: u64) -> Arrival {
    let r = dispatch(v, active_peers, now);
    Arrival { sync: r.sync, sends: r.sends, verdict: Verdict::Handled }
}

/// Whether the block of a height is the one that the headers of the peer name, and
/// follows the one before.
pub open spec fn fits(v: SyncView, block: BlockView, height: u32) -> bool {
    &&& v.by_height.contains_key(height as u64)
    &&& v.by_height[height as u64] == block.hash()
    &&& height > 0 && v.by_height.contains_key((height - 1) as u64)
        ==> v.by_height[(height - 1) as u64] == block.header.prev_block_hash
}

/// A block of the peer arrives.
pub open spec fn block_arrived(v: SyncView, block: BlockView, now: u64) -> Arrival {
    let hash = block.hash();
    if !v.by_hash.contains_key(hash) {
        Arrival { sync: v, sends: Seq::empty(), verdict: Verdict::Untracked }
    } else {
        let height = v.by_hash[hash];
        let v1 = SyncView { queue: released(v.queue, hash), ..v };
        let v2 = SyncView { buffer: v1.buffer.insert(height as u64, block), ..v1 };
        match v.state {
            SyncStateView::DownloadingBlocks { active_peers, next_apply_height, total_height } => {
                if height < next_apply_height {
                    Arrival { sync: v1, sends: Seq::empty(), verdict: Verdict::Handled }
                } else if height > next_apply_height {
                    if v2.buffer.dom().len() >= DOWNLOAD_WINDOW {
                        set_aside(
                            requested_again(v2, next_apply_height as u64),
                            active_peers,
                            now,
                        )
                    } else {
                        set_aside(v2, active_peers, now)
                    }
                } else if !fits(v1, block, height) {
                    set_aside(requested_again(v1, height as u64), active_peers, now)
                } else {
                    Arrival {
                        sync: v1,
                        sends: Seq::empty(),
                        verdict: Verdict::Apply { height, total_height, active_peers },
                    }
                }
            },
            _ => Arrival { sync: v2, sends: Seq::empty(), verdict: Verdict::Handled },
        }
    }
}

/// Blocks that are added to the chain one after the other.
#[verifier::ext_equal]
pub struct RunView {
    /// The next block of the chain.
    pub current: Option<BlockView>,
    /// Orphans that follow the block that was added last.
    pub orphans: Seq<BlockView>,
    /// The height of the next block.
    pub height: u64,
    pub total_height: u32,
    pub active_peers: Seq<u64>,
    /// What was added, with its height.
    pub applied: Seq<(BlockView, u32)>,
    /// Transactions of blocks that are no longer in the chain.
    pub requeued: Seq<TransactionView>,
}

/// The blocks to add, once a block is the next one.
pub open spec fn run_from(
    block: BlockView,
    height: u32,
    total_height: u32,
    active_peers: Seq<u64>,
) -> RunView {
    RunView {
        current: Some(block),
        orphans: Seq::empty(),
        height: height as u64,
        total_height,
        active_peers,
        applied: Seq::empty(),
        requeued: Seq::empty(),
    }
}

impl RunView {
    /// The block to add next.
    pub open spec fn next_block(self) -> Option<BlockView> {
        if self.orphans.len() > 0 {
            Some(self.orphans[0])
        } else {
            self.current
        }
    }
}

/// What adding a block leads to.
pub struct Progress {
    pub sync: SyncView,
    pub run: RunView,
    pub chain: ChainView,
    pub sends: Seq<OutgoingView>,
}

/// A block of the peer is in the chain, with its orphans: the next one is taken from
/// the buffer.
pub open spec fn advanced(v: SyncView, run: RunView, chain: ChainView, now: u64) -> Progress {
    if run.height > run.total_height {
        Progress {
            sync: SyncView { state: SyncStateView::Synced, ..v },
            run,
            chain,
            sends: Seq::empty(),
        }
    } else {
        let r = dispatch(
            SyncView {
                state: SyncStateView::DownloadingBlocks {
                    active_peers: run.active_peers,
                    next_apply_height: run.height as u32,
                    total_height: run.total_height,
                },
                ..v
            },
            run.active_peers,
            now,
        );
        let v1 = r.sync;
        let current = if v1.buffer.contains_key(run.height) && v1.by_height.contains_key(run.height)
            && v1.by_height[run.height] == v1.buffer[run.height].hash() {
            Some(v1.buffer[run.height])
        } else {
            None
        };
        Progress {
            sync: SyncView { buffer: v1.buffer.remove(run.height), ..v1 },
            run: RunView { current, ..run },
            chain,
            sends: r.sends,
        }
    }
}

/// An orphan was added to the chain, with this outcome.
pub open spec fn orphan_done(
    v: SyncView,
    run: RunView,
    o: Outcome<Seq<TransactionView>>,
    now: u64,
) -> Progress {
    let run1 = RunView {
        orphans: run.orphans.skip(1),
        requeued: match o.result {
            Ok(txs) => run.requeued + txs,
            Err(_) => run.requeued,
        },
        ..run
    };
    if run1.orphans.len() == 0 {
        advanced(v, run1, o.chain, now)
    } else {
        Progress { sync: v, run: run1, chain: o.chain, sends: Seq::empty() }
    }
}

/// The next block of the peer was added to the chain, with this outcome.
pub open spec fn current_done(
    v: SyncView,
    run: RunView,
    block: BlockView,
    o: Outcome<Seq<TransactionView>>,
    now: u64,
) -> Progress {
    match o.result {
        Err(_) => Progress {
            sync: v,
            run: RunView { current: None, ..run },
            chain: o.chain,
            sends: Seq::empty(),
        },
        Ok(txs) => {
            let run1 = RunView {
                current: None,
                orphans: children(v.orphans, block.hash()),
                height: (run.height + 1) as u64,
                applied: run.applied.push((block, run.height as u32)),
                requeued: run.requeued + txs,
                ..run
            };
            let v1 = SyncView { orphans: strangers(v.orphans, block.hash()), ..v };
            if run1.orphans.len() == 0 {
                advanced(v1, run1, o.chain, now)
            } else {
                Progress { sync: v1, run: run1, chain: o.chain, sends: Seq::empty() }
            }
        },
    }
}

/// The next block is added to the chain.
pub open spec fn block_added(
    v: SyncView,
    run: RunView,
    chain: ChainView,
    pow_hash: Seq<u8>,
    time: u64,
    now: u64,
) -> Progress {
    if run.orphans.len() > 0 {
        orphan_done(v, run, add_block(chain, run.orphans[0], pow_hash, time), now)
    } else {
        match run.current {
            None => Progress { sync: v, run, chain, sends: Seq::empty() },
            Some(block) => current_done(
                v,
                run,
                block,
                add_block(chain, block, pow_hash, time),
                now,
            ),
        }
    }
}

/// Headers of the active chain from a height on, up to a number, a hash or the end.
pub open spec fn headers_up_to(
    chain: ChainView,
    height: int,
    stop_hash: Seq<u8>,
    n: nat,
) -> Seq<BlockHeaderView>
    decreases n,
{
    if n == 0 || height > u64::MAX {
        Seq::empty()
    } else {
        match hash_at_height(chain.blocks, height as u64) {
            Ok(Some(hash)) => match header_at(chain.blocks, hash) {
                Ok(Some(h)) => if stop_hash != zero_hash() && hash == stop_hash {
                    seq![h]
                } else {
                    seq![h] + headers_up_to(chain, height + 1, stop_hash, (n - 1) as nat)
                },
                _ => Seq::empty(),
            },
            _ => Seq::empty(),
        }
    }
}

/// The height of a block that is known: by the recent blocks, else as stored.
pub open spec fn known_height(chain: ChainView, hash: Seq<u8>) -> Option<u64> {
    match chain.cached(hash) {
        Some(d) => Some(d.height),
        None => match meta_at(chain.blocks, hash) {
            Ok(Some(m)) => Some(m.height),
            _ => None,
        },
    }
}

/// Whether a hash is one of the active chain; if so, its height.
pub open spec fn active_height(chain: ChainView, hash: Seq<u8>) -> Option<u64> {
    match known_height(chain, hash) {
        Some(h) => match hash_at_height(chain.blocks, h) {
            Ok(Some(a)) => if a == hash {
                Some(h)
            } else {
                None
            },
            _ => None,
        },
        None => None,
    }
}

/// The height behind the first entry of a locator that is in the active chain, or
/// zero.
pub open spec fn height_behind(chain: ChainView, locator: Seq<Seq<u8>>) -> int
    decreases locator.len(),
{
    if locator.len() == 0 {
        0
    } else {
        match active_height(chain, locator[0]) {
            Some(h) => h + 1,
            None => height_behind(chain, locator.skip(1)),
        }
    }
}

/// The headers that a request is answered with.
pub open spec fn headers_for(chain: ChainView, request: GetHeadersView) -> Seq<BlockHeaderView> {
    headers_up_to(
        chain,
        height_behind(chain, request.block_locator),
        request.stop_hash,
        HEADERS_PER_MESSAGE as nat,
    )
}

/// Headers that are at fault, or that need others before them, leave the chain as it
/// is and nothing is downloaded for them.
pub proof fn lemma_faulty_headers_change_little(
    v: SyncView,
    chain: ChainView,
    peer_id: u64,
    headers: Seq<BlockHeaderView>,
    pow_hashes: Seq<Seq<u8>>,
    time: u64,
    now: u64,
)
    requires
        headers.len() > 0,
        read_headers(
            sources(v, chain),
            batch_start(v, chain),
            headers,
            pow_hashes,
            time,
            headers.len(),
        ).fault is Some,
    ensures
        ({
            let r = headers_received(v, chain, peer_id, headers, pow_hashes, time, now);
            &&& r.chain == chain
            &&& r.sync.state == v.state
            &&& r.sync.queue == v.queue
            &&& r.sync.by_height == v.by_height
            &&& r.sync.by_hash == v.by_hash
            &&& r.sync.buffer == v.buffer
        }),
{
}

/// A download starts right behind a block that is stored, at the first block, or
/// where nothing is known of the height below.
pub proof fn lemma_walked(chain: ChainView, w: Walk)
    ensures
        ({
            let r = walked(chain, w);
            &&& r.start <= w.start
            &&& r.start == 0 || (if r.by_height.contains_key((r.start - 1) as u64) {
                has_block(chain, r.by_height[(r.start - 1) as u64])
            } else {
                !(hash_at_height(chain.blocks, (r.start - 1) as u64) matches Ok(Some(_)))
            })
        }),
    decreases w.start,
{
    if w.start > 0 {
        let below = (w.start - 1) as u64;
        if w.by_height.contains_key(below) {
            if !has_block(chain, w.by_height[below]) {
                lemma_walked(chain, Walk { start: below, ..w });
            }
        } else {
            match hash_at_height(chain.blocks, below) {
                Ok(Some(hash)) => {
                    if !has_block(chain, hash) {
                        lemma_walked(
                            chain,
                            Walk {
                                by_height: w.by_height.insert(below, hash),
                                by_hash: w.by_hash.insert(hash, below as u32),
                                start: below,
                            },
                        );
                    }
                },
                _ => {},
            }
        }
    }
}

/// The blocks of a run stand at heights that follow each other.
pub open spec fn in_sequence(run: RunView, first: u32) -> bool {
    &&& run.height == first + run.applied.len()
    &&& forall|i: int| 0 <= i < run.applied.len() ==> (#[trigger] run.applied[i]).1 == first + i
    &&& run.height <= run.total_height + 1
    &&& run.current is Some ==> run.height <= run.total_height
}

/// Blocks are added in the order of their heights, none left out, and none above
/// the total.
pub proof fn lemma_blocks_in_sequence(
    v: SyncView,
    run: RunView,
    chain: ChainView,
    pow_hash: Seq<u8>,
    time: u64,
    now: u64,
    first: u32,
)
    requires
        in_sequence(run, first),
    ensures
        in_sequence(block_added(v, run, chain, pow_hash, time, now).run, first),
{
    let r = block_added(v, run, chain, pow_hash, time, now).run;
    if run.orphans.len() == 0 && run.current is Some {
        assert forall|i: int| 0 <= i < r.applied.len() implies (#[trigger] r.applied[i]).1 == first
            + i by {
            if i < run.applied.len() {
                assert(r.applied[i] == run.applied[i]);
            }
        }
    }
}

/// A synchronisation that downloads blocks is done only once the block at its total
/// height is in the chain.
pub proof fn lemma_synced_at_total(
    v: SyncView,
    run: RunView,
    chain: ChainView,
    pow_hash: Seq<u8>,
    time: u64,
    now: u64,
    first: u32,
)
    requires
        in_sequence(run, first),
        v.state is DownloadingBlocks,
        block_added(v, run, chain, pow_hash, time, now).sync.state is Synced,
    ensures
        ({
            let r = block_added(v, run, chain, pow_hash, time, now).run;
            &&& r.applied.len() == run.total_height - first + 1
            &&& r.next_block() is None
        }),
{
    lemma_blocks_in_sequence(v, run, chain, pow_hash, time, now, first);
}

/// Whether a header is the one of the active chain at a height.
pub open spec fn stands_at(chain: ChainView, height: int, header: BlockHeaderView) -> bool {
    &&& 0 <= height <= u64::MAX
    &&& hash_at_height(chain.blocks, height as u64) matches Ok(Some(hash))
    &&& header_at(chain.blocks, hash) == Lookup::<BlockHeaderView>::Ok(Some(header))
}

/// A request for headers is answered with headers of the active chain, one height
/// after the other, and no more than a message holds.
pub proof fn lemma_headers_up_to(chain: ChainView, height: int, stop_hash: Seq<u8>, n: nat)
    requires
        height >= 0,
    ensures
        headers_up_to(chain, height, stop_hash, n).len() <= n,
        forall|i: int|
            0 <= i < headers_up_to(chain, height, stop_hash, n).len() ==> stands_at(
                chain,
                height + i,
                #[trigger] headers_up_to(chain, height, stop_hash, n)[i],
            ),
    decreases n,
{
    let r = headers_up_to(chain, height, stop_hash, n);
    if n > 0 && height <= u64::MAX {
        lemma_headers_up_to(chain, height + 1, stop_hash, (n - 1) as nat);
        let rest = headers_up_to(chain, height + 1, stop_hash, (n - 1) as nat);
        assert forall|i: int| 0 <= i < r.len() implies stands_at(
            chain,
            height + i,
            #[trigger] r[i],
        ) by {
            if i > 0 {
                assert(r[i] == rest[i - 1]);
            }
        }
    }
}

} // verus!
