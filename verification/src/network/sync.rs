//! Synchronises the chain with those of peers: headers first, then the blocks that
//! are missing, from several peers at once.

use crate::collections::byte_map::ByteMap;
use crate::collections::id_map::IdMap;
use crate::consensus::block::{Block, BlockHeader, BlockHeaderView};
use crate::consensus::chain::{gives, ChainError, ChainState};
use crate::consensus::chain_model::{add_block, locator, ChainView, Outcome};
use crate::consensus::merkle::zero_hash;
use crate::consensus::restart::{
    entries_agree, header_agrees, headers_agree, lasting, lemma_filed_with_headers,
    lemma_lasting_with_blocks,
};
use crate::consensus::soundness::{endures, lemma_sound_with_blocks, sound};
use crate::consensus::transaction::{Transaction, TransactionView};
use crate::consensus::u256::{two_256, U256};
use crate::network::download::{
    batch_views, lemma_drained, lemma_empty_queue, lemma_enqueued, lemma_peer_gone,
    lemma_rechecked, lemma_released, lemma_requeued, requeued, BlockDownloadQueue, DOWNLOAD_WINDOW,
};
use crate::network::headers::{place_headers, tip_height, HeaderBatch, HeaderFault, Sources};
use crate::network::outgoing::{Outgoing, OutgoingView};
use crate::network::protocol::{
    GetDataMessage, GetHeadersMessage, HeadersMessage, InvMessage, InvVector, MessagePayload,
    PayloadView, INV_BLOCK,
};
use crate::network::sync_model::{
    advanced, anchored, announce_block, ask_blocks, ask_headers, batch_start, begin_download,
    block_added, block_arrived, block_inventory, children, current_done, dispatch, filed,
    first_missing, fits, fresh_sync, has_block, hashes_from, header_start, header_work,
    headers_for, headers_read, headers_received, headers_up_to, height_behind, is_first_missing,
    known_height, local_work, locator_hashes, no_more_headers, orphan_done, orphan_index,
    peer_lost, peers_without, requested_again, reset, run_from, settle, sources, stall_checked,
    strangers, sync_started, tip_header, tip_or_zero, walked, with_batch, with_headers_of,
    with_orphan, Reaction, RunView, SyncStateView, SyncView, Verdict, Walk, BLOCK_BUFFER_MAX,
    HEADERS_PER_MESSAGE, MIN_RECHECK_INTERVAL, ORPHAN_POOL_MAX, SYNC_VERSION, WORK_STEPS,
};
use crate::primitives::bytes::bytes_equal;
use crate::primitives::hash::Hash256;
use crate::primitives::serialize::views;
use crate::storage::chain_state::lemma_best_header_reads_back;
use vstd::prelude::*;
use vstd::slice::slice_to_vec;

verus! {

/// How far a synchronisation is.
#[derive(Debug, PartialEq)]
pub enum SyncState {
    Idle,
    DownloadingHeaders {
        peer_id: u64,
        best_header_height: u32,
        best_header_hash: [u8; 32],
        fork_start_height: Option<u32>,
    },
    DownloadingBlocks {
        /// All peers currently participating in the download.
        active_peers: Vec<u64>,
        /// Next block height we must apply before advancing.
        next_apply_height: u32,
        /// Highest block height in the peer's chain (sync target).
        total_height: u32,
    },
    Synced,
}

impl View for SyncState {
    type V = SyncStateView;

    open spec fn view(&self) -> SyncStateView {
        match self {
            SyncState::Idle => SyncStateView::Idle,
            SyncState::DownloadingHeaders {
                peer_id,
                best_header_height,
                best_header_hash,
                fork_start_height,
            } => SyncStateView::DownloadingHeaders {
                peer_id: *peer_id,
                best_header_height: *best_header_height,
                best_header_hash: best_header_hash@,
                fork_start_height: *fork_start_height,
            },
            SyncState::DownloadingBlocks { active_peers, next_apply_height, total_height } =>
                SyncStateView::DownloadingBlocks {
                active_peers: active_peers@,
                next_apply_height: *next_apply_height,
                total_height: *total_height,
            },
            SyncState::Synced => SyncStateView::Synced,
        }
    }
}

/// A synchronisation with peers.
pub struct SyncManager {
    sync_state: SyncState,
    header_height_map: ByteMap<u32>,
    last_locator: Vec<(Hash256, u64)>,
    /// Peer's header chain from the current sync session: height to hash.
    peer_header_map: IdMap<Hash256>,
    /// Reverse of peer_header_map: hash to height.
    peer_hash_to_height: ByteMap<u32>,
    /// Blocks received out-of-order, waiting for their predecessor to be applied.
    block_buffer: IdMap<Block>,
    /// Work-stealing parallel download queue.
    download_queue: BlockDownloadQueue,
    /// Orphan blocks whose parent is not yet known.
    orphan_pool: Vec<(Hash256, Block)>,
    /// Time of the last look for stalled requests, in nanoseconds.
    last_recheck: u64,
}

impl View for SyncManager {
    type V = SyncView;

    closed spec fn view(&self) -> SyncView {
        SyncView {
            state: self.sync_state@,
            known: self.header_height_map@,
            locator: views(self.last_locator@),
            by_height: self.peer_header_map@,
            by_hash: self.peer_hash_to_height@,
            buffer: self.block_buffer@,
            queue: self.download_queue@,
            orphans: views(self.orphan_pool@),
            last_recheck: self.last_recheck,
        }
    }
}

/// What is to be done with a block that arrived.
pub enum Receipt {
    /// It belongs to no synchronisation; here it is back.
    Untracked(Block),
    /// It waits for its turn, or is of no use.
    Handled,
    /// It and what follows it are to be added to the chain.
    Apply(ApplyRun),
}

/// Blocks that are added to the chain one after the other.
pub struct ApplyRun {
    pub current: Option<Block>,
    pub orphans: Vec<Block>,
    pub height: u64,
    pub total_height: u32,
    pub active_peers: Vec<u64>,
    pub applied: Vec<(Block, u32)>,
    pub requeued: Vec<Transaction>,
}

impl View for ApplyRun {
    type V = RunView;

    open spec fn view(&self) -> RunView {
        RunView {
            current: match self.current {
                Some(b) => Some(b@),
                None => None,
            },
            orphans: views(self.orphans@),
            height: self.height,
            total_height: self.total_height,
            active_peers: self.active_peers@,
            applied: views(self.applied@),
            requeued: views(self.requeued@),
        }
    }
}

impl ApplyRun {
    /// The block that is to be hashed and added next.
    pub fn next_block(&self) -> (r: Option<&Block>)
        ensures
            match r {
                Some(b) => self@.next_block() == Some(b@),
                None => self@.next_block() is None,
            },
    {
        if self.orphans.len() > 0 {
            assert(self@.orphans[0] == self.orphans@[0]@);
            Some(&self.orphans[0])
        } else {
            self.current.as_ref()
        }
    }
}

fn headers_request(peer_id: u64, block_locator: Vec<Hash256>) -> (r: Outgoing)
    ensures
        r@ == ask_headers(peer_id, views(block_locator@)),
{
    let stop_hash: [u8; 32] = [0u8; 32];
    assert(stop_hash@ =~= zero_hash());
    Outgoing {
        peer_id,
        payload: MessagePayload::GetHeaders(
            GetHeadersMessage { version: SYNC_VERSION, block_locator, stop_hash },
        ),
        required: true,
    }
}

fn inventory_of(hashes: &Vec<Hash256>) -> (r: Vec<InvVector>)
    ensures
        views(r@) == block_inventory(views(hashes@)),
{
    let mut out: Vec<InvVector> = Vec::new();
    let mut i: usize = 0;
    while i < hashes.len()
        invariant
            i <= hashes@.len(),
            out.len() == i,
            forall|j: int|
                0 <= j < i ==> (#[trigger] out@[j]).inv_type == INV_BLOCK && out@[j].hash
                    == hashes@[j],
        decreases hashes@.len() - i,
    {
        out.push(InvVector { inv_type: INV_BLOCK, hash: hashes[i] });
        i += 1;
    }
    assert(views(out@) =~= block_inventory(views(hashes@)));
    out
}

fn hashes_of(entries: &Vec<(Hash256, u64)>) -> (r: Vec<Hash256>)
    ensures
        views(r@) == locator_hashes(views(entries@)),
{
    let mut out: Vec<Hash256> = Vec::new();
    let mut i: usize = 0;
    while i < entries.len()
        invariant
            i <= entries@.len(),
            out.len() == i,
            forall|j: int| 0 <= j < i ==> (#[trigger] out@[j]) == entries@[j].0,
        decreases entries@.len() - i,
    {
        out.push(entries[i].0);
        i += 1;
    }
    assert(views(out@) =~= locator_hashes(views(entries@)));
    out
}

fn is_zero(hash: &Hash256) -> (r: bool)
    ensures
        r == (hash@ == zero_hash()),
{
    let zeros: [u8; 32] = [0u8; 32];
    assert(zeros@ =~= zero_hash());
    bytes_equal(hash, &zeros)
}

/// Height and hash of the tip of a chain.
fn tip_of(chain: &ChainState) -> (r: Option<(u32, Hash256)>)
    ensures
        match r {
            Some(t) => tip_header(chain@) == Some((t.0, t.1@)),
            None => tip_header(chain@) is None,
        },
{
    match chain.get_tip() {
        Ok(Some(d)) => Some((d.height as u32, d.block.header.hash())),
        _ => None,
    }
}

fn tip_pair(chain: &ChainState) -> (r: (u32, Hash256))
    ensures
        (r.0, r.1@) == tip_or_zero(chain@),
{
    match tip_of(chain) {
        Some(t) => t,
        None => {
            let zeros: [u8; 32] = [0u8; 32];
            assert(zeros@ =~= zero_hash());
            (0, zeros)
        },
    }
}

fn block_stored(chain: &ChainState, hash: &Hash256) -> (r: bool)
    ensures
        r == has_block(chain@, hash@),
{
    match chain.block_store.get_block(hash) {
        Ok(Some(_)) => true,
        _ => false,
    }
}

/// The work of the tip that is stored.
fn stored_work(chain: &ChainState) -> (r: U256)
    ensures
        r@ == local_work(chain@),
{
    match chain.state_store.get_tip() {
        Ok(Some(t)) => t.cumulative_work,
        _ => U256::zero(),
    }
}

/// Adds work to a sum, the last first.
spec fn summed(base: Option<nat>, works: Seq<nat>) -> Option<nat>
    decreases works.len(),
{
    if works.len() == 0 {
        base
    } else {
        summed(
            match base {
                Some(w) => Some((w + works.last()) % two_256()),
                None => None,
            },
            works.drop_last(),
        )
    }
}

fn sum_works(base: U256, works: &Vec<U256>) -> (r: U256)
    ensures
        summed(Some(base@), views(works@)) == Some(r@),
{
    let mut total = base;
    let mut i: usize = works.len();
    let ghost all = views(works@);
    assert(all.take(i as int) =~= all);
    while i > 0
        invariant
            i <= works@.len(),
            all == views(works@),
            summed(Some(base@), all) == summed(Some(total@), all.take(i as int)),
        decreases i,
    {
        i -= 1;
        proof {
            let part = all.take(i + 1);
            assert(part.last() == works@[i as int]@);
            assert(part.drop_last() =~= all.take(i as int));
        }
        total = total.wrapping_sum(&works[i]);
    }
    total
}

proof fn lemma_summed_none(works: Seq<nat>)
    ensures
        summed(None, works) is None,
    decreases works.len(),
{
    if works.len() > 0 {
        lemma_summed_none(works.drop_last());
    }
}

/// The work up to a header.
fn compute_cumulative_work_for_tip(chain: &ChainState, tip_hash: &Hash256) -> (r: Option<U256>)
    ensures
        match r {
            Some(w) => header_work(chain@, tip_hash@, WORK_STEPS as nat) == Some(w@),
            None => header_work(chain@, tip_hash@, WORK_STEPS as nat) is None,
        },
{
    let mut cursor: Hash256 = *tip_hash;
    let mut works: Vec<U256> = Vec::new();
    let mut steps: u64 = WORK_STEPS;
    let ghost whole = header_work(chain@, tip_hash@, WORK_STEPS as nat);
    loop
        invariant
            whole == header_work(chain@, tip_hash@, WORK_STEPS as nat),
            whole == summed(header_work(chain@, cursor@, steps as nat), views(works@)),
        decreases steps,
    {
        proof {
            lemma_summed_none(views(works@));
        }
        match chain.block_store.get_block_meta(&cursor) {
            Err(_) => return None,
            Ok(Some(meta)) => return Some(sum_works(meta.cumulative_work, &works)),
            Ok(None) => {},
        }
        let header = match chain.block_store.get_header(&cursor) {
            Ok(Some(h)) => h,
            _ => return None,
        };
        let ghost before = works@;
        works.push(header.work());
        proof {
            assert(views(works@).last() == header@.work());
            assert(views(works@).drop_last() =~= views(before));
        }
        if is_zero(&header.prev_block_hash) {
            return Some(sum_works(U256::zero(), &works));
        }
        if steps == 0 {
            return None;
        }
        proof {
            lemma_summed_none(views(works@));
        }
        cursor = header.prev_block_hash;
        steps -= 1;
    }
}

/// Answers a request for headers.
pub fn collect_headers(chain: &ChainState, msg: &GetHeadersMessage) -> (r: Vec<BlockHeader>)
    ensures
        views(r@) == headers_for(chain@, msg@),
{
    let mut start: Option<u64> = Some(0);
    let mut i: usize = 0;
    let ghost entries = views(msg.block_locator@);
    let ghost from = height_behind(chain@, entries);
    assert(entries.skip(0) =~= entries);
    let mut searching: bool = true;
    while searching && i < msg.block_locator.len()
        invariant
            i <= msg.block_locator@.len(),
            entries == views(msg.block_locator@),
            from == height_behind(chain@, entries),
            searching ==> from == height_behind(chain@, entries.skip(i as int)) && start == Some(
                0u64,
            ),
            !searching ==> match start {
                Some(h) => from == h,
                None => from > u64::MAX,
            },
        decreases msg.block_locator@.len() - i,
    {
        let hash = msg.block_locator[i];
        proof {
            let rest = entries.skip(i as int);
            assert(rest[0] == hash@);
            assert(rest.skip(1) =~= entries.skip(i + 1));
        }
        let height = match chain.get_height_for_hash(&hash) {
            Some(h) => Some(h),
            None => match chain.block_store.get_block_meta(&hash) {
                Ok(Some(m)) => Some(m.height),
                _ => None,
            },
        };
        assert(height == known_height(chain@, hash@));
        if let Some(h) = height {
            if let Ok(Some(canonical)) = chain.block_store.get_hash_by_height(h) {
                if bytes_equal(&canonical, &hash) {
                    start = h.checked_add(1);
                    searching = false;
                }
            }
        }
        i += 1;
    }
    assert(searching ==> entries.skip(i as int) =~= Seq::<Seq<u8>>::empty());
    let mut headers: Vec<BlockHeader> = Vec::new();
    let mut next: Option<u64> = start;
    let ghost whole = headers_for(chain@, msg@);
    let ghost mut at: int = from;
    assert(views(headers@) + whole =~= whole);
    while headers.len() < HEADERS_PER_MESSAGE
        invariant_except_break
            whole == views(headers@) + headers_up_to(
                chain@,
                at,
                msg@.stop_hash,
                (HEADERS_PER_MESSAGE - headers@.len()) as nat,
            ),
            match next {
                Some(h) => at == h,
                None => at > u64::MAX,
            },
        invariant
            headers@.len() <= HEADERS_PER_MESSAGE,
        ensures
            whole == views(headers@),
        decreases HEADERS_PER_MESSAGE - headers@.len(),
    {
        let ghost done = views(headers@);
        let ghost left = (HEADERS_PER_MESSAGE - headers@.len()) as nat;
        assert(done + Seq::<BlockHeaderView>::empty() =~= done);
        let height: u64 = match next {
            Some(h) => h,
            None => {
                break;
            },
        };
        let hash = match chain.block_store.get_hash_by_height(height) {
            Ok(Some(h)) => h,
            _ => {
                break;
            },
        };
        let header = match chain.block_store.get_header(&hash) {
            Ok(Some(h)) => h,
            _ => {
                break;
            },
        };
        headers.push(header);
        assert(views(headers@) =~= done.push(header@));
        proof {
            let rest = headers_up_to(chain@, at + 1, msg@.stop_hash, (left - 1) as nat);
            assert(done + (seq![header@] + rest) =~= views(headers@) + rest);
            assert(done + seq![header@] =~= views(headers@));
        }
        if !is_zero(&msg.stop_hash) && bytes_equal(&hash, &msg.stop_hash) {
            break;
        }
        next = height.checked_add(1);
        proof {
            at = at + 1;
        }
        assert(headers@.len() == HEADERS_PER_MESSAGE ==> views(headers@) + Seq::<
            BlockHeaderView,
        >::empty() =~= views(headers@));
    }
    headers
}

/// The result of an operation is the state and the messages that the model says.
pub open spec fn does(sync: SyncView, sends: Seq<Outgoing>, want: Reaction) -> bool {
    &&& sync == want.sync
    &&& views(sends) == want.sends
}

fn append(out: &mut Vec<Outgoing>, more: Vec<Outgoing>)
    ensures
        views(final(out)@) == views(old(out)@) + views(more@),
{
    let ghost before = out@;
    let ghost added = more@;
    let mut more = more;
    out.append(&mut more);
    assert(views(out@) =~= views(before) + views(added));
}

fn one(message: Outgoing) -> (r: Vec<Outgoing>)
    ensures
        views(r@) == seq![message@],
{
    let mut r: Vec<Outgoing> = Vec::new();
    let ghost m = message@;
    r.push(message);
    assert(views(r@) =~= seq![m]);
    r
}

impl SyncManager {
    /// The queue of blocks is consistent.
    pub open spec fn valid(self) -> bool {
        self@.queue.consistent()
    }

    /// A synchronisation that has not begun.
    pub fn new(now: u64) -> (r: Self)
        ensures
            r@ == (SyncView {
                state: SyncStateView::Idle,
                known: Map::empty(),
                locator: Seq::empty(),
                last_recheck: now,
                ..reset(r@)
            }),
            r.valid(),
    {
        proof {
            lemma_empty_queue();
        }
        let r = SyncManager {
            sync_state: SyncState::Idle,
            header_height_map: ByteMap::with_buckets(16384),
            last_locator: Vec::new(),
            peer_header_map: IdMap::new(),
            peer_hash_to_height: ByteMap::with_buckets(16384),
            block_buffer: IdMap::new(),
            download_queue: BlockDownloadQueue::new(),
            orphan_pool: Vec::new(),
            last_recheck: now,
        };
        assert(r@.locator =~= Seq::empty());
        assert(r@.orphans =~= Seq::empty());
        r
    }

    /// How far the synchronisation is.
    pub fn state(&self) -> (r: &SyncState)
        ensures
            r@ == self@.state,
    {
        &self.sync_state
    }

    pub fn get_local_height(chain: &ChainState) -> (height: u32)
        ensures
            height == tip_height(chain@) as u32,
    {
        chain.get_height() as u32
    }

    pub fn is_syncing(&self) -> (r: bool)
        ensures
            r == (self@.state is DownloadingBlocks || self@.state is DownloadingHeaders),
    {
        match &self.sync_state {
            SyncState::DownloadingBlocks { .. } => true,
            SyncState::DownloadingHeaders { .. } => true,
            _ => false,
        }
    }

    /// Distribute pending download queue to the given peer list and ask for the
    /// blocks. If the apply buffer is at capacity, dispatch is skipped
    /// (backpressure) so in-flight blocks do not pile up ahead of the sequential
    /// apply loop.
    fn drain_to_peers_and_send(&mut self, peers: &Vec<u64>, now: u64) -> (sends: Vec<Outgoing>)
        requires
            old(self).valid(),
        ensures
            does(final(self)@, sends@, dispatch(old(self)@, peers@, now)),
            final(self).valid(),
    {
        let ghost before = self@;
        let mut sends: Vec<Outgoing> = Vec::new();
        if self.block_buffer.len() >= BLOCK_BUFFER_MAX {
            assert(views(sends@) =~= Seq::empty());
            return sends;
        }
        let batches = self.download_queue.drain_to_peers(peers, now);
        proof {
            lemma_drained(before.queue, peers@, now);
        }
        let mut i: usize = 0;
        while i < batches.len()
            invariant
                i <= batches@.len(),
                sends.len() == i,
                forall|j: int|
                    0 <= j < i ==> (#[trigger] sends@[j])@ == ask_blocks(
                        batches@[j].0,
                        views(batches@[j].1@),
                    ),
            decreases batches@.len() - i,
        {
            let inventory = inventory_of(&batches[i].1);
            sends.push(
                Outgoing {
                    peer_id: batches[i].0,
                    payload: MessagePayload::GetData(GetDataMessage { inventory }),
                    required: false,
                },
            );
            i += 1;
        }
        proof {
            let want = dispatch(before, peers@, now);
            assert forall|j: int| 0 <= j < sends@.len() implies views(sends@)[j]
                == want.sends[j] by {
                assert(batch_views(batches@)[j] == (batches@[j].0, views(batches@[j].1@)));
                assert(sends@[j]@ == ask_blocks(batches@[j].0, views(batches@[j].1@)));
            }
            assert(views(sends@) =~= want.sends);
            assert(self@ =~= want.sync);
        }
        sends
    }

    /// Store an orphan block (parent unknown). Evicts the oldest entry when full.
    pub fn store_orphan(&mut self, hash: Hash256, block: Block)
        ensures
            final(self)@ == (SyncView {
                orphans: with_orphan(old(self)@.orphans, hash@, block@),
                ..old(self)@
            }),
    {
        let ghost before = self@.orphans;
        if self.orphan_pool.len() >= ORPHAN_POOL_MAX {
            let _ = self.orphan_pool.remove(0);
            assert(views(self.orphan_pool@) =~= before.skip(1));
        }
        let ghost kept = views(self.orphan_pool@);
        let mut i: usize = 0;
        assert(kept.skip(0) =~= kept);
        while i < self.orphan_pool.len() && !bytes_equal(&self.orphan_pool[i].0, &hash)
            invariant
                i <= self.orphan_pool@.len(),
                kept == views(self.orphan_pool@),
                orphan_index(kept, hash@) == i + orphan_index(kept.skip(i as int), hash@),
            decreases self.orphan_pool@.len() - i,
        {
            assert(kept.skip(i as int)[0] == self.orphan_pool@[i as int]@);
            assert(kept.skip(i as int).skip(1) =~= kept.skip(i + 1));
            i += 1;
        }
        let ghost entry = (hash@, block@);
        if i < self.orphan_pool.len() {
            assert(kept.skip(i as int)[0] == self.orphan_pool@[i as int]@);
            self.orphan_pool.set(i, (hash, block));
            assert(views(self.orphan_pool@) =~= kept.update(i as int, entry));
        } else {
            assert(kept.skip(i as int) =~= Seq::empty());
            self.orphan_pool.push((hash, block));
            assert(views(self.orphan_pool@) =~= kept.push(entry));
        }
    }

    /// Remove and return all orphans that follow a block.
    fn drain_orphans_for_parent(&mut self, parent_hash: &Hash256) -> (r: Vec<Block>)
        ensures
            views(r@) == children(old(self)@.orphans, parent_hash@),
            final(self)@ == (SyncView {
                orphans: strangers(old(self)@.orphans, parent_hash@),
                ..old(self)@
            }),
    {
        let mut pool: Vec<(Hash256, Block)> = Vec::new();
        core::mem::swap(&mut self.orphan_pool, &mut pool);
        let ghost all = views(pool@);
        let mut taken: Vec<Block> = Vec::new();
        let mut kept: Vec<(Hash256, Block)> = Vec::new();
        let total: usize = pool.len();
        let mut n: usize = 0;
        let mut rest = pool;
        assert(views(taken@) =~= children(all.take(0), parent_hash@));
        assert(views(kept@) =~= strangers(all.take(0), parent_hash@));
        assert(views(rest@) =~= all.skip(0));
        while n < total
            invariant
                n <= total,
                total == all.len(),
                views(rest@) == all.skip(n as int),
                views(taken@) == children(all.take(n as int), parent_hash@),
                views(kept@) == strangers(all.take(n as int), parent_hash@),
            decreases total - n,
        {
            let ghost before = rest@;
            assert(views(rest@).len() == all.len() - n);
            let entry = rest.remove(0);
            let ghost part = all.take(n + 1);
            let ghost took = taken@;
            let ghost keeps = kept@;
            proof {
                assert(entry@ == views(before)[0]);
                assert(entry@ == all[n as int]);
                assert forall|i: int| 0 <= i < rest@.len() implies views(rest@)[i] == all.skip(
                    n + 1,
                )[i] by {
                    assert(rest@[i] == before[i + 1]);
                    assert(views(before)[i + 1] == all.skip(n as int)[i + 1]);
                }
                assert(views(rest@) =~= all.skip(n + 1));
                assert(part.drop_last() =~= all.take(n as int));
                assert(part.last() == entry@);
            }
            if bytes_equal(&entry.1.header.prev_block_hash, parent_hash) {
                let ghost b = entry.1@;
                taken.push(entry.1);
                assert(views(taken@) =~= views(took).push(b));
            } else {
                let ghost e = entry@;
                kept.push(entry);
                assert(views(kept@) =~= views(keeps).push(e));
            }
            n += 1;
        }
        assert(all.take(n as int) =~= all);
        self.orphan_pool = kept;
        taken
    }

    fn find_first_missing(&self, chain: &ChainState, total_height: u32) -> (r: u64)
        ensures
            r == first_missing(chain@, self@.by_height, total_height),
    {
        let ids = self.peer_header_map.ids();
        let ghost m = self@.by_height;
        let mut i: usize = 0;
        while i < ids.len()
            invariant
                i <= ids@.len(),
                m == self@.by_height,
                crate::collections::id_map::rising(ids@),
                forall|id: u64|
                    #![trigger m.contains_key(id)]
                    m.contains_key(id) <==> ids@.contains(id),
                forall|j: int| 0 <= j < i ==> has_block(chain@, m[#[trigger] ids@[j]]),
            decreases ids@.len() - i,
        {
            let id: u64 = ids[i];
            assert(ids@.contains(id));
            if let Some(hash) = self.peer_header_map.get(id) {
                if !block_stored(chain, hash) {
                    proof {
                        assert forall|k: u64| k < id && m.contains_key(k) implies
                            #[trigger] has_block(chain@, m[k]) by {
                            assert(ids@.contains(k));
                            let j = choose|j: int| 0 <= j < ids@.len() && ids@[j] == k;
                            if j > i {
                                assert(ids@[i as int] < ids@[j]);
                            }
                            assert(has_block(chain@, m[ids@[j]]));
                        }
                        assert(is_first_missing(chain@, m, id));
                        let c = choose|h: u64| is_first_missing(chain@, m, h);
                        assert(m.contains_key(c) && m.contains_key(id));
                        assert(!has_block(chain@, m[c]) && !has_block(chain@, m[id]));
                    }
                    return id;
                }
            }
            i += 1;
        }
        proof {
            if exists|h: u64| is_first_missing(chain@, m, h) {
                let h = choose|h: u64| is_first_missing(chain@, m, h);
                assert(m.contains_key(h));
                let j = choose|j: int| 0 <= j < ids@.len() && ids@[j] == h;
                assert(has_block(chain@, m[ids@[j]]));
            }
        }
        total_height as u64 + 1
    }

    /// Goes back from a height as long as the block below is not stored.
    fn walk_back(&mut self, chain: &ChainState, from: u64) -> (start: u64)
        ensures
            ({
                let w = walked(
                    chain@,
                    Walk {
                        by_height: old(self)@.by_height,
                        by_hash: old(self)@.by_hash,
                        start: from,
                    },
                );
                &&& start == w.start
                &&& final(self)@ == (SyncView {
                    by_height: w.by_height,
                    by_hash: w.by_hash,
                    ..old(self)@
                })
            }),
    {
        let ghost before = self@;
        let ghost whole = walked(
            chain@,
            Walk { by_height: before.by_height, by_hash: before.by_hash, start: from },
        );
        let mut start: u64 = from;
        while start > 0
            invariant_except_break
                whole == walked(
                    chain@,
                    Walk { by_height: self@.by_height, by_hash: self@.by_hash, start },
                ),
            invariant
                self@ == (SyncView {
                    by_height: self@.by_height,
                    by_hash: self@.by_hash,
                    ..before
                }),
            ensures
                whole == (Walk { by_height: self@.by_height, by_hash: self@.by_hash, start }),
            decreases start,
        {
            let below: u64 = start - 1;
            let filed: Option<Hash256> = match self.peer_header_map.get(below) {
                Some(h) => Some(*h),
                None => None,
            };
            match filed {
                Some(hash) => {
                    if block_stored(chain, &hash) {
                        break;
                    }
                    start = below;
                },
                None => match chain.block_store.get_hash_by_height(below) {
                    Ok(Some(hash)) => {
                        let have_block: bool = block_stored(chain, &hash);
                        let _ = self.peer_header_map.insert(below, hash);
                        let _ = self.peer_hash_to_height.insert(slice_to_vec(&hash), below as u32);
                        if have_block {
                            break;
                        }
                        start = below;
                    },
                    _ => {
                        break;
                    },
                },
            }
        }
        start
    }

    /// Collect hashes from the headers of the peer for heights `start..=end`, in
    /// order.
    fn collect_pending_hashes(&self, start: u64, end: u32) -> (r: Vec<Hash256>)
        requires
            start <= end,
        ensures
            views(r@) == hashes_from(self@.by_height, start, (end - start + 1) as nat),
    {
        let mut out: Vec<Hash256> = Vec::new();
        let count: u64 = end as u64 - start + 1;
        let mut n: u64 = 0;
        assert(views(out@) =~= hashes_from(self@.by_height, start, 0));
        while n < count
            invariant
                n <= count,
                count == end - start + 1,
                start <= end,
                views(out@) == hashes_from(self@.by_height, start, n as nat),
            decreases count - n,
        {
            let ghost before = out@;
            if let Some(hash) = self.peer_header_map.get(start + n) {
                out.push(*hash);
                assert(views(out@) =~= views(before).push(hash@));
            }
            n += 1;
        }
        out
    }

    fn begin_download(&mut self, peer_id: u64, start: u64, best_height: u32, now: u64) -> (sends:
        Vec<Outgoing>)
        requires
            old(self).valid(),
            start <= best_height,
        ensures
            does(
                final(self)@,
                sends@,
                begin_download(old(self)@, peer_id, start, best_height, now),
            ),
            final(self).valid(),
    {
        let ghost before = self@;
        let hashes = self.collect_pending_hashes(start, best_height);
        self.download_queue.enqueue_batch(&hashes);
        proof {
            assert forall|i: int| 0 <= i < views(hashes@).len() implies (
            #[trigger] views(hashes@)[i]).len() == 32 by {
                assert(hashes@[i]@.len() == 32);
            }
            lemma_enqueued(before.queue, views(hashes@));
        }
        let mut peers: Vec<u64> = Vec::new();
        peers.push(peer_id);
        assert(peers@ =~= seq![peer_id]);
        let mut active_peers: Vec<u64> = Vec::new();
        active_peers.push(peer_id);
        assert(active_peers@ =~= seq![peer_id]);
        self.sync_state = SyncState::DownloadingBlocks {
            active_peers,
            next_apply_height: start as u32,
            total_height: best_height,
        };
        self.drain_to_peers_and_send(&peers, now)
    }

    /// Downloads the blocks behind the headers of a peer, or is done.
    fn settle(
        &mut self,
        chain: &ChainState,
        peer_id: u64,
        best_height: u32,
        fork_start: Option<u32>,
        peer_work: Option<U256>,
        now: u64,
    ) -> (sends: Vec<Outgoing>)
        requires
            old(self).valid(),
        ensures
            does(
                final(self)@,
                sends@,
                settle(
                    old(self)@,
                    chain@,
                    peer_id,
                    best_height,
                    fork_start,
                    match peer_work {
                        Some(w) => Some(w@),
                        None => None,
                    },
                    now,
                ),
            ),
            final(self).valid(),
    {
        let first: u64 = self.find_first_missing(chain, best_height);
        let start: u64 = self.walk_back(chain, first);
        let local_height: u32 = SyncManager::get_local_height(chain);
        let work = stored_work(chain);
        let download: bool = start <= best_height as u64 && (local_height < best_height
            || match peer_work {
            Some(w) => w > work || (w == work && fork_start.is_some()),
            None => fork_start.is_some(),
        });
        if download {
            self.begin_download(peer_id, start, best_height, now)
        } else {
            self.sync_state = SyncState::Synced;
            let sends: Vec<Outgoing> = Vec::new();
            assert(views(sends@) =~= Seq::empty());
            sends
        }
    }

    /// The peer has no further headers.
    fn end_headers(&mut self, chain: &ChainState, peer_id: u64, now: u64) -> (sends: Vec<Outgoing>)
        requires
            old(self).valid(),
        ensures
            does(final(self)@, sends@, no_more_headers(old(self)@, chain@, peer_id, now)),
            final(self).valid(),
    {
        let (best_height, best_hash, fork_start, peer): (u32, Hash256, Option<u32>, u64) =
            match &self.sync_state {
            SyncState::DownloadingHeaders {
                peer_id: p,
                best_header_height,
                best_header_hash,
                fork_start_height,
            } => (*best_header_height, *best_header_hash, *fork_start_height, *p),
            _ => match chain.state_store.load_best_header() {
                Ok(Some((height, hash))) => (height, hash, None, peer_id),
                _ => {
                    let zeros: [u8; 32] = [0u8; 32];
                    assert(zeros@ =~= zero_hash());
                    (0, zeros, None, peer_id)
                },
            },
        };
        if self.peer_header_map.len() > 0 {
            let first: u64 = self.find_first_missing(chain, best_height);
            if first <= best_height as u64 {
                let work = if is_zero(&best_hash) {
                    None
                } else {
                    compute_cumulative_work_for_tip(chain, &best_hash)
                };
                return self.settle(chain, peer, best_height, fork_start, work, now);
            }
        }
        self.sync_state = SyncState::Synced;
        let sends: Vec<Outgoing> = Vec::new();
        assert(views(sends@) =~= Seq::empty());
        sends
    }

    /// A batch that builds on what is there.
    fn start_batch(&self, chain: &ChainState) -> (b: HeaderBatch)
        ensures
            b@ == batch_start(self@, chain@),
    {
        let (best_height, best_hash, fork_start): (u32, Hash256, Option<u32>) =
            match &self.sync_state {
            SyncState::DownloadingHeaders {
                best_header_height,
                best_header_hash,
                fork_start_height,
                ..
            } => (*best_header_height, *best_header_hash, *fork_start_height),
            _ => {
                let t = tip_pair(chain);
                (t.0, t.1, None)
            },
        };
        let b = HeaderBatch {
            best_height,
            best_hash,
            fork_start,
            fresh: ByteMap::with_buckets(1024),
            prev: None,
            window: Vec::new(),
            stored: Vec::new(),
        };
        assert(b@ =~= batch_start(self@, chain@));
        b
    }

    /// Keeps the heights of the headers of a batch.
    fn keep_heights(&mut self, fresh: &ByteMap<u32>)
        ensures
            final(self)@ == (SyncView {
                known: old(self)@.known.union_prefer_right(fresh@),
                ..old(self)@
            }),
    {
        let keys = fresh.keys();
        let ghost ks = views(keys@);
        let ghost before = self@.known;
        let mut i: usize = 0;
        while i < keys.len()
            invariant
                i <= keys@.len(),
                ks == views(keys@),
                forall|k: Seq<u8>|
                    #![trigger fresh@.contains_key(k)]
                    fresh@.contains_key(k) <==> ks.contains(k),
                self@ == (SyncView { known: self@.known, ..old(self)@ }),
                forall|k: Seq<u8>| #[trigger]
                    self@.known.contains_key(k) <==> before.contains_key(k) || ks.take(
                        i as int,
                    ).contains(k),
                forall|k: Seq<u8>| #[trigger]
                    self@.known.contains_key(k) ==> self@.known[k] == (if ks.take(
                        i as int,
                    ).contains(k) {
                        fresh@[k]
                    } else {
                        before[k]
                    }),
            decreases keys@.len() - i,
        {
            let ghost key = ks[i as int];
            let ghost part = ks.take(i as int);
            let ghost known = self@.known;
            assert(ks.contains(key));
            assert(key == keys@[i as int]@);
            if let Some(height) = fresh.get(&keys[i]) {
                let _ = self.header_height_map.insert(slice_to_vec(keys[i].as_slice()), *height);
            }
            proof {
                let next = ks.take(i + 1);
                assert(next =~= part.push(key));
                assert forall|k: Seq<u8>| next.contains(k) <==> part.contains(k) || k == key by {
                    if next.contains(k) {
                        let j = choose|j: int| 0 <= j < next.len() && next[j] == k;
                        if j < i {
                            assert(part[j] == k);
                        }
                    }
                    if part.contains(k) {
                        let j = choose|j: int| 0 <= j < part.len() && part[j] == k;
                        assert(next[j] == k);
                    }
                    if k == key {
                        assert(next[i as int] == k);
                    }
                }
                assert(self@.known == known.insert(key, fresh@[key]));
            }
            i += 1;
        }
        proof {
            assert(ks.take(i as int) =~= ks);
            assert(self@.known =~= before.union_prefer_right(fresh@));
        }
    }

    fn file_headers(&mut self, stored: &Vec<(BlockHeader, u64)>)
        ensures
            final(self)@ == filed(old(self)@, views(stored@), stored@.len()),
    {
        let ghost before = self@;
        let ghost list = views(stored@);
        let mut i: usize = 0;
        while i < stored.len()
            invariant
                i <= stored@.len(),
                list == views(stored@),
                self@ == filed(before, list, i as nat),
            decreases stored@.len() - i,
        {
            let hash = stored[i].0.hash();
            let height: u32 = stored[i].1 as u32;
            assert(list[i as int] == stored@[i as int]@);
            let _ = self.peer_header_map.insert(height as u64, hash);
            let _ = self.peer_hash_to_height.insert(slice_to_vec(&hash), height);
            assert(self@ =~= filed(before, list, i as nat + 1));
            i += 1;
        }
    }

    fn file_anchor(&mut self, height: u32, hash: &Hash256)
        ensures
            final(self)@ == anchored(old(self)@, height, hash@),
    {
        if !self.peer_header_map.contains(height as u64) {
            let _ = self.peer_header_map.insert(height as u64, *hash);
        }
        if !self.peer_hash_to_height.contains_key(hash) {
            let _ = self.peer_hash_to_height.insert(slice_to_vec(hash), height);
        }
    }

    /// The heights of headers that a peer sent, as far as their places are known:
    /// for proof of work, a header is hashed under the key of its height.
    pub fn header_heights(&self, chain: &ChainState, headers: &Vec<BlockHeader>) -> (r: Vec<u64>)
        ensures
            ({
                let stored = place_headers(
                    sources(self@, chain@),
                    batch_start(self@, chain@),
                    views(headers@),
                    headers@.len(),
                ).batch.stored;
                r@ == Seq::new(stored.len(), |i: int| stored[i].1)
            }),
    {
        let mut b = self.start_batch(chain);
        let s = Sources {
            chain,
            locator: &self.last_locator,
            by_height: &self.peer_header_map,
            known: &self.header_height_map,
        };
        s.heights(&mut b, headers)
    }

    /// Asks a peer for headers from the locator of the chain on.
    fn resend_getheaders(&mut self, chain: &ChainState, peer_id: u64) -> (sends: Vec<Outgoing>)
        ensures
            final(self)@ == (SyncView { locator: locator(chain@), ..old(self)@ }),
            views(sends@) == seq![ask_headers(peer_id, locator_hashes(locator(chain@)))],
    {
        let entries = chain.get_block_locator_with_heights();
        let hashes = hashes_of(&entries);
        self.last_locator = entries;
        one(headers_request(peer_id, hashes))
    }

    /// What follows once a batch of headers was read without fault.
    fn take_batch(
        &mut self,
        chain: &mut ChainState,
        peer_id: u64,
        headers: &Vec<BlockHeader>,
        batch: HeaderBatch,
        now: u64,
    ) -> (sends: Vec<Outgoing>)
        requires
            old(self).valid(),
            headers@.len() > 0,
            batch@.stored.len() > 0,
            0 < batch@.stored[0].1 <= u32::MAX,
        ensures
            ({
                let want = headers_read(
                    old(self)@,
                    old(chain)@,
                    peer_id,
                    views(headers@),
                    crate::network::headers::HeaderRun { batch: batch@, fault: None },
                    now,
                );
                &&& final(self)@ == want.sync
                &&& final(chain)@ == want.chain
                &&& views(sends@) == want.sends
            }),
            final(chain).params == old(chain).params,
            final(chain).saved() == old(chain).saved(),
            lasting(old(chain)@) && entries_agree(old(chain)@.blocks, batch@.stored) ==> lasting(
                final(chain)@,
            ),
            sound(old(chain)@) && entries_agree(old(chain)@.blocks, batch@.stored) ==> sound(
                final(chain)@,
            ),
            final(self).valid(),
    {
        let ghost start = self@;
        let ghost chain0 = chain@;
        let ghost b = batch@;
        proof {
            lemma_best_header_reads_back(chain0.state, batch.best_hash, batch.best_height as u64);
        }
        let _ = chain.block_store.store_headers_batch(&batch.stored);
        let _ = chain.state_store.store_best_header(batch.best_height, &batch.best_hash);
        assert(chain@ =~= with_batch(chain0, b));
        proof {
            if lasting(chain0) && entries_agree(chain0.blocks, b.stored) {
                lemma_filed_with_headers(chain0.blocks, b.stored, b.stored.len());
                lemma_lasting_with_blocks(chain0, chain@);
                if sound(chain0) {
                    lemma_sound_with_blocks(chain0, chain@);
                }
            }
        }
        self.keep_heights(&batch.fresh);
        self.file_headers(&batch.stored);
        assert(b.stored[0] == batch.stored@[0]@);
        assert(views(headers@)[0] == headers@[0]@);
        let anchor: u32 = (batch.stored[0].1 - 1) as u32;
        self.file_anchor(anchor, &headers[0].prev_block_hash);
        self.sync_state = SyncState::DownloadingHeaders {
            peer_id,
            best_header_height: batch.best_height,
            best_header_hash: batch.best_hash,
            fork_start_height: batch.fork_start,
        };
        proof {
            let k = start.known.union_prefer_right(b.fresh);
            lemma_filed_keeps(
                SyncView { known: k, ..start },
                start,
                b.stored,
                b.stored.len(),
            );
            assert(self@ =~= with_headers_of(start, peer_id, headers@[0]@, b));
        }
        if headers.len() >= HEADERS_PER_MESSAGE {
            let mut hashes: Vec<Hash256> = Vec::new();
            hashes.push(batch.best_hash);
            assert(views(hashes@) =~= seq![b.best_hash]);
            one(headers_request(peer_id, hashes))
        } else {
            let work = compute_cumulative_work_for_tip(chain, &batch.best_hash);
            self.settle(chain, peer_id, batch.best_height, batch.fork_start, work, now)
        }
    }

    /// Headers from a peer. Their hashes for proof of work, one for each header,
    /// are those under the keys of the heights that `header_heights` gives.
    pub fn handle_headers(
        &mut self,
        chain: &mut ChainState,
        peer_id: u64,
        headers_msg: &HeadersMessage,
        pow_hashes: &Vec<Hash256>,
        time: u64,
        now: u64,
    ) -> (r: Result<Vec<Outgoing>, HeaderFault>)
        requires
            old(self).valid(),
            old(chain).params.valid(),
            pow_hashes@.len() == headers_msg.headers@.len(),
        ensures
            ({
                let want = headers_received(
                    old(self)@,
                    old(chain)@,
                    peer_id,
                    headers_msg@,
                    views(pow_hashes@),
                    time,
                    now,
                );
                &&& final(self)@ == want.sync
                &&& final(chain)@ == want.chain
                &&& match r {
                    Ok(sends) => want.fault is None && views(sends@) == want.sends,
                    Err(f) => want.fault == Some(f) && want.sends.len() == 0,
                }
            }),
            final(self).valid(),
            final(chain).params == old(chain).params,
            final(chain).saved() == old(chain).saved(),
            lasting(old(chain)@) && headers_agree(old(chain)@.blocks, headers_msg@) ==> lasting(
                final(chain)@,
            ),
            sound(old(chain)@) && headers_agree(old(chain)@.blocks, headers_msg@) ==> sound(
                final(chain)@,
            ),
    {
        let headers = &headers_msg.headers;
        if headers.len() == 0 {
            return Ok(self.end_headers(chain, peer_id, now));
        }
        let mut batch = self.start_batch(chain);
        let ghost b0 = batch@;
        let ghost hs = views(headers@);
        let ghost ps = views(pow_hashes@);
        let s = Sources {
            chain: &*chain,
            locator: &self.last_locator,
            by_height: &self.peer_header_map,
            known: &self.header_height_map,
        };
        let ghost src = s@;
        let result = s.read(&mut batch, headers, pow_hashes, time);
        assert(src == sources(old(self)@, old(chain)@));
        match result {
            Err(f) => {
                self.keep_heights(&batch.fresh);
                match f {
                    HeaderFault::HeadersNeeded => Ok(self.resend_getheaders(chain, peer_id)),
                    _ => Err(f),
                }
            },
            Ok(()) => {
                proof {
                    crate::network::headers::lemma_read_headers(
                        src,
                        b0,
                        hs,
                        ps,
                        time,
                        hs.len(),
                    );
                    assert(batch@.stored[0].1 > 0);
                    if headers_agree(chain@.blocks, hs) {
                        assert forall|i: int| 0 <= i < batch@.stored.len() implies header_agrees(
                            chain@.blocks,
                            (#[trigger] batch@.stored[i]).0,
                        ) by {
                            assert(batch@.stored[i].0 == hs[i]);
                        }
                    }
                }
                Ok(self.take_batch(chain, peer_id, headers, batch, now))
            },
        }
    }

    fn reset_sync_state(&mut self)
        ensures
            final(self)@ == reset(old(self)@),
            final(self).valid(),
    {
        self.peer_header_map = IdMap::new();
        self.peer_hash_to_height = ByteMap::with_buckets(16384);
        self.block_buffer = IdMap::new();
        self.download_queue.clear();
        self.orphan_pool = Vec::new();
        proof {
            lemma_empty_queue();
            assert(self@.orphans =~= Seq::empty());
        }
    }

    /// Begins a synchronisation with a peer.
    fn start_fresh(&mut self, chain: &ChainState, peer_id: u64) -> (sends: Vec<Outgoing>)
        ensures
            does(final(self)@, sends@, fresh_sync(old(self)@, chain@, peer_id)),
            final(self).valid(),
    {
        self.reset_sync_state();
        let our_height: u32 = SyncManager::get_local_height(chain);
        let best = match chain.state_store.load_best_header() {
            Ok(Some((height, hash))) => (height, hash),
            _ => tip_pair(chain),
        };
        let start = if best.0 > our_height {
            best
        } else {
            tip_pair(chain)
        };
        assert((start.0, start.1@) == header_start(chain@));
        self.sync_state = SyncState::DownloadingHeaders {
            peer_id,
            best_header_height: start.0,
            best_header_hash: start.1,
            fork_start_height: None,
        };
        let mut sends = self.resend_getheaders(chain, peer_id);
        if let Some(tip) = tip_of(chain) {
            let mut hashes: Vec<Hash256> = Vec::new();
            hashes.push(tip.1);
            assert(views(hashes@) =~= seq![tip.1@]);
            let ghost before = sends@;
            sends.push(
                Outgoing {
                    peer_id,
                    payload: MessagePayload::Inv(InvMessage { inventory: inventory_of(&hashes) }),
                    required: false,
                },
            );
            assert(views(sends@) =~= views(before).push(announce_block(peer_id, tip.1@)));
        }
        sends
    }

    /// A peer is there to synchronise with.
    pub fn start_sync(&mut self, chain: &ChainState, peer_id: u64, now: u64) -> (sends: Vec<
        Outgoing,
    >)
        requires
            old(self).valid(),
        ensures
            does(final(self)@, sends@, sync_started(old(self)@, chain@, peer_id, now)),
            final(self).valid(),
    {
        let ghost before = self@;
        let mut state = SyncState::Idle;
        core::mem::swap(&mut self.sync_state, &mut state);
        match state {
            SyncState::DownloadingHeaders { .. } => {
                self.sync_state = state;
                let sends: Vec<Outgoing> = Vec::new();
                assert(views(sends@) =~= Seq::empty());
                sends
            },
            SyncState::DownloadingBlocks { active_peers, next_apply_height, total_height } => {
                // A new peer connected while we're already downloading blocks.
                // Add them to the active set and immediately drain pending to them.
                let mut active_peers = active_peers;
                if !contains_peer(&active_peers, peer_id) {
                    active_peers.push(peer_id);
                }
                self.sync_state = SyncState::DownloadingBlocks {
                    active_peers,
                    next_apply_height,
                    total_height,
                };
                let mut peers: Vec<u64> = Vec::new();
                peers.push(peer_id);
                assert(peers@ =~= seq![peer_id]);
                let mut sends = self.drain_to_peers_and_send(&peers, now);
                // If the queue is completely idle the download stalled before this
                // peer connected: ask for headers again to fill the queue.
                if self.download_queue.is_idle() {
                    let more = self.start_fresh(chain, peer_id);
                    append(&mut sends, more);
                }
                sends
            },
            _ => {
                self.sync_state = state;
                self.start_fresh(chain, peer_id)
            },
        }
    }

    pub fn request_headers_force(&mut self, chain: &ChainState, peer_id: u64, now: u64) -> (sends:
        Vec<Outgoing>)
        requires
            old(self).valid(),
        ensures
            does(final(self)@, sends@, sync_started(old(self)@, chain@, peer_id, now)),
            final(self).valid(),
    {
        self.start_sync(chain, peer_id, now)
    }

    /// Answers a request for headers.
    pub fn handle_getheaders(chain: &ChainState, peer_id: u64, msg: &GetHeadersMessage) -> (r:
        Outgoing)
        ensures
            r@ == (OutgoingView {
                peer_id,
                payload: PayloadView::Headers(headers_for(chain@, msg@)),
                required: true,
            }),
    {
        let headers = collect_headers(chain, msg);
        Outgoing {
            peer_id,
            payload: MessagePayload::Headers(HeadersMessage { headers }),
            required: true,
        }
    }

    /// Called when a peer disconnects during block download. Returns in-flight
    /// hashes for that peer to the pending queue and redistributes to remaining
    /// peers.
    pub fn on_peer_disconnected(&mut self, peer_id: u64, now: u64) -> (sends: Vec<Outgoing>)
        requires
            old(self).valid(),
        ensures
            does(final(self)@, sends@, peer_lost(old(self)@, peer_id, now)),
            final(self).valid(),
    {
        let ghost before = self@;
        self.download_queue.on_peer_disconnected(peer_id);
        proof {
            lemma_peer_gone(before.queue, peer_id);
        }
        let mut state = SyncState::Idle;
        core::mem::swap(&mut self.sync_state, &mut state);
        match state {
            SyncState::DownloadingBlocks { active_peers, next_apply_height, total_height } => {
                let left = drop_peer(&active_peers, peer_id);
                let peers = drop_peer(&active_peers, peer_id);
                self.sync_state = SyncState::DownloadingBlocks {
                    active_peers: left,
                    next_apply_height,
                    total_height,
                };
                if peers.len() > 0 {
                    return self.drain_to_peers_and_send(&peers, now);
                }
            },
            _ => {
                self.sync_state = state;
            },
        }
        let sends: Vec<Outgoing> = Vec::new();
        assert(views(sends@) =~= Seq::empty());
        sends
    }

    /// Check for timed-out in-flight requests and re-dispatch them.
    /// Rate-limited to at most once every 10 seconds.
    pub fn recheck_stalled_window(&mut self, now: u64) -> (sends: Vec<Outgoing>)
        requires
            old(self).valid(),
        ensures
            does(final(self)@, sends@, stall_checked(old(self)@, now)),
            final(self).valid(),
    {
        let ghost before = self@;
        if now < self.last_recheck || now - self.last_recheck < MIN_RECHECK_INTERVAL {
            let sends: Vec<Outgoing> = Vec::new();
            assert(views(sends@) =~= Seq::empty());
            return sends;
        }
        self.last_recheck = now;
        let peers: Vec<u64> = match &self.sync_state {
            SyncState::DownloadingBlocks { active_peers, .. } => slice_to_vec(
                active_peers.as_slice(),
            ),
            _ => {
                let sends: Vec<Outgoing> = Vec::new();
                assert(views(sends@) =~= Seq::empty());
                return sends;
            },
        };
        // Move timed-out in-flight entries back to the pending queue.
        self.download_queue.recheck_timeouts(now);
        proof {
            lemma_rechecked(before.queue, now);
        }
        // Re-dispatch any pending work.
        self.drain_to_peers_and_send(&peers, now)
    }

    /// Requests the block of a height once more, ahead of others.
    fn request_again(&mut self, height: u64)
        requires
            old(self).valid(),
        ensures
            final(self)@ == requested_again(old(self)@, height),
            final(self).valid(),
    {
        let hash: Hash256 = match self.peer_header_map.get(height) {
            Some(h) => *h,
            None => return,
        };
        proof {
            lemma_requeued(self@.queue, hash@);
        }
        self.download_queue.requeue_front(hash);
    }

    /// Whether a block is the one that the headers of the peer name.
    fn fits(&self, block: &Block, hash: &Hash256, height: u32) -> (r: bool)
        requires
            hash@ == block@.hash(),
        ensures
            r == fits(self@, block@, height),
    {
        match self.peer_header_map.get(height as u64) {
            Some(h) => {
                if !bytes_equal(h, hash) {
                    return false;
                }
            },
            None => return false,
        }
        if height > 0 {
            if let Some(prev) = self.peer_header_map.get(height as u64 - 1) {
                return bytes_equal(prev, &block.header.prev_block_hash);
            }
        }
        true
    }

    /// Called for every received block.
    ///
    /// A block that is not one of the current synchronisation is handed back. One
    /// that is the next of the chain starts a run of blocks to be added; others
    /// wait in the buffer.
    pub fn receive_block_for_sync(&mut self, block: Block, now: u64) -> (r: (
        Receipt,
        Vec<Outgoing>,
    ))
        requires
            old(self).valid(),
        ensures
            ({
                let want = block_arrived(old(self)@, block@, now);
                &&& final(self)@ == want.sync
                &&& views(r.1@) == want.sends
                &&& match r.0 {
                    Receipt::Untracked(b) => want.verdict is Untracked && b == block,
                    Receipt::Handled => want.verdict is Handled,
                    Receipt::Apply(run) => want.verdict matches Verdict::Apply {
                        height,
                        total_height,
                        active_peers,
                    } && run@ == run_from(block@, height, total_height, active_peers),
                }
            }),
            final(self).valid(),
    {
        let ghost before = self@;
        let ghost bv = block@;
        let nothing: Vec<Outgoing> = Vec::new();
        assert(views(nothing@) =~= Seq::empty());
        let hash = block.header.hash();
        let height: u32 = match self.peer_hash_to_height.get(&hash) {
            Some(h) => *h,
            None => return (Receipt::Untracked(block), nothing),
        };
        // Remove from in-flight (unconditional, keeps accounting correct for
        // stale and duplicate blocks).
        self.download_queue.mark_received(&hash);
        proof {
            lemma_released(before.queue, hash@);
        }
        // Read the current download cursor.
        let (next, peers, total): (u32, Vec<u64>, u32) = match &self.sync_state {
            SyncState::DownloadingBlocks { active_peers, next_apply_height, total_height } => (
                *next_apply_height,
                slice_to_vec(active_peers.as_slice()),
                *total_height,
            ),
            _ => {
                // Arrived before the download of blocks began: buffer it.
                let _ = self.block_buffer.insert(height as u64, block);
                return (Receipt::Handled, nothing);
            },
        };
        if height < next {
            // Stale or duplicate, already applied.
            return (Receipt::Handled, nothing);
        }
        if height > next {
            // Out-of-order: buffer it.
            let _ = self.block_buffer.insert(height as u64, block);
            // Buffer is growing; the next block may have been lost.
            if self.block_buffer.len() >= DOWNLOAD_WINDOW {
                self.request_again(next as u64);
            }
            let sends = self.drain_to_peers_and_send(&peers, now);
            return (Receipt::Handled, sends);
        }
        if !self.fits(&block, &hash, height) {
            self.request_again(height as u64);
            let sends = self.drain_to_peers_and_send(&peers, now);
            return (Receipt::Handled, sends);
        }
        let run = ApplyRun {
            current: Some(block),
            orphans: Vec::new(),
            height: height as u64,
            total_height: total,
            active_peers: peers,
            applied: Vec::new(),
            requeued: Vec::new(),
        };
        assert(run@ =~= run_from(bv, height, total, peers@));
        (Receipt::Apply(run), nothing)
    }

    /// Takes the next block from the buffer, or ends the run.
    fn advance(&mut self, run: &mut ApplyRun, now: u64) -> (sends: Vec<Outgoing>)
        requires
            old(self).valid(),
            old(run)@.orphans.len() == 0,
            old(run)@.current is None,
        ensures
            forall|chain: ChainView|
                {
                    let want = #[trigger] advanced(old(self)@, old(run)@, chain, now);
                    &&& final(self)@ == want.sync
                    &&& final(run)@ == want.run
                    &&& views(sends@) == want.sends
                },
            final(self).valid(),
    {
        let ghost before = self@;
        let ghost run0 = run@;
        if run.height > run.total_height as u64 {
            self.sync_state = SyncState::Synced;
            let sends: Vec<Outgoing> = Vec::new();
            assert(views(sends@) =~= Seq::empty());
            return sends;
        }
        self.sync_state = SyncState::DownloadingBlocks {
            active_peers: slice_to_vec(run.active_peers.as_slice()),
            next_apply_height: run.height as u32,
            total_height: run.total_height,
        };
        let sends = self.drain_to_peers_and_send(&run.active_peers, now);
        let ghost v1 = self@;
        let next = self.block_buffer.remove(run.height);
        if let Some(block) = next {
            let ghost b = block@;
            let expected: bool = match self.peer_header_map.get(run.height) {
                Some(h) => bytes_equal(h, &block.header.hash()),
                None => false,
            };
            if expected {
                run.current = Some(block);
            }
        }
        sends
    }

    /// What follows once an orphan was added to the chain.
    fn after_orphan(
        &mut self,
        run: &mut ApplyRun,
        result: Result<Vec<Transaction>, ChainError>,
        now: u64,
        Ghost(o): Ghost<Outcome<Seq<TransactionView>>>,
    ) -> (sends: Vec<Outgoing>)
        requires
            old(self).valid(),
            old(run)@.orphans.len() > 0,
            old(run)@.current is None,
            gives(result, o.result),
        ensures
            ({
                let want = orphan_done(old(self)@, old(run)@, o, now);
                &&& final(self)@ == want.sync
                &&& final(run)@ == want.run
                &&& views(sends@) == want.sends
                &&& want.chain == o.chain
            }),
            final(self).valid(),
            final(run)@.orphans.len() > 0 ==> final(run)@.current is None,
    {
        let ghost run0 = run@;
        let _ = run.orphans.remove(0);
        assert(views(run.orphans@) =~= run0.orphans.skip(1));
        if let Ok(txs) = result {
            extend(&mut run.requeued, txs);
        }
        if run.orphans.len() == 0 {
            return self.advance(run, now);
        }
        let nothing: Vec<Outgoing> = Vec::new();
        assert(views(nothing@) =~= Seq::empty());
        nothing
    }

    /// What follows once the next block of the peer was added to the chain.
    fn after_current(
        &mut self,
        run: &mut ApplyRun,
        block: Block,
        result: Result<Vec<Transaction>, ChainError>,
        now: u64,
        Ghost(o): Ghost<Outcome<Seq<TransactionView>>>,
    ) -> (sends: Vec<Outgoing>)
        requires
            old(self).valid(),
            old(run)@.orphans.len() == 0,
            old(run)@.current is None,
            old(run).height < u64::MAX,
            gives(result, o.result),
        ensures
            ({
                let want = current_done(
                    old(self)@,
                    (RunView { current: Some(block@), ..old(run)@ }),
                    block@,
                    o,
                    now,
                );
                &&& final(self)@ == want.sync
                &&& final(run)@ == want.run
                &&& views(sends@) == want.sends
                &&& want.chain == o.chain
            }),
            final(self).valid(),
            final(run)@.orphans.len() > 0 ==> final(run)@.current is None,
    {
        let nothing: Vec<Outgoing> = Vec::new();
        assert(views(nothing@) =~= Seq::empty());
        let hash = block.header.hash();
        match result {
            Err(_) => nothing,
            Ok(txs) => {
                extend(&mut run.requeued, txs);
                let ghost applied = run.applied@;
                let ghost entry = (block@, run.height as u32);
                let height: u32 = run.height as u32;
                run.applied.push((block, height));
                assert(views(run.applied@) =~= views(applied).push(entry));
                run.height = run.height + 1;
                run.orphans = self.drain_orphans_for_parent(&hash);
                if run.orphans.len() == 0 {
                    return self.advance(run, now);
                }
                nothing
            },
        }
    }

    /// Adds the next block of a run to the chain.
    pub fn add_next(
        &mut self,
        run: &mut ApplyRun,
        chain: &mut ChainState,
        pow_hash: &Hash256,
        time: u64,
        now: u64,
    ) -> (sends: Vec<Outgoing>)
        requires
            old(self).valid(),
            old(chain).params.valid(),
            old(run).height < u64::MAX,
            old(run)@.orphans.len() > 0 ==> old(run)@.current is None,
        ensures
            ({
                let want = block_added(
                    old(self)@,
                    old(run)@,
                    old(chain)@,
                    pow_hash@,
                    time,
                    now,
                );
                &&& final(self)@ == want.sync
                &&& final(run)@ == want.run
                &&& final(chain)@ == want.chain
                &&& views(sends@) == want.sends
            }),
            final(self).valid(),
            final(run)@.orphans.len() > 0 ==> final(run)@.current is None,
            final(chain).params == old(chain).params,
            final(chain).saved() == old(chain).saved(),
            old(run)@.next_block() matches Some(b) ==> endures(
                old(chain)@,
                b,
                pow_hash@,
                time,
                final(chain)@,
            ),
    {
        let ghost run0 = run@;
        if run.orphans.len() > 0 {
            assert(run.orphans@[0]@ == run0.orphans[0]);
            let orphan = run.orphans[0].clone();
            let ghost o = add_block(chain@, orphan@, pow_hash@, time);
            let result = chain.add_block_at(orphan, pow_hash, time);
            return self.after_orphan(run, result, now, Ghost(o));
        }
        let mut current: Option<Block> = None;
        core::mem::swap(&mut run.current, &mut current);
        match current {
            Some(block) => {
                let ghost o = add_block(chain@, block@, pow_hash@, time);
                assert(run0 =~= (RunView { current: Some(block@), ..run@ }));
                let result = chain.add_block_at(block.clone(), pow_hash, time);
                self.after_current(run, block, result, now, Ghost(o))
            },
            None => {
                let nothing: Vec<Outgoing> = Vec::new();
                assert(views(nothing@) =~= Seq::empty());
                nothing
            },
        }
    }
}

fn extend(out: &mut Vec<Transaction>, more: Vec<Transaction>)
    ensures
        views(final(out)@) == views(old(out)@) + views(more@),
{
    let ghost before = out@;
    let ghost added = more@;
    let mut more = more;
    out.append(&mut more);
    assert(views(out@) =~= views(before) + views(added));
}

fn contains_peer(peers: &Vec<u64>, peer_id: u64) -> (r: bool)
    ensures
        r == peers@.contains(peer_id),
{
    let mut i: usize = 0;
    while i < peers.len()
        invariant
            i <= peers@.len(),
            forall|j: int| 0 <= j < i ==> peers@[j] != peer_id,
        decreases peers@.len() - i,
    {
        if peers[i] == peer_id {
            assert(peers@[i as int] == peer_id);
            return true;
        }
        i += 1;
    }
    false
}

fn drop_peer(peers: &Vec<u64>, peer_id: u64) -> (r: Vec<u64>)
    ensures
        r@ == peers_without(peers@, peer_id),
{
    let mut out: Vec<u64> = Vec::new();
    let mut i: usize = 0;
    while i < peers.len()
        invariant
            i <= peers@.len(),
            out@ == peers_without(peers@.take(i as int), peer_id),
        decreases peers@.len() - i,
    {
        let p: u64 = peers[i];
        assert(peers@.take(i + 1).drop_last() =~= peers@.take(i as int));
        if p != peer_id {
            out.push(p);
        }
        i += 1;
    }
    assert(peers@.take(i as int) =~= peers@);
    out
}

/// The peer that states the greatest height, the first of them where several do.
pub open spec fn is_best_peer(peers: Seq<(u64, u32)>, i: int) -> bool {
    &&& 0 <= i < peers.len()
    &&& forall|j: int| 0 <= j < peers.len() ==> (#[trigger] peers[j]).1 <= peers[i].1
    &&& forall|j: int| 0 <= j < i ==> (#[trigger] peers[j]).1 < peers[i].1
}

/// The peer with the greatest height.
pub fn select_best_peer(peers: &Vec<(u64, u32)>) -> (r: Option<u64>)
    ensures
        match r {
            Some(id) => exists|i: int| is_best_peer(peers@, i) && id == peers@[i].0,
            None => peers@.len() == 0,
        },
{
    if peers.len() == 0 {
        return None;
    }
    let mut best: usize = 0;
    let mut i: usize = 1;
    while i < peers.len()
        invariant
            best < i <= peers@.len(),
            is_best_peer(peers@.take(i as int), best as int),
        decreases peers@.len() - i,
    {
        let ghost part = peers@.take(i as int);
        let ghost next = peers@.take(i + 1);
        let ghost was = best as int;
        assert(forall|j: int| 0 <= j < i ==> #[trigger] next[j] == part[j]);
        if peers[i].1 > peers[best].1 {
            best = i;
        }
        proof {
            assert forall|j: int| 0 <= j < next.len() implies (#[trigger] next[j]).1
                <= next[best as int].1 by {
                if j < i {
                    assert(part[j].1 <= part[was].1);
                }
            }
            assert forall|j: int| 0 <= j < best implies (#[trigger] next[j]).1 < next[best as int].1 by {
                if best == i {
                    assert(part[j].1 <= part[was].1);
                } else {
                    assert(part[j].1 < part[was].1);
                }
            }
        }
        i += 1;
    }
    assert(peers@.take(i as int) =~= peers@);
    Some(peers[best].0)
}

/// Filing headers does not depend on the heights that are known.
proof fn lemma_filed_keeps(
    v: SyncView,
    w: SyncView,
    stored: Seq<(BlockHeaderView, u64)>,
    n: nat,
)
    requires
        v.by_height == w.by_height,
        v.by_hash == w.by_hash,
    ensures
        filed(v, stored, n).by_height == filed(w, stored, n).by_height,
        filed(v, stored, n).by_hash == filed(w, stored, n).by_hash,
        filed(v, stored, n) == (SyncView {
            by_height: filed(v, stored, n).by_height,
            by_hash: filed(v, stored, n).by_hash,
            ..v
        }),
        filed(w, stored, n) == (SyncView {
            by_height: filed(w, stored, n).by_height,
            by_hash: filed(w, stored, n).by_hash,
            ..w
        }),
    decreases n,
{
    if n > 0 {
        lemma_filed_keeps(v, w, stored, (n - 1) as nat);
    }
}

} // verus!
