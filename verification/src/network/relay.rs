//! Passes blocks and transactions on.

use crate::collections::byte_map::ByteMap;
use crate::consensus::block::{Block, BlockView};
use crate::consensus::chain::{gives, ChainError, ChainState};
use crate::consensus::chain_model::{add_block, ChainFault, ChainView, Outcome};
use crate::consensus::soundness::endures;
use crate::consensus::transaction::{Transaction, TransactionView};
use crate::network::mempool::{
    admission, all_offered, coherent, confirmed, offered, purged, MempoolError, NetworkMempool,
    Pool,
};
use crate::network::outgoing::{Outgoing, OutgoingView};
use crate::network::protocol::{
    BlockMessage, GetDataMessage, InvMessage, InvVector, InvView, MessagePayload, PayloadView,
    TxMessage, INV_BLOCK, INV_TX,
};
use crate::network::sync::SyncManager;
use crate::network::sync_model::{
    block_inventory, known_height, sync_started, tip_header, with_orphan, Reaction, SyncView,
};
use crate::primitives::bytes::bytes_equal;
use crate::primitives::hash::Hash256;
use crate::primitives::serialize::views;
use crate::storage::blocks::block_at;
use crate::storage::db::{value_at, ColumnFamily};
use vstd::prelude::*;

verus! {

/// Number of announced blocks that are remembered.
pub const MAX_ANNOUNCED_BLOCKS: usize = 1000;

/// Whether a block is stored.
pub open spec fn stored(chain: ChainView, hash: Seq<u8>) -> bool {
    value_at(chain.blocks, ColumnFamily::Blocks, hash) is Some
}

/// The blocks that were announced, once one more was. All are forgotten where there
/// are too many.
pub open spec fn announced_with(announced: Set<Seq<u8>>, hash: Seq<u8>) -> Set<Seq<u8>> {
    if announced.contains(hash) {
        announced
    } else if announced.len() >= MAX_ANNOUNCED_BLOCKS {
        Set::empty().insert(hash)
    } else {
        announced.insert(hash)
    }
}

/// Tells of a block.
pub open spec fn block_news(hash: Seq<u8>) -> PayloadView {
    PayloadView::Inv(block_inventory(seq![hash]))
}

/// Tells of a transaction.
pub open spec fn transaction_news(txid: Seq<u8>) -> PayloadView {
    PayloadView::Inv(seq![InvView { inv_type: INV_TX, hash: txid }])
}

/// Whether a peer has a block that is not stored.
pub open spec fn has_news(chain: ChainView, inventory: Seq<InvView>) -> bool {
    exists|i: int|
        0 <= i < inventory.len() && (#[trigger] inventory[i]).inv_type == INV_BLOCK && !stored(
            chain,
            inventory[i].hash,
        )
}

/// The transactions of the first `n` entries that do not wait yet.
pub open spec fn wanted(pool: Pool, inventory: Seq<InvView>, n: nat) -> Seq<InvView>
    decreases n,
{
    if n == 0 {
        Seq::empty()
    } else {
        let before = wanted(pool, inventory, (n - 1) as nat);
        let item = inventory[n - 1];
        if item.inv_type == INV_TX && !pool.contains_key(item.hash) {
            before.push(item)
        } else {
            before
        }
    }
}

/// Whether headers or blocks are being downloaded.
pub open spec fn busy(v: SyncView) -> bool {
    v.state is DownloadingBlocks || v.state is DownloadingHeaders
}

/// A synchronisation begins, unless one is under way.
pub open spec fn sync_unless_busy(v: SyncView, chain: ChainView, peer_id: u64, now: u64) -> Reaction {
    if busy(v) {
        Reaction { sync: v, sends: Seq::empty() }
    } else {
        sync_started(v, chain, peer_id, now)
    }
}

/// What a peer's announcements lead to.
pub open spec fn inv_received(
    v: SyncView,
    chain: ChainView,
    pool: Pool,
    peer_id: u64,
    inventory: Seq<InvView>,
    now: u64,
) -> Reaction {
    let r = if has_news(chain, inventory) {
        sync_unless_busy(v, chain, peer_id, now)
    } else {
        Reaction { sync: v, sends: Seq::empty() }
    };
    let want = wanted(pool, inventory, inventory.len());
    if want.len() == 0 {
        r
    } else {
        Reaction {
            sync: r.sync,
            sends: r.sends.push(
                OutgoingView { peer_id, payload: PayloadView::GetData(want), required: true },
            ),
        }
    }
}

/// A block that is there, among the recent ones or stored.
pub open spec fn block_there(chain: ChainView, hash: Seq<u8>) -> Option<BlockView> {
    match chain.cached(hash) {
        Some(d) => Some(d.block),
        None => match block_at(chain.blocks, hash) {
            Ok(Some(b)) => Some(b),
            _ => None,
        },
    }
}

/// The blocks of the first `n` entries, for a peer.
pub open spec fn blocks_for(chain: ChainView, peer_id: u64, inventory: Seq<InvView>, n: nat) -> Seq<
    OutgoingView,
>
    decreases n,
{
    if n == 0 {
        Seq::empty()
    } else {
        let before = blocks_for(chain, peer_id, inventory, (n - 1) as nat);
        let item = inventory[n - 1];
        if item.inv_type == INV_BLOCK && block_there(chain, item.hash) is Some {
            before.push(
                OutgoingView {
                    peer_id,
                    payload: PayloadView::Block(block_there(chain, item.hash)->Some_0),
                    required: true,
                },
            )
        } else {
            before
        }
    }
}

/// The transactions of the first `n` entries, for a peer.
pub open spec fn transactions_for(pool: Pool, peer_id: u64, inventory: Seq<InvView>, n: nat) -> Seq<
    OutgoingView,
>
    decreases n,
{
    if n == 0 {
        Seq::empty()
    } else {
        let before = transactions_for(pool, peer_id, inventory, (n - 1) as nat);
        let item = inventory[n - 1];
        if item.inv_type == INV_TX && pool.contains_key(item.hash) {
            before.push(
                OutgoingView {
                    peer_id,
                    payload: PayloadView::Tx(pool[item.hash]),
                    required: true,
                },
            )
        } else {
            before
        }
    }
}

/// The transactions that wait once the first `n` blocks of a list are confirmed.
pub open spec fn all_confirmed(pool: Pool, applied: Seq<(BlockView, u32)>, n: nat) -> Pool
    decreases n,
{
    if n == 0 {
        pool
    } else {
        confirmed(
            all_confirmed(pool, applied, (n - 1) as nat),
            applied[n - 1].0.transactions,
        )
    }
}

/// The transactions that wait once blocks are in the chain. Those of blocks that are
/// no longer in it are offered again.
pub open spec fn pool_after_sync(
    pool: Pool,
    chain: ChainView,
    applied: Seq<(BlockView, u32)>,
    requeued: Seq<TransactionView>,
) -> Pool {
    if applied.len() == 0 {
        pool
    } else {
        all_offered(
            purged(all_confirmed(pool, applied, applied.len()), chain.utxos),
            chain.utxos,
            requeued,
            requeued.len(),
        )
    }
}

/// What a block that belongs to no synchronisation leads to.
pub struct Relayed {
    pub chain: ChainView,
    pub sync: SyncView,
    pub pool: Pool,
    pub announced: Set<Seq<u8>>,
    /// A height that the peer has.
    pub height: Option<u32>,
    pub sends: Seq<OutgoingView>,
    /// What goes to all peers.
    pub broadcast: Option<PayloadView>,
    pub result: Result<(), ChainFault>,
}

/// A height in 32 bits.
pub open spec fn short_height(h: Option<u64>) -> Option<u32> {
    match h {
        Some(h) => Some(h as u32),
        None => None,
    }
}

/// Whether a block is the tip.
pub open spec fn is_tip(chain: ChainView, hash: Seq<u8>) -> bool {
    tip_header(chain) matches Some(t) && t.1 == hash
}

/// A block was added to the chain, or was not.
pub open spec fn block_tried(
    o: Outcome<Seq<TransactionView>>,
    sync: SyncView,
    pool: Pool,
    announced: Set<Seq<u8>>,
    peer_id: u64,
    block: BlockView,
    now: u64,
) -> Relayed {
    let hash = block.hash();
    let kept = Relayed {
        chain: o.chain,
        sync,
        pool,
        announced,
        height: None,
        sends: Seq::empty(),
        broadcast: None,
        result: Ok(()),
    };
    match o.result {
        Ok(txs) => {
            let height = match o.chain.cached(hash) {
                Some(d) => Some(d.height as u32),
                None => None,
            };
            if is_tip(o.chain, hash) {
                let fresh = !busy(sync) && !announced.contains(hash);
                Relayed {
                    height,
                    pool: all_offered(
                        purged(confirmed(pool, block.transactions), o.chain.utxos),
                        o.chain.utxos,
                        txs,
                        txs.len(),
                    ),
                    announced: if busy(sync) {
                        announced
                    } else {
                        announced_with(announced, hash)
                    },
                    broadcast: if fresh {
                        Some(block_news(hash))
                    } else {
                        None
                    },
                    ..kept
                }
            } else {
                Relayed { height, ..kept }
            }
        },
        Err(ChainFault::OrphanBlock) => {
            let r = sync_unless_busy(
                SyncView { orphans: with_orphan(sync.orphans, hash, block), ..sync },
                o.chain,
                peer_id,
                now,
            );
            Relayed { sync: r.sync, sends: r.sends, ..kept }
        },
        Err(f) => Relayed { result: Err(f), ..kept },
    }
}

/// A block that belongs to no synchronisation.
pub open spec fn block_relayed(
    chain: ChainView,
    sync: SyncView,
    pool: Pool,
    announced: Set<Seq<u8>>,
    peer_id: u64,
    block: BlockView,
    pow_hash: Seq<u8>,
    time: u64,
    now: u64,
) -> Relayed {
    if stored(chain, block.hash()) {
        Relayed {
            chain,
            sync,
            pool,
            announced,
            height: short_height(known_height(chain, block.hash())),
            sends: Seq::empty(),
            broadcast: None,
            result: Ok(()),
        }
    } else {
        block_tried(
            add_block(chain, block, pow_hash, time),
            sync,
            pool,
            announced,
            peer_id,
            block,
            now,
        )
    }
}

/// A block is announced once, as long as it is remembered, and the blocks that are
/// remembered are not too many.
pub proof fn lemma_announced_once(announced: Set<Seq<u8>>, hash: Seq<u8>)
    requires
        announced.finite(),
        announced.len() <= MAX_ANNOUNCED_BLOCKS,
    ensures
        announced_with(announced, hash).contains(hash),
        announced_with(announced, hash).finite(),
        announced_with(announced, hash).len() <= MAX_ANNOUNCED_BLOCKS,
        announced_with(announced_with(announced, hash), hash) == announced_with(announced, hash),
{
}

/// What is to be done once a block was relayed.
pub struct RelayEffects {
    /// A height that the peer has.
    pub height: Option<u32>,
    pub sends: Vec<Outgoing>,
    /// What goes to all peers.
    pub broadcast: Option<MessagePayload>,
    pub result: Result<(), ChainError>,
}

/// The effects are those that the model says.
pub open spec fn has_effects(r: RelayEffects, want: Relayed) -> bool {
    &&& r.height == want.height
    &&& views(r.sends@) == want.sends
    &&& match r.broadcast {
        Some(p) => want.broadcast == Some(p@),
        None => want.broadcast is None,
    }
    &&& match r.result {
        Ok(_) => want.result is Ok,
        Err(e) => want.result == Err::<(), ChainFault>(e.fault()),
    }
}

/// Passes blocks and transactions on.
pub struct BlockRelay {
    announced_blocks: ByteMap<bool>,
}

fn announcement(inv_type: u32, hash: &Hash256) -> (r: MessagePayload)
    ensures
        r@ == PayloadView::Inv(seq![InvView { inv_type, hash: hash@ }]),
{
    let mut inventory: Vec<InvVector> = Vec::new();
    inventory.push(InvVector { inv_type, hash: *hash });
    assert(views(inventory@) =~= seq![InvView { inv_type, hash: hash@ }]);
    MessagePayload::Inv(InvMessage { inventory })
}

impl BlockRelay {
    /// The blocks that were announced.
    pub closed spec fn announced(self) -> Set<Seq<u8>> {
        self.announced_blocks@.dom()
    }

    pub fn new() -> (r: Self)
        ensures
            r.announced() == Set::<Seq<u8>>::empty(),
    {
        let r = BlockRelay { announced_blocks: ByteMap::with_buckets(256) };
        assert(r.announced() =~= Set::empty());
        r
    }

    /// What all peers are to be told of a new block, unless they were told.
    pub fn announce_block(&mut self, block_hash: &Hash256) -> (r: Option<MessagePayload>)
        ensures
            final(self).announced() == announced_with(old(self).announced(), block_hash@),
            match r {
                Some(p) => !old(self).announced().contains(block_hash@) && p@ == block_news(
                    block_hash@,
                ),
                None => old(self).announced().contains(block_hash@),
            },
    {
        // Check if already announced
        if self.announced_blocks.contains_key(block_hash) {
            return None;
        }
        // Prune when full: old entries are no longer useful (peers already have
        // those blocks).
        let ghost before = self.announced();
        if self.announced_blocks.len() >= MAX_ANNOUNCED_BLOCKS {
            self.announced_blocks = ByteMap::with_buckets(256);
            assert(self.announced() =~= Set::empty());
        }
        // Mark as announced
        let ghost middle = self.announced();
        let _ = self.announced_blocks.insert(vstd::slice::slice_to_vec(block_hash), true);
        proof {
            assert(self.announced() =~= middle.insert(block_hash@));
            assert(block_inventory(seq![block_hash@]) =~= seq![
                InvView { inv_type: INV_BLOCK, hash: block_hash@ },
            ]);
        }
        Some(announcement(INV_BLOCK, block_hash))
    }

    /// Handle received INV message
    pub fn handle_inv(
        sync: &mut SyncManager,
        chain: &ChainState,
        mempool: &NetworkMempool,
        peer_id: u64,
        inv: &InvMessage,
        now: u64,
    ) -> (sends: Vec<Outgoing>)
        requires
            old(sync).valid(),
        ensures
            ({
                let want = inv_received(old(sync)@, chain@, mempool@, peer_id, inv@, now);
                final(sync)@ == want.sync && views(sends@) == want.sends
            }),
            final(sync).valid(),
    {
        let ghost list = inv@;
        let mut trigger_sync: bool = false;
        let mut to_request: Vec<InvVector> = Vec::new();
        let mut i: usize = 0;
        assert(views(to_request@) =~= wanted(mempool@, list, 0));
        while i < inv.inventory.len()
            invariant
                i <= inv.inventory@.len(),
                list == inv@,
                trigger_sync == exists|j: int|
                    0 <= j < i && (#[trigger] list[j]).inv_type == INV_BLOCK && !stored(
                        chain@,
                        list[j].hash,
                    ),
                views(to_request@) == wanted(mempool@, list, i as nat),
            decreases inv.inventory@.len() - i,
        {
            let item = inv.inventory[i];
            assert(list[i as int] == item@);
            let ghost before = to_request@;
            if item.inv_type == INV_BLOCK {
                if !chain.has_block(&item.hash) {
                    trigger_sync = true;
                }
            } else if item.inv_type == INV_TX {
                if !mempool.has_transaction(&item.hash) {
                    to_request.push(item);
                    assert(views(to_request@) =~= views(before).push(item@));
                }
            }
            i += 1;
        }
        let mut sends: Vec<Outgoing> = Vec::new();
        assert(views(sends@) =~= Seq::empty());
        if trigger_sync && !sync.is_syncing() {
            sends = sync.request_headers_force(chain, peer_id, now);
        }
        if to_request.len() > 0 {
            let ghost before = sends@;
            let ghost want = views(to_request@);
            sends.push(
                Outgoing {
                    peer_id,
                    payload: MessagePayload::GetData(GetDataMessage { inventory: to_request }),
                    required: true,
                },
            );
            assert(views(sends@) =~= views(before).push(
                OutgoingView { peer_id, payload: PayloadView::GetData(want), required: true },
            ));
        }
        sends
    }

    /// Handle received GetData message: the blocks first, then the transactions.
    pub fn handle_getdata(
        chain: &ChainState,
        mempool: &NetworkMempool,
        peer_id: u64,
        getdata: &GetDataMessage,
    ) -> (sends: Vec<Outgoing>)
        ensures
            views(sends@) == blocks_for(chain@, peer_id, getdata@, getdata@.len())
                + transactions_for(mempool@, peer_id, getdata@, getdata@.len()),
    {
        let ghost list = getdata@;
        let mut blocks: Vec<Outgoing> = Vec::new();
        let mut txs: Vec<Outgoing> = Vec::new();
        let mut i: usize = 0;
        assert(views(blocks@) =~= blocks_for(chain@, peer_id, list, 0));
        assert(views(txs@) =~= transactions_for(mempool@, peer_id, list, 0));
        while i < getdata.inventory.len()
            invariant
                i <= getdata.inventory@.len(),
                list == getdata@,
                views(blocks@) == blocks_for(chain@, peer_id, list, i as nat),
                views(txs@) == transactions_for(mempool@, peer_id, list, i as nat),
            decreases getdata.inventory@.len() - i,
        {
            let item = getdata.inventory[i];
            assert(list[i as int] == item@);
            let ghost sent_blocks = blocks@;
            let ghost sent_txs = txs@;
            if item.inv_type == INV_BLOCK {
                if let Some(block) = find_block(chain, &item.hash) {
                    let ghost b = block@;
                    blocks.push(
                        Outgoing { peer_id, payload: MessagePayload::Block(block), required: true },
                    );
                    assert(views(blocks@) =~= views(sent_blocks).push(
                        OutgoingView { peer_id, payload: PayloadView::Block(b), required: true },
                    ));
                }
            } else if item.inv_type == INV_TX {
                if let Some(tx) = mempool.get_transaction(&item.hash) {
                    let ghost t = tx@;
                    txs.push(
                        Outgoing {
                            peer_id,
                            payload: MessagePayload::Tx(TxMessage { transaction: tx }),
                            required: true,
                        },
                    );
                    assert(views(txs@) =~= views(sent_txs).push(
                        OutgoingView { peer_id, payload: PayloadView::Tx(t), required: true },
                    ));
                }
            }
            i += 1;
        }
        let ghost b = blocks@;
        let ghost t = txs@;
        blocks.append(&mut txs);
        assert(views(blocks@) =~= views(b) + views(t));
        blocks
    }

    /// What follows once a run of blocks was added to the chain. The height is that
    /// of the last of them.
    pub fn finish_sync(
        mempool: &mut NetworkMempool,
        chain: &ChainState,
        applied: &Vec<(Block, u32)>,
        requeued: &Vec<Transaction>,
    ) -> (height: Option<u32>)
        ensures
            final(mempool)@ == pool_after_sync(
                old(mempool)@,
                chain@,
                views(applied@),
                views(requeued@),
            ),
            height == (if applied@.len() == 0 {
                None::<u32>
            } else {
                Some(applied@.last().1)
            }),
            coherent(old(mempool)@) ==> coherent(final(mempool)@),
    {
        if applied.len() == 0 {
            return None;
        }
        let ghost start = mempool@;
        let ghost list = views(applied@);
        let mut i: usize = 0;
        while i < applied.len()
            invariant
                i <= applied@.len(),
                list == views(applied@),
                start == old(mempool)@,
                mempool@ == all_confirmed(start, list, i as nat),
                coherent(start) ==> coherent(mempool@),
            decreases applied@.len() - i,
        {
            assert(list[i as int] == applied@[i as int]@);
            mempool.remove_block_transactions(&applied[i].0.transactions);
            i += 1;
        }
        mempool.purge_stale(chain);
        // Re-add transactions from disconnected blocks so they can be re-mined.
        mempool.add_all(chain, requeued);
        Some(applied[applied.len() - 1].1)
    }

    /// The mempool once a block became the tip.
    fn settle_pool(
        mempool: &mut NetworkMempool,
        chain: &ChainState,
        block: &Block,
        requeued: &Vec<Transaction>,
    )
        ensures
            final(mempool)@ == all_offered(
                purged(confirmed(old(mempool)@, block@.transactions), chain@.utxos),
                chain@.utxos,
                views(requeued@),
                requeued@.len(),
            ),
            coherent(old(mempool)@) ==> coherent(final(mempool)@),
    {
        mempool.remove_block_transactions(&block.transactions);
        mempool.purge_stale(chain);
        mempool.add_all(chain, requeued);
    }

    /// What follows once a block was added to the chain, or was not.
    fn after_block(
        &mut self,
        chain: &ChainState,
        sync: &mut SyncManager,
        mempool: &mut NetworkMempool,
        peer_id: u64,
        block: Block,
        added: Result<Vec<Transaction>, ChainError>,
        now: u64,
        Ghost(o): Ghost<Outcome<Seq<TransactionView>>>,
    ) -> (r: RelayEffects)
        requires
            old(sync).valid(),
            chain@ == o.chain,
            gives(added, o.result),
        ensures
            ({
                let want = block_tried(
                    o,
                    old(sync)@,
                    old(mempool)@,
                    old(self).announced(),
                    peer_id,
                    block@,
                    now,
                );
                &&& final(sync)@ == want.sync
                &&& final(mempool)@ == want.pool
                &&& final(self).announced() == want.announced
                &&& has_effects(r, want)
            }),
            final(sync).valid(),
            coherent(old(mempool)@) ==> coherent(final(mempool)@),
    {
        let hash = block.header.hash();
        let nothing: Vec<Outgoing> = Vec::new();
        assert(views(nothing@) =~= Seq::empty());
        match added {
            Ok(requeued) => {
                let height: Option<u32> = match chain.get_height_for_hash(&hash) {
                    Some(h) => Some(h as u32),
                    None => None,
                };
                let tip: bool = match chain.get_tip() {
                    Ok(Some(d)) => bytes_equal(&d.block.header.hash(), &hash),
                    _ => false,
                };
                assert(tip == is_tip(chain@, hash@));
                let mut broadcast: Option<MessagePayload> = None;
                if tip {
                    if !sync.is_syncing() {
                        broadcast = self.announce_block(&hash);
                    }
                    BlockRelay::settle_pool(mempool, chain, &block, &requeued);
                }
                RelayEffects { height, sends: nothing, broadcast, result: Ok(()) }
            },
            Err(ChainError::OrphanBlock) => {
                // Store the orphan so it can be applied once its parent arrives.
                sync.store_orphan(hash, block);
                let sends = if sync.is_syncing() {
                    nothing
                } else {
                    sync.request_headers_force(chain, peer_id, now)
                };
                RelayEffects { height: None, sends, broadcast: None, result: Ok(()) }
            },
            Err(e) => RelayEffects {
                height: None,
                sends: nothing,
                broadcast: None,
                result: Err(e),
            },
        }
    }

    /// A block that belongs to no synchronisation.
    pub fn relay_block(
        &mut self,
        chain: &mut ChainState,
        sync: &mut SyncManager,
        mempool: &mut NetworkMempool,
        peer_id: u64,
        block: Block,
        pow_hash: &Hash256,
        time: u64,
        now: u64,
    ) -> (r: RelayEffects)
        requires
            old(sync).valid(),
            old(chain).params.valid(),
        ensures
            ({
                let want = block_relayed(
                    old(chain)@,
                    old(sync)@,
                    old(mempool)@,
                    old(self).announced(),
                    peer_id,
                    block@,
                    pow_hash@,
                    time,
                    now,
                );
                &&& final(chain)@ == want.chain
                &&& final(sync)@ == want.sync
                &&& final(mempool)@ == want.pool
                &&& final(self).announced() == want.announced
                &&& has_effects(r, want)
            }),
            final(sync).valid(),
            final(chain).params == old(chain).params,
            final(chain).saved() == old(chain).saved(),
            endures(old(chain)@, block@, pow_hash@, time, final(chain)@),
            coherent(old(mempool)@) ==> coherent(final(mempool)@),
    {
        let hash = block.header.hash();
        if chain.has_block(&hash) {
            let height = match chain.get_height_for_hash(&hash) {
                Some(h) => Some(h as u32),
                None => match chain.block_store.get_block_meta(&hash) {
                    Ok(Some(m)) => Some(m.height as u32),
                    _ => None,
                },
            };
            let nothing: Vec<Outgoing> = Vec::new();
            assert(views(nothing@) =~= Seq::empty());
            return RelayEffects { height, sends: nothing, broadcast: None, result: Ok(()) };
        }
        let ghost o = add_block(chain@, block@, pow_hash@, time);
        let added = chain.add_block_at(block.clone(), pow_hash, time);
        self.after_block(chain, sync, mempool, peer_id, block, added, now, Ghost(o))
    }

    /// What all peers are to be told of a new transaction.
    pub fn announce_transaction(txid: &Hash256) -> (r: MessagePayload)
        ensures
            r@ == transaction_news(txid@),
    {
        announcement(INV_TX, txid)
    }

    /// Handle received transaction. One that is new goes on to all peers.
    pub fn handle_transaction(
        mempool: &mut NetworkMempool,
        chain: &ChainState,
        tx: &Transaction,
    ) -> (r: Result<Option<MessagePayload>, MempoolError>)
        ensures
            final(mempool)@ == offered(old(mempool)@, chain@.utxos, tx@),
            match r {
                Ok(Some(p)) => admission(old(mempool)@, chain@.utxos, tx@) == Ok::<
                    bool,
                    MempoolError,
                >(true) && p@ == transaction_news(tx@.txid()),
                Ok(None) => admission(old(mempool)@, chain@.utxos, tx@) == Ok::<
                    bool,
                    MempoolError,
                >(false),
                Err(e) => admission(old(mempool)@, chain@.utxos, tx@) == Err::<bool, MempoolError>(
                    e,
                ),
            },
            coherent(old(mempool)@) ==> coherent(final(mempool)@),
    {
        match mempool.add_transaction(chain, tx.clone()) {
            Ok(true) => {
                let txid = tx.txid();
                Ok(Some(BlockRelay::announce_transaction(&txid)))
            },
            Ok(false) => Ok(None),  // Already have it
            Err(e) => Err(e),
        }
    }
}

fn find_block(chain: &ChainState, hash: &Hash256) -> (r: Option<BlockMessage>)
    ensures
        match r {
            Some(b) => block_there(chain@, hash@) == Some(b@),
            None => block_there(chain@, hash@) is None,
        },
{
    match chain.get_block(hash) {
        Some(b) => {
            let b = b.clone();
            Some(BlockMessage { header: b.header, transactions: b.transactions })
        },
        None => match chain.block_store.get_block(hash) {
            Ok(Some(b)) => Some(BlockMessage { header: b.header, transactions: b.transactions }),
            _ => None,
        },
    }
}

} // verus!
