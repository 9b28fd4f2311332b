//! What is passed on, and which peers there are.

use crate::consensus::block::BlockView;
use crate::consensus::chain_model::{add_block, ChainFault, ChainView, Outcome};
use crate::consensus::transaction::TransactionView;
use crate::laws::mempool::{
    lemma_offers_only_add, lemma_purge_keeps_spendable, share_outpoint, spends_well,
};
use crate::laws::reorganisation::all_inputs_there;
use crate::network::address::IpAddrView;
use crate::network::inspect::{is_trusted, VerdictView};
use crate::network::manager::{
    all_departed, forgotten, inbound_refusal, message_handled, numbered, outbound_refusal,
    picked_of, picks, sent_counted, welcomed, ManagerView, Pick,
};
use crate::network::mempool::{all_offered, confirmed, purged, Pool};
use crate::network::peer::{PeerState, PeerView};
use crate::network::protocol::{InvView, PayloadView};
use crate::network::relay::{
    all_confirmed, announced_with, block_news, block_relayed, block_there, block_tried, blocks_for,
    has_news, inv_received, is_tip, pool_after_sync, transaction_news, transactions_for, wanted,
};
use crate::network::sync_model::SyncView;
use vstd::prelude::*;

verus! {

proof fn lemma_last<A>(s: Seq<A>, e: A)
    requires
        s.len() > 0,
    ensures
        s.contains(e) <==> s.drop_last().contains(e) || s.last() == e,
{
    if s.contains(e) {
        let i = choose|i: int| 0 <= i < s.len() && s[i] == e;
        if i < s.len() - 1 {
            assert(s.drop_last()[i] == e);
        }
    }
    if s.drop_last().contains(e) {
        let i = choose|i: int| 0 <= i < s.drop_last().len() && s.drop_last()[i] == e;
        assert(s[i] == e);
    }
    if s.last() == e {
        assert(s[s.len() - 1] == e);
    }
}

/// News of a block name it with the mark of blocks, news of a transaction with that of transactions.
pub proof fn lemma_news(hash: Seq<u8>)
    ensures
        block_news(hash) is Inv,
        block_news(hash)->Inv_0.len() == 1,
        block_news(hash)->Inv_0[0].inv_type == 2,
        block_news(hash)->Inv_0[0].hash == hash,
        transaction_news(hash) is Inv,
        transaction_news(hash)->Inv_0.len() == 1,
        transaction_news(hash)->Inv_0[0].inv_type == 1,
        transaction_news(hash)->Inv_0[0].hash == hash,
{
}

/// What was announced is remembered; where a thousand are, the others are forgotten.
pub proof fn lemma_announced(announced: Set<Seq<u8>>, hash: Seq<u8>, other: Seq<u8>)
    requires
        other != hash,
    ensures
        announced_with(announced, hash).contains(hash),
        announced.contains(hash) || announced.len() < 1000 ==> (announced_with(
            announced,
            hash,
        ).contains(other) <==> announced.contains(other)),
        !announced.contains(hash) && announced.len() >= 1000 ==> !announced_with(
            announced,
            hash,
        ).contains(other),
{
}

/// Of what a peer announces those transactions are asked for that do not wait already.
pub proof fn lemma_transactions_wanted(pool: Pool, inventory: Seq<InvView>, n: nat, item: InvView)
    requires
        n <= inventory.len(),
    ensures
        wanted(pool, inventory, n).contains(item) <==> item.inv_type == 1 && !pool.contains_key(
            item.hash,
        ) && inventory.take(n as int).contains(item),
    decreases n,
{
    if n > 0 {
        let m = (n - 1) as nat;
        lemma_transactions_wanted(pool, inventory, m, item);
        let part = inventory.take(n as int);
        lemma_last(part, item);
        assert(part.drop_last() =~= inventory.take(m as int));
        let before = wanted(pool, inventory, m);
        let more = before.push(inventory[m as int]);
        lemma_last(more, item);
        assert(more.drop_last() =~= before);
    } else {
        assert(inventory.take(0) =~= Seq::empty());
        assert(!wanted(pool, inventory, n).contains(item));
        assert(!inventory.take(0).contains(item));
    }
}

/// A peer is followed exactly if it announces a block that is not stored and nothing is being fetched.
pub proof fn lemma_news_followed(
    v: SyncView,
    chain: ChainView,
    pool: Pool,
    peer: u64,
    inventory: Seq<InvView>,
    now: u64,
)
    ensures
        ({
            let news = exists|i: int|
                0 <= i < inventory.len() && (#[trigger] inventory[i]).inv_type == 2
                    && crate::storage::db::value_at(
                    chain.blocks,
                    crate::storage::db::ColumnFamily::Blocks,
                    inventory[i].hash,
                ) is None;
            &&& has_news(chain, inventory) <==> news
            &&& !news ==> inv_received(v, chain, pool, peer, inventory, now).sync == v
            &&& v.state is DownloadingBlocks || v.state is DownloadingHeaders ==> inv_received(
                v,
                chain,
                pool,
                peer,
                inventory,
                now,
            ).sync == v
            &&& news && !(v.state is DownloadingBlocks || v.state is DownloadingHeaders)
                ==> inv_received(v, chain, pool, peer, inventory, now).sync.state
                is DownloadingHeaders
        }),
{
}

/// A peer is sent a block exactly if it asked for it as a block and it is there.
pub proof fn lemma_blocks_sent(
    chain: ChainView,
    peer: u64,
    inventory: Seq<InvView>,
    n: nat,
    b: BlockView,
)
    requires
        n <= inventory.len(),
    ensures
        (exists|i: int|
            0 <= i < blocks_for(chain, peer, inventory, n).len() && (#[trigger] blocks_for(
                chain,
                peer,
                inventory,
                n,
            )[i]).payload == PayloadView::Block(b)) <==> exists|k: int|
            0 <= k < n && (#[trigger] inventory[k]).inv_type == 2 && block_there(
                chain,
                inventory[k].hash,
            ) == Some(b),
        forall|i: int|
            0 <= i < blocks_for(chain, peer, inventory, n).len() ==> (#[trigger] blocks_for(
                chain,
                peer,
                inventory,
                n,
            )[i]).peer_id == peer && blocks_for(chain, peer, inventory, n)[i].payload is Block,
    decreases n,
{
    if n > 0 {
        let m = (n - 1) as nat;
        lemma_blocks_sent(chain, peer, inventory, m, b);
        let before = blocks_for(chain, peer, inventory, m);
        let all = blocks_for(chain, peer, inventory, n);
        assert forall|i: int| 0 <= i < all.len() implies (#[trigger] all[i]).peer_id == peer
            && all[i].payload is Block by {
            if i < before.len() {
                assert(all[i] == before[i]);
            }
        }
        if exists|i: int|
            0 <= i < all.len() && (#[trigger] all[i]).payload == PayloadView::Block(b) {
            let i = choose|i: int|
                0 <= i < all.len() && (#[trigger] all[i]).payload == PayloadView::Block(b);
            if i < before.len() {
                assert(before[i].payload == PayloadView::Block(b));
            } else {
                assert(inventory[m as int].inv_type == 2);
            }
        }
        if exists|k: int|
            0 <= k < n && (#[trigger] inventory[k]).inv_type == 2 && block_there(
                chain,
                inventory[k].hash,
            ) == Some(b) {
            let k = choose|k: int|
                0 <= k < n && (#[trigger] inventory[k]).inv_type == 2 && block_there(
                    chain,
                    inventory[k].hash,
                ) == Some(b);
            if k < m {
                let i = choose|i: int|
                    0 <= i < before.len() && (#[trigger] before[i]).payload == PayloadView::Block(b);
                assert(all[i] == before[i]);
            } else {
                assert(all[before.len() as int].payload == PayloadView::Block(b));
            }
        }
    }
}

/// A peer is sent a transaction exactly if it asked for it as a transaction and it waits.
pub proof fn lemma_transactions_sent(
    pool: Pool,
    peer: u64,
    inventory: Seq<InvView>,
    n: nat,
    tx: TransactionView,
)
    requires
        n <= inventory.len(),
    ensures
        (exists|i: int|
            0 <= i < transactions_for(pool, peer, inventory, n).len() && (
            #[trigger] transactions_for(pool, peer, inventory, n)[i]).payload == PayloadView::Tx(
                tx,
            )) <==> exists|k: int|
            0 <= k < n && (#[trigger] inventory[k]).inv_type == 1 && pool.contains_key(
                inventory[k].hash,
            ) && pool[inventory[k].hash] == tx,
        forall|i: int|
            0 <= i < transactions_for(pool, peer, inventory, n).len() ==> (
            #[trigger] transactions_for(pool, peer, inventory, n)[i]).peer_id == peer,
    decreases n,
{
    if n > 0 {
        let m = (n - 1) as nat;
        lemma_transactions_sent(pool, peer, inventory, m, tx);
        let before = transactions_for(pool, peer, inventory, m);
        let all = transactions_for(pool, peer, inventory, n);
        assert forall|i: int| 0 <= i < all.len() implies (#[trigger] all[i]).peer_id == peer by {
            if i < before.len() {
                assert(all[i] == before[i]);
            }
        }
        if exists|i: int| 0 <= i < all.len() && (#[trigger] all[i]).payload == PayloadView::Tx(tx) {
            let i = choose|i: int|
                0 <= i < all.len() && (#[trigger] all[i]).payload == PayloadView::Tx(tx);
            if i < before.len() {
                assert(before[i].payload == PayloadView::Tx(tx));
            } else {
                assert(inventory[m as int].inv_type == 1);
            }
        }
        if exists|k: int|
            0 <= k < n && (#[trigger] inventory[k]).inv_type == 1 && pool.contains_key(
                inventory[k].hash,
            ) && pool[inventory[k].hash] == tx {
            let k = choose|k: int|
                0 <= k < n && (#[trigger] inventory[k]).inv_type == 1 && pool.contains_key(
                    inventory[k].hash,
                ) && pool[inventory[k].hash] == tx;
            if k < m {
                let i = choose|i: int|
                    0 <= i < before.len() && (#[trigger] before[i]).payload == PayloadView::Tx(tx);
                assert(all[i] == before[i]);
            } else {
                assert(all[before.len() as int].payload == PayloadView::Tx(tx));
            }
        }
    }
}

/// Whether a transaction of the first `n` blocks has an identifier, or names an output that another
/// names.
pub open spec fn touched(
    applied: Seq<(BlockView, u32)>,
    n: nat,
    id: Seq<u8>,
    tx: TransactionView,
    i: int,
    k: int,
) -> bool {
    &&& 0 <= i < n
    &&& 0 <= k < applied[i].0.transactions.len()
    &&& applied[i].0.transactions[k].txid() == id || share_outpoint(
        applied[i].0.transactions[k],
        tx,
    )
}

/// Blocks that were added take out of the pool what is in them or at odds with them, and no more.
pub proof fn lemma_blocks_confirmed(pool: Pool, applied: Seq<(BlockView, u32)>, n: nat, id: Seq<u8>)
    requires
        n <= applied.len(),
    ensures
        all_confirmed(pool, applied, n).contains_key(id) <==> pool.contains_key(id) && !(exists|
            i: int,
            k: int,
        |
            #[trigger] touched(applied, n, id, pool[id], i, k)),
        all_confirmed(pool, applied, n).contains_key(id) ==> all_confirmed(pool, applied, n)[id]
            == pool[id],
    decreases n,
{
    if n > 0 {
        let m = (n - 1) as nat;
        lemma_blocks_confirmed(pool, applied, m, id);
        let before = all_confirmed(pool, applied, m);
        let txs = applied[m as int].0.transactions;
        crate::laws::mempool::lemma_block_takes_only_its_own(before, txs, id);
        if exists|i: int, k: int| #[trigger] touched(applied, n, id, pool[id], i, k) {
            let (i, k) = choose|i: int, k: int| #[trigger] touched(applied, n, id, pool[id], i, k);
            if i < m {
                assert(touched(applied, m, id, pool[id], i, k));
            } else {
                assert(txs[k].txid() == id || share_outpoint(txs[k], pool[id]));
            }
        }
        if exists|i: int, k: int| #[trigger] touched(applied, m, id, pool[id], i, k) {
            let (i, k) = choose|i: int, k: int| #[trigger] touched(applied, m, id, pool[id], i, k);
            assert(touched(applied, n, id, pool[id], i, k));
        }
        if before.contains_key(id) && !all_confirmed(pool, applied, n).contains_key(id) {
            let k = choose|k: int|
                0 <= k < txs.len() && ((#[trigger] txs[k]).txid() == id || share_outpoint(
                    txs[k],
                    pool[id],
                ));
            assert(touched(applied, n, id, pool[id], m as int, k));
        }
    }
}

/// A block that is the new tip takes its transactions out of the pool, brings back those of blocks
/// that left the chain, and is announced once, unless blocks are being fetched.
pub proof fn lemma_new_tip_relayed(
    o: Outcome<Seq<TransactionView>>,
    sync: SyncView,
    pool: Pool,
    announced: Set<Seq<u8>>,
    peer: u64,
    block: BlockView,
    now: u64,
)
    requires
        o.result is Ok,
    ensures
        ({
            let r = block_tried(o, sync, pool, announced, peer, block, now);
            let fetching = sync.state is DownloadingBlocks || sync.state is DownloadingHeaders;
            &&& r.result is Ok
            &&& r.chain == o.chain
            &&& r.sync == sync
            &&& r.sends.len() == 0
            &&& is_tip(o.chain, block.hash()) ==> r.pool == all_offered(
                purged(confirmed(pool, block.transactions), o.chain.utxos),
                o.chain.utxos,
                o.result->Ok_0,
                o.result->Ok_0.len(),
            )
            &&& is_tip(o.chain, block.hash()) && !fetching && !announced.contains(block.hash())
                ==> r.broadcast == Some(block_news(block.hash())) && r.announced.contains(
                block.hash(),
            )
            &&& fetching || announced.contains(block.hash()) || !is_tip(o.chain, block.hash())
                ==> r.broadcast is None
            &&& !is_tip(o.chain, block.hash()) ==> r.pool == pool && r.announced == announced
        }),
{
}

/// A block without its predecessor is kept, and whoever sent it is asked for more; any other that is
/// refused changes neither pool nor synchronisation, and no refused block is announced.
pub proof fn lemma_refused_relayed(
    o: Outcome<Seq<TransactionView>>,
    sync: SyncView,
    pool: Pool,
    announced: Set<Seq<u8>>,
    peer: u64,
    block: BlockView,
    now: u64,
)
    requires
        o.result is Err,
    ensures
        ({
            let r = block_tried(o, sync, pool, announced, peer, block, now);
            &&& r.pool == pool
            &&& r.announced == announced
            &&& r.broadcast is None
            &&& o.result->Err_0 != ChainFault::OrphanBlock ==> r.sync == sync && r.sends.len() == 0
                && r.result == Err::<(), ChainFault>(o.result->Err_0)
            &&& o.result->Err_0 == ChainFault::OrphanBlock ==> r.result is Ok
        }),
{
}

/// The peers that are meant are those of a list to which it applies, in its order.
pub proof fn lemma_peers_meant(
    peers: Map<u64, PeerView>,
    ids: Seq<u64>,
    pick: Pick,
    now: u64,
    id: u64,
)
    ensures
        picked_of(peers, ids, pick, now).contains(id) <==> ids.contains(id) && picks(
            peers[id],
            pick,
            now,
        ),
    decreases ids.len(),
{
    if ids.len() > 0 {
        lemma_peers_meant(peers, ids.drop_last(), pick, now, id);
        lemma_last(ids, id);
        let before = picked_of(peers, ids.drop_last(), pick, now);
        let more = before.push(ids.last());
        lemma_last(more, id);
        assert(more.drop_last() =~= before);
    } else {
        assert(!picked_of(peers, ids, pick, now).contains(id));
    }
}

/// A peer is dead when nothing came of it for twenty minutes, or it sends too fast.
pub proof fn lemma_dead_peers(p: PeerView, now: u64)
    requires
        now >= p.last_recv,
    ensures
        picks(p, Pick::Silent, now) <==> now > p.last_recv + 1_200_000_000_000,
        picks(p, Pick::Dead, now) <==> picks(p, Pick::Silent, now) || (now > p.bandwidth_start
            && p.bytes_received * 100 > now - p.bandwidth_start),
        picks(p, Pick::Inbound, now) <==> p.inbound,
        picks(p, Pick::Outbound, now) <==> !p.inbound,
        picks(p, Pick::Active, now) <==> p.state == PeerState::Active,
        picks(p, Pick::ActiveOutbound, now) <==> p.state == PeerState::Active && !p.inbound,
{
}

/// We connect to an address exactly if the limits allow it, there is room, and nobody is connected
/// from it.
pub proof fn lemma_outbound_allowed(m: ManagerView, ip: IpAddrView, now: u64)
    ensures
        outbound_refusal(m, ip, now) is None <==> {
            &&& crate::network::dos::allows_outbound(
                m.dos,
                crate::network::address::ip_key(ip),
                now,
            )
            &&& m.peers.dom().len() < m.max_peers
            &&& forall|id: u64| #[trigger] m.peers.contains_key(id) ==> m.peers[id].addr.ip != ip
        },
{
}

/// A connection is taken exactly if there is room and a number for it, and, unless the address is
/// trusted, the limits allow it, the peers stay spread, and nobody is connected from it.
pub proof fn lemma_inbound_allowed(m: ManagerView, ip: IpAddrView, now: u64)
    ensures
        inbound_refusal(m, ip, now) is None <==> {
            &&& m.peers.dom().len() < m.max_peers
            &&& m.next_id < 0xFFFF_FFFF_FFFF_FFFF
            &&& is_trusted(ip) || {
                &&& crate::network::dos::accepts_inbound(
                    m.dos,
                    crate::network::address::ip_key(ip),
                    now,
                )
                &&& m.magic == crate::network::message::REGTEST_MAGIC@
                    || crate::network::security::keeps_diversity(
                    m.security,
                    ip,
                    m.peers.dom().len() as usize,
                )
                &&& forall|id: u64| #[trigger]
                    m.peers.contains_key(id) ==> m.peers[id].addr.ip != ip
            }
        },
{
}

/// A peer that is gone is no longer there, and all others are as they were.
pub proof fn lemma_one_forgotten(m: ManagerView, id: u64, other: u64)
    requires
        other != id,
    ensures
        !forgotten(m, id).peers.contains_key(id),
        forgotten(m, id).peers.contains_key(other) == m.peers.contains_key(other),
        m.peers.contains_key(other) ==> forgotten(m, id).peers[other] == m.peers[other],
        forgotten(m, id).next_id == m.next_id,
        forgotten(m, id).max_peers == m.max_peers,
        forgotten(m, id).magic == m.magic,
        !m.peers.contains_key(id) ==> forgotten(m, id) == m,
        m.peers.contains_key(id) ==> !forgotten(m, id).batcher.inv.contains_key(id) && !forgotten(
            m,
            id,
        ).cache.sent.contains_key(id) && !forgotten(m, id).security.group_by_peer.contains_key(id),
{
}

/// A peer that completed the handshake is active from then on, and counts for its address.
pub proof fn lemma_welcomed(m: ManagerView, p: PeerView, now: u64, other: u64)
    requires
        other != p.id,
    ensures
        ({
            let after = welcomed(m, p, now);
            &&& after.peers.contains_key(p.id)
            &&& after.peers[p.id].state == PeerState::Active
            &&& after.peers[p.id].connected_at == now
            &&& after.peers[p.id].last_recv == now
            &&& after.peers[p.id].addr == p.addr
            &&& after.peers[p.id].inbound == p.inbound
            &&& after.peers[p.id].version == p.version
            &&& after.peers[p.id].ban_score == p.ban_score
            &&& after.peers.contains_key(other) == m.peers.contains_key(other)
            &&& m.peers.contains_key(other) ==> after.peers[other] == m.peers[other]
            &&& after.security.group_by_peer.contains_key(p.id)
            &&& after.batcher == m.batcher
        }),
        m.next_id < 0xFFFF_FFFF_FFFF_FFFF ==> numbered(m).next_id == m.next_id + 1,
        numbered(m).peers == m.peers,
{
}

/// What is sent to a peer is counted for it alone.
pub proof fn lemma_sent_counted(m: ManagerView, id: u64, size: nat, other: u64)
    requires
        m.peers.contains_key(id),
        m.peers[id].bytes_sent + size <= 0xFFFF_FFFF_FFFF_FFFF,
        other != id,
    ensures
        sent_counted(m, id, size).peers[id].bytes_sent == m.peers[id].bytes_sent + size,
        sent_counted(m, id, size).peers[id].bytes_received == m.peers[id].bytes_received,
        m.peers.contains_key(other) ==> sent_counted(m, id, size).peers[other] == m.peers[other],
{
}

/// Blocks that were fetched take their transactions out of the pool, then what can no longer be spent
/// goes, and those of blocks that left the chain are offered again. Without blocks nothing changes.
pub proof fn lemma_pool_after_blocks(
    pool: Pool,
    chain: ChainView,
    applied: Seq<(BlockView, u32)>,
    requeued: Seq<TransactionView>,
    id: Seq<u8>,
)
    ensures
        applied.len() == 0 ==> pool_after_sync(pool, chain, applied, requeued) == pool,
        applied.len() > 0 ==> {
            let after = pool_after_sync(pool, chain, applied, requeued);
            let stays = {
                &&& pool.contains_key(id)
                &&& !(exists|i: int, k: int| #[trigger]
                    touched(applied, applied.len(), id, pool[id], i, k))
                &&& all_inputs_there(chain.utxos, pool[id])
            };
            &&& stays ==> after.contains_key(id) && after[id] == pool[id]
            &&& after.contains_key(id) && !stays ==> exists|i: int|
                0 <= i < requeued.len() && #[trigger] requeued[i] == after[id]
                    && requeued[i].txid() == id && spends_well(chain.utxos, requeued[i])
        },
{
    if applied.len() > 0 {
        let first = all_confirmed(pool, applied, applied.len());
        lemma_blocks_confirmed(pool, applied, applied.len(), id);
        lemma_purge_keeps_spendable(first, chain.utxos, id);
        lemma_offers_only_add(
            purged(first, chain.utxos),
            chain.utxos,
            requeued,
            requeued.len(),
            id,
        );
    }
}

/// A block that is stored already changes nothing.
pub proof fn lemma_known_block_relayed(
    chain: ChainView,
    sync: SyncView,
    pool: Pool,
    announced: Set<Seq<u8>>,
    peer: u64,
    block: BlockView,
    pow_hash: Seq<u8>,
    time: u64,
    now: u64,
)
    ensures
        ({
            let r = block_relayed(
                chain,
                sync,
                pool,
                announced,
                peer,
                block,
                pow_hash,
                time,
                now,
            );
            let there = crate::storage::db::value_at(
                chain.blocks,
                crate::storage::db::ColumnFamily::Blocks,
                block.hash(),
            ) is Some;
            &&& there ==> r.chain == chain && r.sync == sync && r.pool == pool && r.announced
                == announced && r.broadcast is None && r.sends.len() == 0 && r.result is Ok
            &&& !there ==> r.chain == add_block(chain, block, pow_hash, time).chain
        }),
{
}

/// All peers of a list are gone once they departed, and no others.
pub proof fn lemma_all_gone(
    m: ManagerView,
    v: SyncView,
    ids: Seq<u64>,
    n: nat,
    now: u64,
    id: u64,
)
    requires
        n <= ids.len(),
    ensures
        all_departed(m, v, ids, n, now).manager.peers.contains_key(id) <==> m.peers.contains_key(id)
            && forall|i: int| 0 <= i < n ==> #[trigger] ids[i] != id,
        all_departed(m, v, ids, n, now).manager.peers.contains_key(id) ==> all_departed(
            m,
            v,
            ids,
            n,
            now,
        ).manager.peers[id] == m.peers[id],
    decreases n,
{
    if n > 0 {
        let before = all_departed(m, v, ids, (n - 1) as nat, now);
        lemma_all_gone(m, v, ids, (n - 1) as nat, now, id);
        if ids[n - 1] != id {
            lemma_one_forgotten(before.manager, ids[n - 1], id);
        } else {
            lemma_one_forgotten(before.manager, id, (if id == 0 {
                1u64
            } else {
                0u64
            }));
        }
    }
}

/// A message of a peer that is not there is dropped. One of a peer that is to be banned ends its
/// connection, and no other message does.
pub proof fn lemma_banned_goes(
    m: ManagerView,
    v: SyncView,
    stats: crate::network::stats::NetworkStats,
    id: u64,
    msg: crate::network::message::NetworkMessageView,
    time: u64,
    now: u64,
    other: u64,
)
    requires
        other != id,
    ensures
        ({
            let r = message_handled(m, v, stats, id, msg, time, now);
            &&& !m.peers.contains_key(id) ==> r.manager == m && r.sync == v && r.verdict
                == VerdictView::Drop
            &&& m.peers.contains_key(id) && r.verdict is Ban ==> !r.manager.peers.contains_key(id)
            &&& m.peers.contains_key(id) && !(r.verdict is Ban) ==> r.manager.peers.contains_key(id)
                && r.sync == v && r.sends.len() == 0
            &&& r.manager.peers.contains_key(other) == m.peers.contains_key(other)
            &&& m.peers.contains_key(other) ==> r.manager.peers[other] == m.peers[other]
        }),
{
}

} // verus!
