//! What becomes of a block that is handed to the chain.

use crate::consensus::block::BlockView;
use crate::consensus::chain_model::{
    add_block, becomes_tip, connect, content_error, disconnect, disconnect_one, place, reconnect,
    reconnect_one, weighed, ChainFault, ChainView,
};
use crate::consensus::ledger::{lemma_block_spends_unspent, scan_block};

use crate::consensus::transaction::TransactionView;
use crate::consensus::validation::{block_error, height_error};
use crate::laws::chain::{block_makes, block_takes, lemma_connected_outputs};
use crate::laws::ledger::{is_output, lemma_block_spends, takes};
use crate::laws::utxo::{lemma_disconnected_outputs, makes};
use crate::consensus::utxo::OutPointView;
use crate::storage::blocks::{hash_at_height, Lookup};
use crate::storage::convert::UndoPair;
use crate::storage::db::{lemma_row_injective, value_at, ColumnFamily};
use crate::storage::utxo::{outpoints_of, undo_at};
use vstd::prelude::*;

verus! {

/// A new block is accepted only if it follows from its predecessor, breaks none of its own rules, and
/// states its height, unless it is the first.
pub proof fn lemma_accepted_is_valid(
    chain: ChainView,
    block: BlockView,
    pow_hash: Seq<u8>,
    now: u64,
)
    requires
        !chain.known(block.hash()),
        add_block(chain, block, pow_hash, now).result is Ok,
    ensures
        place(chain, block.header, now).result is Ok,
        block_error(block.header, block.transactions, pow_hash) is None,
        place(chain, block.header, now).result->Ok_0.0 > 0 ==> height_error(
            block.transactions[0],
            place(chain, block.header, now).result->Ok_0.0 as u32,
        ) is None,
{
}

/// A block that breaks a rule of its own is refused with that rule.
pub proof fn lemma_refused_with_reason(
    chain: ChainView,
    block: BlockView,
    pow_hash: Seq<u8>,
    now: u64,
)
    requires
        !chain.known(block.hash()),
        place(chain, block.header, now).result is Ok,
        block_error(block.header, block.transactions, pow_hash) is Some,
    ensures
        add_block(chain, block, pow_hash, now).result == Err::<Seq<TransactionView>, ChainFault>(
            ChainFault::InvalidBlock(
                block_error(block.header, block.transactions, pow_hash)->Some_0,
            ),
        ),
{
}

/// A block behind the tip that becomes the tip is connected to it: its transactions are checked and
/// take effect, the index names it, and no transaction is handed back.
pub proof fn lemma_tip_extended(chain: ChainView, block: BlockView, pow_hash: Seq<u8>, now: u64)
    requires
        !chain.known(block.hash()),
        chain.tip is None || chain.tip == Some(block.header.prev_block_hash),
        chain.tip != Some(block.hash()),
        block.hash().len() == 32,
        place(chain, block.header, now).result is Ok,
        content_error(block, place(chain, block.header, now).result->Ok_0.0, pow_hash) is None,
        becomes_tip(
            weighed(chain, block, now),
            block.hash(),
            place(chain, block.header, now).result->Ok_0.1,
        ),
    ensures
        ({
            let after = add_block(chain, block, pow_hash, now);
            let (height, work) = place(chain, block.header, now).result->Ok_0;
            let c = weighed(chain, block, now);
            let done = connect(c, block, height);
            &&& after.result is Ok <==> done.result is Ok
            &&& after.result is Ok ==> {
                &&& after.result->Ok_0.len() == 0
                &&& after.chain.utxos == done.chain.utxos
                &&& after.chain.tip == Some(block.hash())
                &&& hash_at_height(after.chain.blocks, height) == Lookup::<Seq<u8>>::Ok(
                    Some(block.hash()),
                )
                &&& value_at(after.chain.blocks, ColumnFamily::Blocks, block.hash()) is Some
                &&& forall|key: Seq<u8>|
                    key != block.hash() ==> #[trigger] value_at(
                        after.chain.blocks,
                        ColumnFamily::Blocks,
                        key,
                    ) == value_at(chain.blocks, ColumnFamily::Blocks, key)
            }
            &&& after.result is Err ==> after.chain.tip == chain.tip && after.chain.utxos
                == chain.utxos && after.chain.state == chain.state && after.chain.blocks
                == chain.blocks
        }),
{
    broadcast use lemma_row_injective;

}

/// Paths are taken one block after the other: disconnected from the front, connected from the end.
pub proof fn lemma_paths_in_turn(chain: ChainView, path: Seq<Seq<u8>>, n: nat)
    requires
        n < path.len(),
    ensures
        disconnect(chain, path, 0).chain == chain,
        disconnect(chain, path, n).result is Ok ==> disconnect(chain, path, n + 1)
            == disconnect_one(disconnect(chain, path, n).chain, path[n as int]),
        disconnect(chain, path, n).result is Err ==> disconnect(chain, path, n + 1) == disconnect(
            chain,
            path,
            n,
        ),
        reconnect(chain, path, 0).chain == chain,
        reconnect(chain, path, n).result is Ok ==> reconnect(chain, path, n + 1) == reconnect_one(
            reconnect(chain, path, n).chain,
            path[path.len() - 1 - n],
        ),
        reconnect(chain, path, n).result is Err ==> reconnect(chain, path, n + 1) == reconnect(
            chain,
            path,
            n,
        ),
{
}

/// A block of a path is connected at its own height, and the index names it there.
pub proof fn lemma_reconnected(chain: ChainView, hash: Seq<u8>, block: BlockView, height: u64)
    requires
        hash.len() == 32,
        chain.block_with_height(hash) == Ok::<(BlockView, u64), ChainFault>((block, height)),
    ensures
        ({
            let after = reconnect_one(chain, hash);
            let done = connect(chain, block, height);
            &&& after.result is Ok <==> done.result is Ok
            &&& after.chain.utxos == done.chain.utxos
            &&& after.result is Ok ==> hash_at_height(after.chain.blocks, height) == Lookup::<
                Seq<u8>,
            >::Ok(Some(hash))
            &&& after.result is Err ==> after.chain == chain
        }),
{
    broadcast use lemma_row_injective;

}

/// Disconnecting the block that was connected last leaves the outputs unspent that were before,
/// provided that the block made none that was there already.
pub proof fn lemma_undo_restores(chain: ChainView, block: BlockView, height: u64, key: Seq<u8>)
    requires
        connect(chain, block, height).result is Ok,
        chain.block_of(block.hash()) == Ok::<BlockView, ChainFault>(block),
        undo_at(connect(chain, block, height).chain.utxos, block.hash()) == Lookup::<
            Seq<UndoPair>,
        >::Ok(Some(scan_block(chain.utxos, block, height).spent)),
        forall|k: int, j: int|
            #![trigger block.transactions[k].outputs[j]]
            0 <= k < block.transactions.len() && 0 <= j < block.transactions[k].outputs.len()
                ==> value_at(
                chain.utxos,
                ColumnFamily::Utxo,
                (OutPointView { txid: block.transactions[k].txid(), vout: j as u32 }).key(),
            ) is None,
    ensures
        ({
            let back = disconnect_one(connect(chain, block, height).chain, block.hash());
            &&& back.result is Ok
            &&& value_at(back.chain.utxos, ColumnFamily::Utxo, key) is Some <==> value_at(
                chain.utxos,
                ColumnFamily::Utxo,
                key,
            ) is Some
        }),
{
    let txs = block.transactions;
    let n = txs.len();
    let done = connect(chain, block, height).chain;
    let scan = scan_block(chain.utxos, block, height);
    lemma_connected_outputs(chain, block, height, key);
    lemma_disconnected_outputs(done, block.hash(), block, scan.spent, key);
    lemma_block_spends(chain.utxos, txs, n, height);
    let spent = outpoints_of(scan.spent);
    if block_takes(block, key) {
        let (k, j, o) = choose|k: int, j: int, o: OutPointView|
            #[trigger] takes(txs, k, j, o) && o.key() == key;
        assert(k < n && takes(txs, k, j, o));
        assert(spent.contains(o));
        let i = choose|i: int| 0 <= i < spent.len() && spent[i] == o;
        assert(scan.spent[i].0.key() == key);
        lemma_block_spends_unspent(chain.utxos, txs, n, height);
    }
    if exists|i: int| 0 <= i < scan.spent.len() && (#[trigger] scan.spent[i]).0.key() == key {
        let i = choose|i: int|
            0 <= i < scan.spent.len() && (#[trigger] scan.spent[i]).0.key() == key;
        lemma_block_spends_unspent(chain.utxos, txs, n, height);
        let o = spent[i];
        assert(spent.contains(o));
        let (k, j) = choose|k: int, j: int| k < n && #[trigger] takes(txs, k, j, o);
        assert(takes(txs, k, j, o) && o.key() == key);
        assert(block_takes(block, key));
    }
    if exists|k: int, j: int| #[trigger] makes(txs, k, j, key) {
        let (k, j) = choose|k: int, j: int| #[trigger] makes(txs, k, j, key);
        let output = block.transactions[k].outputs[j];
        assert(value_at(chain.utxos, ColumnFamily::Utxo, key) is None);
    }
    if block_makes(block, height, key) {
        let (k, j, pair) = choose|k: int, j: int, pair: UndoPair|
            #[trigger] is_output(txs, k, j, height, pair) && pair.0.key() == key;
        assert(pair.0 == (OutPointView { txid: txs[k].txid(), vout: j as u32 }));
        assert(makes(txs, k, j, key));
    }
}

} // verus!
