//! What a reorganisation hands back.

use crate::consensus::chain_model::{
    fork_paths, inputs_unspent, reorganize, requeued, still_spendable, ChainView,
};
use crate::consensus::transaction::TransactionView;
use crate::consensus::utxo::OutPointView;
use crate::storage::db::{value_at, ColumnFamily, Rows};
use vstd::prelude::*;

verus! {

/// Whether all that a transaction spends lies unspent in the rows of unspent outputs.
pub open spec fn all_inputs_there(rows: Rows, tx: TransactionView) -> bool {
    forall|j: int|
        0 <= j < tx.inputs.len() ==> value_at(
            rows,
            ColumnFamily::Utxo,
            (OutPointView {
                txid: (#[trigger] tx.inputs[j]).prev_txid,
                vout: tx.inputs[j].prev_index,
            }).key(),
        ) is Some
}

/// Whether a transaction stands at a place of a block of a path, behind the coinbase.
pub open spec fn stands_at(
    c: ChainView,
    path: Seq<Seq<u8>>,
    tx: TransactionView,
    i: int,
    k: int,
) -> bool {
    &&& 0 <= i < path.len()
    &&& c.block_of(path[i]) is Ok
    &&& 1 <= k < c.block_of(path[i])->Ok_0.transactions.len()
    &&& c.block_of(path[i])->Ok_0.transactions[k] == tx
}

proof fn lemma_still_spendable(
    rows: Rows,
    txs: Seq<TransactionView>,
    n: nat,
    tx: TransactionView,
)
    requires
        n <= txs.len(),
    ensures
        still_spendable(rows, txs, n).contains(tx) <==> (exists|k: int|
            1 <= k < n && #[trigger] txs[k] == tx) && all_inputs_there(rows, tx),
    decreases n,
{
    if n > 1 {
        let m = (n - 1) as nat;
        lemma_still_spendable(rows, txs, m, tx);
        let before = still_spendable(rows, txs, m);
        let after = still_spendable(rows, txs, n);
        let last = txs[m as int];
        assert(all_inputs_there(rows, last) == inputs_unspent(
            rows,
            last,
        ));
        if after.contains(tx) {
            let i = choose|i: int| 0 <= i < after.len() && after[i] == tx;
            if i < before.len() {
                assert(before[i] == tx);
            } else {
                assert(txs[m as int] == tx);
            }
        }
        if (exists|k: int| 1 <= k < n && #[trigger] txs[k] == tx) && all_inputs_there(rows, tx) {
            let k = choose|k: int| 1 <= k < n && #[trigger] txs[k] == tx;
            if k < m {
                assert(before.contains(tx));
                let i = choose|i: int| 0 <= i < before.len() && before[i] == tx;
                assert(after[i] == tx);
            } else {
                assert(after[before.len() as int] == tx);
            }
        }
    } else {
        assert(!still_spendable(rows, txs, n).contains(tx));
    }
}

proof fn lemma_requeued(c: ChainView, path: Seq<Seq<u8>>, n: nat, tx: TransactionView)
    requires
        n <= path.len(),
    ensures
        requeued(c, path, n).contains(tx) <==> (exists|i: int, k: int|
            i < n && #[trigger] stands_at(c, path, tx, i, k)) && all_inputs_there(c.utxos, tx),
    decreases n,
{
    if n > 0 {
        let m = (n - 1) as nat;
        lemma_requeued(c, path, m, tx);
        let before = requeued(c, path, m);
        let after = requeued(c, path, n);
        if let Ok(b) = c.block_of(path[m as int]) {
            let txs = b.transactions;
            let more = still_spendable(c.utxos, txs, txs.len());
            lemma_still_spendable(c.utxos, txs, txs.len(), tx);
            assert(after == before + more);
            if after.contains(tx) {
                let i = choose|i: int| 0 <= i < after.len() && after[i] == tx;
                if i < before.len() {
                    assert(before[i] == tx);
                } else {
                    assert(more[i - before.len()] == tx);
                    let k = choose|k: int| 1 <= k < txs.len() && #[trigger] txs[k] == tx;
                    assert(stands_at(c, path, tx, m as int, k));
                }
            }
            if (exists|i: int, k: int| i < n && #[trigger] stands_at(c, path, tx, i, k))
                && all_inputs_there(c.utxos, tx) {
                let (i, k) = choose|i: int, k: int| i < n && #[trigger] stands_at(c, path, tx, i, k);
                if i < m {
                    let p = choose|p: int| 0 <= p < before.len() && before[p] == tx;
                    assert(after[p] == tx);
                } else {
                    assert(txs[k] == tx);
                    let p = choose|p: int| 0 <= p < more.len() && more[p] == tx;
                    assert(after[before.len() + p] == tx);
                }
            }
        }
    } else {
        assert(!requeued(c, path, n).contains(tx));
    }
}

/// A reorganisation that succeeds hands back exactly the transactions that stood behind the
/// coinbase in a block which it disconnected, and of which everything that they spend is unspent
/// on the new chain.
pub proof fn lemma_reorganisation_hands_back(
    chain: ChainView,
    old_tip: Seq<u8>,
    new_tip: Seq<u8>,
    tx: TransactionView,
)
    requires
        reorganize(chain, old_tip, new_tip).result is Ok,
    ensures
        ({
            let after = reorganize(chain, old_tip, new_tip);
            let gone = fork_paths(chain, old_tip, new_tip)->Some_0.0;
            after.result->Ok_0.contains(tx) <==> (exists|i: int, k: int| #[trigger]
                stands_at(after.chain, gone, tx, i, k)) && all_inputs_there(after.chain.utxos, tx)
        }),
{
    let after = reorganize(chain, old_tip, new_tip);
    let gone = fork_paths(chain, old_tip, new_tip)->Some_0.0;
    lemma_requeued(after.chain, gone, gone.len(), tx);
    if exists|i: int, k: int| #[trigger] stands_at(after.chain, gone, tx, i, k) {
        let (i, k) = choose|i: int, k: int| #[trigger] stands_at(after.chain, gone, tx, i, k);
        assert(i < gone.len() && stands_at(after.chain, gone, tx, i, k));
    }
}

} // verus!
