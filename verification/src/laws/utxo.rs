//! What applying and undoing transactions does to unspent outputs.

use crate::consensus::block::{epoch_key_bytes, genesis_block, genesis_coinbase, BlockView};
use crate::consensus::chain_model::{block_outpoints, disconnect_one, outpoints_created, ChainView};
use crate::consensus::transaction::{TransactionView, TxInputView};
use crate::consensus::utxo::{
    add_outputs, all_authorized, apply_outcome, created_outpoint, input_authorized,
    lemma_outpoint_key_injective, outputs_of, spend_inputs, spent_outpoint, OutPointView,
    UtxoEntryView, UtxoMap,
};
use crate::laws::blocks::spends_nothing;
use crate::laws::mempool::{bare, opens};
use crate::primitives::bytes::le_bytes;
use crate::primitives::hash::sha256_bytes;
use crate::storage::convert::UndoPair;
use crate::storage::db::{lemma_row_injective, value_at, ColumnFamily};
use crate::storage::utxo::{lemma_block_reverted_effect, names_key, outpoints_of, undo_at};
use vstd::prelude::*;

verus! {

/// The key of the output that an input names.
pub open spec fn key_of(input: TxInputView) -> Seq<u8> {
    (OutPointView { txid: input.prev_txid, vout: input.prev_index }).key()
}

/// Whether an output may be spent at a height: what a coinbase pays, a hundred blocks later.
pub open spec fn ripe(entry: UtxoEntryView, height: u32) -> bool {
    !entry.coinbase || height >= entry.height + 100
}

/// Whether the first `n` inputs name different outputs that are there and ripe.
pub open spec fn all_ripe(utxos: UtxoMap, inputs: Seq<TxInputView>, n: nat, height: u32) -> bool {
    &&& forall|i: int|
        0 <= i < n ==> utxos.contains_key(key_of(#[trigger] inputs[i])) && ripe(
            utxos[key_of(inputs[i])],
            height,
        )
    &&& forall|i: int, j: int|
        0 <= i < j < n ==> key_of(#[trigger] inputs[i]) != key_of(#[trigger] inputs[j])
}

/// Inputs are spent exactly if they name different outputs that are there and ripe. What they name is
/// then gone, and nothing else is.
pub proof fn lemma_inputs_spent(
    utxos: UtxoMap,
    inputs: Seq<TxInputView>,
    n: nat,
    height: u32,
    key: Seq<u8>,
)
    requires
        n <= inputs.len(),
    ensures
        ({
            let r = spend_inputs(utxos, inputs, n, height);
            &&& r.error is None <==> all_ripe(utxos, inputs, n, height)
            &&& r.error is None ==> {
                &&& r.spent.len() == n
                &&& forall|i: int|
                    0 <= i < n ==> (#[trigger] r.spent[i]) == utxos[key_of(inputs[i])]
                &&& r.utxos.contains_key(key) <==> utxos.contains_key(key) && forall|i: int|
                    0 <= i < n ==> key_of(#[trigger] inputs[i]) != key
                &&& r.utxos.contains_key(key) ==> r.utxos[key] == utxos[key]
            }
        }),
    decreases n,
{
    if n > 0 {
        let m = (n - 1) as nat;
        let last = key_of(inputs[m as int]);
        lemma_inputs_spent(utxos, inputs, m, height, key);
        lemma_inputs_spent(utxos, inputs, m, height, last);
        let before = spend_inputs(utxos, inputs, m, height);
        let r = spend_inputs(utxos, inputs, n, height);
        assert(spent_outpoint(inputs[m as int]).key() == last);
        if r.error is None {
            assert forall|i: int, j: int| 0 <= i < j < n implies key_of(#[trigger] inputs[i])
                != key_of(#[trigger] inputs[j]) by {
                if j == m {
                }
            }
            assert forall|i: int| 0 <= i < n implies (#[trigger] r.spent[i])
                == utxos[key_of(inputs[i])] by {
                if i < m {
                    assert(r.spent[i] == before.spent[i]);
                }
            }
        }
        if all_ripe(utxos, inputs, n, height) {
            assert(all_ripe(utxos, inputs, m, height));
            assert(utxos.contains_key(key_of(inputs[m as int])));
            assert forall|i: int| 0 <= i < m implies key_of(#[trigger] inputs[i]) != last by {}
        }
    }
}

/// Outputs are added exactly if none of them is there already. Each is then there with its value, and
/// nothing else changed.
pub proof fn lemma_outputs_added(
    utxos: UtxoMap,
    tx: TransactionView,
    n: nat,
    height: u32,
    coinbase: bool,
    key: Seq<u8>,
)
    requires
        n <= tx.outputs.len() <= 0xFFFF_FFFF,
    ensures
        ({
            let r = add_outputs(utxos, tx, n, height, coinbase);
            &&& r.1 is None <==> forall|j: int|
                0 <= j < n ==> !utxos.contains_key(#[trigger] created_outpoint(tx.txid(), j).key())
            &&& r.1 is None ==> {
                &&& forall|j: int|
                    0 <= j < n ==> r.0.contains_key(
                        #[trigger] created_outpoint(tx.txid(), j).key(),
                    ) && r.0[created_outpoint(tx.txid(), j).key()] == (UtxoEntryView {
                        output: tx.outputs[j],
                        coinbase,
                        height: height as u64,
                    })
                &&& r.0.contains_key(key) <==> utxos.contains_key(key) || exists|j: int|
                    0 <= j < n && #[trigger] created_outpoint(tx.txid(), j).key() == key
                &&& utxos.contains_key(key) ==> r.0[key] == utxos[key]
            }
        }),
    decreases n,
{
    if n > 0 {
        let m = (n - 1) as nat;
        let id = tx.txid();
        let last = created_outpoint(id, m as int).key();
        lemma_outputs_added(utxos, tx, m, height, coinbase, key);
        lemma_outputs_added(utxos, tx, m, height, coinbase, last);
        let before = add_outputs(utxos, tx, m, height, coinbase);
        let r = add_outputs(utxos, tx, n, height, coinbase);
        assert forall|j: int| 0 <= j < m implies #[trigger] created_outpoint(id, j).key()
            != last by {
            if created_outpoint(id, j).key() == last {
                lemma_outpoint_key_injective(created_outpoint(id, j), created_outpoint(id, m as int));
            }
        }
        if r.1 is None {
            assert forall|j: int| 0 <= j < n implies !utxos.contains_key(
                #[trigger] created_outpoint(id, j).key(),
            ) by {
                if j == m {
                }
            }
            assert forall|j: int| 0 <= j < n implies r.0.contains_key(
                #[trigger] created_outpoint(id, j).key(),
            ) && r.0[created_outpoint(id, j).key()] == (UtxoEntryView {
                output: tx.outputs[j],
                coinbase,
                height: height as u64,
            }) by {
                if j < m {
                    assert(created_outpoint(id, j).key() != last);
                }
            }
        }
        if forall|j: int|
            0 <= j < n ==> !utxos.contains_key(#[trigger] created_outpoint(id, j).key()) {
            assert(before.1 is None);
            assert(!utxos.contains_key(created_outpoint(id, m as int).key()));
        }
    }
}

/// An output is what its transaction made at its place.
pub proof fn lemma_created_place(txid: Seq<u8>, j: int)
    requires
        0 <= j <= 0xFFFF_FFFF,
    ensures
        created_outpoint(txid, j).txid == txid,
        created_outpoint(txid, j).vout == j,
        created_outpoint(txid, j).key() == txid + le_bytes(j as nat, 4),
{
}

/// A transaction is applied exactly if its inputs, unless it is a coinbase, name different outputs
/// that are there, ripe and unlocked, and none of its outputs is there already.
pub proof fn lemma_applied_exactly_if(
    utxos: UtxoMap,
    tx: TransactionView,
    height: u32,
    coinbase: bool,
)
    requires
        tx.outputs.len() <= 0xFFFF_FFFF,
    ensures
        ({
            let taken = if coinbase {
                utxos
            } else {
                spend_inputs(utxos, tx.inputs, tx.inputs.len(), height).utxos
            };
            let entries = Seq::new(tx.inputs.len(), |i: int| utxos[key_of(tx.inputs[i])]);
            apply_outcome(utxos, tx, height, coinbase).error is None <==> {
                &&& coinbase || {
                    &&& all_ripe(utxos, tx.inputs, tx.inputs.len(), height)
                    &&& forall|i: int| 0 <= i < tx.inputs.len() ==> #[trigger] opens(tx, entries, i)
                }
                &&& forall|j: int|
                    0 <= j < tx.outputs.len() ==> !taken.contains_key(
                        #[trigger] created_outpoint(tx.txid(), j).key(),
                    )
            }
        }),
{
    let n = tx.inputs.len();
    let entries = Seq::new(n, |i: int| utxos[key_of(tx.inputs[i])]);
    let r = spend_inputs(utxos, tx.inputs, n, height);
    lemma_inputs_spent(utxos, tx.inputs, n, height, Seq::empty());
    let taken = if coinbase {
        utxos
    } else {
        r.utxos
    };
    lemma_outputs_added(taken, tx, tx.outputs.len(), height, coinbase, Seq::empty());
    if !coinbase && r.error is None {
        assert(r.spent =~= entries);
        assert(outputs_of(r.spent) =~= bare(entries));
        assert forall|i: int| 0 <= i < n implies #[trigger] input_authorized(
            tx,
            outputs_of(r.spent),
            i,
        ) == opens(tx, entries, i) by {}
        if all_authorized(tx, outputs_of(r.spent)) {
            assert forall|i: int| 0 <= i < n implies #[trigger] opens(tx, entries, i) by {
                assert(input_authorized(tx, outputs_of(r.spent), i));
            }
        }
    }
}

/// Whether output `j` of transaction `k` of a block is filed under a key.
pub open spec fn makes(txs: Seq<TransactionView>, k: int, j: int, key: Seq<u8>) -> bool {
    &&& 0 <= k < txs.len()
    &&& 0 <= j < txs[k].outputs.len()
    &&& key == (OutPointView { txid: txs[k].txid(), vout: j as u32 }).key()
}

proof fn lemma_block_outpoints(txs: Seq<TransactionView>, n: nat, key: Seq<u8>)
    requires
        n <= txs.len(),
    ensures
        names_key(block_outpoints(txs, n), key) <==> exists|k: int, j: int|
            k < n && #[trigger] makes(txs, k, j, key),
    decreases n,
{
    let all = block_outpoints(txs, n);
    if n > 0 {
        let m = (n - 1) as nat;
        lemma_block_outpoints(txs, m, key);
        let before = block_outpoints(txs, m);
        let new = outpoints_created(txs[m as int]);
        if names_key(all, key) {
            let i = choose|i: int| 0 <= i < all.len() && (#[trigger] all[i]).key() == key;
            if i < before.len() {
                assert(before[i].key() == key);
                let (k, j) = choose|k: int, j: int| k < m && #[trigger] makes(txs, k, j, key);
                assert(makes(txs, k, j, key));
            } else {
                assert(new[i - before.len()] == all[i]);
                assert(makes(txs, m as int, i - before.len(), key));
            }
        }
        if exists|k: int, j: int| k < n && #[trigger] makes(txs, k, j, key) {
            let (k, j) = choose|k: int, j: int| k < n && #[trigger] makes(txs, k, j, key);
            if k < m {
                assert(makes(txs, k, j, key));
                let i = choose|i: int| 0 <= i < before.len() && (#[trigger] before[i]).key() == key;
                assert(all[i].key() == key);
            } else {
                assert(new[j].key() == key);
                assert(all[before.len() + j] == new[j]);
            }
        }
    }
}

/// After a block was disconnected an output lies unspent exactly if the block spent it, or it lay
/// there and the block did not make it. Its undo data is gone.
pub proof fn lemma_disconnected_outputs(
    chain: ChainView,
    hash: Seq<u8>,
    block: BlockView,
    restored: Seq<UndoPair>,
    key: Seq<u8>,
)
    requires
        chain.block_of(hash) == Ok::<BlockView, crate::consensus::chain_model::ChainFault>(block),
        undo_at(chain.utxos, hash) == crate::storage::blocks::Lookup::<Seq<UndoPair>>::Ok(
            Some(restored),
        ),
    ensures
        ({
            let after = disconnect_one(chain, hash);
            &&& after.result is Ok
            &&& after.chain == (ChainView { utxos: after.chain.utxos, ..chain })
            &&& value_at(after.chain.utxos, ColumnFamily::Undo, hash) is None
            &&& value_at(after.chain.utxos, ColumnFamily::Utxo, key) is Some <==> {
                ||| exists|i: int| 0 <= i < restored.len() && (#[trigger] restored[i]).0.key() == key
                ||| value_at(chain.utxos, ColumnFamily::Utxo, key) is Some && !(exists|
                    k: int,
                    j: int,
                |
                    #[trigger] makes(block.transactions, k, j, key))
            }
        }),
{
    broadcast use lemma_row_injective;

    let txs = block.transactions;
    let made = block_outpoints(txs, txs.len());
    lemma_block_outpoints(txs, txs.len(), key);
    lemma_block_reverted_effect(chain.utxos, made, restored, key);
    let back = outpoints_of(restored);
    if names_key(back, key) {
        let i = choose|i: int| 0 <= i < back.len() && (#[trigger] back[i]).key() == key;
        assert(restored[i].0.key() == key);
    }
    if exists|i: int| 0 <= i < restored.len() && (#[trigger] restored[i]).0.key() == key {
        let i = choose|i: int| 0 <= i < restored.len() && (#[trigger] restored[i]).0.key() == key;
        assert(back[i].key() == key);
    }
    if exists|k: int, j: int| #[trigger] makes(txs, k, j, key) {
        let (k, j) = choose|k: int, j: int| #[trigger] makes(txs, k, j, key);
        assert(k < txs.len() && makes(txs, k, j, key));
    }
}

/// The key of the proof of work is the double hash of the number of the epoch, of 2048 blocks.
pub proof fn lemma_epoch_key(height: u64)
    ensures
        epoch_key_bytes(height) == sha256_bytes(
            sha256_bytes(le_bytes((height / 2048) as nat, 8)),
        ),
{
}

/// The first block pays fifty coins to whoever takes them and spends nothing; it names no block before
/// it and the one transaction that it holds.
pub proof fn lemma_genesis(n_bits: u32, nonce: u64)
    ensures
        ({
            let b = genesis_block(n_bits, nonce);
            &&& b.transactions.len() == 1
            &&& spends_nothing(b.transactions[0])
            &&& b.transactions[0].outputs.len() == 1
            &&& b.transactions[0].outputs[0].value == 5_000_000_000
            &&& b.transactions[0].outputs[0].script_pubkey == seq![0x51u8]
            &&& b.header.merkle_root == b.transactions[0].txid()
            &&& b.header.prev_block_hash.len() == 32
            &&& forall|i: int| 0 <= i < 32 ==> #[trigger] b.header.prev_block_hash[i] == 0
            &&& b.header.n_bits == n_bits
            &&& b.header.nonce == nonce
            &&& b.header.timestamp == 1_700_000_000
            &&& b.header.version == 1
            &&& b.transactions[0].structure_error() is None
        }),
{
    let tx = genesis_coinbase();
    reveal_with_fuel(crate::consensus::transaction::total_value, 2);
    assert(tx.outputs.drop_last().len() == 0);
}

} // verus!
