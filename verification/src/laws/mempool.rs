//! Which transactions wait for a block.

use crate::consensus::transaction::{TransactionView, TxOutputView};
use crate::consensus::utxo::{spent_outpoint, OutPointView, UtxoEntryView};
use crate::laws::reorganisation::all_inputs_there;
use crate::network::mempool::{
    admission, all_offered, confirmed, conflicts, first_fault, is_in_block, offered, outputs_spent,
    purged, script_fault, spend_same, spent_in_block, still_valid, MempoolError, Pool,
};
use crate::script::engine::{p2pkh_outcome, p2wpkh_outcome, ScriptContextView, ScriptError};
use crate::storage::blocks::Lookup;
use crate::storage::db::Rows;
use crate::storage::utxo::entry_at;
use vstd::prelude::*;

verus! {

/// Whether input `i` of one transaction and input `j` of another name the same output.
pub open spec fn same_place(a: TransactionView, b: TransactionView, i: int, j: int) -> bool {
    &&& 0 <= i < a.inputs.len()
    &&& 0 <= j < b.inputs.len()
    &&& a.inputs[i].prev_txid == b.inputs[j].prev_txid
    &&& a.inputs[i].prev_index == b.inputs[j].prev_index
}

/// Whether two transactions name an output in common.
pub open spec fn share_outpoint(a: TransactionView, b: TransactionView) -> bool {
    exists|i: int, j: int| #[trigger] same_place(a, b, i, j)
}

proof fn lemma_share_outpoint(a: TransactionView, b: TransactionView)
    ensures
        spend_same(a, b) == share_outpoint(a, b),
{
    if spend_same(a, b) {
        let (i, j) = choose|i: int, j: int|
            0 <= i < a.inputs.len() && 0 <= j < b.inputs.len() && #[trigger] spent_outpoint(
                a.inputs[i],
            ) == #[trigger] spent_outpoint(b.inputs[j]);
        assert(same_place(a, b, i, j));
    }
    if share_outpoint(a, b) {
        let (i, j) = choose|i: int, j: int| #[trigger] same_place(a, b, i, j);
        assert(spent_outpoint(a.inputs[i]) == spent_outpoint(b.inputs[j]));
    }
}

/// A block takes out of the pool its own transactions and those that name an output that one of
/// its transactions names. Everything else stays as it was, and nothing comes in.
pub proof fn lemma_block_takes_only_its_own(pool: Pool, block: Seq<TransactionView>, id: Seq<u8>)
    ensures
        confirmed(pool, block).contains_key(id) <==> {
            &&& pool.contains_key(id)
            &&& forall|i: int| 0 <= i < block.len() ==> (#[trigger] block[i]).txid() != id
            &&& forall|i: int|
                0 <= i < block.len() ==> !share_outpoint(#[trigger] block[i], pool[id])
        },
        confirmed(pool, block).contains_key(id) ==> confirmed(pool, block)[id] == pool[id],
{
    assert forall|i: int| 0 <= i < block.len() implies spend_same(#[trigger] block[i], pool[id])
        == share_outpoint(block[i], pool[id]) by {
        lemma_share_outpoint(block[i], pool[id]);
    }
    if is_in_block(id, block) {
        let i = choose|i: int| 0 <= i < block.len() && #[trigger] block[i].txid() == id;
        assert(block[i].txid() == id);
    }
    if spent_in_block(pool[id], block) {
        let i = choose|i: int| 0 <= i < block.len() && #[trigger] spend_same(block[i], pool[id]);
        assert(share_outpoint(block[i], pool[id]));
    }
    if !is_in_block(id, block) && !spent_in_block(pool[id], block) {
        assert forall|i: int| 0 <= i < block.len() implies (#[trigger] block[i]).txid() != id by {}
        assert forall|i: int| 0 <= i < block.len() implies !share_outpoint(
            #[trigger] block[i],
            pool[id],
        ) by {
            assert(!spend_same(block[i], pool[id]));
        }
    }
}

/// A block of transactions with which nothing in the pool has to do leaves the pool as it is; in
/// particular an empty one does.
pub proof fn lemma_unrelated_block_changes_nothing(pool: Pool, block: Seq<TransactionView>)
    requires
        forall|id: Seq<u8>, i: int|
            #![trigger pool.contains_key(id), block[i]]
            pool.contains_key(id) && 0 <= i < block.len() ==> block[i].txid() != id
                && !share_outpoint(block[i], pool[id]),
    ensures
        confirmed(pool, block) == pool,
{
    assert forall|id: Seq<u8>| confirmed(pool, block).contains_key(id) == pool.contains_key(
        id,
    ) by {
        lemma_block_takes_only_its_own(pool, block, id);
    }
    assert(confirmed(pool, block) =~= pool);
}

/// Two blocks, one after the other, take out what one block with the transactions of both does.
pub proof fn lemma_blocks_add_up(
    pool: Pool,
    a: Seq<TransactionView>,
    b: Seq<TransactionView>,
)
    ensures
        confirmed(confirmed(pool, a), b) == confirmed(pool, a + b),
{
    let both = a + b;
    assert forall|id: Seq<u8>|
        confirmed(confirmed(pool, a), b).contains_key(id) == confirmed(pool, both).contains_key(
            id,
        ) by {
        lemma_block_takes_only_its_own(pool, a, id);
        lemma_block_takes_only_its_own(confirmed(pool, a), b, id);
        lemma_block_takes_only_its_own(pool, both, id);
        if confirmed(pool, both).contains_key(id) {
            assert forall|i: int| 0 <= i < a.len() implies (#[trigger] a[i]).txid() != id
                && !share_outpoint(a[i], pool[id]) by {
                assert(both[i] == a[i]);
            }
            assert forall|i: int| 0 <= i < b.len() implies (#[trigger] b[i]).txid() != id
                && !share_outpoint(b[i], pool[id]) by {
                assert(both[a.len() + i] == b[i]);
            }
        }
        if confirmed(confirmed(pool, a), b).contains_key(id) {
            assert forall|i: int| 0 <= i < both.len() implies (#[trigger] both[i]).txid() != id
                && !share_outpoint(both[i], pool[id]) by {
                if i < a.len() {
                    assert(both[i] == a[i]);
                } else {
                    assert(both[i] == b[i - a.len()]);
                }
            }
        }
    }
    assert(confirmed(confirmed(pool, a), b) =~= confirmed(pool, both));
}

/// A purge keeps exactly the transactions of which every input lies unspent.
pub proof fn lemma_purge_keeps_spendable(pool: Pool, rows: Rows, id: Seq<u8>)
    ensures
        purged(pool, rows).contains_key(id) <==> pool.contains_key(id) && all_inputs_there(
            rows,
            pool[id],
        ),
        purged(pool, rows).contains_key(id) ==> purged(pool, rows)[id] == pool[id],
{
    let tx = pool[id];
    if still_valid(rows, tx) {
        assert forall|j: int| 0 <= j < tx.inputs.len() implies crate::storage::db::value_at(
            rows,
            crate::storage::db::ColumnFamily::Utxo,
            (OutPointView {
                txid: (#[trigger] tx.inputs[j]).prev_txid,
                vout: tx.inputs[j].prev_index,
            }).key(),
        ) is Some by {
            assert(spent_outpoint(tx.inputs[j]).txid == tx.inputs[j].prev_txid);
        }
    }
    if all_inputs_there(rows, tx) {
        assert(still_valid(rows, tx));
    }
}

/// Whether unspent outputs are those that the inputs of a transaction name, each at its place.
pub open spec fn lie_there(rows: Rows, tx: TransactionView, entries: Seq<UtxoEntryView>) -> bool {
    &&& entries.len() == tx.inputs.len()
    &&& forall|i: int|
        0 <= i < tx.inputs.len() ==> entry_at(
            rows,
            (OutPointView {
                txid: (#[trigger] tx.inputs[i]).prev_txid,
                vout: tx.inputs[i].prev_index,
            }).key(),
        ) == Lookup::<UtxoEntryView>::Ok(Some(entries[i]))
}

/// The outputs of unspent outputs.
pub open spec fn bare(entries: Seq<UtxoEntryView>) -> Seq<TxOutputView> {
    Seq::new(entries.len(), |i: int| entries[i].output)
}

/// Whether input `i` of a transaction unlocks what it spends. An output locked by the hash of a
/// key asks for a script, one locked by a witness program for a witness, any other for nothing.
pub open spec fn opens(tx: TransactionView, entries: Seq<UtxoEntryView>, i: int) -> bool {
    let script = entries[i].output.script_pubkey;
    let context = ScriptContextView {
        transaction: tx,
        input_index: i as usize,
        spent_outputs: bare(entries),
    };
    &&& (script.len() == 25 && script[0] == 0x76 && script[1] == 0xa9 && script[2] == 0x14
        && script[23] == 0x88 && script[24] == 0xac) ==> p2pkh_outcome(
        tx.inputs[i].script_sig,
        script,
        context,
    ) == Ok::<bool, ScriptError>(true)
    &&& (script.len() == 22 && script[0] == 0x00 && script[1] == 0x14) ==> i < tx.witnesses.len()
        && p2wpkh_outcome(tx.witnesses[i], script, context) == Ok::<bool, ScriptError>(true)
}

proof fn lemma_outputs_spent(rows: Rows, tx: TransactionView, n: nat)
    requires
        n <= tx.inputs.len(),
    ensures
        match outputs_spent(rows, tx.inputs, n) {
            Ok(outs) => outs.len() == n && forall|i: int|
                #![trigger tx.inputs[i]]
                0 <= i < n ==> match entry_at(
                    rows,
                    (OutPointView {
                        txid: tx.inputs[i].prev_txid,
                        vout: tx.inputs[i].prev_index,
                    }).key(),
                ) {
                    Ok(Some(entry)) => entry.output == outs[i],
                    _ => false,
                },
            Err(_) => exists|i: int|
                #![trigger tx.inputs[i]]
                0 <= i < n && match entry_at(
                    rows,
                    (OutPointView {
                        txid: tx.inputs[i].prev_txid,
                        vout: tx.inputs[i].prev_index,
                    }).key(),
                ) {
                    Ok(Some(_)) => false,
                    _ => true,
                },
        },
    decreases n,
{
    if n > 0 {
        lemma_outputs_spent(rows, tx, (n - 1) as nat);
        let input = tx.inputs[n - 1];
        assert(spent_outpoint(input) == OutPointView {
            txid: input.prev_txid,
            vout: input.prev_index,
        });
    }
}

proof fn lemma_first_fault(tx: TransactionView, entries: Seq<UtxoEntryView>, n: nat)
    requires
        n <= tx.inputs.len(),
        entries.len() == tx.inputs.len(),
    ensures
        first_fault(tx, bare(entries), n) is None <==> forall|i: int|
            0 <= i < n ==> #[trigger] opens(tx, entries, i),
    decreases n,
{
    if n > 0 {
        let m = (n - 1) as nat;
        lemma_first_fault(tx, entries, m);
        assert(script_fault(tx, bare(entries), m as int) is None <==> opens(
            tx,
            entries,
            m as int,
        ));
        if first_fault(tx, bare(entries), n) is None {
            assert forall|i: int| 0 <= i < n implies #[trigger] opens(tx, entries, i) by {
                if i < m {
                }
            }
        }
    }
}

/// Whether all that a transaction spends lies there and is unlocked.
pub open spec fn spends_well(rows: Rows, tx: TransactionView) -> bool {
    exists|entries: Seq<UtxoEntryView>|
        {
            &&& #[trigger] lie_there(rows, tx, entries)
            &&& forall|i: int| 0 <= i < tx.inputs.len() ==> #[trigger] opens(tx, entries, i)
        }
}

proof fn lemma_spends_well(rows: Rows, tx: TransactionView)
    ensures
        crate::network::mempool::input_fault(rows, tx) is None <==> spends_well(rows, tx),
{
    let n = tx.inputs.len();
    lemma_outputs_spent(rows, tx, n);
    if outputs_spent(rows, tx.inputs, n) is Ok {
        let outs = outputs_spent(rows, tx.inputs, n)->Ok_0;
        let found = Seq::new(
            n,
            |i: int|
                entry_at(
                    rows,
                    (OutPointView {
                        txid: tx.inputs[i].prev_txid,
                        vout: tx.inputs[i].prev_index,
                    }).key(),
                )->Ok_0->Some_0,
        );
        assert(lie_there(rows, tx, found));
        assert(bare(found) =~= outs);
        lemma_first_fault(tx, found, n);
        if spends_well(rows, tx) {
            let entries = choose|entries: Seq<UtxoEntryView>|
                {
                    &&& #[trigger] lie_there(rows, tx, entries)
                    &&& forall|i: int|
                        0 <= i < tx.inputs.len() ==> #[trigger] opens(tx, entries, i)
                };
            assert forall|i: int| 0 <= i < n implies entries[i] == found[i] by {
                let input = tx.inputs[i];
            }
            assert(entries =~= found);
        }
    } else if spends_well(rows, tx) {
        let entries = choose|entries: Seq<UtxoEntryView>|
            {
                &&& #[trigger] lie_there(rows, tx, entries)
                &&& forall|i: int| 0 <= i < tx.inputs.len() ==> #[trigger] opens(tx, entries, i)
            };
        let i = choose|i: int|
            #![trigger tx.inputs[i]]
            0 <= i < n && match entry_at(
                rows,
                (OutPointView {
                    txid: tx.inputs[i].prev_txid,
                    vout: tx.inputs[i].prev_index,
                }).key(),
            ) {
                Ok(Some(_)) => false,
                _ => true,
            };
        let input = tx.inputs[i];
        assert(false);
    }
}

/// A transaction is taken exactly if all that it spends lies there and is unlocked, it does not
/// wait already, fewer than 5000 wait, and none that waits names an output that it names.
pub proof fn lemma_taken_exactly_if(pool: Pool, rows: Rows, tx: TransactionView)
    ensures
        admission(pool, rows, tx) == Ok::<bool, MempoolError>(true) <==> {
            &&& spends_well(rows, tx)
            &&& !pool.contains_key(tx.txid())
            &&& pool.dom().len() < 5000
            &&& forall|id: Seq<u8>| #[trigger]
                pool.contains_key(id) ==> !share_outpoint(pool[id], tx)
        },
        admission(pool, rows, tx) == Ok::<bool, MempoolError>(false) <==> spends_well(rows, tx)
            && pool.contains_key(tx.txid()),
{
    lemma_spends_well(rows, tx);
    assert forall|id: Seq<u8>| #[trigger] pool.contains_key(id) implies spend_same(pool[id], tx)
        == share_outpoint(pool[id], tx) by {
        lemma_share_outpoint(pool[id], tx);
    }
    if conflicts(pool, tx) {
        let id = choose|id: Seq<u8>| #[trigger] pool.contains_key(id) && spend_same(pool[id], tx);
        assert(share_outpoint(pool[id], tx));
    }
}

/// Offering a transaction brings in that one, if it is taken, and changes nothing else.
pub proof fn lemma_offer_adds_one(pool: Pool, rows: Rows, tx: TransactionView, id: Seq<u8>)
    ensures
        offered(pool, rows, tx).contains_key(id) <==> pool.contains_key(id) || (id == tx.txid()
            && admission(pool, rows, tx) == Ok::<bool, MempoolError>(true)),
        pool.contains_key(id) ==> offered(pool, rows, tx)[id] == pool[id],
        !pool.contains_key(id) && offered(pool, rows, tx).contains_key(id) ==> offered(
            pool,
            rows,
            tx,
        )[id] == tx,
{
}

/// Offering a list drops nothing, and all that it brings in is of the list and spends well.
pub proof fn lemma_offers_only_add(
    pool: Pool,
    rows: Rows,
    txs: Seq<TransactionView>,
    n: nat,
    id: Seq<u8>,
)
    requires
        n <= txs.len(),
    ensures
        pool.contains_key(id) ==> all_offered(pool, rows, txs, n).contains_key(id) && all_offered(
            pool,
            rows,
            txs,
            n,
        )[id] == pool[id],
        !pool.contains_key(id) && all_offered(pool, rows, txs, n).contains_key(id) ==> exists|
            i: int,
        |
            0 <= i < n && #[trigger] txs[i] == all_offered(pool, rows, txs, n)[id]
                && txs[i].txid() == id && spends_well(rows, txs[i]),
    decreases n,
{
    if n > 0 {
        let m = (n - 1) as nat;
        let before = all_offered(pool, rows, txs, m);
        lemma_offers_only_add(pool, rows, txs, m, id);
        lemma_offer_adds_one(before, rows, txs[m as int], id);
        lemma_taken_exactly_if(before, rows, txs[m as int]);
    }
}

} // verus!
