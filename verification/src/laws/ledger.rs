//! What the transactions of a block may spend.

use crate::consensus::ledger::{
    all_unlock, created_by, immature_at, input_unlocks, outpoints_spent, scan_inputs,
    scan_transactions, spend_error, spent_outputs,
};
use crate::consensus::transaction::{total_value, TransactionView, TxInputView};
use crate::consensus::utxo::{spent_outpoint, OutPointView, UtxoEntryView};
use crate::laws::blocks::{lemma_worth, worth};
use crate::laws::mempool::bare;
use crate::script::engine::{p2pkh_outcome, ScriptContextView, ScriptError};
use crate::storage::blocks::Lookup;
use crate::storage::convert::UndoPair;
use crate::storage::db::Rows;
use crate::storage::utxo::{entry_at, outpoints_of};
use vstd::prelude::*;

verus! {

/// What is filed under the output that an input names.
pub open spec fn filed_for(rows: Rows, input: TxInputView) -> Lookup<UtxoEntryView> {
    entry_at(rows, (OutPointView { txid: input.prev_txid, vout: input.prev_index }).key())
}

/// The unspent outputs that the inputs of a transaction name.
pub open spec fn named(rows: Rows, tx: TransactionView) -> Seq<UtxoEntryView> {
    Seq::new(tx.inputs.len(), |i: int| filed_for(rows, tx.inputs[i])->Ok_0->Some_0)
}

/// Whether what an input names is there and may be spent at a height: what a coinbase pays may be
/// spent a hundred blocks later.
pub open spec fn may_be_spent(rows: Rows, input: TxInputView, height: u64) -> bool {
    match filed_for(rows, input) {
        Ok(Some(entry)) => entry.coinbase ==> height >= entry.height + 100 || height
            == 0xFFFF_FFFF_FFFF_FFFF,
        _ => false,
    }
}

/// Whether two inputs name one output.
pub open spec fn name_same(a: TxInputView, b: TxInputView) -> bool {
    a.prev_txid == b.prev_txid && a.prev_index == b.prev_index
}

/// Whether an input names one of a sequence of outputs.
pub open spec fn names_one(input: TxInputView, pairs: Seq<UndoPair>) -> bool {
    exists|k: int|
        0 <= k < pairs.len() && (#[trigger] pairs[k]).0.txid == input.prev_txid && pairs[k].0.vout
            == input.prev_index
}

/// Whether the first `m` inputs of a transaction may be spent: each is there, ripe, and spent
/// neither by an earlier one nor by an earlier transaction.
pub open spec fn inputs_open(
    rows: Rows,
    earlier: Seq<UndoPair>,
    tx: TransactionView,
    m: nat,
    height: u64,
) -> bool {
    &&& forall|i: int|
        0 <= i < m ==> may_be_spent(rows, #[trigger] tx.inputs[i], height) && !names_one(
            tx.inputs[i],
            earlier,
        )
    &&& forall|i: int, j: int|
        0 <= i < j < m ==> !name_same(#[trigger] tx.inputs[i], #[trigger] tx.inputs[j])
}

proof fn lemma_names_one(input: TxInputView, pairs: Seq<UndoPair>)
    ensures
        outpoints_of(pairs).contains(spent_outpoint(input)) == names_one(input, pairs),
{
    let all = outpoints_of(pairs);
    let o = spent_outpoint(input);
    if all.contains(o) {
        let k = choose|k: int| 0 <= k < all.len() && all[k] == o;
        assert(pairs[k].0 == o);
    }
    if names_one(input, pairs) {
        let k = choose|k: int|
            0 <= k < pairs.len() && (#[trigger] pairs[k]).0.txid == input.prev_txid
                && pairs[k].0.vout == input.prev_index;
        assert(all[k] == o);
    }
}

proof fn lemma_names_earlier(tx: TransactionView, m: nat, x: int)
    requires
        m <= x < tx.inputs.len(),
    ensures
        outpoints_spent(tx.inputs, m).contains(spent_outpoint(tx.inputs[x])) <==> exists|i: int|
            0 <= i < m && name_same(#[trigger] tx.inputs[i], tx.inputs[x]),
{
    let all = outpoints_spent(tx.inputs, m);
    let o = spent_outpoint(tx.inputs[x]);
    if all.contains(o) {
        let i = choose|i: int| 0 <= i < all.len() && all[i] == o;
        assert(name_same(tx.inputs[i], tx.inputs[x]));
    }
    if exists|i: int| 0 <= i < m && name_same(#[trigger] tx.inputs[i], tx.inputs[x]) {
        let i = choose|i: int| 0 <= i < m && name_same(#[trigger] tx.inputs[i], tx.inputs[x]);
        assert(all[i] == o);
    }
}

proof fn lemma_scan(
    rows: Rows,
    earlier: Seq<UndoPair>,
    tx: TransactionView,
    m: nat,
    height: u64,
)
    requires
        m <= tx.inputs.len(),
    ensures
        ({
            let scan = scan_inputs(rows, earlier, tx.inputs, m, height);
            let sum = total_value(bare(named(rows, tx)).take(m as int));
            &&& scan.error is None <==> inputs_open(rows, earlier, tx, m, height) && sum
                <= 0xFFFF_FFFF_FFFF_FFFF
            &&& scan.error is None ==> scan.sum == sum && scan.spent.len() == m && forall|i: int|
                0 <= i < m ==> (#[trigger] scan.spent[i]) == (
                    spent_outpoint(tx.inputs[i]),
                    named(rows, tx)[i],
                )
        }),
    decreases m,
{
    let all = bare(named(rows, tx));
    if m == 0 {
        assert(all.take(0) =~= Seq::empty());
    } else {
        let p = (m - 1) as nat;
        lemma_scan(rows, earlier, tx, p, height);
        let before = scan_inputs(rows, earlier, tx.inputs, p, height);
        let scan = scan_inputs(rows, earlier, tx.inputs, m, height);
        let input = tx.inputs[p as int];
        lemma_names_one(input, earlier);
        lemma_names_earlier(tx, p, p as int);
        assert(spent_outpoint(input) == (OutPointView {
            txid: input.prev_txid,
            vout: input.prev_index,
        }));
        assert(all.take(m as int).drop_last() =~= all.take(p as int));
        assert(all.take(m as int).last() == all[p as int]);
        assert(total_value(all.take(m as int)) == total_value(all.take(p as int))
            + all[p as int].value as nat);
        if scan.error is None {
            assert(before.error is None);
            assert(inputs_open(rows, earlier, tx, m, height)) by {
                assert forall|i: int, j: int| 0 <= i < j < m implies !name_same(
                    #[trigger] tx.inputs[i],
                    #[trigger] tx.inputs[j],
                ) by {
                    if j == p {
                    }
                }
            }
            assert forall|i: int| 0 <= i < m implies (#[trigger] scan.spent[i]) == (
                spent_outpoint(tx.inputs[i]),
                named(rows, tx)[i],
            ) by {
                if i < p {
                    assert(scan.spent[i] == before.spent[i]);
                }
            }
        }
        if inputs_open(rows, earlier, tx, m, height) && total_value(all.take(m as int))
            <= 0xFFFF_FFFF_FFFF_FFFF {
            assert(inputs_open(rows, earlier, tx, p, height));
            assert(may_be_spent(rows, input, height));
            assert(scan.error is None);
        }
    }
}

/// Whether input `i` of a transaction unlocks what it spends.
pub open spec fn unlocks(rows: Rows, tx: TransactionView, i: int) -> bool {
    p2pkh_outcome(
        tx.inputs[i].script_sig,
        named(rows, tx)[i].output.script_pubkey,
        ScriptContextView {
            transaction: tx,
            input_index: i as usize,
            spent_outputs: bare(named(rows, tx)),
        },
    ) == Ok::<bool, ScriptError>(true)
}

/// What a transaction spends is worth together.
pub open spec fn brings(rows: Rows, tx: TransactionView) -> nat {
    worth(bare(named(rows, tx)))
}

/// Whether a transaction may stand in a block behind others: all that it spends may be spent, it
/// pays no more than it spends, and every input unlocks what it spends.
pub open spec fn may_stand(
    rows: Rows,
    earlier: Seq<UndoPair>,
    tx: TransactionView,
    height: u64,
) -> bool {
    &&& inputs_open(rows, earlier, tx, tx.inputs.len(), height)
    &&& worth(tx.outputs) <= brings(rows, tx) <= 0xFFFF_FFFF_FFFF_FFFF
    &&& forall|i: int| 0 <= i < tx.inputs.len() ==> #[trigger] unlocks(rows, tx, i)
}

/// A transaction is accepted behind others exactly if it may stand there and the fees can still be
/// counted.
pub proof fn lemma_spend_accepted(
    rows: Rows,
    earlier: Seq<UndoPair>,
    tx: TransactionView,
    height: u64,
    fees: nat,
)
    ensures
        ({
            let scan = scan_inputs(rows, earlier, tx.inputs, tx.inputs.len(), height);
            &&& spend_error(tx, scan, fees) is None <==> may_stand(rows, earlier, tx, height)
                && fees + brings(rows, tx) - worth(tx.outputs) <= 0xFFFF_FFFF_FFFF_FFFF
            &&& spend_error(tx, scan, fees) is None ==> scan.sum == brings(rows, tx)
                && scan.spent.len() == tx.inputs.len() && forall|i: int|
                0 <= i < tx.inputs.len() ==> (#[trigger] scan.spent[i]) == (
                    OutPointView { txid: tx.inputs[i].prev_txid, vout: tx.inputs[i].prev_index },
                    named(rows, tx)[i],
                )
        }),
{
    let n = tx.inputs.len();
    let scan = scan_inputs(rows, earlier, tx.inputs, n, height);
    let all = bare(named(rows, tx));
    lemma_scan(rows, earlier, tx, n, height);
    assert(all.take(n as int) =~= all);
    lemma_worth(all);
    lemma_worth(tx.outputs);
    if scan.error is None {
        let spent = spent_outputs(scan.spent);
        assert(spent =~= all);
        assert forall|i: int| 0 <= i < n implies #[trigger] input_unlocks(tx, spent, i) == unlocks(
            rows,
            tx,
            i,
        ) by {}
        if all_unlock(tx, spent) {
            assert forall|i: int| 0 <= i < n implies #[trigger] unlocks(rows, tx, i) by {
                assert(input_unlocks(tx, spent, i));
            }
        }
    }
}

/// Whether input `j` of transaction `k` of a block, which is no coinbase, names an output.
pub open spec fn takes(txs: Seq<TransactionView>, k: int, j: int, o: OutPointView) -> bool {
    &&& 1 <= k < txs.len()
    &&& 0 <= j < txs[k].inputs.len()
    &&& txs[k].inputs[j].prev_txid == o.txid
    &&& txs[k].inputs[j].prev_index == o.vout
}

/// What the transactions of a block, but for the coinbase, spend more than they pay.
pub open spec fn left_over(rows: Rows, txs: Seq<TransactionView>, n: nat) -> int
    decreases n,
{
    if n <= 1 {
        0
    } else {
        left_over(rows, txs, (n - 1) as nat) + brings(rows, txs[n - 1]) - worth(txs[n - 1].outputs)
    }
}

/// What the block before its `n`-th transaction has to do with a scan of it.
pub proof fn lemma_block_spends(rows: Rows, txs: Seq<TransactionView>, n: nat, height: u64)
    requires
        n <= txs.len(),
        scan_transactions(rows, txs, n, height).error is None,
    ensures
        scan_transactions(rows, txs, n, height).fees == left_over(rows, txs, n),
        forall|o: OutPointView| #[trigger]
            outpoints_of(scan_transactions(rows, txs, n, height).spent).contains(o)
                <==> exists|k: int, j: int| k < n && #[trigger] takes(txs, k, j, o),
        forall|k: int|
            1 <= k < n ==> #[trigger] may_stand(
                rows,
                scan_transactions(rows, txs, k as nat, height).spent,
                txs[k],
                height,
            ),
    decreases n,
{
    let scan = scan_transactions(rows, txs, n, height);
    if n == 0 {
        assert(outpoints_of(scan.spent) =~= Seq::empty());
    } else {
        let m = (n - 1) as nat;
        let before = scan_transactions(rows, txs, m, height);
        lemma_block_spends(rows, txs, m, height);
        let tx = txs[m as int];
        if n == 1 {
            assert(scan.spent =~= before.spent);
        } else {
            let taken = scan_inputs(rows, before.spent, tx.inputs, tx.inputs.len(), height);
            lemma_spend_accepted(rows, before.spent, tx, height, before.fees);
            lemma_worth(tx.outputs);
            let old_spent = outpoints_of(before.spent);
            let now_spent = outpoints_of(scan.spent);
            assert forall|o: OutPointView| #[trigger] now_spent.contains(o) <==> exists|
                k: int,
                j: int,
            |
                k < n && #[trigger] takes(txs, k, j, o) by {
                if now_spent.contains(o) {
                    let p = choose|p: int| 0 <= p < now_spent.len() && now_spent[p] == o;
                    if p < before.spent.len() {
                        assert(old_spent[p] == o);
                        assert(old_spent.contains(o));
                        let (k, j) = choose|k: int, j: int|
                            k < m && #[trigger] takes(txs, k, j, o);
                        assert(takes(txs, k, j, o));
                    } else {
                        let j = p - before.spent.len();
                        assert(scan.spent[p] == taken.spent[j]);
                        assert(takes(txs, m as int, j, o));
                    }
                }
                if exists|k: int, j: int| k < n && #[trigger] takes(txs, k, j, o) {
                    let (k, j) = choose|k: int, j: int| k < n && #[trigger] takes(txs, k, j, o);
                    if k < m {
                        assert(old_spent.contains(o));
                        let p = choose|p: int| 0 <= p < old_spent.len() && old_spent[p] == o;
                        assert(now_spent[p] == o);
                    } else {
                        assert(scan.spent[before.spent.len() + j] == taken.spent[j]);
                        assert(now_spent[before.spent.len() + j] == o);
                    }
                }
            }
        }
    }
}

/// The next transaction of a block passes exactly if it may stand behind those before it and the
/// fees can still be counted.
pub proof fn lemma_next_passes(rows: Rows, txs: Seq<TransactionView>, n: nat, height: u64)
    requires
        1 <= n < txs.len(),
        scan_transactions(rows, txs, n, height).error is None,
    ensures
        scan_transactions(rows, txs, n + 1, height).error is None <==> may_stand(
            rows,
            scan_transactions(rows, txs, n, height).spent,
            txs[n as int],
            height,
        ) && left_over(rows, txs, n + 1) <= 0xFFFF_FFFF_FFFF_FFFF,
{
    let before = scan_transactions(rows, txs, n, height);
    lemma_block_spends(rows, txs, n, height);
    lemma_spend_accepted(rows, before.spent, txs[n as int], height, before.fees);
}

/// The coinbase passes whatever it says, and spends nothing.
pub proof fn lemma_coinbase_passes(rows: Rows, txs: Seq<TransactionView>, height: u64)
    requires
        txs.len() > 0,
    ensures
        scan_transactions(rows, txs, 1, height).error is None,
        scan_transactions(rows, txs, 1, height).spent.len() == 0,
        scan_transactions(rows, txs, 1, height).fees == 0,
{
    reveal_with_fuel(scan_transactions, 2);
}

/// Whether a pair is output `j` of transaction `k` of a block at a height.
pub open spec fn is_output(
    txs: Seq<TransactionView>,
    k: int,
    j: int,
    height: u64,
    pair: UndoPair,
) -> bool {
    &&& 0 <= k < txs.len()
    &&& 0 <= j < txs[k].outputs.len()
    &&& pair.0.txid == txs[k].txid()
    &&& pair.0.vout == j as u32
    &&& pair.1.output == txs[k].outputs[j]
    &&& pair.1.height == height
    &&& pair.1.coinbase == (k == 0)
}

/// A block creates exactly the outputs of its transactions, each under the identifier of its
/// transaction and its place, with the height of the block; those of the first are a coinbase's.
pub proof fn lemma_block_creates(
    rows: Rows,
    txs: Seq<TransactionView>,
    n: nat,
    height: u64,
    pair: UndoPair,
)
    requires
        n <= txs.len(),
        scan_transactions(rows, txs, n, height).error is None,
    ensures
        scan_transactions(rows, txs, n, height).created.contains(pair) <==> exists|k: int, j: int|
            k < n && #[trigger] is_output(txs, k, j, height, pair),
    decreases n,
{
    let scan = scan_transactions(rows, txs, n, height);
    if n > 0 {
        let m = (n - 1) as nat;
        let before = scan_transactions(rows, txs, m, height);
        lemma_block_creates(rows, txs, m, height, pair);
        let tx = txs[m as int];
        let new = created_by(tx, height, n == 1);
        assert(scan.created == before.created + new);
        if scan.created.contains(pair) {
            let p = choose|p: int| 0 <= p < scan.created.len() && scan.created[p] == pair;
            if p < before.created.len() {
                assert(before.created[p] == pair);
                let (k, j) = choose|k: int, j: int|
                    k < m && #[trigger] is_output(txs, k, j, height, pair);
                assert(is_output(txs, k, j, height, pair));
            } else {
                let j = p - before.created.len();
                assert(new[j] == pair);
                assert(is_output(txs, m as int, j, height, pair));
            }
        }
        if exists|k: int, j: int| k < n && #[trigger] is_output(txs, k, j, height, pair) {
            let (k, j) = choose|k: int, j: int|
                k < n && #[trigger] is_output(txs, k, j, height, pair);
            if k < m {
                assert(before.created.contains(pair));
                let p = choose|p: int| 0 <= p < before.created.len() && before.created[p] == pair;
                assert(scan.created[p] == pair);
            } else {
                assert(new[j].0 == pair.0);
                assert(new[j].1 == pair.1);
                assert(scan.created[before.created.len() + j] == pair);
            }
        }
    }
}

/// What a coinbase pays may be spent from the hundredth block behind it on, and not before.
pub proof fn lemma_ripens(entry: UtxoEntryView, height: u64)
    requires
        entry.height + 100 <= 0xFFFF_FFFF_FFFF_FFFF,
    ensures
        immature_at(entry, height) <==> entry.coinbase && height < entry.height + 100,
        height <= 0xFFFF_FFFF ==> crate::consensus::utxo::mature(entry, height as u32) == (
        !entry.coinbase || height >= entry.height + 100),
{
}

} // verus!
