//! What a block does to the unspent outputs: which it creates, which it spends
//! and what it pays in fees.

use crate::collections::byte_map::ByteMap;
use crate::consensus::block::{Block, BlockView};
use crate::consensus::transaction::{
    total_value, Transaction, TransactionView, TxInputView, TxOutput, TxOutputView,
};
use crate::consensus::utxo::{
    created_entry, created_outpoint, lemma_outpoint_key_injective, spent_outpoint, OutPoint,
    OutPointView, UtxoEntry, UtxoEntryView, UtxoError,
};
use crate::consensus::validation::COINBASE_MATURITY;
use crate::primitives::serialize::views;
use crate::script::engine::{
    p2pkh_outcome, validate_p2pkh, ScriptContext, ScriptContextView, ScriptError,
};
use crate::storage::blocks::Lookup;
use crate::storage::convert::{encode_outpoint, pair_views, UndoPair};
use crate::storage::db::Rows;
use crate::storage::utxo::{entry_at, outpoints_of, UtxoStore};
use vstd::prelude::*;

verus! {

/// Why a block cannot be applied to the unspent outputs.
#[derive(Debug, Clone, Copy, PartialEq, Eq, Structural)]
pub enum LedgerError {
    /// A stored output cannot be read.
    Unreadable,
    /// A rule on spending is broken.
    Utxo(UtxoError),
}

/// What is known of the first inputs of a transaction: what they spend, what
/// that is worth, and the error that ended the scan.
#[verifier::ext_equal]
pub struct InputScan {
    pub spent: Seq<UndoPair>,
    pub sum: nat,
    pub error: Option<LedgerError>,
}

/// The outpoints that the first `n` inputs spend.
pub open spec fn outpoints_spent(inputs: Seq<TxInputView>, n: nat) -> Seq<OutPointView> {
    Seq::new(n, |i: int| spent_outpoint(inputs[i]))
}

/// A coinbase output may be spent 100 blocks after it was created.
pub open spec fn immature_at(entry: UtxoEntryView, height: u64) -> bool {
    entry.coinbase && height < (if entry.height + COINBASE_MATURITY <= u64::MAX {
        entry.height + COINBASE_MATURITY
    } else {
        u64::MAX as int
    })
}

/// Looks up the first `n` inputs of a transaction, up to the first that cannot be
/// spent. What transactions before it in the block have spent, `earlier`, is gone.
pub open spec fn scan_inputs(
    rows: Rows,
    earlier: Seq<UndoPair>,
    inputs: Seq<TxInputView>,
    n: nat,
    height: u64,
) -> InputScan
    decreases n,
{
    if n == 0 {
        InputScan { spent: Seq::empty(), sum: 0, error: None }
    } else {
        let m = (n - 1) as nat;
        let before = scan_inputs(rows, earlier, inputs, m, height);
        let outpoint = spent_outpoint(inputs[n - 1]);
        if before.error is Some {
            before
        } else if outpoints_spent(inputs, m).contains(outpoint) {
            InputScan { error: Some(LedgerError::Utxo(UtxoError::UtxoAlreadySpent)), ..before }
        } else if outpoints_of(earlier).contains(outpoint) {
            InputScan { error: Some(LedgerError::Utxo(UtxoError::UtxoNotFound)), ..before }
        } else {
            match entry_at(rows, outpoint.key()) {
                Err(_) => InputScan { error: Some(LedgerError::Unreadable), ..before },
                Ok(None) => InputScan {
                    error: Some(LedgerError::Utxo(UtxoError::UtxoNotFound)),
                    ..before
                },
                Ok(Some(entry)) => if immature_at(entry, height) {
                    InputScan {
                        error: Some(LedgerError::Utxo(UtxoError::ImmatureCoinbase)),
                        ..before
                    }
                } else if before.sum + entry.output.value > u64::MAX {
                    InputScan {
                        error: Some(LedgerError::Utxo(UtxoError::ValueOverflow)),
                        ..before
                    }
                } else {
                    InputScan {
                        spent: before.spent.push((outpoint, entry)),
                        sum: before.sum + entry.output.value as nat,
                        error: None,
                    }
                },
            }
        }
    }
}

/// The outputs in a sequence of spent outputs.
pub open spec fn spent_outputs(spent: Seq<UndoPair>) -> Seq<TxOutputView> {
    Seq::new(spent.len(), |i: int| spent[i].1.output)
}

/// Whether the script of input `i` unlocks the output that it spends.
pub open spec fn input_unlocks(tx: TransactionView, spent: Seq<TxOutputView>, i: int) -> bool {
    p2pkh_outcome(
        tx.inputs[i].script_sig,
        spent[i].script_pubkey,
        ScriptContextView { transaction: tx, input_index: i as usize, spent_outputs: spent },
    ) == Ok::<bool, ScriptError>(true)
}

pub open spec fn all_unlock(tx: TransactionView, spent: Seq<TxOutputView>) -> bool {
    forall|i: int| 0 <= i < tx.inputs.len() ==> #[trigger] input_unlocks(tx, spent, i)
}

/// What is wrong with a transaction that is no coinbase, given what its inputs
/// spend and the fees of the transactions before it.
pub open spec fn spend_error(tx: TransactionView, scan: InputScan, fees: nat) -> Option<
    LedgerError,
> {
    if scan.error is Some {
        scan.error
    } else if scan.sum < total_value(tx.outputs) {
        Some(LedgerError::Utxo(UtxoError::InsufficientValue))
    } else if fees + (scan.sum - total_value(tx.outputs)) > u64::MAX {
        Some(LedgerError::Utxo(UtxoError::ValueOverflow))
    } else if !all_unlock(tx, spent_outputs(scan.spent)) {
        Some(LedgerError::Utxo(UtxoError::ScriptValidationFailed))
    } else {
        None
    }
}

/// The outputs that a transaction creates.
pub open spec fn created_by(tx: TransactionView, height: u64, coinbase: bool) -> Seq<UndoPair> {
    Seq::new(
        tx.outputs.len(),
        |i: int|
            (created_outpoint(tx.txid(), i), created_entry(tx.outputs[i], height, coinbase)),
    )
}

/// What the first transactions of a block do to the unspent outputs.
#[verifier::ext_equal]
pub struct BlockScan {
    pub created: Seq<UndoPair>,
    pub spent: Seq<UndoPair>,
    pub fees: nat,
    pub error: Option<LedgerError>,
}

/// What the first `n` transactions of a block do to the unspent outputs. Inputs
/// are looked up among the outputs that were there before the block and that no
/// earlier transaction of it spends.
pub open spec fn scan_transactions(
    rows: Rows,
    txs: Seq<TransactionView>,
    n: nat,
    height: u64,
) -> BlockScan
    decreases n,
{
    if n == 0 {
        BlockScan { created: Seq::empty(), spent: Seq::empty(), fees: 0, error: None }
    } else {
        let before = scan_transactions(rows, txs, (n - 1) as nat, height);
        let tx = txs[n - 1];
        if before.error is Some {
            before
        } else if n == 1 {
            BlockScan { created: before.created + created_by(tx, height, true), ..before }
        } else {
            let scan = scan_inputs(rows, before.spent, tx.inputs, tx.inputs.len(), height);
            let error = spend_error(tx, scan, before.fees);
            if error is Some {
                BlockScan { error, ..before }
            } else {
                BlockScan {
                    created: before.created + created_by(tx, height, false),
                    spent: before.spent + scan.spent,
                    fees: (before.fees + (scan.sum - total_value(tx.outputs))) as nat,
                    error: None,
                }
            }
        }
    }
}

/// What a block does to the unspent outputs.
pub open spec fn scan_block(rows: Rows, block: BlockView, height: u64) -> BlockScan {
    scan_transactions(rows, block.transactions, block.transactions.len(), height)
}

pub proof fn lemma_scan_inputs_error_stays(
    rows: Rows,
    earlier: Seq<UndoPair>,
    inputs: Seq<TxInputView>,
    m: nat,
    n: nat,
    height: u64,
)
    requires
        m <= n,
        scan_inputs(rows, earlier, inputs, m, height).error is Some,
    ensures
        scan_inputs(rows, earlier, inputs, n, height) == scan_inputs(rows, earlier, inputs, m, height),
    decreases n,
{
    if m < n {
        lemma_scan_inputs_error_stays(rows, earlier, inputs, m, (n - 1) as nat, height);
    }
}

pub proof fn lemma_scan_transactions_error_stays(
    rows: Rows,
    txs: Seq<TransactionView>,
    m: nat,
    n: nat,
    height: u64,
)
    requires
        m <= n,
        scan_transactions(rows, txs, m, height).error is Some,
    ensures
        scan_transactions(rows, txs, n, height) == scan_transactions(rows, txs, m, height),
    decreases n,
{
    if m < n {
        lemma_scan_transactions_error_stays(rows, txs, m, (n - 1) as nat, height);
    }
}

/// The fees of a block that can be applied can be counted.
pub proof fn lemma_fees_fit(rows: Rows, txs: Seq<TransactionView>, n: nat, height: u64)
    requires
        scan_transactions(rows, txs, n, height).error is None,
    ensures
        scan_transactions(rows, txs, n, height).fees <= u64::MAX,
    decreases n,
{
    if n > 0 {
        lemma_fees_fit(rows, txs, (n - 1) as nat, height);
    }
}

/// What a successful scan of inputs found: for each input the output that it
/// spends, as it is stored, which no other input and no earlier transaction spends.
pub proof fn lemma_scan_inputs_found(
    rows: Rows,
    earlier: Seq<UndoPair>,
    inputs: Seq<TxInputView>,
    n: nat,
    height: u64,
)
    requires
        scan_inputs(rows, earlier, inputs, n, height).error is None,
    ensures
        ({
            let scan = scan_inputs(rows, earlier, inputs, n, height);
            &&& scan.spent.len() == n
            &&& scan.sum <= u64::MAX
            &&& forall|i: int|
                0 <= i < n ==> (#[trigger] scan.spent[i]).0 == spent_outpoint(inputs[i])
                    && entry_at(rows, spent_outpoint(inputs[i]).key()) == Lookup::<
                    UtxoEntryView,
                >::Ok(Some(scan.spent[i].1)) && !outpoints_of(earlier).contains(scan.spent[i].0)
            &&& outpoints_of(scan.spent).no_duplicates()
            &&& scan.sum == total_value(spent_outputs(scan.spent))
        }),
    decreases n,
{
    let scan = scan_inputs(rows, earlier, inputs, n, height);
    if n > 0 {
        let m = (n - 1) as nat;
        lemma_scan_inputs_found(rows, earlier, inputs, m, height);
        let before = scan_inputs(rows, earlier, inputs, m, height);
        assert(outpoints_of(before.spent) =~= outpoints_spent(inputs, m));
        assert(outpoints_of(scan.spent) =~= outpoints_of(before.spent).push(scan.spent[m as int].0));
        assert(spent_outputs(scan.spent).drop_last() =~= spent_outputs(before.spent));
    } else {
        assert(spent_outputs(scan.spent) =~= Seq::<TxOutputView>::empty());
    }
}

proof fn lemma_total_value_concat(a: Seq<TxOutputView>, b: Seq<TxOutputView>)
    ensures
        total_value(a + b) == total_value(a) + total_value(b),
    decreases b.len(),
{
    if b.len() == 0 {
        assert(a + b =~= a);
    } else {
        lemma_total_value_concat(a, b.drop_last());
        assert((a + b).drop_last() =~= a + b.drop_last());
    }
}

/// No transaction of a block that can be applied creates value: what it spends is
/// worth what it creates, plus its fee.
pub proof fn lemma_spend_conserves_value(
    rows: Rows,
    earlier: Seq<UndoPair>,
    tx: TransactionView,
    height: u64,
    fees: nat,
)
    requires
        spend_error(
            tx,
            scan_inputs(rows, earlier, tx.inputs, tx.inputs.len(), height),
            fees,
        ) is None,
    ensures
        total_value(tx.outputs) <= scan_inputs(
            rows,
            earlier,
            tx.inputs,
            tx.inputs.len(),
            height,
        ).sum,
{
}

/// The outputs of the transactions of a block that are no coinbase, up to one of them.
pub open spec fn paid_outputs(txs: Seq<TransactionView>, n: nat) -> Seq<TxOutputView>
    decreases n,
{
    if n <= 1 {
        Seq::empty()
    } else {
        paid_outputs(txs, (n - 1) as nat) + txs[n - 1].outputs
    }
}

proof fn lemma_scan_sums(rows: Rows, txs: Seq<TransactionView>, n: nat, height: u64)
    requires
        scan_transactions(rows, txs, n, height).error is None,
    ensures
        ({
            let scan = scan_transactions(rows, txs, n, height);
            &&& outpoints_of(scan.spent).no_duplicates()
            &&& total_value(spent_outputs(scan.spent)) == total_value(paid_outputs(txs, n))
                + scan.fees
        }),
    decreases n,
{
    let now = scan_transactions(rows, txs, n, height);
    if n == 0 {
        assert(spent_outputs(now.spent) =~= Seq::<TxOutputView>::empty());
    } else {
        let m = (n - 1) as nat;
        lemma_scan_sums(rows, txs, m, height);
        let before = scan_transactions(rows, txs, m, height);
        if n == 1 {
            assert(paid_outputs(txs, n) =~= paid_outputs(txs, m));
        } else {
            let tx = txs[n - 1];
            let scan = scan_inputs(rows, before.spent, tx.inputs, tx.inputs.len(), height);
            lemma_scan_inputs_found(rows, before.spent, tx.inputs, tx.inputs.len(), height);
            let a = outpoints_of(before.spent);
            let b = outpoints_of(scan.spent);
            assert(outpoints_of(now.spent) =~= a + b);
            assert forall|i: int, j: int|
                0 <= i < a.len() && 0 <= j < b.len() implies a[i] != b[j] by {
                assert(!a.contains(scan.spent[j].0));
            }
            assert((a + b).no_duplicates());
            assert(spent_outputs(now.spent) =~= spent_outputs(before.spent) + spent_outputs(
                scan.spent,
            ));
            lemma_total_value_concat(spent_outputs(before.spent), spent_outputs(scan.spent));
            lemma_total_value_concat(paid_outputs(txs, m), tx.outputs);
        }
    }
}

/// A block that can be applied spends no output twice.
pub proof fn lemma_block_spends_once(rows: Rows, block: BlockView, height: u64)
    requires
        scan_block(rows, block, height).error is None,
    ensures
        outpoints_of(scan_block(rows, block, height).spent).no_duplicates(),
{
    lemma_scan_sums(rows, block.transactions, block.transactions.len(), height);
}

/// A block that can be applied creates no value beside its coinbase: all that it spends is
/// worth what its other transactions create, plus its fees.
pub proof fn lemma_block_conserves_value(rows: Rows, block: BlockView, height: u64)
    requires
        scan_block(rows, block, height).error is None,
    ensures
        total_value(spent_outputs(scan_block(rows, block, height).spent)) == total_value(
            paid_outputs(block.transactions, block.transactions.len()),
        ) + scan_block(rows, block, height).fees,
{
    lemma_scan_sums(rows, block.transactions, block.transactions.len(), height);
}

/// What a block spends, every output of it, was unspent before the block.
pub proof fn lemma_block_spends_unspent(
    rows: Rows,
    txs: Seq<TransactionView>,
    n: nat,
    height: u64,
)
    requires
        scan_transactions(rows, txs, n, height).error is None,
    ensures
        forall|i: int|
            0 <= i < scan_transactions(rows, txs, n, height).spent.len() ==> entry_at(
                rows,
                (#[trigger] scan_transactions(rows, txs, n, height).spent[i]).0.key(),
            ) == Lookup::<UtxoEntryView>::Ok(
                Some(scan_transactions(rows, txs, n, height).spent[i].1),
            ),
    decreases n,
{
    if n > 0 {
        lemma_block_spends_unspent(rows, txs, (n - 1) as nat, height);
        let before = scan_transactions(rows, txs, (n - 1) as nat, height);
        let now = scan_transactions(rows, txs, n, height);
        if n > 1 {
            let tx = txs[n - 1];
            let scan = scan_inputs(rows, before.spent, tx.inputs, tx.inputs.len(), height);
            lemma_scan_inputs_found(rows, before.spent, tx.inputs, tx.inputs.len(), height);
            assert forall|i: int| 0 <= i < now.spent.len() implies entry_at(
                rows,
                (#[trigger] now.spent[i]).0.key(),
            ) == Lookup::<UtxoEntryView>::Ok(Some(now.spent[i].1)) by {
                if i < before.spent.len() {
                    assert(now.spent[i] == before.spent[i]);
                } else {
                    assert(now.spent[i] == scan.spent[i - before.spent.len()]);
                }
            }
        }
    }
}

/// What a block does to the unspent outputs.
pub struct BlockEffects {
    pub created: Vec<(OutPoint, UtxoEntry)>,
    pub spent: Vec<(OutPoint, UtxoEntry)>,
    pub fees: u64,
}

fn contains_outpoint(seen: &Vec<(OutPoint, UtxoEntry)>, outpoint: &OutPoint) -> (r: bool)
    ensures
        r == exists|i: int| 0 <= i < seen@.len() && (#[trigger] pair_views(seen@)[i]).0
            == outpoint@,
{
    let mut i: usize = 0;
    while i < seen.len()
        invariant
            i <= seen.len(),
            forall|j: int| 0 <= j < i ==> (#[trigger] pair_views(seen@)[j]).0 != outpoint@,
        decreases seen.len() - i,
    {
        assert(pair_views(seen@)[i as int].0 == seen@[i as int].0@);
        if seen[i].0 == *outpoint {
            return true;
        }
        i += 1;
    }
    false
}

/// The result of a scan of inputs is what the specification says.
pub open spec fn scanned(
    r: Result<(Vec<(OutPoint, UtxoEntry)>, u64), LedgerError>,
    scan: InputScan,
) -> bool {
    match r {
        Ok((spent, sum)) => scan == (InputScan {
            spent: pair_views(spent@),
            sum: sum as nat,
            error: None,
        }),
        Err(e) => scan.error == Some(e),
    }
}

/// Whether the keys of a map are those of outputs that are spent.
spec fn marks(gone: Map<Seq<u8>, bool>, spent: Seq<UndoPair>) -> bool {
    &&& forall|i: int|
        0 <= i < spent.len() ==> (#[trigger] spent[i]).0.txid.len() == 32 && gone.contains_key(
            spent[i].0.key(),
        )
    &&& forall|k: Seq<u8>| #[trigger]
        gone.contains_key(k) ==> exists|i: int|
            0 <= i < spent.len() && (#[trigger] spent[i]).0.key() == k
}

proof fn lemma_marked(gone: Map<Seq<u8>, bool>, spent: Seq<UndoPair>, outpoint: OutPointView)
    requires
        marks(gone, spent),
        outpoint.txid.len() == 32,
    ensures
        gone.contains_key(outpoint.key()) == outpoints_of(spent).contains(outpoint),
{
    let all = outpoints_of(spent);
    if gone.contains_key(outpoint.key()) {
        let i = choose|i: int|
            0 <= i < spent.len() && (#[trigger] spent[i]).0.key() == outpoint.key();
        lemma_outpoint_key_injective(spent[i].0, outpoint);
        assert(all[i] == outpoint);
    }
    if all.contains(outpoint) {
        let i = choose|i: int| 0 <= i < all.len() && all[i] == outpoint;
        assert(spent[i].0 == outpoint);
    }
}

/// Marks outputs as spent.
fn mark_spent(
    gone: &mut ByteMap<bool>,
    spent: &Vec<(OutPoint, UtxoEntry)>,
    more: &Vec<(OutPoint, UtxoEntry)>,
)
    requires
        marks(old(gone)@, pair_views(spent@)),
    ensures
        marks(final(gone)@, pair_views(spent@) + pair_views(more@)),
{
    let ghost first = pair_views(spent@);
    let ghost all = pair_views(more@);
    let mut i: usize = 0;
    assert(first + all.take(0) =~= first);
    while i < more.len()
        invariant
            i <= more.len(),
            all == pair_views(more@),
            marks(gone@, first + all.take(i as int)),
        decreases more.len() - i,
    {
        let ghost before = gone@;
        let ghost listed = first + all.take(i as int);
        if let Ok(key) = encode_outpoint(&more[i].0) {
            let _ = gone.insert(key, true);
        }
        proof {
            let now = first + all.take(i + 1);
            assert(now =~= listed.push(all[i as int]));
            assert(all[i as int].0 == more@[i as int].0@);
            assert(gone@ == before.insert(all[i as int].0.key(), true));
            assert forall|j: int| 0 <= j < now.len() implies (#[trigger] now[j]).0.txid.len() == 32
                && gone@.contains_key(now[j].0.key()) by {
                if j < listed.len() {
                    assert(now[j] == listed[j]);
                }
            }
            assert forall|k: Seq<u8>| #[trigger] gone@.contains_key(k) implies exists|j: int|
                0 <= j < now.len() && (#[trigger] now[j]).0.key() == k by {
                if k == all[i as int].0.key() {
                    assert(now[listed.len() as int].0.key() == k);
                } else {
                    let j = choose|j: int|
                        0 <= j < listed.len() && (#[trigger] listed[j]).0.key() == k;
                    assert(now[j].0.key() == k);
                }
            }
        }
        i += 1;
    }
    assert(all.take(i as int) =~= all);
}

fn collect_inputs(
    store: &UtxoStore,
    earlier: &Vec<(OutPoint, UtxoEntry)>,
    gone: &ByteMap<bool>,
    tx: &Transaction,
    height: u64,
) -> (r: Result<(Vec<(OutPoint, UtxoEntry)>, u64), LedgerError>)
    requires
        marks(gone@, pair_views(earlier@)),
    ensures
        scanned(
            r,
            scan_inputs(store@, pair_views(earlier@), tx@.inputs, tx@.inputs.len(), height),
        ),
{
    let ghost past = pair_views(earlier@);
    let ghost ins = tx@.inputs;
    let mut spent: Vec<(OutPoint, UtxoEntry)> = Vec::new();
    let mut sum: u64 = 0;
    let mut i: usize = 0;
    assert(pair_views(spent@) =~= Seq::empty());
    while i < tx.inputs.len()
        invariant
            i <= tx.inputs.len(),
            ins == tx@.inputs,
            past == pair_views(earlier@),
            marks(gone@, past),
            scan_inputs(store@, past, ins, i as nat, height) == (InputScan {
                spent: pair_views(spent@),
                sum: sum as nat,
                error: None,
            }),
        decreases tx.inputs.len() - i,
    {
        let outpoint = OutPoint { txid: tx.inputs[i].prev_txid, vout: tx.inputs[i].prev_index };
        let ghost n = (i + 1) as nat;
        proof {
            assert(outpoint@ == spent_outpoint(ins[i as int]));
            lemma_scan_inputs_found(store@, past, ins, i as nat, height);
            let earlier = outpoints_spent(ins, i as nat);
            let pv = pair_views(spent@);
            assert forall|j: int| 0 <= j < i implies (#[trigger] pv[j]).0 == earlier[j] by {
                assert(scan_inputs(store@, past, ins, i as nat, height).spent[j].0 == spent_outpoint(
                    ins[j],
                ));
            }
            if earlier.contains(outpoint@) {
                let j = choose|j: int| 0 <= j < earlier.len() && earlier[j] == outpoint@;
                assert(pv[j].0 == outpoint@);
            }
            if exists|j: int| 0 <= j < pv.len() && (#[trigger] pv[j]).0 == outpoint@ {
                let j = choose|j: int| 0 <= j < pv.len() && (#[trigger] pv[j]).0 == outpoint@;
                assert(earlier[j] == outpoint@);
            }
            if scan_inputs(store@, past, ins, n, height).error is Some {
                lemma_scan_inputs_error_stays(store@, past, ins, n, ins.len(), height);
            }
        }
        if contains_outpoint(&spent, &outpoint) {
            return Err(LedgerError::Utxo(UtxoError::UtxoAlreadySpent));
        }
        proof {
            lemma_marked(gone@, past, outpoint@);
        }
        match encode_outpoint(&outpoint) {
            Ok(key) => {
                if gone.contains_key(&key) {
                    return Err(LedgerError::Utxo(UtxoError::UtxoNotFound));
                }
            },
            Err(_) => return Err(LedgerError::Unreadable),
        }
        let entry = match store.get_utxo(&outpoint) {
            Ok(Some(entry)) => entry,
            Ok(None) => return Err(LedgerError::Utxo(UtxoError::UtxoNotFound)),
            Err(_) => return Err(LedgerError::Unreadable),
        };
        if entry.coinbase && height < entry.height.saturating_add(COINBASE_MATURITY) {
            return Err(LedgerError::Utxo(UtxoError::ImmatureCoinbase));
        }
        sum = match sum.checked_add(entry.output.value) {
            Some(total) => total,
            None => return Err(LedgerError::Utxo(UtxoError::ValueOverflow)),
        };
        let ghost before = spent@;
        spent.push((outpoint, entry));
        assert(pair_views(spent@) =~= pair_views(before).push((outpoint@, entry@)));
        i += 1;
    }
    Ok((spent, sum))
}

fn scripts_unlock(tx: &Transaction, spent: &Vec<(OutPoint, UtxoEntry)>) -> (ok: bool)
    requires
        spent.len() == tx.inputs.len(),
    ensures
        ok == all_unlock(tx@, spent_outputs(pair_views(spent@))),
{
    let mut outputs: Vec<TxOutput> = Vec::new();
    let mut k: usize = 0;
    while k < spent.len()
        invariant
            k <= spent.len(),
            outputs.len() == k,
            forall|j: int| 0 <= j < k ==> (#[trigger] outputs[j])@ == spent[j].1.output@,
        decreases spent.len() - k,
    {
        outputs.push(spent[k].1.output.clone());
        k += 1;
    }
    let ghost want = spent_outputs(pair_views(spent@));
    assert(views(outputs@) =~= want);
    let mut i: usize = 0;
    while i < tx.inputs.len()
        invariant
            i <= tx.inputs.len(),
            outputs.len() == tx.inputs.len(),
            views(outputs@) == want,
            want == spent_outputs(pair_views(spent@)),
            forall|j: int| 0 <= j < i ==> #[trigger] input_unlocks(tx@, want, j),
        decreases tx.inputs.len() - i,
    {
        let context = ScriptContext {
            transaction: tx,
            input_index: i,
            spent_outputs: outputs.as_slice(),
        };
        assert(want[i as int].script_pubkey == outputs[i as int].script_pubkey@);
        assert(tx@.inputs[i as int].script_sig == tx.inputs[i as int].script_sig@);
        let unlocked = match validate_p2pkh(
            &tx.inputs[i].script_sig,
            &outputs[i].script_pubkey,
            &context,
        ) {
            Ok(valid) => valid,
            Err(_) => false,
        };
        assert(unlocked == input_unlocks(tx@, want, i as int));
        if !unlocked {
            return false;
        }
        i += 1;
    }
    true
}

fn push_created(
    created: &mut Vec<(OutPoint, UtxoEntry)>,
    tx: &Transaction,
    height: u64,
    coinbase: bool,
)
    ensures
        pair_views(final(created)@) == pair_views(old(created)@) + created_by(
            tx@,
            height,
            coinbase,
        ),
{
    let txid = tx.txid();
    let ghost all = created_by(tx@, height, coinbase);
    let mut i: usize = 0;
    assert(pair_views(created@) + all.take(0) =~= pair_views(created@));
    while i < tx.outputs.len()
        invariant
            i <= tx.outputs.len(),
            txid@ == tx@.txid(),
            all == created_by(tx@, height, coinbase),
            pair_views(created@) == pair_views(old(created)@) + all.take(i as int),
        decreases tx.outputs.len() - i,
    {
        let outpoint = OutPoint { txid, vout: i as u32 };
        let entry = UtxoEntry { output: tx.outputs[i].clone(), coinbase, height };
        let ghost before = created@;
        created.push((outpoint, entry));
        proof {
            assert(all[i as int] == (outpoint@, entry@));
            assert(all.take(i + 1) =~= all.take(i as int).push(all[i as int]));
            assert(pair_views(created@) =~= pair_views(before).push((outpoint@, entry@)));
            assert(pair_views(created@) =~= pair_views(old(created)@) + all.take(i + 1));
        }
        i += 1;
    }
    assert(all.take(i as int) =~= all);
}

fn append_pairs(out: &mut Vec<(OutPoint, UtxoEntry)>, more: &Vec<(OutPoint, UtxoEntry)>)
    ensures
        pair_views(final(out)@) == pair_views(old(out)@) + pair_views(more@),
{
    let ghost all = pair_views(more@);
    let mut i: usize = 0;
    assert(pair_views(out@) + all.take(0) =~= pair_views(out@));
    while i < more.len()
        invariant
            i <= more.len(),
            all == pair_views(more@),
            pair_views(out@) == pair_views(old(out)@) + all.take(i as int),
        decreases more.len() - i,
    {
        let ghost before = out@;
        out.push((more[i].0, more[i].1.clone()));
        proof {
            assert(all.take(i + 1) =~= all.take(i as int).push(all[i as int]));
            assert(pair_views(out@) =~= pair_views(before).push(all[i as int]));
            assert(pair_views(out@) =~= pair_views(old(out)@) + all.take(i + 1));
        }
        i += 1;
    }
    assert(all.take(i as int) =~= all);
}

/// Number of buckets that the spent outputs of a block are spread over.
const SPENT_BUCKETS: usize = 4096;

/// Checks what the transactions of a block spend against the unspent outputs, and
/// collects what they create and spend and the fees that they pay.
pub fn apply_block_to_utxo(store: &UtxoStore, block: &Block, height: u64) -> (r: Result<
    BlockEffects,
    LedgerError,
>)
    ensures
        match r {
            Ok(effects) => scan_block(store@, block@, height) == (BlockScan {
                created: pair_views(effects.created@),
                spent: pair_views(effects.spent@),
                fees: effects.fees as nat,
                error: None,
            }),
            Err(e) => scan_block(store@, block@, height).error == Some(e),
        },
{
    let ghost txs = block@.transactions;
    let mut created: Vec<(OutPoint, UtxoEntry)> = Vec::new();
    let mut spent: Vec<(OutPoint, UtxoEntry)> = Vec::new();
    let mut gone: ByteMap<bool> = ByteMap::with_buckets(SPENT_BUCKETS);
    let mut fees: u64 = 0;
    let mut i: usize = 0;
    assert(pair_views(created@) =~= Seq::empty());
    assert(pair_views(spent@) =~= Seq::empty());
    while i < block.transactions.len()
        invariant
            i <= block.transactions.len(),
            txs == block@.transactions,
            marks(gone@, pair_views(spent@)),
            scan_transactions(store@, txs, i as nat, height) == (BlockScan {
                created: pair_views(created@),
                spent: pair_views(spent@),
                fees: fees as nat,
                error: None,
            }),
        decreases block.transactions.len() - i,
    {
        let tx = &block.transactions[i];
        let is_coinbase = i == 0;
        proof {
            assert(txs[i as int] == tx@);
            if scan_transactions(store@, txs, (i + 1) as nat, height).error is Some {
                lemma_scan_transactions_error_stays(
                    store@,
                    txs,
                    (i + 1) as nat,
                    txs.len(),
                    height,
                );
            }
        }
        if !is_coinbase {
            let ghost past = pair_views(spent@);
            let (inputs, input_sum) = match collect_inputs(store, &spent, &gone, tx, height) {
                Ok(found) => found,
                Err(e) => return Err(e),
            };
            proof {
                lemma_scan_inputs_found(store@, past, tx@.inputs, tx@.inputs.len(), height);
            }
            let output_sum: u64 = match tx.checked_output_sum() {
                Some(sum) => sum,
                None => return Err(LedgerError::Utxo(UtxoError::InsufficientValue)),
            };
            if input_sum < output_sum {
                return Err(LedgerError::Utxo(UtxoError::InsufficientValue));
            }
            let total_fees: u64 = match fees.checked_add(input_sum - output_sum) {
                Some(total) => total,
                None => return Err(LedgerError::Utxo(UtxoError::ValueOverflow)),
            };
            if !scripts_unlock(tx, &inputs) {
                return Err(LedgerError::Utxo(UtxoError::ScriptValidationFailed));
            }
            fees = total_fees;
            mark_spent(&mut gone, &spent, &inputs);
            append_pairs(&mut spent, &inputs);
        }
        push_created(&mut created, tx, height, is_coinbase);
        i += 1;
    }
    Ok(BlockEffects { created, spent, fees })
}

} // verus!
