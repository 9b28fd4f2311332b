//! Transactions that wait for a block.

use crate::collections::byte_map::ByteMap;
use crate::consensus::chain::ChainState;
use crate::consensus::transaction::{
    Transaction, TransactionView, TxInput, TxInputView, TxOutput, TxOutputView,
};
use crate::consensus::utxo::{is_p2pkh_script, is_p2wpkh_script, spent_outpoint, OutPoint};
use crate::primitives::bytes::bytes_equal;
use crate::primitives::serialize::views;
use crate::script::engine::{
    p2pkh_outcome, p2wpkh_outcome, validate_p2pkh, validate_p2wpkh, ScriptContext,
    ScriptContextView, ScriptError,
};
use crate::storage::db::{value_at, ColumnFamily, Rows};
use crate::storage::utxo::entry_at;
use vstd::prelude::*;

verus! {

/// Maximum number of unconfirmed transactions held in memory.
/// Transactions beyond this limit are rejected; no eviction is performed.
pub const MEMPOOL_MAX_ENTRIES: usize = 5_000;

/// Why a transaction is not taken.
#[derive(Debug, Clone, Copy, PartialEq, Eq, Structural)]
pub enum MempoolError {
    /// The unspent outputs could not be read.
    StoreError,
    /// An input spends an output that is not there.
    MissingInput,
    /// A script could not be executed.
    Script(ScriptError),
    P2pkhFailed,
    MissingWitness,
    P2wpkhFailed,
    /// There are as many transactions as there may be.
    Full,
    /// A transaction that waits spends the same output.
    Conflict,
}

/// Transactions by their identifiers.
pub type Pool = Map<Seq<u8>, TransactionView>;

/// The outputs that the first `n` inputs spend.
pub open spec fn outputs_spent(rows: Rows, inputs: Seq<TxInputView>, n: nat) -> Result<
    Seq<TxOutputView>,
    MempoolError,
>
    decreases n,
{
    if n == 0 {
        Ok(Seq::empty())
    } else {
        match outputs_spent(rows, inputs, (n - 1) as nat) {
            Err(e) => Err(e),
            Ok(before) => match entry_at(rows, spent_outpoint(inputs[n - 1]).key()) {
                Err(_) => Err(MempoolError::StoreError),
                Ok(None) => Err(MempoolError::MissingInput),
                Ok(Some(entry)) => Ok(before.push(entry.output)),
            },
        }
    }
}

/// What is wrong with the script of an input.
pub open spec fn script_fault(tx: TransactionView, spent: Seq<TxOutputView>, i: int) -> Option<
    MempoolError,
> {
    let script = spent[i].script_pubkey;
    let context = ScriptContextView {
        transaction: tx,
        input_index: i as usize,
        spent_outputs: spent,
    };
    if is_p2pkh_script(script) {
        match p2pkh_outcome(tx.inputs[i].script_sig, script, context) {
            Err(e) => Some(MempoolError::Script(e)),
            Ok(unlocked) => if unlocked {
                None
            } else {
                Some(MempoolError::P2pkhFailed)
            },
        }
    } else if is_p2wpkh_script(script) {
        if i >= tx.witnesses.len() {
            Some(MempoolError::MissingWitness)
        } else {
            match p2wpkh_outcome(tx.witnesses[i], script, context) {
                Err(e) => Some(MempoolError::Script(e)),
                Ok(unlocked) => if unlocked {
                    None
                } else {
                    Some(MempoolError::P2wpkhFailed)
                },
            }
        }
    } else {
        None
    }
}

/// What is wrong with the first of `n` inputs with which something is wrong.
pub open spec fn first_fault(tx: TransactionView, spent: Seq<TxOutputView>, n: nat) -> Option<
    MempoolError,
>
    decreases n,
{
    if n == 0 {
        None
    } else {
        match first_fault(tx, spent, (n - 1) as nat) {
            Some(e) => Some(e),
            None => script_fault(tx, spent, n - 1),
        }
    }
}

/// Whether two transactions spend an output in common.
pub open spec fn spend_same(a: TransactionView, b: TransactionView) -> bool {
    exists|i: int, j: int|
        0 <= i < a.inputs.len() && 0 <= j < b.inputs.len() && #[trigger] spent_outpoint(a.inputs[i])
            == #[trigger] spent_outpoint(b.inputs[j])
}

/// Whether a transaction spends an output that one that waits spends.
pub open spec fn conflicts(pool: Pool, tx: TransactionView) -> bool {
    exists|id: Seq<u8>| #[trigger] pool.contains_key(id) && spend_same(pool[id], tx)
}

/// What is wrong with a transaction, whatever else waits.
pub open spec fn input_fault(rows: Rows, tx: TransactionView) -> Option<MempoolError> {
    match outputs_spent(rows, tx.inputs, tx.inputs.len()) {
        Err(e) => Some(e),
        Ok(spent) => first_fault(tx, spent, tx.inputs.len()),
    }
}

/// Whether a transaction is taken. One that waits already is not, without fault.
pub open spec fn admission(pool: Pool, rows: Rows, tx: TransactionView) -> Result<
    bool,
    MempoolError,
> {
    match input_fault(rows, tx) {
        Some(e) => Err(e),
        None => if pool.contains_key(tx.txid()) {
            Ok(false)
        } else if pool.dom().len() >= MEMPOOL_MAX_ENTRIES {
            Err(MempoolError::Full)
        } else if conflicts(pool, tx) {
            Err(MempoolError::Conflict)
        } else {
            Ok(true)
        },
    }
}

/// The transactions that wait once one was offered.
pub open spec fn offered(pool: Pool, rows: Rows, tx: TransactionView) -> Pool {
    if admission(pool, rows, tx) == Ok::<bool, MempoolError>(true) {
        pool.insert(tx.txid(), tx)
    } else {
        pool
    }
}

/// The transactions that wait once the first `n` of a list were offered.
pub open spec fn all_offered(pool: Pool, rows: Rows, txs: Seq<TransactionView>, n: nat) -> Pool
    decreases n,
{
    if n == 0 {
        pool
    } else {
        offered(all_offered(pool, rows, txs, (n - 1) as nat), rows, txs[n - 1])
    }
}

/// Whether a transaction is one of a list.
pub open spec fn is_in_block(id: Seq<u8>, txs: Seq<TransactionView>) -> bool {
    exists|i: int| 0 <= i < txs.len() && #[trigger] txs[i].txid() == id
}

/// Whether a transaction spends an output that one of a list spends.
pub open spec fn spent_in_block(tx: TransactionView, txs: Seq<TransactionView>) -> bool {
    exists|i: int| 0 <= i < txs.len() && #[trigger] spend_same(txs[i], tx)
}

/// The transactions that wait once those of a block are confirmed.
pub open spec fn confirmed(pool: Pool, txs: Seq<TransactionView>) -> Pool {
    Map::new(
        |id: Seq<u8>|
            pool.contains_key(id) && !is_in_block(id, txs) && !spent_in_block(pool[id], txs),
        |id: Seq<u8>| pool[id],
    )
}

/// Whether the outputs that a transaction spends are all there.
pub open spec fn still_valid(rows: Rows, tx: TransactionView) -> bool {
    forall|i: int|
        0 <= i < tx.inputs.len() ==> value_at(
            rows,
            ColumnFamily::Utxo,
            (#[trigger] spent_outpoint(tx.inputs[i])).key(),
        ) is Some
}

/// The transactions that wait and can still be confirmed.
pub open spec fn purged(pool: Pool, rows: Rows) -> Pool {
    Map::new(
        |id: Seq<u8>| pool.contains_key(id) && still_valid(rows, pool[id]),
        |id: Seq<u8>| pool[id],
    )
}

/// Transactions are filed under their identifiers, no two of them spend the same
/// output, and there are not too many.
pub open spec fn coherent(pool: Pool) -> bool {
    &&& pool.dom().finite()
    &&& pool.dom().len() <= MEMPOOL_MAX_ENTRIES
    &&& forall|id: Seq<u8>| #[trigger] pool.contains_key(id) ==> pool[id].txid() == id
    &&& forall|a: Seq<u8>, b: Seq<u8>|
        #[trigger] pool.contains_key(a) && #[trigger] pool.contains_key(b) && a != b
            ==> !spend_same(pool[a], pool[b])
}

/// A pool stays coherent when a transaction is offered.
pub proof fn lemma_offered_coherent(pool: Pool, rows: Rows, tx: TransactionView)
    requires
        coherent(pool),
    ensures
        coherent(offered(pool, rows, tx)),
{
    let r = offered(pool, rows, tx);
    if admission(pool, rows, tx) == Ok::<bool, MempoolError>(true) {
        assert forall|a: Seq<u8>, b: Seq<u8>| #[trigger]
            r.contains_key(a) && #[trigger] r.contains_key(b) && a != b implies !spend_same(
            r[a],
            r[b],
        ) by {
            if a == tx.txid() {
                assert(pool.contains_key(b));
                if spend_same(r[a], r[b]) {
                    lemma_spend_same_symmetric(tx, pool[b]);
                }
            } else if b == tx.txid() {
                assert(pool.contains_key(a));
            }
        }
    }
}

proof fn lemma_spend_same_symmetric(a: TransactionView, b: TransactionView)
    requires
        spend_same(a, b),
    ensures
        spend_same(b, a),
{
    let (i, j) = choose|i: int, j: int|
        0 <= i < a.inputs.len() && 0 <= j < b.inputs.len() && #[trigger] spent_outpoint(a.inputs[i])
            == #[trigger] spent_outpoint(b.inputs[j]);
    assert(spent_outpoint(b.inputs[j]) == spent_outpoint(a.inputs[i]));
}

proof fn lemma_part_coherent(pool: Pool, part: Pool)
    requires
        coherent(pool),
        forall|id: Seq<u8>| #[trigger] part.contains_key(id) ==> pool.contains_key(id)
            && part[id] == pool[id],
    ensures
        coherent(part),
{
    assert(part.dom().subset_of(pool.dom()));
    vstd::set_lib::lemma_set_subset_finite(pool.dom(), part.dom());
    vstd::set_lib::lemma_len_subset(part.dom(), pool.dom());
}

/// A pool stays coherent when a block is confirmed. What is left has nothing to do
/// with the block.
pub proof fn lemma_confirmed_coherent(pool: Pool, txs: Seq<TransactionView>)
    requires
        coherent(pool),
    ensures
        coherent(confirmed(pool, txs)),
        forall|id: Seq<u8>, i: int| #[trigger]
            confirmed(pool, txs).contains_key(id) && 0 <= i < txs.len() ==> id
                != #[trigger] txs[i].txid() && !spend_same(txs[i], pool[id]),
{
    lemma_part_coherent(pool, confirmed(pool, txs));
}

/// A pool stays coherent when it is purged. What is left can be confirmed, and
/// purging again changes nothing.
pub proof fn lemma_purged_coherent(pool: Pool, rows: Rows)
    requires
        coherent(pool),
    ensures
        coherent(purged(pool, rows)),
        purged(purged(pool, rows), rows) == purged(pool, rows),
{
    lemma_part_coherent(pool, purged(pool, rows));
    assert(purged(purged(pool, rows), rows) =~= purged(pool, rows));
}

/// Transactions that wait for a block.
pub struct NetworkMempool {
    transactions: ByteMap<Transaction>,
}

impl View for NetworkMempool {
    type V = Pool;

    closed spec fn view(&self) -> Pool {
        self.transactions@
    }
}

fn outpoint_of(input: &TxInput) -> (r: OutPoint)
    ensures
        r@ == spent_outpoint(input@),
{
    OutPoint { txid: input.prev_txid, vout: input.prev_index }
}

fn same_outpoint(a: &TxInput, b: &TxInput) -> (r: bool)
    ensures
        r == (spent_outpoint(a@) == spent_outpoint(b@)),
{
    let r: bool = a.prev_index == b.prev_index && bytes_equal(&a.prev_txid, &b.prev_txid);
    r
}

fn share_input(a: &Transaction, b: &Transaction) -> (r: bool)
    ensures
        r == spend_same(a@, b@),
{
    let mut i: usize = 0;
    while i < a.inputs.len()
        invariant
            i <= a.inputs@.len(),
            forall|k: int, j: int|
                0 <= k < i && 0 <= j < b.inputs@.len() ==> #[trigger] spent_outpoint(a@.inputs[k])
                    != #[trigger] spent_outpoint(b@.inputs[j]),
        decreases a.inputs@.len() - i,
    {
        assert(a@.inputs[i as int] == a.inputs@[i as int]@);
        let mut j: usize = 0;
        while j < b.inputs.len()
            invariant
                i < a.inputs@.len(),
                a@.inputs[i as int] == a.inputs@[i as int]@,
                j <= b.inputs@.len(),
                forall|l: int|
                    0 <= l < j ==> spent_outpoint(a@.inputs[i as int]) != #[trigger] spent_outpoint(
                        b@.inputs[l],
                    ),
            decreases b.inputs@.len() - j,
        {
            assert(b@.inputs[j as int] == b.inputs@[j as int]@);
            if same_outpoint(&a.inputs[i], &b.inputs[j]) {
                assert(spent_outpoint(a@.inputs[i as int]) == spent_outpoint(
                    b@.inputs[j as int],
                ));
                return true;
            }
            j += 1;
        }
        i += 1;
    }
    false
}

fn look_like_p2pkh(script: &Vec<u8>) -> (r: bool)
    ensures
        r == is_p2pkh_script(script@),
{
    script.len() == 25 && script[0] == 0x76 && script[1] == 0xa9 && script[2] == 0x14
        && script[23] == 0x88 && script[24] == 0xac
}

fn look_like_p2wpkh(script: &Vec<u8>) -> (r: bool)
    ensures
        r == is_p2wpkh_script(script@),
{
    script.len() == 22 && script[0] == 0x00 && script[1] == 0x14
}

/// The outputs that a transaction spends.
fn find_spent(chain: &ChainState, tx: &Transaction) -> (r: Result<Vec<TxOutput>, MempoolError>)
    ensures
        match r {
            Ok(spent) => outputs_spent(chain@.utxos, tx@.inputs, tx@.inputs.len()) == Ok::<
                Seq<TxOutputView>,
                MempoolError,
            >(views(spent@)),
            Err(e) => outputs_spent(chain@.utxos, tx@.inputs, tx@.inputs.len()) == Err::<
                Seq<TxOutputView>,
                MempoolError,
            >(e),
        },
{
    let mut spent: Vec<TxOutput> = Vec::new();
    let ghost rows = chain@.utxos;
    let mut i: usize = 0;
    assert(views(spent@) =~= Seq::empty());
    while i < tx.inputs.len()
        invariant
            i <= tx.inputs@.len(),
            rows == chain@.utxos,
            outputs_spent(rows, tx@.inputs, i as nat) == Ok::<Seq<TxOutputView>, MempoolError>(
                views(spent@),
            ),
        decreases tx.inputs@.len() - i,
    {
        assert(tx@.inputs[i as int] == tx.inputs@[i as int]@);
        let outpoint = outpoint_of(&tx.inputs[i]);
        let ghost before = spent@;
        match chain.get_utxo(&outpoint) {
            Err(_) => {
                proof {
                    lemma_missing_stays(rows, tx@.inputs, i as nat + 1, tx@.inputs.len());
                }
                return Err(MempoolError::StoreError);
            },
            Ok(None) => {
                proof {
                    lemma_missing_stays(rows, tx@.inputs, i as nat + 1, tx@.inputs.len());
                }
                return Err(MempoolError::MissingInput);
            },
            Ok(Some(entry)) => {
                let ghost o = entry.output@;
                spent.push(entry.output);
                assert(views(spent@) =~= views(before).push(o));
            },
        }
        i += 1;
    }
    Ok(spent)
}

proof fn lemma_missing_stays(rows: Rows, inputs: Seq<TxInputView>, m: nat, n: nat)
    requires
        m <= n,
        outputs_spent(rows, inputs, m) is Err,
    ensures
        outputs_spent(rows, inputs, n) == outputs_spent(rows, inputs, m),
    decreases n,
{
    if m < n {
        lemma_missing_stays(rows, inputs, m, (n - 1) as nat);
    }
}

proof fn lemma_fault_stays(tx: TransactionView, spent: Seq<TxOutputView>, m: nat, n: nat)
    requires
        m <= n,
        first_fault(tx, spent, m) is Some,
    ensures
        first_fault(tx, spent, n) == first_fault(tx, spent, m),
    decreases n,
{
    if m < n {
        lemma_fault_stays(tx, spent, m, (n - 1) as nat);
    }
}

fn check_script(tx: &Transaction, spent: &Vec<TxOutput>, index: usize) -> (r: Result<
    (),
    MempoolError,
>)
    requires
        index < tx.inputs@.len(),
        spent@.len() == tx.inputs@.len(),
    ensures
        match r {
            Ok(_) => script_fault(tx@, views(spent@), index as int) is None,
            Err(e) => script_fault(tx@, views(spent@), index as int) == Some(e),
        },
{
    let script = &spent[index].script_pubkey;
    assert(views(spent@)[index as int] == spent@[index as int]@);
    assert(tx@.inputs[index as int] == tx.inputs@[index as int]@);
    let context = ScriptContext {
        transaction: tx,
        input_index: index,
        spent_outputs: spent.as_slice(),
    };
    if look_like_p2pkh(script) {
        match validate_p2pkh(&tx.inputs[index].script_sig, script, &context) {
            Err(e) => Err(MempoolError::Script(e)),
            Ok(true) => Ok(()),
            Ok(false) => Err(MempoolError::P2pkhFailed),
        }
    } else if look_like_p2wpkh(script) {
        if index >= tx.witnesses.len() {
            return Err(MempoolError::MissingWitness);
        }
        assert(tx@.witnesses[index as int] == tx.witnesses@[index as int]@);
        match validate_p2wpkh(&tx.witnesses[index], script, &context) {
            Err(e) => Err(MempoolError::Script(e)),
            Ok(true) => Ok(()),
            Ok(false) => Err(MempoolError::P2wpkhFailed),
        }
    } else {
        Ok(())
    }
}

/// Checks what a transaction spends, and that it may.
fn check_inputs(chain: &ChainState, tx: &Transaction) -> (r: Result<(), MempoolError>)
    ensures
        match r {
            Ok(_) => input_fault(chain@.utxos, tx@) is None,
            Err(e) => input_fault(chain@.utxos, tx@) == Some(e),
        },
{
    let spent = match find_spent(chain, tx) {
        Ok(spent) => spent,
        Err(e) => return Err(e),
    };
    let ghost so = views(spent@);
    proof {
        lemma_spent_len(chain@.utxos, tx@.inputs, tx@.inputs.len());
    }
    let mut i: usize = 0;
    while i < tx.inputs.len()
        invariant
            i <= tx.inputs@.len(),
            so == views(spent@),
            spent@.len() == tx.inputs@.len(),
            first_fault(tx@, so, i as nat) is None,
            outputs_spent(chain@.utxos, tx@.inputs, tx@.inputs.len()) == Ok::<
                Seq<TxOutputView>,
                MempoolError,
            >(so),
        decreases tx.inputs@.len() - i,
    {
        match check_script(tx, &spent, i) {
            Ok(()) => {},
            Err(e) => {
                proof {
                    lemma_fault_stays(tx@, so, i as nat + 1, tx@.inputs.len());
                }
                return Err(e);
            },
        }
        i += 1;
    }
    Ok(())
}

proof fn lemma_spent_len(rows: Rows, inputs: Seq<TxInputView>, n: nat)
    ensures
        outputs_spent(rows, inputs, n) matches Ok(s) ==> s.len() == n,
    decreases n,
{
    if n > 0 {
        lemma_spent_len(rows, inputs, (n - 1) as nat);
    }
}

impl NetworkMempool {
    pub fn new() -> (r: Self)
        ensures
            r@ == Map::<Seq<u8>, TransactionView>::empty(),
            coherent(r@),
    {
        NetworkMempool { transactions: ByteMap::with_buckets(1024) }
    }

    fn has_conflict(&self, tx: &Transaction) -> (r: bool)
        ensures
            r == conflicts(self@, tx@),
    {
        let keys = self.transactions.keys();
        let ghost ks = views(keys@);
        let mut i: usize = 0;
        while i < keys.len()
            invariant
                i <= keys@.len(),
                ks == views(keys@),
                forall|k: Seq<u8>|
                    #![trigger self@.contains_key(k)]
                    self@.contains_key(k) <==> ks.contains(k),
                forall|j: int| 0 <= j < i ==> !spend_same(self@[#[trigger] ks[j]], tx@),
            decreases keys@.len() - i,
        {
            let ghost key = ks[i as int];
            assert(key == keys@[i as int]@);
            assert(ks.contains(key));
            if let Some(pending) = self.transactions.get(&keys[i]) {
                if share_input(pending, tx) {
                    assert(self@.contains_key(key) && spend_same(self@[key], tx@));
                    return true;
                }
            }
            i += 1;
        }
        proof {
            if conflicts(self@, tx@) {
                let id = choose|id: Seq<u8>| #[trigger] self@.contains_key(id) && spend_same(
                    self@[id],
                    tx@,
                );
                let j = choose|j: int| 0 <= j < ks.len() && ks[j] == id;
                assert(!spend_same(self@[ks[j]], tx@));
            }
        }
        false
    }

    // Add transaction to mempool
    pub fn add_transaction(&mut self, chain: &ChainState, tx: Transaction) -> (r: Result<
        bool,
        MempoolError,
    >)
        ensures
            r == admission(old(self)@, chain@.utxos, tx@),
            final(self)@ == offered(old(self)@, chain@.utxos, tx@),
            coherent(old(self)@) ==> coherent(final(self)@),
    {
        proof {
            if coherent(self@) {
                lemma_offered_coherent(self@, chain@.utxos, tx@);
            }
        }
        match check_inputs(chain, &tx) {
            Ok(()) => {},
            Err(e) => return Err(e),
        }
        let txid = tx.txid();
        if self.transactions.contains_key(&txid) {
            return Ok(false);  // Already have it
        }
        if self.transactions.len() >= MEMPOOL_MAX_ENTRIES {
            return Err(MempoolError::Full);
        }
        // Reject if any input conflicts with an already-pending mempool transaction.
        if self.has_conflict(&tx) {
            return Err(MempoolError::Conflict);
        }
        let _ = self.transactions.insert(vstd::slice::slice_to_vec(&txid), tx);
        Ok(true)
    }

    /// Offers transactions one after the other.
    pub fn add_all(&mut self, chain: &ChainState, txs: &Vec<Transaction>)
        ensures
            final(self)@ == all_offered(old(self)@, chain@.utxos, views(txs@), txs@.len()),
            coherent(old(self)@) ==> coherent(final(self)@),
    {
        let ghost start = self@;
        let ghost list = views(txs@);
        let mut i: usize = 0;
        while i < txs.len()
            invariant
                i <= txs@.len(),
                list == views(txs@),
                start == old(self)@,
                self@ == all_offered(start, chain@.utxos, list, i as nat),
                coherent(start) ==> coherent(self@),
            decreases txs@.len() - i,
        {
            assert(list[i as int] == txs@[i as int]@);
            let _ = self.add_transaction(chain, txs[i].clone());
            i += 1;
        }
    }

    // Get transaction by hash
    pub fn get_transaction(&self, txid: &[u8; 32]) -> (r: Option<Transaction>)
        ensures
            match r {
                Some(tx) => self@.contains_key(txid@) && tx@ == self@[txid@],
                None => !self@.contains_key(txid@),
            },
    {
        match self.transactions.get(txid) {
            Some(tx) => Some(tx.clone()),
            None => None,
        }
    }

    // Check if transaction exists
    pub fn has_transaction(&self, txid: &[u8; 32]) -> (r: bool)
        ensures
            r == self@.contains_key(txid@),
    {
        self.transactions.contains_key(txid)
    }

    // Remove transaction (after it's mined)
    pub fn remove_transaction(&mut self, txid: &[u8; 32])
        ensures
            final(self)@ == old(self)@.remove(txid@),
            coherent(old(self)@) ==> coherent(final(self)@),
    {
        proof {
            if coherent(self@) {
                lemma_part_coherent(self@, self@.remove(txid@));
            }
        }
        let _ = self.transactions.remove(txid);
    }

    // Remove transactions that are in a block, plus any mempool transactions
    // that conflict with block transactions (spend the same inputs). This handles
    // the case where a peer mines a block containing a transaction we didn't have
    // in our mempool, but which spends the same UTXO as one we do have.
    pub fn remove_block_transactions(&mut self, block_txs: &Vec<Transaction>)
        ensures
            final(self)@ == confirmed(old(self)@, views(block_txs@)),
            coherent(old(self)@) ==> coherent(final(self)@),
    {
        let ghost start = self@;
        let ghost list = views(block_txs@);
        proof {
            if coherent(start) {
                lemma_confirmed_coherent(start, list);
            }
        }
        let keys = self.transactions.keys();
        let ghost ks = views(keys@);
        let mut i: usize = 0;
        while i < keys.len()
            invariant
                i <= keys@.len(),
                ks == views(keys@),
                ks.no_duplicates(),
                list == views(block_txs@),
                forall|k: Seq<u8>|
                    #![trigger start.contains_key(k)]
                    start.contains_key(k) <==> ks.contains(k),
                forall|k: Seq<u8>| #[trigger]
                    self@.contains_key(k) <==> start.contains_key(k) && (ks.take(
                        i as int,
                    ).contains(k) ==> !is_in_block(k, list) && !spent_in_block(start[k], list)),
                forall|k: Seq<u8>| #[trigger] self@.contains_key(k) ==> self@[k] == start[k],
            decreases keys@.len() - i,
        {
            let ghost key = ks[i as int];
            let ghost part = ks.take(i as int);
            assert(key == keys@[i as int]@);
            assert(ks.contains(key));
            assert(!part.contains(key)) by {
                if part.contains(key) {
                    let j = choose|j: int| 0 <= j < part.len() && part[j] == key;
                    assert(ks[j] == ks[i as int]);
                }
            }
            let gone: bool = match self.transactions.get(&keys[i]) {
                Some(pending) => in_block(&keys[i], block_txs) || conflicts_with_block(
                    pending,
                    block_txs,
                ),
                None => true,
            };
            let ghost was = self@;
            assert(was.contains_key(key) && was[key] == start[key]);
            if gone {
                let _ = self.transactions.remove(&keys[i]);
            }
            proof {
                assert forall|k: Seq<u8>| #[trigger]
                    self@.contains_key(k) <==> was.contains_key(k) && !(gone && k == key) by {}
                assert forall|k: Seq<u8>| #[trigger] self@.contains_key(k) implies self@[k]
                    == was[k] by {
                    assert(was.contains_key(k));
                }
                let next = ks.take(i + 1);
                assert forall|k: Seq<u8>| next.contains(k) <==> part.contains(k) || k == key by {
                    if next.contains(k) {
                        let j = choose|j: int| 0 <= j < next.len() && next[j] == k;
                        if j < i {
                            assert(part[j] == k);
                        }
                    }
                    if part.contains(k) {
                        let j = choose|j: int| 0 <= j < part.len() && part[j] == k;
                        assert(next[j] == k);
                    }
                    if k == key {
                        assert(next[i as int] == k);
                    }
                }
            }
            i += 1;
        }
        assert(ks.take(i as int) =~= ks);
        assert(self@ =~= confirmed(start, list));
    }

    /// Get all transactions, each once.
    pub fn get_all_transactions(&self) -> (r: Vec<Transaction>)
        ensures
            exists|ids: Seq<Seq<u8>>|
                {
                    &&& ids.no_duplicates()
                    &&& ids.to_set() == self@.dom()
                    &&& views(r@) == #[trigger] listed(self@, ids)
                },
    {
        let keys = self.transactions.keys();
        let ghost ks = views(keys@);
        let mut out: Vec<Transaction> = Vec::new();
        let mut i: usize = 0;
        while i < keys.len()
            invariant
                i <= keys@.len(),
                ks == views(keys@),
                forall|k: Seq<u8>|
                    #![trigger self@.contains_key(k)]
                    self@.contains_key(k) <==> ks.contains(k),
                out@.len() == i,
                forall|j: int| 0 <= j < i ==> (#[trigger] out@[j])@ == self@[ks[j]],
            decreases keys@.len() - i,
        {
            let ghost key = ks[i as int];
            assert(key == keys@[i as int]@);
            assert(ks.contains(key));
            assert(self@.contains_key(key));
            if let Some(tx) = self.transactions.get(&keys[i]) {
                out.push(tx.clone());
            }
            i += 1;
        }
        proof {
            assert(views(out@) =~= listed(self@, ks));
            assert(ks.to_set() =~= self@.dom());
        }
        out
    }

    // Clear mempool
    pub fn clear(&mut self)
        ensures
            final(self)@ == Map::<Seq<u8>, TransactionView>::empty(),
    {
        self.transactions = ByteMap::with_buckets(1024);
    }

    /// Evict any mempool transaction whose inputs are no longer in the UTXO set.
    /// This changes nothing when there has been no reorg; on reorg it removes
    /// transactions whose inputs were on the disconnected chain and no longer
    /// exist.
    pub fn purge_stale(&mut self, chain: &ChainState)
        ensures
            final(self)@ == purged(old(self)@, chain@.utxos),
            coherent(old(self)@) ==> coherent(final(self)@),
    {
        let ghost start = self@;
        let ghost rows = chain@.utxos;
        proof {
            if coherent(start) {
                lemma_purged_coherent(start, rows);
            }
        }
        let keys = self.transactions.keys();
        let ghost ks = views(keys@);
        let mut i: usize = 0;
        while i < keys.len()
            invariant
                i <= keys@.len(),
                ks == views(keys@),
                ks.no_duplicates(),
                rows == chain@.utxos,
                forall|k: Seq<u8>|
                    #![trigger start.contains_key(k)]
                    start.contains_key(k) <==> ks.contains(k),
                forall|k: Seq<u8>| #[trigger]
                    self@.contains_key(k) <==> start.contains_key(k) && (ks.take(
                        i as int,
                    ).contains(k) ==> still_valid(rows, start[k])),
                forall|k: Seq<u8>| #[trigger] self@.contains_key(k) ==> self@[k] == start[k],
            decreases keys@.len() - i,
        {
            let ghost key = ks[i as int];
            let ghost part = ks.take(i as int);
            assert(key == keys@[i as int]@);
            assert(ks.contains(key));
            assert(!part.contains(key)) by {
                if part.contains(key) {
                    let j = choose|j: int| 0 <= j < part.len() && part[j] == key;
                    assert(ks[j] == ks[i as int]);
                }
            }
            let keep: bool = match self.transactions.get(&keys[i]) {
                Some(tx) => inputs_exist(chain, tx),
                None => false,
            };
            let ghost was = self@;
            assert(was.contains_key(key) && was[key] == start[key]);
            if !keep {
                let _ = self.transactions.remove(&keys[i]);
            }
            proof {
                assert forall|k: Seq<u8>| #[trigger]
                    self@.contains_key(k) <==> was.contains_key(k) && !(!keep && k == key) by {}
                assert forall|k: Seq<u8>| #[trigger] self@.contains_key(k) implies self@[k]
                    == was[k] by {
                    assert(was.contains_key(k));
                }
                let next = ks.take(i + 1);
                assert forall|k: Seq<u8>| next.contains(k) <==> part.contains(k) || k == key by {
                    if next.contains(k) {
                        let j = choose|j: int| 0 <= j < next.len() && next[j] == k;
                        if j < i {
                            assert(part[j] == k);
                        }
                    }
                    if part.contains(k) {
                        let j = choose|j: int| 0 <= j < part.len() && part[j] == k;
                        assert(next[j] == k);
                    }
                    if k == key {
                        assert(next[i as int] == k);
                    }
                }
            }
            i += 1;
        }
        assert(ks.take(i as int) =~= ks);
        assert(self@ =~= purged(start, rows));
    }

    // Get mempool size
    pub fn size(&self) -> (n: usize)
        ensures
            n == self@.dom().len(),
    {
        self.transactions.len()
    }
}

/// The transactions with some identifiers.
pub open spec fn listed(pool: Pool, ids: Seq<Seq<u8>>) -> Seq<TransactionView> {
    Seq::new(ids.len(), |i: int| pool[ids[i]])
}

fn inputs_exist(chain: &ChainState, tx: &Transaction) -> (r: bool)
    ensures
        r == still_valid(chain@.utxos, tx@),
{
    let mut i: usize = 0;
    while i < tx.inputs.len()
        invariant
            i <= tx.inputs@.len(),
            forall|j: int|
                0 <= j < i ==> value_at(
                    chain@.utxos,
                    ColumnFamily::Utxo,
                    (#[trigger] spent_outpoint(tx@.inputs[j])).key(),
                ) is Some,
        decreases tx.inputs@.len() - i,
    {
        assert(tx@.inputs[i as int] == tx.inputs@[i as int]@);
        let outpoint = outpoint_of(&tx.inputs[i]);
        if !chain.is_utxo_unspent(&outpoint) {
            assert(value_at(
                chain@.utxos,
                ColumnFamily::Utxo,
                spent_outpoint(tx@.inputs[i as int]).key(),
            ) is None);
            return false;
        }
        i += 1;
    }
    true
}

fn in_block(id: &Vec<u8>, txs: &Vec<Transaction>) -> (r: bool)
    ensures
        r == is_in_block(id@, views(txs@)),
{
    let ghost list = views(txs@);
    let mut i: usize = 0;
    while i < txs.len()
        invariant
            i <= txs@.len(),
            list == views(txs@),
            forall|j: int| 0 <= j < i ==> #[trigger] list[j].txid() != id@,
        decreases txs@.len() - i,
    {
        assert(list[i as int] == txs@[i as int]@);
        let txid = txs[i].txid();
        if bytes_equal(&txid, id) {
            assert(list[i as int].txid() == id@);
            return true;
        }
        i += 1;
    }
    false
}

fn conflicts_with_block(tx: &Transaction, txs: &Vec<Transaction>) -> (r: bool)
    ensures
        r == spent_in_block(tx@, views(txs@)),
{
    let ghost list = views(txs@);
    let mut i: usize = 0;
    while i < txs.len()
        invariant
            i <= txs@.len(),
            list == views(txs@),
            forall|j: int| 0 <= j < i ==> !#[trigger] spend_same(list[j], tx@),
        decreases txs@.len() - i,
    {
        assert(list[i as int] == txs@[i as int]@);
        if share_input(&txs[i], tx) {
            assert(spend_same(list[i as int], tx@));
            return true;
        }
        i += 1;
    }
    false
}

} // verus!
