//! Unspent transaction outputs.

use crate::collections::byte_map::ByteMap;
use crate::consensus::transaction::{
    Transaction, TransactionView, TxInputView, TxOutput, TxOutputView,
};
use crate::consensus::validation::COINBASE_MATURITY;
use crate::primitives::bytes::{
    append_bytes, bytes_equal, le_bytes, lemma_byte_range_values, lemma_le_bytes_len,
    lemma_le_value_of_bytes, u32_to_le,
};
use crate::primitives::hash::Hash256;
use crate::primitives::serialize::views;
use crate::script::engine::{
    p2pkh_outcome, p2wpkh_outcome, validate_p2pkh, validate_p2wpkh, ScriptContext,
    ScriptContextView, ScriptError,
};
use vstd::prelude::*;

verus! {

/// An output of a transaction, by the transaction and its place there.
#[derive(Debug, Clone, Copy)]
pub struct OutPoint {
    pub txid: Hash256,
    pub vout: u32,
}

/// An output that can be spent.
#[derive(Debug)]
pub struct UtxoEntry {
    pub output: TxOutput,
    pub coinbase: bool,
    pub height: u64,
}

/// What an outpoint stands for.
#[verifier::ext_equal]
pub struct OutPointView {
    pub txid: Seq<u8>,
    pub vout: u32,
}

/// What an unspent output stands for.
#[verifier::ext_equal]
pub struct UtxoEntryView {
    pub output: TxOutputView,
    pub coinbase: bool,
    pub height: u64,
}

impl View for OutPoint {
    type V = OutPointView;

    open spec fn view(&self) -> OutPointView {
        OutPointView { txid: self.txid@, vout: self.vout }
    }
}

impl View for UtxoEntry {
    type V = UtxoEntryView;

    open spec fn view(&self) -> UtxoEntryView {
        UtxoEntryView { output: self.output@, coinbase: self.coinbase, height: self.height }
    }
}

impl Clone for UtxoEntry {
    fn clone(&self) -> (r: Self)
        ensures
            r@ == self@,
    {
        UtxoEntry { output: self.output.clone(), coinbase: self.coinbase, height: self.height }
    }
}

impl PartialEq for OutPoint {
    fn eq(&self, other: &OutPoint) -> (r: bool) {
        bytes_equal(&self.txid, &other.txid) && self.vout == other.vout
    }
}

impl vstd::std_specs::cmp::PartialEqSpecImpl for OutPoint {
    open spec fn obeys_eq_spec() -> bool {
        true
    }

    open spec fn eq_spec(&self, other: &OutPoint) -> bool {
        self@ == other@
    }
}

impl Eq for OutPoint {

}

impl PartialEq for UtxoEntry {
    fn eq(&self, other: &UtxoEntry) -> (r: bool) {
        self.output.value == other.output.value && bytes_equal(
            &self.output.script_pubkey,
            &other.output.script_pubkey,
        ) && self.coinbase == other.coinbase && self.height == other.height
    }
}

impl vstd::std_specs::cmp::PartialEqSpecImpl for UtxoEntry {
    open spec fn obeys_eq_spec() -> bool {
        true
    }

    open spec fn eq_spec(&self, other: &UtxoEntry) -> bool {
        self@ == other@
    }
}

impl Eq for UtxoEntry {

}

impl OutPointView {
    /// The key under which an outpoint is filed: identifier and place.
    pub open spec fn key(self) -> Seq<u8> {
        self.txid + le_bytes(self.vout as nat, 4)
    }
}

/// Outpoints with one key are one outpoint.
pub proof fn lemma_outpoint_key_injective(a: OutPointView, b: OutPointView)
    requires
        a.txid.len() == b.txid.len(),
        a.key() == b.key(),
    ensures
        a == b,
{
    lemma_le_bytes_len(a.vout as nat, 4);
    lemma_le_bytes_len(b.vout as nat, 4);
    let n = a.txid.len() as int;
    assert(a.txid =~= a.key().take(n));
    assert(b.txid =~= b.key().take(n));
    assert(le_bytes(a.vout as nat, 4) =~= a.key().skip(n));
    assert(le_bytes(b.vout as nat, 4) =~= b.key().skip(n));
    lemma_byte_range_values();
    lemma_le_value_of_bytes(a.vout as nat, 4);
    lemma_le_value_of_bytes(b.vout as nat, 4);
}

impl OutPoint {
    /// The key under which the outpoint is filed.
    pub fn key(&self) -> (key: Vec<u8>)
        ensures
            key@ == self@.key(),
    {
        let mut key: Vec<u8> = Vec::new();
        append_bytes(&mut key, &self.txid);
        append_bytes(&mut key, &u32_to_le(self.vout));
        assert(key@ =~= self@.key());
        key
    }
}

#[derive(Debug, Clone, Copy, PartialEq, Eq, Structural)]
pub enum UtxoError {
    UtxoNotFound,
    UtxoAlreadySpent,
    DuplicateUtxo,
    CoinbaseNotMature,
    ImmatureCoinbase,
    ScriptValidationFailed,
    InsufficientValue,
    ValueOverflow,
}

/// A set of unspent outputs, by the keys of their outpoints.
pub type UtxoMap = Map<Seq<u8>, UtxoEntryView>;

/// A set of unspent outputs.
pub struct UtxoSet {
    utxos: ByteMap<UtxoEntry>,
}

impl View for UtxoSet {
    type V = UtxoMap;

    closed spec fn view(&self) -> UtxoMap {
        self.utxos@
    }
}

/// The outpoint that an input spends.
pub open spec fn spent_outpoint(input: TxInputView) -> OutPointView {
    OutPointView { txid: input.prev_txid, vout: input.prev_index }
}

/// Whether an output may be spent at a height.
pub open spec fn mature(entry: UtxoEntryView, height: u32) -> bool {
    entry.coinbase ==> (if height >= entry.height {
        height - entry.height
    } else {
        0
    }) >= COINBASE_MATURITY
}

/// What spending an outpoint at a height comes to.
pub open spec fn spend_outcome(utxos: UtxoMap, key: Seq<u8>, height: u32) -> Result<
    UtxoEntryView,
    UtxoError,
> {
    if !utxos.contains_key(key) {
        Err(UtxoError::UtxoNotFound)
    } else if !mature(utxos[key], height) {
        Err(UtxoError::CoinbaseNotMature)
    } else {
        Ok(utxos[key])
    }
}

/// A step of applying a transaction: the outputs that are left, those that were
/// spent, and the error that ended it.
#[verifier::ext_equal]
pub struct UtxoProgress {
    pub utxos: UtxoMap,
    pub spent: Seq<UtxoEntryView>,
    pub error: Option<UtxoError>,
}

/// Spends the first `n` inputs, one after the other, up to the first that cannot
/// be spent.
pub open spec fn spend_inputs(
    utxos: UtxoMap,
    inputs: Seq<TxInputView>,
    n: nat,
    height: u32,
) -> UtxoProgress
    decreases n,
{
    if n == 0 {
        UtxoProgress { utxos, spent: Seq::empty(), error: None }
    } else {
        let before = spend_inputs(utxos, inputs, (n - 1) as nat, height);
        let key = spent_outpoint(inputs[n - 1]).key();
        if before.error is Some {
            before
        } else {
            match spend_outcome(before.utxos, key, height) {
                Err(e) => UtxoProgress { error: Some(e), ..before },
                Ok(entry) => UtxoProgress {
                    utxos: before.utxos.remove(key),
                    spent: before.spent.push(entry),
                    error: None,
                },
            }
        }
    }
}

/// The outpoint of an output of a transaction.
pub open spec fn created_outpoint(txid: Seq<u8>, i: int) -> OutPointView {
    OutPointView { txid, vout: i as u32 }
}

/// The unspent output that an output of a transaction becomes.
pub open spec fn created_entry(output: TxOutputView, height: u64, coinbase: bool) -> UtxoEntryView {
    UtxoEntryView { output, coinbase, height }
}

/// Adds the first `n` outputs, one after the other, up to the first that is
/// there already.
pub open spec fn add_outputs(
    utxos: UtxoMap,
    tx: TransactionView,
    n: nat,
    height: u32,
    coinbase: bool,
) -> (UtxoMap, Option<UtxoError>)
    decreases n,
{
    if n == 0 {
        (utxos, None)
    } else {
        let before = add_outputs(utxos, tx, (n - 1) as nat, height, coinbase);
        let key = created_outpoint(tx.txid(), n - 1).key();
        if before.1 is Some {
            before
        } else if before.0.contains_key(key) {
            (before.0, Some(UtxoError::DuplicateUtxo))
        } else {
            (
                before.0.insert(key, created_entry(tx.outputs[n - 1], height as u64, coinbase)),
                None,
            )
        }
    }
}

/// Whether a script has the form `OP_DUP OP_HASH160 <20 bytes> OP_EQUALVERIFY
/// OP_CHECKSIG`.
pub open spec fn is_p2pkh_script(script: Seq<u8>) -> bool {
    script.len() == 25 && script[0] == 0x76 && script[1] == 0xa9 && script[2] == 0x14 && script[23]
        == 0x88 && script[24] == 0xac
}

/// Whether a script has the form `OP_0 <20 bytes>`.
pub open spec fn is_p2wpkh_script(script: Seq<u8>) -> bool {
    script.len() == 22 && script[0] == 0x00 && script[1] == 0x14
}

/// Whether input `i` may spend its output. Scripts of other forms are not
/// checked.
pub open spec fn input_authorized(tx: TransactionView, spent: Seq<TxOutputView>, i: int) -> bool {
    let script = spent[i].script_pubkey;
    let context = ScriptContextView { transaction: tx, input_index: i as usize, spent_outputs: spent };
    if is_p2pkh_script(script) {
        p2pkh_outcome(tx.inputs[i].script_sig, script, context) == Ok::<bool, ScriptError>(true)
    } else if is_p2wpkh_script(script) {
        i < tx.witnesses.len() && p2wpkh_outcome(tx.witnesses[i], script, context) == Ok::<
            bool,
            ScriptError,
        >(true)
    } else {
        true
    }
}

/// The outputs in a sequence of unspent outputs.
pub open spec fn outputs_of(entries: Seq<UtxoEntryView>) -> Seq<TxOutputView> {
    Seq::new(entries.len(), |i: int| entries[i].output)
}

/// Whether every input may spend its output.
pub open spec fn all_authorized(tx: TransactionView, spent: Seq<TxOutputView>) -> bool {
    forall|i: int| 0 <= i < tx.inputs.len() ==> #[trigger] input_authorized(tx, spent, i)
}

/// What applying a transaction comes to.
pub open spec fn apply_outcome(
    utxos: UtxoMap,
    tx: TransactionView,
    height: u32,
    coinbase: bool,
) -> UtxoProgress {
    let taken = if coinbase {
        UtxoProgress { utxos, spent: Seq::empty(), error: None }
    } else {
        spend_inputs(utxos, tx.inputs, tx.inputs.len(), height)
    };
    if taken.error is Some {
        taken
    } else if !coinbase && !all_authorized(tx, outputs_of(taken.spent)) {
        UtxoProgress { error: Some(UtxoError::ScriptValidationFailed), ..taken }
    } else {
        let added = add_outputs(taken.utxos, tx, tx.outputs.len(), height, coinbase);
        UtxoProgress { utxos: added.0, error: added.1, ..taken }
    }
}

pub proof fn lemma_spend_error_stays(
    utxos: UtxoMap,
    inputs: Seq<TxInputView>,
    m: nat,
    n: nat,
    height: u32,
)
    requires
        m <= n,
        spend_inputs(utxos, inputs, m, height).error is Some,
    ensures
        spend_inputs(utxos, inputs, n, height) == spend_inputs(utxos, inputs, m, height),
    decreases n,
{
    if m < n {
        lemma_spend_error_stays(utxos, inputs, m, (n - 1) as nat, height);
    }
}

pub proof fn lemma_add_error_stays(
    utxos: UtxoMap,
    tx: TransactionView,
    m: nat,
    n: nat,
    height: u32,
    coinbase: bool,
)
    requires
        m <= n,
        add_outputs(utxos, tx, m, height, coinbase).1 is Some,
    ensures
        add_outputs(utxos, tx, n, height, coinbase) == add_outputs(utxos, tx, m, height, coinbase),
    decreases n,
{
    if m < n {
        lemma_add_error_stays(utxos, tx, m, (n - 1) as nat, height, coinbase);
    }
}

pub proof fn lemma_spent_count(utxos: UtxoMap, inputs: Seq<TxInputView>, n: nat, height: u32)
    ensures
        spend_inputs(utxos, inputs, n, height).error is None ==> spend_inputs(
            utxos,
            inputs,
            n,
            height,
        ).spent.len() == n,
    decreases n,
{
    if n > 0 {
        lemma_spent_count(utxos, inputs, (n - 1) as nat, height);
    }
}

/// Inputs that were spent are gone, so the same output is not spent twice.
pub proof fn lemma_spent_are_gone(utxos: UtxoMap, inputs: Seq<TxInputView>, n: nat, height: u32)
    requires
        n <= inputs.len(),
        spend_inputs(utxos, inputs, n, height).error is None,
    ensures
        forall|i: int|
            0 <= i < n ==> utxos.contains_key(spent_outpoint(#[trigger] inputs[i]).key())
                && !spend_inputs(utxos, inputs, n, height).utxos.contains_key(
                spent_outpoint(inputs[i]).key(),
            ),
        forall|k: Seq<u8>|
            spend_inputs(utxos, inputs, n, height).utxos.contains_key(k) ==> utxos.contains_key(k),
    decreases n,
{
    if n > 0 {
        lemma_spent_are_gone(utxos, inputs, (n - 1) as nat, height);
    }
}

/// A transaction that names one output twice is refused.
pub proof fn lemma_double_spend_refused(
    utxos: UtxoMap,
    tx: TransactionView,
    height: u32,
    i: int,
    j: int,
)
    requires
        0 <= i < j < tx.inputs.len(),
        spent_outpoint(tx.inputs[i]) == spent_outpoint(tx.inputs[j]),
    ensures
        apply_outcome(utxos, tx, height, false).error is Some,
{
    let n = tx.inputs.len();
    if spend_inputs(utxos, tx.inputs, n, height).error is None {
        if spend_inputs(utxos, tx.inputs, j as nat, height).error is Some {
            lemma_spend_error_stays(utxos, tx.inputs, j as nat, n, height);
        }
        lemma_spent_are_gone(utxos, tx.inputs, j as nat, height);
        assert(spend_inputs(utxos, tx.inputs, (j + 1) as nat, height).error is Some);
        lemma_spend_error_stays(utxos, tx.inputs, (j + 1) as nat, n, height);
    }
}

/// Number of buckets that a set of unspent outputs is spread over.
const UTXO_BUCKETS: usize = 1024;

impl UtxoSet {
    pub fn new() -> (r: Self)
        ensures
            r@ == UtxoMap::empty(),
    {
        UtxoSet { utxos: ByteMap::with_buckets(UTXO_BUCKETS) }
    }

    pub fn insert(&mut self, outpoint: OutPoint, entry: UtxoEntry)
        ensures
            final(self)@ == old(self)@.insert(outpoint@.key(), entry@),
    {
        let _ = self.utxos.insert(outpoint.key(), entry);
    }

    pub fn remove(&mut self, outpoint: &OutPoint)
        ensures
            final(self)@ == old(self)@.remove(outpoint@.key()),
    {
        let _ = self.utxos.remove(&outpoint.key());
    }

    /// Adds the outputs of a transaction. Where one of them is there already,
    /// those before it stay added.
    pub fn add_transaction(&mut self, tx: &Transaction, height: u32, is_coinbase: bool) -> (r:
        Result<(), UtxoError>)
        ensures
            final(self)@ == add_outputs(
                old(self)@,
                tx@,
                tx@.outputs.len(),
                height,
                is_coinbase,
            ).0,
            match add_outputs(old(self)@, tx@, tx@.outputs.len(), height, is_coinbase).1 {
                Some(e) => r == Err::<(), UtxoError>(e),
                None => r is Ok,
            },
    {
        let txid = tx.txid();
        let mut i: usize = 0;
        while i < tx.outputs.len()
            invariant
                i <= tx.outputs.len(),
                txid@ == tx@.txid(),
                (self@, None::<UtxoError>) == add_outputs(
                    old(self)@,
                    tx@,
                    i as nat,
                    height,
                    is_coinbase,
                ),
            decreases tx.outputs.len() - i,
        {
            let outpoint = OutPoint { txid, vout: i as u32 };
            assert(outpoint@ == created_outpoint(tx@.txid(), i as int));
            if self.contains(&outpoint) {
                proof {
                    lemma_add_error_stays(
                        old(self)@,
                        tx@,
                        (i + 1) as nat,
                        tx@.outputs.len(),
                        height,
                        is_coinbase,
                    );
                }
                return Err(UtxoError::DuplicateUtxo);
            }
            let entry = UtxoEntry {
                output: tx.outputs[i].clone(),
                coinbase: is_coinbase,
                height: height as u64,
            };
            assert(entry@ == created_entry(tx@.outputs[i as int], height as u64, is_coinbase));
            self.insert(outpoint, entry);
            i += 1;
        }
        Ok(())
    }

    /// Takes an output out of the set, unless it is a coinbase output that may
    /// not be spent yet.
    pub fn spend_input(&mut self, outpoint: &OutPoint, current_height: u32) -> (r: Result<
        UtxoEntry,
        UtxoError,
    >)
        ensures
            match spend_outcome(old(self)@, outpoint@.key(), current_height) {
                Ok(entry) => r matches Ok(e) && e@ == entry && final(self)@ == old(self)@.remove(
                    outpoint@.key(),
                ),
                Err(e) => r == Err::<UtxoEntry, UtxoError>(e) && final(self)@ == old(self)@,
            },
    {
        let key = outpoint.key();
        let entry = match self.utxos.remove(&key) {
            Some(entry) => entry,
            None => {
                assert(self@ =~= old(self)@);
                return Err(UtxoError::UtxoNotFound);
            },
        };
        if entry.coinbase {
            let confirmations: u64 = (current_height as u64).saturating_sub(entry.height);
            if confirmations < COINBASE_MATURITY {
                let _ = self.utxos.insert(key, entry);
                assert(self@ =~= old(self)@);
                return Err(UtxoError::CoinbaseNotMature);
            }
        }
        Ok(entry)
    }

    pub fn get(&self, outpoint: &OutPoint) -> (r: Option<&UtxoEntry>)
        ensures
            match r {
                Some(e) => self@.contains_key(outpoint@.key()) && e@ == self@[outpoint@.key()],
                None => !self@.contains_key(outpoint@.key()),
            },
    {
        self.utxos.get(&outpoint.key())
    }

    pub fn contains(&self, outpoint: &OutPoint) -> (r: bool)
        ensures
            r == self@.contains_key(outpoint@.key()),
    {
        self.utxos.contains_key(&outpoint.key())
    }

    fn authorize_input(tx: &Transaction, spent_outputs: &Vec<TxOutput>, index: usize) -> (ok: bool)
        requires
            index < tx.inputs.len(),
            spent_outputs.len() == tx.inputs.len(),
        ensures
            ok == input_authorized(tx@, views(spent_outputs@), index as int),
    {
        let script_pubkey = &spent_outputs[index].script_pubkey;
        let context = ScriptContext {
            transaction: tx,
            input_index: index,
            spent_outputs: spent_outputs.as_slice(),
        };
        assert(views(spent_outputs@)[index as int].script_pubkey == script_pubkey@);
        assert(tx@.inputs[index as int].script_sig == tx.inputs[index as int].script_sig@);
        let is_p2pkh = script_pubkey.len() == 25 && script_pubkey[0] == 0x76 && script_pubkey[1]
            == 0xa9 && script_pubkey[2] == 0x14 && script_pubkey[23] == 0x88 && script_pubkey[24]
            == 0xac;
        let is_p2wpkh = script_pubkey.len() == 22 && script_pubkey[0] == 0x00 && script_pubkey[1]
            == 0x14;
        if is_p2pkh {
            match validate_p2pkh(&tx.inputs[index].script_sig, script_pubkey, &context) {
                Ok(valid) => valid,
                Err(_) => false,
            }
        } else if is_p2wpkh {
            if index >= tx.witnesses.len() {
                return false;
            }
            match validate_p2wpkh(&tx.witnesses[index], script_pubkey, &context) {
                Ok(valid) => valid,
                Err(_) => false,
            }
        } else {
            true
        }
    }

    /// Spends the inputs of a transaction, checks their scripts and adds its
    /// outputs. Where a step fails, the steps before it stay done.
    pub fn apply_transaction(&mut self, tx: &Transaction, height: u32, is_coinbase: bool) -> (r:
        Result<Vec<UtxoEntry>, UtxoError>)
        ensures
            ({
                let outcome = apply_outcome(old(self)@, tx@, height, is_coinbase);
                &&& final(self)@ == outcome.utxos
                &&& match outcome.error {
                    Some(e) => r == Err::<Vec<UtxoEntry>, UtxoError>(e),
                    None => r matches Ok(spent) && views(spent@) == outcome.spent,
                }
            }),
    {
        let mut spent: Vec<UtxoEntry> = Vec::new();
        let ghost start = self@;
        assert(views(spent@) =~= Seq::empty());
        if !is_coinbase {
            let mut i: usize = 0;
            while i < tx.inputs.len()
                invariant
                    i <= tx.inputs.len(),
                    !is_coinbase,
                    start == old(self)@,
                    spend_inputs(start, tx@.inputs, i as nat, height) == (UtxoProgress {
                        utxos: self@,
                        spent: views(spent@),
                        error: None,
                    }),
                decreases tx.inputs.len() - i,
            {
                let outpoint = OutPoint {
                    txid: tx.inputs[i].prev_txid,
                    vout: tx.inputs[i].prev_index,
                };
                assert(outpoint@ == spent_outpoint(tx@.inputs[i as int]));
                match self.spend_input(&outpoint, height) {
                    Ok(entry) => {
                        let ghost before = spent@;
                        spent.push(entry);
                        assert(views(spent@) =~= views(before).push(entry@));
                    },
                    Err(e) => {
                        proof {
                            lemma_spend_error_stays(
                                start,
                                tx@.inputs,
                                (i + 1) as nat,
                                tx@.inputs.len(),
                                height,
                            );
                        }
                        return Err(e);
                    },
                }
                i += 1;
            }
            let ghost taken = spend_inputs(start, tx@.inputs, tx@.inputs.len(), height);
            proof {
                lemma_spent_count(start, tx@.inputs, tx@.inputs.len(), height);
            }
            let mut spent_outputs: Vec<TxOutput> = Vec::new();
            let mut k: usize = 0;
            while k < spent.len()
                invariant
                    k <= spent.len(),
                    spent_outputs.len() == k,
                    forall|j: int|
                        0 <= j < k ==> (#[trigger] spent_outputs[j])@ == spent[j].output@,
                decreases spent.len() - k,
            {
                spent_outputs.push(spent[k].output.clone());
                k += 1;
            }
            assert(views(spent_outputs@) =~= outputs_of(views(spent@)));
            let mut index: usize = 0;
            while index < tx.inputs.len()
                invariant
                    index <= tx.inputs.len(),
                    !is_coinbase,
                    spent_outputs.len() == tx.inputs.len(),
                    start == old(self)@,
                    taken == spend_inputs(start, tx@.inputs, tx@.inputs.len(), height),
                    taken == (UtxoProgress { utxos: self@, spent: views(spent@), error: None }),
                    views(spent_outputs@) == outputs_of(taken.spent),
                    forall|j: int|
                        0 <= j < index ==> #[trigger] input_authorized(
                            tx@,
                            outputs_of(taken.spent),
                            j,
                        ),
                decreases tx.inputs.len() - index,
            {
                if !UtxoSet::authorize_input(tx, &spent_outputs, index) {
                    return Err(UtxoError::ScriptValidationFailed);
                }
                index += 1;
            }
        }
        match self.add_transaction(tx, height, is_coinbase) {
            Ok(()) => Ok(spent),
            Err(e) => Err(e),
        }
    }
}

impl Default for UtxoSet {
    fn default() -> (r: Self)
        ensures
            r@ == UtxoMap::empty(),
    {
        UtxoSet::new()
    }
}

} // verus!
