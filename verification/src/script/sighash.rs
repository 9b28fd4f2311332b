//! The message that a signature of an input covers.

use crate::consensus::transaction::{
    Transaction, TransactionView, TxInputView, TxOutput, TxOutputView,
};
use crate::primitives::bytes::append_bytes;
use crate::primitives::hash::{sha256d, sha256d_bytes, tagged_hash, tagged_hash_bytes, Hash256};
use crate::primitives::serialize::{items_encoding, views, Encode};
use vstd::prelude::*;
use vstd::string::*;

verus! {

pub const SIGHASH_ALL: u8 = 0x01;

#[derive(Debug, Clone, Copy, PartialEq, Eq, Structural)]
pub enum SighashError {
    InputIndexOutOfBounds,
    SpentOutputsMismatch,
}

/// The outpoints that a sequence of inputs spends.
pub open spec fn prevouts(inputs: Seq<TxInputView>) -> Seq<(Seq<u8>, u32)> {
    Seq::new(inputs.len(), |i: int| (inputs[i].prev_txid, inputs[i].prev_index))
}

/// The sequence numbers of a sequence of inputs.
pub open spec fn sequences(inputs: Seq<TxInputView>) -> Seq<u32> {
    Seq::new(inputs.len(), |i: int| inputs[i].sequence)
}

/// The values of a sequence of outputs.
pub open spec fn amounts(outputs: Seq<TxOutputView>) -> Seq<u64> {
    Seq::new(outputs.len(), |i: int| outputs[i].value)
}

/// The scripts of a sequence of outputs.
pub open spec fn scripts(outputs: Seq<TxOutputView>) -> Seq<Seq<u8>> {
    Seq::new(outputs.len(), |i: int| outputs[i].script_pubkey)
}

/// The bytes that are hashed for the signature of an input: version, locktime,
/// one hash over each of the outpoints, the amounts and the scripts that are
/// spent, the sequence numbers and the outputs, the index and the hash type.
pub open spec fn sighash_message(
    tx: TransactionView,
    input_index: usize,
    spent: Seq<TxOutputView>,
) -> Seq<u8> {
    u32::encoding(tx.version) + u32::encoding(tx.locktime) + sha256d_bytes(
        items_encoding::<([u8; 32], u32)>(prevouts(tx.inputs)),
    ) + sha256d_bytes(items_encoding::<u64>(amounts(spent))) + sha256d_bytes(
        items_encoding::<Vec<u8>>(scripts(spent)),
    ) + sha256d_bytes(items_encoding::<u32>(sequences(tx.inputs))) + sha256d_bytes(
        items_encoding::<TxOutput>(tx.outputs),
    ) + u32::encoding(input_index as u32) + seq![SIGHASH_ALL]
}

/// The hash that a signature of an input covers.
pub open spec fn sighash(
    tx: TransactionView,
    input_index: usize,
    spent: Seq<TxOutputView>,
) -> Result<Seq<u8>, SighashError> {
    if input_index >= tx.inputs.len() {
        Err(SighashError::InputIndexOutOfBounds)
    } else if spent.len() != tx.inputs.len() {
        Err(SighashError::SpentOutputsMismatch)
    } else {
        Ok(
            tagged_hash_bytes(
                "FerrousSighash".spec_bytes(),
                sighash_message(tx, input_index, spent),
            ),
        )
    }
}

/// Compute hash of all previous outputs
fn hash_prevouts(tx: &Transaction) -> (h: Hash256)
    ensures
        h@ == sha256d_bytes(items_encoding::<([u8; 32], u32)>(prevouts(tx@.inputs))),
{
    let mut data: Vec<u8> = Vec::new();
    let ghost all = prevouts(tx@.inputs);
    let mut i: usize = 0;
    assert(data@ =~= items_encoding::<([u8; 32], u32)>(all.take(0)));
    while i < tx.inputs.len()
        invariant
            i <= tx.inputs.len(),
            all == prevouts(tx@.inputs),
            data@ == items_encoding::<([u8; 32], u32)>(all.take(i as int)),
        decreases tx.inputs.len() - i,
    {
        append_bytes(&mut data, &tx.inputs[i].prev_txid);
        append_bytes(&mut data, &tx.inputs[i].prev_index.encode());
        proof {
            assert(all.take(i + 1).drop_last() =~= all.take(i as int));
            assert(all[i as int] == (
                tx.inputs[i as int].prev_txid@,
                tx.inputs[i as int].prev_index,
            ));
            assert(data@ =~= items_encoding::<([u8; 32], u32)>(all.take(i + 1)));
        }
        i += 1;
    }
    assert(all.take(i as int) =~= all);
    sha256d(&data)
}

/// Compute hash of all input amounts
fn hash_amounts(spent_outputs: &[TxOutput]) -> (h: Hash256)
    ensures
        h@ == sha256d_bytes(items_encoding::<u64>(amounts(views(spent_outputs@)))),
{
    let mut data: Vec<u8> = Vec::new();
    let ghost all = amounts(views(spent_outputs@));
    let mut i: usize = 0;
    assert(data@ =~= items_encoding::<u64>(all.take(0)));
    while i < spent_outputs.len()
        invariant
            i <= spent_outputs@.len(),
            all == amounts(views(spent_outputs@)),
            data@ == items_encoding::<u64>(all.take(i as int)),
        decreases spent_outputs@.len() - i,
    {
        append_bytes(&mut data, &spent_outputs[i].value.encode());
        proof {
            assert(all.take(i + 1).drop_last() =~= all.take(i as int));
            assert(data@ =~= items_encoding::<u64>(all.take(i + 1)));
        }
        i += 1;
    }
    assert(all.take(i as int) =~= all);
    sha256d(&data)
}

/// Compute hash of all scriptPubKeys being spent
fn hash_scriptpubkeys(spent_outputs: &[TxOutput]) -> (h: Hash256)
    ensures
        h@ == sha256d_bytes(items_encoding::<Vec<u8>>(scripts(views(spent_outputs@)))),
{
    let mut data: Vec<u8> = Vec::new();
    let ghost all = scripts(views(spent_outputs@));
    let mut i: usize = 0;
    assert(data@ =~= items_encoding::<Vec<u8>>(all.take(0)));
    while i < spent_outputs.len()
        invariant
            i <= spent_outputs@.len(),
            all == scripts(views(spent_outputs@)),
            data@ == items_encoding::<Vec<u8>>(all.take(i as int)),
        decreases spent_outputs@.len() - i,
    {
        append_bytes(&mut data, &spent_outputs[i].script_pubkey.encode());
        proof {
            assert(all.take(i + 1).drop_last() =~= all.take(i as int));
            assert(data@ =~= items_encoding::<Vec<u8>>(all.take(i + 1)));
        }
        i += 1;
    }
    assert(all.take(i as int) =~= all);
    sha256d(&data)
}

/// Compute hash of all input sequences
fn hash_sequences(tx: &Transaction) -> (h: Hash256)
    ensures
        h@ == sha256d_bytes(items_encoding::<u32>(sequences(tx@.inputs))),
{
    let mut data: Vec<u8> = Vec::new();
    let ghost all = sequences(tx@.inputs);
    let mut i: usize = 0;
    assert(data@ =~= items_encoding::<u32>(all.take(0)));
    while i < tx.inputs.len()
        invariant
            i <= tx.inputs.len(),
            all == sequences(tx@.inputs),
            data@ == items_encoding::<u32>(all.take(i as int)),
        decreases tx.inputs.len() - i,
    {
        append_bytes(&mut data, &tx.inputs[i].sequence.encode());
        proof {
            assert(all.take(i + 1).drop_last() =~= all.take(i as int));
            assert(data@ =~= items_encoding::<u32>(all.take(i + 1)));
        }
        i += 1;
    }
    assert(all.take(i as int) =~= all);
    sha256d(&data)
}

/// Compute hash of all outputs
fn hash_outputs(tx: &Transaction) -> (h: Hash256)
    ensures
        h@ == sha256d_bytes(items_encoding::<TxOutput>(tx@.outputs)),
{
    let mut data: Vec<u8> = Vec::new();
    crate::primitives::serialize::encode_items(&mut data, &tx.outputs);
    assert(data@ =~= items_encoding::<TxOutput>(tx@.outputs));
    sha256d(&data)
}

/// Compute signature hash for input
pub fn compute_sighash(tx: &Transaction, input_index: usize, spent_outputs: &[TxOutput]) -> (r:
    Result<Hash256, SighashError>)
    ensures
        match r {
            Ok(h) => sighash(tx@, input_index, views(spent_outputs@)) == Ok::<
                Seq<u8>,
                SighashError,
            >(h@),
            Err(e) => sighash(tx@, input_index, views(spent_outputs@)) == Err::<
                Seq<u8>,
                SighashError,
            >(e),
        },
{
    if input_index >= tx.inputs.len() {
        return Err(SighashError::InputIndexOutOfBounds);
    }
    if spent_outputs.len() != tx.inputs.len() {
        return Err(SighashError::SpentOutputsMismatch);
    }
    let mut message: Vec<u8> = tx.version.encode();
    append_bytes(&mut message, &tx.locktime.encode());
    append_bytes(&mut message, &hash_prevouts(tx));
    append_bytes(&mut message, &hash_amounts(spent_outputs));
    append_bytes(&mut message, &hash_scriptpubkeys(spent_outputs));
    append_bytes(&mut message, &hash_sequences(tx));
    append_bytes(&mut message, &hash_outputs(tx));
    append_bytes(&mut message, &(input_index as u32).encode());
    message.push(SIGHASH_ALL);
    assert(message@ =~= sighash_message(tx@, input_index, views(spent_outputs@)));
    Ok(tagged_hash("FerrousSighash", &message))
}

/// The signature hash does not cover the signatures: neither the input scripts
/// nor the witnesses.
pub proof fn lemma_sighash_ignores_signatures(
    a: TransactionView,
    b: TransactionView,
    input_index: usize,
    spent: Seq<TxOutputView>,
)
    requires
        a.version == b.version,
        a.locktime == b.locktime,
        a.outputs == b.outputs,
        a.inputs.len() == b.inputs.len(),
        forall|i: int|
            0 <= i < a.inputs.len() ==> (#[trigger] a.inputs[i]).prev_txid == b.inputs[i].prev_txid
                && a.inputs[i].prev_index == b.inputs[i].prev_index && a.inputs[i].sequence
                == b.inputs[i].sequence,
    ensures
        sighash(a, input_index, spent) == sighash(b, input_index, spent),
{
    assert(prevouts(a.inputs) =~= prevouts(b.inputs));
    assert(sequences(a.inputs) =~= sequences(b.inputs));
}

} // verus!
