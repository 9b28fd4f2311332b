//! Transactions: their form on the wire, their identifiers and the rules on
//! their structure.

use crate::primitives::bytes::append_bytes;
use crate::primitives::hash::{sha256d, sha256d_bytes, Hash256};
use crate::primitives::serialize::{
    encode_list, list_encoding, list_encoded_size, views, Canonical, Decode, DecodeError, Encode,
    List, Parsed,
};
use vstd::prelude::*;

verus! {

/// Maximum number of satoshis that can ever exist in the system.
pub const MAX_MONEY: u64 = 2_100_000_000_000_000;

/// Errors that can occur when validating basic transaction structure.
#[derive(Debug, Clone, Copy, PartialEq, Eq, Structural)]
pub enum TxError {
    NoInputs,
    NoOutputs,
    WitnessMismatch,
    ValueTooLarge,
    OutputSumOverflow,
    InvalidVersion,
}

/// A reference to a previous transaction output being spent.
#[derive(Debug, PartialEq, Eq)]
pub struct TxInput {
    pub prev_txid: Hash256,
    pub prev_index: u32,
    pub script_sig: Vec<u8>,
    pub sequence: u32,
}

/// A new transaction output created by a transaction.
#[derive(Debug, PartialEq, Eq)]
pub struct TxOutput {
    pub value: u64,
    pub script_pubkey: Vec<u8>,
}

/// Witness data associated with a single transaction input.
#[derive(Debug, PartialEq, Eq)]
pub struct Witness {
    pub stack_items: Vec<Vec<u8>>,
}

/// A transaction on the Ferrous Network.
#[derive(Debug, PartialEq, Eq)]
pub struct Transaction {
    pub version: u32,
    pub inputs: Vec<TxInput>,
    pub outputs: Vec<TxOutput>,
    pub witnesses: Vec<Witness>,
    pub locktime: u32,
}

/// What a transaction input stands for.
#[verifier::ext_equal]
pub struct TxInputView {
    pub prev_txid: Seq<u8>,
    pub prev_index: u32,
    pub script_sig: Seq<u8>,
    pub sequence: u32,
}

/// What a transaction output stands for.
#[verifier::ext_equal]
pub struct TxOutputView {
    pub value: u64,
    pub script_pubkey: Seq<u8>,
}

/// What a transaction stands for.
#[verifier::ext_equal]
pub struct TransactionView {
    pub version: u32,
    pub inputs: Seq<TxInputView>,
    pub outputs: Seq<TxOutputView>,
    pub witnesses: Seq<Seq<Seq<u8>>>,
    pub locktime: u32,
}

impl View for TxInput {
    type V = TxInputView;

    open spec fn view(&self) -> TxInputView {
        TxInputView {
            prev_txid: self.prev_txid@,
            prev_index: self.prev_index,
            script_sig: self.script_sig@,
            sequence: self.sequence,
        }
    }
}

impl View for TxOutput {
    type V = TxOutputView;

    open spec fn view(&self) -> TxOutputView {
        TxOutputView { value: self.value, script_pubkey: self.script_pubkey@ }
    }
}

impl View for Witness {
    type V = Seq<Seq<u8>>;

    open spec fn view(&self) -> Seq<Seq<u8>> {
        views(self.stack_items@)
    }
}

impl View for Transaction {
    type V = TransactionView;

    open spec fn view(&self) -> TransactionView {
        TransactionView {
            version: self.version,
            inputs: views(self.inputs@),
            outputs: views(self.outputs@),
            witnesses: views(self.witnesses@),
            locktime: self.locktime,
        }
    }
}

impl Clone for TxInput {
    fn clone(&self) -> (r: Self)
        ensures
            r@ == self@,
    {
        let r = TxInput {
            prev_txid: self.prev_txid,
            prev_index: self.prev_index,
            script_sig: self.script_sig.clone(),
            sequence: self.sequence,
        };
        assert(r.script_sig@ =~= self.script_sig@);
        r
    }
}

impl Clone for TxOutput {
    fn clone(&self) -> (r: Self)
        ensures
            r@ == self@,
    {
        let r = TxOutput { value: self.value, script_pubkey: self.script_pubkey.clone() };
        assert(r.script_pubkey@ =~= self.script_pubkey@);
        r
    }
}

impl Clone for Witness {
    fn clone(&self) -> (r: Self)
        ensures
            r@ == self@,
    {
        let mut stack_items: Vec<Vec<u8>> = Vec::new();
        let mut i: usize = 0;
        while i < self.stack_items.len()
            invariant
                i <= self.stack_items.len(),
                stack_items.len() == i,
                forall|j: int| 0 <= j < i ==> (#[trigger] stack_items[j])@ == self.stack_items[j]@,
            decreases self.stack_items.len() - i,
        {
            let item = self.stack_items[i].clone();
            assert(item@ =~= self.stack_items[i as int]@);
            stack_items.push(item);
            i += 1;
        }
        let r = Witness { stack_items };
        assert(r@ =~= self@);
        r
    }
}

impl Clone for Transaction {
    fn clone(&self) -> (r: Self)
        ensures
            r@ == self@,
    {
        let r = Transaction {
            version: self.version,
            inputs: self.inputs.clone(),
            outputs: self.outputs.clone(),
            witnesses: self.witnesses.clone(),
            locktime: self.locktime,
        };
        assert(r@ =~= self@);
        r
    }
}

/// Order of the fields of an input on the wire.
pub type TxInputParts = ([u8; 32], (u32, (Vec<u8>, u32)));

/// Order of the fields of an output on the wire.
pub type TxOutputParts = (u64, Vec<u8>);

/// Order of the fields of a transaction on the wire.
pub type TransactionParts = (u32, (List<TxInput>, (List<TxOutput>, (u32, List<Witness>))));

impl TxInputView {
    pub open spec fn parts(self) -> (Seq<u8>, (u32, (Seq<u8>, u32))) {
        (self.prev_txid, (self.prev_index, (self.script_sig, self.sequence)))
    }

    pub open spec fn from_parts(p: (Seq<u8>, (u32, (Seq<u8>, u32)))) -> TxInputView {
        TxInputView { prev_txid: p.0, prev_index: p.1.0, script_sig: p.1.1.0, sequence: p.1.1.1 }
    }
}

impl TxOutputView {
    pub open spec fn parts(self) -> (u64, Seq<u8>) {
        (self.value, self.script_pubkey)
    }

    pub open spec fn from_parts(p: (u64, Seq<u8>)) -> TxOutputView {
        TxOutputView { value: p.0, script_pubkey: p.1 }
    }
}

impl TransactionView {
    pub open spec fn parts(self) -> (
        u32,
        (Seq<TxInputView>, (Seq<TxOutputView>, (u32, Seq<Seq<Seq<u8>>>))),
    ) {
        (self.version, (self.inputs, (self.outputs, (self.locktime, self.witnesses))))
    }

    pub open spec fn from_parts(
        p: (u32, (Seq<TxInputView>, (Seq<TxOutputView>, (u32, Seq<Seq<Seq<u8>>>)))),
    ) -> TransactionView {
        TransactionView {
            version: p.0,
            inputs: p.1.0,
            outputs: p.1.1.0,
            witnesses: p.1.1.1.1,
            locktime: p.1.1.1.0,
        }
    }

    /// The encoding up to the locktime, without the witnesses.
    pub open spec fn stripped(self) -> Seq<u8> {
        u32::encoding(self.version) + list_encoding::<TxInput>(self.inputs) + list_encoding::<
            TxOutput,
        >(self.outputs) + u32::encoding(self.locktime)
    }

    /// The identifier, which leaves the witnesses out.
    pub open spec fn txid(self) -> Seq<u8> {
        sha256d_bytes(self.stripped())
    }

    /// The identifier that covers the witnesses.
    pub open spec fn wtxid(self) -> Seq<u8> {
        sha256d_bytes(Transaction::encoding(self))
    }

    /// Whether some input carries witness data.
    pub open spec fn has_witness(self) -> bool {
        exists|i: int| 0 <= i < self.witnesses.len() && (#[trigger] self.witnesses[i]).len() > 0
    }

    /// The first structural rule that the transaction breaks.
    pub open spec fn structure_error(self) -> Option<TxError> {
        if self.version == 0 || self.version > 2 {
            Some(TxError::InvalidVersion)
        } else if self.inputs.len() == 0 {
            Some(TxError::NoInputs)
        } else if self.outputs.len() == 0 {
            Some(TxError::NoOutputs)
        } else if self.witnesses.len() != 0 && self.witnesses.len() != self.inputs.len() {
            Some(TxError::WitnessMismatch)
        } else if total_value(self.outputs) > u64::MAX {
            Some(TxError::OutputSumOverflow)
        } else if exists|i: int|
            0 <= i < self.outputs.len() && (#[trigger] self.outputs[i]).value > MAX_MONEY {
            Some(TxError::ValueTooLarge)
        } else {
            None
        }
    }
}

/// The sum of the values of a sequence of outputs.
pub open spec fn total_value(outputs: Seq<TxOutputView>) -> nat
    decreases outputs.len(),
{
    if outputs.len() == 0 {
        0
    } else {
        total_value(outputs.drop_last()) + outputs.last().value as nat
    }
}

pub proof fn lemma_total_value_monotone(outputs: Seq<TxOutputView>, i: int, j: int)
    requires
        0 <= i <= j <= outputs.len(),
    ensures
        total_value(outputs.take(i)) <= total_value(outputs.take(j)),
    decreases j - i,
{
    if i < j {
        lemma_total_value_monotone(outputs, i, j - 1);
        assert(outputs.take(j).drop_last() =~= outputs.take(j - 1));
    }
}

impl Encode for TxInput {
    open spec fn encoding(v: TxInputView) -> Seq<u8> {
        TxInputParts::encoding(v.parts())
    }

    fn encode(&self) -> (out: Vec<u8>) {
        let mut out: Vec<u8> = Vec::new();
        append_bytes(&mut out, &self.prev_txid);
        append_bytes(&mut out, &self.prev_index.encode());
        append_bytes(&mut out, &self.script_sig.encode());
        append_bytes(&mut out, &self.sequence.encode());
        assert(out@ =~= TxInputParts::encoding(self@.parts()));
        out
    }

    fn encoded_size(&self) -> (size: usize) {
        32 + self.prev_index.encoded_size() + self.script_sig.encoded_size()
            + self.sequence.encoded_size()
    }
}

impl Decode for TxInput {
    open spec fn parse(b: Seq<u8>) -> Parsed<TxInputView> {
        match TxInputParts::parse(b) {
            Ok((p, n)) => Ok((TxInputView::from_parts(p), n)),
            Err(e) => Err(e),
        }
    }

    open spec fn decodable(v: TxInputView) -> bool {
        TxInputParts::decodable(v.parts())
    }

    fn decode(bytes: &[u8]) -> (r: Result<(Self, usize), DecodeError>) {
        match TxInputParts::decode(bytes) {
            Ok(((prev_txid, (prev_index, (script_sig, sequence))), n)) => Ok(
                (TxInput { prev_txid, prev_index, script_sig, sequence }, n),
            ),
            Err(e) => Err(e),
        }
    }

    proof fn lemma_parse_bounds(b: Seq<u8>) {
        TxInputParts::lemma_parse_bounds(b);
    }

    proof fn lemma_round_trip(v: TxInputView, rest: Seq<u8>) {
        TxInputParts::lemma_round_trip(v.parts(), rest);
    }
}

impl Canonical for TxInput {
    proof fn lemma_canonical(b: Seq<u8>) {
        TxInputParts::lemma_canonical(b);
    }
}

impl Encode for TxOutput {
    open spec fn encoding(v: TxOutputView) -> Seq<u8> {
        TxOutputParts::encoding(v.parts())
    }

    fn encode(&self) -> (out: Vec<u8>) {
        let mut out: Vec<u8> = self.value.encode();
        append_bytes(&mut out, &self.script_pubkey.encode());
        out
    }

    fn encoded_size(&self) -> (size: usize) {
        self.value.encoded_size() + self.script_pubkey.encoded_size()
    }
}

impl Decode for TxOutput {
    open spec fn parse(b: Seq<u8>) -> Parsed<TxOutputView> {
        match TxOutputParts::parse(b) {
            Ok((p, n)) => Ok((TxOutputView::from_parts(p), n)),
            Err(e) => Err(e),
        }
    }

    open spec fn decodable(v: TxOutputView) -> bool {
        TxOutputParts::decodable(v.parts())
    }

    fn decode(bytes: &[u8]) -> (r: Result<(Self, usize), DecodeError>) {
        match TxOutputParts::decode(bytes) {
            Ok(((value, script_pubkey), n)) => Ok((TxOutput { value, script_pubkey }, n)),
            Err(e) => Err(e),
        }
    }

    proof fn lemma_parse_bounds(b: Seq<u8>) {
        TxOutputParts::lemma_parse_bounds(b);
    }

    proof fn lemma_round_trip(v: TxOutputView, rest: Seq<u8>) {
        TxOutputParts::lemma_round_trip(v.parts(), rest);
    }
}

impl Canonical for TxOutput {
    proof fn lemma_canonical(b: Seq<u8>) {
        TxOutputParts::lemma_canonical(b);
    }
}

impl Encode for Witness {
    open spec fn encoding(v: Seq<Seq<u8>>) -> Seq<u8> {
        list_encoding::<Vec<u8>>(v)
    }

    fn encode(&self) -> (out: Vec<u8>) {
        let mut out: Vec<u8> = Vec::new();
        encode_list(&mut out, &self.stack_items);
        assert(out@ =~= list_encoding::<Vec<u8>>(self@));
        out
    }

    fn encoded_size(&self) -> (size: usize) {
        list_encoded_size(&self.stack_items)
    }
}

impl Decode for Witness {
    open spec fn parse(b: Seq<u8>) -> Parsed<Seq<Seq<u8>>> {
        List::<Vec<u8>>::parse(b)
    }

    open spec fn decodable(v: Seq<Seq<u8>>) -> bool {
        List::<Vec<u8>>::decodable(v)
    }

    fn decode(bytes: &[u8]) -> (r: Result<(Self, usize), DecodeError>) {
        match List::<Vec<u8>>::decode(bytes) {
            Ok((items, n)) => Ok((Witness { stack_items: items.0 }, n)),
            Err(e) => Err(e),
        }
    }

    proof fn lemma_parse_bounds(b: Seq<u8>) {
        List::<Vec<u8>>::lemma_parse_bounds(b);
    }

    proof fn lemma_round_trip(v: Seq<Seq<u8>>, rest: Seq<u8>) {
        List::<Vec<u8>>::lemma_round_trip(v, rest);
    }
}

impl Canonical for Witness {
    proof fn lemma_canonical(b: Seq<u8>) {
        List::<Vec<u8>>::lemma_canonical(b);
    }
}

impl Encode for Transaction {
    open spec fn encoding(v: TransactionView) -> Seq<u8> {
        TransactionParts::encoding(v.parts())
    }

    fn encode(&self) -> (out: Vec<u8>) {
        self.encode_with_witness()
    }

    fn encoded_size(&self) -> (size: usize) {
        proof {
            lemma_witnesses_follow(self@);
        }
        self.version.encoded_size() + list_encoded_size(&self.inputs) + list_encoded_size(
            &self.outputs,
        ) + self.locktime.encoded_size() + list_encoded_size(&self.witnesses)
    }
}

impl Decode for Transaction {
    open spec fn parse(b: Seq<u8>) -> Parsed<TransactionView> {
        match TransactionParts::parse(b) {
            Ok((p, n)) => Ok((TransactionView::from_parts(p), n)),
            Err(e) => Err(e),
        }
    }

    open spec fn decodable(v: TransactionView) -> bool {
        TransactionParts::decodable(v.parts())
    }

    fn decode(bytes: &[u8]) -> (r: Result<(Self, usize), DecodeError>) {
        match TransactionParts::decode(bytes) {
            Ok(((version, (inputs, (outputs, (locktime, witnesses)))), n)) => Ok(
                (
                    Transaction {
                        version,
                        inputs: inputs.0,
                        outputs: outputs.0,
                        witnesses: witnesses.0,
                        locktime,
                    },
                    n,
                ),
            ),
            Err(e) => Err(e),
        }
    }

    proof fn lemma_parse_bounds(b: Seq<u8>) {
        TransactionParts::lemma_parse_bounds(b);
    }

    proof fn lemma_round_trip(v: TransactionView, rest: Seq<u8>) {
        TransactionParts::lemma_round_trip(v.parts(), rest);
    }
}

impl Canonical for Transaction {
    proof fn lemma_canonical(b: Seq<u8>) {
        TransactionParts::lemma_canonical(b);
    }
}

/// The full encoding is the stripped one followed by the counted witnesses.
pub proof fn lemma_witnesses_follow(tx: TransactionView)
    ensures
        Transaction::encoding(tx) == tx.stripped() + list_encoding::<Witness>(tx.witnesses),
{
    assert(Transaction::encoding(tx) =~= tx.stripped() + list_encoding::<Witness>(tx.witnesses));
}

/// Two transactions that differ in their witnesses alone have one identifier.
pub proof fn lemma_txid_ignores_witnesses(a: TransactionView, b: TransactionView)
    requires
        a == (TransactionView { witnesses: a.witnesses, ..b }),
    ensures
        a.txid() == b.txid(),
{
}

/// What decodes to a transaction is the encoding of that transaction and of
/// no other.
pub proof fn lemma_transaction_encoding_injective(a: TransactionView, b: TransactionView)
    requires
        Transaction::decodable(a),
        Transaction::decodable(b),
        Transaction::encoding(a) == Transaction::encoding(b),
    ensures
        a == b,
{
    Transaction::lemma_round_trip(a, Seq::empty());
    Transaction::lemma_round_trip(b, Seq::empty());
}

impl Transaction {
    /// Computes the legacy transaction identifier excluding any witness data.
    pub fn txid(&self) -> (id: Hash256)
        ensures
            id@ == self@.txid(),
    {
        let encoded = self.encode_without_witness();
        sha256d(&encoded)
    }

    /// Computes the witness transaction identifier including witness data.
    pub fn wtxid(&self) -> (id: Hash256)
        ensures
            id@ == self@.wtxid(),
    {
        let encoded = self.encode_with_witness();
        sha256d(&encoded)
    }

    /// Encodes the transaction without any witness data.
    pub fn encode_without_witness(&self) -> (out: Vec<u8>)
        ensures
            out@ == self@.stripped(),
    {
        let mut out: Vec<u8> = self.version.encode();
        encode_list(&mut out, &self.inputs);
        encode_list(&mut out, &self.outputs);
        append_bytes(&mut out, &self.locktime.encode());
        out
    }

    /// Encodes the transaction with an explicit witness count varint followed
    /// by each witness. A count of 0 means no witnesses. This is always
    /// unambiguous when the transaction is embedded in a larger byte buffer.
    pub fn encode_with_witness(&self) -> (out: Vec<u8>)
        ensures
            out@ == Transaction::encoding(self@),
    {
        let mut out: Vec<u8> = self.encode_without_witness();
        encode_list(&mut out, &self.witnesses);
        proof {
            lemma_witnesses_follow(self@);
        }
        out
    }

    /// Returns true if any input carries non-empty witness data.
    pub fn has_witness(&self) -> (r: bool)
        ensures
            r == self@.has_witness(),
    {
        let mut i: usize = 0;
        while i < self.witnesses.len()
            invariant
                i <= self.witnesses.len(),
                forall|j: int| 0 <= j < i ==> (#[trigger] self@.witnesses[j]).len() == 0,
            decreases self.witnesses.len() - i,
        {
            assert(self@.witnesses[i as int].len() == self.witnesses[i as int].stack_items.len());
            if !self.witnesses[i].stack_items.is_empty() {
                return true;
            }
            i += 1;
        }
        false
    }

    /// The sum of the output values, or nothing where it does not fit into 64
    /// bits.
    pub fn checked_output_sum(&self) -> (r: Option<u64>)
        ensures
            match r {
                Some(sum) => sum == total_value(self@.outputs),
                None => total_value(self@.outputs) > u64::MAX,
            },
    {
        let ghost outs = self@.outputs;
        let mut sum: u64 = 0;
        let mut i: usize = 0;
        assert(outs.take(outs.len() as int) =~= outs);
        while i < self.outputs.len()
            invariant
                i <= self.outputs.len(),
                outs == self@.outputs,
                outs.take(outs.len() as int) == outs,
                sum == total_value(outs.take(i as int)),
            decreases self.outputs.len() - i,
        {
            proof {
                assert(outs.take(i + 1).drop_last() =~= outs.take(i as int));
                assert(outs.take(i + 1).last() == self.outputs[i as int]@);
                lemma_total_value_monotone(outs, i + 1, outs.len() as int);
            }
            sum = match sum.checked_add(self.outputs[i].value) {
                Some(total) => total,
                None => return None,
            };
            i += 1;
        }
        Some(sum)
    }

    /// Performs basic structural validation of the transaction.
    pub fn check_structure(&self) -> (r: Result<(), TxError>)
        ensures
            match self@.structure_error() {
                Some(e) => r == Result::<(), TxError>::Err(e),
                None => r is Ok,
            },
    {
        // Only versions 1 and 2 are valid consensus versions.
        if self.version == 0 || self.version > 2 {
            return Err(TxError::InvalidVersion);
        }
        if self.inputs.is_empty() {
            return Err(TxError::NoInputs);
        }
        if self.outputs.is_empty() {
            return Err(TxError::NoOutputs);
        }
        if !self.witnesses.is_empty() && self.witnesses.len() != self.inputs.len() {
            return Err(TxError::WitnessMismatch);
        }
        let ghost outs = self@.outputs;
        let mut sum: u64 = 0;
        let mut i: usize = 0;
        assert(outs.take(outs.len() as int) =~= outs);
        while i < self.outputs.len()
            invariant
                i <= self.outputs.len(),
                outs == self@.outputs,
                outs.take(outs.len() as int) == outs,
                sum == total_value(outs.take(i as int)),
                self@.structure_error() == (if total_value(outs) > u64::MAX {
                    Some(TxError::OutputSumOverflow)
                } else if exists|j: int|
                    0 <= j < outs.len() && (#[trigger] outs[j]).value > MAX_MONEY {
                    Some(TxError::ValueTooLarge)
                } else {
                    None
                }),
            decreases self.outputs.len() - i,
        {
            proof {
                assert(outs.take(i + 1).drop_last() =~= outs.take(i as int));
                assert(outs.take(i + 1).last() == self.outputs[i as int]@);
                lemma_total_value_monotone(outs, i + 1, outs.len() as int);
            }
            sum = match sum.checked_add(self.outputs[i].value) {
                Some(total) => total,
                None => return Err(TxError::OutputSumOverflow),
            };
            i += 1;
        }
        let mut k: usize = 0;
        while k < self.outputs.len()
            invariant
                k <= self.outputs.len(),
                outs == self@.outputs,
                total_value(outs) <= u64::MAX,
                forall|j: int| 0 <= j < k ==> (#[trigger] outs[j]).value <= MAX_MONEY,
                self@.structure_error() == (if exists|j: int|
                    0 <= j < outs.len() && (#[trigger] outs[j]).value > MAX_MONEY {
                    Some(TxError::ValueTooLarge)
                } else {
                    None
                }),
            decreases self.outputs.len() - k,
        {
            assert(outs[k as int].value == self.outputs[k as int].value);
            if self.outputs[k].value > MAX_MONEY {
                return Err(TxError::ValueTooLarge);
            }
            k += 1;
        }
        Ok(())
    }
}

} // verus!
