//! Values of the chain as records, and back.

use crate::consensus::block::{Block, BlockHeader, BlockHeaderView, BlockView};
use crate::consensus::transaction::{
    Transaction, TransactionView, TxInput, TxInputView, TxOutput, TxOutputView, Witness,
};
use crate::consensus::utxo::{OutPoint, OutPointView, UtxoEntry, UtxoEntryView};
use crate::primitives::serialize::views;
use crate::storage::record::{
    lemma_reads_as_unique, lemma_record_reads_back, read_block, read_entry, read_undo, reads_as,
    write_block, write_entry, write_outpoint, write_undo, BlockRecord, EntryRecord, HeaderRecord,
    InputRecord, OutPointRecord, OutputRecord, Record, TransactionRecord, UndoRecord,
};
use crate::primitives::serialize::DecodeError;
use vstd::prelude::*;

verus! {

pub type InputModel = (Seq<u8>, (u32, (Seq<u8>, u32)));

pub type OutputModel = (u64, Seq<u8>);

pub type TransactionModel = (
    u32,
    (Seq<InputModel>, (Seq<OutputModel>, (Seq<Seq<Seq<u8>>>, u32))),
);

pub type HeaderModel = (u32, (Seq<u8>, (Seq<u8>, (u64, (u32, u64)))));

pub type BlockModel = (HeaderModel, Seq<TransactionModel>);

pub type OutPointModel = (Seq<u8>, u32);

pub type EntryModel = (OutputModel, (bool, u64));

/// A transaction as the fields of its record.
pub open spec fn transaction_model(tx: TransactionView) -> TransactionModel {
    (
        tx.version,
        (
            Seq::new(tx.inputs.len(), |i: int| tx.inputs[i].parts()),
            (
                Seq::new(tx.outputs.len(), |i: int| tx.outputs[i].parts()),
                (tx.witnesses, tx.locktime),
            ),
        ),
    )
}

/// The transaction of the fields of a record.
pub open spec fn model_transaction(m: TransactionModel) -> TransactionView {
    TransactionView {
        version: m.0,
        inputs: Seq::new(m.1.0.len(), |i: int| TxInputView::from_parts(m.1.0[i])),
        outputs: Seq::new(m.1.1.0.len(), |i: int| TxOutputView::from_parts(m.1.1.0[i])),
        witnesses: m.1.1.1.0,
        locktime: m.1.1.1.1,
    }
}

/// A block as the fields of its record.
pub open spec fn block_model(b: BlockView) -> BlockModel {
    (
        b.header.parts(),
        Seq::new(b.transactions.len(), |i: int| transaction_model(b.transactions[i])),
    )
}

/// The block of the fields of a record.
pub open spec fn model_block(m: BlockModel) -> BlockView {
    BlockView {
        header: BlockHeaderView::from_parts(m.0),
        transactions: Seq::new(m.1.len(), |i: int| model_transaction(m.1[i])),
    }
}

/// An unspent output as the fields of its record.
pub open spec fn entry_model(e: UtxoEntryView) -> EntryModel {
    (e.output.parts(), (e.coinbase, e.height))
}

/// The unspent output of the fields of a record.
pub open spec fn model_entry(m: EntryModel) -> UtxoEntryView {
    UtxoEntryView { output: TxOutputView::from_parts(m.0), coinbase: m.1.0, height: m.1.1 }
}

pub open spec fn outpoint_model(o: OutPointView) -> OutPointModel {
    (o.txid, o.vout)
}

/// An outpoint with the output that it spent.
pub type UndoPair = (OutPointView, UtxoEntryView);

pub open spec fn undo_model(u: Seq<UndoPair>) -> Seq<(OutPointModel, EntryModel)> {
    Seq::new(u.len(), |i: int| (outpoint_model(u[i].0), entry_model(u[i].1)))
}

pub open spec fn model_undo(m: Seq<(OutPointModel, EntryModel)>) -> Seq<UndoPair> {
    Seq::new(
        m.len(),
        |i: int| (OutPointView { txid: m[i].0.0, vout: m[i].0.1 }, model_entry(m[i].1)),
    )
}

/// The stored form of a block.
pub open spec fn block_bytes(b: BlockView) -> Seq<u8> {
    BlockRecord::record(block_model(b))
}

/// The stored form of an unspent output.
pub open spec fn entry_bytes(e: UtxoEntryView) -> Seq<u8> {
    EntryRecord::record(entry_model(e))
}

/// The stored form of undo data.
pub open spec fn undo_bytes(u: Seq<UndoPair>) -> Seq<u8> {
    UndoRecord::record(undo_model(u))
}

/// The block that stored bytes stand for.
pub open spec fn stored_block(bytes: Seq<u8>) -> Option<BlockView> {
    if exists|m: BlockModel| reads_as::<BlockRecord>(bytes, m) {
        Some(model_block(choose|m: BlockModel| reads_as::<BlockRecord>(bytes, m)))
    } else {
        None
    }
}

/// The unspent output that stored bytes stand for.
pub open spec fn stored_entry(bytes: Seq<u8>) -> Option<UtxoEntryView> {
    if exists|m: EntryModel| reads_as::<EntryRecord>(bytes, m) {
        Some(model_entry(choose|m: EntryModel| reads_as::<EntryRecord>(bytes, m)))
    } else {
        None
    }
}

/// The undo data that stored bytes stand for.
pub open spec fn stored_undo(bytes: Seq<u8>) -> Option<Seq<UndoPair>> {
    if exists|m: Seq<(OutPointModel, EntryModel)>| reads_as::<UndoRecord>(bytes, m) {
        Some(
            model_undo(
                choose|m: Seq<(OutPointModel, EntryModel)>| reads_as::<UndoRecord>(bytes, m),
            ),
        )
    } else {
        None
    }
}

pub proof fn lemma_block_model_inverse(b: BlockView)
    ensures
        model_block(block_model(b)) == b,
{
    let back = model_block(block_model(b));
    assert forall|i: int| 0 <= i < b.transactions.len() implies back.transactions[i]
        == b.transactions[i] by {
        let t = b.transactions[i];
        assert(model_transaction(transaction_model(t)) =~= t) by {
            assert(model_transaction(transaction_model(t)).inputs =~= t.inputs);
            assert(model_transaction(transaction_model(t)).outputs =~= t.outputs);
        }
    }
    assert(back.transactions =~= b.transactions);
    assert(back.header =~= b.header);
}

/// A stored block reads back as that block.
pub proof fn lemma_stored_block_reads_back(b: BlockView)
    requires
        BlockRecord::shaped(block_model(b)),
    ensures
        stored_block(block_bytes(b)) == Some(b),
{
    lemma_record_reads_back::<BlockRecord>(block_model(b));
    let m = choose|m: BlockModel| reads_as::<BlockRecord>(block_bytes(b), m);
    lemma_reads_as_unique::<BlockRecord>(block_bytes(b), m, block_model(b));
    lemma_block_model_inverse(b);
}

/// A stored unspent output reads back as that output.
pub proof fn lemma_stored_entry_reads_back(e: UtxoEntryView)
    requires
        EntryRecord::shaped(entry_model(e)),
    ensures
        stored_entry(entry_bytes(e)) == Some(e),
{
    lemma_record_reads_back::<EntryRecord>(entry_model(e));
    let m = choose|m: EntryModel| reads_as::<EntryRecord>(entry_bytes(e), m);
    lemma_reads_as_unique::<EntryRecord>(entry_bytes(e), m, entry_model(e));
}

/// Stored undo data reads back as that data.
pub proof fn lemma_stored_undo_reads_back(u: Seq<UndoPair>)
    requires
        UndoRecord::shaped(undo_model(u)),
    ensures
        stored_undo(undo_bytes(u)) == Some(u),
{
    lemma_record_reads_back::<UndoRecord>(undo_model(u));
    let m = choose|m: Seq<(OutPointModel, EntryModel)>| reads_as::<UndoRecord>(undo_bytes(u), m);
    lemma_reads_as_unique::<UndoRecord>(undo_bytes(u), m, undo_model(u));
    assert(model_undo(undo_model(u)) =~= u);
}

fn copy_bytes(v: &Vec<u8>) -> (r: Vec<u8>)
    ensures
        r@ == v@,
        r.deep_view() == v@,
{
    let r = v.clone();
    assert(r@ =~= v@);
    assert(r.deep_view() =~= r@);
    r
}

fn input_record(input: &TxInput) -> (r: InputRecord)
    ensures
        r.deep_view() == input@.parts(),
{
    let r = (
        input.prev_txid,
        (input.prev_index, (copy_bytes(&input.script_sig), input.sequence)),
    );
    assert(input.prev_txid.deep_view() =~= input.prev_txid@);
    r
}

fn output_record(output: &TxOutput) -> (r: OutputRecord)
    ensures
        r.deep_view() == output@.parts(),
{
    (output.value, copy_bytes(&output.script_pubkey))
}

fn copy_items(items: &Vec<Vec<u8>>) -> (r: Vec<Vec<u8>>)
    ensures
        r.deep_view() == views(items@),
        views(r@) == views(items@),
{
    let mut r: Vec<Vec<u8>> = Vec::new();
    let mut i: usize = 0;
    while i < items.len()
        invariant
            i <= items.len(),
            r.len() == i,
            forall|j: int|
                0 <= j < i ==> (#[trigger] r@[j]).deep_view() == items@[j]@ && r@[j]@ == items@[j]@,
        decreases items.len() - i,
    {
        r.push(copy_bytes(&items[i]));
        i += 1;
    }
    assert(r.deep_view() =~= views(items@));
    assert(views(r@) =~= views(items@));
    r
}

/// The record of a transaction.
pub fn transaction_record(tx: &Transaction) -> (r: TransactionRecord)
    ensures
        r.deep_view() == transaction_model(tx@),
{
    let mut inputs: Vec<InputRecord> = Vec::new();
    let mut i: usize = 0;
    while i < tx.inputs.len()
        invariant
            i <= tx.inputs.len(),
            inputs.len() == i,
            forall|j: int|
                0 <= j < i ==> (#[trigger] inputs@[j]).deep_view() == tx@.inputs[j].parts(),
        decreases tx.inputs.len() - i,
    {
        inputs.push(input_record(&tx.inputs[i]));
        i += 1;
    }
    let mut outputs: Vec<OutputRecord> = Vec::new();
    let mut k: usize = 0;
    while k < tx.outputs.len()
        invariant
            k <= tx.outputs.len(),
            outputs.len() == k,
            forall|j: int|
                0 <= j < k ==> (#[trigger] outputs@[j]).deep_view() == tx@.outputs[j].parts(),
        decreases tx.outputs.len() - k,
    {
        outputs.push(output_record(&tx.outputs[k]));
        k += 1;
    }
    let mut witnesses: Vec<Vec<Vec<u8>>> = Vec::new();
    let mut w: usize = 0;
    while w < tx.witnesses.len()
        invariant
            w <= tx.witnesses.len(),
            witnesses.len() == w,
            forall|j: int|
                0 <= j < w ==> (#[trigger] witnesses@[j]).deep_view() == tx@.witnesses[j],
        decreases tx.witnesses.len() - w,
    {
        witnesses.push(copy_items(&tx.witnesses[w].stack_items));
        w += 1;
    }
    let r = (tx.version, (inputs, (outputs, (witnesses, tx.locktime))));
    proof {
        let m = transaction_model(tx@);
        assert(inputs.deep_view() =~= m.1.0);
        assert(outputs.deep_view() =~= m.1.1.0);
        assert(witnesses.deep_view() =~= m.1.1.1.0);
    }
    r
}

fn record_transaction(r: &TransactionRecord) -> (tx: Transaction)
    ensures
        tx@ == model_transaction(r.deep_view()),
{
    let ghost m = r.deep_view();
    let mut inputs: Vec<TxInput> = Vec::new();
    let mut i: usize = 0;
    while i < r.1.0.len()
        invariant
            i <= r.1.0.len(),
            m == r.deep_view(),
            inputs.len() == i,
            forall|j: int|
                0 <= j < i ==> (#[trigger] inputs@[j])@ == TxInputView::from_parts(m.1.0[j]),
        decreases r.1.0.len() - i,
    {
        let part = &r.1.0[i];
        let input = TxInput {
            prev_txid: part.0,
            prev_index: part.1.0,
            script_sig: copy_bytes(&part.1.1.0),
            sequence: part.1.1.1,
        };
        proof {
            assert(m.1.0[i as int] == r.1.0@[i as int].deep_view());
            assert(part.0.deep_view() =~= part.0@);
            assert(part.1.1.0.deep_view() =~= part.1.1.0@);
        }
        inputs.push(input);
        i += 1;
    }
    let mut outputs: Vec<TxOutput> = Vec::new();
    let mut k: usize = 0;
    while k < r.1.1.0.len()
        invariant
            k <= r.1.1.0.len(),
            m == r.deep_view(),
            outputs.len() == k,
            forall|j: int|
                0 <= j < k ==> (#[trigger] outputs@[j])@ == TxOutputView::from_parts(m.1.1.0[j]),
        decreases r.1.1.0.len() - k,
    {
        let part = &r.1.1.0[k];
        let output = TxOutput { value: part.0, script_pubkey: copy_bytes(&part.1) };
        proof {
            assert(m.1.1.0[k as int] == r.1.1.0@[k as int].deep_view());
            assert(part.1.deep_view() =~= part.1@);
        }
        outputs.push(output);
        k += 1;
    }
    let mut witnesses: Vec<Witness> = Vec::new();
    let mut w: usize = 0;
    while w < r.1.1.1.0.len()
        invariant
            w <= r.1.1.1.0.len(),
            m == r.deep_view(),
            witnesses.len() == w,
            forall|j: int| 0 <= j < w ==> (#[trigger] witnesses@[j])@ == m.1.1.1.0[j],
        decreases r.1.1.1.0.len() - w,
    {
        let items = &r.1.1.1.0[w];
        let witness = Witness { stack_items: copy_items(items) };
        proof {
            assert(m.1.1.1.0[w as int] == items.deep_view());
            assert forall|q: int| 0 <= q < items.len() implies items@[q].deep_view()
                =~= items@[q]@ by {}
            assert(items.deep_view() =~= views(items@));
        }
        witnesses.push(witness);
        w += 1;
    }
    let tx = Transaction { version: r.0, inputs, outputs, witnesses, locktime: r.1.1.1.1 };
    proof {
        let want = model_transaction(m);
        assert(tx@.inputs =~= want.inputs);
        assert(tx@.outputs =~= want.outputs);
        assert(tx@.witnesses =~= want.witnesses);
    }
    tx
}

fn header_record(h: &BlockHeader) -> (r: HeaderRecord)
    ensures
        r.deep_view() == h@.parts(),
{
    assert(h.prev_block_hash.deep_view() =~= h.prev_block_hash@);
    assert(h.merkle_root.deep_view() =~= h.merkle_root@);
    (h.version, (h.prev_block_hash, (h.merkle_root, (h.timestamp, (h.n_bits, h.nonce)))))
}

fn record_header(r: &HeaderRecord) -> (h: BlockHeader)
    ensures
        h@ == BlockHeaderView::from_parts(r.deep_view()),
{
    assert(r.1.0.deep_view() =~= r.1.0@);
    assert(r.1.1.0.deep_view() =~= r.1.1.0@);
    BlockHeader {
        version: r.0,
        prev_block_hash: r.1.0,
        merkle_root: r.1.1.0,
        timestamp: r.1.1.1.0,
        n_bits: r.1.1.1.1.0,
        nonce: r.1.1.1.1.1,
    }
}

/// Writes a block in its stored form.
pub fn encode_block(block: &Block) -> (r: Result<Vec<u8>, String>)
    ensures
        r is Ok,
        r->Ok_0@ == block_bytes(block@),
        stored_block(r->Ok_0@) == Some(block@),
{
    let mut transactions: Vec<TransactionRecord> = Vec::new();
    let mut i: usize = 0;
    while i < block.transactions.len()
        invariant
            i <= block.transactions.len(),
            transactions.len() == i,
            forall|j: int|
                0 <= j < i ==> (#[trigger] transactions@[j]).deep_view() == transaction_model(
                    block@.transactions[j],
                ),
        decreases block.transactions.len() - i,
    {
        transactions.push(transaction_record(&block.transactions[i]));
        i += 1;
    }
    let record: BlockRecord = (header_record(&block.header), transactions);
    proof {
        assert(transactions.deep_view() =~= block_model(block@).1);
        record.lemma_shaped();
        lemma_stored_block_reads_back(block@);
    }
    write_block(&record)
}

/// Reads a block from its stored form.
pub fn decode_block(bytes: &[u8]) -> (r: Result<Block, String>)
    ensures
        match r {
            Ok(b) => stored_block(bytes@) == Some(b@),
            Err(_) => stored_block(bytes@) is None,
        },
{
    let record = match read_block(bytes) {
        Ok(record) => record,
        Err(e) => return Err(e),
    };
    let ghost m = record.deep_view();
    let mut transactions: Vec<Transaction> = Vec::new();
    let mut i: usize = 0;
    while i < record.1.len()
        invariant
            i <= record.1.len(),
            m == record.deep_view(),
            transactions.len() == i,
            forall|j: int|
                0 <= j < i ==> (#[trigger] transactions@[j])@ == model_transaction(m.1[j]),
        decreases record.1.len() - i,
    {
        transactions.push(record_transaction(&record.1[i]));
        i += 1;
    }
    let block = Block { header: record_header(&record.0), transactions };
    proof {
        assert(block@.transactions =~= model_block(m).transactions);
        let chosen = choose|x: BlockModel| reads_as::<BlockRecord>(bytes@, x);
        lemma_reads_as_unique::<BlockRecord>(bytes@, chosen, m);
    }
    Ok(block)
}

fn entry_record(entry: &UtxoEntry) -> (r: EntryRecord)
    ensures
        r.deep_view() == entry_model(entry@),
{
    (output_record(&entry.output), (entry.coinbase, entry.height))
}

fn record_entry(r: &EntryRecord) -> (entry: UtxoEntry)
    ensures
        entry@ == model_entry(r.deep_view()),
{
    assert(r.0.1.deep_view() =~= r.0.1@);
    UtxoEntry {
        output: TxOutput { value: r.0.0, script_pubkey: copy_bytes(&r.0.1) },
        coinbase: r.1.0,
        height: r.1.1,
    }
}

/// Writes an unspent output in its stored form.
pub fn encode_entry(entry: &UtxoEntry) -> (r: Result<Vec<u8>, String>)
    ensures
        r is Ok,
        r->Ok_0@ == entry_bytes(entry@),
        stored_entry(r->Ok_0@) == Some(entry@),
{
    let record = entry_record(entry);
    proof {
        record.lemma_shaped();
        lemma_stored_entry_reads_back(entry@);
    }
    write_entry(&record)
}

/// Reads an unspent output from its stored form.
pub fn decode_entry(bytes: &[u8]) -> (r: Result<UtxoEntry, String>)
    ensures
        match r {
            Ok(e) => stored_entry(bytes@) == Some(e@),
            Err(_) => stored_entry(bytes@) is None,
        },
{
    let record = match read_entry(bytes) {
        Ok(record) => record,
        Err(e) => return Err(e),
    };
    proof {
        let chosen = choose|x: EntryModel| reads_as::<EntryRecord>(bytes@, x);
        lemma_reads_as_unique::<EntryRecord>(bytes@, chosen, record.deep_view());
    }
    Ok(record_entry(&record))
}

/// The models of outpoints with outputs.
pub open spec fn pair_views(s: Seq<(OutPoint, UtxoEntry)>) -> Seq<UndoPair> {
    Seq::new(s.len(), |i: int| (s[i].0@, s[i].1@))
}

fn outpoint_record(o: &OutPoint) -> (r: OutPointRecord)
    ensures
        r.deep_view() == outpoint_model(o@),
{
    assert(o.txid.deep_view() =~= o.txid@);
    (o.txid, o.vout)
}

/// Writes undo data in its stored form.
pub fn encode_undo(spent: &Vec<(OutPoint, UtxoEntry)>) -> (r: Result<Vec<u8>, String>)
    ensures
        r is Ok,
        r->Ok_0@ == undo_bytes(pair_views(spent@)),
        stored_undo(r->Ok_0@) == Some(pair_views(spent@)),
{
    let mut record: UndoRecord = Vec::new();
    let ghost want = undo_model(pair_views(spent@));
    let mut i: usize = 0;
    while i < spent.len()
        invariant
            i <= spent.len(),
            record.len() == i,
            want == undo_model(pair_views(spent@)),
            forall|j: int| 0 <= j < i ==> (#[trigger] record@[j]).deep_view() == want[j],
        decreases spent.len() - i,
    {
        record.push((outpoint_record(&spent[i].0), entry_record(&spent[i].1)));
        i += 1;
    }
    proof {
        assert(record.deep_view() =~= want);
        record.lemma_shaped();
        lemma_stored_undo_reads_back(pair_views(spent@));
    }
    write_undo(&record)
}

/// Reads undo data from its stored form.
pub fn decode_undo(bytes: &[u8]) -> (r: Result<Vec<(OutPoint, UtxoEntry)>, String>)
    ensures
        match r {
            Ok(u) => stored_undo(bytes@) == Some(pair_views(u@)),
            Err(_) => stored_undo(bytes@) is None,
        },
{
    let record = match read_undo(bytes) {
        Ok(record) => record,
        Err(e) => return Err(e),
    };
    let ghost m = record.deep_view();
    let mut out: Vec<(OutPoint, UtxoEntry)> = Vec::new();
    let mut i: usize = 0;
    while i < record.len()
        invariant
            i <= record.len(),
            m == record.deep_view(),
            out.len() == i,
            forall|j: int|
                0 <= j < i ==> pair_views(out@)[j] == #[trigger] model_undo(m)[j],
        decreases record.len() - i,
    {
        let part = &record[i];
        assert(m[i as int] == part.deep_view());
        assert(part.0.0.deep_view() =~= part.0.0@);
        let ghost before = out@;
        out.push((OutPoint { txid: part.0.0, vout: part.0.1 }, record_entry(&part.1)));
        proof {
            assert forall|j: int| 0 <= j < i + 1 implies pair_views(out@)[j]
                == #[trigger] model_undo(m)[j] by {
                if j < i {
                    assert(pair_views(before)[j] == model_undo(m)[j]);
                }
            }
        }
        i += 1;
    }
    proof {
        assert(pair_views(out@) =~= model_undo(m));
        let chosen = choose|x: Seq<(OutPointModel, EntryModel)>| reads_as::<UndoRecord>(bytes@, x);
        lemma_reads_as_unique::<UndoRecord>(bytes@, chosen, m);
    }
    Ok(out)
}

/// The record of an outpoint is its identifier followed by its place, which is
/// the key under which it is filed.
pub fn encode_outpoint(o: &OutPoint) -> (r: Result<Vec<u8>, String>)
    ensures
        r is Ok,
        r->Ok_0@ == o@.key(),
{
    write_outpoint(&outpoint_record(o))
}

impl Block {
    /// The block in its stored form.
    pub fn to_bytes(&self) -> (r: Result<Vec<u8>, String>)
        ensures
            r matches Ok(bytes) && bytes@ == block_bytes(self@) && stored_block(bytes@) == Some(
                self@,
            ),
    {
        encode_block(self)
    }

    /// The block that was stored in some form.
    pub fn from_bytes(bytes: &[u8]) -> (r: Result<Self, DecodeError>)
        ensures
            match r {
                Ok(block) => stored_block(bytes@) == Some(block@),
                Err(e) => stored_block(bytes@) is None && e == DecodeError::InvalidData,
            },
    {
        match decode_block(bytes) {
            Ok(block) => Ok(block),
            Err(_) => Err(DecodeError::InvalidData),
        }
    }
}

} // verus!
