//! What the methods answer.

use crate::consensus::block::{Block, BlockView};
use crate::consensus::chain::ChainState;
use crate::consensus::chain_model::ChainView;
use crate::consensus::transaction::{
    Transaction, TransactionView, TxError, TxInput, TxInputView, TxOutput, TxOutputView,
};
use crate::network::mempool::{admission, offered, MempoolError, NetworkMempool, Pool};
use crate::network::protocol::BlockMessage;
use crate::primitives::bytes::array32;
use crate::primitives::hash::Hash256;
use crate::primitives::hex::{hex_bytes, hex_decode, hex_encode, hex_text, is_hex};
use crate::primitives::serialize::{views, Decode, Encode};
use crate::storage::blocks::{block_at, hash_at_height};
use vstd::prelude::*;

verus! {

/// The name of the chain.
pub const CHAIN_NAME: &'static str = "ferrous";

/// The most blocks that one call mines.
pub const MAX_MINED_BLOCKS: u64 = 1000;

/// Why a method fails.
#[derive(Debug, Clone, Copy, PartialEq, Eq, Structural)]
pub enum MethodError {
    InvalidHex,
    InvalidHashLength,
    /// What is stored cannot be read.
    StoreError,
    BlockNotFound,
    HeightOutOfRange,
    DecodeFailed,
    InvalidTransaction(TxError),
    MempoolRejected(MempoolError),
    InvalidBlockCount,
}

/// The answer to `getblockchaininfo`.
#[derive(Debug)]
pub struct GetBlockchainInfoResponse {
    pub chain: String,
    pub blocks: u32,
    pub headers: u32,
    pub bestblockhash: String,
}

/// What `getmininginfo` tells of the chain.
#[derive(Debug, Clone, Copy, PartialEq, Eq, Structural)]
pub struct MiningInfo {
    pub blocks: u32,
    pub bits: u32,
}

/// An input as it is told.
#[derive(Debug)]
pub struct VerboseTxInput {
    pub txid: Option<String>,
    pub vout: Option<u32>,
    pub coinbase: bool,
}

/// An output as it is told.
#[derive(Debug)]
pub struct VerboseTxOutput {
    /// The value in the smallest unit.
    pub value: u64,
    pub script_pubkey: Vec<u8>,
}

/// A transaction as it is told.
#[derive(Debug)]
pub struct VerboseTx {
    pub txid: String,
    pub is_coinbase: bool,
    pub vin: Vec<VerboseTxInput>,
    pub vout: Vec<VerboseTxOutput>,
}

/// The answer to `getblock`.
#[derive(Debug)]
pub struct GetBlockResponse {
    pub hash: String,
    pub height: u32,
    pub version: u32,
    pub merkleroot: String,
    pub time: u64,
    pub nonce: u64,
    pub bits: String,
    pub size: usize,
    pub n_tx: usize,
    /// The script that the first output of the block pays to.
    pub miner: Option<Vec<u8>>,
    pub tx: Vec<String>,
    pub transactions: Option<Vec<VerboseTx>>,
}

/// What is told of an input.
pub struct VerboseInputView {
    pub txid: Option<Seq<char>>,
    pub vout: Option<u32>,
    pub coinbase: bool,
}

impl View for VerboseTxInput {
    type V = VerboseInputView;

    open spec fn view(&self) -> VerboseInputView {
        VerboseInputView {
            txid: match self.txid {
                Some(s) => Some(s@),
                None => None,
            },
            vout: self.vout,
            coinbase: self.coinbase,
        }
    }
}

impl View for VerboseTxOutput {
    type V = TxOutputView;

    open spec fn view(&self) -> TxOutputView {
        TxOutputView { value: self.value, script_pubkey: self.script_pubkey@ }
    }
}

/// What is told of a transaction.
pub struct VerboseTxView {
    pub txid: Seq<char>,
    pub is_coinbase: bool,
    pub vin: Seq<VerboseInputView>,
    pub vout: Seq<TxOutputView>,
}

impl View for VerboseTx {
    type V = VerboseTxView;

    open spec fn view(&self) -> VerboseTxView {
        VerboseTxView {
            txid: self.txid@,
            is_coinbase: self.is_coinbase,
            vin: views(self.vin@),
            vout: views(self.vout@),
        }
    }
}

/// What is told of an input.
pub open spec fn told_input(input: TxInputView, coinbase: bool) -> VerboseInputView {
    if coinbase {
        VerboseInputView { txid: None, vout: None, coinbase }
    } else {
        VerboseInputView {
            txid: Some(hex_text(input.prev_txid)),
            vout: Some(input.prev_index),
            coinbase,
        }
    }
}

/// What is told of a transaction at a place in a block.
pub open spec fn told_transaction(tx: TransactionView, place: int) -> VerboseTxView {
    VerboseTxView {
        txid: hex_text(tx.txid()),
        is_coinbase: place == 0,
        vin: Seq::new(tx.inputs.len(), |i: int| told_input(tx.inputs[i], place == 0)),
        vout: tx.outputs,
    }
}

/// The script that the first output of a block pays to.
pub open spec fn miner_script(block: BlockView) -> Option<Seq<u8>> {
    if block.transactions.len() > 0 && block.transactions[0].outputs.len() > 0 {
        Some(block.transactions[0].outputs[0].script_pubkey)
    } else {
        None
    }
}

/// A number in four bytes, the highest first.
pub open spec fn big_endian(v: u32) -> Seq<u8> {
    seq![
        (v as int / 0x1000000) as u8,
        (v as int / 0x10000 % 256) as u8,
        (v as int / 0x100 % 256) as u8,
        (v as int % 256) as u8,
    ]
}

/// Whether an answer tells what there is to tell of a block at a height.
pub open spec fn tells(r: GetBlockResponse, block: BlockView, height: u64, verbose: bool) -> bool {
    &&& r.hash@ == hex_text(block.header.hash())
    &&& r.height == height as u32
    &&& r.version == block.header.version
    &&& r.merkleroot@ == hex_text(block.header.merkle_root)
    &&& r.time == block.header.timestamp
    &&& r.nonce == block.header.nonce
    &&& r.bits@ == hex_text(big_endian(block.header.n_bits))
    &&& r.size == BlockMessage::encoding(block).len()
    &&& r.n_tx == block.transactions.len()
    &&& match r.miner {
        Some(script) => miner_script(block) == Some(script@),
        None => miner_script(block) is None,
    }
    &&& r.tx@.len() == block.transactions.len()
    &&& forall|i: int|
        0 <= i < r.tx@.len() ==> (#[trigger] r.tx@[i])@ == hex_text(block.transactions[i].txid())
    &&& match r.transactions {
        Some(list) => verbose && views(list@) == Seq::new(
            block.transactions.len(),
            |i: int| told_transaction(block.transactions[i], i),
        ),
        None => !verbose,
    }
}

/// The block that a text names, or why there is none.
pub open spec fn block_named(chain: ChainView, text: Seq<char>) -> Result<BlockView, MethodError> {
    if !is_hex(text) {
        Err(MethodError::InvalidHex)
    } else if hex_bytes(text).len() != 32 {
        Err(MethodError::InvalidHashLength)
    } else {
        match chain.cached(hex_bytes(text)) {
            Some(d) => Ok(d.block),
            None => match block_at(chain.blocks, hex_bytes(text)) {
                Ok(Some(b)) => Ok(b),
                Ok(None) => Err(MethodError::BlockNotFound),
                Err(_) => Err(MethodError::StoreError),
            },
        }
    }
}

/// The tip, where it is a recent block.
pub open spec fn recent_tip(chain: ChainView) -> Option<(BlockView, u64)> {
    match chain.tip {
        Some(t) => match chain.cached(t) {
            Some(d) => Some((d.block, d.height)),
            None => None,
        },
        None => None,
    }
}

/// The transaction that a text holds, or why it holds none.
pub open spec fn transaction_in(text: Seq<char>) -> Result<TransactionView, MethodError> {
    if !is_hex(text) {
        Err(MethodError::InvalidHex)
    } else {
        match Transaction::parse(hex_bytes(text)) {
            Ok((tx, _)) => match tx.structure_error() {
                Some(e) => Err(MethodError::InvalidTransaction(e)),
                None => Ok(tx),
            },
            Err(_) => Err(MethodError::DecodeFailed),
        }
    }
}

/// How often a transaction at a height is confirmed.
pub open spec fn confirmations_at(tip_height: u64, height: u64) -> int {
    if tip_height >= height {
        tip_height - height + 1
    } else {
        0
    }
}

/// A word for how well the network does.
pub open spec fn health_word(score: u8) -> Seq<char> {
    if score >= 80 {
        "excellent"@
    } else if score >= 60 {
        "good"@
    } else if score >= 40 {
        "fair"@
    } else {
        "poor"@
    }
}

/// The transaction that was sent is in the pool where the sender is told its name.
pub proof fn lemma_sent_is_pooled(pool: Pool, utxos: crate::storage::db::Rows, tx: TransactionView)
    requires
        admission(pool, utxos, tx) is Ok,
    ensures
        offered(pool, utxos, tx).contains_key(tx.txid()),
{
}

fn hex_of_bits(bits: u32) -> (r: String)
    ensures
        r@ == hex_text(big_endian(bits)),
{
    let bytes: [u8; 4] = [
        (bits / 0x1000000) as u8,
        (bits / 0x10000 % 256) as u8,
        (bits / 0x100 % 256) as u8,
        (bits % 256) as u8,
    ];
    assert(bytes@ =~= big_endian(bits));
    hex_encode(&bytes)
}

fn tell_inputs(inputs: &Vec<TxInput>, coinbase: bool) -> (r: Vec<VerboseTxInput>)
    ensures
        views(r@) == Seq::new(inputs@.len(), |i: int| told_input(inputs@[i]@, coinbase)),
{
    let mut out: Vec<VerboseTxInput> = Vec::new();
    let mut i: usize = 0;
    while i < inputs.len()
        invariant
            i <= inputs@.len(),
            out@.len() == i,
            forall|k: int|
                0 <= k < i ==> (#[trigger] out@[k])@ == told_input(inputs@[k]@, coinbase),
        decreases inputs@.len() - i,
    {
        let told = if coinbase {
            VerboseTxInput { txid: None, vout: None, coinbase }
        } else {
            VerboseTxInput {
                txid: Some(hex_encode(&inputs[i].prev_txid)),
                vout: Some(inputs[i].prev_index),
                coinbase,
            }
        };
        out.push(told);
        i += 1;
    }
    assert(views(out@) =~= Seq::new(inputs@.len(), |i: int| told_input(inputs@[i]@, coinbase)));
    out
}

fn tell_outputs(outputs: &Vec<TxOutput>) -> (r: Vec<VerboseTxOutput>)
    ensures
        views(r@) == views(outputs@),
{
    let mut out: Vec<VerboseTxOutput> = Vec::new();
    let mut i: usize = 0;
    while i < outputs.len()
        invariant
            i <= outputs@.len(),
            out@.len() == i,
            forall|k: int| 0 <= k < i ==> (#[trigger] out@[k])@ == outputs@[k]@,
        decreases outputs@.len() - i,
    {
        out.push(
            VerboseTxOutput {
                value: outputs[i].value,
                script_pubkey: outputs[i].script_pubkey.clone(),
            },
        );
        i += 1;
    }
    assert(views(out@) =~= views(outputs@));
    out
}

fn tell_transactions(txs: &Vec<Transaction>) -> (r: Vec<VerboseTx>)
    ensures
        views(r@) == Seq::new(txs@.len(), |i: int| told_transaction(txs@[i]@, i)),
{
    let mut out: Vec<VerboseTx> = Vec::new();
    let mut i: usize = 0;
    while i < txs.len()
        invariant
            i <= txs@.len(),
            out@.len() == i,
            forall|k: int| 0 <= k < i ==> (#[trigger] out@[k])@ == told_transaction(txs@[k]@, k),
        decreases txs@.len() - i,
    {
        let tx = &txs[i];
        let is_coinbase: bool = i == 0;
        let told = VerboseTx {
            txid: hex_encode(&tx.txid()),
            is_coinbase,
            vin: tell_inputs(&tx.inputs, is_coinbase),
            vout: tell_outputs(&tx.outputs),
        };
        proof {
            let want = told_transaction(tx@, i as int);
            assert(told@.vin =~= want.vin);
            assert(told@.vout =~= want.vout);
        }
        out.push(told);
        i += 1;
    }
    assert(views(out@) =~= Seq::new(txs@.len(), |i: int| told_transaction(txs@[i]@, i)));
    out
}

fn tell_txids(txs: &Vec<Transaction>) -> (r: Vec<String>)
    ensures
        r@.len() == txs@.len(),
        forall|i: int| 0 <= i < r@.len() ==> (#[trigger] r@[i])@ == hex_text(txs@[i]@.txid()),
{
    let mut out: Vec<String> = Vec::new();
    let mut i: usize = 0;
    while i < txs.len()
        invariant
            i <= txs@.len(),
            out@.len() == i,
            forall|k: int| 0 <= k < i ==> (#[trigger] out@[k])@ == hex_text(txs@[k]@.txid()),
        decreases txs@.len() - i,
    {
        out.push(hex_encode(&txs[i].txid()));
        i += 1;
    }
    out
}

fn find_block(chain: &ChainState, text: &str) -> (r: Result<(Hash256, Block), MethodError>)
    ensures
        match r {
            Ok((hash, block)) => block_named(chain@, text@) == Ok::<BlockView, MethodError>(block@)
                && hash@ == hex_bytes(text@),
            Err(e) => block_named(chain@, text@) == Err::<BlockView, MethodError>(e),
        },
{
    let bytes = match hex_decode(text) {
        Some(bytes) => bytes,
        None => return Err(MethodError::InvalidHex),
    };
    if bytes.len() != 32 {
        return Err(MethodError::InvalidHashLength);
    }
    let hash: Hash256 = array32(bytes.as_slice());
    assert(hash@ =~= bytes@);
    match chain.get_block(&hash) {
        Some(b) => Ok((hash, b.clone())),
        None => match chain.block_store.get_block(&hash) {
            Ok(Some(b)) => Ok((hash, b)),
            Ok(None) => Err(MethodError::BlockNotFound),
            Err(_) => Err(MethodError::StoreError),
        },
    }
}

fn height_of(chain: &ChainState, hash: &Hash256) -> (height: u64)
    ensures
        height == chain@.height_of(hash@),
{
    match chain.get_height_for_hash(hash) {
        Some(h) => h,
        None => match chain.block_store.get_block_meta(hash) {
            Ok(Some(m)) => m.height,
            _ => 0,
        },
    }
}

fn tell_block(block: Block, height: u64, verbose: bool) -> (r: GetBlockResponse)
    ensures
        tells(r, block@, height, verbose),
{
    let ghost b = block@;
    let hash = hex_encode(&block.header.hash());
    let merkleroot = hex_encode(&block.header.merkle_root);
    let bits = hex_of_bits(block.header.n_bits);
    let n_tx: usize = block.transactions.len();
    let miner = if n_tx > 0 && block.transactions[0].outputs.len() > 0 {
        Some(block.transactions[0].outputs[0].script_pubkey.clone())
    } else {
        None
    };
    let tx = tell_txids(&block.transactions);
    let transactions = if verbose {
        let list = tell_transactions(&block.transactions);
        assert(views(list@) =~= Seq::new(
            b.transactions.len(),
            |i: int| told_transaction(b.transactions[i], i),
        ));
        Some(list)
    } else {
        None
    };
    let header = block.header;
    let message = BlockMessage { header, transactions: block.transactions };
    assert(message@ =~= b);
    let size: usize = message.encode().len();
    GetBlockResponse {
        hash,
        height: #[verifier::truncate] (height as u32),
        version: header.version,
        merkleroot,
        time: header.timestamp,
        nonce: header.nonce,
        bits,
        size,
        n_tx,
        miner,
        tx,
        transactions,
    }
}

/// Tells of the block with a hash, given as hexadecimal text.
pub fn getblock(chain: &ChainState, blockhash: &str, verbose: bool) -> (r: Result<
    GetBlockResponse,
    MethodError,
>)
    ensures
        match r {
            Ok(answer) => block_named(chain@, blockhash@) matches Ok(block) && tells(
                answer,
                block,
                chain@.height_of(hex_bytes(blockhash@)),
                verbose,
            ),
            Err(e) => block_named(chain@, blockhash@) == Err::<BlockView, MethodError>(e),
        },
{
    match find_block(chain, blockhash) {
        Ok((hash, block)) => {
            let height: u64 = height_of(chain, &hash);
            Ok(tell_block(block, height, verbose))
        },
        Err(e) => Err(e),
    }
}

/// The hash of the block at a height.
pub fn getblockhash(chain: &ChainState, height: u64) -> (r: Result<String, MethodError>)
    ensures
        match r {
            Ok(text) => hash_at_height(chain@.blocks, height) matches Ok(Some(hash)) && text@
                == hex_text(hash),
            Err(e) => match hash_at_height(chain@.blocks, height) {
                Ok(found) => found is None && e == MethodError::HeightOutOfRange,
                Err(_) => e == MethodError::StoreError,
            },
        },
{
    match chain.block_store.get_hash_by_height(height) {
        Ok(Some(hash)) => Ok(hex_encode(&hash)),
        Ok(None) => Err(MethodError::HeightOutOfRange),
        Err(_) => Err(MethodError::StoreError),
    }
}

/// The hash of the tip.
pub fn getbestblockhash(chain: &ChainState) -> (r: Option<String>)
    ensures
        match r {
            Some(text) => recent_tip(chain@) matches Some((block, _)) && text@ == hex_text(
                block.header.hash(),
            ),
            None => recent_tip(chain@) is None,
        },
{
    match chain.get_tip() {
        Ok(Some(tip)) => Some(hex_encode(&tip.block.header.hash())),
        _ => None,
    }
}

/// Tells of the chain.
pub fn getblockchaininfo(chain: &ChainState) -> (r: GetBlockchainInfoResponse)
    ensures
        r.chain@ == CHAIN_NAME@,
        r.headers == r.blocks,
        match recent_tip(chain@) {
            Some((block, height)) => r.blocks == height as u32 && r.bestblockhash@ == hex_text(
                block.header.hash(),
            ),
            None => r.blocks == 0 && r.bestblockhash@ == hex_text(Seq::new(32, |i: int| 0u8)),
        },
{
    let (height, bestblockhash): (u32, String) = match chain.get_tip() {
        Ok(Some(tip)) => (
            #[verifier::truncate]
            (tip.height as u32),
            hex_encode(&tip.block.header.hash()),
        ),
        _ => {
            let zeros: Hash256 = [0u8;32];
            assert(zeros@ =~= Seq::new(32, |i: int| 0u8));
            (0, hex_encode(&zeros))
        },
    };
    GetBlockchainInfoResponse {
        chain: CHAIN_NAME.to_owned(),
        blocks: height,
        headers: height,
        bestblockhash,
    }
}

/// What a miner asks of the chain.
pub fn getmininginfo(chain: &ChainState) -> (r: MiningInfo)
    ensures
        match recent_tip(chain@) {
            Some((block, height)) => r.blocks == height as u32 && r.bits == block.header.n_bits,
            None => r.blocks == 0 && r.bits == 0,
        },
{
    match chain.get_tip() {
        Ok(Some(tip)) => MiningInfo {
            blocks: #[verifier::truncate] (tip.height as u32),
            bits: tip.block.header.n_bits,
        },
        _ => MiningInfo { blocks: 0, bits: 0 },
    }
}

fn read_transaction(text: &str) -> (r: Result<Transaction, MethodError>)
    ensures
        match r {
            Ok(tx) => transaction_in(text@) == Ok::<TransactionView, MethodError>(tx@),
            Err(e) => transaction_in(text@) == Err::<TransactionView, MethodError>(e),
        },
{
    let raw = match hex_decode(text) {
        Some(raw) => raw,
        None => return Err(MethodError::InvalidHex),
    };
    match Transaction::decode(raw.as_slice()) {
        Ok((tx, _)) => match tx.check_structure() {
            Ok(()) => Ok(tx),
            Err(e) => Err(MethodError::InvalidTransaction(e)),
        },
        Err(_) => Err(MethodError::DecodeFailed),
    }
}

/// Puts a transaction, given as hexadecimal text, into the pool, and tells its name.
pub fn sendrawtransaction(mempool: &mut NetworkMempool, chain: &ChainState, text: &str) -> (r:
    Result<String, MethodError>)
    ensures
        match transaction_in(text@) {
            Ok(tx) => final(mempool)@ == offered(old(mempool)@, chain@.utxos, tx) && match r {
                Ok(name) => admission(old(mempool)@, chain@.utxos, tx) is Ok && name@ == hex_text(
                    tx.txid(),
                ),
                Err(e) => admission(old(mempool)@, chain@.utxos, tx) matches Err(m) && e
                    == MethodError::MempoolRejected(m),
            },
            Err(e) => final(mempool)@ == old(mempool)@ && r == Err::<String, MethodError>(e),
        },
{
    let tx = match read_transaction(text) {
        Ok(tx) => tx,
        Err(e) => return Err(e),
    };
    let name = hex_encode(&tx.txid());
    match mempool.add_transaction(chain, tx) {
        Ok(_) => Ok(name),
        Err(e) => Err(MethodError::MempoolRejected(e)),
    }
}

/// Whether so many blocks may be mined in one call.
pub fn check_block_count(nblocks: u64) -> (r: Result<(), MethodError>)
    ensures
        r == (if 1 <= nblocks <= MAX_MINED_BLOCKS {
            Ok::<(), MethodError>(())
        } else {
            Err::<(), MethodError>(MethodError::InvalidBlockCount)
        }),
{
    if nblocks == 0 || nblocks > MAX_MINED_BLOCKS {
        Err(MethodError::InvalidBlockCount)
    } else {
        Ok(())
    }
}

/// How often a transaction at a height is confirmed.
pub fn confirmations(tip_height: u64, height: u64) -> (n: u64)
    requires
        tip_height < u64::MAX || height > 0,
    ensures
        n == confirmations_at(tip_height, height),
{
    if tip_height >= height {
        tip_height - height + 1
    } else {
        0
    }
}

/// A word for how well the network does.
pub fn health_status(score: u8) -> (r: String)
    ensures
        r@ == health_word(score),
{
    if score >= 80 {
        "excellent".to_owned()
    } else if score >= 60 {
        "good".to_owned()
    } else if score >= 40 {
        "fair".to_owned()
    } else {
        "poor".to_owned()
    }
}

} // verus!
