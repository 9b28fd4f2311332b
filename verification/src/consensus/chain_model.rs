//! What a chain state is, and what a block, a reorganisation and a restart make of
//! it.

use crate::consensus::block::{BlockDataView, BlockHeaderView, BlockView};
use crate::consensus::cache::{cache_after_put, cached, CacheEntries};
use crate::consensus::difficulty::{difficulty_error, DifficultyError};
use crate::consensus::ledger::{scan_block, BlockScan, LedgerError};
use crate::consensus::merkle::zero_hash;
use crate::consensus::params::ChainParams;
use crate::consensus::transaction::{total_value, TransactionView};
use crate::consensus::u256::two_256;
use crate::consensus::utxo::{created_outpoint, spent_outpoint, OutPointView, UtxoError};
use crate::consensus::validation::{
    block_error, height_error, reward_error, timestamp_error, ValidationError,
};
use crate::collections::sort::in_order;
use crate::primitives::bytes::le_bytes;
use crate::storage::blocks::{
    block_at, hash_at_height, header_at, meta_at, with_block, with_index, Lookup,
};
use crate::storage::chain_state::{tip_at, with_tip, ChainTipView};
use crate::storage::convert::undo_bytes;
use crate::storage::db::{replay, row, value_at, ColumnFamily, RowOpView, Rows};
use crate::storage::utxo::{block_applied, block_reverted, outpoints_of, undo_at};
use vstd::prelude::*;

verus! {

/// Number of headers before a block that its timestamp is held against.
pub const MEDIAN_WINDOW: usize = 11;

/// Kinds of errors of a chain.
pub enum ChainFault {
    BlockNotFound,
    InvalidBlock(ValidationError),
    InvalidDifficulty(DifficultyError),
    UtxoError(UtxoError),
    OrphanBlock,
    DbError,
    GenesisMismatch,
}

/// The rows of the three stores of a chain: of blocks, of unspent outputs and of the tip.
#[verifier::ext_equal]
pub struct StoredRows {
    pub blocks: Rows,
    pub utxos: Rows,
    pub state: Rows,
}

impl StoredRows {
    /// Stores without rows.
    pub open spec fn none() -> StoredRows {
        StoredRows { blocks: Map::empty(), utxos: Map::empty(), state: Map::empty() }
    }
}

/// Changes of the three stores of a chain.
pub struct StoredOps {
    pub blocks: Seq<RowOpView>,
    pub utxos: Seq<RowOpView>,
    pub state: Seq<RowOpView>,
}

/// The rows that changes lead to.
pub open spec fn rows_after(rows: StoredRows, ops: StoredOps) -> StoredRows {
    StoredRows {
        blocks: replay(rows.blocks, ops.blocks),
        utxos: replay(rows.utxos, ops.utxos),
        state: replay(rows.state, ops.state),
    }
}

/// Changes with others behind them.
pub open spec fn joined(first: StoredOps, second: StoredOps) -> StoredOps {
    StoredOps {
        blocks: first.blocks + second.blocks,
        utxos: first.utxos + second.utxos,
        state: first.state + second.state,
    }
}

/// What a chain state stands for.
#[verifier::ext_equal]
pub struct ChainView {
    pub params: ChainParams,
    /// Rows of blocks, headers and the index of the active chain.
    pub blocks: Rows,
    /// Rows of unspent outputs and undo data.
    pub utxos: Rows,
    /// Rows of the tip.
    pub state: Rows,
    /// Recent blocks, the one that was put last at the end.
    pub cache: CacheEntries,
    /// How many blocks the cache may hold.
    pub capacity: nat,
    /// Hash of the tip.
    pub tip: Option<Seq<u8>>,
}

/// What an operation on a chain leads to.
pub struct Outcome<T> {
    pub chain: ChainView,
    pub result: Result<T, ChainFault>,
}

impl ChainView {
    /// The rows of the stores.
    pub open spec fn stored(self) -> StoredRows {
        StoredRows { blocks: self.blocks, utxos: self.utxos, state: self.state }
    }

    /// A recent block.
    pub open spec fn cached(self, hash: Seq<u8>) -> Option<BlockDataView> {
        cached(self.cache, hash)
    }

    /// Whether a block is there already.
    pub open spec fn known(self, hash: Seq<u8>) -> bool {
        value_at(self.blocks, ColumnFamily::Blocks, hash) is Some || self.cached(hash) is Some
    }

    /// The chain with one more recent block.
    pub open spec fn with_cached(self, hash: Seq<u8>, data: BlockDataView) -> ChainView {
        ChainView { cache: cache_after_put(self.cache, self.capacity, hash, data), ..self }
    }

    /// The header of a block, among the recent ones or stored.
    pub open spec fn header_of(self, hash: Seq<u8>) -> Option<BlockHeaderView> {
        match self.cached(hash) {
            Some(d) => Some(d.block.header),
            None => match header_at(self.blocks, hash) {
                Ok(Some(h)) => Some(h),
                _ => None,
            },
        }
    }

    /// The height of a block, among the recent ones or stored, or zero.
    pub open spec fn height_of(self, hash: Seq<u8>) -> u64 {
        match self.cached(hash) {
            Some(d) => d.height,
            None => match meta_at(self.blocks, hash) {
                Ok(Some(m)) => m.height,
                _ => 0,
            },
        }
    }

    /// The hash of the predecessor of a block.
    pub open spec fn parent_of(self, hash: Seq<u8>) -> Option<Seq<u8>> {
        match self.header_of(hash) {
            Some(h) => Some(h.prev_block_hash),
            None => None,
        }
    }

    /// A block, among the recent ones or stored.
    pub open spec fn block_of(self, hash: Seq<u8>) -> Result<BlockView, ChainFault> {
        match self.cached(hash) {
            Some(d) => Ok(d.block),
            None => match block_at(self.blocks, hash) {
                Ok(Some(b)) => Ok(b),
                Ok(None) => Err(ChainFault::BlockNotFound),
                Err(_) => Err(ChainFault::DbError),
            },
        }
    }

    /// A block with its height, among the recent ones or stored.
    pub open spec fn block_with_height(self, hash: Seq<u8>) -> Result<
        (BlockView, u64),
        ChainFault,
    > {
        match self.cached(hash) {
            Some(d) => Ok((d.block, d.height)),
            None => match self.block_of(hash) {
                Err(f) => Err(f),
                Ok(b) => match meta_at(self.blocks, hash) {
                    Ok(Some(m)) => Ok((b, m.height)),
                    _ => Err(ChainFault::DbError),
                },
            },
        }
    }

    /// Work of the tip, as far as the tip is among the recent blocks.
    pub open spec fn tip_work(self) -> nat {
        match self.tip {
            None => 0,
            Some(t) => match self.cached(t) {
                Some(d) => d.cumulative_work,
                None => 0,
            },
        }
    }
}

/// Up to `n` headers from a block backwards, ending at one without predecessor.
pub open spec fn ancestors(chain: ChainView, hash: Seq<u8>, n: nat) -> Seq<BlockHeaderView>
    decreases n,
{
    if n == 0 {
        Seq::empty()
    } else {
        match chain.header_of(hash) {
            None => Seq::empty(),
            Some(h) => if h.prev_block_hash == zero_hash() {
                seq![h]
            } else {
                seq![h] + ancestors(chain, h.prev_block_hash, (n - 1) as nat)
            },
        }
    }
}

/// Takes the predecessor of a block from the store into the cache.
pub open spec fn with_parent_cached(chain: ChainView, hash: Seq<u8>) -> Result<
    ChainView,
    ChainFault,
> {
    if chain.cached(hash) is Some {
        Ok(chain)
    } else {
        match block_at(chain.blocks, hash) {
            Ok(Some(b)) => match meta_at(chain.blocks, b.hash()) {
                Ok(Some(m)) => Ok(
                    chain.with_cached(
                        b.hash(),
                        BlockDataView {
                            block: b,
                            height: m.height,
                            cumulative_work: m.cumulative_work,
                        },
                    ),
                ),
                _ => Err(ChainFault::DbError),
            },
            _ => Ok(chain),
        }
    }
}

/// Height and work of a block, given that its header follows from those before
/// it.
pub open spec fn place(chain: ChainView, header: BlockHeaderView, now: u64) -> Outcome<(u64, nat)> {
    let prev = header.prev_block_hash;
    if prev == zero_hash() {
        Outcome { chain, result: Ok((0, header.work())) }
    } else {
        match with_parent_cached(chain, prev) {
            Err(f) => Outcome { chain, result: Err(f) },
            Ok(c) => Outcome { chain: c, result: place_after(c, header, now) },
        }
    }
}

/// Height and work of a block whose predecessor is among the recent blocks.
pub open spec fn place_after(chain: ChainView, header: BlockHeaderView, now: u64) -> Result<
    (u64, nat),
    ChainFault,
> {
    let prev = header.prev_block_hash;
    match chain.cached(prev) {
        None => Err(ChainFault::OrphanBlock),
        Some(d) => match difficulty_error(d.block.header, header, chain.params) {
            Some(e) => Err(ChainFault::InvalidDifficulty(e)),
            None => match timestamp_error(
                header,
                ancestors(chain, prev, MEDIAN_WINDOW as nat),
                now,
            ) {
                Some(e) => Err(ChainFault::InvalidBlock(e)),
                None => if d.height == u64::MAX {
                    Err(ChainFault::DbError)
                } else {
                    Ok(
                        (
                            (d.height + 1) as u64,
                            (d.cumulative_work + header.work()) % two_256(),
                        ),
                    )
                },
            },
        },
    }
}

/// What is wrong with a block at a height, besides what its header says of the
/// headers before it.
pub open spec fn content_error(block: BlockView, height: u64, pow_hash: Seq<u8>) -> Option<
    ValidationError,
> {
    match block_error(block.header, block.transactions, pow_hash) {
        Some(e) => Some(e),
        None => if height > 0 {
            height_error(block.transactions[0], height as u32)
        } else {
            None
        },
    }
}

/// Whether `a` comes before `b` in the order of byte strings.
pub open spec fn bytes_before(a: Seq<u8>, b: Seq<u8>) -> bool {
    exists|i: int|
        0 <= i < a.len() && i < b.len() && #[trigger] a[i] < b[i] && (forall|j: int|
            0 <= j < i ==> a[j] == b[j])
}

/// Whether a block becomes the tip: it has more work than the tip, or as much
/// and a smaller hash.
pub open spec fn becomes_tip(chain: ChainView, hash: Seq<u8>, work: nat) -> bool {
    match chain.tip {
        None => true,
        Some(t) => work > chain.tip_work() || (work == chain.tip_work() && bytes_before(hash, t)),
    }
}

/// The fault that an error of the ledger is reported as.
pub open spec fn ledger_fault(e: LedgerError) -> ChainFault {
    match e {
        LedgerError::Unreadable => ChainFault::DbError,
        LedgerError::Utxo(u) => ChainFault::UtxoError(u),
    }
}

/// The rows of unspent outputs after a block was connected.
pub open spec fn connected_rows(rows: Rows, block: BlockView, scan: BlockScan) -> Rows {
    block_applied(rows, scan.created, outpoints_of(scan.spent)).insert(
        row(ColumnFamily::Undo, block.hash()),
        undo_bytes(scan.spent),
    )
}

/// Connects a block: its transactions are checked against the unspent outputs and
/// its reward against the fees, then the unspent outputs change.
pub open spec fn connect(chain: ChainView, block: BlockView, height: u64) -> Outcome<()> {
    let scan = scan_block(chain.utxos, block, height);
    if scan.error is Some {
        Outcome { chain, result: Err(ledger_fault(scan.error->Some_0)) }
    } else if block.transactions.len() == 0 || total_value(block.transactions[0].outputs)
        > u64::MAX {
        Outcome { chain, result: Err(ChainFault::DbError) }
    } else {
        match reward_error(block.transactions[0], scan.fees as u64, height as u32) {
            Some(e) => Outcome { chain, result: Err(ChainFault::InvalidBlock(e)) },
            None => Outcome {
                chain: ChainView { utxos: connected_rows(chain.utxos, block, scan), ..chain },
                result: Ok(()),
            },
        }
    }
}

/// Two ways back from two blocks.
pub struct Fork {
    pub old_path: Seq<Seq<u8>>,
    pub old_end: Seq<u8>,
    pub new_path: Seq<Seq<u8>>,
    pub new_end: Seq<u8>,
}

/// Goes back from a block while it is above a height. Behind a block whose
/// predecessor is not known the way ends. Nothing where that takes more than
/// `fuel` steps.
pub open spec fn descend(
    chain: ChainView,
    hash: Seq<u8>,
    floor: u64,
    path: Seq<Seq<u8>>,
    fuel: nat,
) -> Option<(Seq<Seq<u8>>, Seq<u8>)>
    decreases fuel,
{
    if chain.height_of(hash) <= floor {
        Some((path, hash))
    } else if fuel == 0 {
        None
    } else {
        match chain.parent_of(hash) {
            None => Some((path.push(hash), hash)),
            Some(p) => descend(chain, p, floor, path.push(hash), (fuel - 1) as nat),
        }
    }
}

/// Goes back from two blocks, in step, until they are one.
pub open spec fn meet(
    chain: ChainView,
    old_hash: Seq<u8>,
    new_hash: Seq<u8>,
    old_path: Seq<Seq<u8>>,
    new_path: Seq<Seq<u8>>,
    fuel: nat,
) -> Option<(Seq<Seq<u8>>, Seq<Seq<u8>>)>
    decreases fuel,
{
    if old_hash == new_hash {
        Some((old_path, new_path))
    } else if old_hash == zero_hash() || new_hash == zero_hash() || fuel == 0 {
        None
    } else {
        match (chain.parent_of(old_hash), chain.parent_of(new_hash)) {
            (Some(p), Some(q)) => meet(
                chain,
                p,
                q,
                old_path.push(old_hash),
                new_path.push(new_hash),
                (fuel - 1) as nat,
            ),
            _ => None,
        }
    }
}

/// Longest way back that is followed.
pub open spec fn max_steps() -> nat {
    u64::MAX as nat
}

/// The blocks that a change of tip disconnects and those that it connects, each
/// from the tip backwards, or nothing where the two tips have no common ancestor.
pub open spec fn fork_paths(chain: ChainView, old_tip: Seq<u8>, new_tip: Seq<u8>) -> Option<
    (Seq<Seq<u8>>, Seq<Seq<u8>>),
> {
    match descend(chain, old_tip, chain.height_of(new_tip), Seq::empty(), max_steps()) {
        None => None,
        Some((old_path, old_end)) => match descend(
            chain,
            new_tip,
            chain.height_of(old_tip),
            Seq::empty(),
            max_steps(),
        ) {
            None => None,
            Some((new_path, new_end)) => meet(
                chain,
                old_end,
                new_end,
                old_path,
                new_path,
                max_steps(),
            ),
        },
    }
}

/// The outpoints of the outputs of a transaction.
pub open spec fn outpoints_created(tx: TransactionView) -> Seq<OutPointView> {
    Seq::new(tx.outputs.len(), |i: int| created_outpoint(tx.txid(), i))
}

/// The outpoints of the outputs of the first `n` transactions.
pub open spec fn block_outpoints(txs: Seq<TransactionView>, n: nat) -> Seq<OutPointView>
    decreases n,
{
    if n == 0 {
        Seq::empty()
    } else {
        block_outpoints(txs, (n - 1) as nat) + outpoints_created(txs[n - 1])
    }
}

/// Disconnects one block: what it created goes, what it spent comes back, and its
/// undo data is dropped.
pub open spec fn disconnect_one(chain: ChainView, hash: Seq<u8>) -> Outcome<()> {
    match chain.block_of(hash) {
        Err(f) => Outcome { chain, result: Err(f) },
        Ok(b) => match undo_at(chain.utxos, hash) {
            Ok(Some(restored)) => Outcome {
                chain: ChainView {
                    utxos: block_reverted(
                        chain.utxos,
                        block_outpoints(b.transactions, b.transactions.len()),
                        restored,
                    ).remove(row(ColumnFamily::Undo, hash)),
                    ..chain
                },
                result: Ok(()),
            },
            _ => Outcome { chain, result: Err(ChainFault::DbError) },
        },
    }
}

/// Disconnects the first `n` blocks of a path, up to the first that cannot be.
pub open spec fn disconnect(chain: ChainView, path: Seq<Seq<u8>>, n: nat) -> Outcome<()>
    decreases n,
{
    if n == 0 {
        Outcome { chain, result: Ok(()) }
    } else {
        let before = disconnect(chain, path, (n - 1) as nat);
        if before.result is Err {
            before
        } else {
            disconnect_one(before.chain, path[n - 1])
        }
    }
}

/// Connects one block of a path and gives it its height in the active chain.
pub open spec fn reconnect_one(chain: ChainView, hash: Seq<u8>) -> Outcome<()> {
    match chain.block_with_height(hash) {
        Err(f) => Outcome { chain, result: Err(f) },
        Ok((b, height)) => {
            let done = connect(chain, b, height);
            if done.result is Err {
                done
            } else {
                Outcome {
                    chain: ChainView {
                        blocks: with_index(done.chain.blocks, height, hash),
                        ..done.chain
                    },
                    result: Ok(()),
                }
            }
        },
    }
}

/// Connects the last `n` blocks of a path, from its end, up to the first that
/// cannot be.
pub open spec fn reconnect(chain: ChainView, path: Seq<Seq<u8>>, n: nat) -> Outcome<()>
    decreases n,
{
    if n == 0 {
        Outcome { chain, result: Ok(()) }
    } else {
        let before = reconnect(chain, path, (n - 1) as nat);
        if before.result is Err {
            before
        } else {
            reconnect_one(before.chain, path[path.len() - n])
        }
    }
}

/// Whether everything that a transaction spends is unspent.
pub open spec fn inputs_unspent(rows: Rows, tx: TransactionView) -> bool {
    forall|i: int|
        0 <= i < tx.inputs.len() ==> value_at(
            rows,
            ColumnFamily::Utxo,
            spent_outpoint(#[trigger] tx.inputs[i]).key(),
        ) is Some
}

/// Those of the first `n` transactions of a block that can still be made: none
/// is the coinbase, and what they spend is unspent.
pub open spec fn still_spendable(rows: Rows, txs: Seq<TransactionView>, n: nat) -> Seq<
    TransactionView,
>
    decreases n,
{
    if n <= 1 {
        Seq::empty()
    } else {
        let before = still_spendable(rows, txs, (n - 1) as nat);
        if inputs_unspent(rows, txs[n - 1]) {
            before.push(txs[n - 1])
        } else {
            before
        }
    }
}

/// The transactions of the first `n` blocks of a path that can still be made.
pub open spec fn requeued(chain: ChainView, path: Seq<Seq<u8>>, n: nat) -> Seq<TransactionView>
    decreases n,
{
    if n == 0 {
        Seq::empty()
    } else {
        let before = requeued(chain, path, (n - 1) as nat);
        match chain.block_of(path[n - 1]) {
            Ok(b) => before + still_spendable(chain.utxos, b.transactions, b.transactions.len()),
            Err(_) => before,
        }
    }
}

/// Moves the tip from one block to another: the blocks down to their common
/// ancestor are disconnected, those up to the new tip connected. What results are
/// the transactions that were disconnected and can still be made. Where a step
/// fails, the steps before it stay done.
pub open spec fn reorganize(chain: ChainView, old_tip: Seq<u8>, new_tip: Seq<u8>) -> Outcome<
    Seq<TransactionView>,
> {
    match fork_paths(chain, old_tip, new_tip) {
        None => Outcome { chain, result: Err(ChainFault::DbError) },
        Some((old_path, new_path)) => {
            let back = disconnect(chain, old_path, old_path.len());
            if back.result is Err {
                Outcome { chain: back.chain, result: Err(back.result->Err_0) }
            } else {
                let forth = reconnect(back.chain, new_path, new_path.len());
                if forth.result is Err {
                    Outcome { chain: forth.chain, result: Err(forth.result->Err_0) }
                } else {
                    Outcome {
                        chain: forth.chain,
                        result: Ok(requeued(forth.chain, old_path, old_path.len())),
                    }
                }
            }
        },
    }
}

/// Makes the block that was put into the cache last the tip.
pub open spec fn extend_tip(
    chain: ChainView,
    block: BlockView,
    height: u64,
    work: nat,
) -> Outcome<Seq<TransactionView>> {
    let hash = block.hash();
    let moved: Outcome<Seq<TransactionView>> = if chain.tip is Some && chain.tip->Some_0
        != block.header.prev_block_hash {
        reorganize(chain, chain.tip->Some_0, hash)
    } else {
        let done = connect(chain, block, height);
        Outcome {
            chain: done.chain,
            result: match done.result {
                Ok(_) => Ok(Seq::empty()),
                Err(f) => Err(f),
            },
        }
    };
    if moved.result is Err {
        moved
    } else {
        Outcome {
            chain: ChainView {
                blocks: with_index(
                    with_block(moved.chain.blocks, block, height, work),
                    height,
                    hash,
                ),
                state: with_tip(
                    moved.chain.state,
                    ChainTipView { hash, height, cumulative_work: work },
                ),
                tip: Some(hash),
                ..moved.chain
            },
            result: moved.result,
        }
    }
}

/// Adds a valid block: as the tip where it has the most work, else beside the
/// active chain.
pub open spec fn accept(
    chain: ChainView,
    block: BlockView,
    height: u64,
    work: nat,
) -> Outcome<Seq<TransactionView>> {
    let hash = block.hash();
    let c = chain.with_cached(hash, BlockDataView { block, height, cumulative_work: work });
    if becomes_tip(c, hash, work) {
        extend_tip(c, block, height, work)
    } else {
        Outcome {
            chain: ChainView { blocks: with_block(c.blocks, block, height, work), ..c },
            result: Ok(Seq::empty()),
        }
    }
}

/// Adds a block, given its proof-of-work hash and the time. A block that is there
/// already changes nothing.
pub open spec fn add_block(
    chain: ChainView,
    block: BlockView,
    pow_hash: Seq<u8>,
    now: u64,
) -> Outcome<Seq<TransactionView>> {
    if chain.known(block.hash()) {
        Outcome { chain, result: Ok(Seq::empty()) }
    } else {
        let placed = place(chain, block.header, now);
        match placed.result {
            Err(f) => Outcome { chain: placed.chain, result: Err(f) },
            Ok((height, work)) => match content_error(block, height, pow_hash) {
                Some(e) => Outcome {
                    chain: placed.chain,
                    result: Err(ChainFault::InvalidBlock(e)),
                },
                None => accept(placed.chain, block, height, work),
            },
        }
    }
}

/// Hashes from a block backwards, at most `n`, ending at one without predecessor.
/// Nothing where a header is missing.
pub open spec fn recent_hashes(rows: Rows, hash: Seq<u8>, n: nat) -> Option<Seq<Seq<u8>>>
    decreases n,
{
    if n <= 1 {
        Some(seq![hash])
    } else {
        match header_at(rows, hash) {
            Ok(Some(h)) => if h.prev_block_hash == zero_hash() {
                Some(seq![hash])
            } else {
                match recent_hashes(rows, h.prev_block_hash, (n - 1) as nat) {
                    Some(rest) => Some(seq![hash] + rest),
                    None => None,
                }
            },
            _ => None,
        }
    }
}

/// Loads the last `n` blocks of a path into the cache, from its end. Each has to
/// be filed under its own hash and to follow the one before it. Nothing where one
/// is missing or does not.
pub open spec fn load_blocks(chain: ChainView, path: Seq<Seq<u8>>, n: nat) -> Option<ChainView>
    decreases n,
{
    if n == 0 {
        Some(chain)
    } else {
        match load_blocks(chain, path, (n - 1) as nat) {
            None => None,
            Some(c) => {
                let hash = path[path.len() - n];
                match (block_at(c.blocks, hash), meta_at(c.blocks, hash)) {
                    (Ok(Some(b)), Ok(Some(m))) => if b.hash() != hash {
                        None
                    } else if n > 1 && b.header.prev_block_hash != path[path.len() - n + 1] {
                        None
                    } else {
                        let loaded = c.with_cached(
                            hash,
                            BlockDataView {
                                block: b,
                                height: m.height,
                                cumulative_work: m.cumulative_work,
                            },
                        );
                        Some(
                            ChainView {
                                blocks: with_index(loaded.blocks, m.height, hash),
                                ..loaded
                            },
                        )
                    },
                    _ => None,
                }
            },
        }
    }
}

/// The chain after a restart: with the blocks up to the stored tip in the cache,
/// as many as it holds. Nothing where the stored chain cannot be read.
pub open spec fn recovered(chain: ChainView) -> Option<ChainView> {
    match tip_at(chain.state) {
        Err(_) => None,
        Ok(None) => Some(chain),
        Ok(Some(tip)) => match recent_hashes(chain.blocks, tip.hash, chain.capacity) {
            None => None,
            Some(path) => match load_blocks(chain, path, path.len()) {
                None => None,
                Some(c) => Some(ChainView { tip: Some(tip.hash), ..c }),
            },
        },
    }
}

/// Timestamps of up to `n` recent blocks, from a block backwards.
pub open spec fn recent_times(chain: ChainView, hash: Seq<u8>, n: nat) -> Seq<u64>
    decreases n,
{
    if n == 0 {
        Seq::empty()
    } else {
        match chain.cached(hash) {
            None => Seq::empty(),
            Some(d) => if d.block.header.prev_block_hash == zero_hash() {
                seq![d.block.header.timestamp]
            } else {
                seq![d.block.header.timestamp] + recent_times(
                    chain,
                    d.block.header.prev_block_hash,
                    (n - 1) as nat,
                )
            },
        }
    }
}

/// Median of the timestamps of the last blocks; of an even number, the higher of
/// the two in the middle.
pub open spec fn median_time(chain: ChainView) -> u64 {
    match chain.tip {
        None => 0,
        Some(t) => {
            let times = recent_times(chain, t, MEDIAN_WINDOW as nat);
            if times.len() == 0 {
                0
            } else {
                in_order(times)[times.len() as int / 2]
            }
        },
    }
}

/// The next step of a locator: from the tenth entry on it doubles.
pub open spec fn locator_step(count: nat, step: u64) -> u64 {
    if count >= 10 {
        if step > u64::MAX / 2 {
            u64::MAX
        } else {
            (step * 2) as u64
        }
    } else {
        step
    }
}

/// What follows the first `count` entries of a locator, the last of which is at a
/// height.
pub open spec fn locator_rest(rows: Rows, count: nat, height: u64, step: u64) -> Seq<
    (Seq<u8>, u64),
>
    decreases height,
{
    if height == 0 || step == 0 {
        Seq::empty()
    } else {
        let s = locator_step(count, step);
        let h = if height > s {
            (height - s) as u64
        } else {
            0
        };
        match hash_at_height(rows, h) {
            Ok(Some(hash)) => seq![(hash, h)] + locator_rest(rows, count + 1, h, s),
            _ => Seq::empty(),
        }
    }
}

/// Hashes of the active chain from the tip down to the first block: the last ten
/// one by one, then at distances that double.
pub open spec fn locator(chain: ChainView) -> Seq<(Seq<u8>, u64)> {
    match tip_at(chain.state) {
        Ok(Some(tip)) => seq![(tip.hash, tip.height)] + locator_rest(
            chain.blocks,
            1,
            tip.height,
            1,
        ),
        _ => seq![(zero_hash(), 0u64)],
    }
}

/// A block that was added is known, and adding it again changes nothing.
pub proof fn lemma_add_block_once(chain: ChainView, block: BlockView, pow_hash: Seq<u8>, now: u64)
    requires
        add_block(chain, block, pow_hash, now).result is Ok,
    ensures
        ({
            let first = add_block(chain, block, pow_hash, now);
            let second = add_block(first.chain, block, pow_hash, now);
            &&& first.chain.known(block.hash())
            &&& second.chain == first.chain
            &&& second.result == Ok::<Seq<TransactionView>, ChainFault>(Seq::empty())
        }),
{
    broadcast use crate::storage::db::lemma_row_injective;

}

/// A block that is refused for what it holds, or for where it stands, leaves
/// blocks, unspent outputs and tip as they were.
pub proof fn lemma_refused_block_changes_nothing(
    chain: ChainView,
    block: BlockView,
    pow_hash: Seq<u8>,
    now: u64,
)
    requires
        !chain.known(block.hash()),
        ({
            let placed = place(chain, block.header, now);
            placed.result is Err || content_error(
                block,
                placed.result->Ok_0.0,
                pow_hash,
            ) is Some
        }),
    ensures
        ({
            let after = add_block(chain, block, pow_hash, now);
            &&& after.result is Err
            &&& after.chain.blocks == chain.blocks
            &&& after.chain.utxos == chain.utxos
            &&& after.chain.state == chain.state
            &&& after.chain.tip == chain.tip
            &&& after.chain.params == chain.params
        }),
{
}

/// Disconnecting and connecting blocks moves neither tip nor cache.
pub proof fn lemma_disconnect_keeps(chain: ChainView, path: Seq<Seq<u8>>, n: nat)
    ensures
        ({
            let after = disconnect(chain, path, n).chain;
            after == (ChainView { utxos: after.utxos, ..chain })
        }),
    decreases n,
{
    if n > 0 {
        lemma_disconnect_keeps(chain, path, (n - 1) as nat);
    }
}

pub proof fn lemma_reconnect_keeps(chain: ChainView, path: Seq<Seq<u8>>, n: nat)
    ensures
        ({
            let after = reconnect(chain, path, n).chain;
            after == (ChainView { utxos: after.utxos, blocks: after.blocks, ..chain })
        }),
    decreases n,
{
    if n > 0 {
        lemma_reconnect_keeps(chain, path, (n - 1) as nat);
    }
}

/// A chain with a block among the recent ones, as it is when the block is weighed against the
/// tip.
pub open spec fn weighed(chain: ChainView, block: BlockView, now: u64) -> ChainView {
    let placed = place(chain, block.header, now);
    match placed.result {
        Ok((height, work)) => placed.chain.with_cached(
            block.hash(),
            BlockDataView { block, height, cumulative_work: work },
        ),
        Err(_) => placed.chain,
    }
}

/// The tip changes only to the block that was added, and only where that has at
/// least the work of the tip, as long as the tip is still among the recent blocks.
pub proof fn lemma_tip_never_loses_work(
    chain: ChainView,
    block: BlockView,
    pow_hash: Seq<u8>,
    now: u64,
)
    requires
        chain.tip matches Some(t) ==> weighed(chain, block, now).cached(t) is Some,
    ensures
        ({
            let after = add_block(chain, block, pow_hash, now);
            let placed = place(chain, block.header, now);
            after.chain.tip == chain.tip || (after.chain.tip == Some(block.hash())
                && placed.result is Ok && (chain.tip matches Some(t) ==> placed.result->Ok_0.1
                >= weighed(chain, block, now).cached(t)->Some_0.cumulative_work))
        }),
{
    let placed = place(chain, block.header, now);
    if !chain.known(block.hash()) && placed.result is Ok {
        let (height, work) = placed.result->Ok_0;
        if content_error(block, height, pow_hash) is None {
            let hash = block.hash();
            let c = placed.chain.with_cached(
                hash,
                BlockDataView { block, height, cumulative_work: work },
            );
            if becomes_tip(c, hash, work) && c.tip is Some && c.tip->Some_0
                != block.header.prev_block_hash {
                let old_tip = c.tip->Some_0;
                if let Some((old_path, new_path)) = fork_paths(c, old_tip, hash) {
                    lemma_disconnect_keeps(c, old_path, old_path.len());
                    let back = disconnect(c, old_path, old_path.len());
                    lemma_reconnect_keeps(back.chain, new_path, new_path.len());
                }
            }
        }
    }
}

/// A block that became the tip is the tip that a restart finds.
pub proof fn lemma_new_tip_is_stored(
    chain: ChainView,
    block: BlockView,
    height: u64,
    work: crate::consensus::u256::U256,
)
    requires
        block.hash().len() == 32,
        extend_tip(chain, block, height, work@).result is Ok,
    ensures
        tip_at(extend_tip(chain, block, height, work@).chain.state) == Lookup::<
            ChainTipView,
        >::Ok(Some(ChainTipView { hash: block.hash(), height, cumulative_work: work@ })),
        hash_at_height(extend_tip(chain, block, height, work@).chain.blocks, height) == Lookup::<
            Seq<u8>,
        >::Ok(Some(block.hash())),
{
    broadcast use crate::storage::db::lemma_row_injective;

    crate::storage::chain_state::lemma_state_keys_differ();
    crate::primitives::bytes::lemma_le_bytes_len(height as nat, 8);
    crate::primitives::bytes::lemma_le_bytes_len(work@, 32);
    crate::primitives::bytes::lemma_byte_range_values();
    crate::primitives::bytes::lemma_le_value_of_bytes(height as nat, 8);
    crate::consensus::u256::lemma_u256_bound(work);
    crate::primitives::bytes::lemma_le_value_of_bytes(work@, 32);
    assert(le_bytes(work@, 32).take(32) =~= le_bytes(work@, 32));
}

/// The heights of a locator fall from entry to entry.
pub proof fn lemma_locator_descends(rows: Rows, count: nat, height: u64, step: u64)
    ensures
        ({
            let rest = locator_rest(rows, count, height, step);
            &&& forall|i: int| 0 <= i < rest.len() ==> (#[trigger] rest[i]).1 < height
            &&& forall|i: int, j: int|
                0 <= i < j < rest.len() ==> (#[trigger] rest[i]).1 > (#[trigger] rest[j]).1
        }),
    decreases height,
{
    if height > 0 && step > 0 {
        let s = locator_step(count, step);
        let h = if height > s {
            (height - s) as u64
        } else {
            0
        };
        if let Ok(Some(hash)) = hash_at_height(rows, h) {
            lemma_locator_descends(rows, count + 1, h, s);
            let rest = locator_rest(rows, count, height, step);
            let tail = locator_rest(rows, count + 1, h, s);
            assert(rest == seq![(hash, h)] + tail);
            assert forall|i: int| 0 <= i < rest.len() implies (#[trigger] rest[i]).1 < height by {
                if i > 0 {
                    assert(rest[i] == tail[i - 1]);
                }
            }
            assert forall|i: int, j: int| 0 <= i < j < rest.len() implies (#[trigger] rest[i]).1
                > (#[trigger] rest[j]).1 by {
                assert(rest[j] == tail[j - 1]);
                if i > 0 {
                    assert(rest[i] == tail[i - 1]);
                }
            }
        }
    }
}

proof fn lemma_disconnect_keeps_params(chain: ChainView, path: Seq<Seq<u8>>, n: nat)
    ensures
        disconnect(chain, path, n).chain.params == chain.params,
    decreases n,
{
    if n > 0 {
        lemma_disconnect_keeps_params(chain, path, (n - 1) as nat);
    }
}

proof fn lemma_reconnect_keeps_params(chain: ChainView, path: Seq<Seq<u8>>, n: nat)
    ensures
        reconnect(chain, path, n).chain.params == chain.params,
    decreases n,
{
    if n > 0 {
        lemma_reconnect_keeps_params(chain, path, (n - 1) as nat);
    }
}

/// Adding a block leaves the parameters of a chain as they are.
pub proof fn lemma_add_block_keeps_params(
    chain: ChainView,
    block: BlockView,
    pow_hash: Seq<u8>,
    now: u64,
)
    ensures
        add_block(chain, block, pow_hash, now).chain.params == chain.params,
{
    assert forall|c: ChainView, path: Seq<Seq<u8>>, n: nat| #[trigger]
        disconnect(c, path, n).chain.params == c.params by {
        lemma_disconnect_keeps_params(c, path, n);
    }
    assert forall|c: ChainView, path: Seq<Seq<u8>>, n: nat| #[trigger]
        reconnect(c, path, n).chain.params == c.params by {
        lemma_reconnect_keeps_params(c, path, n);
    }
}

} // verus!
