//! The chain state: blocks are added to it, and it moves to the chain with the
//! most work.

use crate::collections::sort::{lemma_in_order, sort_numbers};
use crate::consensus::block::{Block, BlockData, BlockHeader, BlockHeaderView, BlockView, U256};
use crate::consensus::cache::{
    cache_cap, cache_capacity, cache_entries, cache_peek, cache_put, entry_index, new_cache,
    CacheEntries,
};
use crate::consensus::chain_model::{
    accept, add_block, ancestors, becomes_tip, block_outpoints, bytes_before, connect, connected_rows,
    descend, disconnect, disconnect_one, extend_tip, fork_paths, inputs_unspent, joined,
    lemma_add_block_keeps_params, load_blocks, locator, locator_rest, max_steps, median_time, meet,
    outpoints_created, place, recent_hashes, recent_times, reconnect, reconnect_one, recovered,
    reorganize, requeued, rows_after, still_spendable, with_parent_cached, ChainFault, ChainView,
    StoredOps, StoredRows,
    MEDIAN_WINDOW,
};
use crate::consensus::difficulty::{validate_difficulty, DifficultyError};
use crate::consensus::ledger::{apply_block_to_utxo, scan_block, LedgerError};
use crate::consensus::merkle::zero_hash;
use crate::consensus::params::ChainParams;
use crate::consensus::restart::{
    followed, header_agrees, indexed, lasting, lemma_filed_with_block,
    lemma_filed_with_header, lemma_filed_with_headers, lemma_index_alone,
    lemma_lasting_beside_index, lemma_lasting_with_blocks, lemma_reorganize_beside_index,
    lemma_restart_finds_the_chain, loaded_path,
};
use crate::consensus::soundness::{
    endures, lemma_added_stays_sound, lemma_place_is_sound, lemma_sound_chain_restarts,
    lemma_sound_with_blocks, sound,
};
use crate::consensus::transaction::{Transaction, TransactionView};
use crate::consensus::utxo::{spent_outpoint, OutPoint, UtxoEntry, UtxoEntryView, UtxoError};
use crate::consensus::validation::{
    validate_block, validate_coinbase_height, validate_coinbase_reward, validate_timestamp_at,
    ValidationError,
};
use crate::primitives::bytes::bytes_equal;
use crate::primitives::clock::{clock_showed, read_clock};
use crate::primitives::hash::Hash256;
use crate::primitives::serialize::views;
use crate::storage::blocks::{
    block_at_height, block_stored, found, hash_at_height, header_at_height,
    lemma_headers_keep_index, with_block, with_header, with_headers, BlockStore, Lookup,
};
use crate::storage::chain_state::{lemma_tip_reads_back, ChainStateStore, ChainTip};
use crate::storage::convert::pair_views;
use crate::storage::db::{
    lemma_replay_concat, row, value_at, ColumnFamily, Database, Rows,
};
use crate::storage::utxo::{entry_at, outpoint_views, outpoints_of, UtxoStore};
use lru::LruCache;
use vstd::prelude::*;

verus! {

/// Why a block was not added.
#[derive(Debug, PartialEq, Eq)]
pub enum ChainError {
    BlockNotFound,
    InvalidBlock(ValidationError),
    InvalidDifficulty(DifficultyError),
    UtxoError(UtxoError),
    OrphanBlock,
    DbError(String),
    GenesisMismatch,
}

impl ChainError {
    /// The kind of the error.
    pub open spec fn fault(self) -> ChainFault {
        match self {
            ChainError::BlockNotFound => ChainFault::BlockNotFound,
            ChainError::InvalidBlock(e) => ChainFault::InvalidBlock(e),
            ChainError::InvalidDifficulty(e) => ChainFault::InvalidDifficulty(e),
            ChainError::UtxoError(e) => ChainFault::UtxoError(e),
            ChainError::OrphanBlock => ChainFault::OrphanBlock,
            ChainError::DbError(_) => ChainFault::DbError,
            ChainError::GenesisMismatch => ChainFault::GenesisMismatch,
        }
    }
}

impl From<String> for ChainError {
    fn from(e: String) -> (r: Self) {
        ChainError::DbError(e)
    }
}

impl vstd::std_specs::convert::FromSpecImpl<String> for ChainError {
    open spec fn obeys_from_spec() -> bool {
        true
    }

    open spec fn from_spec(e: String) -> ChainError {
        ChainError::DbError(e)
    }
}

/// Number of recent blocks that are kept in memory.
pub const BLOCK_CACHE_SIZE: usize = 2048;

/// The chain with its storage.
pub struct ChainState {
    pub params: ChainParams,
    pub block_store: BlockStore,
    pub utxo_store: UtxoStore,
    pub state_store: ChainStateStore,
    // Recent blocks by hash, to bound memory usage. Older blocks are served from
    // the store.
    pub blocks: LruCache<Hash256, BlockData>,
    // Cached tip (synced with storage)
    pub tip: Option<Hash256>,
}

impl View for ChainState {
    type V = ChainView;

    open spec fn view(&self) -> ChainView {
        ChainView {
            params: self.params,
            blocks: self.block_store@,
            utxos: self.utxo_store@,
            state: self.state_store@,
            cache: self.recent(),
            capacity: self.recent_capacity(),
            tip: self.tip_hash(),
        }
    }
}

/// The result of an operation that hands out transactions is what the
/// specification says.
pub open spec fn gives(
    r: Result<Vec<Transaction>, ChainError>,
    want: Result<Seq<TransactionView>, ChainFault>,
) -> bool {
    match r {
        Ok(txs) => want == Ok::<Seq<TransactionView>, ChainFault>(views(txs@)),
        Err(e) => want == Err::<Seq<TransactionView>, ChainFault>(e.fault()),
    }
}

/// The result of an operation without result is what the specification says.
pub open spec fn succeeds(r: Result<(), ChainError>, want: Result<(), ChainFault>) -> bool {
    match r {
        Ok(_) => want is Ok,
        Err(e) => want == Err::<(), ChainFault>(e.fault()),
    }
}

fn db_error(message: &str) -> (e: ChainError)
    ensures
        e.fault() == ChainFault::DbError,
{
    ChainError::DbError(message.to_owned())
}

fn is_zero(hash: &Hash256) -> (r: bool)
    ensures
        r == (hash@ == zero_hash()),
{
    let zero: Hash256 = [0u8; 32];
    assert(zero@ =~= zero_hash());
    bytes_equal(hash, &zero)
}

fn hash_before(a: &Hash256, b: &Hash256) -> (r: bool)
    ensures
        r == bytes_before(a@, b@),
{
    let mut i: usize = 0;
    while i < 32
        invariant
            i <= 32,
            forall|j: int| 0 <= j < i ==> a@[j] == b@[j],
        decreases 32 - i,
    {
        if a[i] < b[i] {
            return true;
        }
        if a[i] > b[i] {
            proof {
                if bytes_before(a@, b@) {
                    let k = choose|k: int|
                        0 <= k < a@.len() && k < b@.len() && #[trigger] a@[k] < b@[k] && (forall|
                            j: int,
                        |
                            0 <= j < k ==> a@[j] == b@[j]);
                    if k > i {
                        assert(a@[i as int] == b@[i as int]);
                    }
                }
            }
            return false;
        }
        i += 1;
    }
    false
}

impl ChainState {
    /// Recent blocks, the one that was put last at the end.
    pub open spec fn recent(&self) -> CacheEntries {
        cache_entries(self.blocks)
    }

    /// How many recent blocks are kept.
    pub open spec fn recent_capacity(&self) -> nat {
        cache_capacity(self.blocks)
    }

    /// Hash of the tip.
    pub open spec fn tip_hash(&self) -> Option<Seq<u8>> {
        match self.tip {
            Some(h) => Some(h@),
            None => None,
        }
    }

    /// The rows of the stores when they were last saved.
    pub open spec fn saved(&self) -> StoredRows {
        StoredRows {
            blocks: self.block_store.saved(),
            utxos: self.utxo_store.saved(),
            state: self.state_store.saved(),
        }
    }

    /// The chain that holds what was stored before.
    pub open spec fn stored_chain(
        params: ChainParams,
        blocks: Rows,
        utxos: Rows,
        state: Rows,
    ) -> ChainView {
        ChainView {
            params,
            blocks,
            utxos,
            state,
            cache: Seq::empty(),
            capacity: BLOCK_CACHE_SIZE as nat,
            tip: None,
        }
    }

    /// Create new chain state over what was stored: blocks, unspent outputs and
    /// the tip.
    pub fn new(params: ChainParams, blocks: Database, utxos: Database, state: Database) -> (r:
        Result<Self, String>)
        ensures
            match r {
                Ok(chain) => recovered(
                    ChainState::stored_chain(params, blocks@, utxos@, state@),
                ) == Some(chain@) && chain.saved() == (StoredRows {
                    blocks: blocks.saved(),
                    utxos: utxos.saved(),
                    state: state.saved(),
                }),
                Err(_) => recovered(
                    ChainState::stored_chain(params, blocks@, utxos@, state@),
                ) is None,
            },
    {
        let mut chain = ChainState {
            params,
            block_store: BlockStore::new(blocks),
            utxo_store: UtxoStore::new(utxos),
            state_store: ChainStateStore::new(state),
            blocks: new_cache(BLOCK_CACHE_SIZE),
            tip: None,
        };
        match chain.recover_from_storage() {
            Ok(()) => Ok(chain),
            Err(e) => Err(e),
        }
    }

    /// Create chain state without anything stored.
    pub fn new_in_memory(params: ChainParams) -> (r: Result<Self, String>)
        ensures
            r matches Ok(chain) && chain@ == ChainState::stored_chain(
                params,
                Map::empty(),
                Map::empty(),
                Map::empty(),
            ) && chain.saved() == StoredRows::none() && sound(chain@),
    {
        let chain = ChainState::new(params, Database::new(), Database::new(), Database::new());
        proof {
            let c = ChainState::stored_chain(params, Map::empty(), Map::empty(), Map::empty());
            assert forall|x: Seq<u8>| #[trigger] c.cached(x) is None by {
                assert(entry_index(c.cache, x) is None);
            }
        }
        chain
    }

    /// Recover chain state from storage
    fn recover_from_storage(&mut self) -> (r: Result<(), String>)
        requires
            old(self)@.capacity > 0,
        ensures
            match r {
                Ok(_) => recovered(old(self)@) == Some(final(self)@),
                Err(_) => recovered(old(self)@) is None,
            },
            final(self).saved() == old(self).saved(),
    {
        let chain_tip = match self.state_store.get_tip() {
            Ok(Some(tip)) => tip,
            Ok(None) => return Ok(()),
            Err(e) => return Err(e),
        };
        let cache_capacity = cache_cap(&self.blocks);
        let chain_hashes = match self.collect_recent(&chain_tip.hash, cache_capacity) {
            Some(hashes) => hashes,
            None => return Err("Missing header".to_owned()),
        };
        match self.load_recent(&chain_hashes) {
            Ok(()) => {},
            Err(e) => return Err(e),
        }
        self.tip = Some(chain_tip.hash);
        Ok(())
    }

    /// Walk backwards from a block, collecting up to `limit` hashes.
    fn collect_recent(&self, hash: &Hash256, limit: usize) -> (r: Option<Vec<Hash256>>)
        requires
            limit > 0,
        ensures
            match r {
                Some(hashes) => recent_hashes(self@.blocks, hash@, limit as nat) == Some(
                    views(hashes@),
                ),
                None => recent_hashes(self@.blocks, hash@, limit as nat) is None,
            },
    {
        let ghost whole = recent_hashes(self@.blocks, hash@, limit as nat);
        let mut hashes: Vec<Hash256> = Vec::new();
        let mut current: Hash256 = *hash;
        let mut left: usize = limit;
        assert(views(hashes@) =~= Seq::empty());
        loop
            invariant
                1 <= left <= limit,
                whole == recent_hashes(self@.blocks, hash@, limit as nat),
                match recent_hashes(self@.blocks, current@, left as nat) {
                    Some(rest) => whole == Some(views(hashes@) + rest),
                    None => whole is None,
                },
            decreases left,
        {
            let ghost before = views(hashes@);
            hashes.push(current);
            assert(views(hashes@) =~= before + seq![current@]);
            if left == 1 {
                return Some(hashes);
            }
            let header = match self.block_store.get_header(&current) {
                Ok(Some(header)) => header,
                _ => return None,
            };
            if is_zero(&header.prev_block_hash) {
                return Some(hashes);
            }
            proof {
                if let Some(rest) = recent_hashes(
                    self@.blocks,
                    header.prev_block_hash@,
                    (left - 1) as nat,
                ) {
                    assert(before + (seq![current@] + rest) =~= views(hashes@) + rest);
                }
            }
            current = header.prev_block_hash;
            left -= 1;
        }
    }

    /// Loads blocks oldest-first into the cache. Height and work come from the
    /// stored metadata. Two things are enforced per block: its hash is the key it
    /// is filed under, and it follows the block before it. The index of the active
    /// chain is repaired on the way.
    #[verifier::spinoff_prover]
    fn load_recent(&mut self, path: &Vec<Hash256>) -> (r: Result<(), String>)
        ensures
            match r {
                Ok(_) => load_blocks(old(self)@, views(path@), path@.len()) == Some(final(self)@),
                Err(_) => load_blocks(old(self)@, views(path@), path@.len()) is None,
            },
            final(self).saved() == old(self).saved(),
    {
        let ghost start = self@;
        let ghost hashes = views(path@);
        let mut n: usize = 0;
        while n < path.len()
            invariant
                n <= path.len(),
                hashes == views(path@),
                start == old(self)@,
                load_blocks(start, hashes, n as nat) == Some(self@),
                self.saved() == old(self).saved(),
            decreases path.len() - n,
        {
            let hash = path[path.len() - 1 - n];
            let ghost m = (n + 1) as nat;
            assert(hashes[hashes.len() - m] == hash@);
            proof {
                if load_blocks(start, hashes, m) is None {
                    lemma_load_failure_stays(start, hashes, m, hashes.len());
                }
            }
            let block = match self.block_store.get_block(&hash) {
                Ok(Some(block)) => block,
                Ok(None) => return Err("Missing block".to_owned()),
                Err(e) => return Err(e),
            };
            let meta = match self.block_store.get_block_meta(&hash) {
                Ok(Some(meta)) => meta,
                Ok(None) => return Err("Missing block meta".to_owned()),
                Err(e) => return Err(e),
            };
            let block_hash = block.header.hash();
            if !bytes_equal(&block_hash, &hash) {
                return Err("Recovery: hash mismatch".to_owned());
            }
            if n > 0 {
                let expected = path[path.len() - n];
                assert(hashes[hashes.len() - m + 1] == expected@);
                if !bytes_equal(&block.header.prev_block_hash, &expected) {
                    return Err("Recovery: chain linkage broken".to_owned());
                }
            }
            let data = BlockData {
                block,
                height: meta.height,
                cumulative_work: meta.cumulative_work,
            };
            cache_put(&mut self.blocks, block_hash, data);
            let _ = self.block_store.update_height_index(meta.height, &block_hash);
            n += 1;
        }
        Ok(())
    }

    fn height_of_block(&self, hash: &Hash256) -> (height: u64)
        ensures
            height == self@.height_of(hash@),
    {
        match cache_peek(&self.blocks, hash) {
            Some(d) => d.height,
            None => match self.block_store.get_block_meta(hash) {
                Ok(Some(m)) => m.height,
                _ => 0,
            },
        }
    }

    fn header_of_block(&self, hash: &Hash256) -> (r: Option<BlockHeader>)
        ensures
            match r {
                Some(h) => self@.header_of(hash@) == Some(h@),
                None => self@.header_of(hash@) is None,
            },
    {
        match cache_peek(&self.blocks, hash) {
            Some(d) => Some(d.block.header),
            None => match self.block_store.get_header(hash) {
                Ok(Some(h)) => Some(h),
                _ => None,
            },
        }
    }

    fn load_block(&self, hash: &Hash256) -> (r: Result<Block, ChainError>)
        ensures
            match r {
                Ok(b) => self@.block_of(hash@) == Ok::<BlockView, ChainFault>(b@),
                Err(e) => self@.block_of(hash@) == Err::<BlockView, ChainFault>(e.fault()),
            },
    {
        match cache_peek(&self.blocks, hash) {
            Some(d) => Ok(d.block.clone()),
            None => match self.block_store.get_block(hash) {
                Ok(Some(b)) => Ok(b),
                Ok(None) => Err(ChainError::BlockNotFound),
                Err(e) => Err(ChainError::DbError(e)),
            },
        }
    }

    fn load_block_with_height(&self, hash: &Hash256) -> (r: Result<(Block, u64), ChainError>)
        ensures
            match r {
                Ok((b, h)) => self@.block_with_height(hash@) == Ok::<(BlockView, u64), ChainFault>(
                    (b@, h),
                ),
                Err(e) => self@.block_with_height(hash@) == Err::<(BlockView, u64), ChainFault>(
                    e.fault(),
                ),
            },
    {
        match cache_peek(&self.blocks, hash) {
            Some(d) => Ok((d.block.clone(), d.height)),
            None => {
                let b = match self.load_block(hash) {
                    Ok(b) => b,
                    Err(e) => return Err(e),
                };
                match self.block_store.get_block_meta(hash) {
                    Ok(Some(m)) => Ok((b, m.height)),
                    Ok(None) => Err(db_error("Missing block meta")),
                    Err(e) => Err(ChainError::DbError(e)),
                }
            },
        }
    }

    /// Goes back from a block while it is above a height.
    fn descend_to(&self, hash: &Hash256, floor: u64) -> (r: Option<(Vec<Hash256>, Hash256)>)
        ensures
            match r {
                Some((path, end)) => descend(self@, hash@, floor, Seq::empty(), max_steps())
                    == Some((views(path@), end@)),
                None => descend(self@, hash@, floor, Seq::empty(), max_steps()) is None,
            },
    {
        let ghost whole = descend(self@, hash@, floor, Seq::empty(), max_steps());
        let mut path: Vec<Hash256> = Vec::new();
        let mut current: Hash256 = *hash;
        let mut fuel: u64 = u64::MAX;
        assert(views(path@) =~= Seq::empty());
        while self.height_of_block(&current) > floor
            invariant
                whole == descend(self@, hash@, floor, Seq::empty(), max_steps()),
                whole == descend(self@, current@, floor, views(path@), fuel as nat),
            ensures
                whole == Some((views(path@), current@)),
            decreases fuel,
        {
            if fuel == 0 {
                return None;
            }
            let ghost before = views(path@);
            path.push(current);
            assert(views(path@) =~= before.push(current@));
            match self.header_of_block(&current) {
                Some(h) => {
                    current = h.prev_block_hash;
                },
                None => {
                    return Some((path, current));
                },
            }
            fuel -= 1;
        }
        Some((path, current))
    }

    /// The blocks that a change of tip disconnects and those that it connects.
    fn find_fork(&self, old_tip: &Hash256, new_tip: &Hash256) -> (r: Option<
        (Vec<Hash256>, Vec<Hash256>),
    >)
        ensures
            match r {
                Some((old_path, new_path)) => fork_paths(self@, old_tip@, new_tip@) == Some(
                    (views(old_path@), views(new_path@)),
                ),
                None => fork_paths(self@, old_tip@, new_tip@) is None,
            },
    {
        let old_height: u64 = self.height_of_block(old_tip);
        let new_height: u64 = self.height_of_block(new_tip);
        let (mut old_path, mut old_curr) = match self.descend_to(old_tip, new_height) {
            Some(p) => p,
            None => return None,
        };
        let (mut new_path, mut new_curr) = match self.descend_to(new_tip, old_height) {
            Some(p) => p,
            None => return None,
        };
        let ghost whole = fork_paths(self@, old_tip@, new_tip@);
        let mut fuel: u64 = u64::MAX;
        while !bytes_equal(&old_curr, &new_curr)
            invariant
                whole == fork_paths(self@, old_tip@, new_tip@),
                whole == meet(
                    self@,
                    old_curr@,
                    new_curr@,
                    views(old_path@),
                    views(new_path@),
                    fuel as nat,
                ),
            decreases fuel,
        {
            if is_zero(&old_curr) || is_zero(&new_curr) || fuel == 0 {
                return None;
            }
            let old_header = match self.header_of_block(&old_curr) {
                Some(h) => h,
                None => return None,
            };
            let new_header = match self.header_of_block(&new_curr) {
                Some(h) => h,
                None => return None,
            };
            let ghost old_before = views(old_path@);
            let ghost new_before = views(new_path@);
            old_path.push(old_curr);
            new_path.push(new_curr);
            assert(views(old_path@) =~= old_before.push(old_curr@));
            assert(views(new_path@) =~= new_before.push(new_curr@));
            old_curr = old_header.prev_block_hash;
            new_curr = new_header.prev_block_hash;
            fuel -= 1;
        }
        Some((old_path, new_path))
    }

    fn created_outpoints(block: &Block) -> (r: Vec<OutPoint>)
        ensures
            outpoint_views(r@) == block_outpoints(
                block@.transactions,
                block@.transactions.len(),
            ),
    {
        let ghost txs = block@.transactions;
        let mut out: Vec<OutPoint> = Vec::new();
        let mut i: usize = 0;
        assert(outpoint_views(out@) =~= Seq::empty());
        while i < block.transactions.len()
            invariant
                i <= block.transactions.len(),
                txs == block@.transactions,
                outpoint_views(out@) == block_outpoints(txs, i as nat),
            decreases block.transactions.len() - i,
        {
            let tx = &block.transactions[i];
            let txid = tx.txid();
            let ghost before = outpoint_views(out@);
            let ghost all = outpoints_created(tx@);
            let mut k: usize = 0;
            assert(before + all.take(0) =~= before);
            while k < tx.outputs.len()
                invariant
                    k <= tx.outputs.len(),
                    txid@ == tx@.txid(),
                    all == outpoints_created(tx@),
                    outpoint_views(out@) == before + all.take(k as int),
                decreases tx.outputs.len() - k,
            {
                let outpoint = OutPoint { txid, vout: k as u32 };
                let ghost so_far = out@;
                out.push(outpoint);
                proof {
                    assert(all[k as int] == outpoint@);
                    assert(outpoint_views(out@) =~= outpoint_views(so_far).push(outpoint@));
                    assert(all.take(k + 1) =~= all.take(k as int).push(all[k as int]));
                    assert(before + all.take(k + 1) =~= (before + all.take(k as int)).push(
                        outpoint@,
                    ));
                }
                k += 1;
            }
            assert(all.take(k as int) =~= all);
            assert(txs[i as int] == tx@);
            i += 1;
        }
        out
    }

    fn disconnect_block(&mut self, hash: &Hash256) -> (r: Result<(), ChainError>)
        ensures
            final(self)@ == disconnect_one(old(self)@, hash@).chain,
            succeeds(r, disconnect_one(old(self)@, hash@).result),
            final(self).saved() == old(self).saved(),
    {
        let block = match self.load_block(hash) {
            Ok(b) => b,
            Err(e) => return Err(e),
        };
        let created = ChainState::created_outpoints(&block);
        let restored = match self.utxo_store.get_undo_data(hash) {
            Ok(Some(entries)) => entries,
            Ok(None) => return Err(db_error("Missing undo data")),
            Err(e) => return Err(ChainError::DbError(e)),
        };
        let _ = self.utxo_store.revert_block(&created, &restored);
        let _ = self.utxo_store.delete_undo_data(hash);
        Ok(())
    }

    /// Checks a block against the unspent outputs and applies it to them.
    fn connect_block(&mut self, block: &Block, height: u64) -> (r: Result<(), ChainError>)
        ensures
            final(self)@ == connect(old(self)@, block@, height).chain,
            succeeds(r, connect(old(self)@, block@, height).result),
            final(self).saved() == old(self).saved(),
    {
        let effects = match apply_block_to_utxo(&self.utxo_store, block, height) {
            Ok(effects) => effects,
            Err(LedgerError::Unreadable) => return Err(db_error("Unreadable output")),
            Err(LedgerError::Utxo(e)) => return Err(ChainError::UtxoError(e)),
        };
        if block.transactions.len() == 0 {
            return Err(db_error("Block without transactions"));
        }
        let ghost scan = scan_block(self@.utxos, block@, height);
        assert(block@.transactions[0] == block.transactions[0]@);
        if block.transactions[0].checked_output_sum().is_none() {
            return Err(db_error("Reward out of range"));
        }
        match validate_coinbase_reward(&block.transactions[0], effects.fees, height as u32) {
            Ok(()) => {},
            Err(e) => return Err(ChainError::InvalidBlock(e)),
        }
        let spent = ChainState::outpoints_only(&effects.spent);
        let _ = self.utxo_store.apply_block(&effects.created, &spent);
        let hash = block.hash();
        let _ = self.utxo_store.store_undo_data(&hash, &effects.spent);
        assert(self@ == (ChainView {
            utxos: connected_rows(old(self)@.utxos, block@, scan),
            ..old(self)@
        }));
        Ok(())
    }

    fn outpoints_only(pairs: &Vec<(OutPoint, UtxoEntry)>) -> (r: Vec<OutPoint>)
        ensures
            outpoint_views(r@) == outpoints_of(pair_views(pairs@)),
    {
        let mut out: Vec<OutPoint> = Vec::new();
        let mut i: usize = 0;
        while i < pairs.len()
            invariant
                i <= pairs.len(),
                out.len() == i,
                forall|j: int| 0 <= j < i ==> (#[trigger] out@[j]) == pairs@[j].0,
            decreases pairs.len() - i,
        {
            out.push(pairs[i].0);
            i += 1;
        }
        assert(outpoint_views(out@) =~= outpoints_of(pair_views(pairs@)));
        out
    }

    fn reconnect_block(&mut self, hash: &Hash256) -> (r: Result<(), ChainError>)
        ensures
            final(self)@ == reconnect_one(old(self)@, hash@).chain,
            succeeds(r, reconnect_one(old(self)@, hash@).result),
            final(self).saved() == old(self).saved(),
    {
        let (block, height) = match self.load_block_with_height(hash) {
            Ok(p) => p,
            Err(e) => return Err(e),
        };
        match self.connect_block(&block, height) {
            Ok(()) => {},
            Err(e) => return Err(e),
        }
        // Reconnected blocks become part of the active chain: lookups by height
        // have to find them.
        let _ = self.block_store.update_height_index(height, hash);
        Ok(())
    }

    fn inputs_still_unspent(&self, tx: &Transaction) -> (r: bool)
        ensures
            r == inputs_unspent(self@.utxos, tx@),
    {
        let mut i: usize = 0;
        while i < tx.inputs.len()
            invariant
                i <= tx.inputs.len(),
                forall|j: int|
                    0 <= j < i ==> value_at(
                        self@.utxos,
                        ColumnFamily::Utxo,
                        spent_outpoint(#[trigger] tx@.inputs[j]).key(),
                    ) is Some,
            decreases tx.inputs.len() - i,
        {
            let outpoint = OutPoint {
                txid: tx.inputs[i].prev_txid,
                vout: tx.inputs[i].prev_index,
            };
            assert(outpoint@ == spent_outpoint(tx@.inputs[i as int]));
            if !self.is_utxo_unspent(&outpoint) {
                return false;
            }
            i += 1;
        }
        true
    }

    /// Collects the transactions of disconnected blocks whose inputs are unspent
    /// on the new chain, so that they can be mined again.
    fn collect_requeued(&self, path: &Vec<Hash256>) -> (r: Vec<Transaction>)
        ensures
            views(r@) == requeued(self@, views(path@), path@.len()),
    {
        let ghost hashes = views(path@);
        let mut out: Vec<Transaction> = Vec::new();
        let mut i: usize = 0;
        assert(views(out@) =~= Seq::empty());
        while i < path.len()
            invariant
                i <= path.len(),
                hashes == views(path@),
                views(out@) == requeued(self@, hashes, i as nat),
            decreases path.len() - i,
        {
            assert(hashes[i as int] == path@[i as int]@);
            match self.load_block(&path[i]) {
                Ok(block) => {
                    let ghost txs = block@.transactions;
                    let ghost before = views(out@);
                    let mut k: usize = 0;
                    assert(before + still_spendable(self@.utxos, txs, 0) =~= before);
                    while k < block.transactions.len()
                        invariant
                            k <= block.transactions.len(),
                            txs == block@.transactions,
                            views(out@) == before + still_spendable(self@.utxos, txs, k as nat),
                        decreases block.transactions.len() - k,
                    {
                        let tx = &block.transactions[k];
                        assert(txs[k as int] == tx@);
                        // skip coinbase
                        if k > 0 && self.inputs_still_unspent(tx) {
                            let ghost so_far = out@;
                            out.push(tx.clone());
                            assert(views(out@) =~= views(so_far).push(tx@));
                            assert(views(out@) =~= before + still_spendable(
                                self@.utxos,
                                txs,
                                (k + 1) as nat,
                            ));
                        } else {
                            assert(views(out@) =~= before + still_spendable(
                                self@.utxos,
                                txs,
                                (k + 1) as nat,
                            ));
                        }
                        k += 1;
                    }
                },
                Err(_) => {},
            }
            i += 1;
        }
        out
    }

    fn disconnect_path(&mut self, path: &Vec<Hash256>) -> (r: Result<(), ChainError>)
        ensures
            final(self)@ == disconnect(old(self)@, views(path@), path@.len()).chain,
            succeeds(r, disconnect(old(self)@, views(path@), path@.len()).result),
            final(self).saved() == old(self).saved(),
    {
        let ghost start = self@;
        let ghost hashes = views(path@);
        let mut i: usize = 0;
        while i < path.len()
            invariant
                i <= path.len(),
                start == old(self)@,
                hashes == views(path@),
                disconnect(start, hashes, i as nat).chain == self@,
                disconnect(start, hashes, i as nat).result is Ok,
                self.saved() == old(self).saved(),
            decreases path.len() - i,
        {
            assert(hashes[i as int] == path@[i as int]@);
            match self.disconnect_block(&path[i]) {
                Ok(()) => {},
                Err(e) => {
                    proof {
                        lemma_disconnect_failure_stays(
                            start,
                            hashes,
                            (i + 1) as nat,
                            hashes.len(),
                        );
                    }
                    return Err(e);
                },
            }
            i += 1;
        }
        Ok(())
    }

    fn reconnect_path(&mut self, path: &Vec<Hash256>) -> (r: Result<(), ChainError>)
        ensures
            final(self)@ == reconnect(old(self)@, views(path@), path@.len()).chain,
            succeeds(r, reconnect(old(self)@, views(path@), path@.len()).result),
            final(self).saved() == old(self).saved(),
    {
        let ghost start = self@;
        let ghost hashes = views(path@);
        let mut k: usize = 0;
        while k < path.len()
            invariant
                k <= path.len(),
                start == old(self)@,
                hashes == views(path@),
                reconnect(start, hashes, k as nat).chain == self@,
                reconnect(start, hashes, k as nat).result is Ok,
                self.saved() == old(self).saved(),
            decreases path.len() - k,
        {
            let hash = path[path.len() - 1 - k];
            let ghost n = (k + 1) as nat;
            assert(hashes[hashes.len() - n] == hash@);
            match self.reconnect_block(&hash) {
                Ok(()) => {},
                Err(e) => {
                    proof {
                        lemma_reconnect_failure_stays(start, hashes, n, hashes.len());
                    }
                    return Err(e);
                },
            }
            k += 1;
        }
        Ok(())
    }

    /// Moves the tip from one block to another.
    fn reorganize(&mut self, old_tip: &Hash256, new_tip: &Hash256) -> (r: Result<
        Vec<Transaction>,
        ChainError,
    >)
        ensures
            final(self)@ == reorganize(old(self)@, old_tip@, new_tip@).chain,
            gives(r, reorganize(old(self)@, old_tip@, new_tip@).result),
            final(self).saved() == old(self).saved(),
    {
        let (old_path, new_path) = match self.find_fork(old_tip, new_tip) {
            Some(paths) => paths,
            None => return Err(db_error("Reorg failed: no common ancestor found")),
        };
        match self.disconnect_path(&old_path) {
            Ok(()) => {},
            Err(e) => return Err(e),
        }
        match self.reconnect_path(&new_path) {
            Ok(()) => {},
            Err(e) => return Err(e),
        }
        Ok(self.collect_requeued(&old_path))
    }

    /// Collects up to 11 headers from a block backwards.
    fn collect_ancestors(&self, hash: &Hash256) -> (r: Vec<BlockHeader>)
        ensures
            views(r@) == ancestors(self@, hash@, MEDIAN_WINDOW as nat),
    {
        let ghost whole = ancestors(self@, hash@, MEDIAN_WINDOW as nat);
        let mut headers: Vec<BlockHeader> = Vec::new();
        let mut current: Hash256 = *hash;
        let mut left: usize = MEDIAN_WINDOW;
        assert(views(headers@) + whole =~= whole);
        while left > 0
            invariant
                left <= MEDIAN_WINDOW,
                whole == ancestors(self@, hash@, MEDIAN_WINDOW as nat),
                whole == views(headers@) + ancestors(self@, current@, left as nat),
            decreases left,
        {
            let ghost before = views(headers@);
            match self.header_of_block(&current) {
                Some(h) => {
                    headers.push(h);
                    assert(views(headers@) =~= before + seq![h@]);
                    if is_zero(&h.prev_block_hash) {
                        return headers;
                    }
                    proof {
                        let rest = ancestors(self@, h.prev_block_hash@, (left - 1) as nat);
                        assert(before + (seq![h@] + rest) =~= views(headers@) + rest);
                    }
                    current = h.prev_block_hash;
                },
                None => {
                    assert(whole =~= views(headers@));
                    return headers;
                },
            }
            left -= 1;
        }
        assert(whole =~= views(headers@));
        headers
    }

    fn cache_parent(&mut self, hash: &Hash256) -> (r: Result<(), ChainError>)
        ensures
            match with_parent_cached(old(self)@, hash@) {
                Ok(c) => r is Ok && final(self)@ == c,
                Err(f) => r matches Err(e) && e.fault() == f && final(self)@ == old(self)@,
            },
            final(self).saved() == old(self).saved(),
    {
        if cache_peek(&self.blocks, hash).is_some() {
            return Ok(());
        }
        match self.block_store.get_block(hash) {
            Ok(Some(prev_block)) => {
                let prev_hash = prev_block.header.hash();
                let meta = match self.block_store.get_block_meta(&prev_hash) {
                    Ok(Some(meta)) => meta,
                    Ok(None) => return Err(db_error("Missing block meta")),
                    Err(e) => return Err(ChainError::DbError(e)),
                };
                let data = BlockData {
                    block: prev_block,
                    height: meta.height,
                    cumulative_work: meta.cumulative_work,
                };
                cache_put(&mut self.blocks, prev_hash, data);
                Ok(())
            },
            _ => Ok(()),
        }
    }

    /// Finds height and work of a block, checking its header against those before
    /// it.
    fn place_block(&mut self, header: &BlockHeader, now: u64) -> (r: Result<
        (u64, U256),
        ChainError,
    >)
        requires
            old(self).params.valid(),
        ensures
            final(self)@ == place(old(self)@, header@, now).chain,
            match r {
                Ok((height, work)) => place(old(self)@, header@, now).result == Ok::<
                    (u64, nat),
                    ChainFault,
                >((height, work@)),
                Err(e) => place(old(self)@, header@, now).result == Err::<(u64, nat), ChainFault>(
                    e.fault(),
                ),
            },
            final(self).saved() == old(self).saved(),
    {
        if is_zero(&header.prev_block_hash) {
            return Ok((0, header.work()));
        }
        match self.cache_parent(&header.prev_block_hash) {
            Ok(()) => {},
            Err(e) => return Err(e),
        }
        let prev_data = match cache_peek(&self.blocks, &header.prev_block_hash) {
            Some(d) => d,
            None => return Err(ChainError::OrphanBlock),
        };
        match validate_difficulty(Some(&prev_data.block.header), header, &self.params) {
            Ok(()) => {},
            Err(e) => return Err(ChainError::InvalidDifficulty(e)),
        }
        let prev_headers = self.collect_ancestors(&header.prev_block_hash);
        match validate_timestamp_at(header, &prev_headers, now) {
            Ok(()) => {},
            Err(e) => return Err(ChainError::InvalidBlock(e)),
        }
        if prev_data.height == u64::MAX {
            return Err(db_error("Height out of range"));
        }
        Ok((prev_data.height + 1, prev_data.cumulative_work.wrapping_sum(&header.work())))
    }

    /// Adds a block at a given time. `pow_hash` is the proof-of-work hash of its
    /// header under the key of its height, see [`ChainState::pow_height`].
    ///
    /// A block that is known already changes nothing. A valid block becomes the
    /// tip where it has more work than the tip, or as much and a smaller hash;
    /// the chain is reorganised where it does not follow the tip. What results are
    /// the transactions that a reorganisation took out of the chain and that can
    /// still be made.
    #[verifier::spinoff_prover]
    pub fn add_block_at(&mut self, block: Block, pow_hash: &Hash256, now: u64) -> (r: Result<
        Vec<Transaction>,
        ChainError,
    >)
        requires
            old(self).params.valid(),
        ensures
            final(self)@ == add_block(old(self)@, block@, pow_hash@, now).chain,
            gives(r, add_block(old(self)@, block@, pow_hash@, now).result),
            endures(old(self)@, block@, pow_hash@, now, final(self)@),
            final(self).params == old(self).params,
            final(self).saved() == old(self).saved(),
    {
        proof {
            lemma_add_block_keeps_params(self@, block@, pow_hash@, now);
            if sound(self@) {
                lemma_place_is_sound(self@, block@, now);
            }
        }
        let none: Vec<Transaction> = Vec::new();
        assert(views(none@) =~= Seq::empty());
        let block_hash = block.hash();
        if self.has_block(&block_hash) || cache_peek(&self.blocks, &block_hash).is_some() {
            return Ok(none);
        }
        let (height, cumulative_work) = match self.place_block(&block.header, now) {
            Ok(placed) => placed,
            Err(e) => return Err(e),
        };
        match validate_block(&block.header, block.transactions.as_slice(), pow_hash) {
            Ok(()) => {},
            Err(e) => return Err(ChainError::InvalidBlock(e)),
        }
        assert(block@.transactions[0] == block.transactions[0]@);
        if height > 0 {
            match validate_coinbase_height(&block.transactions[0], height as u32) {
                Ok(()) => {},
                Err(e) => return Err(ChainError::InvalidBlock(e)),
            }
        }
        let ghost start = old(self)@;
        let r = self.accept(&block, height, cumulative_work);
        proof {
            if sound(start) && r is Ok {
                lemma_added_stays_sound(start, block@, pow_hash@, now);
            }
        }
        r
    }

    /// Adds a block that is valid: as the tip where it has the most work, else beside the
    /// active chain.
    fn accept(&mut self, block: &Block, height: u64, cumulative_work: U256) -> (r: Result<
        Vec<Transaction>,
        ChainError,
    >)
        ensures
            final(self)@ == accept(old(self)@, block@, height, cumulative_work@).chain,
            gives(r, accept(old(self)@, block@, height, cumulative_work@).result),
            lasting(old(self)@) && followed(old(self)@.blocks, block@) ==> lasting(final(self)@),
            r is Ok ==> block_stored(final(self)@.blocks, block@, height, cumulative_work@),
            final(self).saved() == old(self).saved(),
    {
        let ghost start = self@;
        let block_hash = block.hash();
        let data = BlockData { block: block.clone(), height, cumulative_work };
        let ghost noted = data@;
        cache_put(&mut self.blocks, block_hash, data);
        assert(self@ == start.with_cached(block_hash@, noted));
        if self.takes_over(&block_hash, &cumulative_work) {
            self.extend_tip(block, height, cumulative_work)
        } else {
            // Side-chain block: keep it, but leave the index of the active chain.
            let ghost before = self@;
            let _ = self.block_store.store_block_no_index(block, height, cumulative_work);
            proof {
                if lasting(start) && followed(start.blocks, block@) {
                    lemma_filed_with_block(
                        before.blocks,
                        self@.blocks,
                        block@,
                        height,
                        cumulative_work@,
                    );
                }
            }
            let none: Vec<Transaction> = Vec::new();
            assert(views(none@) =~= Seq::empty());
            Ok(none)
        }
    }

    fn takes_over(&self, hash: &Hash256, work: &U256) -> (r: bool)
        ensures
            r == becomes_tip(self@, hash@, work@),
    {
        match self.tip {
            None => true,
            Some(current_tip) => {
                let current_work = match cache_peek(&self.blocks, &current_tip) {
                    Some(d) => d.cumulative_work,
                    None => U256::zero(),
                };
                *work > current_work || (*work == current_work && hash_before(hash, &current_tip))
            },
        }
    }

    fn extend_tip(&mut self, block: &Block, height: u64, cumulative_work: U256) -> (r: Result<
        Vec<Transaction>,
        ChainError,
    >)
        ensures
            final(self)@ == extend_tip(old(self)@, block@, height, cumulative_work@).chain,
            gives(r, extend_tip(old(self)@, block@, height, cumulative_work@).result),
            lasting(old(self)@) && followed(old(self)@.blocks, block@) ==> lasting(final(self)@),
            r is Ok ==> block_stored(final(self)@.blocks, block@, height, cumulative_work@),
            final(self).saved() == old(self).saved(),
    {
        let block_hash = block.hash();
        let follows_tip = match self.tip {
            Some(t) => bytes_equal(&t, &block.header.prev_block_hash),
            None => true,
        };
        let requeued_txs = if !follows_tip {
            let current_tip = match self.tip {
                Some(t) => t,
                None => block_hash,
            };
            proof {
                lemma_reorganize_beside_index(self@, current_tip@, block_hash@);
                if lasting(self@) {
                    lemma_lasting_beside_index(
                        self@,
                        reorganize(self@, current_tip@, block_hash@).chain,
                    );
                }
            }
            match self.reorganize(&current_tip, &block_hash) {
                Ok(txs) => txs,
                Err(e) => return Err(e),
            }
        } else {
            match self.connect_block(block, height) {
                Ok(()) => {},
                Err(e) => return Err(e),
            }
            let none: Vec<Transaction> = Vec::new();
            assert(views(none@) =~= Seq::empty());
            none
        };
        let ghost before = self@;
        let _ = self.block_store.store_block(block, height, cumulative_work);
        proof {
            if lasting(old(self)@) && followed(old(self)@.blocks, block@) {
                let prev = block@.header.prev_block_hash;
                assert(value_at(old(self)@.blocks, ColumnFamily::Blocks, prev) == value_at(
                    before.blocks,
                    ColumnFamily::Blocks,
                    prev,
                ));
                lemma_index_alone(
                    with_block(before.blocks, block@, height, cumulative_work@),
                    height,
                    block@.hash(),
                );
                lemma_filed_with_block(
                    before.blocks,
                    self@.blocks,
                    block@,
                    height,
                    cumulative_work@,
                );
            }
        }
        let new_tip = ChainTip { hash: block_hash, height, cumulative_work };
        proof {
            lemma_tip_reads_back(self@.state, new_tip);
        }
        let _ = self.state_store.set_tip(&new_tip);
        self.tip = Some(block_hash);
        Ok(requeued_txs)
    }

    /// Adds a block at the time that the clock of the machine shows.
    pub fn add_block(&mut self, block: Block, pow_hash: &Hash256) -> (r: Result<
        Vec<Transaction>,
        ChainError,
    >)
        requires
            old(self).params.valid(),
        ensures
            exists|now: u64|
                {
                    &&& clock_showed(now)
                    &&& final(self)@ == (#[trigger] add_block(
                        old(self)@,
                        block@,
                        pow_hash@,
                        now,
                    )).chain
                    &&& gives(r, add_block(old(self)@, block@, pow_hash@, now).result)
                    &&& endures(old(self)@, block@, pow_hash@, now, final(self)@)
                },
            final(self).params == old(self).params,
            final(self).saved() == old(self).saved(),
    {
        let now = read_clock();
        self.add_block_at(block, pow_hash, now)
    }

    /// The height under whose key the header of a block is hashed for proof of
    /// work: one more than that of its predecessor, or zero where that is not
    /// known.
    pub fn pow_height(&self, header: &BlockHeader) -> (height: u64)
        ensures
            height == (if header@.prev_block_hash == zero_hash() || self@.header_of(
                header@.prev_block_hash,
            ) is None || self@.height_of(header@.prev_block_hash) == u64::MAX {
                0
            } else {
                self@.height_of(header@.prev_block_hash) + 1
            }),
    {
        if is_zero(&header.prev_block_hash) {
            return 0;
        }
        if self.header_of_block(&header.prev_block_hash).is_none() {
            return 0;
        }
        let parent: u64 = self.height_of_block(&header.prev_block_hash);
        if parent == u64::MAX {
            return 0;
        }
        parent + 1
    }

    pub fn get_utxo(&self, outpoint: &OutPoint) -> (r: Result<Option<UtxoEntry>, String>)
        ensures
            found(r, entry_at(self@.utxos, outpoint@.key())),
    {
        self.utxo_store.get_utxo(outpoint)
    }

    /// A recent block.
    pub fn get_block(&self, hash: &Hash256) -> (r: Option<&Block>)
        ensures
            match r {
                Some(b) => self@.cached(hash@) matches Some(d) && d.block == b@,
                None => self@.cached(hash@) is None,
            },
    {
        match cache_peek(&self.blocks, hash) {
            Some(data) => Some(&data.block),
            None => None,
        }
    }

    /// The block of the active chain at a height, where it is a recent one.
    pub fn get_block_by_height(&self, height: u64) -> (r: Option<&Block>)
        ensures
            match r {
                Some(b) => block_at_height(self@.blocks, height) matches Ok(Some(s)) && (
                self@.cached(s.hash()) matches Some(d) && d.block == b@),
                None => match block_at_height(self@.blocks, height) {
                    Ok(Some(s)) => self@.cached(s.hash()) is None,
                    _ => true,
                },
            },
    {
        match self.block_store.get_block_by_height(height) {
            Ok(Some(block)) => {
                let hash = block.hash();
                self.get_block(&hash)
            },
            _ => None,
        }
    }

    /// The tip, where it is a recent block.
    pub fn get_tip(&self) -> (r: Result<Option<BlockData>, String>)
        ensures
            r matches Ok(tip) && match tip {
                Some(d) => self@.tip is Some && self@.cached(self@.tip->Some_0) == Some(d@),
                None => self@.tip is Some ==> self@.cached(self@.tip->Some_0) is None,
            },
    {
        match self.tip {
            Some(hash) => match cache_peek(&self.blocks, &hash) {
                Some(d) => Ok(Some(d.clone())),
                None => Ok(None),
            },
            None => Ok(None),
        }
    }

    /// Height of the tip, or zero.
    pub fn get_height(&self) -> (height: u64)
        ensures
            height == (match self@.tip {
                Some(t) => match self@.cached(t) {
                    Some(d) => d.height,
                    None => 0,
                },
                None => 0,
            }),
    {
        match self.tip {
            Some(hash) => match cache_peek(&self.blocks, &hash) {
                Some(d) => d.height,
                None => 0,
            },
            None => 0,
        }
    }

    pub fn export_utxos(&self) -> (r: Result<Vec<(OutPoint, UtxoEntry)>, ChainError>)
        ensures
            r is Err <==> exists|k: Seq<u8>|
                k.len() == 36 && #[trigger] entry_at(self@.utxos, k) is Err,
            r matches Err(e) ==> e.fault() == ChainFault::DbError,
            r matches Ok(out) ==> {
                &&& forall|i: int|
                    0 <= i < out@.len() ==> entry_at(self@.utxos, (#[trigger] out@[i]).0@.key())
                        == Lookup::<UtxoEntryView>::Ok(Some(out@[i].1@))
                &&& forall|k: Seq<u8>|
                    k.len() == 36 && #[trigger] value_at(self@.utxos, ColumnFamily::Utxo, k)
                        is Some ==> exists|i: int|
                        0 <= i < out@.len() && (#[trigger] out@[i]).0@.key() == k
                &&& forall|i: int, j: int|
                    0 <= i < j < out@.len() ==> (#[trigger] out@[i]).0@.key() != (
                    #[trigger] out@[j]).0@.key()
            },
    {
        match self.utxo_store.export_utxos() {
            Ok(out) => Ok(out),
            Err(e) => Err(ChainError::DbError(e)),
        }
    }

    /// Median of the timestamps of the last 11 blocks.
    pub fn median_time_past(&self) -> (mtp: u64)
        ensures
            mtp == median_time(self@),
    {
        let tip = match self.tip {
            Some(h) => h,
            None => return 0,
        };
        let ghost whole = recent_times(self@, tip@, MEDIAN_WINDOW as nat);
        let mut times: Vec<u64> = Vec::new();
        let mut current: Hash256 = tip;
        let mut left: usize = MEDIAN_WINDOW;
        let mut more = true;
        assert(times@ + whole =~= whole);
        while more && left > 0
            invariant
                left <= MEDIAN_WINDOW,
                whole == recent_times(self@, tip@, MEDIAN_WINDOW as nat),
                more ==> whole == times@ + recent_times(self@, current@, left as nat),
                !more ==> whole == times@,
            decreases left,
        {
            let ghost before = times@;
            match cache_peek(&self.blocks, &current) {
                Some(data) => {
                    let header = &data.block.header;
                    times.push(header.timestamp);
                    assert(times@ =~= before + seq![header.timestamp]);
                    if is_zero(&header.prev_block_hash) {
                        more = false;
                    } else {
                        proof {
                            let rest = recent_times(
                                self@,
                                header.prev_block_hash@,
                                (left - 1) as nat,
                            );
                            assert(before + (seq![header.timestamp] + rest) =~= times@ + rest);
                        }
                        current = header.prev_block_hash;
                    }
                },
                None => {
                    assert(whole =~= times@);
                    more = false;
                },
            }
            left -= 1;
        }
        assert(whole =~= times@);
        if times.is_empty() {
            return 0;
        }
        let sorted = sort_numbers(&times);
        proof {
            lemma_in_order(times@);
        }
        // Near the first block fewer than 11 timestamps are there; the index is
        // still half their number.
        sorted[sorted.len() / 2]
    }

    pub fn is_utxo_unspent(&self, outpoint: &OutPoint) -> (r: bool)
        ensures
            r == value_at(self@.utxos, ColumnFamily::Utxo, outpoint@.key()) is Some,
    {
        match self.utxo_store.has_utxo(outpoint) {
            Ok(b) => b,
            Err(_) => false,
        }
    }

    pub fn has_block(&self, hash: &Hash256) -> (r: bool)
        ensures
            r == value_at(self@.blocks, ColumnFamily::Blocks, hash@) is Some,
    {
        match self.block_store.has_block(hash) {
            Ok(b) => b,
            Err(_) => false,
        }
    }

    pub fn get_block_hash(&self, height: u64) -> (r: Option<Hash256>)
        ensures
            match r {
                Some(h) => hash_at_height(self@.blocks, height) == Lookup::<Seq<u8>>::Ok(Some(h@)),
                None => hash_at_height(self@.blocks, height) == Lookup::<Seq<u8>>::Ok(None)
                    || hash_at_height(self@.blocks, height) is Err,
            },
    {
        match self.block_store.get_hash_by_height(height) {
            Ok(Some(h)) => Some(h),
            _ => None,
        }
    }

    /// Hashes by which a peer finds where its chain and this one part.
    pub fn get_block_locator(&self) -> (r: Vec<Hash256>)
        ensures
            views(r@) == Seq::new(locator(self@).len(), |i: int| locator(self@)[i].0),
    {
        let entries = self.get_block_locator_with_heights();
        let mut out: Vec<Hash256> = Vec::new();
        let mut i: usize = 0;
        while i < entries.len()
            invariant
                i <= entries.len(),
                out.len() == i,
                forall|j: int| 0 <= j < i ==> (#[trigger] out@[j]) == entries@[j].0,
            decreases entries.len() - i,
        {
            out.push(entries[i].0);
            i += 1;
        }
        proof {
            let want = Seq::new(locator(self@).len(), |k: int| locator(self@)[k].0);
            assert forall|k: int| 0 <= k < want.len() implies views(out@)[k] == want[k] by {
                assert(views(entries@)[k] == locator(self@)[k]);
                assert(out@[k] == entries@[k].0);
            }
            assert(views(out@) =~= want);
        }
        out
    }

    /// Hashes of the active chain with their heights, from the tip down.
    pub fn get_block_locator_with_heights(&self) -> (r: Vec<(Hash256, u64)>)
        ensures
            views(r@) == locator(self@),
    {
        let mut entries: Vec<(Hash256, u64)> = Vec::new();
        let tip = match self.state_store.get_tip() {
            Ok(Some(tip)) => tip,
            _ => {
                let zero: Hash256 = [0u8; 32];
                assert(zero@ =~= zero_hash());
                entries.push((zero, 0));
                assert(views(entries@) =~= seq![(zero_hash(), 0u64)]);
                return entries;
            },
        };
        entries.push((tip.hash, tip.height));
        let ghost whole = locator(self@);
        let mut step: u64 = 1;
        let mut current_height: u64 = tip.height;
        assert(views(entries@) =~= seq![(tip.hash@, tip.height)]);
        while current_height > 0
            invariant
                step > 0,
                whole == locator(self@),
                whole == views(entries@) + locator_rest(
                    self@.blocks,
                    entries@.len(),
                    current_height,
                    step,
                ),
            decreases current_height,
        {
            if entries.len() >= 10 {
                step = if step > u64::MAX / 2 {
                    u64::MAX
                } else {
                    step * 2
                };
            }
            current_height = current_height.saturating_sub(step);
            // The index of the active chain, not the header index: that one may
            // hold the hashes of a peer with another chain.
            let ghost before = views(entries@);
            match self.block_store.get_hash_by_height(current_height) {
                Ok(Some(hash)) => {
                    entries.push((hash, current_height));
                    proof {
                        assert(views(entries@) =~= before + seq![(hash@, current_height)]);
                        let rest = locator_rest(
                            self@.blocks,
                            entries@.len(),
                            current_height,
                            step,
                        );
                        assert(before + (seq![(hash@, current_height)] + rest) =~= views(entries@)
                            + rest);
                    }
                },
                _ => {
                    assert(whole =~= views(entries@));
                    return entries;
                },
            }
        }
        assert(whole =~= views(entries@));
        entries
    }

    pub fn get_header_at_height(&self, height: u64) -> (r: Option<BlockHeader>)
        ensures
            match r {
                Some(h) => header_at_height(self@.blocks, height) == Lookup::<
                    BlockHeaderView,
                >::Ok(Some(h@)),
                None => header_at_height(self@.blocks, height) == Lookup::<BlockHeaderView>::Ok(
                    None,
                ) || header_at_height(self@.blocks, height) is Err,
            },
    {
        match self.block_store.get_header_by_height(height) {
            Ok(Some(h)) => Some(h),
            _ => None,
        }
    }

    /// Height of a recent block.
    pub fn get_height_for_hash(&self, hash: &Hash256) -> (r: Option<u64>)
        ensures
            r == (match self@.cached(hash@) {
                Some(d) => Some(d.height),
                None => None,
            }),
    {
        match cache_peek(&self.blocks, hash) {
            Some(d) => Some(d.height),
            None => None,
        }
    }

    /// Any header passes on its own.
    pub fn validate_header_standalone(&self, _header: &BlockHeader) -> (r: Result<(), String>)
        ensures
            r is Ok,
    {
        Ok(())
    }

    pub fn store_header_only(&mut self, header: &BlockHeader) -> (r: Result<(), String>)
        ensures
            r is Ok,
            final(self)@ == (ChainView {
                blocks: old(self)@.blocks.insert(
                    row(ColumnFamily::Headers, header@.hash()),
                    <BlockHeader as crate::primitives::serialize::Encode>::encoding(header@),
                ),
                ..old(self)@
            }),
            lasting(old(self)@) && header_agrees(old(self)@.blocks, header@) ==> lasting(
                final(self)@,
            ),
            sound(old(self)@) && header_agrees(old(self)@.blocks, header@) ==> sound(final(self)@),
            final(self).saved() == old(self).saved(),
    {
        let r = self.block_store.store_header(header);
        proof {
            if lasting(old(self)@) && header_agrees(old(self)@.blocks, header@) {
                lemma_filed_with_header(old(self)@.blocks, header@);
                lemma_lasting_with_blocks(old(self)@, self@);
                if sound(old(self)@) {
                    lemma_sound_with_blocks(old(self)@, self@);
                }
            }
        }
        r
    }

    pub fn store_header_only_at_height(&mut self, header: &BlockHeader, height: u64) -> (r: Result<
        (),
        String,
    >)
        ensures
            r is Ok,
            final(self)@ == (ChainView {
                blocks: with_header(old(self)@.blocks, header@, height),
                ..old(self)@
            }),
            lasting(old(self)@) && header_agrees(old(self)@.blocks, header@) ==> lasting(
                final(self)@,
            ),
            sound(old(self)@) && header_agrees(old(self)@.blocks, header@) ==> sound(final(self)@),
            final(self).saved() == old(self).saved(),
    {
        let r = self.block_store.store_header_at_height(header, height);
        proof {
            if lasting(old(self)@) && header_agrees(old(self)@.blocks, header@) {
                let list = seq![(header@, height)];
                reveal_with_fuel(with_headers, 2);
                lemma_filed_with_headers(old(self)@.blocks, list, 1);
                lemma_lasting_with_blocks(old(self)@, self@);
                if sound(old(self)@) {
                    lemma_headers_keep_index(old(self)@.blocks, list, 1);
                    lemma_sound_with_blocks(old(self)@, self@);
                }
            }
        }
        r
    }
}

/// A chain comes back from what was written of it: where a log leads to the rows that were
/// saved, and the changes since to those of the chain, the log with these changes behind it
/// leads to the rows of the chain; and from these the chain is made again, with its tip, its
/// unspent outputs and its blocks. A sound chain comes back with all its rows.
pub proof fn lemma_saved_chain_comes_back(chain: ChainState, log: StoredOps, more: StoredOps)
    requires
        lasting(chain@),
        chain@.capacity == BLOCK_CACHE_SIZE,
        rows_after(StoredRows::none(), log) == chain.saved(),
        rows_after(chain.saved(), more) == chain@.stored(),
    ensures
        ({
            let rows = rows_after(StoredRows::none(), joined(log, more));
            let empty = ChainState::stored_chain(chain.params, rows.blocks, rows.utxos, rows.state);
            let again = recovered(empty)->Some_0;
            let path = loaded_path(chain@);
            &&& rows == chain@.stored()
            &&& recovered(empty) is Some
            &&& again == (ChainView {
                blocks: indexed(chain@.blocks, path, path.len()),
                cache: again.cache,
                ..chain@
            })
            &&& chain@.tip is Some ==> again.cached(chain@.tip->Some_0) is Some
            &&& lasting(again)
            &&& sound(chain@) ==> again.stored() == chain@.stored() && sound(again)
        }),
{
    let none = Rows::empty();
    lemma_replay_concat(none, log.blocks, more.blocks);
    lemma_replay_concat(none, log.utxos, more.utxos);
    lemma_replay_concat(none, log.state, more.state);
    let empty = ChainState::stored_chain(
        chain.params,
        chain@.blocks,
        chain@.utxos,
        chain@.state,
    );
    lemma_restart_finds_the_chain(chain@, empty);
    if sound(chain@) {
        lemma_sound_chain_restarts(chain@, empty);
    }
}

proof fn lemma_load_failure_stays(chain: ChainView, path: Seq<Seq<u8>>, m: nat, n: nat)
    requires
        m <= n,
        load_blocks(chain, path, m) is None,
    ensures
        load_blocks(chain, path, n) is None,
    decreases n,
{
    if m < n {
        lemma_load_failure_stays(chain, path, m, (n - 1) as nat);
    }
}

proof fn lemma_disconnect_failure_stays(chain: ChainView, path: Seq<Seq<u8>>, m: nat, n: nat)
    requires
        m <= n,
        disconnect(chain, path, m).result is Err,
    ensures
        disconnect(chain, path, n) == disconnect(chain, path, m),
    decreases n,
{
    if m < n {
        lemma_disconnect_failure_stays(chain, path, m, (n - 1) as nat);
    }
}

proof fn lemma_reconnect_failure_stays(chain: ChainView, path: Seq<Seq<u8>>, m: nat, n: nat)
    requires
        m <= n,
        reconnect(chain, path, m).result is Err,
    ensures
        reconnect(chain, path, n) == reconnect(chain, path, m),
    decreases n,
{
    if m < n {
        lemma_reconnect_failure_stays(chain, path, m, (n - 1) as nat);
    }
}

} // verus!
