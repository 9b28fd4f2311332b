//! Block templates, the search for a nonce and the block that comes out of it.

use crate::collections::sort::{in_order, lemma_in_order};
use crate::consensus::block::{Block, BlockHeader, BlockHeaderView, BlockView};
use crate::consensus::chain::ChainState;
use crate::consensus::chain_model::{
    add_block, ancestors, median_time, recent_times, ChainView, MEDIAN_WINDOW,
};
use crate::consensus::difficulty::{
    calculate_next_target, compact_of, next_target, u256_to_compact,
};
use crate::consensus::merkle::{compute_merkle_root, merkle_root, zero_hash};
use crate::consensus::params::ChainParams;
use crate::consensus::soundness::endures;
use crate::consensus::transaction::{
    total_value, Transaction, TransactionView, TxInput, TxInputView, TxOutput, TxOutputView,
    Witness,
};
use crate::consensus::validation::{
    calculate_subsidy, height_error, is_coinbase_tx, lower_median, magnitude_bytes, reward_error,
    script_number, subsidy_at, timestamp_error, timestamps_of, txids_of, lemma_subsidy_falls,
};
use crate::primitives::bytes::{
    append_bytes, le_bytes, le_value, lemma_byte_range_values, lemma_le_bytes_len,
    lemma_le_value_concat, lemma_le_value_of_bytes, u32_to_le,
};
use crate::primitives::clock::{clock_showed, read_clock};
use crate::primitives::hash::Hash256;
use crate::primitives::serialize::views;
use vstd::prelude::*;

verus! {

/// Number of seconds by which the timestamp of a new block may be ahead.
pub const MAX_FUTURE_OFFSET: u64 = 7200;

/// Pre-solved block template: everything needed to search for a nonce, with no
/// chain reference held. Build with [`Miner::build_template`], finish with
/// [`Miner::solve_template`].
pub struct BlockTemplate {
    pub header: BlockHeader,
    pub transactions: Vec<Transaction>,
    pub height: u32,
}

/// What a block template stands for.
#[verifier::ext_equal]
pub struct TemplateView {
    pub header: BlockHeaderView,
    pub transactions: Seq<TransactionView>,
    pub height: u32,
}

impl View for BlockTemplate {
    type V = TemplateView;

    open spec fn view(&self) -> TemplateView {
        TemplateView {
            header: self.header@,
            transactions: views(self.transactions@),
            height: self.height,
        }
    }
}

impl Clone for BlockTemplate {
    fn clone(&self) -> (r: Self)
        ensures
            r@ == self@,
    {
        let r = BlockTemplate {
            header: self.header,
            transactions: self.transactions.clone(),
            height: self.height,
        };
        assert(r@ =~= self@);
        r
    }
}

/// Produces blocks that pay to an address.
pub struct Miner {
    pub params: ChainParams,
    pub mining_address: Vec<u8>,
}

/// Why no block was produced.
#[derive(Debug, PartialEq, Eq)]
pub enum MiningError {
    ChainError(String),
    InvalidCoinbase,
    InvalidTimestamp,
}

/// Kinds of errors of mining.
pub enum MiningFault {
    ChainError,
    InvalidCoinbase,
    InvalidTimestamp,
}

impl MiningError {
    /// The kind of the error.
    pub open spec fn fault(self) -> MiningFault {
        match self {
            MiningError::ChainError(_) => MiningFault::ChainError,
            MiningError::InvalidCoinbase => MiningFault::InvalidCoinbase,
            MiningError::InvalidTimestamp => MiningFault::InvalidTimestamp,
        }
    }
}

/// The timestamp of the next block at a given time: the time, or one second after
/// the median of the last blocks where that is later, unless that is too far
/// ahead.
pub open spec fn timestamp_choice(mtp: u64, now: u64) -> Option<u64> {
    if mtp == u64::MAX || now + MAX_FUTURE_OFFSET > u64::MAX {
        None
    } else {
        let candidate = if now > mtp + 1 {
            now
        } else {
            (mtp + 1) as u64
        };
        if candidate > now + MAX_FUTURE_OFFSET {
            None
        } else {
            Some(candidate)
        }
    }
}

/// The timestamp of the next block at a given time.
pub fn next_block_timestamp_at(chain: &ChainState, now: u64) -> (r: Result<u64, MiningError>)
    ensures
        match r {
            Ok(t) => timestamp_choice(median_time(chain@), now) == Some(t),
            Err(e) => timestamp_choice(median_time(chain@), now) is None && e.fault()
                == MiningFault::InvalidTimestamp,
        },
{
    let mtp: u64 = chain.median_time_past();
    let min_time: u64 = match mtp.checked_add(1) {
        Some(t) => t,
        None => return Err(MiningError::InvalidTimestamp),
    };
    let candidate: u64 = if now > min_time {
        now
    } else {
        min_time
    };
    let max_allowed: u64 = match now.checked_add(MAX_FUTURE_OFFSET) {
        Some(t) => t,
        None => return Err(MiningError::InvalidTimestamp),
    };
    if candidate > max_allowed {
        return Err(MiningError::InvalidTimestamp);
    }
    Ok(candidate)
}

/// The timestamp of the next block at the time that the clock of the machine
/// shows.
pub fn next_block_timestamp(chain: &ChainState) -> (r: Result<u64, MiningError>)
    ensures
        exists|now: u64|
            clock_showed(now) && match r {
                Ok(t) => #[trigger] timestamp_choice(median_time(chain@), now) == Some(t),
                Err(e) => timestamp_choice(median_time(chain@), now) is None && e.fault()
                    == MiningFault::InvalidTimestamp,
            },
{
    let now = read_clock();
    next_block_timestamp_at(chain, now)
}

/// The coinbase of a block at a height.
pub open spec fn coinbase_for(height: u32, value: u64, script_pubkey: Seq<u8>) -> TransactionView {
    TransactionView {
        version: 1,
        inputs: seq![
            TxInputView {
                prev_txid: zero_hash(),
                prev_index: 0xFFFF_FFFF,
                script_sig: seq![4u8] + le_bytes(height as nat, 4),
                sequence: 0xFFFF_FFFF,
            },
        ],
        outputs: seq![TxOutputView { value, script_pubkey }],
        witnesses: seq![Seq::empty()],
        locktime: 0,
    }
}

/// The template of the block that follows the tip of a chain at a given time.
pub open spec fn template_for(
    chain: ChainView,
    params: ChainParams,
    txs: Seq<TransactionView>,
    script_pubkey: Seq<u8>,
    now: u64,
) -> Result<TemplateView, MiningFault> {
    let tip = match chain.tip {
        Some(t) => chain.cached(t),
        None => None,
    };
    match tip {
        None => Err(MiningFault::ChainError),
        Some(d) => if d.height == u64::MAX {
            Err(MiningFault::ChainError)
        } else {
            let height = (d.height + 1) as u32;
            let all = seq![coinbase_for(height, subsidy_at(height) as u64, script_pubkey)] + txs;
            match timestamp_choice(median_time(chain), now) {
                None => Err(MiningFault::InvalidTimestamp),
                Some(timestamp) => match next_target(d.block.header, timestamp, params) {
                    Err(_) => Err(MiningFault::ChainError),
                    Ok(target) => Ok(
                        TemplateView {
                            header: BlockHeaderView {
                                version: 1,
                                prev_block_hash: d.block.header.hash(),
                                merkle_root: merkle_root(txids_of(all)),
                                timestamp,
                                n_bits: compact_of(target) as u32,
                                nonce: 0,
                            },
                            transactions: all,
                            height,
                        },
                    ),
                },
            }
        },
    }
}

/// The result of building a template is what the specification says.
pub open spec fn built(
    r: Result<BlockTemplate, MiningError>,
    want: Result<TemplateView, MiningFault>,
) -> bool {
    match r {
        Ok(t) => want == Ok::<TemplateView, MiningFault>(t@),
        Err(e) => want == Err::<TemplateView, MiningFault>(e.fault()),
    }
}

/// The header of a template with a nonce.
pub open spec fn with_nonce(header: BlockHeaderView, nonce: u64) -> BlockHeaderView {
    BlockHeaderView { nonce, ..header }
}

fn chain_error(message: &str) -> (e: MiningError)
    ensures
        e.fault() == MiningFault::ChainError,
{
    MiningError::ChainError(message.to_owned())
}

impl Miner {
    pub fn new(params: ChainParams, mining_address: Vec<u8>) -> (r: Self)
        ensures
            r.params == params,
            r.mining_address == mining_address,
    {
        Miner { params, mining_address }
    }

    /// The coinbase of a block: it states the height (BIP34 style: length, then
    /// little-endian bytes) and pays subsidy and fees to a script.
    pub fn create_coinbase_internal(
        &self,
        height: u32,
        subsidy: u64,
        fees: u64,
        script_pubkey: Vec<u8>,
    ) -> (tx: Transaction)
        requires
            subsidy + fees <= u64::MAX,
        ensures
            tx@ == coinbase_for(height, (subsidy + fees) as u64, script_pubkey@),
    {
        let mut script_sig: Vec<u8> = Vec::new();
        script_sig.push(4);
        append_bytes(&mut script_sig, &u32_to_le(height));
        assert(script_sig@ =~= seq![4u8] + le_bytes(height as nat, 4));
        let zero: Hash256 = [0u8; 32];
        assert(zero@ =~= zero_hash());
        let mut inputs: Vec<TxInput> = Vec::new();
        inputs.push(
            TxInput { prev_txid: zero, prev_index: 0xFFFF_FFFF, script_sig, sequence: 0xFFFF_FFFF },
        );
        let ghost pays_to = script_pubkey@;
        let mut outputs: Vec<TxOutput> = Vec::new();
        outputs.push(TxOutput { value: subsidy + fees, script_pubkey });
        let mut witnesses: Vec<Witness> = Vec::new();
        let empty = Witness { stack_items: Vec::new() };
        assert(empty@ =~= Seq::empty());
        witnesses.push(empty);
        let tx = Transaction { version: 1, inputs, outputs, witnesses, locktime: 0 };
        proof {
            let want = coinbase_for(height, (subsidy + fees) as u64, pays_to);
            assert(tx@.inputs =~= want.inputs);
            assert(tx@.outputs =~= want.outputs);
            assert(tx@.witnesses =~= want.witnesses);
        }
        tx
    }

    /// Build a block template from the current chain tip that pays to the
    /// miner's address. Reads chain state and does not search for a nonce.
    pub fn build_template(&self, chain: &ChainState, transactions: Vec<Transaction>) -> (r: Result<
        BlockTemplate,
        MiningError,
    >)
        requires
            self.params.valid(),
        ensures
            exists|now: u64|
                clock_showed(now) && built(
                    r,
                    #[trigger] template_for(
                        chain@,
                        self.params,
                        views(transactions@),
                        self.mining_address@,
                        now,
                    ),
                ),
    {
        let script = self.mining_address.clone();
        assert(script@ =~= self.mining_address@);
        self.build_template_to(chain, transactions, script)
    }

    /// Build a block template that pays to a given script.
    pub fn build_template_to(
        &self,
        chain: &ChainState,
        transactions: Vec<Transaction>,
        script_pubkey: Vec<u8>,
    ) -> (r: Result<BlockTemplate, MiningError>)
        requires
            self.params.valid(),
        ensures
            exists|now: u64|
                clock_showed(now) && built(
                    r,
                    #[trigger] template_for(
                        chain@,
                        self.params,
                        views(transactions@),
                        script_pubkey@,
                        now,
                    ),
                ),
    {
        let now = read_clock();
        self.build_template_with_script(chain, transactions, script_pubkey, now)
    }

    /// Build a block template at a given time.
    pub fn build_template_with_script(
        &self,
        chain: &ChainState,
        transactions: Vec<Transaction>,
        script_pubkey: Vec<u8>,
        now: u64,
    ) -> (r: Result<BlockTemplate, MiningError>)
        requires
            self.params.valid(),
        ensures
            built(
                r,
                template_for(chain@, self.params, views(transactions@), script_pubkey@, now),
            ),
    {
        let tip = match chain.get_tip() {
            Ok(Some(tip)) => tip,
            Ok(None) => return Err(chain_error("Chain tip not found")),
            Err(_) => return Err(chain_error("Chain tip not found")),
        };
        if tip.height == u64::MAX {
            return Err(chain_error("Height out of range"));
        }
        let height: u32 = (tip.height + 1) as u32;
        let subsidy: u64 = calculate_subsidy(height);
        let ghost pays_to = script_pubkey@;
        let coinbase = self.create_coinbase_internal(height, subsidy, 0, script_pubkey);
        let ghost all = seq![coinbase@] + views(transactions@);
        let mut all_txs: Vec<Transaction> = Vec::new();
        all_txs.push(coinbase);
        let mut i: usize = 0;
        assert(all.take(1) =~= views(all_txs@));
        while i < transactions.len()
            invariant
                i <= transactions.len(),
                all == seq![coinbase@] + views(transactions@),
                views(all_txs@) == all.take(i + 1),
            decreases transactions.len() - i,
        {
            let ghost before = all_txs@;
            all_txs.push(transactions[i].clone());
            proof {
                assert(all[i + 1] == transactions@[i as int]@);
                assert(views(all_txs@) =~= views(before).push(all[i + 1]));
                assert(all.take(i + 2) =~= all.take(i + 1).push(all[i + 1]));
            }
            i += 1;
        }
        assert(all.take(i + 1) =~= all);
        let mut txids: Vec<Hash256> = Vec::new();
        let mut k: usize = 0;
        while k < all_txs.len()
            invariant
                k <= all_txs.len(),
                views(all_txs@) == all,
                txids.len() == k,
                forall|j: int| 0 <= j < k ==> (#[trigger] txids@[j])@ == txids_of(all)[j],
            decreases all_txs.len() - k,
        {
            assert(all[k as int] == all_txs@[k as int]@);
            txids.push(all_txs[k].txid());
            k += 1;
        }
        assert(views(txids@) =~= txids_of(all));
        let merkle_root = compute_merkle_root(&txids);
        let timestamp: u64 = match next_block_timestamp_at(chain, now) {
            Ok(t) => t,
            Err(e) => return Err(e),
        };
        let target = match calculate_next_target(&tip.block.header, timestamp, &self.params) {
            Ok(t) => t,
            Err(_) => return Err(chain_error("No target for the next block")),
        };
        let n_bits: u32 = u256_to_compact(&target);
        let prev_block_hash = tip.block.header.hash();
        let header = BlockHeader {
            version: 1,
            prev_block_hash,
            merkle_root,
            timestamp,
            n_bits,
            nonce: 0,
        };
        Ok(BlockTemplate { header, transactions: all_txs, height })
    }

    /// Finishes a template with a nonce, given the proof-of-work hash of its
    /// header with that nonce.
    pub fn solve_template(&self, template: BlockTemplate, nonce: u64, pow_hash: &Hash256) -> (r:
        Result<(BlockHeader, Vec<Transaction>), MiningError>)
        ensures
            r is Ok <==> with_nonce(template@.header, nonce).meets_target(pow_hash@),
            match r {
                Ok((header, txs)) => header@ == with_nonce(template@.header, nonce) && views(txs@)
                    == template@.transactions,
                Err(e) => e.fault() == MiningFault::ChainError,
            },
    {
        let header = BlockHeader { nonce, ..template.header };
        match header.check_proof_of_work(pow_hash) {
            Ok(met) => {
                if !met {
                    return Err(chain_error("PoW verification failed"));
                }
            },
            Err(_) => return Err(chain_error("Target cannot be decoded")),
        }
        Ok((header, template.transactions))
    }

    /// Finishes a template with a nonce and adds the block to the chain, at a
    /// given time.
    pub fn attach_solution(
        &self,
        chain: &mut ChainState,
        template: BlockTemplate,
        nonce: u64,
        pow_hash: &Hash256,
        now: u64,
    ) -> (r: Result<BlockHeader, MiningError>)
        requires
            old(chain).params.valid(),
        ensures
            ({
                let header = with_nonce(template@.header, nonce);
                let block = BlockView { header, transactions: template@.transactions };
                let added = add_block(old(chain)@, block, pow_hash@, now);
                if !header.meets_target(pow_hash@) {
                    &&& final(chain)@ == old(chain)@
                    &&& r matches Err(e) && e.fault() == MiningFault::ChainError
                } else {
                    &&& final(chain)@ == added.chain
                    &&& r is Ok <==> added.result is Ok
                    &&& match r {
                        Ok(h) => h@ == header,
                        Err(e) => e.fault() == MiningFault::ChainError,
                    }
                }
            }),
            final(chain).params == old(chain).params,
            final(chain).saved() == old(chain).saved(),
            ({
                let header = with_nonce(template@.header, nonce);
                let block = BlockView { header, transactions: template@.transactions };
                endures(old(chain)@, block, pow_hash@, now, final(chain)@)
            }),
    {
        let (header, transactions) = match self.solve_template(template, nonce, pow_hash) {
            Ok(solved) => solved,
            Err(e) => return Err(e),
        };
        match chain.add_block_at(Block { header, transactions }, pow_hash, now) {
            Ok(_) => Ok(header),
            Err(_) => Err(chain_error("Block was not added")),
        }
    }
}

/// The nonces that one of several workers tries.
#[derive(Debug, Clone, Copy)]
pub struct NonceSearch {
    pub start: u64,
    pub range: u64,
    pub current: u64,
}

/// What a worker does next.
#[derive(Debug, Clone, Copy, PartialEq, Eq, Structural)]
pub enum SearchStep {
    /// The nonce that was tried solves the block.
    Solved(u64),
    /// Another nonce is to be tried.
    Try(u64),
}

impl NonceSearch {
    /// The current nonce lies in the range of the worker.
    pub open spec fn valid(self) -> bool {
        self.range > 0 && self.start <= self.current < self.start + self.range && self.start
            + self.range <= u64::MAX
    }

    /// The search of one of several workers, at its first nonce. The nonces are
    /// shared out evenly.
    pub fn for_worker(worker_id: u64, num_workers: u64) -> (r: Self)
        requires
            worker_id < num_workers,
        ensures
            r.valid(),
            r.range == u64::MAX / num_workers,
            r.start == worker_id * r.range,
            r.current == r.start,
    {
        let range: u64 = u64::MAX / num_workers;
        proof {
            let n = num_workers as int;
            let q = range as int;
            let w = worker_id as int;
            assert(q >= 1 && q * n <= u64::MAX) by (nonlinear_arith)
                requires
                    q == 0xffff_ffff_ffff_ffffint / n,
                    0 < n <= 0xffff_ffff_ffff_ffff,
            ;
            assert(w * q + q <= q * n && w * q >= 0) by (nonlinear_arith)
                requires
                    0 <= w < n,
                    q >= 1,
            ;
        }
        let start: u64 = worker_id * range;
        NonceSearch { start, range, current: start }
    }

    /// What comes after the current nonce was tried on a header and had a
    /// proof-of-work hash. Behind the last nonce of the range the search starts
    /// over.
    pub fn observe(&mut self, header: &BlockHeader, pow_hash: &Hash256) -> (step: SearchStep)
        requires
            old(self).valid(),
        ensures
            final(self).valid(),
            final(self).start == old(self).start,
            final(self).range == old(self).range,
            if with_nonce(header@, old(self).current).meets_target(pow_hash@) {
                final(self).current == old(self).current && step == SearchStep::Solved(
                    old(self).current,
                )
            } else {
                final(self).current == old(self).start + (old(self).current - old(self).start + 1)
                    % (old(self).range as int) && step == SearchStep::Try(final(self).current)
            },
    {
        let tried = BlockHeader { nonce: self.current, ..*header };
        let met = match tried.check_proof_of_work(pow_hash) {
            Ok(met) => met,
            Err(_) => false,
        };
        if met {
            return SearchStep::Solved(self.current);
        }
        let next: u64 = self.current + 1;
        if next == self.start + self.range {
            proof {
                vstd::arithmetic::div_mod::lemma_mod_self_0(self.range as int);
            }
            self.current = self.start;
        } else {
            proof {
                vstd::arithmetic::div_mod::lemma_small_mod(
                    (next - self.start) as nat,
                    self.range as nat,
                );
            }
            self.current = next;
        }
        SearchStep::Try(self.current)
    }
}

/// Different workers try different nonces.
pub proof fn lemma_workers_disjoint(a: NonceSearch, b: NonceSearch, i: u64, j: u64, n: u64)
    requires
        a.valid(),
        b.valid(),
        i < j < n,
        a.range == u64::MAX / n,
        b.range == u64::MAX / n,
        a.start == i * a.range,
        b.start == j * b.range,
    ensures
        a.current < b.current,
{
    let q = a.range as int;
    assert(i * q + q <= j * q) by (nonlinear_arith)
        requires
            i < j,
            q >= 0,
    ;
}

/// A coinbase states the height that it was made for, up to `2^31`.
pub proof fn lemma_coinbase_states_height(height: u32, value: u64, script_pubkey: Seq<u8>)
    requires
        height < 0x8000_0000,
    ensures
        is_coinbase_tx(coinbase_for(height, value, script_pubkey)),
        height_error(coinbase_for(height, value, script_pubkey), height) is None,
{
    let bytes = seq![4u8] + le_bytes(height as nat, 4);
    let data = bytes.subrange(1, 5);
    lemma_le_bytes_len(height as nat, 4);
    lemma_byte_range_values();
    lemma_le_value_of_bytes(height as nat, 4);
    assert(data =~= le_bytes(height as nat, 4));
    let low = data.take(3);
    assert(data =~= low + seq![data[3]]);
    lemma_le_value_concat(low, seq![data[3]]);
    reveal_with_fuel(le_value, 2);
    assert(le_value(seq![data[3]]) == data[3] as nat);
    let t = le_value(seq![data[3]]);
    let p = crate::primitives::bytes::byte_range(3);
    let rest = le_value(low);
    assert(low.len() == 3);
    assert(t < 128) by (nonlinear_arith)
        requires
            rest + p * t == height,
            p == 0x100_0000,
            rest >= 0,
            height < 0x8000_0000,
    ;
    assert(magnitude_bytes(data) =~= data);
    assert(script_number(bytes) == Some(height as int));
}

/// A coinbase that pays the subsidy pays no more than it may, whatever the fees.
pub proof fn lemma_coinbase_pays_subsidy(height: u32, fees: u64, script_pubkey: Seq<u8>)
    requires
        subsidy_at(height) + fees <= u64::MAX,
    ensures
        reward_error(
            coinbase_for(height, subsidy_at(height) as u64, script_pubkey),
            fees,
            height,
        ) is None,
{
    lemma_subsidy_falls(height, height);
    let tx = coinbase_for(height, subsidy_at(height) as u64, script_pubkey);
    assert(tx.outputs.drop_last() =~= Seq::empty());
    reveal_with_fuel(total_value, 2);
}

/// Where the last blocks are all at hand, the headers before the next block are
/// those whose timestamps the median is taken of.
pub proof fn lemma_recent_times_are_ancestors(chain: ChainView, hash: Seq<u8>, n: nat)
    requires
        forall|h: Seq<u8>| chain.header_of(h) is Some ==> #[trigger] chain.cached(h) is Some,
    ensures
        timestamps_of(ancestors(chain, hash, n)) == recent_times(chain, hash, n),
    decreases n,
{
    if n > 0 {
        if let Some(h) = chain.header_of(hash) {
            assert(chain.cached(hash) is Some);
            if h.prev_block_hash != zero_hash() {
                lemma_recent_times_are_ancestors(chain, h.prev_block_hash, (n - 1) as nat);
            }
            assert(timestamps_of(ancestors(chain, hash, n)) =~= recent_times(chain, hash, n));
        } else {
            assert(timestamps_of(ancestors(chain, hash, n)) =~= recent_times(chain, hash, n));
        }
    } else {
        assert(timestamps_of(ancestors(chain, hash, n)) =~= recent_times(chain, hash, n));
    }
}

/// The timestamp that is chosen for a block passes the check on the timestamps of
/// blocks, at the same time, where that check looks at the same blocks.
pub proof fn lemma_chosen_timestamp_is_valid(chain: ChainView, header: BlockHeaderView, now: u64)
    requires
        chain.tip is Some,
        timestamp_choice(median_time(chain), now) == Some(header.timestamp),
        timestamps_of(ancestors(chain, chain.tip->Some_0, MEDIAN_WINDOW as nat)) == recent_times(
            chain,
            chain.tip->Some_0,
            MEDIAN_WINDOW as nat,
        ),
    ensures
        timestamp_error(
            header,
            ancestors(chain, chain.tip->Some_0, MEDIAN_WINDOW as nat),
            now,
        ) is None,
{
    let prev = ancestors(chain, chain.tip->Some_0, MEDIAN_WINDOW as nat);
    let times = timestamps_of(prev);
    if prev.len() > 0 {
        lemma_in_order(times);
        let n = times.len() as int;
        assert(in_order(times).len() == n);
        assert(lower_median(times) <= in_order(times)[n / 2]);
    }
}

} // verus!
