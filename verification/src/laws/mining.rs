//! What a block that is made looks like.

use crate::consensus::chain_model::{median_time, ChainView};
use crate::consensus::difficulty::{
    compact_of, difficulty_error, lemma_computed_target_validates, next_target,
};
use crate::consensus::merkle::merkle_root;
use crate::consensus::params::ChainParams;
use crate::consensus::transaction::TransactionView;
use crate::consensus::validation::{height_error, lemma_subsidy_falls, subsidy_at, txids_of};
use crate::laws::blocks::{spends_nothing, worth};
use crate::mining::miner::{
    coinbase_for, lemma_coinbase_states_height, template_for, timestamp_choice, with_nonce,
};
use crate::primitives::bytes::lemma_le_bytes_len;
use vstd::prelude::*;

verus! {

/// A block is given the time of the clock, or the first time behind the median where that is later;
/// it is given none exactly where that time lies more than two hours ahead or cannot be written.
pub proof fn lemma_time_chosen(median: u64, now: u64)
    ensures
        match timestamp_choice(median, now) {
            Some(t) => {
                &&& t > median
                &&& now <= t <= now + 7200
                &&& t == now || t == median + 1
            },
            None => median + 1 > now + 7200 || now + 7200 > 0xFFFF_FFFF_FFFF_FFFF,
        },
{
}

/// Of a later clock reading no earlier time comes.
pub proof fn lemma_time_rises(median: u64, a: u64, b: u64)
    requires
        a <= b,
        timestamp_choice(median, a) is Some,
        timestamp_choice(median, b) is Some,
    ensures
        timestamp_choice(median, a)->Some_0 <= timestamp_choice(median, b)->Some_0,
{
}

/// A coinbase that is made spends nothing, states its height, and pays all of a value to one script.
pub proof fn lemma_made_coinbase(height: u32, value: u64, script: Seq<u8>)
    ensures
        ({
            let tx = coinbase_for(height, value, script);
            &&& spends_nothing(tx)
            &&& tx.version == 1
            &&& tx.locktime == 0
            &&& tx.inputs[0].sequence == 0xFFFF_FFFF
            &&& tx.outputs.len() == 1
            &&& tx.outputs[0].script_pubkey == script
            &&& worth(tx.outputs) == value
            &&& !tx.has_witness()
            &&& tx.witnesses.len() == 1
            &&& height < 0x8000_0000 ==> height_error(tx, height) is None
            &&& tx.inputs[0].script_sig.len() == 5
        }),
{
    let tx = coinbase_for(height, value, script);
    if height < 0x8000_0000 {
        lemma_coinbase_states_height(height, value, script);
    }
    lemma_le_bytes_len(height as nat, 4);
    assert(tx.outputs.skip(1).len() == 0);
    assert(worth(tx.outputs.skip(1)) == 0);
    assert(worth(tx.outputs) == tx.outputs[0].value as nat + worth(tx.outputs.skip(1)));
}

/// A template follows the tip: it names it, lies one above it, holds the transactions that were
/// given behind a coinbase that pays the subsidy of its height to a script, states the root over
/// their identifiers, and a time later than the median and not too far ahead.
pub proof fn lemma_template_follows(
    chain: ChainView,
    params: ChainParams,
    txs: Seq<TransactionView>,
    script: Seq<u8>,
    now: u64,
)
    requires
        template_for(chain, params, txs, script, now) is Ok,
    ensures
        ({
            let t = template_for(chain, params, txs, script, now)->Ok_0;
            let tip = chain.cached(chain.tip->Some_0)->Some_0;
            &&& chain.tip is Some && chain.cached(chain.tip->Some_0) is Some
            &&& t.header.prev_block_hash == tip.block.header.hash()
            &&& tip.height < 0xFFFF_FFFF ==> t.height == tip.height + 1
            &&& t.transactions.len() == txs.len() + 1
            &&& t.transactions.skip(1) == txs
            &&& spends_nothing(t.transactions[0])
            &&& worth(t.transactions[0].outputs) == subsidy_at(t.height)
            &&& t.transactions[0].outputs.len() == 1
            &&& t.transactions[0].outputs[0].script_pubkey == script
            &&& t.height < 0x8000_0000 ==> height_error(t.transactions[0], t.height) is None
            &&& t.header.merkle_root == merkle_root(txids_of(t.transactions))
            &&& t.header.timestamp > median_time(chain)
            &&& now <= t.header.timestamp <= now + 7200
            &&& t.header.version == 1
        }),
{
    let t = template_for(chain, params, txs, script, now)->Ok_0;
    lemma_subsidy_falls(t.height, t.height);
    lemma_made_coinbase(t.height, subsidy_at(t.height) as u64, script);
    lemma_time_chosen(median_time(chain), now);
    assert(t.transactions.skip(1) =~= txs);
}

/// Whatever nonce it is given, a template states the target that a block behind the tip has to have.
pub proof fn lemma_template_states_target(
    chain: ChainView,
    params: ChainParams,
    txs: Seq<TransactionView>,
    script: Seq<u8>,
    now: u64,
    nonce: u64,
)
    requires
        params.difficulty_adjustment,
        !params.allow_min_difficulty_blocks,
        template_for(chain, params, txs, script, now) is Ok,
        next_target(
            chain.cached(chain.tip->Some_0)->Some_0.block.header,
            template_for(chain, params, txs, script, now)->Ok_0.header.timestamp,
            params,
        ) matches Ok(t) && 0 < t && compact_of(t) <= 0xFFFF_FFFF,
    ensures
        ({
            let header = with_nonce(template_for(chain, params, txs, script, now)->Ok_0.header, nonce);
            let tip = chain.cached(chain.tip->Some_0)->Some_0.block.header;
            &&& difficulty_error(tip, header, params) is None
            &&& header.nonce == nonce
            &&& header.timestamp == template_for(chain, params, txs, script, now)->Ok_0.header.timestamp
            &&& header.prev_block_hash == tip.hash()
        }),
{
    let header = with_nonce(template_for(chain, params, txs, script, now)->Ok_0.header, nonce);
    let tip = chain.cached(chain.tip->Some_0)->Some_0.block.header;
    lemma_computed_target_validates(tip, header, params);
}

} // verus!
