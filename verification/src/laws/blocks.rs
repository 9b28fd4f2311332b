//! What a block has to keep to.

use crate::collections::sort::{ascending, in_order, insert_in_order, lemma_in_order};
use crate::consensus::block::BlockHeaderView;
use crate::consensus::merkle::{merkle_parents, merkle_root, witness_merkle_root};
use crate::consensus::transaction::{total_value, Transaction, TransactionView, TxOutputView};
use crate::consensus::validation::{
    block_error, height_error, is_coinbase_tx, is_commitment, lower_median, magnitude_bytes,
    reward_error, subsidy_at, timestamp_error, timestamps_of, tx_weight, txids_of, weight_of,
    witness_commitment, ValidationError,
};
use crate::primitives::bytes::le_value;
use crate::primitives::hash::sha256_bytes;
use crate::primitives::serialize::Encode;
use vstd::arithmetic::div_mod::lemma_div_denominator;
use vstd::arithmetic::power2::{
    lemma2_to64, lemma2_to64_rest, lemma_pow2_adds, lemma_pow2_pos, pow2,
};
use vstd::prelude::*;

verus! {

/// How many of the numbers lie below a bound.
pub open spec fn count_below(times: Seq<u64>, bound: u64) -> nat
    decreases times.len(),
{
    if times.len() == 0 {
        0
    } else {
        count_below(times.drop_last(), bound) + (if times.last() < bound {
            1nat
        } else {
            0nat
        })
    }
}

proof fn lemma_count_insert(s: Seq<u64>, x: u64, bound: u64)
    ensures
        count_below(insert_in_order(s, x), bound) == count_below(s, bound) + (if x < bound {
            1nat
        } else {
            0nat
        }),
    decreases s.len(),
{
    if s.len() == 0 || s.last() <= x {
        assert(s.push(x).drop_last() =~= s);
    } else {
        let placed = insert_in_order(s.drop_last(), x);
        lemma_count_insert(s.drop_last(), x, bound);
        assert(placed.push(s.last()).drop_last() =~= placed);
    }
}

proof fn lemma_count_in_order(s: Seq<u64>, bound: u64)
    ensures
        count_below(in_order(s), bound) == count_below(s, bound),
    decreases s.len(),
{
    if s.len() > 0 {
        lemma_count_in_order(s.drop_last(), bound);
        lemma_count_insert(in_order(s.drop_last()), s.last(), bound);
    }
}

proof fn lemma_count_ascending(s: Seq<u64>, bound: u64)
    requires
        ascending(s),
    ensures
        count_below(s, bound) <= s.len(),
        forall|i: int| 0 <= i < s.len() ==> ((#[trigger] s[i]) < bound <==> i < count_below(s, bound)),
    decreases s.len(),
{
    if s.len() > 0 {
        let front = s.drop_last();
        assert(ascending(front));
        lemma_count_ascending(front, bound);
        assert forall|i: int| 0 <= i < s.len() implies ((#[trigger] s[i]) < bound <==> i
            < count_below(s, bound)) by {
            if i < front.len() {
                assert(front[i] == s[i]);
            }
            if s.last() < bound && front.len() > 0 {
                assert(front[front.len() - 1] == s[s.len() - 2]);
                assert(s[s.len() - 2] <= s[s.len() - 1]);
            }
        }
    }
}

/// Of ordered numbers, the one at a place lies below a bound exactly if more numbers than stand
/// before it do.
pub proof fn lemma_median_counts(times: Seq<u64>, bound: u64, m: int)
    requires
        0 <= m < times.len(),
    ensures
        in_order(times)[m] < bound <==> count_below(times, bound) > m,
{
    lemma_in_order(times);
    lemma_count_in_order(times, bound);
    lemma_count_ascending(in_order(times), bound);
}

/// A number is later than the median exactly if at least half of the numbers lie below it, and the
/// median is one of them.
pub proof fn lemma_median_splits(times: Seq<u64>, bound: u64)
    requires
        times.len() > 0,
    ensures
        bound > lower_median(times) <==> 2 * count_below(times, bound) >= times.len(),
        times.contains(lower_median(times)),
{
    lemma_in_order(times);
    lemma_count_in_order(times, bound);
    let s = in_order(times);
    lemma_count_ascending(s, bound);
    let n = times.len() as int;
    let m = if n % 2 == 0 {
        n / 2 - 1
    } else {
        n / 2
    };
    assert(s[m] == lower_median(times));
    broadcast use vstd::seq_lib::group_to_multiset_ensures;

    assert(s.contains(s[m]));
    assert(s.to_multiset().count(s[m]) > 0);
}

/// The times that headers state.
pub open spec fn stated_times(headers: Seq<BlockHeaderView>) -> Seq<u64> {
    Seq::new(headers.len(), |i: int| headers[i].timestamp)
}

/// The first block may state any time. Any other states one that lies behind at least half of
/// those before it, and no more than two hours ahead of the clock.
pub proof fn lemma_time_allowed(header: BlockHeaderView, prev: Seq<BlockHeaderView>, now: u64)
    ensures
        prev.len() == 0 ==> timestamp_error(header, prev, now) is None,
        prev.len() > 0 ==> {
            let behind = 2 * count_below(stated_times(prev), header.timestamp) >= prev.len();
            &&& timestamp_error(header, prev, now) is None <==> behind && header.timestamp <= now
                + 7200
            &&& timestamp_error(header, prev, now) == Some(ValidationError::TimestampTooOld)
                <==> !behind
            &&& timestamp_error(header, prev, now) == Some(
                ValidationError::TimestampTooFarFuture,
            ) <==> behind && header.timestamp > now + 7200
        },
{
    if prev.len() > 0 {
        assert(timestamps_of(prev) =~= stated_times(prev));
        lemma_median_splits(stated_times(prev), header.timestamp);
    }
}

/// The first 840000 blocks may pay 50 coins each.
pub proof fn lemma_first_subsidy(height: u32)
    requires
        height < 840_000,
    ensures
        subsidy_at(height) == 5_000_000_000,
{
    lemma2_to64();
}

/// 840000 blocks later a block may pay half as much, rounded down.
pub proof fn lemma_subsidy_halves(height: u32)
    requires
        height + 840_000 <= u32::MAX,
    ensures
        subsidy_at((height + 840_000) as u32) == subsidy_at(height) / 2,
{
    let k = (height / 840_000) as nat;
    assert((height + 840_000) / 840_000 == k + 1);
    if k < 64 {
        lemma_pow2_adds(k, 1);
        lemma2_to64();
        lemma_pow2_pos(k);
        assert(pow2(k + 1) == pow2(k) * 2);
        lemma_div_denominator(5_000_000_000, pow2(k) as int, 2);
        if k == 63 {
            lemma2_to64_rest();
            assert(pow2(63) == 0x8000_0000_0000_0000);
            assert(5_000_000_000nat / pow2(63) == 0) by (nonlinear_arith)
                requires
                    pow2(63) == 0x8000_0000_0000_0000,
            ;
        }
    }
}

/// What outputs are worth together.
pub open spec fn worth(outputs: Seq<TxOutputView>) -> nat
    decreases outputs.len(),
{
    if outputs.len() == 0 {
        0
    } else {
        outputs[0].value as nat + worth(outputs.skip(1))
    }
}

/// The sum over outputs is what they are worth together.
pub proof fn lemma_worth(outputs: Seq<TxOutputView>)
    ensures
        total_value(outputs) == worth(outputs),
    decreases outputs.len(),
{
    if outputs.len() == 1 {
        assert(outputs.skip(1).len() == 0);
        assert(worth(outputs.skip(1)) == 0);
        assert(outputs.drop_last().len() == 0);
        assert(total_value(outputs.drop_last()) == 0);
    } else if outputs.len() > 1 {
        let front = outputs.drop_last();
        let rest = outputs.skip(1);
        lemma_worth(front);
        lemma_worth(rest);
        lemma_worth(front.skip(1));
        assert(front.skip(1) =~= rest.drop_last());
        assert(front[0] == outputs[0]);
        assert(rest.last() == outputs.last());
    }
}

/// A coinbase may pay out the subsidy and the fees, and no more.
pub proof fn lemma_reward_bounded(coinbase: TransactionView, fees: u64, height: u32)
    ensures
        reward_error(coinbase, fees, height) is None <==> {
            &&& worth(coinbase.outputs) <= subsidy_at(height) + fees
            &&& worth(coinbase.outputs) <= 2_100_000_000_000_000
            &&& subsidy_at(height) + fees <= 0xFFFF_FFFF_FFFF_FFFF
        },
{
    lemma_worth(coinbase.outputs);
}

/// A coinbase states its height as a number of one to eight bytes behind their count.
pub proof fn lemma_height_stated(coinbase: TransactionView, height: u32, n: int)
    requires
        coinbase.inputs.len() > 0,
        coinbase.inputs[0].script_sig.len() > 0,
        coinbase.inputs[0].script_sig[0] == n,
    ensures
        n == 0 || n > 8 || coinbase.inputs[0].script_sig.len() <= n ==> height_error(
            coinbase,
            height,
        ) == Some(ValidationError::InvalidHeightCommitment),
        1 <= n <= 8 && coinbase.inputs[0].script_sig.len() > n
            && coinbase.inputs[0].script_sig[n] < 128 ==> (height_error(coinbase, height) is None
            <==> le_value(coinbase.inputs[0].script_sig.subrange(1, n + 1)) == height),
        1 <= n <= 8 && coinbase.inputs[0].script_sig.len() > n
            && coinbase.inputs[0].script_sig[n] >= 128 && height > 0 ==> height_error(
            coinbase,
            height,
        ) == Some(ValidationError::WrongHeightCommitment),
{
    let script = coinbase.inputs[0].script_sig;
    if 1 <= n <= 8 && script.len() > n {
        let data = script.subrange(1, n + 1);
        assert(data.last() == script[n]);
        if script[n] < 128 {
            assert(magnitude_bytes(data) =~= data);
        }
    }
}

/// A coinbase without an input, or without a script, states no height.
pub proof fn lemma_height_not_stated(coinbase: TransactionView, height: u32)
    requires
        coinbase.inputs.len() == 0 || coinbase.inputs[0].script_sig.len() == 0,
    ensures
        height_error(coinbase, height) is Some,
{
}

/// What a transaction may look like: version one or two, something to spend and something to pay,
/// a witness for every input or none at all, and values that are no more than there is.
pub open spec fn well_made(tx: TransactionView) -> bool {
    &&& tx.version == 1 || tx.version == 2
    &&& tx.inputs.len() > 0
    &&& tx.outputs.len() > 0
    &&& tx.witnesses.len() == 0 || tx.witnesses.len() == tx.inputs.len()
    &&& worth(tx.outputs) <= 0xFFFF_FFFF_FFFF_FFFF
    &&& forall|i: int|
        0 <= i < tx.outputs.len() ==> (#[trigger] tx.outputs[i]).value <= 2_100_000_000_000_000
}

/// A transaction breaks no rule exactly if it is well made.
pub proof fn lemma_well_made(tx: TransactionView)
    ensures
        tx.structure_error() is None <==> well_made(tx),
{
    lemma_worth(tx.outputs);
}

/// Whether a transaction spends nothing: its one input names the last place of no transaction.
pub open spec fn spends_nothing(tx: TransactionView) -> bool {
    &&& tx.inputs.len() == 1
    &&& tx.inputs[0].prev_txid.len() == 32
    &&& forall|i: int| 0 <= i < 32 ==> (#[trigger] tx.inputs[0].prev_txid[i]) == 0
    &&& tx.inputs[0].prev_index == 4_294_967_295
}

proof fn lemma_spends_nothing(tx: TransactionView)
    ensures
        is_coinbase_tx(tx) == spends_nothing(tx),
{
    if spends_nothing(tx) {
        assert(tx.inputs[0].prev_txid =~= crate::consensus::merkle::zero_hash());
    }
}

/// What transactions weigh: four for each byte, but one for each byte of a witness.
pub open spec fn weight(txs: Seq<TransactionView>) -> nat
    decreases txs.len(),
{
    if txs.len() == 0 {
        0
    } else {
        weight(txs.drop_last()) + 4 * txs.last().stripped().len() + (Transaction::encoding(
            txs.last(),
        ).len() - txs.last().stripped().len()) as nat
    }
}

proof fn lemma_weight(txs: Seq<TransactionView>, n: nat)
    requires
        n <= txs.len(),
    ensures
        weight_of(txs, n) == weight(txs.take(n as int)),
    decreases n,
{
    if n > 0 {
        lemma_weight(txs, (n - 1) as nat);
        let part = txs.take(n as int);
        assert(part.drop_last() =~= txs.take(n - 1));
        crate::consensus::transaction::lemma_witnesses_follow(part.last());
        assert(tx_weight(part.last()) == 4 * part.last().stripped().len() + (Transaction::encoding(
            part.last(),
        ).len() - part.last().stripped().len()));
    }
}

/// Whether an output carries the mark of a commitment to the witnesses.
pub open spec fn marked(script: Seq<u8>) -> bool {
    script.len() >= 38 && script.take(6) == seq![0x6au8, 0x24, 0xaa, 0x21, 0xa9, 0xed]
}

proof fn lemma_marked(script: Seq<u8>)
    ensures
        is_commitment(script) == marked(script),
{
    let mark = seq![0x6au8, 0x24, 0xaa, 0x21, 0xa9, 0xed];
    if is_commitment(script) {
        assert(script.take(6) =~= mark);
    }
    if marked(script) {
        let front = script.take(6);
        assert(front[0] == mark[0] && front[1] == mark[1] && front[2] == mark[2] && front[3]
            == mark[3] && front[4] == mark[4] && front[5] == mark[5]);
    }
}

/// Whether a coinbase commits to the witnesses of a block, where there are any.
pub open spec fn commits(coinbase: TransactionView, txs: Seq<TransactionView>) -> bool {
    (exists|i: int, j: int|
        0 <= i < txs.len() && 0 <= j < txs[i].witnesses.len() && #[trigger] txs[i].witnesses[j].len()
            > 0) ==> {
        &&& exists|k: int|
            0 <= k < coinbase.outputs.len() && #[trigger] marked(coinbase.outputs[k].script_pubkey)
        &&& forall|k: int|
            0 <= k < coinbase.outputs.len() && #[trigger] marked(coinbase.outputs[k].script_pubkey)
                ==> coinbase.outputs[k].script_pubkey.subrange(6, 38) == witness_commitment(
                coinbase,
                txs,
            )
    }
}

proof fn lemma_commits(coinbase: TransactionView, txs: Seq<TransactionView>)
    ensures
        crate::consensus::validation::commitment_error(coinbase, txs) is None <==> commits(
            coinbase,
            txs,
        ),
{
    let outs = coinbase.outputs;
    assert forall|k: int| 0 <= k < outs.len() implies is_commitment(
        (#[trigger] outs[k]).script_pubkey,
    ) == marked(outs[k].script_pubkey) by {
        lemma_marked(outs[k].script_pubkey);
    }
    if crate::consensus::validation::any_witness(txs) {
        let i = choose|i: int| 0 <= i < txs.len() && (#[trigger] txs[i]).has_witness();
        let j = choose|j: int|
            0 <= j < txs[i].witnesses.len() && (#[trigger] txs[i].witnesses[j]).len() > 0;
        assert(txs[i].witnesses[j].len() > 0);
    }
    if exists|i: int, j: int|
        0 <= i < txs.len() && 0 <= j < txs[i].witnesses.len() && #[trigger] txs[i].witnesses[j].len()
            > 0 {
        let (i, j) = choose|i: int, j: int|
            0 <= i < txs.len() && 0 <= j < txs[i].witnesses.len()
                && #[trigger] txs[i].witnesses[j].len() > 0;
        assert(txs[i].has_witness());
    }
}

/// A block keeps to its own rules exactly if its first transaction and no other spends nothing, its
/// header holds the root over the identifiers of its transactions and a target that its hash
/// reaches, it weighs no more than four million, each transaction is well made, the witnesses are
/// committed to, and no transaction stands in it twice.
pub proof fn lemma_block_keeps_rules(
    header: BlockHeaderView,
    txs: Seq<TransactionView>,
    pow_hash: Seq<u8>,
)
    ensures
        block_error(header, txs, pow_hash) is None <==> {
            &&& txs.len() > 0
            &&& forall|i: int| 0 <= i < txs.len() ==> (spends_nothing(#[trigger] txs[i]) <==> i == 0)
            &&& header.merkle_root == merkle_root(txids_of(txs))
            &&& header.target() matches Ok(target) && le_value(pow_hash) <= target
            &&& weight(txs) <= 4_000_000
            &&& forall|i: int| 0 <= i < txs.len() ==> well_made(#[trigger] txs[i])
            &&& commits(txs[0], txs)
            &&& forall|i: int, j: int|
                0 <= i < j < txs.len() ==> (#[trigger] txs[i]).txid() != (#[trigger] txs[j]).txid()
        },
{
    assert forall|i: int| 0 <= i < txs.len() implies is_coinbase_tx(#[trigger] txs[i])
        == spends_nothing(txs[i]) && (txs[i].structure_error() is None <==> well_made(txs[i])) by {
        lemma_spends_nothing(txs[i]);
        lemma_well_made(txs[i]);
    }
    lemma_weight(txs, txs.len());
    assert(txs.take(txs.len() as int) =~= txs);
    if txs.len() > 0 {
        lemma_commits(txs[0], txs);
        assert(txs[0] == txs[0]);
    }
    let ids = txids_of(txs);
    if ids.no_duplicates() {
        assert forall|i: int, j: int| 0 <= i < j < txs.len() implies (#[trigger] txs[i]).txid() != (
        #[trigger] txs[j]).txid() by {
            assert(ids[i] != ids[j]);
        }
    }
    if forall|i: int, j: int|
        0 <= i < j < txs.len() ==> (#[trigger] txs[i]).txid() != (#[trigger] txs[j]).txid() {
        assert forall|i: int, j: int|
            0 <= i < ids.len() && 0 <= j < ids.len() && i != j implies ids[i] != ids[j] by {
            if i < j {
                assert(txs[i].txid() != txs[j].txid());
            } else {
                assert(txs[j].txid() != txs[i].txid());
            }
        }
        assert(ids.no_duplicates());
    }
}

/// The identifiers stand in the order of their transactions.
pub proof fn lemma_txids_in_order(txs: Seq<TransactionView>, i: int)
    requires
        0 <= i < txs.len(),
    ensures
        txids_of(txs).len() == txs.len(),
        txids_of(txs)[i] == sha256_bytes(sha256_bytes(txs[i].stripped())),
{
}

/// The root over an even number of hashes is the root over the double hashes of neighbours.
pub proof fn lemma_root_over_pairs(level: Seq<Seq<u8>>, above: Seq<Seq<u8>>)
    requires
        above.len() > 0,
        level.len() == 2 * above.len(),
        forall|i: int|
            0 <= i < above.len() ==> #[trigger] above[i] == sha256_bytes(
                sha256_bytes(level[2 * i] + level[2 * i + 1]),
            ),
    ensures
        merkle_root(level) == merkle_root(above),
{
    assert(merkle_parents(level) =~= above);
}

/// The root over nothing is zero, and the root over one hash is that hash.
pub proof fn lemma_root_over_few(hash: Seq<u8>)
    ensures
        merkle_root(seq![hash]) == hash,
        merkle_root(Seq::empty()) == Seq::new(32, |i: int| 0u8),
{
    assert(merkle_root(Seq::empty()) =~= Seq::new(32, |i: int| 0u8));
}

/// What a block commits to: the root over the witness identifiers, with zeros in the place of the
/// coinbase, behind it the value that the coinbase reserves, hashed twice.
pub proof fn lemma_committed_value(
    coinbase: TransactionView,
    txs: Seq<TransactionView>,
    leaves: Seq<Seq<u8>>,
)
    requires
        txs.len() > 0,
        leaves.len() == txs.len(),
        leaves[0] == Seq::new(32, |i: int| 0u8),
        forall|i: int|
            1 <= i < txs.len() ==> #[trigger] leaves[i] == sha256_bytes(
                sha256_bytes(Transaction::encoding(txs[i])),
            ),
    ensures
        coinbase.witnesses.len() > 0 && coinbase.witnesses[0].len() > 0 ==> witness_commitment(
            coinbase,
            txs,
        ) == sha256_bytes(sha256_bytes(merkle_root(leaves) + coinbase.witnesses[0][0])),
        coinbase.witnesses.len() == 0 || coinbase.witnesses[0].len() == 0 ==> witness_commitment(
            coinbase,
            txs,
        ) == sha256_bytes(sha256_bytes(merkle_root(leaves) + Seq::new(32, |i: int| 0u8))),
{
    let rest = crate::consensus::validation::wtxids_of(txs).skip(1);
    let zeros = Seq::new(32, |i: int| 0u8);
    assert(zeros =~= crate::consensus::merkle::zero_hash());
    assert(seq![crate::consensus::merkle::zero_hash()] + rest =~= leaves);
    assert(witness_merkle_root(rest) == merkle_root(leaves));
}

} // verus!
