//! Block validation.

use crate::collections::sort::{in_order, lemma_in_order, sort_numbers};
use crate::consensus::block::{BlockHeader, BlockHeaderView};
use crate::consensus::merkle::{
    compute_merkle_root, compute_witness_merkle_root, merkle_root, witness_merkle_root, zero_hash,
};
use crate::consensus::transaction::{
    lemma_total_value_monotone, total_value, Transaction, TransactionView, MAX_MONEY,
};
use crate::primitives::bytes::{
    append_bytes, byte_range, bytes_equal, le_value, lemma_byte_range_step,
    lemma_byte_range_values,
};
use crate::primitives::clock::{clock_showed, read_clock};
use crate::primitives::hash::{sha256d, sha256d_bytes, Hash256};
use crate::primitives::serialize::{views, Encode};
use vstd::arithmetic::power2::*;
use vstd::bits::*;
use vstd::prelude::*;

verus! {

pub const MAX_BLOCK_WEIGHT: u64 = 4_000_000;

pub const COINBASE_MATURITY: u64 = 100;

/// Maximum number of seconds a block timestamp may exceed the node's wall-clock time.
/// Exposed as a constant so tests and per-network config can reference it directly.
pub const MAX_FUTURE_BLOCK_TIME: u64 = 7_200;

/// Reward of a block before the first halving.
pub const INITIAL_SUBSIDY: u64 = 5_000_000_000;

/// Number of blocks from one halving of the reward to the next.
pub const HALVING_INTERVAL: u32 = 840_000;

#[derive(Debug, Clone, Copy, PartialEq, Eq, Structural)]
pub enum ValidationError {
    NoTransactions,
    NoCoinbase,
    MultipleCoinbases,
    InvalidMerkleRoot,
    InvalidProofOfWork,
    BlockWeightExceeded,
    CoinbaseRewardTooHigh,
    InvalidCoinbaseStructure,
    DuplicateTransaction,
    TransactionStructureInvalid,
    TimestampTooOld,
    TimestampTooFarFuture,
    InvalidWitnessCommitment,
    MissingWitnessCommitment,
    MissingHeightCommitment,
    InvalidHeightCommitment,
    WrongHeightCommitment,
}

/// The result of a check is the error that the specification names, or success
/// where it names none.
pub open spec fn reports(r: Result<(), ValidationError>, error: Option<ValidationError>) -> bool {
    match error {
        Some(e) => r == Err::<(), ValidationError>(e),
        None => r is Ok,
    }
}

/// Whether a transaction has the one input of a coinbase.
pub open spec fn is_coinbase_tx(tx: TransactionView) -> bool {
    tx.inputs.len() == 1 && tx.inputs[0].prev_txid == zero_hash() && tx.inputs[0].prev_index
        == 0xFFFF_FFFF
}

/// The identifiers of a sequence of transactions.
pub open spec fn txids_of(txs: Seq<TransactionView>) -> Seq<Seq<u8>> {
    Seq::new(txs.len(), |i: int| txs[i].txid())
}

/// The witness identifiers of a sequence of transactions.
pub open spec fn wtxids_of(txs: Seq<TransactionView>) -> Seq<Seq<u8>> {
    Seq::new(txs.len(), |i: int| txs[i].wtxid())
}

/// Weight of a transaction: bytes without witnesses count four times, bytes of
/// witnesses once.
pub open spec fn tx_weight(tx: TransactionView) -> nat {
    tx.stripped().len() * 3 + Transaction::encoding(tx).len()
}

/// Weight of the first `n` transactions.
pub open spec fn weight_of(txs: Seq<TransactionView>, n: nat) -> nat
    decreases n,
{
    if n == 0 {
        0
    } else {
        weight_of(txs, (n - 1) as nat) + tx_weight(txs[n - 1])
    }
}

proof fn lemma_weight_monotone(txs: Seq<TransactionView>, m: nat, n: nat)
    requires
        m <= n,
    ensures
        weight_of(txs, m) <= weight_of(txs, n),
    decreases n,
{
    if m < n {
        lemma_weight_monotone(txs, m, (n - 1) as nat);
    }
}

/// Whether some transaction carries witness data.
pub open spec fn any_witness(txs: Seq<TransactionView>) -> bool {
    exists|i: int| 0 <= i < txs.len() && (#[trigger] txs[i]).has_witness()
}

/// Whether an output of a coinbase commits to the witnesses.
pub open spec fn is_commitment(script: Seq<u8>) -> bool {
    script.len() >= 38 && script[0] == 0x6a && script[1] == 0x24 && script[2] == 0xaa && script[3]
        == 0x21 && script[4] == 0xa9 && script[5] == 0xed
}

/// The hash that an output commits to.
pub open spec fn committed_hash(script: Seq<u8>) -> Seq<u8> {
    script.subrange(6, 38)
}

/// The value that a coinbase mixes into its commitment.
pub open spec fn reserved_value(coinbase: TransactionView) -> Seq<u8> {
    if coinbase.witnesses.len() > 0 && coinbase.witnesses[0].len() > 0 {
        coinbase.witnesses[0][0]
    } else {
        zero_hash()
    }
}

/// The hash to which a block with these transactions has to commit.
pub open spec fn witness_commitment(
    coinbase: TransactionView,
    txs: Seq<TransactionView>,
) -> Seq<u8> {
    sha256d_bytes(witness_merkle_root(wtxids_of(txs).skip(1)) + reserved_value(coinbase))
}

/// What is wrong with the witness commitment of a block.
pub open spec fn commitment_error(
    coinbase: TransactionView,
    txs: Seq<TransactionView>,
) -> Option<ValidationError> {
    let outs = coinbase.outputs;
    if !any_witness(txs) {
        None
    } else if exists|i: int|
        0 <= i < outs.len() && is_commitment((#[trigger] outs[i]).script_pubkey) && committed_hash(
            outs[i].script_pubkey,
        ) != witness_commitment(coinbase, txs) {
        Some(ValidationError::InvalidWitnessCommitment)
    } else if !exists|i: int|
        0 <= i < outs.len() && is_commitment((#[trigger] outs[i]).script_pubkey) {
        Some(ValidationError::MissingWitnessCommitment)
    } else {
        None
    }
}

/// The first rule that a block breaks, given its proof-of-work hash.
pub open spec fn block_error(
    header: BlockHeaderView,
    txs: Seq<TransactionView>,
    pow_hash: Seq<u8>,
) -> Option<ValidationError> {
    if txs.len() == 0 {
        Some(ValidationError::NoTransactions)
    } else if !is_coinbase_tx(txs[0]) {
        Some(ValidationError::NoCoinbase)
    } else if exists|i: int| 1 <= i < txs.len() && is_coinbase_tx(#[trigger] txs[i]) {
        Some(ValidationError::MultipleCoinbases)
    } else if merkle_root(txids_of(txs)) != header.merkle_root {
        Some(ValidationError::InvalidMerkleRoot)
    } else if !header.meets_target(pow_hash) {
        Some(ValidationError::InvalidProofOfWork)
    } else if weight_of(txs, txs.len()) > MAX_BLOCK_WEIGHT {
        Some(ValidationError::BlockWeightExceeded)
    } else if exists|i: int| 0 <= i < txs.len() && (#[trigger] txs[i]).structure_error() is Some {
        Some(ValidationError::TransactionStructureInvalid)
    } else if commitment_error(txs[0], txs) is Some {
        commitment_error(txs[0], txs)
    } else if !txids_of(txs).no_duplicates() {
        Some(ValidationError::DuplicateTransaction)
    } else {
        None
    }
}

fn is_coinbase(tx: &Transaction) -> (r: bool)
    ensures
        r == is_coinbase_tx(tx@),
{
    if tx.inputs.len() != 1 {
        return false;
    }
    assert(tx@.inputs[0] == tx.inputs[0]@);
    let zero: Hash256 = [0u8; 32];
    assert(zero@ =~= zero_hash());
    bytes_equal(&tx.inputs[0].prev_txid, &zero) && tx.inputs[0].prev_index == 0xFFFF_FFFF
}

/// Weight of a block, or the largest number where it is more than that.
fn calculate_block_weight(transactions: &[Transaction]) -> (weight: u64)
    ensures
        weight_of(views(transactions@), transactions@.len()) <= u64::MAX ==> weight == weight_of(
            views(transactions@),
            transactions@.len(),
        ),
        weight_of(views(transactions@), transactions@.len()) > u64::MAX ==> weight == u64::MAX,
{
    let ghost txs = views(transactions@);
    let mut weight: u128 = 0;
    let mut i: usize = 0;
    while i < transactions.len()
        invariant
            i <= transactions@.len(),
            txs == views(transactions@),
            weight == weight_of(txs, i as nat),
            weight <= u64::MAX,
        decreases transactions@.len() - i,
    {
        let base_size: u128 = transactions[i].encode_without_witness().len() as u128;
        let total_size: u128 = transactions[i].encode_with_witness().len() as u128;
        assert(tx_weight(txs[i as int]) == base_size * 3 + total_size);
        weight = weight + base_size * 3 + total_size;
        i += 1;
        if weight > u64::MAX as u128 {
            proof {
                lemma_weight_monotone(txs, i as nat, txs.len());
            }
            return u64::MAX;
        }
    }
    weight as u64
}

fn collect_txids(transactions: &[Transaction]) -> (ids: Vec<Hash256>)
    ensures
        views(ids@) == txids_of(views(transactions@)),
{
    let mut ids: Vec<Hash256> = Vec::new();
    let ghost want = txids_of(views(transactions@));
    let mut i: usize = 0;
    while i < transactions.len()
        invariant
            i <= transactions@.len(),
            ids.len() == i,
            want == txids_of(views(transactions@)),
            forall|j: int| 0 <= j < i ==> (#[trigger] ids[j])@ == want[j],
        decreases transactions@.len() - i,
    {
        ids.push(transactions[i].txid());
        i += 1;
    }
    assert(views(ids@) =~= want);
    ids
}

fn has_duplicates(ids: &Vec<Hash256>) -> (r: bool)
    ensures
        r == !views(ids@).no_duplicates(),
{
    let ghost all = views(ids@);
    let mut i: usize = 0;
    while i < ids.len()
        invariant
            i <= ids.len(),
            all == views(ids@),
            forall|p: int, q: int| 0 <= p < q < i ==> all[p] != all[q],
        decreases ids.len() - i,
    {
        let mut j: usize = 0;
        while j < i
            invariant
                j <= i < ids.len(),
                all == views(ids@),
                forall|p: int| 0 <= p < j ==> all[p] != all[i as int],
            decreases i - j,
        {
            if bytes_equal(&ids[j], &ids[i]) {
                assert(all[j as int] == all[i as int]);
                return true;
            }
            j += 1;
        }
        i += 1;
    }
    false
}

/// Validate block structure and consensus rules
///
/// `pow_hash` is the proof-of-work hash of the header under the key of the
/// block's height.
pub fn validate_block(
    header: &BlockHeader,
    transactions: &[Transaction],
    pow_hash: &Hash256,
) -> (r: Result<(), ValidationError>)
    ensures
        reports(r, block_error(header@, views(transactions@), pow_hash@)),
{
    let ghost txs = views(transactions@);
    // 1. Must have at least one transaction
    if transactions.is_empty() {
        return Err(ValidationError::NoTransactions);
    }
    assert(txs[0] == transactions@[0]@);
    // 2. First tx must be coinbase, rest must not be
    if !is_coinbase(&transactions[0]) {
        return Err(ValidationError::NoCoinbase);
    }
    let mut i: usize = 1;
    while i < transactions.len()
        invariant
            1 <= i <= transactions@.len(),
            txs == views(transactions@),
            is_coinbase_tx(txs[0]),
            forall|j: int| 1 <= j < i ==> !is_coinbase_tx(#[trigger] txs[j]),
        decreases transactions@.len() - i,
    {
        assert(txs[i as int] == transactions@[i as int]@);
        if is_coinbase(&transactions[i]) {
            return Err(ValidationError::MultipleCoinbases);
        }
        i += 1;
    }
    // 3. Verify merkle root
    let txids = collect_txids(transactions);
    let computed_root = compute_merkle_root(&txids);
    if !bytes_equal(&computed_root, &header.merkle_root) {
        return Err(ValidationError::InvalidMerkleRoot);
    }
    // 4. Verify proof of work
    match header.check_proof_of_work(pow_hash) {
        Ok(met) => {
            if !met {
                return Err(ValidationError::InvalidProofOfWork);
            }
        },
        Err(_) => return Err(ValidationError::InvalidProofOfWork),
    }
    // 5. Check block weight
    if calculate_block_weight(transactions) > MAX_BLOCK_WEIGHT {
        return Err(ValidationError::BlockWeightExceeded);
    }
    // 6. Validate all transaction structures
    let ghost want = block_error(header@, txs, pow_hash@);
    let mut k: usize = 0;
    while k < transactions.len()
        invariant
            k <= transactions@.len(),
            txs == views(transactions@),
            want == block_error(header@, txs, pow_hash@),
            want == (if exists|j: int|
                0 <= j < txs.len() && (#[trigger] txs[j]).structure_error() is Some {
                Some(ValidationError::TransactionStructureInvalid)
            } else if commitment_error(txs[0], txs) is Some {
                commitment_error(txs[0], txs)
            } else if !txids_of(txs).no_duplicates() {
                Some(ValidationError::DuplicateTransaction)
            } else {
                None
            }),
            forall|j: int| 0 <= j < k ==> (#[trigger] txs[j]).structure_error() is None,
        decreases transactions@.len() - k,
    {
        assert(txs[k as int] == transactions@[k as int]@);
        if transactions[k].check_structure().is_err() {
            return Err(ValidationError::TransactionStructureInvalid);
        }
        k += 1;
    }
    // Verify witness commitment
    match validate_witness_commitment(&transactions[0], transactions) {
        Ok(()) => {},
        Err(e) => return Err(e),
    }
    // 7. Check for duplicate transactions
    if has_duplicates(&txids) {
        return Err(ValidationError::DuplicateTransaction);
    }
    Ok(())
}

/// The reward of a block without fees: it starts at 50 coins and halves every
/// 840000 blocks, to nothing after 64 halvings.
pub open spec fn subsidy_at(height: u32) -> nat {
    let halvings = (height / HALVING_INTERVAL) as nat;
    if halvings >= 64 {
        0
    } else {
        INITIAL_SUBSIDY as nat / pow2(halvings)
    }
}

/// Computes the block subsidy.
pub fn calculate_subsidy(height: u32) -> (subsidy: u64)
    ensures
        subsidy == subsidy_at(height),
{
    let halvings: u32 = height / HALVING_INTERVAL;
    if halvings >= 64 {
        return 0;
    }
    proof {
        lemma_u64_shr_is_div(INITIAL_SUBSIDY, halvings as u64);
    }
    INITIAL_SUBSIDY >> (halvings as u64)
}

/// The reward never grows with the height.
pub proof fn lemma_subsidy_falls(a: u32, b: u32)
    requires
        a <= b,
    ensures
        subsidy_at(b) <= subsidy_at(a),
        subsidy_at(a) <= INITIAL_SUBSIDY,
{
    let ha = (a / HALVING_INTERVAL) as nat;
    let hb = (b / HALVING_INTERVAL) as nat;
    assert(ha <= hb) by {
        vstd::arithmetic::div_mod::lemma_div_is_ordered(
            a as int,
            b as int,
            HALVING_INTERVAL as int,
        );
    }
    lemma_pow2_pos(ha);
    lemma_pow2_pos(hb);
    if ha < hb {
        lemma_pow2_strictly_increases(ha, hb);
    }
    vstd::arithmetic::div_mod::lemma_div_is_ordered_by_denominator(
        INITIAL_SUBSIDY as int,
        pow2(ha) as int,
        pow2(hb) as int,
    );
    vstd::arithmetic::div_mod::lemma_div_is_ordered_by_denominator(
        INITIAL_SUBSIDY as int,
        1,
        pow2(ha) as int,
    );
}

/// What is wrong with the reward that a coinbase pays out.
pub open spec fn reward_error(
    coinbase: TransactionView,
    fees: u64,
    height: u32,
) -> Option<ValidationError> {
    let paid = total_value(coinbase.outputs);
    let allowed = subsidy_at(height) + fees;
    if allowed > u64::MAX || paid > MAX_MONEY || paid > allowed {
        Some(ValidationError::CoinbaseRewardTooHigh)
    } else {
        None
    }
}

/// The sum of the output values of a transaction.
pub fn sum_outputs(tx: &Transaction) -> (sum: u64)
    requires
        total_value(tx@.outputs) <= u64::MAX,
    ensures
        sum == total_value(tx@.outputs),
{
    let ghost outs = tx@.outputs;
    let mut sum: u64 = 0;
    let mut i: usize = 0;
    assert(outs.take(outs.len() as int) =~= outs);
    while i < tx.outputs.len()
        invariant
            i <= tx.outputs.len(),
            outs == tx@.outputs,
            outs.take(outs.len() as int) == outs,
            total_value(outs) <= u64::MAX,
            sum == total_value(outs.take(i as int)),
        decreases tx.outputs.len() - i,
    {
        proof {
            assert(outs.take(i + 1).drop_last() =~= outs.take(i as int));
            assert(outs.take(i + 1).last() == tx.outputs[i as int]@);
            lemma_total_value_monotone(outs, i + 1, outs.len() as int);
        }
        sum = sum + tx.outputs[i].value;
        i += 1;
    }
    sum
}

/// Validate coinbase reward
pub fn validate_coinbase_reward(coinbase: &Transaction, block_fees: u64, block_height: u32) -> (r:
    Result<(), ValidationError>)
    requires
        total_value(coinbase@.outputs) <= u64::MAX,
    ensures
        reports(r, reward_error(coinbase@, block_fees, block_height)),
{
    let subsidy: u64 = calculate_subsidy(block_height);
    let max_reward: u64 = match subsidy.checked_add(block_fees) {
        Some(sum) => sum,
        None => return Err(ValidationError::CoinbaseRewardTooHigh),
    };
    let coinbase_value: u64 = sum_outputs(coinbase);
    if coinbase_value > MAX_MONEY {
        return Err(ValidationError::CoinbaseRewardTooHigh);
    }
    if coinbase_value > max_reward {
        return Err(ValidationError::CoinbaseRewardTooHigh);
    }
    Ok(())
}

/// The timestamps of a sequence of headers.
pub open spec fn timestamps_of(headers: Seq<BlockHeaderView>) -> Seq<u64> {
    Seq::new(headers.len(), |i: int| headers[i].timestamp)
}

/// The median of a sequence of timestamps; of an even number, the lower of the
/// two in the middle.
pub open spec fn lower_median(times: Seq<u64>) -> u64 {
    let n = times.len() as int;
    if n % 2 == 0 {
        in_order(times)[n / 2 - 1]
    } else {
        in_order(times)[n / 2]
    }
}

/// What is wrong with the timestamp of a header, given the headers before it and
/// the time.
pub open spec fn timestamp_error(
    header: BlockHeaderView,
    prev: Seq<BlockHeaderView>,
    now: u64,
) -> Option<ValidationError> {
    if prev.len() == 0 {
        None
    } else if header.timestamp <= lower_median(timestamps_of(prev)) {
        Some(ValidationError::TimestampTooOld)
    } else if header.timestamp > now + MAX_FUTURE_BLOCK_TIME {
        Some(ValidationError::TimestampTooFarFuture)
    } else {
        None
    }
}

/// Validate block timestamp against previous blocks, up to 11 of them, at a
/// given time.
pub fn validate_timestamp_at(header: &BlockHeader, prev_headers: &[BlockHeader], now: u64) -> (r:
    Result<(), ValidationError>)
    ensures
        reports(r, timestamp_error(header@, views(prev_headers@), now)),
{
    if prev_headers.is_empty() {
        return Ok(());  // Genesis block
    }
    // Compute MedianTimePast
    let ghost want = timestamps_of(views(prev_headers@));
    let mut times: Vec<u64> = Vec::new();
    let mut i: usize = 0;
    while i < prev_headers.len()
        invariant
            i <= prev_headers@.len(),
            times.len() == i,
            want == timestamps_of(views(prev_headers@)),
            forall|j: int| 0 <= j < i ==> times@[j] == want[j],
        decreases prev_headers@.len() - i,
    {
        times.push(prev_headers[i].timestamp);
        i += 1;
    }
    assert(times@ =~= want);
    let sorted = sort_numbers(&times);
    proof {
        lemma_in_order(times@);
    }
    let mtp: u64 = if sorted.len() % 2 == 0 {
        sorted[sorted.len() / 2 - 1]
    } else {
        sorted[sorted.len() / 2]
    };
    // Timestamp must be > MTP
    if header.timestamp <= mtp {
        return Err(ValidationError::TimestampTooOld);
    }
    // Timestamp must not be too far in future
    if header.timestamp.saturating_sub(now) > MAX_FUTURE_BLOCK_TIME {
        return Err(ValidationError::TimestampTooFarFuture);
    }
    Ok(())
}

/// Validate block timestamp against previous blocks and the clock of the machine
pub fn validate_timestamp(header: &BlockHeader, prev_headers: &[BlockHeader]) -> (r: Result<
    (),
    ValidationError,
>)
    ensures
        exists|now: u64|
            clock_showed(now) && reports(
                r,
                #[trigger] timestamp_error(header@, views(prev_headers@), now),
            ),
{
    let now = read_clock();
    validate_timestamp_at(header, prev_headers, now)
}

/// Validate witness commitment in coinbase
pub fn validate_witness_commitment(coinbase: &Transaction, transactions: &[Transaction]) -> (r:
    Result<(), ValidationError>)
    ensures
        reports(r, commitment_error(coinbase@, views(transactions@))),
{
    let ghost txs = views(transactions@);
    // Check if block has witness data
    let mut has_witness = false;
    let mut i: usize = 0;
    while i < transactions.len()
        invariant
            i <= transactions@.len(),
            txs == views(transactions@),
            has_witness == exists|j: int| 0 <= j < i && (#[trigger] txs[j]).has_witness(),
        decreases transactions@.len() - i,
    {
        assert(txs[i as int] == transactions@[i as int]@);
        if transactions[i].has_witness() {
            has_witness = true;
        }
        i += 1;
    }
    if !has_witness {
        return Ok(());  // No witness, no commitment needed
    }
    let computed = compute_witness_commitment(coinbase, transactions);
    // Find witness commitment in coinbase outputs
    let ghost outs = coinbase@.outputs;
    let ghost want = witness_commitment(coinbase@, txs);
    let mut commitment_found = false;
    let mut k: usize = 0;
    while k < coinbase.outputs.len()
        invariant
            k <= coinbase.outputs.len(),
            outs == coinbase@.outputs,
            txs == views(transactions@),
            any_witness(txs),
            computed@ == want,
            want == witness_commitment(coinbase@, txs),
            commitment_found == exists|j: int|
                0 <= j < k && is_commitment((#[trigger] outs[j]).script_pubkey),
            forall|j: int|
                0 <= j < k && is_commitment((#[trigger] outs[j]).script_pubkey) ==> committed_hash(
                    outs[j].script_pubkey,
                ) == want,
        decreases coinbase.outputs.len() - k,
    {
        let script = &coinbase.outputs[k].script_pubkey;
        assert(outs[k as int].script_pubkey == script@);
        if script.len() >= 38 && script[0] == 0x6a && script[1] == 0x24 && script[2] == 0xaa
            && script[3] == 0x21 && script[4] == 0xa9 && script[5] == 0xed {
            commitment_found = true;
            let commitment = vstd::slice::slice_subrange(script.as_slice(), 6, 38);
            if !bytes_equal(commitment, &computed) {
                return Err(ValidationError::InvalidWitnessCommitment);
            }
        }
        k += 1;
    }
    if !commitment_found {
        return Err(ValidationError::MissingWitnessCommitment);
    }
    Ok(())
}

fn compute_witness_commitment(coinbase: &Transaction, transactions: &[Transaction]) -> (h: Hash256)
    requires
        transactions@.len() > 0,
    ensures
        h@ == witness_commitment(coinbase@, views(transactions@)),
{
    // The coinbase wtxid is left out: its place in the tree holds zeros.
    let ghost want = wtxids_of(views(transactions@)).skip(1);
    let mut wtxids: Vec<Hash256> = Vec::new();
    let mut i: usize = 1;
    while i < transactions.len()
        invariant
            1 <= i <= transactions@.len(),
            wtxids.len() == i - 1,
            want == wtxids_of(views(transactions@)).skip(1),
            forall|j: int| 0 <= j < i - 1 ==> (#[trigger] wtxids[j])@ == want[j],
        decreases transactions@.len() - i,
    {
        wtxids.push(transactions[i].wtxid());
        i += 1;
    }
    assert(views(wtxids@) =~= want);
    let witness_root = compute_witness_merkle_root(&wtxids);
    let mut data: Vec<u8> = Vec::new();
    append_bytes(&mut data, &witness_root);
    // Witness reserved value from coinbase witness
    if coinbase.witnesses.len() > 0 && coinbase.witnesses[0].stack_items.len() > 0 {
        assert(coinbase@.witnesses[0] == coinbase.witnesses[0]@);
        assert(coinbase@.witnesses[0][0] == coinbase.witnesses[0].stack_items[0]@);
        append_bytes(&mut data, &coinbase.witnesses[0].stack_items[0]);
    } else {
        proof {
            if coinbase.witnesses.len() > 0 {
                assert(coinbase@.witnesses[0] == coinbase.witnesses[0]@);
            }
        }
        let zero: Hash256 = [0u8; 32];
        assert(zero@ =~= zero_hash());
        append_bytes(&mut data, &zero);
    }
    assert(data@ =~= witness_root@ + reserved_value(coinbase@));
    sha256d(&data)
}

/// The bytes of a script number, without its sign bit.
pub open spec fn magnitude_bytes(data: Seq<u8>) -> Seq<u8> {
    data.update(data.len() - 1, (data.last() % 128) as u8)
}

/// The number at the front of a script: one to eight bytes behind their count,
/// with the sign in the top bit of the last.
pub open spec fn script_number(bytes: Seq<u8>) -> Option<int> {
    if bytes.len() == 0 {
        None
    } else {
        let len = bytes[0] as int;
        if len == 0 || len > 8 || bytes.len() < len + 1 {
            None
        } else {
            let data = bytes.subrange(1, len + 1);
            let magnitude = le_value(magnitude_bytes(data)) as int;
            if data.last() >= 128 {
                Some(-magnitude)
            } else {
                Some(magnitude)
            }
        }
    }
}

/// What is wrong with the height that a coinbase states.
pub open spec fn height_error(coinbase: TransactionView, height: u32) -> Option<ValidationError> {
    if coinbase.inputs.len() == 0 {
        Some(ValidationError::InvalidCoinbaseStructure)
    } else if coinbase.inputs[0].script_sig.len() == 0 {
        Some(ValidationError::MissingHeightCommitment)
    } else {
        match script_number(coinbase.inputs[0].script_sig) {
            None => Some(ValidationError::InvalidHeightCommitment),
            Some(n) => if n != height {
                Some(ValidationError::WrongHeightCommitment)
            } else {
                None
            },
        }
    }
}

/// Validate coinbase contains block height
pub fn validate_coinbase_height(coinbase: &Transaction, expected_height: u32) -> (r: Result<
    (),
    ValidationError,
>)
    ensures
        reports(r, height_error(coinbase@, expected_height)),
{
    if coinbase.inputs.is_empty() {
        return Err(ValidationError::InvalidCoinbaseStructure);
    }
    assert(coinbase@.inputs[0] == coinbase.inputs[0]@);
    let script_sig = &coinbase.inputs[0].script_sig;
    if script_sig.is_empty() {
        return Err(ValidationError::MissingHeightCommitment);
    }
    match decode_script_number(script_sig) {
        None => Err(ValidationError::InvalidHeightCommitment),
        Some(height) => {
            if height != expected_height as i64 {
                return Err(ValidationError::WrongHeightCommitment);
            }
            Ok(())
        },
    }
}

fn decode_script_number(bytes: &[u8]) -> (r: Option<i64>)
    ensures
        match r {
            Some(n) => script_number(bytes@) == Some(n as int),
            None => script_number(bytes@) is None,
        },
{
    if bytes.is_empty() {
        return None;
    }
    let len: usize = bytes[0] as usize;
    if len > 8 || len == 0 || bytes.len() < len + 1 {
        return None;
    }
    let ghost data = bytes@.subrange(1, len + 1);
    let ghost mag = magnitude_bytes(data);
    let top: u8 = bytes[len];
    let negative = top >= 128;
    let mut value: i64 = (top % 128) as i64;
    let mut i: usize = len - 1;
    proof {
        lemma_byte_range_step(0);
        assert(mag.skip(len - 1) =~= seq![(top % 128) as u8]);
        reveal_with_fuel(le_value, 2);
        assert(le_value(mag.skip(len - 1)) == top % 128);
    }
    while i > 0
        invariant
            1 <= len <= 8,
            i <= len - 1,
            len + 1 <= bytes@.len(),
            data == bytes@.subrange(1, len + 1),
            mag == magnitude_bytes(data),
            value == le_value(mag.skip(i as int)),
            0 <= value < 128 * byte_range((len - 1 - i) as nat),
        decreases i,
    {
        proof {
            let k = (len - 1 - i) as nat;
            lemma_byte_range_step(k);
            lemma_byte_range_step(6);
            crate::primitives::bigint::lemma_byte_range_monotone(k, 6);
            lemma_byte_range_values();
            assert(byte_range(6) == 0x1_0000_0000_0000) by {
                lemma_byte_range_step(4);
                lemma_byte_range_step(5);
            }
            assert(mag.skip(i - 1).skip(1) =~= mag.skip(i as int));
            assert(mag.skip(i - 1)[0] == bytes@[i as int]);
        }
        value = value * 256 + bytes[i] as i64;
        i -= 1;
    }
    assert(mag.skip(0) =~= mag);
    if negative {
        Some(-value)
    } else {
        Some(value)
    }
}

} // verus!
