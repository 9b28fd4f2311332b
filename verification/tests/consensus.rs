use ferrous_node::consensus::block::{
    create_genesis_block, known_genesis_nonce, BlockHeader, TargetError,
};
use ferrous_node::consensus::difficulty::{
    calculate_next_target, u256_to_compact, validate_difficulty, DifficultyError,
};
use ferrous_node::consensus::merkle::{compute_merkle_root, compute_witness_merkle_root};
use ferrous_node::consensus::params::Network;
use ferrous_node::consensus::transaction::{
    Transaction, TxError, TxInput, TxOutput, Witness, MAX_MONEY,
};
use ferrous_node::consensus::u256::U256;
use ferrous_node::consensus::utxo::{OutPoint, UtxoError, UtxoSet};
use ferrous_node::consensus::validation::{
    calculate_subsidy, validate_block, validate_coinbase_height, validate_coinbase_reward,
    validate_timestamp_at, ValidationError,
};
use ferrous_node::primitives::hash::{sha256d, tagged_hash};
use ferrous_node::primitives::serialize::{Decode, DecodeError, Encode};
use ferrous_node::primitives::varint;

fn tx(input: [u8; 32], value: u64) -> Transaction {
    Transaction {
        version: 1,
        inputs: vec![TxInput {
            prev_txid: input,
            prev_index: 0,
            script_sig: vec![],
            sequence: 0,
        }],
        outputs: vec![TxOutput { value, script_pubkey: vec![0x51] }],
        witnesses: vec![Witness { stack_items: vec![] }],
        locktime: 0,
    }
}

fn header(timestamp: u64, n_bits: u32) -> BlockHeader {
    BlockHeader {
        version: 1,
        prev_block_hash: [0; 32],
        merkle_root: [0; 32],
        timestamp,
        n_bits,
        nonce: 0,
    }
}

#[test]
fn known_hashes() {
    assert_eq!(
        hex::encode(sha256d(b"")),
        "5df6e0e2761359d30a8275058e299fcc0381534545f55cf43e41983f5d4c9456"
    );
    assert_ne!(tagged_hash("a", b"x"), tagged_hash("b", b"x"));
    // The tag is hashed twice in front of the message
    assert_ne!(tagged_hash("", b"x"), sha256d(b"x"));
}

#[test]
fn varint_forms() {
    for (value, len) in [(0u64, 1), (0xfc, 1), (0xfd, 3), (0xffff, 3), (0x10000, 5)] {
        let bytes = varint::encode(value);
        assert_eq!(bytes.len(), len);
        assert_eq!(varint::decode(&bytes), Ok((value, len)));
    }
    assert_eq!(varint::encode(u64::MAX).len(), 9);
    // A longer form than needed is refused, and so is one that is cut short
    assert!(varint::decode(&[0xfd, 1, 0]).is_err());
    assert!(varint::decode(&[0xfd, 1]).is_err());
}

#[test]
fn transactions_read_back() {
    let mut t = tx([3; 32], 7);
    t.witnesses[0].stack_items = vec![vec![1, 2], vec![]];
    let bytes = t.encode();
    assert_eq!(Transaction::decode(&bytes), Ok((t.clone(), bytes.len())));
    assert_eq!(Transaction::decode(&bytes[..bytes.len() - 1]), Err(DecodeError::UnexpectedEof));
    // The name does not depend on the witnesses
    let mut bare = t.clone();
    bare.witnesses[0].stack_items.clear();
    assert_eq!(t.txid(), bare.txid());
    assert_ne!(t.wtxid(), bare.wtxid());
}

#[test]
fn transaction_structure() {
    assert_eq!(tx([1; 32], 5).check_structure(), Ok(()));
    let mut t = tx([1; 32], 5);
    t.version = 3;
    assert_eq!(t.check_structure(), Err(TxError::InvalidVersion));
    let mut t = tx([1; 32], 5);
    t.inputs.clear();
    assert_eq!(t.check_structure(), Err(TxError::NoInputs));
    let mut t = tx([1; 32], 5);
    t.outputs.clear();
    assert_eq!(t.check_structure(), Err(TxError::NoOutputs));
    let mut t = tx([1; 32], 5);
    t.witnesses.push(Witness { stack_items: vec![] });
    assert_eq!(t.check_structure(), Err(TxError::WitnessMismatch));
    t.witnesses.clear();
    assert_eq!(t.check_structure(), Ok(()));
    assert_eq!(tx([1; 32], MAX_MONEY + 1).check_structure(), Err(TxError::ValueTooLarge));
    let mut t = tx([1; 32], u64::MAX);
    t.outputs.push(TxOutput { value: 1, script_pubkey: vec![] });
    assert_eq!(t.check_structure(), Err(TxError::OutputSumOverflow));
}

#[test]
fn merkle_roots() {
    let (a, b, c) = ([1; 32], [2; 32], [3; 32]);
    let pair = |x: [u8; 32], y: [u8; 32]| sha256d(&[x, y].concat());
    assert_eq!(compute_merkle_root(&[]), [0; 32]);
    assert_eq!(compute_merkle_root(&[a]), a);
    assert_eq!(compute_merkle_root(&[a, b]), pair(a, b));
    // The last one stands in for its missing neighbour
    assert_eq!(compute_merkle_root(&[a, b, c]), pair(pair(a, b), pair(c, c)));
    // A zero hash stands in front for the coinbase
    assert_eq!(compute_witness_merkle_root(&[b]), pair([0; 32], b));
}

#[test]
fn compact_targets() {
    assert_eq!(header(0, 0x1d00_ffff).target().map(|t| u256_to_compact(&t)), Ok(0x1d00_ffff));
    assert_eq!(header(0, 0x207f_ffff).target().map(|t| u256_to_compact(&t)), Ok(0x207f_ffff));
    assert_eq!(header(0, 0x1d80_0000).target(), Err(TargetError::NegativeEncoding));
    assert_eq!(header(0, 0x2100_ffff).target(), Err(TargetError::ExponentTooLarge));
    // The difficulty of the first blocks of a well-known chain
    let work = header(0, 0x1d00_ffff).work();
    assert_eq!(work.to_bytes_le()[..8], 0x1_0001_0001u64.to_le_bytes());
    // A hash is compared as a number in little-endian form
    let h = header(0, 0x207f_ffff);
    assert_eq!(h.check_proof_of_work(&[0; 32]), Ok(true));
    let mut high = [0; 32];
    high[31] = 0x80;
    assert_eq!(h.check_proof_of_work(&high), Ok(false));
}

#[test]
fn u256_sums_wrap() {
    let max = U256::from_le_bytes([0xff; 32]);
    assert_eq!((max + U256::one()).to_bytes_le(), [0; 32]);
    assert_eq!(U256::from(300).to_bytes_le()[..3], [44, 1, 0]);
    assert!(U256::from(255) < U256::from(256));
    assert_eq!(U256::from_bytes_le(&[1, 2, 3]).to_bytes_le(), [0; 32]);
}

#[test]
fn next_target_follows_the_time() {
    let params = Network::Mainnet.params();
    let bits = u256_to_compact(&params.max_target);
    let prev = header(1_000_000, bits);
    // As hard as it was after the planned time, never above the limit
    let same = calculate_next_target(&prev, 1_000_000 + 150, &params).unwrap();
    assert!(same <= params.max_target);
    let late = calculate_next_target(&prev, 1_000_000 + 1_500_000, &params).unwrap();
    assert!(late <= params.max_target);
    let early = calculate_next_target(&prev, 1_000_001, &params).unwrap();
    assert!(early < same);
    // A time before the last block counts as no time at all
    let before = calculate_next_target(&prev, 999_999, &params).unwrap();
    assert_eq!(before.to_bytes_le(), early.to_bytes_le());
    assert!(matches!(
        calculate_next_target(&header(1, 0x1d80_0000), 2, &params),
        Err(DifficultyError::InvalidTimestamp)
    ));
    let next = header(1_000_001, u256_to_compact(&early));
    assert!(validate_difficulty(Some(&prev), &next, &params).is_ok());
    let wrong = header(1_000_001, bits);
    assert!(matches!(
        validate_difficulty(Some(&prev), &wrong, &params),
        Err(DifficultyError::TargetMismatch { .. })
    ));
}

#[test]
fn subsidy_halves() {
    assert_eq!(calculate_subsidy(0), 5_000_000_000);
    assert_eq!(calculate_subsidy(839_999), 5_000_000_000);
    assert_eq!(calculate_subsidy(840_000), 2_500_000_000);
    assert_eq!(calculate_subsidy(u32::MAX), 0);
}

#[test]
fn genesis_block_is_valid() {
    let block = create_genesis_block(0x207f_ffff);
    assert_eq!(block.header.timestamp, 1_700_000_000);
    assert_eq!(block.header.merkle_root, block.transactions[0].txid());
    assert_eq!(block.transactions[0].outputs[0].value, 5_000_000_000);
    assert_eq!(known_genesis_nonce(1), None);
    assert_eq!(
        validate_block(&block.header, &block.transactions, &[0; 32]),
        Ok(())
    );
    assert_eq!(
        validate_block(&block.header, &block.transactions, &[0xff; 32]),
        Err(ValidationError::InvalidProofOfWork)
    );
    assert_eq!(
        validate_block(&block.header, &[], &[0; 32]),
        Err(ValidationError::NoTransactions)
    );
}

#[test]
fn timestamps_are_checked() {
    let earlier: Vec<BlockHeader> = (1..=11).map(|n| header(n * 10, 0)).collect();
    // Later than the median of the eleven before it
    assert_eq!(validate_timestamp_at(&header(61, 0), &earlier, 100), Ok(()));
    assert_eq!(
        validate_timestamp_at(&header(60, 0), &earlier, 100),
        Err(ValidationError::TimestampTooOld)
    );
    assert_eq!(validate_timestamp_at(&header(7_300, 0), &earlier, 100), Ok(()));
    assert_eq!(
        validate_timestamp_at(&header(7_301, 0), &earlier, 100),
        Err(ValidationError::TimestampTooFarFuture)
    );
}

#[test]
fn coinbase_rules() {
    let mut coinbase = create_genesis_block(0x207f_ffff).transactions[0].clone();
    assert_eq!(validate_coinbase_reward(&coinbase, 0, 0), Ok(()));
    coinbase.outputs[0].value += 1;
    assert_eq!(
        validate_coinbase_reward(&coinbase, 0, 0),
        Err(ValidationError::CoinbaseRewardTooHigh)
    );
    assert_eq!(validate_coinbase_reward(&coinbase, 1, 0), Ok(()));
    coinbase.inputs[0].script_sig = vec![2, 0x2c, 0x01];
    assert_eq!(validate_coinbase_height(&coinbase, 300), Ok(()));
    assert_eq!(
        validate_coinbase_height(&coinbase, 301),
        Err(ValidationError::WrongHeightCommitment)
    );
    coinbase.inputs[0].script_sig = vec![];
    assert_eq!(
        validate_coinbase_height(&coinbase, 300),
        Err(ValidationError::MissingHeightCommitment)
    );
}

#[test]
fn outputs_are_spent_once() {
    let mut set = UtxoSet::new();
    let first = tx([1; 32], 50);
    set.add_transaction(&first, 5, false).unwrap();
    let at = OutPoint { txid: first.txid(), vout: 0 };
    assert!(set.contains(&at));
    let second = tx(first.txid(), 40);
    assert!(set.apply_transaction(&second, 6, false).is_ok());
    assert!(!set.contains(&at));
    assert!(matches!(
        set.apply_transaction(&tx(first.txid(), 30), 7, false),
        Err(UtxoError::UtxoNotFound)
    ));
    // What a block creates can be spent after a hundred blocks
    let reward = tx([2; 32], 9);
    set.add_transaction(&reward, 10, true).unwrap();
    let at = OutPoint { txid: reward.txid(), vout: 0 };
    assert!(set.spend_input(&at, 109).is_err());
    assert!(set.spend_input(&at, 110).is_ok());
}

#[test]
fn headers_have_a_fixed_size() {
    let h = header(7, 8);
    let bytes = h.encode();
    assert_eq!(bytes.len(), 88);
    assert_eq!(BlockHeader::decode(&bytes), Ok((h, 88)));
    assert_eq!(BlockHeader::decode(&bytes[..87]), Err(DecodeError::UnexpectedEof));
    // The key of the proof of work changes every 2048 blocks
    assert_eq!(BlockHeader::epoch_key(0), BlockHeader::epoch_key(2047));
    assert_ne!(BlockHeader::epoch_key(0), BlockHeader::epoch_key(2048));
}

#[test]
fn compact_form_is_the_nearest_from_below() {
    for (number, nearest) in [
        (0u64, 0u64),
        (0x7f, 0x7f),
        (0x80, 0x80),
        (0x7f_ffff, 0x7f_ffff),
        (0x80_0001, 0x80_0000),
        (0x80_00ff, 0x80_0000),
        (0x1234_5678, 0x1234_5600),
        (0xff12_3456, 0xff12_0000),
    ] {
        let bits = u256_to_compact(&U256::from(number));
        assert!(header(0, bits).target() == Ok(U256::from(nearest)));
        // With the next mantissa it is too large, where there is one and no byte is dropped.
        if number >= 0x80_0001 {
            assert!(header(0, bits + 1).target().unwrap() > U256::from(number));
        }
    }
}
