use ferrous_node::consensus::block::{Block, BlockHeader};
use ferrous_node::consensus::chain::ChainState;
use ferrous_node::consensus::merkle::compute_merkle_root;
use ferrous_node::consensus::params::Network;
use ferrous_node::consensus::transaction::{Transaction, TxInput, TxOutput, Witness};
use ferrous_node::consensus::validation::validate_timestamp;
use ferrous_node::mining::miner::{
    next_block_timestamp, next_block_timestamp_at, Miner, MiningError, NonceSearch, SearchStep,
    MAX_FUTURE_OFFSET,
};
use ferrous_node::primitives::hash::Hash256;

// A proof-of-work hash that meets every target
const LOWEST: Hash256 = [0; 32];

fn make_genesis(timestamp: u64, n_bits: u32) -> (BlockHeader, Transaction) {
    let coinbase = Transaction {
        version: 1,
        inputs: vec![TxInput {
            prev_txid: [0u8; 32],
            prev_index: 0xFFFF_FFFF,
            script_sig: vec![0x04, 0x00, 0x00, 0x00, 0x00],
            sequence: 0xFFFF_FFFF,
        }],
        outputs: vec![TxOutput { value: 50 * 100_000_000, script_pubkey: vec![0x51] }],
        witnesses: vec![Witness { stack_items: Vec::new() }],
        locktime: 0,
    };

    let txids = vec![coinbase.txid()];
    let merkle_root = compute_merkle_root(&txids);

    let header = BlockHeader {
        version: 1,
        prev_block_hash: [0u8; 32],
        merkle_root,
        timestamp,
        n_bits,
        nonce: 0,
    };
    assert_eq!(header.check_proof_of_work(&LOWEST), Ok(true));

    (header, coinbase)
}

fn single_block_chain(genesis_time: u64) -> ChainState {
    let (genesis, tx) = make_genesis(genesis_time, 0x207f_ffff);
    let mut chain = ChainState::new_in_memory(Network::Regtest.params()).unwrap();
    let block = Block { header: genesis, transactions: vec![tx] };
    chain.add_block_at(block, &LOWEST, genesis_time).unwrap();
    chain
}

#[test]
fn next_timestamp_nat_less_than_mtp() {
    let nat = 1_000_000_000u64;
    let mtp = nat + 10;

    let chain = single_block_chain(mtp);

    let ts = next_block_timestamp_at(&chain, nat).expect("timestamp ok");

    assert_eq!(ts, mtp + 1);
}

#[test]
fn next_timestamp_nat_equal_mtp() {
    let nat = 1_000_000_000u64;
    let mtp = nat;

    let chain = single_block_chain(mtp);

    let ts = next_block_timestamp_at(&chain, nat).expect("timestamp ok");

    assert_eq!(ts, mtp + 1);
}

#[test]
fn next_timestamp_nat_greater_than_mtp() {
    let nat = 1_000_000_000u64;
    let mtp = nat - 10;

    let chain = single_block_chain(mtp);

    let ts = next_block_timestamp_at(&chain, nat).expect("timestamp ok");

    assert_eq!(ts, nat);
}

#[test]
fn next_timestamp_too_far_in_future() {
    let nat = 1_000_000_000u64;
    let mtp = nat + MAX_FUTURE_OFFSET + 100;

    let chain = single_block_chain(mtp);

    let err = next_block_timestamp_at(&chain, nat).unwrap_err();

    assert_eq!(err, MiningError::InvalidTimestamp);
}

#[test]
fn mined_blocks_respect_timestamp_rules() {
    let now = std::time::SystemTime::now()
        .duration_since(std::time::UNIX_EPOCH)
        .unwrap()
        .as_secs();

    let mut chain = single_block_chain(now.saturating_sub(10));
    let miner = Miner::new(Network::Regtest.params(), vec![0x51]);

    for i in 0..10 {
        let template = miner
            .build_template_with_script(&chain, Vec::new(), vec![0x51], now + i as u64)
            .expect("template ok");
        miner
            .attach_solution(&mut chain, template, 0, &LOWEST, now + i as u64)
            .expect("mine ok");
    }

    let tip = chain.get_tip().unwrap().unwrap();
    let mut prev_headers = Vec::new();
    let mut current_hash: Hash256 = tip.block.header.prev_block_hash;

    while let Some(block) = chain.get_block(&current_hash) {
        prev_headers.push(block.header);
        if prev_headers.len() == 11 || block.header.prev_block_hash == [0u8; 32] {
            break;
        }
        current_hash = block.header.prev_block_hash;
    }

    let res = validate_timestamp(&tip.block.header, &prev_headers);
    match res {
        Ok(()) => {}
        Err(e) => panic!("timestamp validation failed: {:?}", e),
    }
}

#[test]
fn clock_gives_a_time_after_the_tip() {
    let chain = single_block_chain(1_000_000_000);
    assert!(next_block_timestamp(&chain).unwrap() > 1_700_000_000);
}

#[test]
fn template_pays_the_subsidy() {
    let chain = single_block_chain(1_000_000_000);
    let miner = Miner::new(Network::Regtest.params(), vec![0x51]);
    let template = miner.build_template(&chain, Vec::new()).unwrap();
    assert_eq!(template.height, 1);
    assert_eq!(template.transactions.len(), 1);
    let coinbase = &template.transactions[0];
    assert_eq!(coinbase.outputs[0].value, 5_000_000_000);
    assert_eq!(coinbase.outputs[0].script_pubkey, vec![0x51]);
    assert_eq!(coinbase.inputs[0].script_sig, vec![4, 1, 0, 0, 0]);
    assert_eq!(template.header.merkle_root, coinbase.txid());
    assert_eq!(template.header.prev_block_hash, chain.get_tip().unwrap().unwrap().block.hash());
}

#[test]
fn hash_above_the_target_solves_nothing() {
    let mut chain = single_block_chain(1_000_000_000);
    let miner = Miner::new(Network::Regtest.params(), vec![0x51]);
    let template = miner.build_template(&chain, Vec::new()).unwrap();
    assert!(miner.solve_template(template.clone(), 3, &[0xff; 32]).is_err());
    assert!(miner.attach_solution(&mut chain, template.clone(), 3, &[0xff; 32], 2).is_err());
    assert_eq!(chain.get_height(), 0);
    let (header, txs) = miner.solve_template(template, 3, &LOWEST).unwrap();
    assert_eq!(header.nonce, 3);
    assert_eq!(txs.len(), 1);
}

#[test]
fn template_needs_a_tip() {
    let chain = ChainState::new_in_memory(Network::Regtest.params()).unwrap();
    let miner = Miner::new(Network::Regtest.params(), vec![0x51]);
    assert!(matches!(miner.build_template(&chain, Vec::new()), Err(MiningError::ChainError(_))));
}

#[test]
fn workers_share_the_nonces() {
    let first = NonceSearch::for_worker(0, 4);
    let second = NonceSearch::for_worker(1, 4);
    assert_eq!(first.start, 0);
    assert_eq!(second.start, u64::MAX / 4);
    assert_eq!(first.start + first.range, second.start);

    let (header, _) = make_genesis(1, 0x207f_ffff);
    let mut search = first;
    assert_eq!(search.observe(&header, &[0xff; 32]), SearchStep::Try(1));
    assert_eq!(search.observe(&header, &LOWEST), SearchStep::Solved(1));
    // Behind the last nonce the search starts over
    search.current = first.range - 1;
    assert_eq!(search.observe(&header, &[0xff; 32]), SearchStep::Try(0));
}
