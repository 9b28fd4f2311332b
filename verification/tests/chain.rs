use ferrous_node::consensus::block::{create_genesis_block, Block, BlockHeader};
use ferrous_node::consensus::chain::{ChainError, ChainState};
use ferrous_node::consensus::merkle::compute_merkle_root;
use ferrous_node::consensus::params::Network;
use ferrous_node::consensus::transaction::{Transaction, TxInput, TxOutput, Witness};
use ferrous_node::consensus::utxo::{OutPoint, UtxoError};
use ferrous_node::consensus::validation::ValidationError;
use ferrous_node::mining::miner::Miner;
use ferrous_node::primitives::hash::Hash256;
use ferrous_node::storage::db::Database;

const LOWEST: Hash256 = [0; 32];
const START: u64 = 1_700_000_000;

fn genesis_chain() -> ChainState {
    let params = Network::Regtest.params();
    let genesis = create_genesis_block(params.genesis_n_bits);
    let mut chain = ChainState::new_in_memory(params).unwrap();
    chain.add_block_at(genesis, &LOWEST, START).unwrap();
    chain
}

fn mine(chain: &mut ChainState, txs: Vec<Transaction>, now: u64) -> BlockHeader {
    let miner = Miner::new(Network::Regtest.params(), vec![0x51]);
    let template = miner.build_template_with_script(chain, txs, vec![0x51], now).unwrap();
    miner.attach_solution(chain, template, 0, &LOWEST, now).unwrap()
}

fn child(parent: &BlockHeader, height: u32, time: u64, script: Vec<u8>) -> Block {
    let miner = Miner::new(Network::Regtest.params(), vec![]);
    let coinbase = miner.create_coinbase_internal(height, 5_000_000_000, 0, script);
    let header = BlockHeader {
        version: 1,
        prev_block_hash: parent.hash(),
        merkle_root: compute_merkle_root(&[coinbase.txid()]),
        timestamp: time,
        n_bits: 0x207f_ffff,
        nonce: 0,
    };
    Block { header, transactions: vec![coinbase] }
}

#[test]
fn chain_grows() {
    let mut chain = genesis_chain();
    let mut tip = [0; 32];
    for n in 1..=20 {
        tip = mine(&mut chain, vec![], START + n * 150).hash();
        assert_eq!(chain.get_height(), n);
    }
    assert_eq!(chain.get_block_hash(20), Some(tip));
    assert_eq!(chain.get_height_for_hash(&tip), Some(20));
    assert!(chain.has_block(&tip));
    assert_eq!(chain.get_tip().unwrap().unwrap().height, 20);
    assert_eq!(chain.export_utxos().unwrap().len(), 21);
    // The middle one of the last eleven blocks
    assert_eq!(chain.median_time_past(), START + 15 * 150);
    let locator = chain.get_block_locator();
    assert_eq!(locator[0], tip);
    assert_eq!(Some(*locator.last().unwrap()), chain.get_block_hash(0));
}

#[test]
fn blocks_are_refused() {
    let mut chain = genesis_chain();
    let genesis = chain.get_tip().unwrap().unwrap().block.header;
    // A parent that is not known
    let mut orphan = child(&genesis, 1, START + 150, vec![0x51]);
    orphan.header.prev_block_hash = [9; 32];
    assert_eq!(
        chain.add_block_at(orphan, &LOWEST, START + 150),
        Err(ChainError::OrphanBlock)
    );
    // A hash above the target
    let block = child(&genesis, 1, START + 150, vec![0x51]);
    assert_eq!(
        chain.add_block_at(block.clone(), &[0xff; 32], START + 150),
        Err(ChainError::InvalidBlock(ValidationError::InvalidProofOfWork))
    );
    // A root that does not fit
    let mut wrong = block.clone();
    wrong.header.merkle_root = [1; 32];
    assert_eq!(
        chain.add_block_at(wrong, &LOWEST, START + 150),
        Err(ChainError::InvalidBlock(ValidationError::InvalidMerkleRoot))
    );
    // Too much money
    let miner = Miner::new(Network::Regtest.params(), vec![]);
    let greedy = miner.create_coinbase_internal(1, 5_000_000_001, 0, vec![0x51]);
    let mut rich = block.clone();
    rich.header.merkle_root = compute_merkle_root(&[greedy.txid()]);
    rich.transactions = vec![greedy];
    assert!(chain.add_block_at(rich, &LOWEST, START + 150).is_err());
    // From the far future
    let late = child(&genesis, 1, START + 90_000, vec![0x51]);
    assert_eq!(
        chain.add_block_at(late, &LOWEST, START),
        Err(ChainError::InvalidBlock(ValidationError::TimestampTooFarFuture))
    );
    assert_eq!(chain.get_height(), 0);
    // The block itself is fine, once
    assert!(chain.add_block_at(block.clone(), &LOWEST, START + 150).is_ok());
    assert_eq!(chain.get_height(), 1);
    let _ = chain.add_block_at(block, &LOWEST, START + 150);
    assert_eq!(chain.get_height(), 1);
}

#[test]
fn more_work_wins() {
    let mut chain = genesis_chain();
    let genesis = chain.get_tip().unwrap().unwrap().block.header;
    let now = START + 10_000;
    let a1 = child(&genesis, 1, START + 150, vec![0x51]);
    let b1 = child(&genesis, 1, START + 151, vec![0x52]);
    let b2 = child(&b1.header, 2, START + 301, vec![0x52]);
    let (a1_hash, b2_hash) = (a1.hash(), b2.hash());
    let a1_out = OutPoint { txid: a1.transactions[0].txid(), vout: 0 };
    let b1_out = OutPoint { txid: b1.transactions[0].txid(), vout: 0 };
    chain.add_block_at(a1, &LOWEST, now).unwrap();
    assert!(chain.is_utxo_unspent(&a1_out));
    // With as much work the lower hash wins
    let b1_hash = b1.hash();
    chain.add_block_at(b1, &LOWEST, now).unwrap();
    assert_eq!(chain.get_block_hash(1), Some(a1_hash.min(b1_hash)));
    chain.add_block_at(b2, &LOWEST, now).unwrap();
    assert_eq!(chain.get_height(), 2);
    assert_eq!(chain.get_block_hash(2), Some(b2_hash));
    assert!(!chain.is_utxo_unspent(&a1_out));
    assert!(chain.is_utxo_unspent(&b1_out));
}

#[test]
fn coins_are_spent_when_they_are_ripe() {
    let mut chain = genesis_chain();
    let first = mine(&mut chain, vec![], START + 150);
    let coin = chain.get_block(&first.hash()).unwrap().transactions[0].txid();
    let spend = Transaction {
        version: 1,
        inputs: vec![TxInput {
            prev_txid: coin,
            prev_index: 0,
            script_sig: vec![],
            sequence: 0xffff_ffff,
        }],
        outputs: vec![TxOutput { value: 4_000_000_000, script_pubkey: vec![0x51] }],
        witnesses: vec![Witness { stack_items: vec![] }],
        locktime: 0,
    };
    let miner = Miner::new(Network::Regtest.params(), vec![0x51]);
    let now = START + 300;
    let template =
        miner.build_template_with_script(&chain, vec![spend.clone()], vec![0x51], now).unwrap();
    let (header, transactions) = miner.solve_template(template, 0, &LOWEST).unwrap();
    assert!(matches!(
        chain.add_block_at(Block { header, transactions }, &LOWEST, now),
        Err(ChainError::UtxoError(UtxoError::ImmatureCoinbase | UtxoError::CoinbaseNotMature))
    ));
    for n in 2..=101 {
        mine(&mut chain, vec![], START + n * 150);
    }
    mine(&mut chain, vec![spend.clone()], START + 102 * 150);
    assert!(!chain.is_utxo_unspent(&OutPoint { txid: coin, vout: 0 }));
    let made = chain.get_utxo(&OutPoint { txid: spend.txid(), vout: 0 }).unwrap().unwrap();
    assert_eq!(made.output.value, 4_000_000_000);
    assert_eq!(made.height, 102);
}

fn spend_of(coin: Hash256, value: u64) -> Transaction {
    Transaction {
        version: 1,
        inputs: vec![TxInput {
            prev_txid: coin,
            prev_index: 0,
            script_sig: vec![],
            sequence: 0xffff_ffff,
        }],
        outputs: vec![TxOutput { value, script_pubkey: vec![0x51] }],
        witnesses: vec![Witness { stack_items: vec![] }],
        locktime: 0,
    }
}

#[test]
fn block_spends_a_coin_once() {
    let mut chain = genesis_chain();
    let first = mine(&mut chain, vec![], START + 150);
    let coin = chain.get_block(&first.hash()).unwrap().transactions[0].txid();
    for n in 2..=101 {
        mine(&mut chain, vec![], START + n * 150);
    }
    let tip = chain.get_block_hash(101).unwrap();
    let miner = Miner::new(Network::Regtest.params(), vec![0x51]);
    let now = START + 102 * 150;
    let twice = vec![spend_of(coin, 4_000_000_000), spend_of(coin, 3_000_000_000)];
    let template = miner.build_template_with_script(&chain, twice, vec![0x51], now).unwrap();
    let (header, transactions) = miner.solve_template(template, 0, &LOWEST).unwrap();
    assert_eq!(
        chain.add_block_at(Block { header, transactions }, &LOWEST, now),
        Err(ChainError::UtxoError(UtxoError::UtxoNotFound))
    );
    assert_eq!(chain.get_height(), 101);
    assert_eq!(chain.tip, Some(tip));
    assert!(chain.is_utxo_unspent(&OutPoint { txid: coin, vout: 0 }));
    // Within one transaction
    let mut greedy = spend_of(coin, 4_000_000_000);
    greedy.inputs.push(TxInput {
        prev_txid: coin,
        prev_index: 0,
        script_sig: vec![],
        sequence: 0xffff_ffff,
    });
    greedy.witnesses.push(Witness { stack_items: vec![] });
    let template =
        miner.build_template_with_script(&chain, vec![greedy], vec![0x51], now).unwrap();
    let (header, transactions) = miner.solve_template(template, 0, &LOWEST).unwrap();
    assert!(chain.add_block_at(Block { header, transactions }, &LOWEST, now).is_err());
    // Once
    mine(&mut chain, vec![spend_of(coin, 4_000_000_000)], now);
    assert!(!chain.is_utxo_unspent(&OutPoint { txid: coin, vout: 0 }));
}

#[test]
fn chain_comes_back_from_its_journals() {
    let mut chain = genesis_chain();
    for n in 1..=5 {
        mine(&mut chain, vec![], START + n * 150);
    }
    let tip = chain.get_tip().unwrap().unwrap().block.hash();
    let blocks = Database::restore(chain.block_store.journal().clone());
    let utxos = Database::restore(chain.utxo_store.journal().clone());
    let state = Database::restore(chain.state_store.journal().clone());
    let mut again =
        ChainState::new(Network::Regtest.params(), blocks, utxos, state).unwrap();
    assert_eq!(again.get_tip().unwrap().unwrap().block.hash(), tip);
    assert_eq!(again.get_height(), 5);
    assert_eq!(again.export_utxos().unwrap().len(), 6);
    // Nothing is to be saved but what the index already said
    assert!(again.utxo_store.journal().is_empty());
    assert!(again.state_store.journal().is_empty());
    for height in 0..=5 {
        assert_eq!(again.get_block_hash(height), chain.get_block_hash(height));
    }
    mine(&mut again, vec![], START + 6 * 150);
    assert_eq!(again.get_height(), 6);
}

#[test]
fn what_follows_a_save_leads_on_from_it() {
    let mut chain = genesis_chain();
    mine(&mut chain, vec![], START + 150);
    let mut blocks = chain.block_store.journal().clone();
    let mut utxos = chain.utxo_store.journal().clone();
    let mut state = chain.state_store.journal().clone();
    chain.block_store.mark_saved();
    chain.utxo_store.mark_saved();
    chain.state_store.mark_saved();
    assert!(chain.block_store.journal().is_empty());
    mine(&mut chain, vec![], START + 2 * 150);
    blocks.extend(chain.block_store.journal().iter().cloned());
    utxos.extend(chain.utxo_store.journal().iter().cloned());
    state.extend(chain.state_store.journal().iter().cloned());
    let again = ChainState::new(
        Network::Regtest.params(),
        Database::restore(blocks),
        Database::restore(utxos),
        Database::restore(state),
    )
    .unwrap();
    assert_eq!(again.get_height(), 2);
    assert_eq!(again.tip, chain.tip);
    assert_eq!(again.export_utxos().unwrap().len(), chain.export_utxos().unwrap().len());
}

#[test]
fn chain_comes_back_after_a_reorganisation() {
    let mut chain = genesis_chain();
    let genesis = chain.get_tip().unwrap().unwrap().block.header;
    for n in 1..=2 {
        mine(&mut chain, vec![], START + n * 150);
    }
    let mut parent = genesis;
    for n in 1..=3 {
        let block = child(&parent, n, START + u64::from(n) * 160, vec![0x52]);
        parent = block.header;
        chain.add_block_at(block, &LOWEST, START + 1000).unwrap();
    }
    assert_eq!(chain.tip, Some(parent.hash()));
    let again = ChainState::new(
        Network::Regtest.params(),
        Database::restore(chain.block_store.journal().clone()),
        Database::restore(chain.utxo_store.journal().clone()),
        Database::restore(chain.state_store.journal().clone()),
    )
    .unwrap();
    assert_eq!(again.tip, chain.tip);
    assert_eq!(again.get_height(), 3);
    for height in 0..=4 {
        assert_eq!(again.get_block_hash(height), chain.get_block_hash(height));
    }
    // The index names the new chain down to the first block
    let mut hash = parent.hash();
    for height in (0..=3).rev() {
        assert_eq!(again.get_block_hash(height), Some(hash));
        hash = again.block_store.get_header(&hash).unwrap().unwrap().prev_block_hash;
    }
    assert_eq!(hash, [0; 32]);
}

#[test]
fn blocks_read_back_from_their_stored_form() {
    let block = create_genesis_block(0x207f_ffff);
    let bytes = block.to_bytes().unwrap();
    let again = Block::from_bytes(&bytes).unwrap();
    assert_eq!(again.hash(), block.hash());
    assert_eq!(again.transactions, block.transactions);
    assert!(Block::from_bytes(&bytes[..bytes.len() - 1]).is_err());
    // Version, two hashes with eight bytes each in front of nothing, then the rest
    assert_eq!(&bytes[..4], &[1, 0, 0, 0]);
}
