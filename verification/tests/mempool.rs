use ferrous_node::consensus::chain::ChainState;
use ferrous_node::consensus::params::Network;
use ferrous_node::consensus::transaction::{Transaction, TxInput, TxOutput, Witness};
use ferrous_node::consensus::utxo::{OutPoint, UtxoEntry};
use ferrous_node::network::mempool::{MempoolError, NetworkMempool};
use ferrous_node::script::engine::ScriptError;

fn empty_chain() -> ChainState {
    ChainState::new_in_memory(Network::Regtest.params()).unwrap()
}

fn spending(txid: [u8; 32], value: u64) -> Transaction {
    Transaction {
        version: 1,
        inputs: vec![TxInput {
            prev_txid: txid,
            prev_index: 0,
            script_sig: vec![],
            sequence: 0,
        }],
        outputs: vec![TxOutput { value, script_pubkey: vec![0x51] }],
        witnesses: vec![Witness { stack_items: vec![] }],
        locktime: 0,
    }
}

fn chain_with_output(txid: [u8; 32], script_pubkey: Vec<u8>) -> ChainState {
    let mut chain = empty_chain();
    let entry = UtxoEntry {
        output: TxOutput { value: 1000, script_pubkey },
        coinbase: false,
        height: 0,
    };
    chain.utxo_store.put_utxo(&OutPoint { txid, vout: 0 }, &entry).unwrap();
    chain
}

#[test]
fn test_mempool_lifecycle() {
    let chain = empty_chain();
    let mut mempool = NetworkMempool::new();

    assert_eq!(mempool.size(), 0);

    // Create dummy tx
    let tx = Transaction {
        version: 1,
        inputs: vec![],
        outputs: vec![],
        witnesses: vec![],
        locktime: 0,
    };

    // Without inputs there is nothing to look up.
    let result = mempool.add_transaction(&chain, tx.clone());
    assert!(result.is_ok());
    assert_eq!(mempool.size(), 1);
    assert!(mempool.has_transaction(&tx.txid()));

    // Insert again
    let result = mempool.add_transaction(&chain, tx.clone());
    assert!(result.is_ok());
    assert!(!result.unwrap()); // Returns false (already exists)

    // Remove
    mempool.remove_transaction(&tx.txid());
    assert_eq!(mempool.size(), 0);
}

#[test]
fn missing_input_is_refused() {
    let chain = empty_chain();
    let mut mempool = NetworkMempool::new();
    assert_eq!(
        mempool.add_transaction(&chain, spending([1; 32], 5)),
        Err(MempoolError::MissingInput)
    );
    assert_eq!(mempool.size(), 0);
}

#[test]
fn second_spender_is_refused() {
    // A legacy output that anyone can spend
    let chain = chain_with_output([1; 32], vec![0x51]);
    let mut mempool = NetworkMempool::new();
    let first = spending([1; 32], 5);
    let second = spending([1; 32], 6);
    assert_eq!(mempool.add_transaction(&chain, first.clone()), Ok(true));
    assert_eq!(mempool.add_transaction(&chain, second.clone()), Err(MempoolError::Conflict));
    assert_eq!(mempool.get_transaction(&first.txid()), Some(first));
    // Once the second one is in a block, the first one is gone
    mempool.remove_block_transactions(&vec![second]);
    assert_eq!(mempool.size(), 0);
}

#[test]
fn stale_transactions_are_purged() {
    let mut chain = chain_with_output([1; 32], vec![0x51]);
    let mut mempool = NetworkMempool::new();
    let tx = spending([1; 32], 5);
    mempool.add_transaction(&chain, tx.clone()).unwrap();
    mempool.purge_stale(&chain);
    assert_eq!(mempool.size(), 1);
    assert_eq!(mempool.get_all_transactions(), vec![tx]);
    chain.utxo_store.delete_utxo(&OutPoint { txid: [1; 32], vout: 0 }).unwrap();
    mempool.purge_stale(&chain);
    assert_eq!(mempool.size(), 0);
}

#[test]
fn script_that_fails_is_refused() {
    let mut mempool = NetworkMempool::new();
    // A payment to a key hash, without signature and key
    let mut p2pkh = vec![0x76, 0xa9, 0x14];
    p2pkh.extend([7; 20]);
    p2pkh.extend([0x88, 0xac]);
    let chain = chain_with_output([1; 32], p2pkh);
    assert_eq!(
        mempool.add_transaction(&chain, spending([1; 32], 5)),
        Err(MempoolError::Script(ScriptError::StackUnderflow))
    );
    let mut segwit = vec![0x00, 0x14];
    segwit.extend([7; 20]);
    let locked = chain_with_output([1; 32], segwit);
    assert_eq!(
        mempool.add_transaction(&locked, spending([1; 32], 5)),
        Err(MempoolError::P2wpkhFailed)
    );
    let mut bare = spending([1; 32], 5);
    bare.witnesses.clear();
    assert_eq!(mempool.add_transaction(&locked, bare), Err(MempoolError::MissingWitness));
}

#[test]
fn pool_can_be_filled_and_cleared() {
    let chain = empty_chain();
    let mut mempool = NetworkMempool::new();
    for n in 0..5000u32 {
        let tx = Transaction {
            version: 1,
            inputs: vec![],
            outputs: vec![],
            witnesses: vec![],
            locktime: n,
        };
        assert_eq!(mempool.add_transaction(&chain, tx), Ok(true));
    }
    let one_more = Transaction {
        version: 2,
        inputs: vec![],
        outputs: vec![],
        witnesses: vec![],
        locktime: 0,
    };
    assert_eq!(mempool.add_transaction(&chain, one_more), Err(MempoolError::Full));
    mempool.clear();
    assert_eq!(mempool.size(), 0);
}
