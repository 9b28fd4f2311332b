use ferrous_node::consensus::block::create_genesis_block;
use ferrous_node::consensus::chain::ChainState;
use ferrous_node::consensus::params::Network;
use ferrous_node::consensus::transaction::Transaction;
use ferrous_node::network::mempool::NetworkMempool;
use ferrous_node::network::protocol::{
    GetDataMessage, InvMessage, InvVector, MessagePayload, INV_BLOCK, INV_TX,
};
use ferrous_node::network::relay::BlockRelay;
use ferrous_node::network::sync::{Receipt, SyncManager};

#[test]
fn test_block_relay_creation() {
    let mut relay = BlockRelay::new();

    // Announce a block; the second time nothing is to be sent
    let block_hash = [0u8; 32];
    assert_eq!(
        relay.announce_block(&block_hash),
        Some(MessagePayload::Inv(InvMessage {
            inventory: vec![InvVector { inv_type: INV_BLOCK, hash: block_hash }],
        }))
    );
    assert!(relay.announce_block(&block_hash).is_none());
}

#[test]
fn announced_blocks_are_forgotten_in_the_end() {
    let mut relay = BlockRelay::new();
    for n in 0..1000u32 {
        let mut hash = [0u8; 32];
        hash[..4].copy_from_slice(&n.to_le_bytes());
        assert!(relay.announce_block(&hash).is_some());
    }
    assert!(relay.announce_block(&[0xff; 32]).is_some());
    assert!(relay.announce_block(&[0xff; 32]).is_none());
}

#[test]
fn block_is_added_and_told_on() {
    let params = Network::Regtest.params();
    let genesis = create_genesis_block(params.genesis_n_bits);
    let hash = genesis.hash();
    let mut chain = ChainState::new_in_memory(params).unwrap();
    let mut sync = SyncManager::new(0);
    let mut mempool = NetworkMempool::new();
    let mut relay = BlockRelay::new();

    let (receipt, _) = sync.receive_block_for_sync(genesis, 0);
    let Receipt::Untracked(block) = receipt else { panic!("no sync is running") };
    let effects = relay.relay_block(
        &mut chain,
        &mut sync,
        &mut mempool,
        4,
        block,
        &[0; 32],
        1_800_000_000,
        0,
    );
    assert!(effects.result.is_ok());
    assert!(effects.broadcast.is_some());
    assert_eq!(chain.get_tip().unwrap().unwrap().block.hash(), hash);

    // The block can be asked for now
    let wanted = GetDataMessage { inventory: vec![InvVector { inv_type: INV_BLOCK, hash }] };
    let sends = BlockRelay::handle_getdata(&chain, &mempool, 9, &wanted);
    assert_eq!(sends.len(), 1);
    assert_eq!(sends[0].peer_id, 9);
    assert!(matches!(sends[0].payload, MessagePayload::Block(_)));
}

#[test]
fn transactions_are_asked_for_and_told_on() {
    let chain = ChainState::new_in_memory(Network::Regtest.params()).unwrap();
    let mut sync = SyncManager::new(0);
    let mut mempool = NetworkMempool::new();
    let tx = Transaction {
        version: 1,
        inputs: vec![],
        outputs: vec![],
        witnesses: vec![],
        locktime: 0,
    };
    let item = InvVector { inv_type: INV_TX, hash: tx.txid() };
    let news = InvMessage { inventory: vec![item] };
    let sends = BlockRelay::handle_inv(&mut sync, &chain, &mempool, 2, &news, 0);
    assert_eq!(sends.len(), 1);
    assert_eq!(
        sends[0].payload,
        MessagePayload::GetData(GetDataMessage { inventory: vec![item] })
    );
    let told = BlockRelay::handle_transaction(&mut mempool, &chain, &tx).unwrap();
    assert_eq!(told, Some(MessagePayload::Inv(news)));
    assert_eq!(BlockRelay::handle_transaction(&mut mempool, &chain, &tx), Ok(None));
}
