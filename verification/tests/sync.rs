use ferrous_node::consensus::block::{create_genesis_block, Block, BlockHeader};
use ferrous_node::consensus::chain::ChainState;
use ferrous_node::consensus::merkle::compute_merkle_root;
use ferrous_node::consensus::params::Network;
use ferrous_node::mining::miner::Miner;
use ferrous_node::network::download::BlockDownloadQueue;
use ferrous_node::network::headers::HeaderFault;
use ferrous_node::network::mempool::NetworkMempool;
use ferrous_node::network::protocol::{
    GetDataMessage, GetHeadersMessage, HeadersMessage, MessagePayload,
};
use ferrous_node::network::relay::BlockRelay;
use ferrous_node::network::sync::{select_best_peer, Receipt, SyncManager, SyncState};
use ferrous_node::primitives::hash::Hash256;

const LOWEST: Hash256 = [0; 32];
const START: u64 = 1_700_000_000;
const TIME: u64 = START + 1_000_000;

fn genesis_chain() -> ChainState {
    let params = Network::Regtest.params();
    let genesis = create_genesis_block(params.genesis_n_bits);
    let mut chain = ChainState::new_in_memory(params).unwrap();
    chain.add_block_at(genesis, &LOWEST, TIME).unwrap();
    chain
}

fn blocks(count: u32) -> Vec<Block> {
    let miner = Miner::new(Network::Regtest.params(), vec![]);
    let mut parent = create_genesis_block(0x207f_ffff).header;
    let mut out = Vec::new();
    for height in 1..=count {
        let coinbase = miner.create_coinbase_internal(height, 5_000_000_000, 0, vec![0x51]);
        let header = BlockHeader {
            version: 1,
            prev_block_hash: parent.hash(),
            merkle_root: compute_merkle_root(&[coinbase.txid()]),
            timestamp: START + height as u64 * 150,
            n_bits: 0x207f_ffff,
            nonce: 0,
        };
        out.push(Block { header, transactions: vec![coinbase] });
        parent = header;
    }
    out
}

fn headers_of(blocks: &[Block]) -> HeadersMessage {
    HeadersMessage { headers: blocks.iter().map(|b| b.header).collect() }
}

fn wanted(payload: &MessagePayload) -> Vec<Hash256> {
    match payload {
        MessagePayload::GetData(GetDataMessage { inventory }) => {
            inventory.iter().map(|i| i.hash).collect()
        }
        _ => panic!("a request for blocks"),
    }
}

#[test]
fn a_node_catches_up() {
    let mut chain = genesis_chain();
    let mut sync = SyncManager::new(0);
    let mut mempool = NetworkMempool::new();
    let all = blocks(5);

    let sends = sync.start_sync(&chain, 1, 0);
    // Headers are asked for, and the own tip is told
    assert_eq!(sends.len(), 2);
    assert!(matches!(sends[0].payload, MessagePayload::GetHeaders(_)));
    assert!(matches!(sends[1].payload, MessagePayload::Inv(_)));
    assert!(sync.is_syncing());

    let message = headers_of(&all);
    assert_eq!(sync.header_heights(&chain, &message.headers), vec![1, 2, 3, 4, 5]);
    let hashes = vec![LOWEST; 5];
    let sends = sync.handle_headers(&mut chain, 1, &message, &hashes, TIME, 0).unwrap();
    let asked: Vec<Hash256> = sends
        .iter()
        .filter(|s| matches!(s.payload, MessagePayload::GetData(_)))
        .flat_map(|s| wanted(&s.payload))
        .collect();
    let names: Vec<Hash256> = all.iter().map(|b| b.hash()).collect();
    assert_eq!(asked, names);

    // The blocks come in the wrong order
    for n in [1, 0, 3, 4, 2] {
        let (receipt, _) = sync.receive_block_for_sync(all[n].clone(), 1);
        match receipt {
            Receipt::Apply(mut run) => {
                while run.next_block().is_some() {
                    sync.add_next(&mut run, &mut chain, &LOWEST, TIME, 1);
                }
                BlockRelay::finish_sync(&mut mempool, &chain, &run.applied, &run.requeued);
            }
            Receipt::Handled => {}
            Receipt::Untracked(_) => panic!("the block was asked for"),
        }
    }
    assert_eq!(chain.get_height(), 5);
    assert!(!sync.is_syncing());
    assert_eq!(*sync.state(), SyncState::Synced);
}

#[test]
fn headers_that_do_not_fit_are_refused() {
    let mut chain = genesis_chain();
    let mut sync = SyncManager::new(0);
    let all = blocks(2);
    sync.start_sync(&chain, 1, 0);
    // Behind a header whose parent is not known, headers are asked for again
    let gap = HeadersMessage { headers: vec![all[1].header] };
    let sends = sync.handle_headers(&mut chain, 1, &gap, &vec![LOWEST], TIME, 0).unwrap();
    assert!(matches!(sends[0].payload, MessagePayload::GetHeaders(_)));
    // whatever stands for its hash
    let heights = sync.header_heights(&chain, &gap.headers);
    assert!(heights.is_empty());
    let again = sync.handle_headers(&mut chain, 1, &gap, &vec![[0xff; 32]], TIME, 0).unwrap();
    assert_eq!(again.len(), sends.len());
    assert!(matches!(again[0].payload, MessagePayload::GetHeaders(_)));
    // Too little work
    let weak = HeadersMessage { headers: vec![all[0].header] };
    let fault = sync.handle_headers(&mut chain, 1, &weak, &vec![[0xff; 32]], TIME, 0);
    assert!(matches!(fault, Err(f) if f != HeaderFault::TooHigh));
    assert_eq!(chain.get_height(), 0);
}

#[test]
fn headers_are_told() {
    let mut chain = genesis_chain();
    for block in blocks(3) {
        chain.add_block_at(block, &LOWEST, TIME).unwrap();
    }
    let request = GetHeadersMessage {
        version: 70015,
        block_locator: vec![chain.get_block_hash(1).unwrap()],
        stop_hash: [0; 32],
    };
    let answer = SyncManager::handle_getheaders(&chain, 7, &request);
    assert_eq!(answer.peer_id, 7);
    let MessagePayload::Headers(told) = answer.payload else { panic!("headers") };
    let hashes: Vec<Hash256> = told.headers.iter().map(|h| h.hash()).collect();
    assert_eq!(
        hashes,
        vec![chain.get_block_hash(2).unwrap(), chain.get_block_hash(3).unwrap()]
    );
}

#[test]
fn lost_peers_leave_their_work_to_others() {
    let mut queue = BlockDownloadQueue::new();
    let hashes: Vec<Hash256> = (0..4).map(|n| [n; 32]).collect();
    queue.enqueue_batch(&hashes);
    queue.enqueue_batch(&hashes);
    let given = queue.drain_to_peers(&vec![1], 0);
    assert_eq!(given, vec![(1, hashes.clone())]);
    assert!(queue.drain_to_peers(&vec![2], 0).is_empty());
    queue.mark_received(&[0; 32]);
    queue.on_peer_disconnected(1);
    let again = queue.drain_to_peers(&vec![2], 0);
    assert_eq!(again, vec![(2, hashes[1..].to_vec())]);
    // What takes too long is asked for again
    queue.recheck_timeouts(u64::MAX);
    assert_eq!(queue.drain_to_peers(&vec![3], 0).iter().map(|(_, h)| h.len()).sum::<usize>(), 3);
    for h in &hashes {
        queue.mark_received(h);
    }
    assert!(queue.is_idle());
}

#[test]
fn returned_work_keeps_the_order_of_the_queue() {
    // The lowest height is queued first, whatever its hash.
    let hashes: Vec<Hash256> = vec![[2; 32], [1; 32], [3; 32], [0; 32]];
    let mut queue = BlockDownloadQueue::new();
    queue.enqueue_batch(&hashes);
    assert_eq!(queue.drain_to_peers(&vec![7], 0), vec![(7, hashes.clone())]);
    queue.on_peer_disconnected(7);
    assert_eq!(queue.drain_to_peers(&vec![8], 0), vec![(8, hashes.clone())]);
    // So it is with what takes too long, less what has arrived.
    queue.mark_received(&[1; 32]);
    queue.recheck_timeouts(31_000_000_000);
    let left: Vec<Hash256> = vec![[2; 32], [3; 32], [0; 32]];
    assert_eq!(queue.drain_to_peers(&vec![9], 40_000_000_000), vec![(9, left)]);
    // A hash that is asked for once more is the first from then on; what a lost peer carried
    // goes before what waits.
    queue.requeue_front([0; 32]);
    queue.on_peer_disconnected(9);
    let front: Vec<Hash256> = vec![[2; 32], [3; 32], [0; 32]];
    assert_eq!(queue.drain_to_peers(&vec![5], 50_000_000_000), vec![(5, front)]);
    queue.on_peer_disconnected(5);
    let ahead: Vec<Hash256> = vec![[0; 32], [2; 32], [3; 32]];
    assert_eq!(queue.drain_to_peers(&vec![6], 50_000_000_000), vec![(6, ahead)]);
}

#[test]
fn orphans_wait_for_their_parent() {
    let mut chain = genesis_chain();
    let mut sync = SyncManager::new(0);
    let mut mempool = NetworkMempool::new();
    let mut relay = BlockRelay::new();
    let all = blocks(2);
    for n in [1, 0] {
        let effects = relay.relay_block(
            &mut chain,
            &mut sync,
            &mut mempool,
            1,
            all[n].clone(),
            &LOWEST,
            TIME,
            0,
        );
        assert!(effects.result.is_ok());
        if n == 1 {
            // The parent is asked for
            assert_eq!(chain.get_height(), 0);
            assert!(matches!(effects.sends[0].payload, MessagePayload::GetHeaders(_)));
        }
    }
    assert_eq!(chain.get_height(), 1);
}

#[test]
fn highest_peer_is_best() {
    assert_eq!(select_best_peer(&vec![(1, 5), (2, 9), (3, 7)]), Some(2));
    assert_eq!(select_best_peer(&vec![]), None);
}
