use ferrous_node::consensus::block::create_genesis_block;
use ferrous_node::consensus::transaction::TxOutput;
use ferrous_node::consensus::u256::U256;
use ferrous_node::consensus::utxo::{OutPoint, UtxoEntry};
use ferrous_node::storage::blocks::{BlockMeta, BlockStore};
use ferrous_node::storage::blockchain_db::BlockchainDB;
use ferrous_node::storage::chain_state::{ChainStateStore, ChainTip};
use ferrous_node::storage::db::{Batch, ColumnFamily, Database};
use ferrous_node::storage::utxo::UtxoStore;

fn entry(value: u64) -> UtxoEntry {
    UtxoEntry {
        output: TxOutput { value, script_pubkey: vec![0x51] },
        coinbase: true,
        height: 3,
    }
}

#[test]
fn rows_are_kept_apart() {
    let mut db = Database::new();
    db.put(ColumnFamily::Blocks, b"k", b"1").unwrap();
    db.put(ColumnFamily::Utxo, b"k", b"2").unwrap();
    assert_eq!(db.get(ColumnFamily::Blocks, b"k"), Some(&b"1".to_vec()));
    assert_eq!(db.get(ColumnFamily::Utxo, b"k"), Some(&b"2".to_vec()));
    db.delete(ColumnFamily::Blocks, b"k").unwrap();
    assert_eq!(db.get(ColumnFamily::Blocks, b"k"), None);
    assert_eq!(db.iter(ColumnFamily::Utxo), vec![(b"k".to_vec(), b"2".to_vec())]);
    let mut batch = Batch::new();
    batch.put(ColumnFamily::Undo, b"a", b"x");
    batch.delete(ColumnFamily::Utxo, b"k");
    db.commit(batch).unwrap();
    assert_eq!(db.get(ColumnFamily::Utxo, b"k"), None);
    let again = Database::restore(db.journal().clone());
    assert_eq!(again.get(ColumnFamily::Undo, b"a"), Some(&b"x".to_vec()));
    assert_eq!(again.get(ColumnFamily::Blocks, b"k"), None);
}

#[test]
fn blocks_are_stored() {
    let mut store = BlockStore::new(Database::new());
    let block = create_genesis_block(0x207f_ffff);
    let hash = block.hash();
    assert_eq!(store.has_block(&hash), Ok(false));
    store.store_block(&block, 7, U256::from(9)).unwrap();
    assert_eq!(store.has_block(&hash), Ok(true));
    assert_eq!(store.get_hash_by_height(7), Ok(Some(hash)));
    assert_eq!(store.get_block(&hash).unwrap().unwrap().hash(), hash);
    assert_eq!(store.get_header(&hash).unwrap().unwrap().hash(), hash);
    let meta = store.get_block_meta(&hash).unwrap().unwrap();
    assert_eq!(meta.height, 7);
    assert_eq!(meta.cumulative_work.to_bytes_le()[0], 9);
    assert!(store.get_block(&[1; 32]).unwrap().is_none());
}

#[test]
fn meta_layout() {
    let meta = BlockMeta { height: 258, hash: [5; 32], cumulative_work: U256::from(1) };
    let bytes = meta.to_bytes();
    assert_eq!(bytes.len(), 72);
    assert_eq!(&bytes[..8], &[2, 1, 0, 0, 0, 0, 0, 0]);
    let again = BlockMeta::from_bytes(&bytes).unwrap();
    assert_eq!((again.height, again.hash), (258, [5; 32]));
    assert!(BlockMeta::from_bytes(&bytes[..71]).is_err());
}

#[test]
fn outputs_are_stored() {
    let mut store = UtxoStore::new(Database::new());
    let at = OutPoint { txid: [4; 32], vout: 2 };
    store.put_utxo(&at, &entry(50)).unwrap();
    assert_eq!(store.has_utxo(&at), Ok(true));
    let read = store.get_utxo(&at).unwrap().unwrap();
    assert_eq!(read.output.value, 50);
    assert!(read.coinbase);
    assert_eq!(read.height, 3);
    assert_eq!(store.get_utxo_count(), Ok(1));
    let all = store.export_utxos().unwrap();
    assert_eq!((all[0].0.txid, all[0].0.vout), ([4; 32], 2));
    store.delete_utxo(&at).unwrap();
    assert_eq!(store.has_utxo(&at), Ok(false));
}

#[test]
fn a_block_is_undone() {
    let mut store = UtxoStore::new(Database::new());
    let spent = OutPoint { txid: [1; 32], vout: 0 };
    let made = OutPoint { txid: [2; 32], vout: 0 };
    store.put_utxo(&spent, &entry(50)).unwrap();
    let before = store.export_utxos().unwrap().len();
    store.apply_block(&vec![(made, entry(40))], &vec![spent]).unwrap();
    assert_eq!(store.has_utxo(&spent), Ok(false));
    assert_eq!(store.has_utxo(&made), Ok(true));
    store.revert_block(&vec![made], &vec![(spent, entry(50))]).unwrap();
    assert_eq!(store.has_utxo(&spent), Ok(true));
    assert_eq!(store.has_utxo(&made), Ok(false));
    assert_eq!(store.export_utxos().unwrap().len(), before);
}

#[test]
fn tips_are_stored() {
    let mut store = ChainStateStore::new(Database::new());
    assert_eq!(store.is_initialized(), Ok(false));
    let tip = ChainTip { hash: [6; 32], height: 11, cumulative_work: U256::from(5) };
    store.set_tip(&tip).unwrap();
    assert_eq!(store.get_tip_height(), Ok(Some(11)));
    assert_eq!(store.get_tip_hash(), Ok(Some([6; 32])));
    store.set_best_header(&[7; 32], 12).unwrap();
    assert_eq!(store.get_best_header(), Ok(Some(([7; 32], 12))));
    store.clear().unwrap();
    assert_eq!(store.get_tip_height(), Ok(None));
}

#[test]
fn database_keeps_headers_and_outputs() {
    let mut db = BlockchainDB::open(Database::new(), Database::new());
    let block = create_genesis_block(0x207f_ffff);
    let hash = block.hash();
    db.put_header(&hash, &block.header).unwrap();
    db.put_block(&hash, &block).unwrap();
    db.put_height_index(0, &hash).unwrap();
    assert_eq!(db.get_header(&hash).unwrap().unwrap().hash(), hash);
    assert_eq!(db.get_block(&hash).unwrap().unwrap().hash(), hash);
    assert_eq!(db.get_hash_at_height(0), Ok(Some(hash)));
    assert_eq!(db.get_hash_at_height(1), Ok(None));
    db.put_utxo(&OutPoint { txid: [1; 32], vout: 0 }, &entry(1)).unwrap();
    db.clear_utxos().unwrap();
}

#[test]
fn journals_lead_from_what_was_saved() {
    let mut db = BlockchainDB::open(Database::new(), Database::new());
    let genesis = create_genesis_block(0x207f_ffff);
    let hash = genesis.header.hash();
    db.put_block(&hash, &genesis).unwrap();
    db.put_height_index(0, &hash).unwrap();

    let mut blocks = db.journals().0.clone();
    let utxos = db.journals().1.clone();
    assert!(utxos.is_empty());
    // Until it counts as saved, it is handed out again.
    assert_eq!(db.journals().0.len(), blocks.len());
    db.mark_saved();

    // What follows is handed out by itself, and nothing twice.
    db.put_header(&hash, &genesis.header).unwrap();
    let later = db.journals().0.clone();
    assert_eq!(later.len(), 1);
    db.mark_saved();
    assert!(db.journals().0.is_empty());

    blocks.extend(later);
    let again = BlockchainDB::open(Database::restore(blocks), Database::restore(utxos));
    assert_eq!(again.get_block(&hash).unwrap().unwrap().header.hash(), hash);
    assert_eq!(again.get_header(&hash).unwrap().unwrap().hash(), hash);
    assert_eq!(again.get_hash_at_height(0).unwrap(), Some(hash));
}

#[test]
fn headers_that_were_stored_together_are_found() {
    let genesis = create_genesis_block(0x207f_ffff);
    let mut store = BlockStore::new(Database::new());
    store.store_block(&genesis, 0, U256::one()).unwrap();
    let headers: Vec<_> = (1..=3u64)
        .map(|n| {
            let mut header = genesis.header;
            header.nonce = n;
            (header, n * 7)
        })
        .collect();
    store.store_headers_batch(&headers).unwrap();
    for (header, height) in &headers {
        assert_eq!(store.get_header(&header.hash()).unwrap(), Some(*header));
        assert_eq!(store.get_header_by_height(*height).unwrap(), Some(*header));
        assert_eq!(store.get_header_hash_by_height(*height).unwrap(), Some(header.hash()));
        assert_eq!(store.get_hash_by_height(*height).unwrap(), None);
    }
    assert_eq!(store.get_hash_by_height(0).unwrap(), Some(genesis.header.hash()));
}

#[test]
fn blocks_of_a_side_chain_leave_the_heights_alone() {
    let mut store = BlockStore::new(Database::new());
    let main = create_genesis_block(0x207f_ffff);
    let mut side = create_genesis_block(0x207f_ffff);
    side.header.nonce += 1;
    store.store_block(&main, 3, U256::one()).unwrap();
    store.store_block_no_index(&side, 3, U256::from(4)).unwrap();
    assert_eq!(store.get_hash_by_height(3).unwrap(), Some(main.hash()));
    let found = store.get_block(&side.hash()).unwrap().unwrap();
    assert_eq!(found.hash(), side.hash());
    assert_eq!(store.get_block_meta(&side.hash()).unwrap().unwrap().height, 3);
    store.update_height_index(3, &side.hash()).unwrap();
    assert_eq!(store.get_block_by_height(3).unwrap().unwrap().hash(), side.hash());
    assert_eq!(store.get_block(&main.hash()).unwrap().unwrap().hash(), main.hash());
}
