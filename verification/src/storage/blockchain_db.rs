//! Blocks, headers and unspent outputs behind one interface.

use crate::consensus::block::{Block, BlockHeader, BlockHeaderView, BlockView};
use crate::consensus::utxo::{OutPoint, UtxoEntry, UtxoEntryView};
use crate::primitives::hash::Hash256;
use crate::primitives::serialize::{views, Encode};
use crate::storage::blocks::{
    block_at, found, hash_at_height, header_at, with_index, BlockStore, Lookup,
};
use crate::storage::convert::{block_bytes, encode_entry, encode_outpoint, entry_bytes};
use crate::storage::db::{
    lemma_row_injective, lists_family, replay, row, value_at, ColumnFamily, Database, RowOp, Rows,
};
use crate::storage::utxo::entry_at;
use vstd::prelude::*;

verus! {

/// Blocks, headers and unspent outputs.
pub struct BlockchainDB {
    blocks: BlockStore,
    utxos: Database,
}

impl BlockchainDB {
    /// The rows of blocks and headers.
    pub closed spec fn block_rows(self) -> Rows {
        self.blocks@
    }

    /// The rows of unspent outputs.
    pub closed spec fn utxo_rows(self) -> Rows {
        self.utxos@
    }

    /// The rows of blocks and headers, and those of unspent outputs, when they were last
    /// saved.
    pub closed spec fn saved(self) -> (Rows, Rows) {
        (self.blocks.saved(), self.utxos.saved())
    }

    /// The interface over what was saved of blocks and of unspent outputs.
    pub fn open(blocks: Database, utxos: Database) -> (r: Self)
        ensures
            r.block_rows() == blocks@,
            r.utxo_rows() == utxos@,
            r.saved() == (blocks.saved(), utxos.saved()),
    {
        BlockchainDB { blocks: BlockStore::new(blocks), utxos }
    }

    /// What was written since it was last saved: to blocks, and to unspent outputs.
    pub fn journals(&self) -> (r: (&Vec<RowOp>, &Vec<RowOp>))
        ensures
            replay(self.saved().0, views(r.0@)) == self.block_rows(),
            replay(self.saved().1, views(r.1@)) == self.utxo_rows(),
    {
        (self.blocks.journal(), self.utxos.journal())
    }

    /// Counts what was written as saved.
    pub fn mark_saved(&mut self)
        ensures
            final(self).block_rows() == old(self).block_rows(),
            final(self).utxo_rows() == old(self).utxo_rows(),
            final(self).saved() == (old(self).block_rows(), old(self).utxo_rows()),
    {
        self.blocks.mark_saved();
        self.utxos.mark_saved();
    }

    pub fn put_header(&mut self, hash: &Hash256, header: &BlockHeader) -> (r: Result<(), String>)
        ensures
            r is Ok,
            final(self).block_rows() == old(self).block_rows().insert(
                row(ColumnFamily::Headers, hash@),
                BlockHeader::encoding(header@),
            ),
            header_at(final(self).block_rows(), hash@) == Lookup::<BlockHeaderView>::Ok(
                Some(header@),
            ),
            final(self).utxo_rows() == old(self).utxo_rows(),
            final(self).saved() == old(self).saved(),
    {
        self.blocks.put_header(hash, header)
    }

    pub fn get_header(&self, hash: &Hash256) -> (r: Result<Option<BlockHeader>, String>)
        ensures
            found(r, header_at(self.block_rows(), hash@)),
    {
        self.blocks.get_header(hash)
    }

    pub fn put_block(&mut self, hash: &Hash256, block: &Block) -> (r: Result<(), String>)
        ensures
            r is Ok,
            final(self).block_rows() == old(self).block_rows().insert(
                row(ColumnFamily::Blocks, hash@),
                block_bytes(block@),
            ),
            block_at(final(self).block_rows(), hash@) == Lookup::<BlockView>::Ok(Some(block@)),
            final(self).utxo_rows() == old(self).utxo_rows(),
            final(self).saved() == old(self).saved(),
    {
        self.blocks.put_block(hash, block)
    }

    pub fn get_block(&self, hash: &Hash256) -> (r: Result<Option<Block>, String>)
        ensures
            found(r, block_at(self.block_rows(), hash@)),
    {
        self.blocks.get_block(hash)
    }

    pub fn put_height_index(&mut self, height: u32, hash: &Hash256) -> (r: Result<(), String>)
        ensures
            r is Ok,
            final(self).block_rows() == with_index(old(self).block_rows(), height as u64, hash@),
            hash_at_height(final(self).block_rows(), height as u64) == Lookup::<Seq<u8>>::Ok(
                Some(hash@),
            ),
            final(self).utxo_rows() == old(self).utxo_rows(),
            final(self).saved() == old(self).saved(),
    {
        self.blocks.update_height_index(height as u64, hash)
    }

    pub fn get_hash_at_height(&self, height: u32) -> (r: Result<Option<Hash256>, String>)
        ensures
            found(r, hash_at_height(self.block_rows(), height as u64)),
    {
        self.blocks.get_hash_by_height(height as u64)
    }

    pub fn put_utxo(&mut self, outpoint: &OutPoint, entry: &UtxoEntry) -> (r: Result<(), String>)
        ensures
            r is Ok,
            final(self).utxo_rows() == old(self).utxo_rows().insert(
                row(ColumnFamily::Utxo, outpoint@.key()),
                entry_bytes(entry@),
            ),
            entry_at(final(self).utxo_rows(), outpoint@.key()) == Lookup::<UtxoEntryView>::Ok(
                Some(entry@),
            ),
            final(self).block_rows() == old(self).block_rows(),
            final(self).saved() == old(self).saved(),
    {
        let key = match encode_outpoint(outpoint) {
            Ok(key) => key,
            Err(e) => return Err(e),
        };
        let value = match encode_entry(entry) {
            Ok(value) => value,
            Err(e) => return Err(e),
        };
        self.utxos.put(ColumnFamily::Utxo, &key, &value)
    }

    pub fn delete_utxo(&mut self, outpoint: &OutPoint) -> (r: Result<(), String>)
        ensures
            r is Ok,
            final(self).utxo_rows() == old(self).utxo_rows().remove(
                row(ColumnFamily::Utxo, outpoint@.key()),
            ),
            final(self).block_rows() == old(self).block_rows(),
            final(self).saved() == old(self).saved(),
    {
        let key = match encode_outpoint(outpoint) {
            Ok(key) => key,
            Err(e) => return Err(e),
        };
        self.utxos.delete(ColumnFamily::Utxo, &key)
    }

    /// Removes every unspent output, and nothing else.
    pub fn clear_utxos(&mut self) -> (r: Result<(), String>)
        ensures
            r is Ok,
            forall|k: Seq<u8>|
                #![trigger value_at(final(self).utxo_rows(), ColumnFamily::Utxo, k)]
                value_at(final(self).utxo_rows(), ColumnFamily::Utxo, k) is None,
            forall|cf: ColumnFamily, k: Seq<u8>|
                #![trigger value_at(final(self).utxo_rows(), cf, k)]
                cf != ColumnFamily::Utxo ==> value_at(final(self).utxo_rows(), cf, k) == value_at(
                    old(self).utxo_rows(),
                    cf,
                    k,
                ),
            final(self).block_rows() == old(self).block_rows(),
            final(self).saved() == old(self).saved(),
    {
        broadcast use lemma_row_injective;

        let items = self.utxos.iter(ColumnFamily::Utxo);
        let ghost pairs = views(items@);
        let ghost start = self.utxo_rows();
        let mut i: usize = 0;
        while i < items.len()
            invariant
                i <= items.len(),
                pairs == views(items@),
                start == old(self).utxo_rows(),
                lists_family(pairs, start, ColumnFamily::Utxo),
                self.block_rows() == old(self).block_rows(),
                self.saved() == old(self).saved(),
                forall|k: Seq<u8>|
                    #![trigger value_at(self.utxo_rows(), ColumnFamily::Utxo, k)]
                    value_at(self.utxo_rows(), ColumnFamily::Utxo, k) is Some ==> value_at(
                        start,
                        ColumnFamily::Utxo,
                        k,
                    ) is Some && forall|p: int| 0 <= p < i ==> (#[trigger] pairs[p]).0 != k,
                forall|cf: ColumnFamily, k: Seq<u8>|
                    #![trigger value_at(self.utxo_rows(), cf, k)]
                    cf != ColumnFamily::Utxo ==> value_at(self.utxo_rows(), cf, k) == value_at(
                        start,
                        cf,
                        k,
                    ),
            decreases items.len() - i,
        {
            let ghost before = self.utxo_rows();
            let _ = self.utxos.delete(ColumnFamily::Utxo, &items[i].0);
            proof {
                let after = self.utxo_rows();
                let gone = pairs[i as int].0;
                assert forall|k: Seq<u8>|
                    #![trigger value_at(after, ColumnFamily::Utxo, k)]
                    value_at(after, ColumnFamily::Utxo, k) is Some implies value_at(
                    start,
                    ColumnFamily::Utxo,
                    k,
                ) is Some && forall|p: int| 0 <= p < i + 1 ==> (#[trigger] pairs[p]).0 != k by {
                    assert(value_at(before, ColumnFamily::Utxo, k) is Some);
                    lemma_row_injective(ColumnFamily::Utxo, k, ColumnFamily::Utxo, gone);
                }
                assert forall|cf: ColumnFamily, k: Seq<u8>|
                    #![trigger value_at(after, cf, k)]
                    cf != ColumnFamily::Utxo implies value_at(after, cf, k) == value_at(
                    start,
                    cf,
                    k,
                ) by {
                    assert(value_at(before, cf, k) == value_at(start, cf, k));
                    lemma_row_injective(cf, k, ColumnFamily::Utxo, gone);
                }
            }
            i += 1;
        }
        proof {
            assert forall|k: Seq<u8>|
                #![trigger value_at(self.utxo_rows(), ColumnFamily::Utxo, k)]
                value_at(self.utxo_rows(), ColumnFamily::Utxo, k) is None by {
                if value_at(self.utxo_rows(), ColumnFamily::Utxo, k) is Some {
                    let p = choose|p: int| 0 <= p < pairs.len() && (#[trigger] pairs[p]).0 == k;
                    assert(pairs[p].0 == k);
                }
            }
        }
        Ok(())
    }
}

} // verus!
