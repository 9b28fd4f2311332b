//! Blocks, headers and the index of the active chain.

use crate::consensus::block::{Block, BlockHeader, BlockHeaderView, BlockView, U256};
use crate::primitives::bytes::{
    append_bytes, array32, le_bytes, le_value, lemma_byte_range_values, lemma_le_bytes_len,
    lemma_le_value_bound, lemma_le_value_of_bytes, tail_from, u64_from_le, u64_to_le,
};
use crate::primitives::hash::Hash256;
use crate::primitives::serialize::{views, Canonical, Decode, Encode};
use crate::storage::convert::{block_bytes, decode_block, encode_block, stored_block};
use crate::storage::db::{
    apply_op, lemma_row_injective, lists_family, put_op, replay, row, value_at, Batch,
    ColumnFamily, Database, RowOp, RowOpView, Rows,
};
use vstd::prelude::*;

verus! {

/// Block metadata for index
#[derive(Debug, Clone, Copy)]
pub struct BlockMeta {
    pub height: u64,
    pub hash: Hash256,
    pub cumulative_work: U256,
}

/// What block metadata stands for.
#[verifier::ext_equal]
pub struct BlockMetaView {
    pub height: u64,
    pub hash: Seq<u8>,
    pub cumulative_work: nat,
}

impl View for BlockMeta {
    type V = BlockMetaView;

    open spec fn view(&self) -> BlockMetaView {
        BlockMetaView {
            height: self.height,
            hash: self.hash@,
            cumulative_work: self.cumulative_work@,
        }
    }
}

/// The stored form of block metadata.
pub open spec fn meta_bytes(m: BlockMetaView) -> Seq<u8> {
    le_bytes(m.height as nat, 8) + m.hash + le_bytes(m.cumulative_work, 32)
}

/// The metadata that stored bytes stand for; 72 bytes are needed.
pub open spec fn parse_meta(b: Seq<u8>) -> Option<BlockMetaView> {
    if b.len() < 72 {
        None
    } else {
        Some(
            BlockMetaView {
                height: le_value(b.take(8)) as u64,
                hash: b.subrange(8, 40),
                cumulative_work: le_value(b.subrange(40, 72)),
            },
        )
    }
}

/// Stored metadata reads back as that metadata.
pub proof fn lemma_meta_reads_back(m: BlockMeta)
    ensures
        parse_meta(meta_bytes(m@)) == Some(m@),
{
    let b = meta_bytes(m@);
    lemma_le_bytes_len(m.height as nat, 8);
    lemma_le_bytes_len(m.cumulative_work@, 32);
    lemma_byte_range_values();
    lemma_le_value_of_bytes(m.height as nat, 8);
    crate::consensus::u256::lemma_u256_bound(m.cumulative_work);
    lemma_le_value_of_bytes(m.cumulative_work@, 32);
    assert(b.take(8) =~= le_bytes(m.height as nat, 8));
    assert(b.subrange(8, 40) =~= m.hash@);
    assert(b.subrange(40, 72) =~= le_bytes(m.cumulative_work@, 32));
}

impl BlockMeta {
    /// Serialize to bytes
    pub fn to_bytes(&self) -> (bytes: Vec<u8>)
        ensures
            bytes@ == meta_bytes(self@),
    {
        let mut bytes: Vec<u8> = Vec::new();
        append_bytes(&mut bytes, &u64_to_le(self.height));
        append_bytes(&mut bytes, &self.hash);
        append_bytes(&mut bytes, &self.cumulative_work.to_bytes_le());
        assert(bytes@ =~= meta_bytes(self@));
        bytes
    }

    /// Deserialize from bytes
    pub fn from_bytes(bytes: &[u8]) -> (r: Result<Self, String>)
        ensures
            match r {
                Ok(m) => parse_meta(bytes@) == Some(m@),
                Err(_) => parse_meta(bytes@) is None,
            },
    {
        if bytes.len() < 72 {
            return Err("Invalid BlockMeta bytes".to_owned());
        }
        let height: u64 = u64_from_le(bytes);
        let hash_part = tail_from(bytes, 8);
        let work_part = tail_from(bytes, 40);
        let hash: Hash256 = array32(hash_part);
        let work: Hash256 = array32(work_part);
        assert(hash_part@.take(32) =~= bytes@.subrange(8, 40));
        assert(work_part@.take(32) =~= bytes@.subrange(40, 72));
        Ok(BlockMeta { height, hash, cumulative_work: U256::from_le_bytes(work) })
    }
}

/// What a look-up finds: a value, nothing, or bytes that stand for no value.
pub type Lookup<T> = Result<Option<T>, ()>;

/// The result of a look-up is what is to be found.
pub open spec fn found<T: View>(r: Result<Option<T>, String>, want: Lookup<T::V>) -> bool {
    match r {
        Ok(Some(v)) => want == Lookup::<T::V>::Ok(Some(v@)),
        Ok(None) => want == Lookup::<T::V>::Ok(None),
        Err(_) => want is Err,
    }
}

/// A hash that was stored: 32 bytes.
pub open spec fn hash_value(v: Option<Seq<u8>>) -> Lookup<Seq<u8>> {
    match v {
        None => Ok(None),
        Some(b) => if b.len() == 32 {
            Ok(Some(b))
        } else {
            Err(())
        },
    }
}

/// Hash of the active chain at a height.
pub open spec fn hash_at_height(rows: Rows, height: u64) -> Lookup<Seq<u8>> {
    hash_value(value_at(rows, ColumnFamily::BlockIndex, le_bytes(height as nat, 8)))
}

/// The key under which the hash of a header is filed by height.
pub open spec fn header_height_key(height: u64) -> Seq<u8> {
    seq![0x68u8, 0x68u8, 0x3au8] + le_bytes(height as nat, 8)
}

/// Hash of the header that was stored last for a height.
pub open spec fn header_index_hash(rows: Rows, height: u64) -> Lookup<Seq<u8>> {
    hash_value(value_at(rows, ColumnFamily::Headers, header_height_key(height)))
}

/// Hash of the header at a height: by the header index, else by the active chain.
pub open spec fn header_hash_at_height(rows: Rows, height: u64) -> Lookup<Seq<u8>> {
    if header_index_hash(rows, height) == Lookup::<Seq<u8>>::Ok(None) {
        hash_at_height(rows, height)
    } else {
        header_index_hash(rows, height)
    }
}

/// The block with a hash.
pub open spec fn block_at(rows: Rows, hash: Seq<u8>) -> Lookup<BlockView> {
    match value_at(rows, ColumnFamily::Blocks, hash) {
        None => Ok(None),
        Some(b) => match stored_block(b) {
            Some(block) => Ok(Some(block)),
            None => Err(()),
        },
    }
}

/// The header with a hash.
pub open spec fn header_at(rows: Rows, hash: Seq<u8>) -> Lookup<BlockHeaderView> {
    match value_at(rows, ColumnFamily::Headers, hash) {
        None => Ok(None),
        Some(b) => match BlockHeader::parse(b) {
            Ok((h, n)) => Ok(Some(h)),
            Err(_) => Err(()),
        },
    }
}

/// The metadata of the block with a hash.
pub open spec fn meta_at(rows: Rows, hash: Seq<u8>) -> Lookup<BlockMetaView> {
    match value_at(rows, ColumnFamily::BlockMeta, hash) {
        None => Ok(None),
        Some(b) => match parse_meta(b) {
            Some(m) => Ok(Some(m)),
            None => Err(()),
        },
    }
}

/// The block of the active chain at a height.
pub open spec fn block_at_height(rows: Rows, height: u64) -> Lookup<BlockView> {
    match hash_at_height(rows, height) {
        Err(_) => Err(()),
        Ok(None) => Ok(None),
        Ok(Some(h)) => block_at(rows, h),
    }
}

/// The header at a height.
pub open spec fn header_at_height(rows: Rows, height: u64) -> Lookup<BlockHeaderView> {
    match header_hash_at_height(rows, height) {
        Err(_) => Err(()),
        Ok(None) => Ok(None),
        Ok(Some(h)) => header_at(rows, h),
    }
}

/// The rows after a block was stored beside the active chain.
pub open spec fn with_block(rows: Rows, b: BlockView, height: u64, work: nat) -> Rows {
    rows.insert(row(ColumnFamily::Blocks, b.hash()), block_bytes(b)).insert(
        row(ColumnFamily::Headers, b.hash()),
        BlockHeader::encoding(b.header),
    ).insert(
        row(ColumnFamily::BlockMeta, b.hash()),
        meta_bytes(BlockMetaView { height, hash: b.hash(), cumulative_work: work }),
    )
}

/// Whether a block is found under its hash, with its header and its metadata.
pub open spec fn block_stored(rows: Rows, b: BlockView, height: u64, work: nat) -> bool {
    let meta = BlockMetaView { height, hash: b.hash(), cumulative_work: work };
    &&& block_at(rows, b.hash()) == Lookup::<BlockView>::Ok(Some(b))
    &&& header_at(rows, b.hash()) == Lookup::<BlockHeaderView>::Ok(Some(b.header))
    &&& meta_at(rows, b.hash()) == Lookup::<BlockMetaView>::Ok(Some(meta))
}

/// The rows after the active chain got a hash at a height.
pub open spec fn with_index(rows: Rows, height: u64, hash: Seq<u8>) -> Rows {
    rows.insert(row(ColumnFamily::BlockIndex, le_bytes(height as nat, 8)), hash)
}

/// The rows after a header was stored for a height.
pub open spec fn with_header(rows: Rows, h: BlockHeaderView, height: u64) -> Rows {
    rows.insert(row(ColumnFamily::Headers, h.hash()), BlockHeader::encoding(h)).insert(
        row(ColumnFamily::Headers, header_height_key(height)),
        h.hash(),
    )
}

/// The rows after the first `n` headers of a list were stored.
pub open spec fn with_headers(rows: Rows, list: Seq<(BlockHeaderView, u64)>, n: nat) -> Rows
    decreases n,
{
    if n == 0 {
        rows
    } else {
        with_header(
            with_headers(rows, list, (n - 1) as nat),
            list[n - 1].0,
            list[n - 1].1,
        )
    }
}

/// Whether of a list of headers no two have one height.
pub open spec fn heights_apart(list: Seq<(BlockHeaderView, u64)>) -> bool {
    forall|i: int, j: int|
        0 <= i < j < list.len() ==> (#[trigger] list[i]).1 != (#[trigger] list[j]).1
}

/// Whether of a list of headers no two have one height, nor two that differ one hash.
pub open spec fn filed_apart(list: Seq<(BlockHeaderView, u64)>) -> bool {
    &&& heights_apart(list)
    &&& forall|i: int, j: int|
        0 <= i < list.len() && 0 <= j < list.len() && (#[trigger] list[i]).0.hash() == (
        #[trigger] list[j]).0.hash() ==> list[i].0 == list[j].0
}

/// The place of the last of the first `n` headers with a hash.
pub open spec fn last_with(list: Seq<(BlockHeaderView, u64)>, hash: Seq<u8>, n: nat) -> int
    decreases n,
{
    if n == 0 {
        -1
    } else if list[n - 1].0.hash() == hash {
        n - 1
    } else {
        last_with(list, hash, (n - 1) as nat)
    }
}

/// Whether the hash of a header is found under its height, and under that hash and that height
/// the last header of the list that has it.
pub open spec fn entry_filed(rows: Rows, list: Seq<(BlockHeaderView, u64)>, i: int) -> bool {
    let hash = list[i].0.hash();
    let last = list[last_with(list, hash, list.len())].0;
    &&& header_hash_at_height(rows, list[i].1) == Lookup::<Seq<u8>>::Ok(Some(hash))
    &&& header_at(rows, hash) == Lookup::<BlockHeaderView>::Ok(Some(last))
    &&& header_at_height(rows, list[i].1) == Lookup::<BlockHeaderView>::Ok(Some(last))
}

/// Whether a header is found under its hash and under a height.
pub open spec fn header_filed(rows: Rows, h: BlockHeaderView, height: u64) -> bool {
    &&& header_at(rows, h.hash()) == Lookup::<BlockHeaderView>::Ok(Some(h))
    &&& header_at_height(rows, height) == Lookup::<BlockHeaderView>::Ok(Some(h))
    &&& header_hash_at_height(rows, height) == Lookup::<Seq<u8>>::Ok(Some(h.hash()))
}

/// Whether a list of headers can be stored: hashes have 32 bytes, in the header and of it.
pub open spec fn storable(list: Seq<(BlockHeaderView, u64)>) -> bool {
    forall|i: int|
        0 <= i < list.len() ==> (#[trigger] list[i]).0.hash().len() == 32
            && BlockHeader::decodable(list[i].0)
}

proof fn lemma_header_key(a: u64, b: u64)
    requires
        header_height_key(a) == header_height_key(b),
    ensures
        a == b,
{
    lemma_byte_range_values();
    lemma_le_bytes_len(a as nat, 8);
    lemma_le_bytes_len(b as nat, 8);
    lemma_le_value_of_bytes(a as nat, 8);
    lemma_le_value_of_bytes(b as nat, 8);
    assert(header_height_key(a).skip(3) =~= le_bytes(a as nat, 8));
    assert(header_height_key(b).skip(3) =~= le_bytes(b as nat, 8));
}

proof fn lemma_last_with(list: Seq<(BlockHeaderView, u64)>, i: int, n: nat)
    requires
        0 <= i < n <= list.len(),
    ensures
        i <= last_with(list, list[i].0.hash(), n) < n,
        list[last_with(list, list[i].0.hash(), n)].0.hash() == list[i].0.hash(),
    decreases n,
{
    if list[n - 1].0.hash() != list[i].0.hash() {
        lemma_last_with(list, i, (n - 1) as nat);
    }
}

proof fn lemma_header_rows(rows: Rows, list: Seq<(BlockHeaderView, u64)>, n: nat)
    requires
        n <= list.len(),
        heights_apart(list),
        storable(list),
    ensures
        ({
            let after = with_headers(rows, list, n);
            &&& forall|i: int|
                0 <= i < n ==> value_at(
                    after,
                    ColumnFamily::Headers,
                    (#[trigger] list[i]).0.hash(),
                ) == Some(
                    BlockHeader::encoding(list[last_with(list, list[i].0.hash(), n)].0),
                ) && value_at(after, ColumnFamily::Headers, header_height_key(list[i].1)) == Some(
                    list[i].0.hash(),
                )
            &&& forall|cf: ColumnFamily, k: Seq<u8>|
                cf != ColumnFamily::Headers ==> #[trigger] value_at(after, cf, k) == value_at(
                    rows,
                    cf,
                    k,
                )
        }),
    decreases n,
{
    if n > 0 {
        broadcast use lemma_row_injective;

        let m = (n - 1) as nat;
        lemma_header_rows(rows, list, m);
        let before = with_headers(rows, list, m);
        let after = with_headers(rows, list, n);
        let (h, height) = list[m as int];
        lemma_le_bytes_len(height as nat, 8);
        assert forall|i: int| 0 <= i < n implies value_at(
            after,
            ColumnFamily::Headers,
            (#[trigger] list[i]).0.hash(),
        ) == Some(BlockHeader::encoding(list[last_with(list, list[i].0.hash(), n)].0))
            && value_at(after, ColumnFamily::Headers, header_height_key(list[i].1)) == Some(
            list[i].0.hash(),
        ) by {
            let x = list[i].0.hash();
            let y = header_height_key(list[i].1);
            lemma_le_bytes_len(list[i].1 as nat, 8);
            lemma_row_injective(ColumnFamily::Headers, x, ColumnFamily::Headers, h.hash());
            lemma_row_injective(
                ColumnFamily::Headers,
                x,
                ColumnFamily::Headers,
                header_height_key(height),
            );
            lemma_row_injective(ColumnFamily::Headers, y, ColumnFamily::Headers, h.hash());
            lemma_row_injective(
                ColumnFamily::Headers,
                y,
                ColumnFamily::Headers,
                header_height_key(height),
            );
            assert(list[m as int].0 == h);
            if i < m && y == header_height_key(height) {
                lemma_header_key(list[i].1, height);
            }
        }
        assert forall|cf: ColumnFamily, k: Seq<u8>| cf != ColumnFamily::Headers implies #[trigger]
            value_at(after, cf, k) == value_at(rows, cf, k) by {
            lemma_row_injective(cf, k, ColumnFamily::Headers, h.hash());
            lemma_row_injective(cf, k, ColumnFamily::Headers, header_height_key(height));
            assert(value_at(before, cf, k) == value_at(rows, cf, k));
        }
    }
}

/// Storing headers leaves the index of the active chain as it was.
pub proof fn lemma_headers_keep_index(rows: Rows, list: Seq<(BlockHeaderView, u64)>, n: nat)
    ensures
        forall|height: u64| #[trigger]
            hash_at_height(with_headers(rows, list, n), height) == hash_at_height(rows, height),
    decreases n,
{
    if n > 0 {
        broadcast use lemma_row_injective;

        lemma_headers_keep_index(rows, list, (n - 1) as nat);
        let before = with_headers(rows, list, (n - 1) as nat);
        assert forall|height: u64| #[trigger]
            hash_at_height(with_headers(rows, list, n), height) == hash_at_height(
                rows,
                height,
            ) by {
            assert(hash_at_height(before, height) == hash_at_height(rows, height));
        }
    }
}

/// Headers that were stored together, each at a height of its own, are found under their
/// hashes and their heights, of several with one hash the last; and the index of the active
/// chain is as it was.
pub proof fn lemma_headers_read_back(rows: Rows, list: Seq<(BlockHeaderView, u64)>)
    requires
        heights_apart(list),
        storable(list),
    ensures
        forall|i: int|
            0 <= i < list.len() ==> #[trigger] entry_filed(
                with_headers(rows, list, list.len()),
                list,
                i,
            ),
        filed_apart(list) ==> forall|i: int|
            0 <= i < list.len() ==> header_filed(
                with_headers(rows, list, list.len()),
                (#[trigger] list[i]).0,
                list[i].1,
            ),
        forall|height: u64| #[trigger]
            hash_at_height(with_headers(rows, list, list.len()), height) == hash_at_height(
                rows,
                height,
            ),
{
    let after = with_headers(rows, list, list.len());
    lemma_header_rows(rows, list, list.len());
    assert forall|i: int| 0 <= i < list.len() implies #[trigger] entry_filed(after, list, i) by {
        let k = last_with(list, list[i].0.hash(), list.len());
        lemma_last_with(list, i, list.len());
        let h = list[k].0;
        assert(list[i].0.hash() == h.hash());
        BlockHeader::lemma_round_trip(h, Seq::empty());
        assert(BlockHeader::encoding(h) + Seq::<u8>::empty() =~= BlockHeader::encoding(h));
    }
    if filed_apart(list) {
        assert forall|i: int| 0 <= i < list.len() implies header_filed(
            after,
            (#[trigger] list[i]).0,
            list[i].1,
        ) by {
            assert(entry_filed(after, list, i));
            lemma_last_with(list, i, list.len());
        }
    }
    assert forall|height: u64| #[trigger] hash_at_height(after, height) == hash_at_height(
        rows,
        height,
    ) by {
        let k = le_bytes(height as nat, 8);
        assert(value_at(after, ColumnFamily::BlockIndex, k) == value_at(
            rows,
            ColumnFamily::BlockIndex,
            k,
        ));
    }
}

/// The height that a key of the index of the active chain stands for.
pub open spec fn index_key_height(key: Seq<u8>) -> u64 {
    if key.len() >= 8 {
        le_value(key.take(8)) as u64
    } else {
        0
    }
}

proof fn lemma_replay_push(rows: Rows, ops: Seq<RowOpView>, op: RowOpView)
    ensures
        replay(rows, ops.push(op)) == apply_op(replay(rows, ops), op),
{
    assert(ops.push(op).drop_last() =~= ops);
}

/// Block storage interface
pub struct BlockStore {
    db: Database,
}

impl View for BlockStore {
    type V = Rows;

    closed spec fn view(&self) -> Rows {
        self.db@
    }
}

fn hash_from(value: Option<&Vec<u8>>) -> (r: Result<Option<Hash256>, String>)
    ensures
        found(
            r,
            hash_value(
                match value {
                    Some(v) => Some(v@),
                    None => None,
                },
            ),
        ),
{
    match value {
        None => Ok(None),
        Some(v) => {
            if v.len() != 32 {
                return Err("Invalid hash".to_owned());
            }
            let hash = array32(v);
            assert(hash@ =~= v@);
            Ok(Some(hash))
        },
    }
}

impl BlockStore {
    pub fn new(db: Database) -> (r: Self)
        ensures
            r@ == db@,
            r.saved() == db.saved(),
    {
        BlockStore { db }
    }

    /// The rows when they were last saved.
    pub closed spec fn saved(self) -> Rows {
        self.db.saved()
    }

    /// What was written since it was last saved.
    pub fn journal(&self) -> (ops: &Vec<RowOp>)
        ensures
            replay(self.saved(), views(ops@)) == self@,
    {
        self.db.journal()
    }

    /// Counts what was written as saved.
    pub fn mark_saved(&mut self)
        ensures
            final(self)@ == old(self)@,
            final(self).saved() == old(self)@,
    {
        self.db.mark_saved()
    }

    fn height_key(height: u64) -> (key: Vec<u8>)
        ensures
            key@ == header_height_key(height),
    {
        let mut key: Vec<u8> = Vec::new();
        key.push(0x68);
        key.push(0x68);
        key.push(0x3a);
        append_bytes(&mut key, &u64_to_le(height));
        assert(key@ =~= header_height_key(height));
        key
    }

    /// Store block
    pub fn store_block(&mut self, block: &Block, height: u64, cumulative_work: U256) -> (r: Result<
        (),
        String,
    >)
        ensures
            r is Ok,
            final(self)@ == with_index(
                with_block(old(self)@, block@, height, cumulative_work@),
                height,
                block@.hash(),
            ),
            block_stored(final(self)@, block@, height, cumulative_work@),
            hash_at_height(final(self)@, height) == Lookup::<Seq<u8>>::Ok(Some(block@.hash())),
            block_at_height(final(self)@, height) == Lookup::<BlockView>::Ok(Some(block@)),
            final(self).saved() == old(self).saved(),
    {
        let _ = self.store_block_no_index(block, height, cumulative_work);
        let hash = block.header.hash();
        broadcast use lemma_row_injective;

        self.update_height_index(height, &hash)
    }

    /// Store block WITHOUT updating the index of the active chain. For blocks of
    /// a side chain, so that the mapping from height to hash stays that of the
    /// active chain.
    pub fn store_block_no_index(
        &mut self,
        block: &Block,
        height: u64,
        cumulative_work: U256,
    ) -> (r: Result<(), String>)
        ensures
            r is Ok,
            final(self)@ == with_block(old(self)@, block@, height, cumulative_work@),
            block_stored(final(self)@, block@, height, cumulative_work@),
            forall|other: u64| #[trigger]
                hash_at_height(final(self)@, other) == hash_at_height(old(self)@, other),
            final(self).saved() == old(self).saved(),
    {
        let block_hash = block.header.hash();
        let bytes = match encode_block(block) {
            Ok(bytes) => bytes,
            Err(e) => return Err(e),
        };
        let mut batch = Batch::new();
        batch.put(ColumnFamily::Blocks, &block_hash, &bytes);
        let header_bytes = block.header.encode();
        let ghost ops1 = batch@;
        batch.put(ColumnFamily::Headers, &block_hash, &header_bytes);
        let ghost ops2 = batch@;
        let meta = BlockMeta { height, hash: block_hash, cumulative_work };
        batch.put(ColumnFamily::BlockMeta, &block_hash, &meta.to_bytes());
        proof {
            let rows = self@;
            let h = block@.hash();
            let none = Seq::<RowOpView>::empty();
            lemma_replay_push(rows, none, put_op(ColumnFamily::Blocks, h, bytes@));
            lemma_replay_push(rows, ops1, put_op(ColumnFamily::Headers, h, header_bytes@));
            lemma_replay_push(rows, ops2, put_op(ColumnFamily::BlockMeta, h, meta_bytes(meta@)));
            lemma_block_rows_read_back(rows, *block, height, cumulative_work);
        }
        self.db.commit(batch)
    }

    /// Overwrite the canonical height index entry for `height` to point to `hash`.
    /// Called during chain reorganisation to update the active-chain height map.
    pub fn update_height_index(&mut self, height: u64, hash: &Hash256) -> (r: Result<(), String>)
        ensures
            r is Ok,
            final(self)@ == with_index(old(self)@, height, hash@),
            hash_at_height(final(self)@, height) == Lookup::<Seq<u8>>::Ok(Some(hash@)),
            final(self).saved() == old(self).saved(),
    {
        self.db.put(ColumnFamily::BlockIndex, &u64_to_le(height), hash)
    }

    pub fn get_hash_by_height(&self, height: u64) -> (r: Result<Option<Hash256>, String>)
        ensures
            found(r, hash_at_height(self@, height)),
    {
        hash_from(self.db.get(ColumnFamily::BlockIndex, &u64_to_le(height)))
    }

    pub fn get_header_hash_by_height(&self, height: u64) -> (r: Result<Option<Hash256>, String>)
        ensures
            found(r, header_hash_at_height(self@, height)),
    {
        match self.get_header_hash_from_height_index(height) {
            Ok(Some(hash)) => Ok(Some(hash)),
            Ok(None) => self.get_hash_by_height(height),
            Err(e) => Err(e),
        }
    }

    pub fn get_header_hash_from_height_index(&self, height: u64) -> (r: Result<
        Option<Hash256>,
        String,
    >)
        ensures
            found(r, header_index_hash(self@, height)),
    {
        hash_from(self.db.get(ColumnFamily::Headers, &BlockStore::height_key(height)))
    }

    /// Get block by hash
    pub fn get_block(&self, hash: &Hash256) -> (r: Result<Option<Block>, String>)
        ensures
            found(r, block_at(self@, hash@)),
    {
        match self.db.get(ColumnFamily::Blocks, hash) {
            Some(b) => match decode_block(b) {
                Ok(block) => Ok(Some(block)),
                Err(e) => Err(e),
            },
            None => Ok(None),
        }
    }

    /// Get block by height
    pub fn get_block_by_height(&self, height: u64) -> (r: Result<Option<Block>, String>)
        ensures
            found(r, block_at_height(self@, height)),
    {
        match self.get_hash_by_height(height) {
            Ok(Some(hash)) => self.get_block(&hash),
            Ok(None) => Ok(None),
            Err(e) => Err(e),
        }
    }

    /// Get header by hash
    pub fn get_header(&self, hash: &Hash256) -> (r: Result<Option<BlockHeader>, String>)
        ensures
            found(r, header_at(self@, hash@)),
    {
        match self.db.get(ColumnFamily::Headers, hash) {
            Some(b) => match BlockHeader::decode(b) {
                Ok((header, _)) => Ok(Some(header)),
                Err(_) => Err("Invalid header bytes".to_owned()),
            },
            None => Ok(None),
        }
    }

    /// Store header only (without full block)
    pub fn store_header(&mut self, header: &BlockHeader) -> (r: Result<(), String>)
        ensures
            r is Ok,
            final(self)@ == old(self)@.insert(
                row(ColumnFamily::Headers, header@.hash()),
                BlockHeader::encoding(header@),
            ),
            header_at(final(self)@, header@.hash()) == Lookup::<BlockHeaderView>::Ok(Some(header@)),
            final(self).saved() == old(self).saved(),
    {
        let hash = header.hash();
        self.put_header(&hash, header)
    }

    /// Files a header under a hash.
    pub fn put_header(&mut self, hash: &Hash256, header: &BlockHeader) -> (r: Result<(), String>)
        ensures
            r is Ok,
            final(self)@ == old(self)@.insert(
                row(ColumnFamily::Headers, hash@),
                BlockHeader::encoding(header@),
            ),
            header_at(final(self)@, hash@) == Lookup::<BlockHeaderView>::Ok(Some(header@)),
            final(self).saved() == old(self).saved(),
    {
        let header_bytes = header.encode();
        proof {
            lemma_header_bytes_read_back(*header);
        }
        self.db.put(ColumnFamily::Headers, hash, &header_bytes)
    }

    /// Files a block under a hash.
    pub fn put_block(&mut self, hash: &Hash256, block: &Block) -> (r: Result<(), String>)
        ensures
            r is Ok,
            final(self)@ == old(self)@.insert(
                row(ColumnFamily::Blocks, hash@),
                block_bytes(block@),
            ),
            block_at(final(self)@, hash@) == Lookup::<BlockView>::Ok(Some(block@)),
            final(self).saved() == old(self).saved(),
    {
        let bytes = match encode_block(block) {
            Ok(bytes) => bytes,
            Err(e) => return Err(e),
        };
        self.db.put(ColumnFamily::Blocks, hash, &bytes)
    }

    pub fn store_header_at_height(&mut self, header: &BlockHeader, height: u64) -> (r: Result<
        (),
        String,
    >)
        ensures
            r is Ok,
            final(self)@ == with_header(old(self)@, header@, height),
            header_filed(final(self)@, header@, height),
            final(self).saved() == old(self).saved(),
    {
        let hash = header.hash();
        let header_bytes = header.encode();
        let key = BlockStore::height_key(height);
        let mut batch = Batch::new();
        batch.put(ColumnFamily::Headers, &hash, &header_bytes);
        let ghost ops1 = batch@;
        batch.put(ColumnFamily::Headers, &key, &hash);
        proof {
            let rows = self@;
            let none = Seq::<RowOpView>::empty();
            lemma_replay_push(rows, none, put_op(ColumnFamily::Headers, hash@, header_bytes@));
            lemma_replay_push(rows, ops1, put_op(ColumnFamily::Headers, key@, hash@));
            lemma_header_bytes_read_back(*header);
            lemma_le_bytes_len(height as nat, 8);
            lemma_row_injective(ColumnFamily::Headers, hash@, ColumnFamily::Headers, key@);
        }
        self.db.commit(batch)
    }

    /// Write a batch of (header, height) pairs in a single atomic commit.
    pub fn store_headers_batch(&mut self, headers: &Vec<(BlockHeader, u64)>) -> (r: Result<
        (),
        String,
    >)
        ensures
            r is Ok,
            final(self)@ == with_headers(old(self)@, views(headers@), headers@.len()),
            storable(views(headers@)),
            final(self).saved() == old(self).saved(),
            heights_apart(views(headers@)) ==> forall|i: int|
                0 <= i < headers@.len() ==> #[trigger] entry_filed(
                    final(self)@,
                    views(headers@),
                    i,
                ),
            filed_apart(views(headers@)) ==> forall|i: int|
                0 <= i < headers@.len() ==> header_filed(
                    final(self)@,
                    (#[trigger] views(headers@)[i]).0,
                    views(headers@)[i].1,
                ),
            forall|height: u64| #[trigger]
                hash_at_height(final(self)@, height) == hash_at_height(old(self)@, height),
    {
        let ghost list = views(headers@);
        let ghost rows = self@;
        let mut batch = Batch::new();
        let mut i: usize = 0;
        while i < headers.len()
            invariant
                i <= headers.len(),
                list == views(headers@),
                replay(rows, batch@) == with_headers(rows, list, i as nat),
                forall|j: int|
                    0 <= j < i ==> (#[trigger] list[j]).0.hash().len() == 32
                        && BlockHeader::decodable(list[j].0),
            decreases headers.len() - i,
        {
            let header = &headers[i].0;
            let height: u64 = headers[i].1;
            let hash = header.hash();
            let header_bytes = header.encode();
            let key = BlockStore::height_key(height);
            let ghost ops0 = batch@;
            batch.put(ColumnFamily::Headers, &hash, &header_bytes);
            let ghost ops1 = batch@;
            batch.put(ColumnFamily::Headers, &key, &hash);
            proof {
                lemma_replay_push(rows, ops0, put_op(ColumnFamily::Headers, hash@, header_bytes@));
                lemma_replay_push(rows, ops1, put_op(ColumnFamily::Headers, key@, hash@));
                assert(list[i as int] == (header@, height));
            }
            i += 1;
        }
        proof {
            lemma_headers_keep_index(rows, list, list.len());
            if heights_apart(list) {
                lemma_headers_read_back(rows, list);
            }
        }
        self.db.commit(batch)
    }

    pub fn get_header_by_height(&self, height: u64) -> (r: Result<Option<BlockHeader>, String>)
        ensures
            found(r, header_at_height(self@, height)),
    {
        match self.get_header_hash_by_height(height) {
            Ok(Some(hash)) => self.get_header(&hash),
            Ok(None) => Ok(None),
            Err(e) => Err(e),
        }
    }

    pub fn get_block_meta(&self, hash: &Hash256) -> (r: Result<Option<BlockMeta>, String>)
        ensures
            found(r, meta_at(self@, hash@)),
    {
        match self.db.get(ColumnFamily::BlockMeta, hash) {
            Some(b) => match BlockMeta::from_bytes(b) {
                Ok(meta) => Ok(Some(meta)),
                Err(e) => Err(e),
            },
            None => Ok(None),
        }
    }

    /// Check if block exists
    pub fn has_block(&self, hash: &Hash256) -> (r: Result<bool, String>)
        ensures
            r is Ok,
            r->Ok_0 == value_at(self@, ColumnFamily::Blocks, hash@) is Some,
    {
        Ok(self.db.get(ColumnFamily::Blocks, hash).is_some())
    }

    /// Get blockchain height (highest stored block)
    pub fn get_height(&self) -> (r: Result<Option<u64>, String>)
        ensures
            r matches Ok(top) && match top {
                None => forall|k: Seq<u8>|
                    value_at(self@, ColumnFamily::BlockIndex, k) is None,
                Some(h) => {
                    &&& exists|k: Seq<u8>|
                        #[trigger] value_at(self@, ColumnFamily::BlockIndex, k) is Some
                            && index_key_height(k) == h
                    &&& forall|k: Seq<u8>|
                        #[trigger] value_at(self@, ColumnFamily::BlockIndex, k) is Some
                            ==> index_key_height(k) <= h
                },
            },
    {
        let items = self.db.iter(ColumnFamily::BlockIndex);
        let ghost pairs = views(items@);
        let mut max_height: Option<u64> = None;
        let mut i: usize = 0;
        while i < items.len()
            invariant
                i <= items.len(),
                pairs == views(items@),
                lists_family(pairs, self@, ColumnFamily::BlockIndex),
                max_height is None <==> i == 0,
                max_height matches Some(h) ==> {
                    &&& exists|p: int| 0 <= p < i && index_key_height((#[trigger] pairs[p]).0) == h
                    &&& forall|p: int| 0 <= p < i ==> index_key_height((#[trigger] pairs[p]).0) <= h
                },
            decreases items.len() - i,
        {
            let key = &items[i].0;
            let height: u64 = if key.len() >= 8 {
                u64_from_le(key)
            } else {
                0
            };
            assert(pairs[i as int].0 == key@);
            assert(height == index_key_height(key@)) by {
                if key@.len() >= 8 {
                    lemma_le_value_bound(key@.take(8));
                    lemma_byte_range_values();
                }
            }
            max_height = match max_height {
                None => Some(height),
                Some(h) => if height > h {
                    Some(height)
                } else {
                    Some(h)
                },
            };
            i += 1;
        }
        proof {
            if let Some(h) = max_height {
                let p = choose|p: int|
                    0 <= p < items.len() && index_key_height((#[trigger] pairs[p]).0) == h;
                assert(value_at(self@, ColumnFamily::BlockIndex, pairs[p].0) is Some);
            }
        }
        Ok(max_height)
    }
}

proof fn lemma_header_bytes_read_back(header: BlockHeader)
    ensures
        BlockHeader::parse(BlockHeader::encoding(header@)) is Ok,
        BlockHeader::parse(BlockHeader::encoding(header@))->Ok_0.0 == header@,
{
    BlockHeader::lemma_round_trip(header@, Seq::empty());
    assert(BlockHeader::encoding(header@) + Seq::<u8>::empty() =~= BlockHeader::encoding(header@));
}

/// The rows of a stored block are its own again when they are read.
proof fn lemma_block_rows_read_back(rows: Rows, block: Block, height: u64, work: U256)
    requires
        stored_block(block_bytes(block@)) == Some(block@),
        block@.hash().len() == 32,
    ensures
        block_stored(with_block(rows, block@, height, work@), block@, height, work@),
        forall|other: u64| #[trigger]
            hash_at_height(with_block(rows, block@, height, work@), other) == hash_at_height(
                rows,
                other,
            ),
{
    broadcast use lemma_row_injective;

    lemma_header_bytes_read_back(block.header);
    let h = block@.hash();
    let b = meta_bytes(BlockMetaView { height, hash: h, cumulative_work: work@ });
    lemma_le_bytes_len(height as nat, 8);
    lemma_le_bytes_len(work@, 32);
    lemma_byte_range_values();
    lemma_le_value_of_bytes(height as nat, 8);
    crate::consensus::u256::lemma_u256_bound(work);
    lemma_le_value_of_bytes(work@, 32);
    assert(b.take(8) =~= le_bytes(height as nat, 8));
    assert(b.subrange(8, 40) =~= h);
    assert(b.subrange(40, 72) =~= le_bytes(work@, 32));
}

/// Naming a hash at a height leaves what is found under hashes as it was, and what is
/// found at other heights.
pub proof fn lemma_index_leaves_the_rest(rows: Rows, height: u64, hash: Seq<u8>, other: u64)
    requires
        other != height,
    ensures
        hash_at_height(with_index(rows, height, hash), other) == hash_at_height(rows, other),
        forall|h: Seq<u8>| #[trigger]
            block_at(with_index(rows, height, hash), h) == block_at(rows, h),
        forall|h: Seq<u8>| #[trigger]
            header_at(with_index(rows, height, hash), h) == header_at(rows, h),
        forall|h: Seq<u8>| #[trigger]
            meta_at(with_index(rows, height, hash), h) == meta_at(rows, h),
{
    broadcast use lemma_row_injective;

    lemma_byte_range_values();
    lemma_le_value_of_bytes(height as nat, 8);
    lemma_le_value_of_bytes(other as nat, 8);
}

} // verus!
