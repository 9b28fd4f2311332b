//! What of a chain lasts when it is stored and made again from what was stored.

use crate::consensus::block::{BlockDataView, BlockHeader, BlockHeaderView, BlockView};
use crate::consensus::cache::{cached, entries_valid, lemma_put_is_found};
use crate::consensus::chain_model::{
    disconnect, fork_paths, lemma_disconnect_keeps, load_blocks, place, recent_hashes, reconnect,
    recovered, reorganize, ChainView,
};
use crate::consensus::merkle::zero_hash;
use crate::primitives::bytes::{le_bytes, lemma_le_bytes_len};
use crate::primitives::serialize::{Decode, Encode};
use crate::storage::blocks::{
    block_at, block_stored, hash_at_height, header_at, header_height_key, meta_at, storable,
    with_block, with_headers, with_index, Lookup,
};
use crate::storage::chain_state::tip_at;
use crate::storage::db::{lemma_row_injective, row, value_at, ColumnFamily, Rows};
use vstd::prelude::*;

verus! {

/// Whether a block is stored.
pub open spec fn is_stored(rows: Rows, hash: Seq<u8>) -> bool {
    value_at(rows, ColumnFamily::Blocks, hash) is Some
}

/// Whether the predecessor of a block is stored, or it has none.
pub open spec fn followed(rows: Rows, b: BlockView) -> bool {
    b.header.prev_block_hash == zero_hash() || value_at(
        rows,
        ColumnFamily::Blocks,
        b.header.prev_block_hash,
    ) is Some
}

/// Whether a block, if it finds its place in a chain at a time, finds it behind a block that
/// is stored, and not behind one that is known without having been connected.
pub open spec fn behind_stored(c: ChainView, b: BlockView, now: u64) -> bool {
    place(c, b.header, now).result is Ok ==> followed(c.blocks, b)
}

/// Whether a block is stored under its own hash, with its header and its metadata, and
/// behind its predecessor.
pub open spec fn well_filed(rows: Rows, hash: Seq<u8>) -> bool {
    &&& hash.len() == 32
    &&& block_at(rows, hash) is Ok
    &&& block_at(rows, hash)->Ok_0 is Some
    &&& block_at(rows, hash)->Ok_0->Some_0.hash() == hash
    &&& header_at(rows, hash) == Lookup::<BlockHeaderView>::Ok(
        Some(block_at(rows, hash)->Ok_0->Some_0.header),
    )
    &&& meta_at(rows, hash) is Ok
    &&& meta_at(rows, hash)->Ok_0 is Some
    &&& followed(rows, block_at(rows, hash)->Ok_0->Some_0)
}

/// Whether every block that is stored can be read, with all blocks before it.
pub open spec fn blocks_filed(rows: Rows) -> bool {
    forall|hash: Seq<u8>| #[trigger]
        is_stored(rows, hash) ==> well_filed(rows, hash)
}

/// Whether the tip of a chain is the stored one, and its block is stored.
pub open spec fn tip_filed(c: ChainView) -> bool {
    match c.tip {
        None => tip_at(c.state) is Ok && tip_at(c.state)->Ok_0 is None,
        Some(t) => {
            &&& tip_at(c.state) is Ok
            &&& tip_at(c.state)->Ok_0 is Some
            &&& tip_at(c.state)->Ok_0->Some_0.hash == t
            &&& is_stored(c.blocks, t)
        },
    }
}

/// Whether a chain can be made again from its stores.
pub open spec fn lasting(c: ChainView) -> bool {
    blocks_filed(c.blocks) && tip_filed(c)
}

/// Whether two row sets differ in nothing but the index of the active chain.
pub open spec fn index_apart(a: Rows, b: Rows) -> bool {
    forall|cf: ColumnFamily, k: Seq<u8>|
        cf != ColumnFamily::BlockIndex ==> #[trigger] value_at(a, cf, k) == value_at(b, cf, k)
}

/// The rows once the index of the active chain names the last `n` blocks of a path, each at
/// its height.
pub open spec fn indexed(rows: Rows, path: Seq<Seq<u8>>, n: nat) -> Rows
    decreases n,
{
    if n == 0 {
        rows
    } else {
        let hash = path[path.len() - n];
        let before = indexed(rows, path, (n - 1) as nat);
        match meta_at(rows, hash) {
            Ok(Some(m)) => with_index(before, m.height, hash),
            _ => before,
        }
    }
}

/// Whether the index of the active chain names the blocks of a path.
pub open spec fn names_path(rows: Rows, path: Seq<Seq<u8>>) -> bool {
    forall|i: int|
        0 <= i < path.len() ==> match meta_at(rows, #[trigger] path[i]) {
            Ok(Some(m)) => hash_at_height(rows, m.height) == Lookup::<Seq<u8>>::Ok(Some(path[i])),
            _ => true,
        }
}

/// The blocks that a restart loads, from the tip backwards.
pub open spec fn loaded_path(c: ChainView) -> Seq<Seq<u8>> {
    match c.tip {
        None => Seq::empty(),
        Some(t) => match recent_hashes(c.blocks, t, c.capacity) {
            Some(path) => path,
            None => Seq::empty(),
        },
    }
}

/// Naming a hash at a height changes nothing but the index of the active chain.
pub proof fn lemma_index_alone(rows: Rows, height: u64, hash: Seq<u8>)
    ensures
        index_apart(rows, with_index(rows, height, hash)),
{
    broadcast use lemma_row_injective;

}

/// What is filed stays filed where only the index of the active chain changes.
pub proof fn lemma_filed_beside_index(a: Rows, b: Rows)
    requires
        blocks_filed(a),
        index_apart(a, b),
    ensures
        blocks_filed(b),
{
    assert forall|hash: Seq<u8>| #[trigger]
        is_stored(b, hash) implies well_filed(b, hash) by {
        assert(is_stored(a, hash));
        assert(value_at(a, ColumnFamily::Headers, hash) == value_at(
            b,
            ColumnFamily::Headers,
            hash,
        ));
        assert(value_at(a, ColumnFamily::BlockMeta, hash) == value_at(
            b,
            ColumnFamily::BlockMeta,
            hash,
        ));
        let prev = block_at(a, hash)->Ok_0->Some_0.header.prev_block_hash;
        assert(value_at(a, ColumnFamily::Blocks, prev) == value_at(b, ColumnFamily::Blocks, prev));
    }
}

proof fn lemma_index_apart_chain(a: Rows, b: Rows, c: Rows)
    requires
        index_apart(a, b),
        index_apart(b, c),
    ensures
        index_apart(a, c),
{
    assert forall|cf: ColumnFamily, k: Seq<u8>|
        cf != ColumnFamily::BlockIndex implies #[trigger] value_at(a, cf, k) == value_at(
        c,
        cf,
        k,
    ) by {
        assert(value_at(b, cf, k) == value_at(c, cf, k));
    }
}

/// Connecting blocks changes nothing of what is stored of blocks but the index of the active
/// chain.
pub proof fn lemma_reconnect_beside_index(chain: ChainView, path: Seq<Seq<u8>>, n: nat)
    ensures
        ({
            let after = reconnect(chain, path, n).chain;
            &&& index_apart(chain.blocks, after.blocks)
            &&& after == (ChainView { utxos: after.utxos, blocks: after.blocks, ..chain })
        }),
    decreases n,
{
    if n > 0 {
        let m = (n - 1) as nat;
        lemma_reconnect_beside_index(chain, path, m);
        let before = reconnect(chain, path, m);
        if before.result is Ok {
            let hash = path[path.len() - n];
            if let Ok((b, height)) = before.chain.block_with_height(hash) {
                lemma_index_alone(before.chain.blocks, height, hash);
                let after = reconnect(chain, path, n).chain;
                if after.blocks == with_index(before.chain.blocks, height, hash) {
                    lemma_index_apart_chain(chain.blocks, before.chain.blocks, after.blocks);
                }
            }
        }
    }
}

/// A reorganisation changes nothing of what is stored of blocks but the index of the active
/// chain, and nothing of the stored tip, whether it succeeds or not.
pub proof fn lemma_reorganize_beside_index(chain: ChainView, old_tip: Seq<u8>, new_tip: Seq<u8>)
    ensures
        ({
            let after = reorganize(chain, old_tip, new_tip).chain;
            &&& index_apart(chain.blocks, after.blocks)
            &&& after == (ChainView { utxos: after.utxos, blocks: after.blocks, ..chain })
        }),
{
    if let Some((old_path, new_path)) = fork_paths(chain, old_tip, new_tip) {
        lemma_disconnect_keeps(chain, old_path, old_path.len());
        let back = disconnect(chain, old_path, old_path.len()).chain;
        lemma_reconnect_beside_index(back, new_path, new_path.len());
    }
}

/// A chain lasts where only the index of the active chain changes.
pub proof fn lemma_lasting_beside_index(a: ChainView, b: ChainView)
    requires
        lasting(a),
        index_apart(a.blocks, b.blocks),
        a.state == b.state,
        a.tip == b.tip,
    ensures
        lasting(b),
{
    lemma_filed_beside_index(a.blocks, b.blocks);
    if let Some(t) = a.tip {
        assert(value_at(a.blocks, ColumnFamily::Blocks, t) == value_at(
            b.blocks,
            ColumnFamily::Blocks,
            t,
        ));
    }
}

/// Storing a block changes nothing of what is stored under other keys.
pub proof fn lemma_block_rows(rows: Rows, after: Rows, b: BlockView, height: u64, work: nat)
    requires
        index_apart(with_block(rows, b, height, work), after),
    ensures
        forall|cf: ColumnFamily, x: Seq<u8>|
            x != b.hash() && cf != ColumnFamily::BlockIndex ==> #[trigger] value_at(after, cf, x)
                == value_at(rows, cf, x),
{
    broadcast use lemma_row_injective;

    let full = with_block(rows, b, height, work);
    assert forall|cf: ColumnFamily, x: Seq<u8>|
        x != b.hash() && cf != ColumnFamily::BlockIndex implies #[trigger] value_at(after, cf, x)
        == value_at(rows, cf, x) by {
        assert(value_at(full, cf, x) == value_at(after, cf, x));
    }
}

/// Blocks are filed with one more that is stored behind its predecessor, whatever the index
/// of the active chain names then.
pub proof fn lemma_filed_with_block(rows: Rows, after: Rows, b: BlockView, height: u64, work: nat)
    requires
        blocks_filed(rows),
        followed(rows, b),
        b.hash().len() == 32,
        block_stored(after, b, height, work),
        index_apart(with_block(rows, b, height, work), after),
    ensures
        blocks_filed(after),
        is_stored(after, b.hash()),
        forall|hash: Seq<u8>| #[trigger] is_stored(rows, hash) ==> is_stored(after, hash),
{
    lemma_block_rows(rows, after, b, height, work);
    assert(is_stored(after, b.hash()));
    assert forall|hash: Seq<u8>| #[trigger] is_stored(rows, hash) implies is_stored(
        after,
        hash,
    ) by {
        if hash != b.hash() {
            assert(value_at(after, ColumnFamily::Blocks, hash) == value_at(
                rows,
                ColumnFamily::Blocks,
                hash,
            ));
        }
    }
    assert forall|hash: Seq<u8>| #[trigger] is_stored(after, hash) implies well_filed(
        after,
        hash,
    ) by {
        if hash == b.hash() {
            assert(followed(after, b)) by {
                assert(is_stored(rows, b.header.prev_block_hash) ==> is_stored(
                    after,
                    b.header.prev_block_hash,
                ));
            }
        } else {
            assert(value_at(after, ColumnFamily::Blocks, hash) == value_at(
                rows,
                ColumnFamily::Blocks,
                hash,
            ));
            assert(value_at(after, ColumnFamily::Headers, hash) == value_at(
                rows,
                ColumnFamily::Headers,
                hash,
            ));
            assert(value_at(after, ColumnFamily::BlockMeta, hash) == value_at(
                rows,
                ColumnFamily::BlockMeta,
                hash,
            ));
            assert(is_stored(rows, hash));
            let x = block_at(rows, hash)->Ok_0->Some_0;
            assert(well_filed(rows, hash));
            assert(followed(after, x)) by {
                assert(is_stored(rows, x.header.prev_block_hash) ==> is_stored(
                    after,
                    x.header.prev_block_hash,
                ));
            }
        }
    }
}

/// The way back from a stored block is complete: its blocks are stored, and each follows
/// the next.
pub proof fn lemma_path_is_stored(rows: Rows, hash: Seq<u8>, n: nat)
    requires
        blocks_filed(rows),
        is_stored(rows, hash),
        n > 0,
    ensures
        ({
            let path = recent_hashes(rows, hash, n)->Some_0;
            &&& recent_hashes(rows, hash, n) is Some
            &&& 0 < path.len() <= n
            &&& path[0] == hash
            &&& forall|i: int|
                0 <= i < path.len() ==> is_stored(rows, #[trigger] path[i])
            &&& forall|i: int|
                0 <= i < path.len() - 1 ==> block_at(
                    rows,
                    #[trigger] path[i],
                )->Ok_0->Some_0.header.prev_block_hash == path[i + 1]
        }),
    decreases n,
{
    if n > 1 {
        let h = block_at(rows, hash)->Ok_0->Some_0.header;
        assert(well_filed(rows, hash));
        let path = recent_hashes(rows, hash, n)->Some_0;
        if h.prev_block_hash != zero_hash() {
            lemma_path_is_stored(rows, h.prev_block_hash, (n - 1) as nat);
            let rest = recent_hashes(rows, h.prev_block_hash, (n - 1) as nat)->Some_0;
            assert(path =~= seq![hash] + rest);
            assert forall|i: int| 0 <= i < path.len() implies is_stored(rows, #[trigger] path[i]) by {
                if i > 0 {
                    assert(path[i] == rest[i - 1]);
                }
            }
            assert forall|i: int| 0 <= i < path.len() - 1 implies block_at(
                rows,
                #[trigger] path[i],
            )->Ok_0->Some_0.header.prev_block_hash == path[i + 1] by {
                if i > 0 {
                    assert(path[i] == rest[i - 1]);
                    assert(path[i + 1] == rest[i]);
                }
            }
        }
    }
}

proof fn lemma_indexed_apart(rows: Rows, path: Seq<Seq<u8>>, n: nat)
    ensures
        index_apart(rows, indexed(rows, path, n)),
    decreases n,
{
    if n > 0 {
        let m = (n - 1) as nat;
        let hash = path[path.len() - n];
        lemma_indexed_apart(rows, path, m);
        if let Ok(Some(meta)) = meta_at(rows, hash) {
            lemma_index_alone(indexed(rows, path, m), meta.height, hash);
            lemma_index_apart_chain(
                rows,
                indexed(rows, path, m),
                with_index(indexed(rows, path, m), meta.height, hash),
            );
        }
    }
}

proof fn lemma_indexed_already(rows: Rows, path: Seq<Seq<u8>>, n: nat)
    requires
        names_path(rows, path),
        n <= path.len(),
    ensures
        indexed(rows, path, n) == rows,
    decreases n,
{
    if n > 0 {
        lemma_indexed_already(rows, path, (n - 1) as nat);
        let hash = path[path.len() - n];
        if let Ok(Some(m)) = meta_at(rows, hash) {
            assert(hash_at_height(rows, m.height) == Lookup::<Seq<u8>>::Ok(Some(hash)));
            let key = row(ColumnFamily::BlockIndex, le_bytes(m.height as nat, 8));
            assert(rows.contains_key(key) && rows[key] == hash);
            assert(with_index(rows, m.height, hash) =~= rows);
        }
    }
}

proof fn lemma_path_loads(c: ChainView, path: Seq<Seq<u8>>, n: nat)
    requires
        blocks_filed(c.blocks),
        n <= path.len(),
        c.capacity > 0,
        entries_valid(c.cache, c.capacity),
        forall|i: int|
            0 <= i < path.len() ==> is_stored(c.blocks, #[trigger] path[i]),
        forall|i: int|
            0 <= i < path.len() - 1 ==> block_at(
                c.blocks,
                #[trigger] path[i],
            )->Ok_0->Some_0.header.prev_block_hash == path[i + 1],
    ensures
        ({
            let r = load_blocks(c, path, n)->Some_0;
            &&& load_blocks(c, path, n) is Some
            &&& r == (ChainView { blocks: indexed(c.blocks, path, n), cache: r.cache, ..c })
            &&& entries_valid(r.cache, r.capacity)
            &&& n > 0 ==> cached(r.cache, path[path.len() - n]) is Some
        }),
    decreases n,
{
    if n > 0 {
        let m = (n - 1) as nat;
        lemma_path_loads(c, path, m);
        let before = load_blocks(c, path, m)->Some_0;
        let hash = path[path.len() - n];
        lemma_indexed_apart(c.blocks, path, m);
        assert(is_stored(c.blocks, hash));
        assert(value_at(before.blocks, ColumnFamily::Blocks, hash) == value_at(
            c.blocks,
            ColumnFamily::Blocks,
            hash,
        ));
        assert(value_at(before.blocks, ColumnFamily::BlockMeta, hash) == value_at(
            c.blocks,
            ColumnFamily::BlockMeta,
            hash,
        ));
        assert(well_filed(c.blocks, hash));
        if n > 1 {
            assert(path[path.len() - n + 1] == block_at(
                c.blocks,
                path[path.len() - n],
            )->Ok_0->Some_0.header.prev_block_hash);
        }
        let b = block_at(c.blocks, hash)->Ok_0->Some_0;
        let meta = meta_at(c.blocks, hash)->Ok_0->Some_0;
        lemma_put_is_found(
            before.cache,
            before.capacity,
            hash,
            BlockDataView {
                block: b,
                height: meta.height,
                cumulative_work: meta.cumulative_work,
            },
        );
    }
}

/// A chain that lasts is made again from its stores: with its tip, which is among the recent
/// blocks, with its unspent outputs, and with its blocks. The index of the active chain then
/// names the blocks that were loaded; where it did so before, all rows are as they were.
pub proof fn lemma_restart_finds_the_chain(c: ChainView, empty: ChainView)
    requires
        lasting(c),
        c.capacity > 0,
        empty == (ChainView { cache: Seq::empty(), tip: None, ..c }),
    ensures
        ({
            let r = recovered(empty)->Some_0;
            let path = loaded_path(c);
            &&& recovered(empty) is Some
            &&& r == (ChainView {
                blocks: indexed(c.blocks, path, path.len()),
                cache: r.cache,
                ..c
            })
            &&& c.tip is Some ==> r.cached(c.tip->Some_0) is Some
            &&& index_apart(c.blocks, r.blocks)
            &&& names_path(c.blocks, path) ==> r.blocks == c.blocks
            &&& lasting(r)
        }),
{
    let path = loaded_path(c);
    if let Some(t) = c.tip {
        lemma_path_is_stored(c.blocks, t, c.capacity);
        lemma_path_loads(empty, path, path.len());
    }
    lemma_indexed_apart(c.blocks, path, path.len());
    if names_path(c.blocks, path) {
        lemma_indexed_already(c.blocks, path, path.len());
    }
    lemma_lasting_beside_index(c, recovered(empty)->Some_0);
}

/// Whether a header is that of the block which is stored under its hash, if one is.
pub open spec fn header_agrees(rows: Rows, h: BlockHeaderView) -> bool {
    is_stored(rows, h.hash()) ==> block_at(
        rows,
        h.hash(),
    )->Ok_0->Some_0.header == h
}

/// Whether headers agree with the blocks that are stored.
pub open spec fn headers_agree(rows: Rows, headers: Seq<BlockHeaderView>) -> bool {
    forall|i: int| 0 <= i < headers.len() ==> header_agrees(rows, #[trigger] headers[i])
}

/// Whether headers with their heights agree with the blocks that are stored.
pub open spec fn entries_agree(rows: Rows, list: Seq<(BlockHeaderView, u64)>) -> bool {
    forall|i: int| 0 <= i < list.len() ==> header_agrees(rows, (#[trigger] list[i]).0)
}

/// Whether two row sets hold the same blocks, with the same metadata.
pub open spec fn same_blocks(a: Rows, b: Rows) -> bool {
    &&& forall|k: Seq<u8>| #[trigger]
        value_at(a, ColumnFamily::Blocks, k) == value_at(b, ColumnFamily::Blocks, k)
    &&& forall|k: Seq<u8>| #[trigger]
        value_at(a, ColumnFamily::BlockMeta, k) == value_at(b, ColumnFamily::BlockMeta, k)
}

/// Blocks stay filed, and are the same, when a header is stored that is theirs or of another
/// block.
pub proof fn lemma_filed_with_header(rows: Rows, h: BlockHeaderView)
    requires
        blocks_filed(rows),
        BlockHeader::decodable(h),
        header_agrees(rows, h),
    ensures
        blocks_filed(
            rows.insert(row(ColumnFamily::Headers, h.hash()), BlockHeader::encoding(h)),
        ),
        same_blocks(
            rows,
            rows.insert(row(ColumnFamily::Headers, h.hash()), BlockHeader::encoding(h)),
        ),
        forall|height: u64| #[trigger]
            hash_at_height(
                rows.insert(row(ColumnFamily::Headers, h.hash()), BlockHeader::encoding(h)),
                height,
            ) == hash_at_height(rows, height),
{
    broadcast use lemma_row_injective;

    let after = rows.insert(row(ColumnFamily::Headers, h.hash()), BlockHeader::encoding(h));
    BlockHeader::lemma_round_trip(h, Seq::empty());
    assert(BlockHeader::encoding(h) + Seq::<u8>::empty() =~= BlockHeader::encoding(h));
    assert forall|k: Seq<u8>| #[trigger]
        is_stored(after, k) implies well_filed(after, k) by {
        assert(is_stored(rows, k));
        assert(well_filed(rows, k));
    }
}

proof fn lemma_filed_with_height_key(rows: Rows, height: u64, hash: Seq<u8>)
    requires
        blocks_filed(rows),
    ensures
        blocks_filed(rows.insert(row(ColumnFamily::Headers, header_height_key(height)), hash)),
        same_blocks(
            rows,
            rows.insert(row(ColumnFamily::Headers, header_height_key(height)), hash),
        ),
{
    broadcast use lemma_row_injective;

    let after = rows.insert(row(ColumnFamily::Headers, header_height_key(height)), hash);
    lemma_le_bytes_len(height as nat, 8);
    assert forall|k: Seq<u8>| #[trigger]
        is_stored(after, k) implies well_filed(after, k) by {
        assert(is_stored(rows, k));
        assert(well_filed(rows, k));
        assert(k != header_height_key(height));
    }
}

/// The same of a list of headers with their heights.
pub proof fn lemma_filed_with_headers(rows: Rows, list: Seq<(BlockHeaderView, u64)>, n: nat)
    requires
        blocks_filed(rows),
        storable(list),
        entries_agree(rows, list),
        n <= list.len(),
    ensures
        blocks_filed(with_headers(rows, list, n)),
        same_blocks(rows, with_headers(rows, list, n)),
    decreases n,
{
    if n > 0 {
        let m = (n - 1) as nat;
        lemma_filed_with_headers(rows, list, m);
        let before = with_headers(rows, list, m);
        let (h, height) = list[m as int];
        assert(list[m as int].0 == h);
        assert(value_at(rows, ColumnFamily::Blocks, h.hash()) == value_at(
            before,
            ColumnFamily::Blocks,
            h.hash(),
        ));
        lemma_filed_with_header(before, h);
        let between = before.insert(row(ColumnFamily::Headers, h.hash()), BlockHeader::encoding(h));
        lemma_filed_with_height_key(between, height, h.hash());
        let after = with_headers(rows, list, n);
        assert forall|k: Seq<u8>| #[trigger]
            value_at(rows, ColumnFamily::Blocks, k) == value_at(
                after,
                ColumnFamily::Blocks,
                k,
            ) by {
            assert(value_at(before, ColumnFamily::Blocks, k) == value_at(
                between,
                ColumnFamily::Blocks,
                k,
            ));
            assert(value_at(between, ColumnFamily::Blocks, k) == value_at(
                after,
                ColumnFamily::Blocks,
                k,
            ));
        }
        assert forall|k: Seq<u8>| #[trigger]
            value_at(rows, ColumnFamily::BlockMeta, k) == value_at(
                after,
                ColumnFamily::BlockMeta,
                k,
            ) by {
            assert(value_at(before, ColumnFamily::BlockMeta, k) == value_at(
                between,
                ColumnFamily::BlockMeta,
                k,
            ));
            assert(value_at(between, ColumnFamily::BlockMeta, k) == value_at(
                after,
                ColumnFamily::BlockMeta,
                k,
            ));
        }
    }
}

/// A chain lasts where its blocks and its stored tip do.
pub proof fn lemma_lasting_with_blocks(a: ChainView, b: ChainView)
    requires
        lasting(a),
        blocks_filed(b.blocks),
        same_blocks(a.blocks, b.blocks),
        tip_at(a.state) == tip_at(b.state),
        a.tip == b.tip,
    ensures
        lasting(b),
{
    if let Some(t) = a.tip {
        assert(value_at(a.blocks, ColumnFamily::Blocks, t) == value_at(
            b.blocks,
            ColumnFamily::Blocks,
            t,
        ));
    }
}

} // verus!
