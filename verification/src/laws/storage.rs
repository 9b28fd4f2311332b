//! What is stored, and what is kept at hand.

use crate::consensus::block::{BlockDataView, BlockHeader, BlockHeaderView, BlockView};
use crate::consensus::cache::{cache_after_put, cached, entries_valid, entry_index, CacheEntries};
use crate::consensus::params::Network;
use crate::network::connection::front_message;
use crate::primitives::bytes::{
    byte_range, le_bytes, lemma_le_bytes_len, lemma_le_value_of_bytes,
};
use crate::primitives::serialize::Encode;
use crate::storage::blocks::{with_block, with_header, with_index};
use crate::storage::chain_state::{
    state_value, with_best_header, with_tip, work_value, ChainTipView,
};
use crate::storage::db::{
    delete_op, lemma_row_injective, put_op, replay, value_at, ColumnFamily, RowOpView, Rows,
};
use vstd::prelude::*;

verus! {

/// The change that was made last to a row decides what it holds; rows that no change is of stay.
pub proof fn lemma_last_change_decides(
    rows: Rows,
    ops: Seq<RowOpView>,
    cf: ColumnFamily,
    key: Seq<u8>,
    value: Seq<u8>,
    other: ColumnFamily,
    elsewhere: Seq<u8>,
)
    requires
        other != cf || elsewhere != key,
    ensures
        value_at(replay(rows, ops.push(put_op(cf, key, value))), cf, key) == Some(value),
        value_at(replay(rows, ops.push(delete_op(cf, key))), cf, key) is None,
        value_at(replay(rows, ops.push(put_op(cf, key, value))), other, elsewhere) == value_at(
            replay(rows, ops),
            other,
            elsewhere,
        ),
        value_at(replay(rows, ops.push(delete_op(cf, key))), other, elsewhere) == value_at(
            replay(rows, ops),
            other,
            elsewhere,
        ),
        replay(rows, Seq::empty()) == rows,
{
    broadcast use lemma_row_injective;

    assert(ops.push(put_op(cf, key, value)).drop_last() =~= ops);
    assert(ops.push(delete_op(cf, key)).drop_last() =~= ops);
}

/// A block is stored under its hash, with its header and what else is known of it, and no other row
/// changes.
pub proof fn lemma_block_rows_alone(
    rows: Rows,
    b: BlockView,
    height: u64,
    work: nat,
    cf: ColumnFamily,
    key: Seq<u8>,
)
    ensures
        key != b.hash() || !(cf == ColumnFamily::Blocks || cf == ColumnFamily::Headers || cf
            == ColumnFamily::BlockMeta) ==> value_at(with_block(rows, b, height, work), cf, key)
            == value_at(rows, cf, key),
        value_at(with_block(rows, b, height, work), ColumnFamily::BlockMeta, b.hash()) == Some(
            le_bytes(height as nat, 8) + b.hash() + le_bytes(work, 32),
        ),
        value_at(with_block(rows, b, height, work), ColumnFamily::Headers, b.hash()) == Some(
            <crate::consensus::block::BlockHeader as crate::primitives::serialize::Encode>::encoding(
                b.header,
            ),
        ),
{
    broadcast use lemma_row_injective;

}

/// The index of the active chain names one block for a height, under its eight bytes, and changes at
/// that height alone.
pub proof fn lemma_index_row(
    rows: Rows,
    height: u64,
    hash: Seq<u8>,
    cf: ColumnFamily,
    key: Seq<u8>,
)
    ensures
        value_at(with_index(rows, height, hash), ColumnFamily::BlockIndex, le_bytes(height as nat, 8))
            == Some(hash),
        cf != ColumnFamily::BlockIndex || key != le_bytes(height as nat, 8) ==> value_at(
            with_index(rows, height, hash),
            cf,
            key,
        ) == value_at(rows, cf, key),
{
    broadcast use lemma_row_injective;

}

/// A tip is stored in three rows, the best header in two, and neither touches the other.
pub proof fn lemma_tip_rows(rows: Rows, tip: ChainTipView, hash: Seq<u8>, height: u64)
    ensures
        ({
            let after = with_tip(rows, tip);
            &&& state_value(after, crate::storage::chain_state::KEY_CUMULATIVE_WORK@) == Some(
                le_bytes(tip.cumulative_work, 32),
            )
            &&& state_value(after, crate::storage::chain_state::KEY_TIP_HEIGHT@) == Some(
                le_bytes(tip.height as nat, 8),
            )
            &&& state_value(after, crate::storage::chain_state::KEY_TIP_HASH@) == Some(tip.hash)
            &&& state_value(after, crate::storage::chain_state::KEY_BEST_HEADER_HASH@)
                == state_value(rows, crate::storage::chain_state::KEY_BEST_HEADER_HASH@)
            &&& state_value(after, crate::storage::chain_state::KEY_BEST_HEADER_HEIGHT@)
                == state_value(rows, crate::storage::chain_state::KEY_BEST_HEADER_HEIGHT@)
        }),
        ({
            let after = with_best_header(rows, hash, height);
            &&& state_value(after, crate::storage::chain_state::KEY_BEST_HEADER_HASH@) == Some(hash)
            &&& state_value(after, crate::storage::chain_state::KEY_BEST_HEADER_HEIGHT@) == Some(
                le_bytes(height as nat, 8),
            )
            &&& state_value(after, crate::storage::chain_state::KEY_TIP_HASH@) == state_value(
                rows,
                crate::storage::chain_state::KEY_TIP_HASH@,
            )
            &&& state_value(after, crate::storage::chain_state::KEY_TIP_HEIGHT@) == state_value(
                rows,
                crate::storage::chain_state::KEY_TIP_HEIGHT@,
            )
        }),
{
    broadcast use lemma_row_injective;

    crate::storage::chain_state::lemma_state_keys_differ();
}

/// A recent block is found under its key.
pub proof fn lemma_recent_found(entries: CacheEntries, capacity: nat, i: int)
    requires
        entries_valid(entries, capacity),
        0 <= i < entries.len(),
    ensures
        cached(entries, entries[i].0) == Some(entries[i].1),
{
    let k = entries[i].0;
    let j = choose|j: int| 0 <= j < entries.len() && (#[trigger] entries[j]).0 == k;
    assert(entries[i].0 == k);
    if j < i {
        assert(entries[j].0 != entries[i].0);
    } else if i < j {
        assert(entries[i].0 != entries[j].0);
    }
}

/// A block that is put comes last. Of the others only the one that was put first goes, and only if
/// there is no room and the block is new.
pub proof fn lemma_oldest_goes(
    entries: CacheEntries,
    capacity: nat,
    key: Seq<u8>,
    value: BlockDataView,
    e: (Seq<u8>, BlockDataView),
)
    requires
        entries_valid(entries, capacity),
        capacity > 0,
        e.0 != key,
    ensures
        ({
            let after = cache_after_put(entries, capacity, key, value);
            let new = forall|i: int| 0 <= i < entries.len() ==> (#[trigger] entries[i]).0 != key;
            &&& after.len() > 0 && after.last() == (key, value)
            &&& after.len() <= capacity
            &&& !new || entries.len() < capacity ==> (after.contains(e) <==> entries.contains(e))
            &&& new && entries.len() == capacity ==> (after.contains(e) <==> entries.contains(e) && e
                != entries[0])
        }),
{
    let after = cache_after_put(entries, capacity, key, value);
    match entry_index(entries, key) {
        Some(i) => {
            assert(entries[i].0 == key);
            let left = entries.remove(i);
            if entries.contains(e) {
                let j = choose|j: int| 0 <= j < entries.len() && entries[j] == e;
                if j < i {
                    assert(after[j] == e);
                } else {
                    assert(after[j - 1] == e);
                }
            }
            if after.contains(e) {
                let j = choose|j: int| 0 <= j < after.len() && after[j] == e;
                if j < i {
                    assert(entries[j] == e);
                } else {
                    assert(entries[j + 1] == e);
                }
            }
        },
        None => {
            if entries.len() == capacity {
                if entries.contains(e) && e != entries[0] {
                    let j = choose|j: int| 0 <= j < entries.len() && entries[j] == e;
                    assert(after[j - 1] == e);
                }
                if after.contains(e) {
                    let j = choose|j: int| 0 <= j < after.len() && after[j] == e;
                    assert(entries[j + 1] == e);
                    assert(entries[0].0 != entries[j + 1].0);
                }
            } else {
                if entries.contains(e) {
                    let j = choose|j: int| 0 <= j < entries.len() && entries[j] == e;
                    assert(after[j] == e);
                }
                if after.contains(e) {
                    let j = choose|j: int| 0 <= j < after.len() && after[j] == e;
                    assert(entries[j] == e);
                }
            }
        },
    }
}

/// Nothing is read of a buffer before a whole head, 24 bytes, is there; a payload of more than 32
/// mebibytes is refused once its length is.
pub proof fn lemma_head_first(buffer: Seq<u8>, magic: Seq<u8>)
    ensures
        buffer.len() < 24 ==> front_message(buffer, magic) is Ok && front_message(
            buffer,
            magic,
        )->Ok_0 is None,
        buffer.len() >= 24 && crate::primitives::bytes::le_value(buffer.subrange(16, 20))
            > 33_554_432 ==> front_message(buffer, magic) is Err,
        buffer.len() >= 24 && crate::primitives::bytes::le_value(buffer.subrange(16, 20))
            <= 33_554_432 && buffer.len() < 24 + crate::primitives::bytes::le_value(
            buffer.subrange(16, 20),
        ) ==> front_message(buffer, magic) is Ok && front_message(buffer, magic)->Ok_0 is None,
{
}

/// Networks differ in how often blocks come and how hard they are.
pub proof fn lemma_networks(n: Network)
    ensures
        n.chain_params().valid(),
        n != Network::Regtest ==> n.chain_params().target_block_time == 150
            && n.chain_params().difficulty_adjustment
            && !n.chain_params().allow_min_difficulty_blocks,
        n == Network::Regtest ==> !n.chain_params().difficulty_adjustment
            && n.chain_params().allow_min_difficulty_blocks,
        n.prefix_byte() == 0 <==> n == Network::Mainnet,
        n.prefix_byte() == 111 <==> n != Network::Mainnet,
{
}

/// Work is read back from the 32 bytes that it was written in, whatever follows them.
pub proof fn lemma_work_read_back(work: nat, rest: Seq<u8>)
    requires
        work < byte_range(32),
    ensures
        work_value(le_bytes(work, 32) + rest) == work,
{
    lemma_le_bytes_len(work, 32);
    lemma_le_value_of_bytes(work, 32);
    assert((le_bytes(work, 32) + rest).take(32) =~= le_bytes(work, 32));
}

/// A header is found under its hash and its hash under the letters `hh:` and its height; nothing else
/// changes.
pub proof fn lemma_header_rows(
    rows: Rows,
    h: BlockHeaderView,
    height: u64,
    cf: ColumnFamily,
    key: Seq<u8>,
)
    ensures
        value_at(
            with_header(rows, h, height),
            ColumnFamily::Headers,
            seq![104u8, 104u8, 58u8] + le_bytes(height as nat, 8),
        ) == Some(h.hash()),
        h.hash().len() == 32 ==> value_at(with_header(rows, h, height), ColumnFamily::Headers, h.hash())
            == Some(BlockHeader::encoding(h)),
        cf != ColumnFamily::Headers || key != h.hash() && key != seq![104u8, 104u8, 58u8]
            + le_bytes(height as nat, 8) ==> value_at(with_header(rows, h, height), cf, key)
            == value_at(rows, cf, key),
{
    broadcast use lemma_row_injective;

    lemma_le_bytes_len(height as nat, 8);
}

} // verus!
