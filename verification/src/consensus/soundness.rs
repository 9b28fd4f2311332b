//! What holds of a chain as long as every block that it was given was added.

use crate::consensus::block::{BlockDataView, BlockView};
use crate::consensus::cache::{
    cache_after_put, cached, entries_valid, entry_index, lemma_put_is_found, CacheEntries,
};
use crate::consensus::chain_model::{
    accept, add_block, becomes_tip, connect, content_error, descend, disconnect, extend_tip,
    fork_paths, lemma_disconnect_keeps, load_blocks, max_steps, meet, place, recent_hashes,
    reconnect, recovered, reorganize, with_parent_cached, ChainView,
};
use crate::consensus::merkle::zero_hash;
use crate::consensus::restart::{
    behind_stored, blocks_filed, followed, index_apart, is_stored, lasting, lemma_block_rows,
    lemma_filed_with_block, lemma_index_alone, lemma_path_is_stored, lemma_reconnect_beside_index,
    lemma_reorganize_beside_index, lemma_restart_finds_the_chain, loaded_path, names_path,
    same_blocks, well_filed,
};
use crate::storage::blocks::{
    block_at, block_stored, hash_at_height, lemma_index_leaves_the_rest, meta_at, with_block,
    with_index, Lookup,
};
use crate::storage::db::{lemma_row_injective, value_at, ColumnFamily, Rows};
use vstd::prelude::*;

verus! {

/// The hash of the predecessor of a stored block.
pub open spec fn prev_of(rows: Rows, hash: Seq<u8>) -> Seq<u8> {
    block_at(rows, hash)->Ok_0->Some_0.header.prev_block_hash
}

/// The height of a stored block.
pub open spec fn height_at(rows: Rows, hash: Seq<u8>) -> u64 {
    meta_at(rows, hash)->Ok_0->Some_0.height
}

/// Whether a stored block is one above its predecessor, or at zero where it has none.
pub open spec fn in_rank(rows: Rows, hash: Seq<u8>) -> bool {
    if prev_of(rows, hash) == zero_hash() {
        height_at(rows, hash) == 0
    } else {
        height_at(rows, hash) == height_at(rows, prev_of(rows, hash)) + 1
    }
}

/// Whether the stored blocks form trees: each is readable, behind its predecessor, and one
/// above it.
pub open spec fn ranked(rows: Rows) -> bool {
    &&& blocks_filed(rows)
    &&& forall|hash: Seq<u8>| #[trigger]
        is_stored(rows, hash) ==> in_rank(rows, hash)
}

/// The block that is `k` blocks before a stored block.
pub open spec fn back(rows: Rows, hash: Seq<u8>, k: nat) -> Seq<u8>
    decreases k,
{
    if k == 0 {
        hash
    } else {
        prev_of(rows, back(rows, hash, (k - 1) as nat))
    }
}

/// Whether the index of the active chain names a block and all before it.
pub open spec fn names_chain(rows: Rows, tip: Seq<u8>) -> bool {
    forall|k: nat|
        k <= height_at(rows, tip) ==> hash_at_height(rows, (height_at(rows, tip) - k) as u64)
            == Lookup::<Seq<u8>>::Ok(Some(#[trigger] back(rows, tip, k)))
}

/// Whether a recent block is stored as it is.
pub open spec fn held(rows: Rows, hash: Seq<u8>, d: BlockDataView) -> bool {
    &&& is_stored(rows, hash)
    &&& d.block == block_at(rows, hash)->Ok_0->Some_0
    &&& d.height == height_at(rows, hash)
}

/// Whether the recent blocks are stored as they are.
pub open spec fn mirrored(c: ChainView) -> bool {
    forall|hash: Seq<u8>| #[trigger]
        c.cached(hash) is Some ==> held(c.blocks, hash, c.cached(hash)->Some_0)
}

/// Whether a chain is sound: it lasts, its blocks form trees, the recent ones are stored as they
/// are, and the index names the blocks up to the tip. Without a tip there are no blocks.
pub open spec fn sound(c: ChainView) -> bool {
    &&& lasting(c)
    &&& ranked(c.blocks)
    &&& c.capacity > 0
    &&& entries_valid(c.cache, c.capacity)
    &&& mirrored(c)
    &&& match c.tip {
        Some(t) => names_chain(c.blocks, t),
        None => forall|hash: Seq<u8>| #[trigger]
            value_at(c.blocks, ColumnFamily::Blocks, hash) is None,
    }
}

/// The way back from a stored block leads over stored blocks, each one lower, to one without
/// predecessor.
pub proof fn lemma_back(rows: Rows, hash: Seq<u8>, k: nat)
    requires
        ranked(rows),
        is_stored(rows, hash),
        k <= height_at(rows, hash),
    ensures
        is_stored(rows, back(rows, hash, k)),
        height_at(rows, back(rows, hash, k)) == height_at(rows, hash) - k,
        (prev_of(rows, back(rows, hash, k)) == zero_hash()) == (k == height_at(rows, hash)),
    decreases k,
{
    if k > 0 {
        let m = (k - 1) as nat;
        lemma_back(rows, hash, m);
        let x = back(rows, hash, m);
        assert(is_stored(rows, x));
        assert(well_filed(rows, x) && in_rank(rows, x));
    }
    let y = back(rows, hash, k);
    assert(is_stored(rows, y));
    assert(well_filed(rows, y) && in_rank(rows, y));
    if prev_of(rows, y) != zero_hash() {
        assert(is_stored(rows, prev_of(rows, y)));
    }
}

proof fn lemma_back_adds(rows: Rows, hash: Seq<u8>, j: nat, k: nat)
    ensures
        back(rows, back(rows, hash, j), k) == back(rows, hash, j + k),
    decreases k,
{
    if k > 0 {
        lemma_back_adds(rows, hash, j, (k - 1) as nat);
    }
}

/// Whether a row set holds the blocks of another, as they are there.
pub open spec fn keeps_blocks(a: Rows, b: Rows) -> bool {
    forall|hash: Seq<u8>| #[trigger]
        is_stored(a, hash) ==> value_at(
            b,
            ColumnFamily::Blocks,
            hash,
        ) == value_at(a, ColumnFamily::Blocks, hash) && meta_at(b, hash) == meta_at(a, hash)
}

proof fn lemma_back_kept(a: Rows, b: Rows, hash: Seq<u8>, k: nat)
    requires
        ranked(a),
        is_stored(a, hash),
        keeps_blocks(a, b),
        k <= height_at(a, hash),
    ensures
        back(b, hash, k) == back(a, hash, k),
    decreases k,
{
    if k > 0 {
        let m = (k - 1) as nat;
        lemma_back_kept(a, b, hash, m);
        lemma_back(a, hash, m);
        assert(is_stored(a, back(a, hash, m)));
    }
}

/// The loaded blocks are the tip and those before it.
proof fn lemma_recent_is_back(rows: Rows, hash: Seq<u8>, n: nat)
    requires
        ranked(rows),
        is_stored(rows, hash),
        n > 0,
    ensures
        ({
            let path = recent_hashes(rows, hash, n)->Some_0;
            &&& recent_hashes(rows, hash, n) is Some
            &&& path.len() <= height_at(rows, hash) + 1
            &&& forall|i: int|
                0 <= i < path.len() ==> #[trigger] path[i] == back(rows, hash, i as nat)
        }),
    decreases n,
{
    lemma_path_is_stored(rows, hash, n);
    let path = recent_hashes(rows, hash, n)->Some_0;
    lemma_back(rows, hash, 0);
    if n > 1 {
        assert(is_stored(rows, hash));
        assert(well_filed(rows, hash));
        let prev = prev_of(rows, hash);
        if prev != zero_hash() {
            let m = (n - 1) as nat;
            lemma_recent_is_back(rows, prev, m);
            let rest = recent_hashes(rows, prev, m)->Some_0;
            assert(path =~= seq![hash] + rest);
            assert(in_rank(rows, hash));
            assert forall|i: int| 0 <= i < path.len() implies #[trigger] path[i] == back(
                rows,
                hash,
                i as nat,
            ) by {
                if i > 0 {
                    assert(path[i] == rest[i - 1]);
                    assert(back(rows, hash, 1) == prev) by {
                        assert(back(rows, hash, 0) == hash);
                    }
                    lemma_back_adds(rows, hash, 1, (i - 1) as nat);
                }
            }
        }
    }
}

/// An index that names the chain of a tip names the blocks that a restart loads.
pub proof fn lemma_chain_names_path(c: ChainView)
    requires
        sound(c),
    ensures
        names_path(c.blocks, loaded_path(c)),
{
    if let Some(t) = c.tip {
        lemma_recent_is_back(c.blocks, t, c.capacity);
        let path = loaded_path(c);
        assert forall|i: int| 0 <= i < path.len() implies match meta_at(
            c.blocks,
            #[trigger] path[i],
        ) {
            Ok(Some(m)) => hash_at_height(c.blocks, m.height) == Lookup::<Seq<u8>>::Ok(
                Some(path[i]),
            ),
            _ => true,
        } by {
            assert(path[i] == back(c.blocks, t, i as nat));
            lemma_back(c.blocks, t, i as nat);
        }
    }
}

/// Whether a chain tells of the blocks of a row set what is stored of them there.
pub open spec fn agrees(c: ChainView, g: Rows) -> bool {
    forall|x: Seq<u8>| #[trigger]
        is_stored(g, x) ==> c.parent_of(x) == Some(prev_of(g, x))
            && c.height_of(x) == height_at(g, x)
}

/// The first `m` blocks of the way back from a block.
pub open spec fn way(rows: Rows, hash: Seq<u8>, m: nat) -> Seq<Seq<u8>> {
    Seq::new(m, |k: int| back(rows, hash, k as nat))
}

proof fn lemma_way_starts(rows: Rows, hash: Seq<u8>, path: Seq<Seq<u8>>, m: nat)
    ensures
        path.push(hash) + way(rows, prev_of(rows, hash), m) == path + way(rows, hash, m + 1),
        back(rows, prev_of(rows, hash), m) == back(rows, hash, m + 1),
{
    let prev = prev_of(rows, hash);
    assert(back(rows, hash, 1) == prev) by {
        assert(back(rows, hash, 0) == hash);
    }
    lemma_back_adds(rows, hash, 1, m);
    let a = path.push(hash) + way(rows, prev, m);
    let b = path + way(rows, hash, m + 1);
    assert forall|i: int| 0 <= i < a.len() implies a[i] == b[i] by {
        if i > path.len() {
            let k = (i - path.len() - 1) as nat;
            lemma_back_adds(rows, hash, 1, k);
            assert(a[i] == back(rows, prev, k));
            assert(b[i] == back(rows, hash, k + 1));
        } else if i == path.len() {
            assert(b[i] == back(rows, hash, 0));
        }
    }
    assert(a =~= b);
}

proof fn lemma_descend(
    c: ChainView,
    g: Rows,
    hash: Seq<u8>,
    floor: u64,
    path: Seq<Seq<u8>>,
    fuel: nat,
) -> (m: nat)
    requires
        ranked(g),
        agrees(c, g),
        is_stored(g, hash),
        descend(c, hash, floor, path, fuel) is Some,
    ensures
        m == if height_at(g, hash) > floor {
            height_at(g, hash) - floor
        } else {
            0
        },
        descend(c, hash, floor, path, fuel)->Some_0.0 == path + way(g, hash, m),
        descend(c, hash, floor, path, fuel)->Some_0.1 == back(g, hash, m),
    decreases fuel,
{
    assert(is_stored(g, hash));
    if height_at(g, hash) <= floor {
        assert(path + way(g, hash, 0) =~= path);
        0
    } else {
        assert(well_filed(g, hash) && in_rank(g, hash));
        let prev = prev_of(g, hash);
        let n = lemma_descend(c, g, prev, floor, path.push(hash), (fuel - 1) as nat);
        lemma_way_starts(g, hash, path, n);
        n + 1
    }
}

proof fn lemma_meet(
    c: ChainView,
    g: Rows,
    a: Seq<u8>,
    b: Seq<u8>,
    a_path: Seq<Seq<u8>>,
    b_path: Seq<Seq<u8>>,
    fuel: nat,
) -> (m: nat)
    requires
        ranked(g),
        agrees(c, g),
        is_stored(g, a),
        is_stored(g, b),
        height_at(g, a) == height_at(g, b),
        meet(c, a, b, a_path, b_path, fuel) is Some,
    ensures
        m <= height_at(g, a) + 1,
        meet(c, a, b, a_path, b_path, fuel)->Some_0.0 == a_path + way(g, a, m),
        meet(c, a, b, a_path, b_path, fuel)->Some_0.1 == b_path + way(g, b, m),
        back(g, a, m) == back(g, b, m),
    decreases fuel,
{
    assert(is_stored(g, a));
    assert(is_stored(g, b));
    if a == b {
        assert(a_path + way(g, a, 0) =~= a_path);
        assert(b_path + way(g, b, 0) =~= b_path);
        0
    } else {
        assert(well_filed(g, a) && in_rank(g, a));
        assert(well_filed(g, b) && in_rank(g, b));
        let p = prev_of(g, a);
        let q = prev_of(g, b);
        let f = (fuel - 1) as nat;
        if height_at(g, a) == 0 {
            assert(p == zero_hash() && q == zero_hash());
            assert(meet(c, p, q, a_path.push(a), b_path.push(b), f) == Some(
                (a_path.push(a), b_path.push(b)),
            ));
            lemma_way_starts(g, a, a_path, 0);
            lemma_way_starts(g, b, b_path, 0);
            assert(a_path.push(a) + way(g, p, 0) =~= a_path.push(a));
            assert(b_path.push(b) + way(g, q, 0) =~= b_path.push(b));
            1
        } else {
            let n = lemma_meet(c, g, p, q, a_path.push(a), b_path.push(b), f);
            lemma_way_starts(g, a, a_path, n);
            lemma_way_starts(g, b, b_path, n);
            n + 1
        }
    }
}

/// The blocks that a change of tip disconnects and connects are those of the ways back from
/// the two tips, up to where these meet.
proof fn lemma_fork(c: ChainView, g: Rows, a: Seq<u8>, b: Seq<u8>) -> (r: (nat, nat))
    requires
        ranked(g),
        agrees(c, g),
        is_stored(g, a),
        is_stored(g, b),
        fork_paths(c, a, b) is Some,
    ensures
        fork_paths(c, a, b)->Some_0 == (way(g, a, r.0), way(g, b, r.1)),
        back(g, a, r.0) == back(g, b, r.1),
        r.1 <= height_at(g, b) + 1,
        height_at(g, a) - r.0 == height_at(g, b) - r.1,
{
    let none = Seq::<Seq<u8>>::empty();
    assert(is_stored(g, a));
    assert(is_stored(g, b));
    let j = lemma_descend(c, g, a, c.height_of(b), none, max_steps());
    let k = lemma_descend(c, g, b, c.height_of(a), none, max_steps());
    lemma_back(g, a, j);
    lemma_back(g, b, k);
    let x = back(g, a, j);
    let y = back(g, b, k);
    assert(none + way(g, a, j) =~= way(g, a, j));
    assert(none + way(g, b, k) =~= way(g, b, k));
    let m = lemma_meet(c, g, x, y, way(g, a, j), way(g, b, k), max_steps());
    lemma_way_joins(g, a, j, m);
    lemma_way_joins(g, b, k, m);
    (j + m, k + m)
}

proof fn lemma_way_joins(g: Rows, hash: Seq<u8>, j: nat, m: nat)
    ensures
        way(g, hash, j) + way(g, back(g, hash, j), m) == way(g, hash, j + m),
        back(g, back(g, hash, j), m) == back(g, hash, j + m),
{
    let a = way(g, hash, j) + way(g, back(g, hash, j), m);
    let b = way(g, hash, j + m);
    lemma_back_adds(g, hash, j, m);
    assert forall|i: int| 0 <= i < a.len() implies a[i] == b[i] by {
        if i >= j {
            lemma_back_adds(g, hash, j, (i - j) as nat);
        }
    }
    assert(a =~= b);
}

proof fn lemma_reconnect_names(c: ChainView, path: Seq<Seq<u8>>, n: nat)
    requires
        n <= path.len(),
        reconnect(c, path, n).result is Ok,
        forall|i: int| 0 <= i < path.len() ==> (#[trigger] path[i]).len() == 32,
        forall|i: int, j: int|
            0 <= i < j < path.len() ==> c.height_of(#[trigger] path[i]) != c.height_of(
                #[trigger] path[j],
            ),
    ensures
        ({
            let after = reconnect(c, path, n).chain.blocks;
            &&& forall|i: int|
                path.len() - n <= i < path.len() ==> hash_at_height(
                    after,
                    c.height_of(#[trigger] path[i]),
                ) == Lookup::<Seq<u8>>::Ok(Some(path[i]))
            &&& forall|h: u64|
                (forall|i: int|
                    path.len() - n <= i < path.len() ==> c.height_of(#[trigger] path[i]) != h)
                    ==> #[trigger] hash_at_height(after, h) == hash_at_height(c.blocks, h)
        }),
    decreases n,
{
    if n > 0 {
        let m = (n - 1) as nat;
        let before = reconnect(c, path, m);
        let x = path[path.len() - n];
        lemma_reconnect_names(c, path, m);
        lemma_reconnect_beside_index(c, path, m);
        assert(value_at(c.blocks, ColumnFamily::BlockMeta, x) == value_at(
            before.chain.blocks,
            ColumnFamily::BlockMeta,
            x,
        ));
        let height = c.height_of(x);
        let after = reconnect(c, path, n).chain.blocks;
        assert(after == with_index(before.chain.blocks, height, x));
        assert forall|h: u64| h != height implies #[trigger] hash_at_height(after, h)
            == hash_at_height(before.chain.blocks, h) by {
            lemma_index_leaves_the_rest(
                before.chain.blocks,
                height,
                x,
                h,
            );
        }
        assert forall|i: int| path.len() - n <= i < path.len() implies hash_at_height(
            after,
            c.height_of(#[trigger] path[i]),
        ) == Lookup::<Seq<u8>>::Ok(Some(path[i])) by {
            if i > path.len() - n {
                assert(c.height_of(path[path.len() - n]) != c.height_of(path[i]));
            }
        }
        assert forall|h: u64|
            (forall|i: int|
                path.len() - n <= i < path.len() ==> c.height_of(#[trigger] path[i]) != h)
            implies #[trigger] hash_at_height(after, h) == hash_at_height(c.blocks, h) by {
            assert(c.height_of(path[path.len() - n]) != h);
            assert(hash_at_height(before.chain.blocks, h) == hash_at_height(c.blocks, h));
        }
    }
}

/// Putting a value into a cache leaves of the other keys what it does not drive out.
proof fn lemma_put_leaves_others(
    entries: CacheEntries,
    capacity: nat,
    key: Seq<u8>,
    value: BlockDataView,
    other: Seq<u8>,
)
    requires
        entries_valid(entries, capacity),
        capacity > 0,
        other != key,
        cached(cache_after_put(entries, capacity, key, value), other) is Some,
    ensures
        cached(cache_after_put(entries, capacity, key, value), other) == cached(entries, other),
{
    let after = cache_after_put(entries, capacity, key, value);
    let p = entry_index(after, other)->Some_0;
    assert(after[p].0 == other);
    assert(after[after.len() - 1] == (key, value));
    assert(0 <= p < after.len() - 1);
    let f = match entry_index(entries, key) {
        Some(i) => if p < i {
            p
        } else {
            p + 1
        },
        None => if entries.len() == capacity {
            p + 1
        } else {
            p
        },
    };
    assert(after[p] == entries[f]);
    let q = entry_index(entries, other)->Some_0;
    assert(entries[f].0 == other);
    assert(entries[q].0 == other);
    if q < f {
        assert(entries[q].0 != entries[f].0);
    } else if f < q {
        assert(entries[f].0 != entries[q].0);
    }
}

/// A chain stays mirrored when a block that is stored becomes a recent one.
proof fn lemma_mirrored_with(c: ChainView, hash: Seq<u8>, d: BlockDataView)
    requires
        c.capacity > 0,
        entries_valid(c.cache, c.capacity),
        mirrored(c),
        held(c.blocks, hash, d),
    ensures
        mirrored(c.with_cached(hash, d)),
        entries_valid(c.with_cached(hash, d).cache, c.capacity),
{
    lemma_put_is_found(c.cache, c.capacity, hash, d);
    let after = c.with_cached(hash, d);
    assert forall|x: Seq<u8>| #[trigger] after.cached(x) is Some implies held(
        after.blocks,
        x,
        after.cached(x)->Some_0,
    ) by {
        if x != hash {
            lemma_put_leaves_others(c.cache, c.capacity, hash, d, x);
            assert(c.cached(x) is Some);
        }
    }
}

/// Finding the place of a block keeps a chain sound, and puts the block behind a stored one,
/// one above it.
pub proof fn lemma_place_is_sound(c: ChainView, b: BlockView, now: u64)
    requires
        sound(c),
    ensures
        ({
            let p = place(c, b.header, now);
            let prev = b.header.prev_block_hash;
            &&& sound(p.chain)
            &&& p.chain == (ChainView { cache: p.chain.cache, ..c })
            &&& p.result is Ok ==> {
                &&& followed(c.blocks, b)
                &&& p.result->Ok_0.0 == if prev == zero_hash() {
                    0
                } else {
                    height_at(c.blocks, prev) + 1
                }
            }
        }),
{
    let prev = b.header.prev_block_hash;
    if prev != zero_hash() && c.cached(prev) is None {
        if let Ok(Some(x)) = block_at(c.blocks, prev) {
            assert(is_stored(c.blocks, prev));
            assert(well_filed(c.blocks, prev));
            if let Ok(Some(m)) = meta_at(c.blocks, x.hash()) {
                let d = BlockDataView {
                    block: x,
                    height: m.height,
                    cumulative_work: m.cumulative_work,
                };
                lemma_mirrored_with(c, prev, d);
                assert(with_parent_cached(c, prev)->Ok_0 == c.with_cached(prev, d));
            }
        }
    }
    let p = place(c, b.header, now);
    if p.result is Ok && prev != zero_hash() {
        assert(p.chain.cached(prev) is Some);
        assert(held(p.chain.blocks, prev, p.chain.cached(prev)->Some_0));
    }
}

proof fn lemma_with_block_ranks(rows: Rows, after: Rows, b: BlockView, height: u64, work: nat)
    requires
        ranked(rows),
        !is_stored(rows, b.hash()),
        followed(rows, b),
        b.hash().len() == 32,
        block_stored(after, b, height, work),
        index_apart(with_block(rows, b, height, work), after),
        height == if b.header.prev_block_hash == zero_hash() {
            0
        } else {
            height_at(rows, b.header.prev_block_hash) + 1
        },
    ensures
        ranked(after),
        keeps_blocks(rows, after),
        is_stored(after, b.hash()),
        height_at(after, b.hash()) == height,
        prev_of(after, b.hash()) == b.header.prev_block_hash,
        forall|x: Seq<u8>| #[trigger]
            is_stored(after, x) ==> x == b.hash() || is_stored(rows, x),
{
    lemma_filed_with_block(rows, after, b, height, work);
    lemma_block_rows(rows, after, b, height, work);
    assert forall|x: Seq<u8>| #[trigger]
        is_stored(rows, x) implies value_at(
        after,
        ColumnFamily::Blocks,
        x,
    ) == value_at(rows, ColumnFamily::Blocks, x) && meta_at(after, x) == meta_at(rows, x) by {
        assert(value_at(after, ColumnFamily::Blocks, x) == value_at(
            rows,
            ColumnFamily::Blocks,
            x,
        ));
        assert(value_at(after, ColumnFamily::BlockMeta, x) == value_at(
            rows,
            ColumnFamily::BlockMeta,
            x,
        ));
    }
    assert forall|x: Seq<u8>| #[trigger]
        is_stored(after, x) implies in_rank(after, x) && (x
        == b.hash() || is_stored(rows, x)) by {
        if x != b.hash() {
            assert(value_at(after, ColumnFamily::Blocks, x) == value_at(
                rows,
                ColumnFamily::Blocks,
                x,
            ));
            assert(is_stored(rows, x));
            assert(well_filed(rows, x) && in_rank(rows, x));
        }
        let prev = prev_of(after, x);
        if prev != zero_hash() {
            assert(is_stored(rows, prev));
        }
    }
}

/// A sound chain among whose recent blocks is one more agrees with the rows in which that is
/// stored too.
proof fn lemma_agrees_with(c: ChainView, g: Rows, b: BlockView, height: u64, work: nat)
    requires
        sound(c),
        ranked(g),
        keeps_blocks(c.blocks, g),
        prev_of(g, b.hash()) == b.header.prev_block_hash,
        height_at(g, b.hash()) == height,
        forall|x: Seq<u8>| #[trigger]
            is_stored(g, x) ==> x == b.hash() || is_stored(c.blocks, x),
    ensures
        agrees(
            c.with_cached(b.hash(), BlockDataView { block: b, height, cumulative_work: work }),
            g,
        ),
{
    let d = BlockDataView { block: b, height, cumulative_work: work };
    let after = c.with_cached(b.hash(), d);
    lemma_put_is_found(c.cache, c.capacity, b.hash(), d);
    assert forall|x: Seq<u8>| #[trigger]
        is_stored(g, x) implies after.parent_of(x) == Some(
        prev_of(g, x),
    ) && after.height_of(x) == height_at(g, x) by {
        if x == b.hash() {
            assert(after.cached(x) == Some(d));
        } else {
            assert(is_stored(c.blocks, x));
            assert(well_filed(c.blocks, x));
            if after.cached(x) is Some {
                lemma_put_leaves_others(c.cache, c.capacity, b.hash(), d, x);
                assert(c.cached(x) is Some);
                assert(held(c.blocks, x, c.cached(x)->Some_0));
            }
        }
    }
}

/// Storing a block changes nothing of the index of the active chain.
proof fn lemma_block_leaves_index(rows: Rows, b: BlockView, height: u64, work: nat, h: u64)
    ensures
        hash_at_height(with_block(rows, b, height, work), h) == hash_at_height(rows, h),
{
    broadcast use lemma_row_injective;

}

proof fn lemma_with_block_apart(a: Rows, b: Rows, block: BlockView, height: u64, work: nat)
    requires
        index_apart(a, b),
    ensures
        index_apart(with_block(a, block, height, work), with_block(b, block, height, work)),
{
    broadcast use lemma_row_injective;

    let x = with_block(a, block, height, work);
    let y = with_block(b, block, height, work);
    assert forall|cf: ColumnFamily, k: Seq<u8>|
        cf != ColumnFamily::BlockIndex implies #[trigger] value_at(x, cf, k) == value_at(
        y,
        cf,
        k,
    ) by {
        assert(value_at(a, cf, k) == value_at(b, cf, k));
    }
}

proof fn lemma_names_kept(a: Rows, b: Rows, tip: Seq<u8>)
    requires
        ranked(a),
        is_stored(a, tip),
        keeps_blocks(a, b),
        names_chain(a, tip),
        forall|h: u64|
            h <= height_at(a, tip) ==> #[trigger] hash_at_height(b, h) == hash_at_height(a, h),
    ensures
        names_chain(b, tip),
{
    assert(is_stored(a, tip));
    assert forall|k: nat| k <= height_at(b, tip) implies hash_at_height(
        b,
        (height_at(b, tip) - k) as u64,
    ) == Lookup::<Seq<u8>>::Ok(Some(#[trigger] back(b, tip, k))) by {
        lemma_back_kept(a, b, tip, k);
        assert(hash_at_height(a, (height_at(a, tip) - k) as u64) == Lookup::<Seq<u8>>::Ok(
            Some(back(a, tip, k)),
        ));
    }
}

/// The index names the chain of a block that follows the tip, once it names that block.
proof fn lemma_extended_names(a: Rows, f: Rows, tip: Seq<u8>, hash: Seq<u8>)
    requires
        ranked(a),
        ranked(f),
        is_stored(a, tip),
        is_stored(f, hash),
        keeps_blocks(a, f),
        names_chain(a, tip),
        prev_of(f, hash) == tip,
        height_at(f, hash) == height_at(a, tip) + 1,
        hash_at_height(f, height_at(f, hash)) == Lookup::<Seq<u8>>::Ok(Some(hash)),
        forall|h: u64|
            h < height_at(f, hash) ==> #[trigger] hash_at_height(f, h) == hash_at_height(a, h),
    ensures
        names_chain(f, hash),
{
    let top = height_at(f, hash);
    assert forall|k: nat| k <= top implies hash_at_height(f, (top - k) as u64) == Lookup::<
        Seq<u8>,
    >::Ok(Some(#[trigger] back(f, hash, k))) by {
        if k > 0 {
            let m = (k - 1) as nat;
            assert(back(f, hash, 1) == tip) by {
                assert(back(f, hash, 0) == hash);
            }
            lemma_back_adds(f, hash, 1, m);
            lemma_back_kept(a, f, tip, m);
            assert(hash_at_height(a, (height_at(a, tip) - m) as u64) == Lookup::<Seq<u8>>::Ok(
                Some(back(a, tip, m)),
            ));
        }
    }
}

/// The index names one block of the chain of a new tip, given that it names it already, or that
/// it names there what it named before and the block is of the old chain too.
proof fn lemma_name_at(
    a: Rows,
    f: Rows,
    moved: Rows,
    tip: Seq<u8>,
    b: BlockView,
    height: u64,
    work: nat,
    j: nat,
    m: nat,
    k: nat,
)
    requires
        ranked(a),
        is_stored(a, tip),
        keeps_blocks(a, f),
        names_chain(a, tip),
        b.hash().len() == 32,
        f == with_index(with_block(moved, b, height, work), height, b.hash()),
        back(f, tip, j) == back(f, b.hash(), m),
        height_at(a, tip) - j == height - m,
        k <= height,
        k < m ==> hash_at_height(moved, (height - k) as u64) == Lookup::<Seq<u8>>::Ok(
            Some(back(f, b.hash(), k)),
        ),
        k >= m ==> hash_at_height(moved, (height - k) as u64) == hash_at_height(
            a,
            (height - k) as u64,
        ),
    ensures
        hash_at_height(f, (height - k) as u64) == Lookup::<Seq<u8>>::Ok(
            Some(back(f, b.hash(), k)),
        ),
{
    let hash = b.hash();
    let at = (height - k) as u64;
    if k > 0 {
        lemma_index_leaves_the_rest(
            with_block(moved, b, height, work),
            height,
            hash,
            at,
        );
        lemma_block_leaves_index(moved, b, height, work, at);
        if k >= m {
            let r = (k - m) as nat;
            lemma_back_adds(f, hash, m, r);
            lemma_back_adds(f, tip, j, r);
            lemma_back_kept(a, f, tip, j + r);
            assert(hash_at_height(a, (height_at(a, tip) - (j + r)) as u64) == Lookup::<
                Seq<u8>,
            >::Ok(Some(back(a, tip, j + r))));
        }
    }
}

/// After a reorganisation the index names the chain of the new tip.
proof fn lemma_reorganized_names(
    c: ChainView,
    f: Rows,
    tip: Seq<u8>,
    b: BlockView,
    height: u64,
    work: nat,
)
    requires
        ranked(c.blocks),
        ranked(f),
        agrees(c, f),
        keeps_blocks(c.blocks, f),
        is_stored(c.blocks, tip),
        names_chain(c.blocks, tip),
        is_stored(f, b.hash()),
        height_at(f, b.hash()) == height,
        reorganize(c, tip, b.hash()).result is Ok,
        f == with_index(
            with_block(reorganize(c, tip, b.hash()).chain.blocks, b, height, work),
            height,
            b.hash(),
        ),
    ensures
        names_chain(f, b.hash()),
{
    let hash = b.hash();
    assert(is_stored(c.blocks, tip));
    assert(is_stored(f, hash));
    assert(well_filed(f, hash));
    let (j, m) = lemma_fork(c, f, tip, hash);
    let old_path = way(f, tip, j);
    let path = way(f, hash, m);
    lemma_disconnect_keeps(c, old_path, old_path.len());
    let cut = disconnect(c, old_path, old_path.len()).chain;
    let moved = reconnect(cut, path, path.len()).chain.blocks;
    assert(cut.blocks == c.blocks && cut.cache == c.cache);
    assert forall|i: int| 0 <= i < path.len() implies (#[trigger] path[i]).len() == 32
        && cut.height_of(path[i]) == height - i by {
        lemma_back(f, hash, i as nat);
        assert(is_stored(f, path[i]));
        assert(well_filed(f, path[i]));
        assert(c.height_of(path[i]) == height_at(f, path[i]));
    }
    lemma_reconnect_names(cut, path, path.len());
    assert forall|k: nat| k <= height implies hash_at_height(f, (height - k) as u64) == Lookup::<
        Seq<u8>,
    >::Ok(Some(#[trigger] back(f, hash, k))) by {
        let at = (height - k) as u64;
        if k < m {
            assert(path[k as int] == back(f, hash, k));
        } else {
            assert forall|i: int| 0 <= i < path.len() implies cut.height_of(#[trigger] path[i])
                != at by {}
            assert(hash_at_height(moved, at) == hash_at_height(c.blocks, at));
        }
        lemma_name_at(c.blocks, f, moved, tip, b, height, work, j, m, k);
    }
}

proof fn lemma_mirrored_after(c: ChainView, f: ChainView, b: BlockView, height: u64, work: nat)
    requires
        sound(c),
        keeps_blocks(c.blocks, f.blocks),
        is_stored(f.blocks, b.hash()),
        block_at(f.blocks, b.hash()) == Lookup::<BlockView>::Ok(Some(b)),
        height_at(f.blocks, b.hash()) == height,
        f.cache == c.with_cached(
            b.hash(),
            BlockDataView { block: b, height, cumulative_work: work },
        ).cache,
        f.capacity == c.capacity,
    ensures
        mirrored(f),
        entries_valid(f.cache, f.capacity),
{
    let d = BlockDataView { block: b, height, cumulative_work: work };
    lemma_put_is_found(c.cache, c.capacity, b.hash(), d);
    assert forall|x: Seq<u8>| #[trigger] f.cached(x) is Some implies held(
        f.blocks,
        x,
        f.cached(x)->Some_0,
    ) by {
        if x != b.hash() {
            lemma_put_leaves_others(c.cache, c.capacity, b.hash(), d, x);
            assert(c.cached(x) is Some);
            assert(held(c.blocks, x, c.cached(x)->Some_0));
        }
    }
}

/// The rows of blocks of a chain that a block became the tip of: what it does not hold of the
/// block and of the index is as it was.
proof fn lemma_extended_rows(c: ChainView, b: BlockView, height: u64, work: nat)
    requires
        extend_tip(c, b, height, work).result is Ok,
    ensures
        ({
            let f = extend_tip(c, b, height, work).chain;
            &&& index_apart(with_block(c.blocks, b, height, work), f.blocks)
            &&& f.cache == c.cache
            &&& f.capacity == c.capacity
            &&& f.tip == Some(b.hash())
        }),
{
    let f = extend_tip(c, b, height, work).chain;
    let reorganized = c.tip is Some && c.tip->Some_0 != b.header.prev_block_hash;
    let moved = if reorganized {
        lemma_reorganize_beside_index(c, c.tip->Some_0, b.hash());
        reorganize(c, c.tip->Some_0, b.hash()).chain
    } else {
        connect(c, b, height).chain
    };
    lemma_with_block_apart(c.blocks, moved.blocks, b, height, work);
    let between = with_block(moved.blocks, b, height, work);
    lemma_index_alone(between, height, b.hash());
    assert(f.blocks == with_index(between, height, b.hash()));
    assert forall|cf: ColumnFamily, k: Seq<u8>|
        cf != ColumnFamily::BlockIndex implies #[trigger] value_at(
        with_block(c.blocks, b, height, work),
        cf,
        k,
    ) == value_at(f.blocks, cf, k) by {
        assert(value_at(between, cf, k) == value_at(f.blocks, cf, k));
    }
}

/// The index names the chain of a block that became the tip.
proof fn lemma_new_tip_is_named(c: ChainView, b: BlockView, height: u64, work: nat)
    requires
        sound(c),
        ({
            let d = BlockDataView { block: b, height, cumulative_work: work };
            let full = c.with_cached(b.hash(), d);
            let f = extend_tip(full, b, height, work).chain.blocks;
            &&& extend_tip(full, b, height, work).result is Ok
            &&& ranked(f)
            &&& keeps_blocks(c.blocks, f)
            &&& agrees(full, f)
            &&& is_stored(f, b.hash())
            &&& height_at(f, b.hash()) == height
            &&& prev_of(f, b.hash()) == b.header.prev_block_hash
            &&& followed(c.blocks, b)
        }),
    ensures
        names_chain(
            extend_tip(
                c.with_cached(b.hash(), BlockDataView { block: b, height, cumulative_work: work }),
                b,
                height,
                work,
            ).chain.blocks,
            b.hash(),
        ),
{
    let d = BlockDataView { block: b, height, cumulative_work: work };
    let full = c.with_cached(b.hash(), d);
    let hash = b.hash();
    let f = extend_tip(full, b, height, work).chain.blocks;
    assert(is_stored(f, hash));
    assert(well_filed(f, hash) && in_rank(f, hash));
    match c.tip {
        None => {
            assert(b.header.prev_block_hash == zero_hash());
            assert(height == 0);
            assert forall|k: nat| k <= height implies hash_at_height(f, (height - k) as u64)
                == Lookup::<Seq<u8>>::Ok(Some(#[trigger] back(f, hash, k))) by {
                broadcast use lemma_row_injective;

            }
        },
        Some(t) => {
            assert(is_stored(c.blocks, t));
            if t != b.header.prev_block_hash {
                lemma_reorganized_names(full, f, t, b, height, work);
            } else {
                let between = with_block(c.blocks, b, height, work);
                assert(f == with_index(between, height, hash));
                assert(hash_at_height(f, height) == Lookup::<Seq<u8>>::Ok(Some(hash))) by {
                    broadcast use lemma_row_injective;

                }
                assert forall|h: u64| h < height implies #[trigger] hash_at_height(f, h)
                    == hash_at_height(c.blocks, h) by {
                    lemma_index_leaves_the_rest(between, height, hash, h);
                    lemma_block_leaves_index(c.blocks, b, height, work, h);
                }
                if t == zero_hash() {
                    assert(height == 0);
                    assert forall|k: nat| k <= height implies hash_at_height(
                        f,
                        (height - k) as u64,
                    ) == Lookup::<Seq<u8>>::Ok(Some(#[trigger] back(f, hash, k))) by {}
                } else {
                    lemma_extended_names(c.blocks, f, t, hash);
                }
            }
        },
    }
}

/// A sound chain stays sound with every block that is added to it.
pub proof fn lemma_added_stays_sound(c: ChainView, b: BlockView, pow_hash: Seq<u8>, now: u64)
    requires
        sound(c),
        add_block(c, b, pow_hash, now).result is Ok,
        !c.known(b.hash()) ==> {
            let (height, work) = place(c, b.header, now).result->Ok_0;
            let after = add_block(c, b, pow_hash, now).chain;
            &&& b.hash().len() == 32
            &&& block_stored(after.blocks, b, height, work)
            &&& lasting(after)
        },
    ensures
        sound(add_block(c, b, pow_hash, now).chain),
{
    if !c.known(b.hash()) {
        let hash = b.hash();
        let placed = place(c, b.header, now);
        let (height, work) = placed.result->Ok_0;
        let after = add_block(c, b, pow_hash, now).chain;
        lemma_place_is_sound(c, b, now);
        let p = placed.chain;
        assert(content_error(b, height, pow_hash) is None);
        assert(after == accept(p, b, height, work).chain);
        let d = BlockDataView { block: b, height, cumulative_work: work };
        let full = p.with_cached(hash, d);
        assert(!is_stored(p.blocks, hash));
        if becomes_tip(full, hash, work) {
            lemma_extended_rows(full, b, height, work);
        }
        lemma_with_block_ranks(p.blocks, after.blocks, b, height, work);
        lemma_mirrored_after(p, after, b, height, work);
        if becomes_tip(full, hash, work) {
            lemma_agrees_with(p, after.blocks, b, height, work);
            lemma_new_tip_is_named(p, b, height, work);
        } else {
            let t = p.tip->Some_0;
            assert(is_stored(p.blocks, t));
            assert forall|h: u64| h <= height_at(p.blocks, t) implies #[trigger] hash_at_height(
                after.blocks,
                h,
            ) == hash_at_height(p.blocks, h) by {
                lemma_block_leaves_index(p.blocks, b, height, work, h);
            }
            lemma_names_kept(p.blocks, after.blocks, t);
        }
    }
}

/// What a block leaves of a chain: a chain that lasts does so with a block that comes behind a
/// stored one; a sound chain lasts with any block, and stays sound with one that is added.
pub open spec fn endures(
    before: ChainView,
    b: BlockView,
    pow_hash: Seq<u8>,
    now: u64,
    after: ChainView,
) -> bool {
    &&& lasting(before) && behind_stored(before, b, now) ==> lasting(after)
    &&& sound(before) ==> lasting(after)
    &&& sound(before) && add_block(before, b, pow_hash, now).result is Ok ==> sound(after)
}

/// A chain stays sound when headers are stored that agree with its blocks.
pub proof fn lemma_sound_with_blocks(a: ChainView, b: ChainView)
    requires
        sound(a),
        lasting(b),
        same_blocks(a.blocks, b.blocks),
        forall|h: u64| #[trigger] hash_at_height(b.blocks, h) == hash_at_height(a.blocks, h),
        a.tip == b.tip,
        a.cache == b.cache,
        a.capacity == b.capacity,
    ensures
        sound(b),
{
    assert forall|x: Seq<u8>| #[trigger] is_stored(a.blocks, x) implies value_at(
        b.blocks,
        ColumnFamily::Blocks,
        x,
    ) == value_at(a.blocks, ColumnFamily::Blocks, x) && meta_at(b.blocks, x) == meta_at(
        a.blocks,
        x,
    ) by {
        assert(value_at(a.blocks, ColumnFamily::Blocks, x) == value_at(
            b.blocks,
            ColumnFamily::Blocks,
            x,
        ));
        assert(value_at(a.blocks, ColumnFamily::BlockMeta, x) == value_at(
            b.blocks,
            ColumnFamily::BlockMeta,
            x,
        ));
    }
    assert forall|x: Seq<u8>| #[trigger] is_stored(b.blocks, x) implies in_rank(b.blocks, x) by {
        assert(value_at(a.blocks, ColumnFamily::Blocks, x) == value_at(
            b.blocks,
            ColumnFamily::Blocks,
            x,
        ));
        assert(is_stored(a.blocks, x));
        assert(well_filed(a.blocks, x) && in_rank(a.blocks, x));
        if prev_of(a.blocks, x) != zero_hash() {
            assert(is_stored(a.blocks, prev_of(a.blocks, x)));
        }
    }
    assert forall|x: Seq<u8>| #[trigger] b.cached(x) is Some implies held(
        b.blocks,
        x,
        b.cached(x)->Some_0,
    ) by {
        assert(a.cached(x) is Some);
        assert(is_stored(a.blocks, x));
    }
    match a.tip {
        Some(t) => lemma_names_kept(a.blocks, b.blocks, t),
        None => {
            assert forall|x: Seq<u8>| #[trigger]
                value_at(b.blocks, ColumnFamily::Blocks, x) is None by {
                assert(value_at(a.blocks, ColumnFamily::Blocks, x) == value_at(
                    b.blocks,
                    ColumnFamily::Blocks,
                    x,
                ));
            }
        },
    }
}

proof fn lemma_loaded_is_mirrored(c: ChainView, path: Seq<Seq<u8>>, n: nat)
    requires
        blocks_filed(c.blocks),
        n <= path.len(),
        c.capacity > 0,
        entries_valid(c.cache, c.capacity),
        mirrored(c),
        load_blocks(c, path, n) is Some,
    ensures
        ({
            let r = load_blocks(c, path, n)->Some_0;
            &&& mirrored(r)
            &&& entries_valid(r.cache, r.capacity)
            &&& index_apart(c.blocks, r.blocks)
            &&& r.capacity == c.capacity
        }),
    decreases n,
{
    if n > 0 {
        let m = (n - 1) as nat;
        lemma_loaded_is_mirrored(c, path, m);
        let before = load_blocks(c, path, m)->Some_0;
        let hash = path[path.len() - n];
        let b = block_at(before.blocks, hash)->Ok_0->Some_0;
        let meta = meta_at(before.blocks, hash)->Ok_0->Some_0;
        let d = BlockDataView {
            block: b,
            height: meta.height,
            cumulative_work: meta.cumulative_work,
        };
        lemma_mirrored_with(before, hash, d);
        lemma_index_alone(before.blocks, meta.height, hash);
        let full = before.with_cached(hash, d);
        let r = load_blocks(c, path, n)->Some_0;
        assert forall|cf: ColumnFamily, k: Seq<u8>|
            cf != ColumnFamily::BlockIndex implies #[trigger] value_at(c.blocks, cf, k)
            == value_at(r.blocks, cf, k) by {
            assert(value_at(before.blocks, cf, k) == value_at(r.blocks, cf, k));
        }
        assert forall|x: Seq<u8>| #[trigger] r.cached(x) is Some implies held(
            r.blocks,
            x,
            r.cached(x)->Some_0,
        ) by {
            assert(full.cached(x) is Some);
            assert(value_at(full.blocks, ColumnFamily::Blocks, x) == value_at(
                r.blocks,
                ColumnFamily::Blocks,
                x,
            ));
            assert(value_at(full.blocks, ColumnFamily::BlockMeta, x) == value_at(
                r.blocks,
                ColumnFamily::BlockMeta,
                x,
            ));
        }
    }
}

/// A sound chain is made again from its stores with all its rows and its tip, and is sound.
pub proof fn lemma_sound_chain_restarts(c: ChainView, empty: ChainView)
    requires
        sound(c),
        empty == (ChainView { cache: Seq::empty(), tip: None, ..c }),
    ensures
        ({
            let r = recovered(empty)->Some_0;
            &&& recovered(empty) is Some
            &&& r == (ChainView { cache: r.cache, ..c })
            &&& sound(r)
        }),
{
    lemma_restart_finds_the_chain(c, empty);
    lemma_chain_names_path(c);
    let r = recovered(empty)->Some_0;
    assert(mirrored(empty)) by {
        assert forall|x: Seq<u8>| #[trigger] empty.cached(x) is None by {
            assert(entry_index(empty.cache, x) is None);
        }
    }
    if c.tip is Some {
        let path = loaded_path(c);
        lemma_loaded_is_mirrored(empty, path, path.len());
        let loaded = load_blocks(empty, path, path.len())->Some_0;
        assert(r == (ChainView { tip: c.tip, ..loaded }));
        assert forall|x: Seq<u8>| #[trigger] r.cached(x) is Some implies held(
            r.blocks,
            x,
            r.cached(x)->Some_0,
        ) by {
            assert(loaded.cached(x) is Some);
        }
    }
}

} // verus!
