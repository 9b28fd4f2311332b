//! Which blocks make up the chain.

use crate::consensus::block::{BlockHeaderView, BlockView};
use crate::consensus::chain_model::{
    add_block, ancestors, bytes_before, connect, descend, fork_paths, locator, locator_rest,
    locator_step, max_steps, median_time, meet, place, place_after, recent_times, weighed,
    with_parent_cached, ChainView,
};
use crate::consensus::merkle::zero_hash;
use crate::consensus::utxo::OutPointView;
use crate::laws::blocks::{
    count_below, lemma_median_counts, lemma_reward_bounded, lemma_time_allowed, stated_times,
    worth,
};
use crate::laws::ledger::{is_output, lemma_block_creates, lemma_block_spends, left_over, takes};
use crate::consensus::ledger::scan_block;
use crate::consensus::validation::subsidy_at;
use crate::storage::blocks::{hash_at_height, Lookup};
use crate::storage::chain_state::tip_at;
use crate::storage::convert::UndoPair;
use crate::storage::db::{lemma_row_injective, value_at, ColumnFamily, Rows};
use crate::storage::utxo::{lemma_block_applied_effect, names_key, outpoints_of};
use vstd::arithmetic::power::{lemma_pow_positive, pow};
use vstd::arithmetic::power2::{
    lemma2_to64, lemma2_to64_rest, lemma_pow2_adds, lemma_pow2_strictly_increases, pow2,
};
use vstd::prelude::*;

verus! {

/// Whether headers follow one another from a block backwards.
pub open spec fn runs_back(chain: ChainView, headers: Seq<BlockHeaderView>, hash: Seq<u8>) -> bool {
    &&& headers.len() > 0 ==> chain.header_of(hash) == Some(headers[0])
    &&& forall|i: int|
        0 <= i < headers.len() - 1 ==> chain.header_of((#[trigger] headers[i]).prev_block_hash)
            == Some(headers[i + 1])
}

/// Whether headers that run back from a block stop for want of another.
pub open spec fn run_ends(chain: ChainView, headers: Seq<BlockHeaderView>, hash: Seq<u8>) -> bool {
    if headers.len() == 0 {
        chain.header_of(hash) is None
    } else {
        headers.last().prev_block_hash == zero_hash() || chain.header_of(
            headers.last().prev_block_hash,
        ) is None
    }
}

proof fn lemma_ancestors(chain: ChainView, hash: Seq<u8>, n: nat)
    ensures
        runs_back(chain, ancestors(chain, hash, n), hash),
        ancestors(chain, hash, n).len() <= n,
        ancestors(chain, hash, n).len() < n ==> run_ends(chain, ancestors(chain, hash, n), hash),
    decreases n,
{
    if n > 0 && chain.header_of(hash) is Some {
        let h = chain.header_of(hash)->Some_0;
        if h.prev_block_hash != zero_hash() {
            let m = (n - 1) as nat;
            lemma_ancestors(chain, h.prev_block_hash, m);
            let rest = ancestors(chain, h.prev_block_hash, m);
            let all = ancestors(chain, hash, n);
            assert(all == seq![h] + rest);
            assert forall|i: int| 0 <= i < all.len() - 1 implies chain.header_of(
                (#[trigger] all[i]).prev_block_hash,
            ) == Some(all[i + 1]) by {
                assert(all[i + 1] == rest[i]);
                if i > 0 {
                    assert(all[i] == rest[i - 1]);
                }
            }
            if rest.len() > 0 {
                assert(all.last() == rest.last());
            }
        }
    }
}

/// A block that follows another lies one above it, adds its work to it, and states a time that lies
/// behind at least half of the up to eleven blocks before it and at most two hours ahead.
pub proof fn lemma_block_follows(chain: ChainView, header: BlockHeaderView, now: u64)
    requires
        header.prev_block_hash != zero_hash(),
        place(chain, header, now).result is Ok,
    ensures
        ({
            let after = place(chain, header, now);
            let parent = after.chain.cached(header.prev_block_hash);
            &&& parent is Some
            &&& after.result->Ok_0.0 == parent->Some_0.height + 1
            &&& after.result->Ok_0.1 == (parent->Some_0.cumulative_work + header.work()) % (pow(
                256,
                32,
            ) as nat)
            &&& header.timestamp <= now + 7200
            &&& exists|before: Seq<BlockHeaderView>|
                {
                    &&& #[trigger] runs_back(after.chain, before, header.prev_block_hash)
                    &&& 0 < before.len() <= 11
                    &&& before.len() < 11 ==> run_ends(
                        after.chain,
                        before,
                        header.prev_block_hash,
                    )
                    &&& 2 * count_below(stated_times(before), header.timestamp) >= before.len()
                }
        }),
{
    let c = place(chain, header, now).chain;
    let prev = header.prev_block_hash;
    assert(with_parent_cached(chain, prev) == Ok::<
        ChainView,
        crate::consensus::chain_model::ChainFault,
    >(c));
    assert(place_after(c, header, now) is Ok);
    let before = ancestors(c, prev, 11);
    lemma_ancestors(c, prev, 11);
    lemma_time_allowed(header, before, now);
    assert(c.header_of(prev) is Some);
    assert(before.len() > 0) by {
        reveal_with_fuel(ancestors, 2);
    }
    lemma_pow_positive(256, 32);
    assert(runs_back(c, before, prev));
}

/// A block without predecessor lies at the bottom, with its own work.
pub proof fn lemma_first_block(chain: ChainView, header: BlockHeaderView, now: u64)
    requires
        header.prev_block_hash == zero_hash(),
    ensures
        place(chain, header, now).result is Ok,
        place(chain, header, now).result->Ok_0 == (0u64, header.work()),
        place(chain, header, now).chain == chain,
{
}

/// Whether one hash is smaller than another, byte by byte from the front.
pub open spec fn smaller_hash(a: Seq<u8>, b: Seq<u8>) -> bool {
    exists|i: int|
        #![trigger a[i]]
        0 <= i < a.len() && i < b.len() && a.take(i) == b.take(i) && a[i] < b[i]
}

proof fn lemma_smaller_hash(a: Seq<u8>, b: Seq<u8>)
    ensures
        bytes_before(a, b) == smaller_hash(a, b),
{
    if bytes_before(a, b) {
        let i = choose|i: int|
            0 <= i < a.len() && i < b.len() && #[trigger] a[i] < b[i] && (forall|j: int|
                0 <= j < i ==> a[j] == b[j]);
        assert(a.take(i) =~= b.take(i));
    }
    if smaller_hash(a, b) {
        let i = choose|i: int|
            #![trigger a[i]]
            0 <= i < a.len() && i < b.len() && a.take(i) == b.take(i) && a[i] < b[i];
        assert forall|j: int| 0 <= j < i implies a[j] == b[j] by {
            assert(a.take(i)[j] == b.take(i)[j]);
        }
        assert(a[i] < b[i]);
    }
}

/// A new block that is accepted becomes the tip exactly if there was none, or it has more work than
/// the tip, or as much and a smaller hash. Where it does not, tip and unspent outputs stay.
pub proof fn lemma_most_work_wins(chain: ChainView, block: BlockView, pow_hash: Seq<u8>, now: u64)
    requires
        !chain.known(block.hash()),
        add_block(chain, block, pow_hash, now).result is Ok,
        chain.tip != Some(block.hash()),
        chain.tip matches Some(t) ==> weighed(chain, block, now).cached(t) is Some,
    ensures
        ({
            let after = add_block(chain, block, pow_hash, now);
            let work = place(chain, block.header, now).result->Ok_0.1;
            let wins = match chain.tip {
                None => true,
                Some(t) => {
                    let held = weighed(chain, block, now).cached(t)->Some_0.cumulative_work;
                    work > held || (work == held && smaller_hash(block.hash(), t))
                },
            };
            &&& place(chain, block.header, now).result is Ok
            &&& wins ==> after.chain.tip == Some(block.hash())
            &&& !wins ==> after.chain.tip == chain.tip && after.chain.utxos == chain.utxos
                && after.chain.state == chain.state && after.result->Ok_0.len() == 0
        }),
{
    let placed = place(chain, block.header, now);
    let (height, work) = placed.result->Ok_0;
    if chain.tip is Some {
        lemma_smaller_hash(block.hash(), chain.tip->Some_0);
    }
}

/// Whether a path leads from a block back to another: it begins with the first, each is followed by
/// its parent, and the parent of the last is where it ends. A path without blocks leads nowhere.
pub open spec fn leads(chain: ChainView, path: Seq<Seq<u8>>, from: Seq<u8>, to: Seq<u8>) -> bool {
    if path.len() == 0 {
        from == to
    } else {
        &&& path[0] == from
        &&& forall|i: int|
            0 <= i < path.len() - 1 ==> chain.parent_of(#[trigger] path[i]) == Some(path[i + 1])
        &&& chain.parent_of(path.last()) == Some(to)
    }
}

proof fn lemma_leads_on(
    chain: ChainView,
    a: Seq<Seq<u8>>,
    b: Seq<Seq<u8>>,
    x: Seq<u8>,
    y: Seq<u8>,
    z: Seq<u8>,
)
    requires
        leads(chain, a, x, y),
        leads(chain, b, y, z),
    ensures
        leads(chain, a + b, x, z),
{
    let all = a + b;
    if a.len() == 0 {
        assert(all =~= b);
    } else if b.len() == 0 {
        assert(all =~= a);
    } else {
        assert(all[0] == a[0]);
        assert(all.last() == b.last());
        assert forall|i: int| 0 <= i < all.len() - 1 implies chain.parent_of(#[trigger] all[i])
            == Some(all[i + 1]) by {
            if i < a.len() - 1 {
                assert(all[i] == a[i] && all[i + 1] == a[i + 1]);
            } else if i == a.len() - 1 {
                assert(all[i] == a.last() && all[i + 1] == b[0]);
            } else {
                let j = i - a.len();
                assert(all[i] == b[j] && all[i + 1] == b[j + 1]);
            }
        }
    }
}

proof fn lemma_descends(
    chain: ChainView,
    hash: Seq<u8>,
    floor: u64,
    path: Seq<Seq<u8>>,
    fuel: nat,
) -> (w: Seq<Seq<u8>>)
    requires
        forall|x: Seq<u8>| #[trigger] chain.height_of(x) > 0 ==> chain.parent_of(x) is Some,
        descend(chain, hash, floor, path, fuel) is Some,
    ensures
        descend(chain, hash, floor, path, fuel)->Some_0.0 == path + w,
        leads(chain, w, hash, descend(chain, hash, floor, path, fuel)->Some_0.1),
        w.len() > 0 ==> chain.height_of(hash) > floor,
    decreases fuel,
{
    if chain.height_of(hash) <= floor {
        let w = Seq::<Seq<u8>>::empty();
        assert(path + w =~= path);
        w
    } else {
        let p = chain.parent_of(hash)->Some_0;
        let rest = lemma_descends(chain, p, floor, path.push(hash), (fuel - 1) as nat);
        let one = seq![hash];
        let end = descend(chain, hash, floor, path, fuel)->Some_0.1;
        assert(leads(chain, one, hash, p));
        lemma_leads_on(chain, one, rest, hash, p, end);
        assert(path.push(hash) + rest =~= path + (one + rest));
        one + rest
    }
}

proof fn lemma_meets(
    chain: ChainView,
    x: Seq<u8>,
    y: Seq<u8>,
    a: Seq<Seq<u8>>,
    b: Seq<Seq<u8>>,
    fuel: nat,
) -> (r: (Seq<Seq<u8>>, Seq<Seq<u8>>, Seq<u8>))
    requires
        meet(chain, x, y, a, b, fuel) is Some,
    ensures
        meet(chain, x, y, a, b, fuel)->Some_0 == (a + r.0, b + r.1),
        leads(chain, r.0, x, r.2),
        leads(chain, r.1, y, r.2),
        r.0.len() == r.1.len(),
        r.0.len() > 0 ==> r.0.last() != r.1.last(),
    decreases fuel,
{
    let none = Seq::<Seq<u8>>::empty();
    if x == y {
        assert(a + none =~= a);
        assert(b + none =~= b);
        (none, none, x)
    } else {
        let p = chain.parent_of(x)->Some_0;
        let q = chain.parent_of(y)->Some_0;
        let (v, w, z) = lemma_meets(chain, p, q, a.push(x), b.push(y), (fuel - 1) as nat);
        lemma_leads_on(chain, seq![x], v, x, p, z);
        lemma_leads_on(chain, seq![y], w, y, q, z);
        assert(a.push(x) + v =~= a + (seq![x] + v));
        assert(b.push(y) + w =~= b + (seq![y] + w));
        if v.len() > 0 {
            assert((seq![x] + v).last() == v.last());
            assert((seq![y] + w).last() == w.last());
        } else {
            assert((seq![x] + v).last() == x);
            assert((seq![y] + w).last() == y);
        }
        (seq![x] + v, seq![y] + w, z)
    }
}

/// Whether two paths lead from two blocks to the nearest block that lies behind both.
pub open spec fn fork(
    chain: ChainView,
    a: Seq<Seq<u8>>,
    b: Seq<Seq<u8>>,
    old_tip: Seq<u8>,
    new_tip: Seq<u8>,
    base: Seq<u8>,
) -> bool {
    &&& leads(chain, a, old_tip, base)
    &&& leads(chain, b, new_tip, base)
    &&& a.len() > 0 && b.len() > 0 ==> a.last() != b.last()
}

/// A change of tip disconnects the blocks from the old tip down to the nearest block that lies
/// behind both tips, and connects those from there up to the new one.
pub proof fn lemma_fork_is_nearest(chain: ChainView, old_tip: Seq<u8>, new_tip: Seq<u8>)
    requires
        forall|x: Seq<u8>| #[trigger] chain.height_of(x) > 0 ==> chain.parent_of(x) is Some,
        fork_paths(chain, old_tip, new_tip) is Some,
    ensures
        exists|base: Seq<u8>| #[trigger]
            fork(
                chain,
                fork_paths(chain, old_tip, new_tip)->Some_0.0,
                fork_paths(chain, old_tip, new_tip)->Some_0.1,
                old_tip,
                new_tip,
                base,
            ),
{
    let none = Seq::<Seq<u8>>::empty();
    let v = lemma_descends(chain, old_tip, chain.height_of(new_tip), none, max_steps());
    let w = lemma_descends(chain, new_tip, chain.height_of(old_tip), none, max_steps());
    let x = descend(chain, old_tip, chain.height_of(new_tip), none, max_steps())->Some_0.1;
    let y = descend(chain, new_tip, chain.height_of(old_tip), none, max_steps())->Some_0.1;
    assert(none + v =~= v);
    assert(none + w =~= w);
    let (s, t, z) = lemma_meets(chain, x, y, v, w, max_steps());
    lemma_leads_on(chain, v, s, old_tip, x, z);
    lemma_leads_on(chain, w, t, new_tip, y, z);
    if s.len() > 0 {
        assert((v + s).last() == s.last());
        assert((w + t).last() == t.last());
    } else {
        assert(v + s =~= v);
        assert(w + t =~= w);
        assert(v.len() == 0 || w.len() == 0);
    }
    let paths = fork_paths(chain, old_tip, new_tip)->Some_0;
    assert(paths == meet(chain, x, y, v, w, max_steps())->Some_0);
    assert(paths.0 == v + s && paths.1 == w + t);
    assert(fork(chain, paths.0, paths.1, old_tip, new_tip, z));
}

/// Whether a transaction of a block, which is no coinbase, spends the output filed under a key.
pub open spec fn block_takes(block: BlockView, key: Seq<u8>) -> bool {
    exists|k: int, j: int, o: OutPointView|
        #[trigger] takes(block.transactions, k, j, o) && o.key() == key
}

/// Whether a transaction of a block makes the output filed under a key.
pub open spec fn block_makes(block: BlockView, height: u64, key: Seq<u8>) -> bool {
    exists|k: int, j: int, pair: UndoPair|
        #[trigger] is_output(block.transactions, k, j, height, pair) && pair.0.key() == key
}

/// After a block was connected an output lies unspent exactly if no transaction of the block spends
/// it, and one makes it or it lay there before.
pub proof fn lemma_connected_outputs(chain: ChainView, block: BlockView, height: u64, key: Seq<u8>)
    requires
        connect(chain, block, height).result is Ok,
    ensures
        value_at(connect(chain, block, height).chain.utxos, ColumnFamily::Utxo, key) is Some <==> {
            &&& !block_takes(block, key)
            &&& block_makes(block, height, key) || value_at(
                chain.utxos,
                ColumnFamily::Utxo,
                key,
            ) is Some
        },
{
    broadcast use lemma_row_injective;

    let txs = block.transactions;
    let scan = scan_block(chain.utxos, block, height);
    let n = txs.len();
    let spent = outpoints_of(scan.spent);
    let made = outpoints_of(scan.created);
    lemma_block_spends(chain.utxos, txs, n, height);
    lemma_block_applied_effect(chain.utxos, scan.created, spent, key);
    if names_key(spent, key) {
        let i = choose|i: int| 0 <= i < spent.len() && (#[trigger] spent[i]).key() == key;
        let o = spent[i];
        assert(spent.contains(o));
        let (k, j) = choose|k: int, j: int| k < n && #[trigger] takes(txs, k, j, o);
        assert(takes(txs, k, j, o) && o.key() == key);
    }
    if block_takes(block, key) {
        let (k, j, o) = choose|k: int, j: int, o: OutPointView|
            #[trigger] takes(txs, k, j, o) && o.key() == key;
        assert(k < n && takes(txs, k, j, o));
        assert(spent.contains(o));
        let i = choose|i: int| 0 <= i < spent.len() && spent[i] == o;
        assert(spent[i].key() == key);
    }
    if names_key(made, key) {
        let i = choose|i: int| 0 <= i < made.len() && (#[trigger] made[i]).key() == key;
        let pair = scan.created[i];
        assert(scan.created.contains(pair));
        lemma_block_creates(chain.utxos, txs, n, height, pair);
        let (k, j) = choose|k: int, j: int| k < n && #[trigger] is_output(txs, k, j, height, pair);
        assert(is_output(txs, k, j, height, pair) && pair.0.key() == key);
    }
    if block_makes(block, height, key) {
        let (k, j, pair) = choose|k: int, j: int, pair: UndoPair|
            #[trigger] is_output(txs, k, j, height, pair) && pair.0.key() == key;
        lemma_block_creates(chain.utxos, txs, n, height, pair);
        assert(k < n && is_output(txs, k, j, height, pair));
        assert(scan.created.contains(pair));
        let i = choose|i: int| 0 <= i < scan.created.len() && scan.created[i] == pair;
        assert(made[i].key() == key);
    }
}

/// A block is connected only if its coinbase pays no more than the subsidy and what the other
/// transactions leave over. Connecting a block changes nothing but unspent outputs and undo data,
/// and nothing at all where it fails.
pub proof fn lemma_connected_reward(chain: ChainView, block: BlockView, height: u64)
    ensures
        ({
            let after = connect(chain, block, height);
            let txs = block.transactions;
            &&& after.chain == (ChainView { utxos: after.chain.utxos, ..chain })
            &&& after.result is Err ==> after.chain == chain
            &&& after.result is Ok ==> txs.len() > 0 && worth(txs[0].outputs) <= subsidy_at(
                height as u32,
            ) + left_over(chain.utxos, txs, txs.len())
            &&& after.result is Ok ==> forall|cf: ColumnFamily, key: Seq<u8>|
                cf != ColumnFamily::Utxo && cf != ColumnFamily::Undo ==> #[trigger] value_at(
                    after.chain.utxos,
                    cf,
                    key,
                ) == value_at(chain.utxos, cf, key)
        }),
{
    broadcast use lemma_row_injective;

    let scan = scan_block(chain.utxos, block, height);
    if connect(chain, block, height).result is Ok {
        lemma_block_spends(chain.utxos, block.transactions, block.transactions.len(), height);
        crate::consensus::ledger::lemma_fees_fit(
            chain.utxos,
            block.transactions,
            block.transactions.len(),
            height,
        );
        lemma_reward_bounded(block.transactions[0], scan.fees as u64, height as u32);
        let spent = outpoints_of(scan.spent);
        assert forall|cf: ColumnFamily, key: Seq<u8>|
            cf != ColumnFamily::Utxo && cf != ColumnFamily::Undo implies #[trigger] value_at(
            connect(chain, block, height).chain.utxos,
            cf,
            key,
        ) == value_at(chain.utxos, cf, key) by {
            crate::storage::utxo::lemma_block_applied_elsewhere(
                chain.utxos,
                scan.created,
                spent,
                cf,
                key,
            );
        }
    }
}

/// The median of the last blocks splits their times: a time is later than it exactly if more than
/// half of them lie below that time.
pub proof fn lemma_median_of_tip(chain: ChainView, bound: u64)
    requires
        chain.tip is Some,
        chain.cached(chain.tip->Some_0) is Some,
    ensures
        ({
            let times = recent_times(chain, chain.tip->Some_0, 11);
            &&& times.len() > 0
            &&& median_time(chain) < bound <==> 2 * count_below(times, bound) > times.len()
        }),
{
    let t = chain.tip->Some_0;
    let times = recent_times(chain, t, 11);
    assert(times.len() > 0) by {
        reveal_with_fuel(recent_times, 2);
    }
    lemma_median_counts(times, bound, times.len() as int / 2);
}

/// How far below the entry before it an entry of a locator lies: one, and from the eleventh entry on
/// twice as far as the one before.
pub open spec fn locator_gap(i: int) -> nat {
    if i < 10 {
        1
    } else {
        pow2((i - 9) as nat)
    }
}

/// The height that lies a distance below another, or the bottom.
pub open spec fn below(height: u64, gap: nat) -> int {
    if height > gap {
        height - gap
    } else {
        0
    }
}

proof fn lemma_locator_rest(rows: Rows, count: nat, height: u64, step: u64)
    requires
        count > 0,
        step > 0,
        step == locator_gap(count - 1) || (step == u64::MAX && locator_gap(count - 1) > u64::MAX),
    ensures
        ({
            let all = seq![(Seq::<u8>::empty(), height)] + locator_rest(rows, count, height, step);
            forall|i: int|
                1 <= i < all.len() ==> (#[trigger] all[i]).1 == below(
                    all[i - 1].1,
                    locator_gap(count + i - 1),
                ) && hash_at_height(rows, all[i].1) == Lookup::<Seq<u8>>::Ok(Some(all[i].0))
        }),
    decreases height,
{
    let top = Seq::<u8>::empty();
    let rest = locator_rest(rows, count, height, step);
    let all = seq![(top, height)] + rest;
    if height > 0 {
        let s = locator_step(count, step);
        lemma2_to64_rest();
        if count >= 10 {
            if count > 10 {
                lemma_pow2_adds((count - 10) as nat, 1);
            }
            lemma2_to64();
            assert(locator_gap(count as int) == 2 * locator_gap(count - 1));
            if step > u64::MAX / 2 {
                if step < u64::MAX {
                    assert(locator_gap(count as int) > u64::MAX) by {
                        if count > 10 && count - 10 < 64 {
                            if count - 10 < 63 {
                                lemma_pow2_strictly_increases((count - 10) as nat, 63);
                            }
                        }
                    }
                } else {
                    assert(2 * locator_gap(count - 1) > u64::MAX);
                }
            }
        }
        let h = if height > s {
            (height - s) as u64
        } else {
            0
        };
        assert(h == below(height, locator_gap(count as int)));
        if let Ok(Some(hash)) = hash_at_height(rows, h) {
            lemma_locator_rest(rows, count + 1, h, s);
            let tail = locator_rest(rows, count + 1, h, s);
            let next = seq![(top, h)] + tail;
            assert(rest == seq![(hash, h)] + tail);
            assert forall|i: int| 1 <= i < all.len() implies (#[trigger] all[i]).1 == below(
                all[i - 1].1,
                locator_gap(count + i - 1),
            ) && hash_at_height(rows, all[i].1) == Lookup::<Seq<u8>>::Ok(Some(all[i].0)) by {
                if i > 1 {
                    assert(all[i] == next[i - 1]);
                    assert(all[i - 1].1 == next[i - 2].1);
                }
            }
        }
    }
}

/// A locator begins with the tip. Its next nine entries lie one below the other, those behind them
/// at distances that double, and each names the block that the active chain has at its height.
pub proof fn lemma_locator_thins_out(chain: ChainView)
    requires
        tip_at(chain.state) matches Ok(Some(_)),
    ensures
        ({
            let all = locator(chain);
            let tip = tip_at(chain.state)->Ok_0->Some_0;
            &&& all.len() > 0
            &&& all[0] == (tip.hash, tip.height)
            &&& forall|i: int|
                1 <= i < all.len() ==> (#[trigger] all[i]).1 == below(
                    all[i - 1].1,
                    locator_gap(i),
                ) && hash_at_height(chain.blocks, all[i].1) == Lookup::<Seq<u8>>::Ok(
                    Some(all[i].0),
                )
        }),
{
    let tip = tip_at(chain.state)->Ok_0->Some_0;
    lemma_locator_rest(chain.blocks, 1, tip.height, 1);
    let rest = locator_rest(chain.blocks, 1, tip.height, 1);
    let same = seq![(Seq::<u8>::empty(), tip.height)] + rest;
    let all = locator(chain);
    assert forall|i: int| 1 <= i < all.len() implies (#[trigger] all[i]).1 == below(
        all[i - 1].1,
        locator_gap(i),
    ) && hash_at_height(chain.blocks, all[i].1) == Lookup::<Seq<u8>>::Ok(Some(all[i].0)) by {
        assert(all[i] == same[i]);
        assert(all[i - 1].1 == same[i - 1].1);
    }
}

} // verus!
