//! Unspent outputs and undo data.

use crate::consensus::utxo::{OutPoint, OutPointView, UtxoEntry, UtxoEntryView};
use crate::primitives::bytes::{array32, lemma_le_bytes_of_value, tail_from, u32_from_le};
use crate::primitives::hash::Hash256;
use crate::primitives::serialize::views;
use crate::storage::blocks::{found, Lookup};
use crate::storage::convert::{
    decode_entry, decode_undo, encode_entry, encode_undo, entry_bytes, pair_views, stored_entry,
    stored_undo, undo_bytes, UndoPair,
};
use crate::storage::db::{
    delete_op, lemma_replay_concat, lemma_row_injective, lists_family, put_op, replay, row,
    value_at, Batch, ColumnFamily, Database, RowOp, RowOpView, Rows,
};
use vstd::prelude::*;

verus! {

/// The unspent output that is filed under a key.
pub open spec fn entry_at(rows: Rows, key: Seq<u8>) -> Lookup<UtxoEntryView> {
    match value_at(rows, ColumnFamily::Utxo, key) {
        None => Ok(None),
        Some(b) => match stored_entry(b) {
            Some(e) => Ok(Some(e)),
            None => Err(()),
        },
    }
}

/// The undo data of a block.
pub open spec fn undo_at(rows: Rows, hash: Seq<u8>) -> Lookup<Seq<UndoPair>> {
    match value_at(rows, ColumnFamily::Undo, hash) {
        None => Ok(None),
        Some(b) => match stored_undo(b) {
            Some(u) => Ok(Some(u)),
            None => Err(()),
        },
    }
}

/// The changes that file a sequence of outputs.
pub open spec fn put_entries(pairs: Seq<UndoPair>) -> Seq<RowOpView> {
    Seq::new(
        pairs.len(),
        |i: int| put_op(ColumnFamily::Utxo, pairs[i].0.key(), entry_bytes(pairs[i].1)),
    )
}

/// The changes that remove a sequence of outputs.
pub open spec fn delete_entries(outpoints: Seq<OutPointView>) -> Seq<RowOpView> {
    Seq::new(outpoints.len(), |i: int| delete_op(ColumnFamily::Utxo, outpoints[i].key()))
}

/// The rows after a block created some outputs and spent others.
pub open spec fn block_applied(
    rows: Rows,
    created: Seq<UndoPair>,
    spent: Seq<OutPointView>,
) -> Rows {
    replay(rows, put_entries(created) + delete_entries(spent))
}

/// The rows after a block that created some outputs and spent others was undone.
pub open spec fn block_reverted(
    rows: Rows,
    created: Seq<OutPointView>,
    restored: Seq<UndoPair>,
) -> Rows {
    replay(rows, delete_entries(created) + put_entries(restored))
}

/// The outpoints of a sequence of outputs.
pub open spec fn outpoints_of(pairs: Seq<UndoPair>) -> Seq<OutPointView> {
    Seq::new(pairs.len(), |i: int| pairs[i].0)
}

/// Whether an outpoint with a key occurs in a sequence.
pub open spec fn names_key(outpoints: Seq<OutPointView>, key: Seq<u8>) -> bool {
    exists|i: int| 0 <= i < outpoints.len() && (#[trigger] outpoints[i]).key() == key
}

/// Removing outputs leaves the rows of all others as they are.
proof fn lemma_delete_entries(rows: Rows, outpoints: Seq<OutPointView>)
    ensures
        forall|k: Seq<u8>|
            #![trigger value_at(replay(rows, delete_entries(outpoints)), ColumnFamily::Utxo, k)]
            value_at(replay(rows, delete_entries(outpoints)), ColumnFamily::Utxo, k) == (
            if names_key(outpoints, k) {
                None
            } else {
                value_at(rows, ColumnFamily::Utxo, k)
            }),
        forall|cf: ColumnFamily, k: Seq<u8>|
            #![trigger value_at(replay(rows, delete_entries(outpoints)), cf, k)]
            cf != ColumnFamily::Utxo ==> value_at(
                replay(rows, delete_entries(outpoints)),
                cf,
                k,
            ) == value_at(rows, cf, k),
    decreases outpoints.len(),
{
    broadcast use lemma_row_injective;

    let after = replay(rows, delete_entries(outpoints));
    if outpoints.len() == 0 {
        assert(delete_entries(outpoints) =~= Seq::empty());
    } else {
        let front = outpoints.drop_last();
        lemma_delete_entries(rows, front);
        assert(delete_entries(outpoints).drop_last() =~= delete_entries(front));
        let last = outpoints.last();
        let before = replay(rows, delete_entries(front));
        assert(after == before.remove(row(ColumnFamily::Utxo, last.key())));
        assert forall|k: Seq<u8>|
            #![trigger value_at(after, ColumnFamily::Utxo, k)]
            value_at(after, ColumnFamily::Utxo, k) == (if names_key(outpoints, k) {
                None
            } else {
                value_at(rows, ColumnFamily::Utxo, k)
            }) by {
            assert(value_at(before, ColumnFamily::Utxo, k) == (if names_key(front, k) {
                None
            } else {
                value_at(rows, ColumnFamily::Utxo, k)
            }));
            if names_key(front, k) {
                let i = choose|i: int| 0 <= i < front.len() && (#[trigger] front[i]).key() == k;
                assert(outpoints[i].key() == k);
            }
            if last.key() == k {
                assert(outpoints[outpoints.len() - 1].key() == k);
            }
            if names_key(outpoints, k) && last.key() != k {
                let i = choose|i: int|
                    0 <= i < outpoints.len() && (#[trigger] outpoints[i]).key() == k;
                assert(front[i].key() == k);
            }
        }
        assert forall|cf: ColumnFamily, k: Seq<u8>|
            #![trigger value_at(after, cf, k)]
            cf != ColumnFamily::Utxo implies value_at(after, cf, k) == value_at(rows, cf, k) by {
            assert(value_at(before, cf, k) == value_at(rows, cf, k));
        }
    }
}

/// Filing outputs leaves the rows of all others as they are, and gives each its
/// bytes.
proof fn lemma_put_entries(rows: Rows, pairs: Seq<UndoPair>)
    ensures
        forall|k: Seq<u8>|
            #![trigger value_at(replay(rows, put_entries(pairs)), ColumnFamily::Utxo, k)]
            if names_key(outpoints_of(pairs), k) {
                exists|i: int|
                    0 <= i < pairs.len() && (#[trigger] pairs[i]).0.key() == k && value_at(
                        replay(rows, put_entries(pairs)),
                        ColumnFamily::Utxo,
                        k,
                    ) == Some(entry_bytes(pairs[i].1))
            } else {
                value_at(replay(rows, put_entries(pairs)), ColumnFamily::Utxo, k) == value_at(
                    rows,
                    ColumnFamily::Utxo,
                    k,
                )
            },
        forall|cf: ColumnFamily, k: Seq<u8>|
            #![trigger value_at(replay(rows, put_entries(pairs)), cf, k)]
            cf != ColumnFamily::Utxo ==> value_at(replay(rows, put_entries(pairs)), cf, k)
                == value_at(rows, cf, k),
    decreases pairs.len(),
{
    broadcast use lemma_row_injective;

    let after = replay(rows, put_entries(pairs));
    if pairs.len() == 0 {
        assert(put_entries(pairs) =~= Seq::empty());
    } else {
        let front = pairs.drop_last();
        lemma_put_entries(rows, front);
        assert(put_entries(pairs).drop_last() =~= put_entries(front));
        let last = pairs.last();
        let before = replay(rows, put_entries(front));
        assert(after == before.insert(
            row(ColumnFamily::Utxo, last.0.key()),
            entry_bytes(last.1),
        ));
        assert forall|k: Seq<u8>|
            #![trigger value_at(after, ColumnFamily::Utxo, k)]
            if names_key(outpoints_of(pairs), k) {
                exists|i: int|
                    0 <= i < pairs.len() && (#[trigger] pairs[i]).0.key() == k && value_at(
                        after,
                        ColumnFamily::Utxo,
                        k,
                    ) == Some(entry_bytes(pairs[i].1))
            } else {
                value_at(after, ColumnFamily::Utxo, k) == value_at(rows, ColumnFamily::Utxo, k)
            } by {
            let fo = outpoints_of(front);
            let po = outpoints_of(pairs);
            if last.0.key() == k {
                assert(pairs[pairs.len() - 1].0.key() == k);
                assert(po[pairs.len() - 1].key() == k);
            } else {
                assert(value_at(after, ColumnFamily::Utxo, k) == value_at(
                    before,
                    ColumnFamily::Utxo,
                    k,
                ));
                if names_key(fo, k) {
                    let j = choose|j: int| 0 <= j < fo.len() && (#[trigger] fo[j]).key() == k;
                    assert(po[j].key() == k);
                    let i = choose|i: int|
                        0 <= i < front.len() && (#[trigger] front[i]).0.key() == k && value_at(
                            before,
                            ColumnFamily::Utxo,
                            k,
                        ) == Some(entry_bytes(front[i].1));
                    assert(pairs[i].0.key() == k);
                } else if names_key(po, k) {
                    let j = choose|j: int| 0 <= j < po.len() && (#[trigger] po[j]).key() == k;
                    assert(fo[j].key() == k);
                }
            }
        }
        assert forall|cf: ColumnFamily, k: Seq<u8>|
            #![trigger value_at(after, cf, k)]
            cf != ColumnFamily::Utxo implies value_at(after, cf, k) == value_at(rows, cf, k) by {
            assert(value_at(before, cf, k) == value_at(rows, cf, k));
        }
    }
}

/// After a block was applied, an output is there exactly if the block did not
/// spend it, and either it was there before or the block created it.
pub proof fn lemma_block_applied_effect(
    rows: Rows,
    created: Seq<UndoPair>,
    spent: Seq<OutPointView>,
    key: Seq<u8>,
)
    ensures
        value_at(block_applied(rows, created, spent), ColumnFamily::Utxo, key) is Some <==> (
        !names_key(spent, key) && (names_key(outpoints_of(created), key) || value_at(
            rows,
            ColumnFamily::Utxo,
            key,
        ) is Some)),
{
    lemma_replay_concat(rows, put_entries(created), delete_entries(spent));
    let middle = replay(rows, put_entries(created));
    lemma_put_entries(rows, created);
    lemma_delete_entries(middle, spent);
    assert(value_at(middle, ColumnFamily::Utxo, key) is Some <==> (names_key(
        outpoints_of(created),
        key,
    ) || value_at(rows, ColumnFamily::Utxo, key) is Some));
}

/// Applying a block changes no rows but those of unspent outputs.
pub proof fn lemma_block_applied_elsewhere(
    rows: Rows,
    created: Seq<UndoPair>,
    spent: Seq<OutPointView>,
    cf: ColumnFamily,
    key: Seq<u8>,
)
    requires
        cf != ColumnFamily::Utxo,
    ensures
        value_at(block_applied(rows, created, spent), cf, key) == value_at(rows, cf, key),
{
    lemma_replay_concat(rows, put_entries(created), delete_entries(spent));
    lemma_put_entries(rows, created);
    lemma_delete_entries(replay(rows, put_entries(created)), spent);
    assert(value_at(replay(rows, put_entries(created)), cf, key) == value_at(rows, cf, key));
}

/// Undoing a block that was applied restores every unspent output, provided that
/// the block created none that was there already and that the undo data holds
/// what the block spent.
pub proof fn lemma_revert_undoes_apply(
    rows: Rows,
    created: Seq<UndoPair>,
    restored: Seq<UndoPair>,
    key: Seq<u8>,
)
    requires
        forall|i: int|
            0 <= i < created.len() ==> value_at(
                rows,
                ColumnFamily::Utxo,
                (#[trigger] created[i]).0.key(),
            ) is None,
        forall|i: int|
            0 <= i < restored.len() ==> value_at(
                rows,
                ColumnFamily::Utxo,
                (#[trigger] restored[i]).0.key(),
            ) == Some(entry_bytes(restored[i].1)),
    ensures
        value_at(
            block_reverted(
                block_applied(rows, created, outpoints_of(restored)),
                outpoints_of(created),
                restored,
            ),
            ColumnFamily::Utxo,
            key,
        ) == value_at(rows, ColumnFamily::Utxo, key),
{
    let spent = outpoints_of(restored);
    let made = outpoints_of(created);
    let cf = ColumnFamily::Utxo;
    lemma_replay_concat(rows, put_entries(created), delete_entries(spent));
    let r1 = replay(rows, put_entries(created));
    let r2 = block_applied(rows, created, spent);
    lemma_replay_concat(r2, delete_entries(made), put_entries(restored));
    let r3 = replay(r2, delete_entries(made));
    let r4 = replay(r3, put_entries(restored));
    lemma_put_entries(rows, created);
    lemma_delete_entries(r1, spent);
    lemma_delete_entries(r2, made);
    lemma_put_entries(r3, restored);
    if names_key(made, key) {
        let i = choose|i: int| 0 <= i < made.len() && (#[trigger] made[i]).key() == key;
        assert(created[i].0.key() == key);
    }
    if names_key(spent, key) {
        assert(value_at(r4, cf, key) == value_at(rows, cf, key));
    } else {
        assert(value_at(r4, cf, key) == value_at(r3, cf, key));
        assert(value_at(r1, cf, key) == value_at(r2, cf, key));
        if !names_key(made, key) {
            assert(value_at(r3, cf, key) == value_at(r2, cf, key));
            assert(value_at(r1, cf, key) == value_at(rows, cf, key));
        }
    }
}

/// After a block was undone an output is there exactly if it is one of those that were restored, or
/// it was there and is none of those that the block created.
pub proof fn lemma_block_reverted_effect(
    rows: Rows,
    created: Seq<OutPointView>,
    restored: Seq<UndoPair>,
    key: Seq<u8>,
)
    ensures
        value_at(block_reverted(rows, created, restored), ColumnFamily::Utxo, key) is Some <==> (
        names_key(outpoints_of(restored), key) || (value_at(rows, ColumnFamily::Utxo, key) is Some
            && !names_key(created, key))),
{
    lemma_replay_concat(rows, delete_entries(created), put_entries(restored));
    let middle = replay(rows, delete_entries(created));
    lemma_delete_entries(rows, created);
    lemma_put_entries(middle, restored);
    assert(value_at(middle, ColumnFamily::Utxo, key) is Some <==> (value_at(
        rows,
        ColumnFamily::Utxo,
        key,
    ) is Some && !names_key(created, key)));
}

/// UTXO set storage interface
pub struct UtxoStore {
    db: Database,
}

impl View for UtxoStore {
    type V = Rows;

    closed spec fn view(&self) -> Rows {
        self.db@
    }
}

/// The models of a sequence of outpoints.
pub open spec fn outpoint_views(s: Seq<OutPoint>) -> Seq<OutPointView> {
    Seq::new(s.len(), |i: int| s[i]@)
}

impl UtxoStore {
    pub fn new(db: Database) -> (r: Self)
        ensures
            r@ == db@,
            r.saved() == db.saved(),
    {
        UtxoStore { db }
    }

    /// The rows when they were last saved.
    pub closed spec fn saved(self) -> Rows {
        self.db.saved()
    }

    /// What was written since it was last saved.
    pub fn journal(&self) -> (ops: &Vec<RowOp>)
        ensures
            replay(self.saved(), views(ops@)) == self@,
    {
        self.db.journal()
    }

    /// Counts what was written as saved.
    pub fn mark_saved(&mut self)
        ensures
            final(self)@ == old(self)@,
            final(self).saved() == old(self)@,
    {
        self.db.mark_saved()
    }

    /// Get UTXO by outpoint
    pub fn get_utxo(&self, outpoint: &OutPoint) -> (r: Result<Option<UtxoEntry>, String>)
        ensures
            found(r, entry_at(self@, outpoint@.key())),
    {
        match self.db.get(ColumnFamily::Utxo, &outpoint.key()) {
            Some(b) => match decode_entry(b) {
                Ok(entry) => Ok(Some(entry)),
                Err(e) => Err(e),
            },
            None => Ok(None),
        }
    }

    /// Store UTXO
    pub fn put_utxo(&mut self, outpoint: &OutPoint, entry: &UtxoEntry) -> (r: Result<(), String>)
        ensures
            r is Ok,
            final(self)@ == old(self)@.insert(
                row(ColumnFamily::Utxo, outpoint@.key()),
                entry_bytes(entry@),
            ),
            entry_at(final(self)@, outpoint@.key()) == Lookup::<UtxoEntryView>::Ok(Some(entry@)),
            final(self).saved() == old(self).saved(),
    {
        let value = match encode_entry(entry) {
            Ok(value) => value,
            Err(e) => return Err(e),
        };
        self.db.put(ColumnFamily::Utxo, &outpoint.key(), &value)
    }

    /// Delete UTXO
    pub fn delete_utxo(&mut self, outpoint: &OutPoint) -> (r: Result<(), String>)
        ensures
            r is Ok,
            final(self)@ == old(self)@.remove(row(ColumnFamily::Utxo, outpoint@.key())),
            final(self).saved() == old(self).saved(),
    {
        self.db.delete(ColumnFamily::Utxo, &outpoint.key())
    }

    /// Check if UTXO exists
    pub fn has_utxo(&self, outpoint: &OutPoint) -> (r: Result<bool, String>)
        ensures
            r is Ok,
            r->Ok_0 == value_at(self@, ColumnFamily::Utxo, outpoint@.key()) is Some,
    {
        Ok(self.db.get(ColumnFamily::Utxo, &outpoint.key()).is_some())
    }

    fn batch_puts(batch: &mut Batch, pairs: &Vec<(OutPoint, UtxoEntry)>) -> (r: Result<(), String>)
        ensures
            r is Ok,
            final(batch)@ == old(batch)@ + put_entries(pair_views(pairs@)),
    {
        let ghost all = put_entries(pair_views(pairs@));
        let mut i: usize = 0;
        assert(all.take(0) =~= Seq::<RowOpView>::empty());
        assert(batch@ + all.take(0) =~= batch@);
        while i < pairs.len()
            invariant
                i <= pairs.len(),
                all == put_entries(pair_views(pairs@)),
                batch@ == old(batch)@ + all.take(i as int),
            decreases pairs.len() - i,
        {
            let value = match encode_entry(&pairs[i].1) {
                Ok(value) => value,
                Err(e) => return Err(e),
            };
            let ghost before = batch@;
            batch.put(ColumnFamily::Utxo, &pairs[i].0.key(), &value);
            proof {
                assert(all[i as int] == put_op(
                    ColumnFamily::Utxo,
                    pairs[i as int].0@.key(),
                    value@,
                ));
                assert(all.take(i + 1) =~= all.take(i as int).push(all[i as int]));
                assert(batch@ =~= old(batch)@ + all.take(i + 1));
            }
            i += 1;
        }
        assert(all.take(i as int) =~= all);
        Ok(())
    }

    fn batch_deletes(batch: &mut Batch, outpoints: &Vec<OutPoint>)
        ensures
            final(batch)@ == old(batch)@ + delete_entries(outpoint_views(outpoints@)),
    {
        let ghost all = delete_entries(outpoint_views(outpoints@));
        let mut i: usize = 0;
        assert(all.take(0) =~= Seq::<RowOpView>::empty());
        assert(batch@ + all.take(0) =~= batch@);
        while i < outpoints.len()
            invariant
                i <= outpoints.len(),
                all == delete_entries(outpoint_views(outpoints@)),
                batch@ == old(batch)@ + all.take(i as int),
            decreases outpoints.len() - i,
        {
            batch.delete(ColumnFamily::Utxo, &outpoints[i].key());
            proof {
                assert(all[i as int] == delete_op(
                    ColumnFamily::Utxo,
                    outpoints[i as int]@.key(),
                ));
                assert(all.take(i + 1) =~= all.take(i as int).push(all[i as int]));
                assert(batch@ =~= old(batch)@ + all.take(i + 1));
            }
            i += 1;
        }
        assert(all.take(i as int) =~= all);
    }

    /// Apply block to UTXO set (atomic)
    pub fn apply_block(
        &mut self,
        created: &Vec<(OutPoint, UtxoEntry)>,
        spent: &Vec<OutPoint>,
    ) -> (r: Result<(), String>)
        ensures
            r is Ok,
            final(self)@ == block_applied(
                old(self)@,
                pair_views(created@),
                outpoint_views(spent@),
            ),
            final(self).saved() == old(self).saved(),
    {
        let mut batch = Batch::new();
        let _ = UtxoStore::batch_puts(&mut batch, created);
        UtxoStore::batch_deletes(&mut batch, spent);
        assert(batch@ =~= put_entries(pair_views(created@)) + delete_entries(
            outpoint_views(spent@),
        ));
        self.db.commit(batch)
    }

    /// Revert block from UTXO set (atomic)
    pub fn revert_block(
        &mut self,
        created: &Vec<OutPoint>,
        restored: &Vec<(OutPoint, UtxoEntry)>,
    ) -> (r: Result<(), String>)
        ensures
            r is Ok,
            final(self)@ == block_reverted(
                old(self)@,
                outpoint_views(created@),
                pair_views(restored@),
            ),
            final(self).saved() == old(self).saved(),
    {
        let mut batch = Batch::new();
        UtxoStore::batch_deletes(&mut batch, created);
        let _ = UtxoStore::batch_puts(&mut batch, restored);
        assert(batch@ =~= delete_entries(outpoint_views(created@)) + put_entries(
            pair_views(restored@),
        ));
        self.db.commit(batch)
    }

    pub fn store_undo_data(
        &mut self,
        block_hash: &Hash256,
        spent_entries: &Vec<(OutPoint, UtxoEntry)>,
    ) -> (r: Result<(), String>)
        ensures
            r is Ok,
            final(self)@ == old(self)@.insert(
                row(ColumnFamily::Undo, block_hash@),
                undo_bytes(pair_views(spent_entries@)),
            ),
            undo_at(final(self)@, block_hash@) == Lookup::<Seq<UndoPair>>::Ok(
                Some(pair_views(spent_entries@)),
            ),
            final(self).saved() == old(self).saved(),
    {
        let value = match encode_undo(spent_entries) {
            Ok(value) => value,
            Err(e) => return Err(e),
        };
        self.db.put(ColumnFamily::Undo, block_hash, &value)
    }

    pub fn get_undo_data(&self, block_hash: &Hash256) -> (r: Result<
        Option<Vec<(OutPoint, UtxoEntry)>>,
        String,
    >)
        ensures
            match r {
                Ok(Some(u)) => undo_at(self@, block_hash@) == Lookup::<Seq<UndoPair>>::Ok(
                    Some(pair_views(u@)),
                ),
                Ok(None) => undo_at(self@, block_hash@) == Lookup::<Seq<UndoPair>>::Ok(None),
                Err(_) => undo_at(self@, block_hash@) is Err,
            },
    {
        match self.db.get(ColumnFamily::Undo, block_hash) {
            Some(bytes) => match decode_undo(bytes) {
                Ok(entries) => Ok(Some(entries)),
                Err(e) => Err(e),
            },
            None => Ok(None),
        }
    }

    pub fn delete_undo_data(&mut self, block_hash: &Hash256) -> (r: Result<(), String>)
        ensures
            r is Ok,
            final(self)@ == old(self)@.remove(row(ColumnFamily::Undo, block_hash@)),
            final(self).saved() == old(self).saved(),
    {
        self.db.delete(ColumnFamily::Undo, block_hash)
    }

    /// Get UTXO set size
    pub fn get_utxo_count(&self) -> (r: Result<usize, String>)
        ensures
            r matches Ok(n) && ({
                let keys = Set::new(
                    |k: Seq<u8>| value_at(self@, ColumnFamily::Utxo, k) is Some,
                );
                keys.finite() && n == keys.len()
            }),
    {
        let items = self.db.iter(ColumnFamily::Utxo);
        proof {
            let pairs = views(items@);
            let ks = Seq::new(pairs.len(), |i: int| pairs[i].0);
            assert(ks.no_duplicates()) by {
                assert forall|p: int, q: int|
                    0 <= p < ks.len() && 0 <= q < ks.len() && p != q implies ks[p] != ks[q] by {
                    if p < q {
                        assert(pairs[p].0 != pairs[q].0);
                    } else {
                        assert(pairs[q].0 != pairs[p].0);
                    }
                }
            }
            ks.unique_seq_to_set();
            let keys = Set::new(|k: Seq<u8>| value_at(self@, ColumnFamily::Utxo, k) is Some);
            assert forall|k: Seq<u8>| keys.contains(k) <==> ks.to_set().contains(k) by {
                if keys.contains(k) {
                    let p = choose|p: int| 0 <= p < pairs.len() && (#[trigger] pairs[p]).0 == k;
                    assert(ks[p] == k);
                }
                if ks.to_set().contains(k) {
                    let p = choose|p: int| 0 <= p < ks.len() && ks[p] == k;
                    assert(value_at(self@, ColumnFamily::Utxo, pairs[p].0) is Some);
                }
            }
            assert(keys =~= ks.to_set());
        }
        Ok(items.len())
    }

    /// Export all UTXOs (for testing/debugging). Keys of another length than that
    /// of an outpoint are left out.
    pub fn export_utxos(&self) -> (r: Result<Vec<(OutPoint, UtxoEntry)>, String>)
        ensures
            r is Err <==> exists|k: Seq<u8>|
                k.len() == 36 && #[trigger] entry_at(self@, k) is Err,
            r matches Ok(out) ==> {
                &&& forall|i: int|
                    0 <= i < out@.len() ==> entry_at(self@, (#[trigger] out@[i]).0@.key())
                        == Lookup::<UtxoEntryView>::Ok(Some(out@[i].1@))
                &&& forall|k: Seq<u8>|
                    k.len() == 36 && #[trigger] value_at(self@, ColumnFamily::Utxo, k) is Some
                        ==> exists|i: int|
                        0 <= i < out@.len() && (#[trigger] out@[i]).0@.key() == k
                &&& forall|i: int, j: int|
                    0 <= i < j < out@.len() ==> (#[trigger] out@[i]).0@.key() != (
                    #[trigger] out@[j]).0@.key()
            },
    {
        let items = self.db.iter(ColumnFamily::Utxo);
        let ghost pairs = views(items@);
        let mut out: Vec<(OutPoint, UtxoEntry)> = Vec::new();
        let ghost mut from: Seq<int> = Seq::empty();
        let mut i: usize = 0;
        while i < items.len()
            invariant
                i <= items.len(),
                pairs == views(items@),
                lists_family(pairs, self@, ColumnFamily::Utxo),
                from.len() == out.len(),
                forall|p: int|
                    0 <= p < out.len() ==> 0 <= #[trigger] from[p] < i && pairs[from[p]].0
                        == out@[p].0@.key() && entry_at(self@, out@[p].0@.key()) == Lookup::<
                        UtxoEntryView,
                    >::Ok(Some(out@[p].1@)),
                forall|p: int, q: int| 0 <= p < q < out.len() ==> from[p] < from[q],
                forall|j: int|
                    0 <= j < i && (#[trigger] pairs[j]).0.len() == 36 ==> entry_at(
                        self@,
                        pairs[j].0,
                    ) is Ok && exists|p: int| 0 <= p < out.len() && #[trigger] from[p] == j,
            decreases items.len() - i,
        {
            let key = &items[i].0;
            assert(pairs[i as int].0 == key@);
            assert(pairs[i as int].1 == items@[i as int].1@);
            assert(value_at(self@, ColumnFamily::Utxo, pairs[i as int].0) == Some(
                pairs[i as int].1,
            ));
            if key.len() == 36 {
                let txid = array32(key);
                let rest = tail_from(key, 32);
                let vout: u32 = u32_from_le(rest);
                let outpoint = OutPoint { txid, vout };
                proof {
                    assert(rest@.take(4) =~= rest@);
                    lemma_le_bytes_of_value(rest@);
                    assert(outpoint@.key() =~= key@);
                }
                let entry = match decode_entry(&items[i].1) {
                    Ok(entry) => entry,
                    Err(e) => {
                        assert(entry_at(self@, key@) is Err);
                        return Err(e);
                    },
                };
                let ghost old_out = out@;
                let ghost old_from = from;
                out.push((outpoint, entry));
                proof {
                    from = from.push(i as int);
                    assert forall|j: int|
                        0 <= j < i + 1 && (#[trigger] pairs[j]).0.len() == 36 implies entry_at(
                        self@,
                        pairs[j].0,
                    ) is Ok && exists|p: int| 0 <= p < out.len() && #[trigger] from[p] == j by {
                        if j < i {
                            let p = choose|p: int|
                                0 <= p < old_out.len() && #[trigger] old_from[p] == j;
                            assert(from[p] == j);
                        } else {
                            assert(from[old_out.len() as int] == j);
                        }
                    }
                }
            }
            i += 1;
        }
        proof {
            assert forall|k: Seq<u8>|
                k.len() == 36 && #[trigger] value_at(self@, ColumnFamily::Utxo, k)
                    is Some implies exists|p: int|
                0 <= p < out@.len() && (#[trigger] out@[p]).0@.key() == k by {
                let j = choose|j: int| 0 <= j < pairs.len() && (#[trigger] pairs[j]).0 == k;
                let p = choose|p: int| 0 <= p < out.len() && #[trigger] from[p] == j;
                assert(out@[p].0@.key() == k);
            }
            assert forall|k: Seq<u8>| k.len() == 36 implies #[trigger] entry_at(self@, k) is Ok by {
                if value_at(self@, ColumnFamily::Utxo, k) is Some {
                    let j = choose|j: int| 0 <= j < pairs.len() && (#[trigger] pairs[j]).0 == k;
                    assert(pairs[j].0.len() == 36);
                }
            }
            assert forall|p: int| 0 <= p < out@.len() implies entry_at(
                self@,
                (#[trigger] out@[p]).0@.key(),
            ) == Lookup::<UtxoEntryView>::Ok(Some(out@[p].1@)) by {
                assert(0 <= from[p]);
            }
            assert forall|p: int, q: int| 0 <= p < q < out@.len() implies (
            #[trigger] out@[p]).0@.key() != (#[trigger] out@[q]).0@.key() by {
                assert(from[p] < from[q]);
                assert(pairs[from[p]].0 != pairs[from[q]].0);
            }
        }
        Ok(out)
    }
}

} // verus!
