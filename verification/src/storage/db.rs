//! A key-value store with column families, held in memory, that remembers what
//! was written since it was last saved.

use crate::collections::byte_map::ByteMap;
use crate::primitives::bytes::{append_bytes, tail_from};
use crate::primitives::serialize::views;
use vstd::prelude::*;

verus! {

/// The kinds of rows.
#[derive(Debug, Clone, Copy, PartialEq, Eq, Structural)]
pub enum ColumnFamily {
    /// Blocks by hash.
    Blocks,
    /// Headers by hash, and header hashes by height.
    Headers,
    /// Hashes of the active chain by height.
    BlockIndex,
    /// Height and work of blocks by hash.
    BlockMeta,
    /// The tip of the chain.
    ChainState,
    /// Unspent outputs by outpoint.
    Utxo,
    /// What a block spent, by block hash.
    Undo,
}

/// The first byte of the rows of a family.
pub open spec fn family_tag(cf: ColumnFamily) -> u8 {
    match cf {
        ColumnFamily::Blocks => 1,
        ColumnFamily::Headers => 2,
        ColumnFamily::BlockIndex => 3,
        ColumnFamily::BlockMeta => 4,
        ColumnFamily::ChainState => 5,
        ColumnFamily::Utxo => 6,
        ColumnFamily::Undo => 7,
    }
}

impl ColumnFamily {
    /// The first byte of the rows of the family.
    pub fn tag(self) -> (t: u8)
        ensures
            t == family_tag(self),
    {
        match self {
            ColumnFamily::Blocks => 1,
            ColumnFamily::Headers => 2,
            ColumnFamily::BlockIndex => 3,
            ColumnFamily::BlockMeta => 4,
            ColumnFamily::ChainState => 5,
            ColumnFamily::Utxo => 6,
            ColumnFamily::Undo => 7,
        }
    }
}

/// The rows of a store.
pub type Rows = Map<Seq<u8>, Seq<u8>>;

/// The row of a key of a family.
pub open spec fn row(cf: ColumnFamily, key: Seq<u8>) -> Seq<u8> {
    seq![family_tag(cf)] + key
}

/// The value of a key of a family.
pub open spec fn value_at(rows: Rows, cf: ColumnFamily, key: Seq<u8>) -> Option<Seq<u8>> {
    if rows.contains_key(row(cf, key)) {
        Some(rows[row(cf, key)])
    } else {
        None
    }
}

/// Rows of different families, or of different keys, are different.
pub broadcast proof fn lemma_row_injective(
    a: ColumnFamily,
    x: Seq<u8>,
    b: ColumnFamily,
    y: Seq<u8>,
)
    ensures
        #![trigger row(a, x), row(b, y)]
        row(a, x) == row(b, y) <==> a == b && x == y,
{
    if row(a, x) == row(b, y) {
        assert(row(a, x)[0] == row(b, y)[0]);
        assert(x =~= row(a, x).skip(1));
        assert(y =~= row(b, y).skip(1));
    }
}

/// A change of one row: its new value, or its removal.
#[derive(Debug)]
pub struct RowOp {
    pub row: Vec<u8>,
    pub value: Option<Vec<u8>>,
}

/// What a change of a row stands for.
#[verifier::ext_equal]
pub struct RowOpView {
    pub row: Seq<u8>,
    pub value: Option<Seq<u8>>,
}

impl View for RowOp {
    type V = RowOpView;

    open spec fn view(&self) -> RowOpView {
        RowOpView {
            row: self.row@,
            value: match self.value {
                Some(v) => Some(v@),
                None => None,
            },
        }
    }
}

impl Clone for RowOp {
    fn clone(&self) -> (r: Self)
        ensures
            r@ == self@,
    {
        let row = self.row.clone();
        assert(row@ =~= self.row@);
        let value = match &self.value {
            Some(v) => {
                let copy = v.clone();
                assert(copy@ =~= v@);
                Some(copy)
            },
            None => None,
        };
        RowOp { row, value }
    }
}

/// A row set after one change.
pub open spec fn apply_op(rows: Rows, op: RowOpView) -> Rows {
    match op.value {
        Some(v) => rows.insert(op.row, v),
        None => rows.remove(op.row),
    }
}

/// A row set after a sequence of changes.
pub open spec fn replay(rows: Rows, ops: Seq<RowOpView>) -> Rows
    decreases ops.len(),
{
    if ops.len() == 0 {
        rows
    } else {
        apply_op(replay(rows, ops.drop_last()), ops.last())
    }
}

/// Changes that are made in one step are those of the first part, then those of
/// the second.
pub proof fn lemma_replay_concat(rows: Rows, a: Seq<RowOpView>, b: Seq<RowOpView>)
    ensures
        replay(rows, a + b) == replay(replay(rows, a), b),
    decreases b.len(),
{
    if b.len() == 0 {
        assert(a + b =~= a);
    } else {
        assert((a + b).drop_last() =~= a + b.drop_last());
        lemma_replay_concat(rows, a, b.drop_last());
    }
}

/// Changes that are to be made together.
pub struct Batch {
    pub ops: Vec<RowOp>,
}

impl View for Batch {
    type V = Seq<RowOpView>;

    open spec fn view(&self) -> Seq<RowOpView> {
        views(self.ops@)
    }
}

fn row_key(cf: ColumnFamily, key: &[u8]) -> (r: Vec<u8>)
    ensures
        r@ == row(cf, key@),
{
    let mut r: Vec<u8> = Vec::new();
    r.push(cf.tag());
    append_bytes(&mut r, key);
    assert(r@ =~= row(cf, key@));
    r
}

/// The change that gives a key a value.
pub open spec fn put_op(cf: ColumnFamily, key: Seq<u8>, value: Seq<u8>) -> RowOpView {
    RowOpView { row: row(cf, key), value: Some(value) }
}

/// The change that removes a key.
pub open spec fn delete_op(cf: ColumnFamily, key: Seq<u8>) -> RowOpView {
    RowOpView { row: row(cf, key), value: None }
}

impl Batch {
    pub fn new() -> (r: Self)
        ensures
            r@ == Seq::<RowOpView>::empty(),
    {
        let r = Batch { ops: Vec::new() };
        assert(r@ =~= Seq::<RowOpView>::empty());
        r
    }

    pub fn put(&mut self, cf: ColumnFamily, key: &[u8], value: &[u8])
        ensures
            final(self)@ == old(self)@.push(put_op(cf, key@, value@)),
    {
        let op = RowOp {
            row: row_key(cf, key),
            value: Some(vstd::slice::slice_to_vec(value)),
        };
        assert(op@ == put_op(cf, key@, value@));
        self.ops.push(op);
        assert(self@ =~= old(self)@.push(put_op(cf, key@, value@)));
    }

    pub fn delete(&mut self, cf: ColumnFamily, key: &[u8])
        ensures
            final(self)@ == old(self)@.push(delete_op(cf, key@)),
    {
        let op = RowOp { row: row_key(cf, key), value: None };
        assert(op@ == delete_op(cf, key@));
        self.ops.push(op);
        assert(self@ =~= old(self)@.push(delete_op(cf, key@)));
    }
}

/// Number of buckets that the rows are spread over.
const ROW_BUCKETS: usize = 16384;

/// Rows, with the changes since they were last saved.
struct Journaled {
    rows: ByteMap<Vec<u8>>,
    journal: Vec<RowOp>,
    saved: Ghost<Rows>,
}

impl Journaled {
    /// The changes lead from the saved rows to the present ones.
    spec fn consistent(self) -> bool {
        self.rows@ == replay(self.saved@, views(self.journal@))
    }

    fn empty(buckets: usize) -> (r: Self)
        requires
            buckets > 0,
        ensures
            r.consistent(),
            r.rows@ == Rows::empty(),
            r.saved@ == Rows::empty(),
    {
        let r = Journaled {
            rows: ByteMap::with_buckets(buckets),
            journal: Vec::new(),
            saved: Ghost(Rows::empty()),
        };
        assert(views(r.journal@) =~= Seq::<RowOpView>::empty());
        r
    }

    fn apply(&mut self, op: RowOp)
        requires
            old(self).consistent(),
        ensures
            final(self).consistent(),
            final(self).rows@ == apply_op(old(self).rows@, op@),
            final(self).saved@ == old(self).saved@,
    {
        let ghost before = views(self.journal@);
        let kept = op.clone();
        match op.value {
            Some(v) => {
                let _ = self.rows.insert(op.row, v);
            },
            None => {
                let _ = self.rows.remove(&op.row);
            },
        }
        self.journal.push(kept);
        proof {
            assert(views(self.journal@) =~= before.push(op@));
            assert(before.push(op@).drop_last() =~= before);
        }
    }
}

/// A key-value store with column families.
pub struct Database {
    inner: Journaled,
}

impl View for Database {
    type V = Rows;

    closed spec fn view(&self) -> Rows {
        self.inner.rows@
    }
}

impl Database {
    #[verifier::type_invariant]
    spec fn inner_consistent(self) -> bool {
        self.inner.consistent()
    }

    /// The rows when they were last saved.
    pub closed spec fn saved(self) -> Rows {
        self.inner.saved@
    }

    /// A store without rows.
    pub fn new() -> (r: Self)
        ensures
            r@ == Rows::empty(),
            r.saved() == Rows::empty(),
    {
        Database { inner: Journaled::empty(ROW_BUCKETS) }
    }

    /// A store that holds what a sequence of saved changes leads to.
    pub fn restore(ops: Vec<RowOp>) -> (r: Self)
        ensures
            r@ == replay(Rows::empty(), views(ops@)),
            r.saved() == r@,
    {
        let ghost all = views(ops@);
        let mut db = Database::new();
        let mut i: usize = 0;
        assert(all.take(0) =~= Seq::<RowOpView>::empty());
        while i < ops.len()
            invariant
                i <= ops.len(),
                all == views(ops@),
                db@ == replay(Rows::empty(), all.take(i as int)),
            decreases ops.len() - i,
        {
            let op = ops[i].clone();
            proof {
                assert(all.take(i + 1).drop_last() =~= all.take(i as int));
                assert(op@ == all[i as int]);
            }
            db.write(op);
            i += 1;
        }
        assert(all.take(i as int) =~= all);
        db.mark_saved();
        db
    }

    /// The changes since the rows were last saved.
    pub fn journal(&self) -> (ops: &Vec<RowOp>)
        ensures
            replay(self.saved(), views(ops@)) == self@,
    {
        proof {
            use_type_invariant(self);
        }
        &self.inner.journal
    }

    /// Counts the changes as saved.
    pub fn mark_saved(&mut self)
        ensures
            final(self)@ == old(self)@,
            final(self).saved() == old(self)@,
    {
        let mut inner = Journaled::empty(1);
        core::mem::swap(&mut self.inner, &mut inner);
        inner.journal = Vec::new();
        inner.saved = Ghost(inner.rows@);
        assert(views(inner.journal@) =~= Seq::<RowOpView>::empty());
        core::mem::swap(&mut self.inner, &mut inner);
    }

    /// Makes one change.
    pub fn write(&mut self, op: RowOp)
        ensures
            final(self)@ == apply_op(old(self)@, op@),
            final(self).saved() == old(self).saved(),
    {
        proof {
            use_type_invariant(&*self);
        }
        let mut inner = Journaled::empty(1);
        core::mem::swap(&mut self.inner, &mut inner);
        inner.apply(op);
        core::mem::swap(&mut self.inner, &mut inner);
    }

    /// The value of a key.
    pub fn get(&self, cf: ColumnFamily, key: &[u8]) -> (r: Option<&Vec<u8>>)
        ensures
            match r {
                Some(v) => value_at(self@, cf, key@) == Some(v@),
                None => value_at(self@, cf, key@) is None,
            },
    {
        self.inner.rows.get(&row_key(cf, key))
    }

    /// Gives a key a value.
    pub fn put(&mut self, cf: ColumnFamily, key: &[u8], value: &[u8]) -> (r: Result<(), String>)
        ensures
            r is Ok,
            final(self)@ == old(self)@.insert(row(cf, key@), value@),
            final(self).saved() == old(self).saved(),
    {
        let op = RowOp {
            row: row_key(cf, key),
            value: Some(vstd::slice::slice_to_vec(value)),
        };
        assert(op@ == put_op(cf, key@, value@));
        self.write(op);
        Ok(())
    }

    /// Removes a key.
    pub fn delete(&mut self, cf: ColumnFamily, key: &[u8]) -> (r: Result<(), String>)
        ensures
            r is Ok,
            final(self)@ == old(self)@.remove(row(cf, key@)),
            final(self).saved() == old(self).saved(),
    {
        let op = RowOp { row: row_key(cf, key), value: None };
        assert(op@ == delete_op(cf, key@));
        self.write(op);
        Ok(())
    }

    /// Makes the changes of a batch, in their order.
    pub fn commit(&mut self, batch: Batch) -> (r: Result<(), String>)
        ensures
            r is Ok,
            final(self)@ == replay(old(self)@, batch@),
            final(self).saved() == old(self).saved(),
    {
        let ghost all = batch@;
        let ghost start = self@;
        let mut i: usize = 0;
        assert(all.take(0) =~= Seq::<RowOpView>::empty());
        while i < batch.ops.len()
            invariant
                i <= batch.ops.len(),
                all == views(batch.ops@),
                self@ == replay(start, all.take(i as int)),
                self.saved() == old(self).saved(),
            decreases batch.ops.len() - i,
        {
            let op = batch.ops[i].clone();
            proof {
                assert(all.take(i + 1).drop_last() =~= all.take(i as int));
                assert(op@ == all[i as int]);
            }
            self.write(op);
            i += 1;
        }
        assert(all.take(i as int) =~= all);
        Ok(())
    }

    /// The keys of a family with their values, each key once.
    pub fn iter(&self, cf: ColumnFamily) -> (out: Vec<(Vec<u8>, Vec<u8>)>)
        ensures
            lists_family(views(out@), self@, cf),
    {
        let rows = self.inner.rows.keys();
        let tag: u8 = cf.tag();
        let mut out: Vec<(Vec<u8>, Vec<u8>)> = Vec::new();
        let mut i: usize = 0;
        let ghost all = views(rows@);
        let ghost mut from: Seq<int> = Seq::empty();
        while i < rows.len()
            invariant
                i <= rows.len(),
                tag == family_tag(cf),
                all == views(rows@),
                all.no_duplicates(),
                forall|k: Seq<u8>|
                    #![trigger self@.contains_key(k)]
                    self@.contains_key(k) <==> all.contains(k),
                from.len() == out.len(),
                forall|p: int|
                    0 <= p < out.len() ==> 0 <= #[trigger] from[p] < i && all[from[p]] == row(
                        cf,
                        out[p].0@,
                    ) && value_at(self@, cf, out[p].0@) == Some(out[p].1@),
                forall|p: int, q: int| 0 <= p < q < out.len() ==> from[p] < from[q],
                forall|j: int|
                    0 <= j < i && (#[trigger] all[j]).len() > 0 && all[j][0] == tag ==> exists|
                        p: int,
                    |
                        0 <= p < out.len() && #[trigger] from[p] == j,
            decreases rows.len() - i,
        {
            let r = &rows[i];
            assert(all[i as int] == r@);
            if r.len() > 0 && r[0] == tag {
                let key = vstd::slice::slice_to_vec(tail_from(r, 1));
                assert(row(cf, key@) =~= r@);
                assert(all.contains(all[i as int]));
                assert(self@.contains_key(r@));
                let value = match self.get(cf, &key) {
                    Some(v) => {
                        let copy = v.clone();
                        assert(copy@ =~= v@);
                        copy
                    },
                    None => Vec::new(),
                };
                let ghost old_out = out@;
                let ghost old_from = from;
                out.push((key, value));
                proof {
                    from = from.push(i as int);
                    assert forall|j: int|
                        0 <= j < i + 1 && (#[trigger] all[j]).len() > 0 && all[j][0]
                            == tag implies exists|p: int|
                        0 <= p < out.len() && #[trigger] from[p] == j by {
                        if j < i {
                            let p = choose|p: int|
                                0 <= p < old_out.len() && #[trigger] old_from[p] == j;
                            assert(from[p] == j);
                        } else {
                            assert(from[old_out.len() as int] == j);
                        }
                    }
                }
            }
            i += 1;
        }
        proof {
            let pairs = views(out@);
            assert forall|p: int, q: int| 0 <= p < q < pairs.len() implies (#[trigger] pairs[p]).0
                != (#[trigger] pairs[q]).0 by {
                assert(all[from[p]] != all[from[q]]);
            }
            assert forall|k: Seq<u8>| value_at(self@, cf, k) is Some implies exists|p: int|
                0 <= p < pairs.len() && (#[trigger] pairs[p]).0 == k by {
                assert(self@.contains_key(row(cf, k)));
                let j = choose|j: int| 0 <= j < all.len() && all[j] == row(cf, k);
                assert(all[j].len() > 0 && all[j][0] == tag);
                let p = choose|p: int| 0 <= p < out.len() && #[trigger] from[p] == j;
                lemma_row_injective(cf, k, cf, out[p].0@);
                assert(pairs[p].0 == k);
            }
            assert forall|p: int| 0 <= p < pairs.len() implies value_at(
                self@,
                cf,
                (#[trigger] pairs[p]).0,
            ) == Some(pairs[p].1) by {
                assert(0 <= from[p]);
            }
        }
        out
    }
}

/// A list holds the keys of a family with their values, each key once.
pub open spec fn lists_family(
    pairs: Seq<(Seq<u8>, Seq<u8>)>,
    rows: Rows,
    cf: ColumnFamily,
) -> bool {
    &&& forall|p: int|
        0 <= p < pairs.len() ==> value_at(rows, cf, (#[trigger] pairs[p]).0) == Some(pairs[p].1)
    &&& forall|k: Seq<u8>|
        #![trigger value_at(rows, cf, k)]
        value_at(rows, cf, k) is Some ==> exists|p: int|
            0 <= p < pairs.len() && (#[trigger] pairs[p]).0 == k
    &&& forall|p: int, q: int|
        0 <= p < q < pairs.len() ==> (#[trigger] pairs[p]).0 != (#[trigger] pairs[q]).0
}

} // verus!
