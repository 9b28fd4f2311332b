//! The tip of the chain and the best known header.

use crate::consensus::block::U256;
use crate::primitives::bytes::{
    array32, bytes_equal, le_bytes, le_value, lemma_byte_range_values, lemma_le_bytes_len,
    lemma_le_value_of_bytes, u64_from_le, u64_to_le,
};
use crate::primitives::hash::Hash256;
use crate::primitives::serialize::views;
use crate::storage::blocks::{found, hash_value, Lookup};
use crate::storage::db::{
    apply_op, lemma_row_injective, put_op, replay, row, value_at, Batch, ColumnFamily, Database,
    RowOp, RowOpView, Rows,
};
use vstd::prelude::*;

verus! {

// Chain state keys
/// `tip_hash`
pub const KEY_TIP_HASH: [u8; 8] = [0x74, 0x69, 0x70, 0x5f, 0x68, 0x61, 0x73, 0x68];

/// `tip_height`
pub const KEY_TIP_HEIGHT: [u8; 10] = [0x74, 0x69, 0x70, 0x5f, 0x68, 0x65, 0x69, 0x67, 0x68, 0x74];

/// `cumulative_work`
pub const KEY_CUMULATIVE_WORK: [u8; 15] = [0x63, 0x75, 0x6d, 0x75, 0x6c, 0x61, 0x74, 0x69, 0x76, 0x65, 0x5f, 0x77, 0x6f, 0x72, 0x6b];

/// `best_header_hash`
pub const KEY_BEST_HEADER_HASH: [u8; 16] = [0x62, 0x65, 0x73, 0x74, 0x5f, 0x68, 0x65, 0x61, 0x64, 0x65, 0x72, 0x5f, 0x68, 0x61, 0x73, 0x68];

/// `best_header_height`
pub const KEY_BEST_HEADER_HEIGHT: [u8; 18] = [0x62, 0x65, 0x73, 0x74, 0x5f, 0x68, 0x65, 0x61, 0x64, 0x65, 0x72, 0x5f, 0x68, 0x65, 0x69, 0x67, 0x68, 0x74];

/// Chain state metadata
#[derive(Debug, Clone, Copy)]
pub struct ChainTip {
    pub hash: Hash256,
    pub height: u64,
    pub cumulative_work: U256,
}

/// What the tip of a chain stands for.
#[verifier::ext_equal]
pub struct ChainTipView {
    pub hash: Seq<u8>,
    pub height: u64,
    pub cumulative_work: nat,
}

impl View for ChainTip {
    type V = ChainTipView;

    open spec fn view(&self) -> ChainTipView {
        ChainTipView {
            hash: self.hash@,
            height: self.height,
            cumulative_work: self.cumulative_work@,
        }
    }
}

impl PartialEq for ChainTip {
    fn eq(&self, other: &ChainTip) -> (r: bool) {
        bytes_equal(&self.hash, &other.hash) && self.height == other.height && self.cumulative_work
            == other.cumulative_work
    }
}

impl vstd::std_specs::cmp::PartialEqSpecImpl for ChainTip {
    open spec fn obeys_eq_spec() -> bool {
        true
    }

    open spec fn eq_spec(&self, other: &ChainTip) -> bool {
        self@ == other@
    }
}

impl Eq for ChainTip {

}

/// The value of a key of the chain state.
pub open spec fn state_value(rows: Rows, key: Seq<u8>) -> Option<Seq<u8>> {
    value_at(rows, ColumnFamily::ChainState, key)
}

/// A height that was stored: eight bytes.
pub open spec fn height_value(v: Option<Seq<u8>>) -> Lookup<u64> {
    match v {
        None => Ok(None),
        Some(b) => if b.len() == 8 {
            Ok(Some(le_value(b) as u64))
        } else {
            Err(())
        },
    }
}

/// Work that was stored: the first 32 bytes, or zero where there are fewer.
pub open spec fn work_value(b: Seq<u8>) -> nat {
    if b.len() < 32 {
        0
    } else {
        le_value(b.take(32))
    }
}

/// The stored tip. It is there once its hash, its height and its work are.
pub open spec fn tip_at(rows: Rows) -> Lookup<ChainTipView> {
    match hash_value(state_value(rows, KEY_TIP_HASH@)) {
        Err(_) => Err(()),
        Ok(None) => Ok(None),
        Ok(Some(hash)) => match height_value(state_value(rows, KEY_TIP_HEIGHT@)) {
            Err(_) => Err(()),
            Ok(None) => Ok(None),
            Ok(Some(height)) => match state_value(rows, KEY_CUMULATIVE_WORK@) {
                None => Ok(None),
                Some(b) => Ok(
                    Some(ChainTipView { hash, height, cumulative_work: work_value(b) }),
                ),
            },
        },
    }
}

/// The stored best header, with its height.
pub open spec fn best_header_at(rows: Rows) -> Lookup<(Seq<u8>, u64)> {
    match hash_value(state_value(rows, KEY_BEST_HEADER_HASH@)) {
        Err(_) => Err(()),
        Ok(None) => Ok(None),
        Ok(Some(hash)) => match height_value(state_value(rows, KEY_BEST_HEADER_HEIGHT@)) {
            Err(_) => Err(()),
            Ok(None) => Ok(None),
            Ok(Some(height)) => Ok(Some((hash, height))),
        },
    }
}

/// The rows after a key of the chain state got a value.
pub open spec fn with_state(rows: Rows, key: Seq<u8>, value: Seq<u8>) -> Rows {
    rows.insert(row(ColumnFamily::ChainState, key), value)
}

/// The rows after the tip was set.
pub open spec fn with_tip(rows: Rows, tip: ChainTipView) -> Rows {
    with_state(
        with_state(
            with_state(rows, KEY_TIP_HASH@, tip.hash),
            KEY_TIP_HEIGHT@,
            le_bytes(tip.height as nat, 8),
        ),
        KEY_CUMULATIVE_WORK@,
        le_bytes(tip.cumulative_work, 32),
    )
}

/// The rows after the best header was set.
pub open spec fn with_best_header(rows: Rows, hash: Seq<u8>, height: u64) -> Rows {
    with_state(
        with_state(rows, KEY_BEST_HEADER_HASH@, hash),
        KEY_BEST_HEADER_HEIGHT@,
        le_bytes(height as nat, 8),
    )
}

proof fn lemma_replay_push(rows: Rows, ops: Seq<RowOpView>, op: RowOpView)
    ensures
        replay(rows, ops.push(op)) == apply_op(replay(rows, ops), op),
{
    assert(ops.push(op).drop_last() =~= ops);
}

/// The keys of the chain state are all different.
pub proof fn lemma_state_keys_differ()
    ensures
        KEY_TIP_HASH@.len() == 8,
        KEY_TIP_HEIGHT@.len() == 10,
        KEY_CUMULATIVE_WORK@.len() == 15,
        KEY_BEST_HEADER_HASH@.len() == 16,
        KEY_BEST_HEADER_HEIGHT@.len() == 18,
{
}

/// A tip that was set is the tip that is found.
pub proof fn lemma_tip_reads_back(rows: Rows, tip: ChainTip)
    ensures
        tip_at(with_tip(rows, tip@)) == Lookup::<ChainTipView>::Ok(Some(tip@)),
        best_header_at(with_tip(rows, tip@)) == best_header_at(rows),
{
    broadcast use lemma_row_injective;

    lemma_state_keys_differ();
    lemma_le_bytes_len(tip.height as nat, 8);
    lemma_le_bytes_len(tip.cumulative_work@, 32);
    lemma_byte_range_values();
    lemma_le_value_of_bytes(tip.height as nat, 8);
    crate::consensus::u256::lemma_u256_bound(tip.cumulative_work);
    lemma_le_value_of_bytes(tip.cumulative_work@, 32);
    let w = le_bytes(tip.cumulative_work@, 32);
    assert(w.take(32) =~= w);
}

/// A best header that was set is the one that is found, and the tip stays.
pub proof fn lemma_best_header_reads_back(rows: Rows, hash: Hash256, height: u64)
    ensures
        best_header_at(with_best_header(rows, hash@, height)) == Lookup::<(Seq<u8>, u64)>::Ok(
            Some((hash@, height)),
        ),
        tip_at(with_best_header(rows, hash@, height)) == tip_at(rows),
{
    broadcast use lemma_row_injective;

    lemma_state_keys_differ();
    lemma_le_bytes_len(height as nat, 8);
    lemma_byte_range_values();
    lemma_le_value_of_bytes(height as nat, 8);
}

/// Chain state storage interface
pub struct ChainStateStore {
    db: Database,
}

impl View for ChainStateStore {
    type V = Rows;

    closed spec fn view(&self) -> Rows {
        self.db@
    }
}

impl ChainStateStore {
    pub fn new(db: Database) -> (r: Self)
        ensures
            r@ == db@,
            r.saved() == db.saved(),
    {
        ChainStateStore { db }
    }

    /// The rows when they were last saved.
    pub closed spec fn saved(self) -> Rows {
        self.db.saved()
    }

    /// What was written since it was last saved.
    pub fn journal(&self) -> (ops: &Vec<RowOp>)
        ensures
            replay(self.saved(), views(ops@)) == self@,
    {
        self.db.journal()
    }

    /// Counts what was written as saved.
    pub fn mark_saved(&mut self)
        ensures
            final(self)@ == old(self)@,
            final(self).saved() == old(self)@,
    {
        self.db.mark_saved()
    }

    fn hash_of(&self, key: &[u8]) -> (r: Result<Option<Hash256>, String>)
        ensures
            found(r, hash_value(state_value(self@, key@))),
    {
        match self.db.get(ColumnFamily::ChainState, key) {
            Some(h) => {
                if h.len() != 32 {
                    return Err("Invalid hash length".to_owned());
                }
                let hash = array32(h);
                assert(hash@ =~= h@);
                Ok(Some(hash))
            },
            None => Ok(None),
        }
    }

    fn height_of(&self, key: &[u8]) -> (r: Result<Option<u64>, String>)
        ensures
            found(r, height_value(state_value(self@, key@))),
    {
        match self.db.get(ColumnFamily::ChainState, key) {
            Some(h) => {
                if h.len() != 8 {
                    return Err("Invalid height".to_owned());
                }
                assert(h@.take(8) =~= h@);
                Ok(Some(u64_from_le(h)))
            },
            None => Ok(None),
        }
    }

    /// Get current chain tip
    pub fn get_tip(&self) -> (r: Result<Option<ChainTip>, String>)
        ensures
            found(r, tip_at(self@)),
    {
        let hash = match self.hash_of(&KEY_TIP_HASH) {
            Ok(Some(h)) => h,
            Ok(None) => return Ok(None),
            Err(e) => return Err(e),
        };
        let height: u64 = match self.height_of(&KEY_TIP_HEIGHT) {
            Ok(Some(h)) => h,
            Ok(None) => return Ok(None),
            Err(e) => return Err(e),
        };
        let cumulative_work = match self.db.get(ColumnFamily::ChainState, &KEY_CUMULATIVE_WORK) {
            Some(w) => U256::from_bytes_le(w),
            None => return Ok(None),
        };
        Ok(Some(ChainTip { hash, height, cumulative_work }))
    }

    /// Set chain tip (atomic)
    pub fn set_tip(&mut self, tip: &ChainTip) -> (r: Result<(), String>)
        ensures
            r is Ok,
            final(self)@ == with_tip(old(self)@, tip@),
            final(self).saved() == old(self).saved(),
    {
        let mut batch = Batch::new();
        batch.put(ColumnFamily::ChainState, &KEY_TIP_HASH, &tip.hash);
        let ghost ops1 = batch@;
        batch.put(ColumnFamily::ChainState, &KEY_TIP_HEIGHT, &u64_to_le(tip.height));
        let ghost ops2 = batch@;
        batch.put(
            ColumnFamily::ChainState,
            &KEY_CUMULATIVE_WORK,
            &tip.cumulative_work.to_bytes_le(),
        );
        proof {
            let cf = ColumnFamily::ChainState;
            let rows = self@;
            let none = Seq::<RowOpView>::empty();
            lemma_replay_push(rows, none, put_op(cf, KEY_TIP_HASH@, tip.hash@));
            lemma_replay_push(
                rows,
                ops1,
                put_op(cf, KEY_TIP_HEIGHT@, le_bytes(tip.height as nat, 8)),
            );
            lemma_replay_push(
                rows,
                ops2,
                put_op(cf, KEY_CUMULATIVE_WORK@, le_bytes(tip.cumulative_work@, 32)),
            );
        }
        self.db.commit(batch)
    }

    /// Get best header (for headers-first sync)
    pub fn get_best_header(&self) -> (r: Result<Option<(Hash256, u64)>, String>)
        ensures
            found(r, best_header_at(self@)),
    {
        let hash = match self.hash_of(&KEY_BEST_HEADER_HASH) {
            Ok(Some(h)) => h,
            Ok(None) => return Ok(None),
            Err(e) => return Err(e),
        };
        let height: u64 = match self.height_of(&KEY_BEST_HEADER_HEIGHT) {
            Ok(Some(h)) => h,
            Ok(None) => return Ok(None),
            Err(e) => return Err(e),
        };
        Ok(Some((hash, height)))
    }

    /// Set best header (atomic)
    pub fn set_best_header(&mut self, hash: &Hash256, height: u64) -> (r: Result<(), String>)
        ensures
            r is Ok,
            final(self)@ == with_best_header(old(self)@, hash@, height),
            final(self).saved() == old(self).saved(),
    {
        let mut batch = Batch::new();
        batch.put(ColumnFamily::ChainState, &KEY_BEST_HEADER_HASH, hash);
        let ghost ops1 = batch@;
        batch.put(ColumnFamily::ChainState, &KEY_BEST_HEADER_HEIGHT, &u64_to_le(height));
        proof {
            let cf = ColumnFamily::ChainState;
            let rows = self@;
            let none = Seq::<RowOpView>::empty();
            lemma_replay_push(rows, none, put_op(cf, KEY_BEST_HEADER_HASH@, hash@));
            lemma_replay_push(
                rows,
                ops1,
                put_op(cf, KEY_BEST_HEADER_HEIGHT@, le_bytes(height as nat, 8)),
            );
        }
        self.db.commit(batch)
    }

    /// Stores the best header.
    pub fn store_best_header(&mut self, height: u32, hash: &[u8; 32]) -> (r: Result<(), String>)
        ensures
            r is Ok,
            final(self)@ == with_best_header(old(self)@, hash@, height as u64),
            final(self).saved() == old(self).saved(),
    {
        self.set_best_header(hash, height as u64)
    }

    /// Loads the best header. Of its height, the lower 32 bits.
    pub fn load_best_header(&self) -> (r: Result<Option<(u32, [u8; 32])>, String>)
        ensures
            match r {
                Ok(Some((height, hash))) => best_header_at(self@) matches Ok(Some((h, n))) && hash@
                    == h && height == n as u32,
                Ok(None) => best_header_at(self@) == Lookup::<(Seq<u8>, u64)>::Ok(None),
                Err(_) => best_header_at(self@) is Err,
            },
    {
        match self.get_best_header() {
            Ok(Some((hash, height))) => Ok(Some((height as u32, hash))),
            Ok(None) => Ok(None),
            Err(e) => Err(e),
        }
    }

    /// Update tip with reorg information (atomic). Where the old tip is given, it
    /// has to be the current one.
    pub fn update_tip_with_reorg(&mut self, new_tip: &ChainTip, old_tip: Option<&ChainTip>) -> (r:
        Result<(), String>)
        ensures
            ({
                let agreed = match old_tip {
                    None => true,
                    Some(t) => tip_at(old(self)@) == Lookup::<ChainTipView>::Ok(Some(t@)),
                };
                &&& r is Ok <==> agreed
                &&& agreed ==> final(self)@ == with_tip(old(self)@, new_tip@)
                &&& !agreed ==> final(self)@ == old(self)@
            }),
            final(self).saved() == old(self).saved(),
    {
        // Verify old tip matches if provided (safety check)
        if let Some(old) = old_tip {
            match self.get_tip() {
                Ok(Some(current)) => {
                    if current != *old {
                        return Err(
                            "Tip mismatch: expected old tip doesn't match current".to_owned(),
                        );
                    }
                },
                Ok(None) => {
                    return Err("Tip mismatch: expected old tip doesn't match current".to_owned());
                },
                Err(e) => return Err(e),
            }
        }
        self.set_tip(new_tip)
    }

    /// Clear all chain state (dangerous, for testing/reset only)
    pub fn clear(&mut self) -> (r: Result<(), String>)
        ensures
            r is Ok,
            final(self)@ == old(self)@.remove(row(ColumnFamily::ChainState, KEY_TIP_HASH@)).remove(
                row(ColumnFamily::ChainState, KEY_TIP_HEIGHT@),
            ).remove(row(ColumnFamily::ChainState, KEY_CUMULATIVE_WORK@)).remove(
                row(ColumnFamily::ChainState, KEY_BEST_HEADER_HASH@),
            ).remove(row(ColumnFamily::ChainState, KEY_BEST_HEADER_HEIGHT@)),
            tip_at(final(self)@) == Lookup::<ChainTipView>::Ok(None),
            best_header_at(final(self)@) == Lookup::<(Seq<u8>, u64)>::Ok(None),
            final(self).saved() == old(self).saved(),
    {
        broadcast use lemma_row_injective;

        let _ = self.db.delete(ColumnFamily::ChainState, &KEY_TIP_HASH);
        let _ = self.db.delete(ColumnFamily::ChainState, &KEY_TIP_HEIGHT);
        let _ = self.db.delete(ColumnFamily::ChainState, &KEY_CUMULATIVE_WORK);
        let _ = self.db.delete(ColumnFamily::ChainState, &KEY_BEST_HEADER_HASH);
        self.db.delete(ColumnFamily::ChainState, &KEY_BEST_HEADER_HEIGHT)
    }

    /// Check if chain is initialized (has tip)
    pub fn is_initialized(&self) -> (r: Result<bool, String>)
        ensures
            match r {
                Ok(b) => tip_at(self@) is Ok && b == tip_at(self@)->Ok_0 is Some,
                Err(_) => tip_at(self@) is Err,
            },
    {
        match self.get_tip() {
            Ok(tip) => Ok(tip.is_some()),
            Err(e) => Err(e),
        }
    }

    /// Get tip height only (optimized)
    pub fn get_tip_height(&self) -> (r: Result<Option<u64>, String>)
        ensures
            found(r, height_value(state_value(self@, KEY_TIP_HEIGHT@))),
    {
        self.height_of(&KEY_TIP_HEIGHT)
    }

    /// Get tip hash only (optimized)
    pub fn get_tip_hash(&self) -> (r: Result<Option<Hash256>, String>)
        ensures
            found(r, hash_value(state_value(self@, KEY_TIP_HASH@))),
    {
        self.hash_of(&KEY_TIP_HASH)
    }
}

} // verus!
