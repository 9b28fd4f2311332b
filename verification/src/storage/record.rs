//! The byte form of stored values.
//!
//! Values are handed to `bincode` as nested pairs and vectors. Its format is
//! fields one behind the other: integers little-endian in their full width, a
//! `bool` as one byte, an array without a length, and a vector as its length in
//! eight bytes followed by its elements.

use crate::primitives::bytes::{
    byte_range, le_bytes, lemma_byte_range_values, lemma_le_bytes_len, lemma_le_value_of_bytes,
};
use vstd::prelude::*;

verus! {

/// Types whose values can be written as records.
pub trait Record: DeepView {
    /// The bytes of a value.
    spec fn record(v: Self::V) -> Seq<u8>;

    /// Models that belong to a value of the type.
    spec fn shaped(v: Self::V) -> bool;

    /// The model of a value is one that belongs to a value.
    proof fn lemma_shaped(&self)
        ensures
            Self::shaped(self.deep_view()),
    ;

    /// No record is the beginning of another.
    proof fn lemma_prefix_free(a: Self::V, b: Self::V, x: Seq<u8>, y: Seq<u8>)
        requires
            Self::shaped(a),
            Self::shaped(b),
            Self::record(a) + x == Self::record(b) + y,
        ensures
            a == b,
            x == y,
    ;
}

/// Whether a byte sequence begins with the record of a value.
pub open spec fn reads_as<T: Record>(bytes: Seq<u8>, v: T::V) -> bool {
    T::shaped(v) && T::record(v).len() <= bytes.len() && bytes.take(T::record(v).len() as int)
        == T::record(v)
}

/// A byte sequence reads as one value at most.
pub proof fn lemma_reads_as_unique<T: Record>(bytes: Seq<u8>, a: T::V, b: T::V)
    requires
        reads_as::<T>(bytes, a),
        reads_as::<T>(bytes, b),
    ensures
        a == b,
{
    let x = bytes.skip(T::record(a).len() as int);
    let y = bytes.skip(T::record(b).len() as int);
    assert(T::record(a) + x =~= bytes);
    assert(T::record(b) + y =~= bytes);
    T::lemma_prefix_free(a, b, x, y);
}

/// The record of a value reads as that value.
pub proof fn lemma_record_reads_back<T: Record>(v: T::V)
    requires
        T::shaped(v),
    ensures
        reads_as::<T>(T::record(v), v),
{
    assert(T::record(v).take(T::record(v).len() as int) =~= T::record(v));
}

proof fn lemma_concat_cancel(a: Seq<u8>, b: Seq<u8>, x: Seq<u8>, y: Seq<u8>)
    requires
        a.len() == b.len(),
        a + x == b + y,
    ensures
        a == b,
        x == y,
{
    assert(a =~= (a + x).take(a.len() as int));
    assert(b =~= (b + y).take(b.len() as int));
    assert(x =~= (a + x).skip(a.len() as int));
    assert(y =~= (b + y).skip(b.len() as int));
}

proof fn lemma_le_bytes_injective(a: nat, b: nat, n: nat)
    requires
        a < byte_range(n),
        b < byte_range(n),
        le_bytes(a, n) == le_bytes(b, n),
    ensures
        a == b,
{
    lemma_le_value_of_bytes(a, n);
    lemma_le_value_of_bytes(b, n);
}

impl Record for u8 {
    open spec fn record(v: u8) -> Seq<u8> {
        seq![v]
    }

    open spec fn shaped(v: u8) -> bool {
        true
    }

    proof fn lemma_shaped(&self) {
    }

    proof fn lemma_prefix_free(a: u8, b: u8, x: Seq<u8>, y: Seq<u8>) {
        lemma_concat_cancel(seq![a], seq![b], x, y);
        assert(seq![a][0] == seq![b][0]);
    }
}

impl Record for bool {
    open spec fn record(v: bool) -> Seq<u8> {
        seq![if v { 1u8 } else { 0u8 }]
    }

    open spec fn shaped(v: bool) -> bool {
        true
    }

    proof fn lemma_shaped(&self) {
    }

    proof fn lemma_prefix_free(a: bool, b: bool, x: Seq<u8>, y: Seq<u8>) {
        lemma_concat_cancel(Self::record(a), Self::record(b), x, y);
        assert(Self::record(a)[0] == Self::record(b)[0]);
    }
}

impl Record for u32 {
    open spec fn record(v: u32) -> Seq<u8> {
        le_bytes(v as nat, 4)
    }

    open spec fn shaped(v: u32) -> bool {
        true
    }

    proof fn lemma_shaped(&self) {
    }

    proof fn lemma_prefix_free(a: u32, b: u32, x: Seq<u8>, y: Seq<u8>) {
        lemma_le_bytes_len(a as nat, 4);
        lemma_le_bytes_len(b as nat, 4);
        lemma_concat_cancel(Self::record(a), Self::record(b), x, y);
        lemma_byte_range_values();
        lemma_le_bytes_injective(a as nat, b as nat, 4);
    }
}

impl Record for u64 {
    open spec fn record(v: u64) -> Seq<u8> {
        le_bytes(v as nat, 8)
    }

    open spec fn shaped(v: u64) -> bool {
        true
    }

    proof fn lemma_shaped(&self) {
    }

    proof fn lemma_prefix_free(a: u64, b: u64, x: Seq<u8>, y: Seq<u8>) {
        lemma_le_bytes_len(a as nat, 8);
        lemma_le_bytes_len(b as nat, 8);
        lemma_concat_cancel(Self::record(a), Self::record(b), x, y);
        lemma_byte_range_values();
        lemma_le_bytes_injective(a as nat, b as nat, 8);
    }
}

impl Record for [u8; 32] {
    open spec fn record(v: Seq<u8>) -> Seq<u8> {
        v
    }

    open spec fn shaped(v: Seq<u8>) -> bool {
        v.len() == 32
    }

    proof fn lemma_shaped(&self) {
    }

    proof fn lemma_prefix_free(a: Seq<u8>, b: Seq<u8>, x: Seq<u8>, y: Seq<u8>) {
        lemma_concat_cancel(a, b, x, y);
    }
}

impl<A: Record, B: Record> Record for (A, B) {
    open spec fn record(v: (A::V, B::V)) -> Seq<u8> {
        A::record(v.0) + B::record(v.1)
    }

    open spec fn shaped(v: (A::V, B::V)) -> bool {
        A::shaped(v.0) && B::shaped(v.1)
    }

    proof fn lemma_shaped(&self) {
        self.0.lemma_shaped();
        self.1.lemma_shaped();
    }

    proof fn lemma_prefix_free(a: (A::V, B::V), b: (A::V, B::V), x: Seq<u8>, y: Seq<u8>) {
        let x1 = B::record(a.1) + x;
        let y1 = B::record(b.1) + y;
        assert(Self::record(a) + x =~= A::record(a.0) + x1);
        assert(Self::record(b) + y =~= A::record(b.0) + y1);
        A::lemma_prefix_free(a.0, b.0, x1, y1);
        B::lemma_prefix_free(a.1, b.1, x, y);
    }
}

/// The records of the elements of a sequence, one behind the other.
pub open spec fn item_records<T: Record>(s: Seq<T::V>) -> Seq<u8>
    decreases s.len(),
{
    if s.len() == 0 {
        Seq::empty()
    } else {
        T::record(s[0]) + item_records::<T>(s.skip(1))
    }
}

proof fn lemma_items_prefix_free<T: Record>(a: Seq<T::V>, b: Seq<T::V>, x: Seq<u8>, y: Seq<u8>)
    requires
        a.len() == b.len(),
        forall|i: int| 0 <= i < a.len() ==> T::shaped(#[trigger] a[i]),
        forall|i: int| 0 <= i < b.len() ==> T::shaped(#[trigger] b[i]),
        item_records::<T>(a) + x == item_records::<T>(b) + y,
    ensures
        a == b,
        x == y,
    decreases a.len(),
{
    if a.len() == 0 {
        assert(a =~= b);
        assert(item_records::<T>(a) + x =~= x);
        assert(item_records::<T>(b) + y =~= y);
    } else {
        let a1 = a.skip(1);
        let b1 = b.skip(1);
        let x1 = item_records::<T>(a1) + x;
        let y1 = item_records::<T>(b1) + y;
        assert(item_records::<T>(a) + x =~= T::record(a[0]) + x1);
        assert(item_records::<T>(b) + y =~= T::record(b[0]) + y1);
        T::lemma_prefix_free(a[0], b[0], x1, y1);
        assert forall|i: int| 0 <= i < a1.len() implies T::shaped(#[trigger] a1[i]) by {
            assert(a1[i] == a[i + 1]);
        }
        assert forall|i: int| 0 <= i < b1.len() implies T::shaped(#[trigger] b1[i]) by {
            assert(b1[i] == b[i + 1]);
        }
        lemma_items_prefix_free::<T>(a1, b1, x, y);
        assert(a =~= seq![a[0]] + a1);
        assert(b =~= seq![b[0]] + b1);
    }
}

impl<T: Record> Record for Vec<T> {
    open spec fn record(v: Seq<T::V>) -> Seq<u8> {
        le_bytes(v.len(), 8) + item_records::<T>(v)
    }

    open spec fn shaped(v: Seq<T::V>) -> bool {
        &&& v.len() <= u64::MAX
        &&& forall|i: int| 0 <= i < v.len() ==> T::shaped(#[trigger] v[i])
    }

    proof fn lemma_shaped(&self) {
        let v = self.deep_view();
        assert(v.len() == self.len());
        assert forall|i: int| 0 <= i < v.len() implies T::shaped(#[trigger] v[i]) by {
            self@[i].lemma_shaped();
        }
    }

    proof fn lemma_prefix_free(a: Seq<T::V>, b: Seq<T::V>, x: Seq<u8>, y: Seq<u8>) {
        lemma_le_bytes_len(a.len(), 8);
        lemma_le_bytes_len(b.len(), 8);
        let x1 = item_records::<T>(a) + x;
        let y1 = item_records::<T>(b) + y;
        assert(Self::record(a) + x =~= le_bytes(a.len(), 8) + x1);
        assert(Self::record(b) + y =~= le_bytes(b.len(), 8) + y1);
        lemma_concat_cancel(le_bytes(a.len(), 8), le_bytes(b.len(), 8), x1, y1);
        lemma_byte_range_values();
        lemma_le_bytes_injective(a.len(), b.len(), 8);
        lemma_items_prefix_free::<T>(a, b, x, y);
    }
}

/// Fields of an input, in the order of the record.
pub type InputRecord = ([u8; 32], (u32, (Vec<u8>, u32)));

/// Fields of an output, in the order of the record.
pub type OutputRecord = (u64, Vec<u8>);

/// Fields of a transaction, in the order of the record.
pub type TransactionRecord = (
    u32,
    (Vec<InputRecord>, (Vec<OutputRecord>, (Vec<Vec<Vec<u8>>>, u32))),
);

/// Fields of a header, in the order of the record.
pub type HeaderRecord = (u32, ([u8; 32], ([u8; 32], (u64, (u32, u64)))));

/// Fields of a block, in the order of the record.
pub type BlockRecord = (HeaderRecord, Vec<TransactionRecord>);

/// Fields of an outpoint, in the order of the record.
pub type OutPointRecord = ([u8; 32], u32);

/// Fields of an unspent output, in the order of the record.
pub type EntryRecord = (OutputRecord, (bool, u64));

/// Outpoints with the outputs they spent.
pub type UndoRecord = Vec<(OutPointRecord, EntryRecord)>;

/// `bincode::serialize` on a block: it writes the record and, without a size
/// limit and into memory, does not fail.
#[verifier::external_body]
pub(crate) fn write_block(value: &BlockRecord) -> (r: Result<Vec<u8>, String>)
    ensures
        r is Ok,
        r->Ok_0@ == BlockRecord::record(value.deep_view()),
{
    bincode::serialize(value).map_err(|e| e.to_string())
}

/// `bincode::deserialize` to a block: it reads the value whose record the bytes
/// begin with, lets more bytes follow, and fails where there is none.
#[verifier::external_body]
pub(crate) fn read_block(bytes: &[u8]) -> (r: Result<BlockRecord, String>)
    ensures
        match r {
            Ok(value) => reads_as::<BlockRecord>(bytes@, value.deep_view()),
            Err(_) => forall|v: <BlockRecord as DeepView>::V| !reads_as::<BlockRecord>(bytes@, v),
        },
{
    bincode::deserialize(bytes).map_err(|e| e.to_string())
}

/// `bincode::serialize` on an unspent output: it writes the record and, without
/// a size limit and into memory, does not fail.
#[verifier::external_body]
pub(crate) fn write_entry(value: &EntryRecord) -> (r: Result<Vec<u8>, String>)
    ensures
        r is Ok,
        r->Ok_0@ == EntryRecord::record(value.deep_view()),
{
    bincode::serialize(value).map_err(|e| e.to_string())
}

/// `bincode::deserialize` to an unspent output: it reads the value whose record
/// the bytes begin with, lets more bytes follow, and fails where there is none.
#[verifier::external_body]
pub(crate) fn read_entry(bytes: &[u8]) -> (r: Result<EntryRecord, String>)
    ensures
        match r {
            Ok(value) => reads_as::<EntryRecord>(bytes@, value.deep_view()),
            Err(_) => forall|v: <EntryRecord as DeepView>::V| !reads_as::<EntryRecord>(bytes@, v),
        },
{
    bincode::deserialize(bytes).map_err(|e| e.to_string())
}

/// `bincode::serialize` on undo data: it writes the record and, without a size
/// limit and into memory, does not fail.
#[verifier::external_body]
pub(crate) fn write_undo(value: &UndoRecord) -> (r: Result<Vec<u8>, String>)
    ensures
        r is Ok,
        r->Ok_0@ == UndoRecord::record(value.deep_view()),
{
    bincode::serialize(value).map_err(|e| e.to_string())
}

/// `bincode::deserialize` to undo data: it reads the value whose record the
/// bytes begin with, lets more bytes follow, and fails where there is none.
#[verifier::external_body]
pub(crate) fn read_undo(bytes: &[u8]) -> (r: Result<UndoRecord, String>)
    ensures
        match r {
            Ok(value) => reads_as::<UndoRecord>(bytes@, value.deep_view()),
            Err(_) => forall|v: <UndoRecord as DeepView>::V| !reads_as::<UndoRecord>(bytes@, v),
        },
{
    bincode::deserialize(bytes).map_err(|e| e.to_string())
}

/// `bincode::serialize` on an outpoint: it writes the record and, without a size
/// limit and into memory, does not fail.
#[verifier::external_body]
pub(crate) fn write_outpoint(value: &OutPointRecord) -> (r: Result<Vec<u8>, String>)
    ensures
        r is Ok,
        r->Ok_0@ == OutPointRecord::record(value.deep_view()),
{
    bincode::serialize(value).map_err(|e| e.to_string())
}

} // verus!
