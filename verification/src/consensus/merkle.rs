//! Merkle tree construction for block validation.

use crate::primitives::bytes::append_bytes;
use crate::primitives::hash::{sha256d, sha256d_bytes, Hash256};
use crate::primitives::serialize::views;
use vstd::prelude::*;

verus! {

/// 32 zero bytes.
pub open spec fn zero_hash() -> Seq<u8> {
    Seq::new(32, |i: int| 0u8)
}

/// The level above a level of the tree: neighbours are hashed in pairs, and a
/// last one without a neighbour is paired with itself.
pub open spec fn merkle_parents(level: Seq<Seq<u8>>) -> Seq<Seq<u8>> {
    Seq::new(
        (level.len() + 1) / 2,
        |i: int|
            sha256d_bytes(
                level[2 * i] + (if 2 * i + 1 < level.len() {
                    level[2 * i + 1]
                } else {
                    level[2 * i]
                }),
            ),
    )
}

/// The root over a level: the parents are taken until one is left.
pub open spec fn merkle_root(level: Seq<Seq<u8>>) -> Seq<u8>
    decreases level.len(),
{
    if level.len() == 0 {
        zero_hash()
    } else if level.len() == 1 {
        level[0]
    } else {
        merkle_root(merkle_parents(level))
    }
}

/// The root over witness identifiers, in which the first place belongs to the
/// coinbase and holds zeros.
pub open spec fn witness_merkle_root(wtxids: Seq<Seq<u8>>) -> Seq<u8> {
    merkle_root(seq![zero_hash()] + wtxids)
}

/// The root over one identifier is that identifier.
pub proof fn lemma_merkle_single(id: Seq<u8>)
    ensures
        merkle_root(seq![id]) == id,
{
}

/// The root over two identifiers is the hash of both, in their order.
pub proof fn lemma_merkle_pair(a: Seq<u8>, b: Seq<u8>)
    ensures
        merkle_root(seq![a, b]) == sha256d_bytes(a + b),
{
    reveal_with_fuel(merkle_root, 2);
    assert(merkle_parents(seq![a, b]) =~= seq![sha256d_bytes(a + b)]);
}

/// An odd level has the root of the level in which its last element is
/// written twice.
pub proof fn lemma_merkle_odd_duplicates_last(level: Seq<Seq<u8>>)
    requires
        level.len() > 1,
        level.len() % 2 == 1,
    ensures
        merkle_root(level) == merkle_root(level.push(level.last())),
{
    let doubled = level.push(level.last());
    assert(merkle_parents(level) =~= merkle_parents(doubled));
}

/// Compute merkle root from transaction IDs
pub fn compute_merkle_root(txids: &[Hash256]) -> (root: Hash256)
    ensures
        root@ == merkle_root(views(txids@)),
{
    if txids.is_empty() {
        let root: Hash256 = [0u8; 32];
        assert(root@ =~= zero_hash());
        return root;
    }
    let mut level: Vec<Hash256> = vstd::slice::slice_to_vec(txids);
    while level.len() > 1
        invariant
            level.len() >= 1,
            merkle_root(views(level@)) == merkle_root(views(txids@)),
        decreases level.len(),
    {
        let next_level = parent_level(&level);
        level = next_level;
    }
    assert(views(level@)[0] == level[0]@);
    level[0]
}

fn parent_level(level: &Vec<Hash256>) -> (next: Vec<Hash256>)
    requires
        level.len() >= 1,
    ensures
        views(next@) == merkle_parents(views(level@)),
        next.len() == (level.len() + 1) / 2,
{
    let mut next: Vec<Hash256> = Vec::new();
    let mut i: usize = 0;
    let ghost parents = merkle_parents(views(level@));
    while i < level.len()
        invariant
            level.len() >= 1,
            i % 2 == 0,
            i <= level.len() + 1,
            next.len() == (i + 1) / 2,
            parents == merkle_parents(views(level@)),
            forall|j: int| 0 <= j < next.len() ==> (#[trigger] next[j])@ == parents[j],
        decreases level.len() + 1 - i,
    {
        let left = level[i];
        let right = if level.len() - i > 1 {
            level[i + 1]
        } else {
            level[i]
        };
        let mut data: Vec<u8> = Vec::new();
        append_bytes(&mut data, &left);
        append_bytes(&mut data, &right);
        assert(data@ =~= left@ + right@);
        next.push(sha256d(&data));
        if level.len() - i > 1 {
            i += 2;
        } else {
            assert(views(next@) =~= parents);
            return next;
        }
    }
    assert(views(next@) =~= parents);
    next
}

/// Compute witness merkle root (for coinbase commitment)
pub fn compute_witness_merkle_root(wtxids: &[Hash256]) -> (root: Hash256)
    ensures
        root@ == witness_merkle_root(views(wtxids@)),
{
    // First wtxid must be all zeros (coinbase)
    let mut txids: Vec<Hash256> = Vec::new();
    let zero: Hash256 = [0u8; 32];
    assert(zero@ =~= zero_hash());
    txids.push(zero);
    let mut i: usize = 0;
    while i < wtxids.len()
        invariant
            i <= wtxids@.len(),
            txids.len() == i + 1,
            txids[0]@ == zero_hash(),
            forall|j: int| 0 <= j < i ==> (#[trigger] txids[j + 1]) == wtxids[j],
        decreases wtxids@.len() - i,
    {
        txids.push(wtxids[i]);
        i += 1;
    }
    proof {
        let want = seq![zero_hash()] + views(wtxids@);
        assert forall|j: int| 0 <= j < want.len() implies views(txids@)[j] == want[j] by {
            if j > 0 {
                assert(txids[(j - 1) + 1] == wtxids[j - 1]);
            }
        }
        assert(views(txids@) =~= want);
    }
    compute_merkle_root(&txids)
}

} // verus!
