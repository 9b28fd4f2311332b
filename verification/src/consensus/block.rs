//! Block headers, difficulty targets, proof of work and the genesis block.

use crate::consensus::merkle::{compute_merkle_root, merkle_root, zero_hash};
use crate::consensus::transaction::{
    Transaction, TransactionView, TxInput, TxInputView, TxOutput, TxOutputView, Witness,
};
use crate::consensus::u256::{lemma_two_256, lemma_u256_bound, two_256};
pub use crate::consensus::u256::U256;
use crate::primitives::bytes::{
    append_bytes, byte_range, bytes_equal, le_bytes, le_value, lemma_byte_range_step,
    lemma_byte_range_values, lemma_le_bytes_len, lemma_le_value_concat, lemma_le_value_of_bytes,
    lemma_le_value_zeros, u32_to_le, u64_to_le,
};
use crate::primitives::hash::{sha256d, sha256d_bytes, Hash256};
use crate::primitives::serialize::{views, Canonical, Decode, DecodeError, Encode, Parsed};
use vstd::prelude::*;

verus! {

/// Errors that can occur while decoding difficulty targets.
#[derive(Debug, Clone, Copy, PartialEq, Eq, Structural)]
pub enum TargetError {
    /// Mantissa encodes a negative target (most significant bit set).
    NegativeEncoding,
    /// Exponent exceeds the maximum supported value for a 256-bit target.
    ExponentTooLarge,
    /// The decoded target value does not fit within 256 bits.
    Overflow,
}

/// Block header used in the Ferrous Network consensus layer.
#[derive(Debug, Clone, Copy)]
pub struct BlockHeader {
    pub version: u32,
    pub prev_block_hash: Hash256,
    pub merkle_root: Hash256,
    pub timestamp: u64,
    pub n_bits: u32,
    pub nonce: u64,
}

/// A header with the transactions it commits to.
#[derive(Debug)]
pub struct Block {
    pub header: BlockHeader,
    pub transactions: Vec<Transaction>,
}

/// A block with its place in the chain.
#[derive(Debug)]
pub struct BlockData {
    pub block: Block,
    pub height: u64,
    pub cumulative_work: U256,
}

/// What a block header stands for.
#[verifier::ext_equal]
pub struct BlockHeaderView {
    pub version: u32,
    pub prev_block_hash: Seq<u8>,
    pub merkle_root: Seq<u8>,
    pub timestamp: u64,
    pub n_bits: u32,
    pub nonce: u64,
}

/// What a block stands for.
#[verifier::ext_equal]
pub struct BlockView {
    pub header: BlockHeaderView,
    pub transactions: Seq<TransactionView>,
}

/// What a block with its place in the chain stands for.
#[verifier::ext_equal]
pub struct BlockDataView {
    pub block: BlockView,
    pub height: u64,
    pub cumulative_work: nat,
}

impl View for BlockHeader {
    type V = BlockHeaderView;

    open spec fn view(&self) -> BlockHeaderView {
        BlockHeaderView {
            version: self.version,
            prev_block_hash: self.prev_block_hash@,
            merkle_root: self.merkle_root@,
            timestamp: self.timestamp,
            n_bits: self.n_bits,
            nonce: self.nonce,
        }
    }
}

impl View for Block {
    type V = BlockView;

    open spec fn view(&self) -> BlockView {
        BlockView { header: self.header@, transactions: views(self.transactions@) }
    }
}

impl View for BlockData {
    type V = BlockDataView;

    open spec fn view(&self) -> BlockDataView {
        BlockDataView {
            block: self.block@,
            height: self.height,
            cumulative_work: self.cumulative_work@,
        }
    }
}

impl Clone for Block {
    fn clone(&self) -> (r: Self)
        ensures
            r@ == self@,
    {
        let r = Block { header: self.header, transactions: self.transactions.clone() };
        assert(r@ =~= self@);
        r
    }
}

impl Clone for BlockData {
    fn clone(&self) -> (r: Self)
        ensures
            r@ == self@,
    {
        BlockData {
            block: self.block.clone(),
            height: self.height,
            cumulative_work: self.cumulative_work,
        }
    }
}

impl PartialEq for BlockHeader {
    fn eq(&self, other: &BlockHeader) -> (r: bool) {
        self.version == other.version && bytes_equal(&self.prev_block_hash, &other.prev_block_hash)
            && bytes_equal(&self.merkle_root, &other.merkle_root) && self.timestamp
            == other.timestamp && self.n_bits == other.n_bits && self.nonce == other.nonce
    }
}

impl vstd::std_specs::cmp::PartialEqSpecImpl for BlockHeader {
    open spec fn obeys_eq_spec() -> bool {
        true
    }

    open spec fn eq_spec(&self, other: &BlockHeader) -> bool {
        self@ == other@
    }
}

impl Eq for BlockHeader {

}

/// Size of an encoded header in bytes.
pub const HEADER_SIZE: usize = 88;

/// Number of blocks that share a proof-of-work key.
pub const EPOCH_LENGTH: u64 = 2048;

/// Order of the fields of a header on the wire.
pub type HeaderParts = (u32, ([u8; 32], ([u8; 32], (u64, (u32, u64)))));

impl BlockHeaderView {
    pub open spec fn parts(self) -> (u32, (Seq<u8>, (Seq<u8>, (u64, (u32, u64))))) {
        (
            self.version,
            (
                self.prev_block_hash,
                (self.merkle_root, (self.timestamp, (self.n_bits, self.nonce))),
            ),
        )
    }

    pub open spec fn from_parts(
        p: (u32, (Seq<u8>, (Seq<u8>, (u64, (u32, u64))))),
    ) -> BlockHeaderView {
        BlockHeaderView {
            version: p.0,
            prev_block_hash: p.1.0,
            merkle_root: p.1.1.0,
            timestamp: p.1.1.1.0,
            n_bits: p.1.1.1.1.0,
            nonce: p.1.1.1.1.1,
        }
    }

    /// The identifier of the block.
    pub open spec fn hash(self) -> Seq<u8> {
        sha256d_bytes(BlockHeader::encoding(self))
    }

    /// The difficulty target that `n_bits` stands for.
    pub open spec fn target(self) -> Result<nat, TargetError> {
        compact_target(self.n_bits)
    }

    /// The expected number of hashes that the block took.
    pub open spec fn work(self) -> nat {
        match self.target() {
            Err(_) => 1,
            Ok(t) => if t + 1 == two_256() {
                1
            } else {
                (two_256() / (t + 1)) % two_256()
            },
        }
    }

    /// Whether a proof-of-work hash reaches the target.
    pub open spec fn meets_target(self, pow_hash: Seq<u8>) -> bool {
        self.target() matches Ok(t) && le_value(pow_hash) <= t
    }
}

impl BlockView {
    /// The identifier of the block.
    pub open spec fn hash(self) -> Seq<u8> {
        self.header.hash()
    }

    /// The identifiers of the transactions, in their order.
    pub open spec fn txids(self) -> Seq<Seq<u8>> {
        Seq::new(self.transactions.len(), |i: int| self.transactions[i].txid())
    }
}

/// Exponent byte of a compact target.
pub open spec fn compact_exponent(n_bits: u32) -> nat {
    (n_bits / 0x100_0000) as nat
}

/// Mantissa of a compact target.
pub open spec fn compact_mantissa(n_bits: u32) -> nat {
    (n_bits % 0x100_0000) as nat
}

/// `mantissa * 256^(exponent - 3)`, rounded down.
pub open spec fn compact_value(exponent: nat, mantissa: nat) -> nat {
    if exponent > 3 {
        mantissa * byte_range((exponent - 3) as nat)
    } else {
        mantissa / byte_range((3 - exponent) as nat)
    }
}

/// The target that a compact representation stands for.
pub open spec fn compact_target(n_bits: u32) -> Result<nat, TargetError> {
    if compact_mantissa(n_bits) >= 0x80_0000 {
        Err(TargetError::NegativeEncoding)
    } else if compact_exponent(n_bits) > 32 {
        Err(TargetError::ExponentTooLarge)
    } else {
        Ok(compact_value(compact_exponent(n_bits), compact_mantissa(n_bits)))
    }
}

impl Encode for BlockHeader {
    open spec fn encoding(v: BlockHeaderView) -> Seq<u8> {
        HeaderParts::encoding(v.parts())
    }

    fn encode(&self) -> (out: Vec<u8>) {
        let mut out: Vec<u8> = self.version.encode();
        append_bytes(&mut out, &self.prev_block_hash);
        append_bytes(&mut out, &self.merkle_root);
        append_bytes(&mut out, &self.timestamp.encode());
        append_bytes(&mut out, &self.n_bits.encode());
        append_bytes(&mut out, &self.nonce.encode());
        assert(out@ =~= HeaderParts::encoding(self@.parts()));
        out
    }

    fn encoded_size(&self) -> (size: usize) {
        proof {
            lemma_header_size(self@);
        }
        HEADER_SIZE
    }
}

/// Every header is encoded in 88 bytes.
pub proof fn lemma_header_size(h: BlockHeaderView)
    requires
        BlockHeader::decodable(h),
    ensures
        BlockHeader::encoding(h).len() == HEADER_SIZE,
{
    lemma_le_bytes_len(h.version as nat, 4);
    lemma_le_bytes_len(h.timestamp as nat, 8);
    lemma_le_bytes_len(h.n_bits as nat, 4);
    lemma_le_bytes_len(h.nonce as nat, 8);
}

impl Decode for BlockHeader {
    open spec fn parse(b: Seq<u8>) -> Parsed<BlockHeaderView> {
        match HeaderParts::parse(b) {
            Ok((p, n)) => Ok((BlockHeaderView::from_parts(p), n)),
            Err(e) => Err(e),
        }
    }

    open spec fn decodable(v: BlockHeaderView) -> bool {
        HeaderParts::decodable(v.parts())
    }

    fn decode(bytes: &[u8]) -> (r: Result<(Self, usize), DecodeError>) {
        match HeaderParts::decode(bytes) {
            Ok(((version, (prev_block_hash, (merkle_root, (timestamp, (n_bits, nonce))))), n)) => Ok(
                (
                    BlockHeader { version, prev_block_hash, merkle_root, timestamp, n_bits, nonce },
                    n,
                ),
            ),
            Err(e) => Err(e),
        }
    }

    proof fn lemma_parse_bounds(b: Seq<u8>) {
        HeaderParts::lemma_parse_bounds(b);
    }

    proof fn lemma_round_trip(v: BlockHeaderView, rest: Seq<u8>) {
        HeaderParts::lemma_round_trip(v.parts(), rest);
    }
}

impl Canonical for BlockHeader {
    proof fn lemma_canonical(b: Seq<u8>) {
        HeaderParts::lemma_canonical(b);
    }
}

/// Decoding a header succeeds exactly on 88 bytes or more.
pub proof fn lemma_header_parse_total(b: Seq<u8>)
    ensures
        BlockHeader::parse(b) is Ok <==> b.len() >= HEADER_SIZE,
        BlockHeader::parse(b) matches Ok((h, n)) ==> n == HEADER_SIZE,
        BlockHeader::parse(b) matches Err(e) ==> e == DecodeError::UnexpectedEof,
{
    let b1 = b.skip(4);
    let b2 = b1.skip(32);
    let b3 = b2.skip(32);
    let b4 = b3.skip(8);
    let b5 = b4.skip(4);
    assert(u32::parse(b) is Ok <==> b.len() >= 4);
    assert(<[u8; 32]>::parse(b1) is Ok <==> b1.len() >= 32);
    assert(<[u8; 32]>::parse(b2) is Ok <==> b2.len() >= 32);
    assert(u64::parse(b3) is Ok <==> b3.len() >= 8);
    assert(u32::parse(b4) is Ok <==> b4.len() >= 4);
    assert(u64::parse(b5) is Ok <==> b5.len() >= 8);
}

/// Splits a compact target into exponent and mantissa.
pub fn split_compact(n_bits: u32) -> (r: (u8, u32))
    ensures
        r.0 == compact_exponent(n_bits),
        r.1 == compact_mantissa(n_bits),
{
    ((n_bits / 0x100_0000) as u8, n_bits % 0x100_0000)
}

/// The number that an exponent and a mantissa stand for, or nothing where the
/// exponent is too large for 256 bits.
pub fn expand_compact(exponent: u8, mantissa: u32) -> (r: Option<U256>)
    requires
        mantissa < 0x100_0000,
    ensures
        match r {
            Some(v) => exponent <= 32 && v@ == compact_value(exponent as nat, mantissa as nat),
            None => exponent > 32,
        },
{
    if exponent > 32 {
        return None;
    }
    let mut bytes: [u8; 32] = [0u8; 32];
    let (shift, value): (usize, u32) = if exponent > 3 {
        ((exponent - 3) as usize, mantissa)
    } else if exponent == 3 {
        (0, mantissa)
    } else if exponent == 2 {
        (0, mantissa / 0x100)
    } else if exponent == 1 {
        (0, mantissa / 0x1_0000)
    } else {
        (0, mantissa / 0x100_0000)
    };
    let low = u32_to_le(value);
    let mut i: usize = 0;
    while i < 3
        invariant
            i <= 3,
            shift <= 29,
            low@.len() == 4,
            forall|j: int| 0 <= j < i ==> bytes@[shift + j] == low@[j],
            forall|j: int| 0 <= j < shift ==> bytes@[j] == 0,
            forall|j: int| shift + i <= j < 32 ==> bytes@[j] == 0,
        decreases 3 - i,
    {
        bytes[shift + i] = low[i];
        i += 1;
    }
    let r = U256(bytes);
    proof {
        lemma_byte_range_values();
        lemma_byte_range_step(0);
        lemma_le_value_of_bytes(value as nat, 4);
        let three = low@.take(3);
        assert(low@ =~= three + seq![low@[3]]);
        lemma_le_value_concat(three, seq![low@[3]]);
        lemma_top_byte_zero(low@, value);
        let zeros = bytes@.take(shift as int);
        let rest = bytes@.skip(shift as int);
        assert(bytes@ =~= zeros + rest);
        lemma_le_value_concat(zeros, rest);
        lemma_le_value_zeros(zeros);
        let tail = rest.skip(3);
        assert(rest =~= three + tail);
        lemma_le_value_concat(three, tail);
        lemma_le_value_zeros(tail);
        assert(byte_range(3) * 0 == 0);
        assert(le_value(rest) == value);
        assert(r@ == byte_range(shift as nat) * (value as nat));
        if exponent > 3 {
            let p = byte_range(shift as nat);
            let m = mantissa as nat;
            assert(p * m == m * p) by (nonlinear_arith);
        } else {
            assert(byte_range(0) * (value as nat) == value as nat);
        }
    }
    Some(r)
}

proof fn lemma_top_byte_zero(low: Seq<u8>, value: u32)
    requires
        low.len() == 4,
        le_value(low) == value,
        value < 0x100_0000,
    ensures
        low[3] == 0,
        le_value(low.take(3)) == value,
{
    let three = low.take(3);
    assert(low =~= three + seq![low[3]]);
    lemma_le_value_concat(three, seq![low[3]]);
    lemma_byte_range_values();
    reveal_with_fuel(le_value, 2);
    assert(le_value(seq![low[3]]) == low[3] as nat);
    let q = le_value(seq![low[3]]);
    let p = byte_range(3);
    assert(p * q == 0x100_0000 * q) by (nonlinear_arith)
        requires
            p == 0x100_0000,
    ;
    assert(three.len() == 3);
    assert(le_value(low) == le_value(three) + p * q);
    assert(q == low[3]);
    let t: nat = le_value(three);
    assert(q == 0) by (nonlinear_arith)
        requires
            t + 0x100_0000 * q < 0x100_0000,
            t >= 0,
            q >= 0,
    ;
    assert(p * q == 0) by (nonlinear_arith)
        requires
            q == 0,
    ;
}

impl Block {
    pub fn hash(&self) -> (h: Hash256)
        ensures
            h@ == self@.hash(),
    {
        self.header.hash()
    }
}

impl BlockHeader {
    pub fn hash(&self) -> (h: Hash256)
        ensures
            h@ == self@.hash(),
    {
        let bytes = self.encode();
        sha256d(&bytes)
    }

    /// The expected number of hashes that the block took: `2^256 / (target + 1)`.
    pub fn work(&self) -> (w: U256)
        ensures
            w@ == self@.work(),
    {
        let target = match self.target() {
            Ok(t) => t,
            Err(_) => return U256::one(),
        };
        let target_plus_one = target.increment();
        proof {
            lemma_u256_bound(target);
            lemma_two_256();
            if target@ + 1 == two_256() {
                vstd::arithmetic::div_mod::lemma_mod_self_0(two_256() as int);
            } else {
                vstd::arithmetic::div_mod::lemma_small_mod(target@ + 1, two_256());
            }
        }
        if target_plus_one == U256::zero() {
            return U256::one();
        }
        U256::inverse_of(&target_plus_one)
    }

    /// Decodes the compact difficulty representation (nBits) into a 256-bit target.
    ///
    /// The format is an exponent byte followed by a 24-bit mantissa. The target
    /// is computed as:
    ///
    /// `target = mantissa * 256^(exponent - 3)`
    ///
    /// with additional constraints:
    /// - `mantissa < 0x800000` (non-negative encoding)
    /// - `exponent <= 32` (fits within 256 bits)
    pub fn target(&self) -> (r: Result<U256, TargetError>)
        ensures
            match r {
                Ok(t) => self@.target() == Ok::<nat, TargetError>(t@),
                Err(e) => self@.target() == Err::<nat, TargetError>(e),
            },
    {
        let (exponent, mantissa) = split_compact(self.n_bits);
        if mantissa >= 0x0080_0000 {
            return Err(TargetError::NegativeEncoding);
        }
        match expand_compact(exponent, mantissa) {
            Some(t) => Ok(t),
            None => Err(TargetError::ExponentTooLarge),
        }
    }

    /// Verifies that a proof-of-work hash of the header satisfies the target.
    ///
    /// `pow_hash` is the RandomX hash of the encoded header under the key of
    /// [`BlockHeader::epoch_key`]. Returns `Ok(true)` when `hash <= target`,
    /// `Ok(false)` otherwise.
    pub fn check_proof_of_work(&self, pow_hash: &Hash256) -> (r: Result<bool, TargetError>)
        ensures
            match r {
                Ok(met) => self@.target() is Ok && met == self@.meets_target(pow_hash@),
                Err(e) => self@.target() == Err::<nat, TargetError>(e),
            },
    {
        let target = match self.target() {
            Ok(t) => t,
            Err(e) => return Err(e),
        };
        let hash_value = U256::from_le_bytes(*pow_hash);
        Ok(hash_value <= target)
    }

    /// The key under which headers of a height are hashed for proof of work.
    pub fn epoch_key(height: u64) -> (key: Vec<u8>)
        ensures
            key@ == epoch_key_bytes(height),
    {
        let epoch: u64 = height / EPOCH_LENGTH;
        let digest = sha256d(&u64_to_le(epoch));
        let mut key: Vec<u8> = Vec::new();
        append_bytes(&mut key, &digest);
        assert(key@ =~= digest@);
        key
    }
}

/// The key under which headers of a height are hashed for proof of work.
pub open spec fn epoch_key_bytes(height: u64) -> Seq<u8> {
    sha256d_bytes(le_bytes((height / EPOCH_LENGTH) as nat, 8))
}

/// Blocks of one epoch share their proof-of-work key.
pub proof fn lemma_epoch_key_shared(a: u64, b: u64)
    requires
        a / EPOCH_LENGTH == b / EPOCH_LENGTH,
    ensures
        epoch_key_bytes(a) == epoch_key_bytes(b),
{
}

/// The one transaction of the genesis block.
pub open spec fn genesis_coinbase() -> TransactionView {
    TransactionView {
        version: 1,
        inputs: seq![
            TxInputView {
                prev_txid: zero_hash(),
                prev_index: 0xFFFF_FFFF,
                script_sig: seq![0x04u8, 0x00u8, 0x00u8, 0x00u8, 0x00u8],
                sequence: 0xFFFF_FFFF,
            },
        ],
        outputs: seq![TxOutputView { value: 5_000_000_000, script_pubkey: seq![0x51u8] }],
        witnesses: seq![Seq::empty()],
        locktime: 0,
    }
}

/// The genesis block with a given difficulty and nonce.
pub open spec fn genesis_block(n_bits: u32, nonce: u64) -> BlockView {
    BlockView {
        header: BlockHeaderView {
            version: 1,
            prev_block_hash: zero_hash(),
            merkle_root: genesis_coinbase().txid(),
            timestamp: 1_700_000_000,
            n_bits,
            nonce,
        },
        transactions: seq![genesis_coinbase()],
    }
}

/// Nonces of the genesis blocks that are already known, by `n_bits`.
pub open spec fn settled_genesis_nonce(n_bits: u32) -> Option<u64> {
    if n_bits == 0x1F0A_E3D6 {
        Some(99)
    } else if n_bits == 0x207f_ffff {
        Some(0)
    } else {
        None
    }
}

/// Pre-computed nonces for known `genesis_n_bits` values avoid a multi-minute
/// proof-of-work search on every fresh testnet start.
pub fn known_genesis_nonce(genesis_n_bits: u32) -> (r: Option<u64>)
    ensures
        r == settled_genesis_nonce(genesis_n_bits),
{
    match genesis_n_bits {
        0x1F0A_E3D6 => Some(99),  // testnet RandomX genesis (epoch 0)
        0x207f_ffff => Some(0),  // regtest trivial: nonce 0 always works
        _ => None,
    }
}

/// The genesis block with its known nonce, or with nonce 0, from which
/// [`next_genesis_nonce`] searches on.
pub fn create_genesis_block(genesis_n_bits: u32) -> (block: Block)
    ensures
        block@ == genesis_block(
            genesis_n_bits,
            match settled_genesis_nonce(genesis_n_bits) {
                Some(n) => n,
                None => 0,
            },
        ),
{
    let mut script_sig: Vec<u8> = Vec::new();
    script_sig.push(0x04);
    script_sig.push(0x00);
    script_sig.push(0x00);
    script_sig.push(0x00);
    script_sig.push(0x00);
    let mut inputs: Vec<TxInput> = Vec::new();
    let zero: Hash256 = [0u8; 32];
    assert(zero@ =~= zero_hash());
    inputs.push(
        TxInput { prev_txid: zero, prev_index: 0xFFFF_FFFF, script_sig, sequence: 0xFFFF_FFFF },
    );
    let mut script_pubkey: Vec<u8> = Vec::new();
    script_pubkey.push(0x51);  // OP_1
    let mut outputs: Vec<TxOutput> = Vec::new();
    outputs.push(TxOutput { value: 5_000_000_000, script_pubkey });
    let mut witnesses: Vec<Witness> = Vec::new();
    let empty = Witness { stack_items: Vec::new() };
    assert(empty@ =~= Seq::empty());
    witnesses.push(empty);
    let coinbase = Transaction { version: 1, inputs, outputs, witnesses, locktime: 0 };
    assert(coinbase@ =~= genesis_coinbase()) by {
        assert(coinbase@.inputs =~~= genesis_coinbase().inputs);
        assert(coinbase@.outputs =~~= genesis_coinbase().outputs);
        assert(coinbase@.witnesses =~= genesis_coinbase().witnesses);
    }
    let mut txids: Vec<Hash256> = Vec::new();
    txids.push(coinbase.txid());
    assert(views(txids@) =~= seq![genesis_coinbase().txid()]);
    let merkle_root = compute_merkle_root(&txids);
    let nonce: u64 = match known_genesis_nonce(genesis_n_bits) {
        Some(n) => n,
        None => 0,
    };
    let header = BlockHeader {
        version: 1,
        prev_block_hash: zero,
        merkle_root,
        timestamp: 1_700_000_000,
        n_bits: genesis_n_bits,
        nonce,
    };
    let mut transactions: Vec<Transaction> = Vec::new();
    transactions.push(coinbase);
    let block = Block { header, transactions };
    assert(block@.transactions =~= seq![genesis_coinbase()]);
    block
}

/// One step of the search for a genesis nonce: nothing where the proof-of-work
/// hash of the header meets the target, else the nonce to try next.
pub fn next_genesis_nonce(header: &BlockHeader, pow_hash: &Hash256) -> (r: Option<u64>)
    ensures
        r is None <==> header@.meets_target(pow_hash@),
        r matches Some(n) ==> n == (if header.nonce == u64::MAX {
            0
        } else {
            header.nonce + 1
        }),
{
    let met = match header.check_proof_of_work(pow_hash) {
        Ok(met) => met,
        Err(_) => false,
    };
    if met {
        None
    } else {
        Some(header.nonce.wrapping_add(1))
    }
}

} // verus!
