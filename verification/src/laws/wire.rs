//! How values are written.

use crate::consensus::block::{BlockHeader, BlockHeaderView, BlockView};
use crate::consensus::transaction::{
    Transaction, TransactionView, TxInput, TxInputView, TxOutput, Witness,
};
use crate::consensus::utxo::OutPointView;
use crate::laws::script::{counted_bytes, glued, lemma_glued_push, output_parts, twice_hashed};
use crate::network::message::{envelope, NetworkMessage};
use crate::network::protocol::{
    AddrMessage, BlockMessage, GetDataMessage, GetHeadersMessage, GetHeadersView, HeaderItem,
    HeadersMessage, InvMessage, InvVector, InvView, NetAddr, NetAddrView, NetworkAddr,
    NetworkAddrView, PingMessage, PongMessage, TxMessage, VersionMessage, VersionView,
};
use crate::primitives::bytes::{le_bytes, lemma_le_bytes_len};
use crate::primitives::hash::sha256_bytes;
use crate::primitives::serialize::{items_encoding, list_encoding, Encode};
use crate::primitives::varint::varint_bytes;
use vstd::arithmetic::div_mod::lemma_div_denominator;
use vstd::arithmetic::power::{lemma_pow0, lemma_pow_adds, lemma_pow1, lemma_pow_positive, pow};
use vstd::prelude::*;
use vstd::utf8::encode_utf8;

verus! {

/// Each byte of a number is its digit to the base of 256, the lowest first.
pub proof fn lemma_digits(v: nat, n: nat, i: nat)
    requires
        i < n,
    ensures
        le_bytes(v, n).len() == n,
        le_bytes(v, n)[i as int] == (v as int / pow(256, i)) % 256,
    decreases n,
{
    lemma_le_bytes_len(v, n);
    let rest = le_bytes(v / 256, (n - 1) as nat);
    assert(le_bytes(v, n) == seq![(v % 256) as u8] + rest);
    lemma_pow0(256);
    if i > 0 {
        let k = (i - 1) as nat;
        lemma_digits(v / 256, (n - 1) as nat, k);
        lemma_pow_positive(256, k);
        lemma_pow1(256);
        lemma_pow_adds(256, 1, k);
        lemma_div_denominator(v as int, 256, pow(256, k));
        assert(le_bytes(v, n)[i as int] == rest[k as int]);
    }
}

/// A count is written in one byte below 253; else behind a mark in two, four or eight bytes,
/// whichever it fits first.
pub proof fn lemma_count_form(value: u64)
    ensures
        value < 253 ==> varint_bytes(value) == seq![value as u8],
        253 <= value < 0x1_0000 ==> varint_bytes(value) == seq![253u8] + le_bytes(value as nat, 2),
        0x1_0000 <= value < 0x1_0000_0000 ==> varint_bytes(value) == seq![254u8] + le_bytes(
            value as nat,
            4,
        ),
        0x1_0000_0000 <= value ==> varint_bytes(value) == seq![255u8] + le_bytes(value as nat, 8),
{
}

/// The encodings of the elements of a sequence.
pub open spec fn each<T: Encode>(s: Seq<T::V>) -> Seq<Seq<u8>> {
    Seq::new(s.len(), |i: int| T::encoding(s[i]))
}

/// A list is written as its length and behind it its elements, one after the other.
pub proof fn lemma_list_form<T: Encode>(s: Seq<T::V>)
    ensures
        items_encoding::<T>(s) == glued(each::<T>(s)),
        list_encoding::<T>(s) == varint_bytes(s.len() as u64) + glued(each::<T>(s)),
    decreases s.len(),
{
    if s.len() == 0 {
        assert(each::<T>(s).len() == 0);
    } else {
        lemma_list_form::<T>(s.drop_last());
        lemma_glued_push(each::<T>(s.drop_last()), T::encoding(s.last()));
        assert(each::<T>(s) =~= each::<T>(s.drop_last()).push(T::encoding(s.last())));
    }
}

/// A header is written in 88 bytes, each field at its place.
pub proof fn lemma_header_form(h: BlockHeaderView)
    requires
        h.prev_block_hash.len() == 32,
        h.merkle_root.len() == 32,
    ensures
        ({
            let b = BlockHeader::encoding(h);
            &&& b.len() == 88
            &&& b.subrange(0, 4) == le_bytes(h.version as nat, 4)
            &&& b.subrange(4, 36) == h.prev_block_hash
            &&& b.subrange(36, 68) == h.merkle_root
            &&& b.subrange(68, 76) == le_bytes(h.timestamp as nat, 8)
            &&& b.subrange(76, 80) == le_bytes(h.n_bits as nat, 4)
            &&& b.subrange(80, 88) == le_bytes(h.nonce as nat, 8)
        }),
        h.hash() == sha256_bytes(sha256_bytes(BlockHeader::encoding(h))),
{
    lemma_le_bytes_len(h.version as nat, 4);
    lemma_le_bytes_len(h.timestamp as nat, 8);
    lemma_le_bytes_len(h.n_bits as nat, 4);
    lemma_le_bytes_len(h.nonce as nat, 8);
    let b = BlockHeader::encoding(h);
    assert(b =~= le_bytes(h.version as nat, 4) + h.prev_block_hash + h.merkle_root + le_bytes(
        h.timestamp as nat,
        8,
    ) + le_bytes(h.n_bits as nat, 4) + le_bytes(h.nonce as nat, 8));
}

/// An input as it is written.
pub open spec fn input_form(i: TxInputView) -> Seq<u8> {
    i.prev_txid + le_bytes(i.prev_index as nat, 4) + counted_bytes(i.script_sig) + le_bytes(
        i.sequence as nat,
        4,
    )
}

/// The inputs of a transaction as they are written.
pub open spec fn input_parts(inputs: Seq<TxInputView>) -> Seq<Seq<u8>> {
    Seq::new(inputs.len(), |i: int| input_form(inputs[i]))
}

/// The items of a witness, each behind its length.
pub open spec fn item_parts(items: Seq<Seq<u8>>) -> Seq<Seq<u8>> {
    Seq::new(items.len(), |i: int| counted_bytes(items[i]))
}

/// Witnesses, each behind the number of its items.
pub open spec fn witness_parts(witnesses: Seq<Seq<Seq<u8>>>) -> Seq<Seq<u8>> {
    Seq::new(
        witnesses.len(),
        |i: int| varint_bytes(witnesses[i].len() as u64) + glued(item_parts(witnesses[i])),
    )
}

/// The identifier of a transaction is the double hash of version, inputs, outputs and locktime, in
/// this order. On the wire the witnesses follow.
pub proof fn lemma_transaction_form(tx: TransactionView)
    ensures
        tx.stripped() == le_bytes(tx.version as nat, 4) + varint_bytes(tx.inputs.len() as u64)
            + glued(input_parts(tx.inputs)) + varint_bytes(tx.outputs.len() as u64) + glued(
            output_parts(tx.outputs),
        ) + le_bytes(tx.locktime as nat, 4),
        tx.txid() == twice_hashed(tx.stripped()),
        Transaction::encoding(tx) == tx.stripped() + varint_bytes(tx.witnesses.len() as u64)
            + glued(witness_parts(tx.witnesses)),
        tx.wtxid() == twice_hashed(Transaction::encoding(tx)),
{
    lemma_list_form::<TxInput>(tx.inputs);
    lemma_list_form::<TxOutput>(tx.outputs);
    lemma_list_form::<Witness>(tx.witnesses);
    assert(each::<TxInput>(tx.inputs) =~= input_parts(tx.inputs)) by {
        assert forall|i: int| 0 <= i < tx.inputs.len() implies each::<TxInput>(tx.inputs)[i]
            == #[trigger] input_parts(tx.inputs)[i] by {
            assert(TxInput::encoding(tx.inputs[i]) =~= input_form(tx.inputs[i]));
        }
    }
    assert(each::<TxOutput>(tx.outputs) =~= output_parts(tx.outputs)) by {
        assert forall|i: int| 0 <= i < tx.outputs.len() implies each::<TxOutput>(tx.outputs)[i]
            == #[trigger] output_parts(tx.outputs)[i] by {
            assert(TxOutput::encoding(tx.outputs[i]) =~= le_bytes(tx.outputs[i].value as nat, 8)
                + counted_bytes(tx.outputs[i].script_pubkey));
        }
    }
    assert(each::<Witness>(tx.witnesses) =~= witness_parts(tx.witnesses)) by {
        assert forall|i: int| 0 <= i < tx.witnesses.len() implies each::<Witness>(tx.witnesses)[i]
            == #[trigger] witness_parts(tx.witnesses)[i] by {
            let w = tx.witnesses[i];
            lemma_list_form::<Vec<u8>>(w);
            assert(each::<Vec<u8>>(w) =~= item_parts(w)) by {
                assert forall|j: int| 0 <= j < w.len() implies each::<Vec<u8>>(w)[j]
                    == #[trigger] item_parts(w)[j] by {
                    assert(<Vec<u8> as Encode>::encoding(w[j]) =~= counted_bytes(w[j]));
                }
            }
        }
    }
    assert(tx.stripped() =~= le_bytes(tx.version as nat, 4) + varint_bytes(tx.inputs.len() as u64)
        + glued(input_parts(tx.inputs)) + varint_bytes(tx.outputs.len() as u64) + glued(
        output_parts(tx.outputs),
    ) + le_bytes(tx.locktime as nat, 4));
    assert(Transaction::encoding(tx) =~= tx.stripped() + varint_bytes(tx.witnesses.len() as u64)
        + glued(witness_parts(tx.witnesses)));
}

/// An unspent output is filed under its transaction and, behind that, its place.
pub proof fn lemma_outpoint_form(o: OutPointView)
    requires
        o.txid.len() == 32,
    ensures
        o.key().len() == 36,
        o.key().subrange(0, 32) == o.txid,
        o.key().subrange(32, 36) == le_bytes(o.vout as nat, 4),
{
    lemma_le_bytes_len(o.vout as nat, 4);
    assert(o.key().subrange(0, 32) =~= o.txid);
    assert(o.key().subrange(32, 36) =~= le_bytes(o.vout as nat, 4));
}

/// A message on the wire: the mark of the network, the command filled up with zeros to twelve bytes,
/// the length of the payload, the first four bytes of its double hash, and the payload.
pub proof fn lemma_envelope_form(magic: Seq<u8>, name: Seq<u8>, payload: Seq<u8>)
    requires
        magic.len() == 4,
        name.len() <= 12,
        payload.len() <= 0xFFFF_FFFF,
        sha256_bytes(sha256_bytes(payload)).len() == 32,
    ensures
        ({
            let b = NetworkMessage::encoding(envelope(magic, name, payload));
            &&& b.len() == 24 + payload.len()
            &&& b.subrange(0, 4) == magic
            &&& b.subrange(4, 4 + name.len() as int) == name
            &&& forall|i: int| 4 + name.len() <= i < 16 ==> #[trigger] b[i] == 0
            &&& b.subrange(16, 20) == le_bytes(payload.len(), 4)
            &&& b.subrange(20, 24) == sha256_bytes(sha256_bytes(payload)).subrange(0, 4)
            &&& b.subrange(24, b.len() as int) == payload
        }),
{
    let m = envelope(magic, name, payload);
    let b = NetworkMessage::encoding(m);
    lemma_le_bytes_len(payload.len(), 4);
    assert(m.checksum.len() == 4);
    assert(m.command.len() == 12);
    assert(b.subrange(0, 4) =~= magic);
    assert(b.subrange(4, 4 + name.len() as int) =~= name);
    assert(b.subrange(16, 20) =~= le_bytes(payload.len(), 4));
    assert(b.subrange(20, 24) =~= sha256_bytes(sha256_bytes(payload)).subrange(0, 4));
    assert(b.subrange(24, b.len() as int) =~= payload);
}

/// The two bytes of a port, the higher one first.
pub open spec fn port_form(port: u16) -> Seq<u8> {
    seq![(port / 256) as u8, (port % 256) as u8]
}

/// An address within a version message: services, address and port.
pub open spec fn net_addr_form(a: NetAddrView) -> Seq<u8> {
    le_bytes(a.services as nat, 8) + a.ip + port_form(a.port)
}

/// A version message: version, services, time, both addresses, number, name and height.
pub proof fn lemma_version_form(v: VersionView)
    ensures
        VersionMessage::encoding(v) == le_bytes(v.version as nat, 4) + le_bytes(
            v.services as nat,
            8,
        ) + le_bytes((v.timestamp as u64) as nat, 8) + net_addr_form(v.receiver) + net_addr_form(
            v.sender,
        ) + le_bytes(v.nonce as nat, 8) + counted_bytes(encode_utf8(v.user_agent)) + le_bytes(
            v.start_height as nat,
            4,
        ),
{
    assert(NetAddr::encoding(v.receiver) =~= net_addr_form(v.receiver));
    assert(NetAddr::encoding(v.sender) =~= net_addr_form(v.sender));
    assert(VersionMessage::encoding(v) =~= le_bytes(v.version as nat, 4) + le_bytes(
        v.services as nat,
        8,
    ) + le_bytes((v.timestamp as u64) as nat, 8) + net_addr_form(v.receiver) + net_addr_form(
        v.sender,
    ) + le_bytes(v.nonce as nat, 8) + counted_bytes(encode_utf8(v.user_agent)) + le_bytes(
        v.start_height as nat,
        4,
    ));
}

/// Pings and their answers carry eight bytes.
pub proof fn lemma_ping_form(nonce: u64)
    ensures
        PingMessage::encoding(nonce) == le_bytes(nonce as nat, 8),
        PongMessage::encoding(nonce) == le_bytes(nonce as nat, 8),
{
}

/// What inventories name, as it is written: the kind, then the hash.
pub open spec fn inv_parts(items: Seq<InvView>) -> Seq<Seq<u8>> {
    Seq::new(items.len(), |i: int| le_bytes(items[i].inv_type as nat, 4) + items[i].hash)
}

/// Inventories and requests list kinds and hashes behind their number.
pub proof fn lemma_inventory_form(items: Seq<InvView>)
    ensures
        InvMessage::encoding(items) == varint_bytes(items.len() as u64) + glued(inv_parts(items)),
        GetDataMessage::encoding(items) == varint_bytes(items.len() as u64) + glued(
            inv_parts(items),
        ),
{
    lemma_list_form::<InvVector>(items);
    assert(each::<InvVector>(items) =~= inv_parts(items));
}

/// Headers as a message lists them: each is followed by the number of its transactions, which is
/// zero.
pub open spec fn header_parts(headers: Seq<BlockHeaderView>) -> Seq<Seq<u8>> {
    Seq::new(headers.len(), |i: int| BlockHeader::encoding(headers[i]) + seq![0u8])
}

/// A message of headers lists them behind their number.
pub proof fn lemma_headers_form(headers: Seq<BlockHeaderView>)
    ensures
        HeadersMessage::encoding(headers) == varint_bytes(headers.len() as u64) + glued(
            header_parts(headers),
        ),
{
    lemma_list_form::<HeaderItem>(headers);
    assert(each::<HeaderItem>(headers) =~= header_parts(headers));
}

/// A request for headers: version, the locator behind its length, and where to stop.
pub proof fn lemma_getheaders_form(m: GetHeadersView)
    ensures
        GetHeadersMessage::encoding(m) == le_bytes(m.version as nat, 4) + varint_bytes(
            m.block_locator.len() as u64,
        ) + glued(m.block_locator) + m.stop_hash,
{
    lemma_list_form::<[u8; 32]>(m.block_locator);
    assert(each::<[u8; 32]>(m.block_locator) =~= m.block_locator);
    assert(GetHeadersMessage::encoding(m) =~= le_bytes(m.version as nat, 4) + varint_bytes(
        m.block_locator.len() as u64,
    ) + glued(m.block_locator) + m.stop_hash);
}

/// A block on the wire is its header and behind it its transactions.
pub proof fn lemma_block_form(b: BlockView)
    ensures
        BlockMessage::encoding(b) == BlockHeader::encoding(b.header) + varint_bytes(
            b.transactions.len() as u64,
        ) + glued(each::<Transaction>(b.transactions)),
        forall|tx: TransactionView| #[trigger]
            TxMessage::encoding(tx) == Transaction::encoding(tx),
{
    lemma_list_form::<Transaction>(b.transactions);
    assert(BlockMessage::encoding(b) =~= BlockHeader::encoding(b.header) + varint_bytes(
        b.transactions.len() as u64,
    ) + glued(each::<Transaction>(b.transactions)));
}

/// Addresses that are told: when one was last seen, its services, the address and its port.
pub open spec fn addr_parts(list: Seq<NetworkAddrView>) -> Seq<Seq<u8>> {
    Seq::new(
        list.len(),
        |i: int|
            le_bytes(list[i].timestamp as nat, 4) + le_bytes(list[i].services as nat, 8)
                + list[i].ip + port_form(list[i].port),
    )
}

/// A message of addresses lists them behind their number.
pub proof fn lemma_addr_form(list: Seq<NetworkAddrView>)
    ensures
        AddrMessage::encoding(list) == varint_bytes(list.len() as u64) + glued(addr_parts(list)),
{
    lemma_list_form::<NetworkAddr>(list);
    assert forall|i: int| 0 <= i < list.len() implies each::<NetworkAddr>(list)[i]
        == #[trigger] addr_parts(list)[i] by {
        assert(NetworkAddr::encoding(list[i]) =~= addr_parts(list)[i]);
    }
    assert(each::<NetworkAddr>(list) =~= addr_parts(list));
}

} // verus!
