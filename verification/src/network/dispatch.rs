//! Hands the contents of a message to the part of the node that deals with them.

use crate::consensus::chain::ChainState;
use crate::consensus::chain_model::ChainView;
use crate::network::addrman::{told, AddressManager, AddressView};
use crate::network::discovery::{heard_all, told_count, PeerDiscovery};
use crate::network::keepalive::{answered, KeepaliveManager, PingState};
use crate::network::manager::{sent_counted, ManagerView, PeerManager};
use crate::network::mempool::{admission, offered, MempoolError, NetworkMempool, Pool};
use crate::network::message::{
    envelope, field_name, lemma_payload_reads_back, parse_command, NetworkMessage,
};
use crate::network::outgoing::{frame, Outgoing, OutgoingView};
use crate::network::protocol::{
    command_name, BlockMessage, HeadersMessage, MessagePayload, NetworkAddr, PayloadView,
    PongMessage,
};
use crate::network::relay::{
    blocks_for, inv_received, transaction_news, transactions_for, BlockRelay,
};
use crate::network::stats::{counted, NetworkStats};
use crate::network::sync::SyncManager;
use crate::network::sync_model::{headers_for, SyncView};
use crate::primitives::bytes::lemma_le_bytes_len;
use crate::primitives::serialize::{views, Decode, DecodeError, Encode};
use vstd::prelude::*;

verus! {

/// What remains to be done with a message, because it needs the proof-of-work hashes.
pub enum Next {
    Done,
    /// The block is relayed.
    Block(BlockMessage),
    /// The headers are handed to the synchronisation.
    Headers(HeadersMessage),
}

impl Next {
    /// Whether this is what remains of some contents.
    pub open spec fn remains_of(self, payload: PayloadView) -> bool {
        match payload {
            PayloadView::Block(block) => self matches Next::Block(m) && m@ == block,
            PayloadView::Headers(headers) => self matches Next::Headers(m) && m@ == headers,
            _ => self is Done,
        }
    }
}

/// What dispatching a message leads to.
#[verifier::ext_equal]
pub struct DispatchView {
    pub manager: ManagerView,
    pub sync: SyncView,
    pub pool: Pool,
    pub list: Seq<AddressView>,
    pub pings: Map<u64, PingState>,
    pub stats: NetworkStats,
    pub sends: Seq<OutgoingView>,
    /// What goes to all peers.
    pub broadcast: Option<PayloadView>,
}

/// The size of an answer to a ping.
pub const PONG_SIZE: usize = 32;

/// Contents are dispatched.
pub open spec fn dispatched(
    before: DispatchView,
    chain: ChainView,
    max_addresses: usize,
    id: u64,
    payload: PayloadView,
    now: u64,
) -> DispatchView {
    match payload {
        PayloadView::Ping(nonce) => DispatchView {
            manager: sent_counted(before.manager, id, PONG_SIZE as nat),
            stats: NetworkStats {
                messages_sent: counted(before.stats.messages_sent, 1),
                bytes_sent: counted(before.stats.bytes_sent, PONG_SIZE as int),
                ..before.stats
            },
            sends: if before.manager.peers.contains_key(id) {
                seq![
                    OutgoingView {
                        peer_id: id,
                        payload: PayloadView::Pong(nonce),
                        required: false,
                    },
                ]
            } else {
                Seq::empty()
            },
            ..before
        },
        PayloadView::Pong(nonce) => DispatchView {
            pings: if before.pings.contains_key(id) && before.pings[id].pending_nonce == Some(
                nonce,
            ) {
                before.pings.insert(id, answered(before.pings[id], now))
            } else {
                before.pings
            },
            ..before
        },
        PayloadView::Inv(inventory) => {
            let r = inv_received(before.sync, chain, before.pool, id, inventory, now);
            DispatchView { sync: r.sync, sends: r.sends, ..before }
        },
        PayloadView::GetData(inventory) => DispatchView {
            sends: blocks_for(chain, id, inventory, inventory.len()) + transactions_for(
                before.pool,
                id,
                inventory,
                inventory.len(),
            ),
            ..before
        },
        PayloadView::Tx(tx) => DispatchView {
            pool: offered(before.pool, chain.utxos, tx),
            stats: NetworkStats {
                transactions_received: counted(before.stats.transactions_received, 1),
                ..before.stats
            },
            broadcast: if admission(before.pool, chain.utxos, tx) == Ok::<bool, MempoolError>(
                true,
            ) {
                Some(transaction_news(tx.txid()))
            } else {
                None
            },
            ..before
        },
        PayloadView::GetHeaders(request) => DispatchView {
            sends: seq![
                OutgoingView {
                    peer_id: id,
                    payload: PayloadView::Headers(headers_for(chain, request)),
                    required: true,
                },
            ],
            ..before
        },
        PayloadView::Addr(addrs) => DispatchView {
            list: heard_all(before.list, max_addresses, addrs, addrs.len()),
            ..before
        },
        PayloadView::GetAddr(_) => DispatchView {
            sends: if before.list.len() == 0 {
                Seq::empty()
            } else {
                seq![
                    OutgoingView {
                        peer_id: id,
                        payload: PayloadView::Addr(
                            Seq::new(
                                told_count(before.list.len()),
                                |i: int| told(before.list[i]),
                            ),
                        ),
                        required: true,
                    },
                ]
            },
            ..before
        },
        _ => before,
    }
}

/// A ping of a connected peer is answered with its own number, and changes nothing of what
/// the node knows of the chain.
pub proof fn lemma_ping_is_answered(
    before: DispatchView,
    chain: ChainView,
    max_addresses: usize,
    id: u64,
    nonce: u64,
    now: u64,
)
    requires
        before.manager.peers.contains_key(id),
    ensures
        ({
            let d = dispatched(before, chain, max_addresses, id, PayloadView::Ping(nonce), now);
            &&& d.sends.len() == 1
            &&& d.sends[0].peer_id == id
            &&& d.sends[0].payload == PayloadView::Pong(nonce)
            &&& d.sync == before.sync
            &&& d.pool == before.pool
        }),
{
}

/// A request for addresses is answered with those that are known, up to the limit, in a
/// message that the peer can read.
pub proof fn lemma_getaddr_is_answered(
    before: DispatchView,
    chain: ChainView,
    max_addresses: usize,
    id: u64,
    magic: Seq<u8>,
    now: u64,
)
    requires
        before.list.len() > 0,
        forall|i: int| 0 <= i < before.list.len() ==> told(#[trigger] before.list[i]).ip.len() == 16,
    ensures
        ({
            let d = dispatched(before, chain, max_addresses, id, PayloadView::GetAddr(()), now);
            let answer = Seq::new(told_count(before.list.len()), |i: int| told(before.list[i]));
            let msg = envelope(
                magic,
                command_name(PayloadView::Addr(answer)),
                MessagePayload::encoding(PayloadView::Addr(answer)),
            );
            &&& d.sends.len() == 1
            &&& d.sends[0].peer_id == id
            &&& d.sends[0].payload == PayloadView::Addr(answer)
            &&& parse_command(field_name(msg.command), msg.payload) == Ok::<
                PayloadView,
                DecodeError,
            >(PayloadView::Addr(answer))
        }),
{
    let answer = Seq::new(told_count(before.list.len()), |i: int| told(before.list[i]));
    assert forall|i: int| 0 <= i < answer.len() implies NetworkAddr::decodable(
        #[trigger] answer[i],
    ) by {
        assert(answer[i] == told(before.list[i]));
    }
    lemma_payload_reads_back(magic, PayloadView::Addr(answer));
}

/// What dispatching a message asks for.
pub struct Dispatched {
    pub sends: Vec<Outgoing>,
    /// What goes to all peers.
    pub broadcast: Option<MessagePayload>,
    pub next: Next,
}

fn one(message: Outgoing) -> (r: Vec<Outgoing>)
    ensures
        views(r@) == seq![message@],
{
    let mut sends: Vec<Outgoing> = Vec::new();
    let ghost m = message@;
    sends.push(message);
    assert(views(sends@) =~= seq![m]);
    sends
}

fn none() -> (r: Vec<Outgoing>)
    ensures
        views(r@) == Seq::<OutgoingView>::empty(),
{
    let sends: Vec<Outgoing> = Vec::new();
    assert(views(sends@) =~= Seq::<OutgoingView>::empty());
    sends
}

fn only_sends(sends: Vec<Outgoing>) -> (r: Dispatched)
    ensures
        r.sends == sends,
        r.broadcast is None,
        r.next is Done,
{
    Dispatched { sends, broadcast: None, next: Next::Done }
}

impl PeerManager {
    /// Answers a ping.
    fn answer_ping(&mut self, id: u64, nonce: u64, stats: &mut NetworkStats) -> (sends: Vec<
        Outgoing,
    >)
        ensures
            final(self)@ == sent_counted(old(self)@, id, PONG_SIZE as nat),
            final(self).introduction() == old(self).introduction(),
            *final(stats) == (NetworkStats {
                messages_sent: counted(old(stats).messages_sent, 1),
                bytes_sent: counted(old(stats).bytes_sent, PONG_SIZE as int),
                ..*old(stats)
            }),
            views(sends@) == (if old(self)@.peers.contains_key(id) {
                seq![
                    OutgoingView {
                        peer_id: id,
                        payload: PayloadView::Pong(nonce),
                        required: false,
                    },
                ]
            } else {
                Seq::empty()
            }),
    {
        let payload = MessagePayload::Pong(PongMessage { nonce });
        let magic = self.magic();
        let resp = frame(magic, &payload);
        proof {
            lemma_le_bytes_len(nonce as nat, 8);
            lemma_le_bytes_len(resp@.length as nat, 4);
            assert(NetworkMessage::encoding(resp@).len() == PONG_SIZE);
        }
        let resp_size: usize = resp.encoded_size();
        let known: bool = self.record_sent(id, resp_size);
        stats.record_message_sent(resp_size);
        if known {
            one(Outgoing { peer_id: id, payload, required: false })
        } else {
            none()
        }
    }

    /// Hands the contents of a message to the part that deals with them.
    pub fn dispatch_message(
        &mut self,
        id: u64,
        payload: MessagePayload,
        chain: &ChainState,
        sync: &mut SyncManager,
        mempool: &mut NetworkMempool,
        addresses: &mut AddressManager,
        keepalive: &mut KeepaliveManager,
        stats: &mut NetworkStats,
        now: u64,
    ) -> (r: Dispatched)
        requires
            old(sync).valid(),
        ensures
            ({
                let before = DispatchView {
                    manager: old(self)@,
                    sync: old(sync)@,
                    pool: old(mempool)@,
                    list: old(addresses).list(),
                    pings: old(keepalive)@,
                    stats: *old(stats),
                    sends: Seq::empty(),
                    broadcast: None,
                };
                let want = dispatched(before, chain@, old(addresses).max(), id, payload@, now);
                &&& final(self)@ == want.manager
                &&& final(sync)@ == want.sync
                &&& final(mempool)@ == want.pool
                &&& final(addresses).list() == want.list
                &&& final(keepalive)@ == want.pings
                &&& *final(stats) == want.stats
                &&& views(r.sends@) == want.sends
                &&& match r.broadcast {
                    Some(p) => want.broadcast == Some(p@),
                    None => want.broadcast is None,
                }
            }),
            r.next.remains_of(payload@),
            final(self).introduction() == old(self).introduction(),
            final(sync).valid(),
            final(addresses).max() == old(addresses).max(),
            old(addresses).valid() ==> final(addresses).valid(),
    {
        match payload {
            MessagePayload::Ping(ping) => {
                let sends = self.answer_ping(id, ping.nonce, stats);
                only_sends(sends)
            },
            MessagePayload::Pong(pong) => {
                let _ = keepalive.handle_pong(id, pong.nonce, now);
                only_sends(none())
            },
            MessagePayload::Inv(inv) => {
                let sends = BlockRelay::handle_inv(sync, chain, &*mempool, id, &inv, now);
                only_sends(sends)
            },
            MessagePayload::GetData(getdata) => {
                let sends = BlockRelay::handle_getdata(chain, &*mempool, id, &getdata);
                only_sends(sends)
            },
            MessagePayload::Block(block) => {
                Dispatched { sends: none(), broadcast: None, next: Next::Block(block) }
            },
            MessagePayload::Tx(tx) => {
                let broadcast = match BlockRelay::handle_transaction(
                    mempool,
                    chain,
                    &tx.transaction,
                ) {
                    Ok(news) => news,
                    Err(_) => None,
                };
                stats.record_transaction_received();
                Dispatched { sends: none(), broadcast, next: Next::Done }
            },
            MessagePayload::Headers(headers) => {
                Dispatched { sends: none(), broadcast: None, next: Next::Headers(headers) }
            },
            MessagePayload::GetHeaders(getheaders) => {
                let answer = SyncManager::handle_getheaders(chain, id, &getheaders);
                only_sends(one(answer))
            },
            MessagePayload::Addr(addr) => {
                PeerDiscovery::handle_addr(addresses, &addr);
                only_sends(none())
            },
            MessagePayload::GetAddr(_) => {
                match PeerDiscovery::handle_getaddr(&*addresses, id) {
                    Some(answer) => only_sends(one(answer)),
                    None => only_sends(none()),
                }
            },
            _ => only_sends(none()),
        }
    }
}

} // verus!
