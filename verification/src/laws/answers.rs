//! What is answered, and what events lead to.

use crate::consensus::block::BlockHeaderView;
use crate::consensus::chain_model::{locator, ChainView};
use crate::consensus::merkle::zero_hash;
use crate::network::address::{ip_key, mapped_octets, IpAddrView, SocketAddrView};
use crate::network::addrman::SECONDS_PER_DAY;
use crate::network::batch::waiting;
use crate::network::diagnostics::known_of;
use crate::network::dispatch::{dispatched, DispatchView};
use crate::network::dos::accepts_inbound;
use crate::network::handshake::{own_version, stepped, Handshake, HandshakeError, Phase};
use crate::network::headers::{fork_after, headers_down, locator_height, tip_height};
use crate::network::inspect::is_trusted;
use crate::network::manager::{inventory_told, knocked, ManagerView};
use crate::network::mempool::{admission, offered, MempoolError};
use crate::network::message::{
    field_name, kind_of_name, lemma_command_name_kind, MessageKind, NetworkMessageView,
};
use crate::network::peer::{our_version_message, PeerState, PeerView};
use crate::network::protocol::{command_name, GetHeadersView, InvVector, PayloadView};
use crate::network::recovery::{seeds_forgiven, tip_age};
use crate::network::security::{codes, entries_of, last_twenty, surrounded, younger, SecurityView};
use crate::network::sync_model::{
    active_height, anchored, filed, first_missing, has_block, header_work, headers_for,
    headers_up_to, height_behind, is_first_missing, known_height, lemma_headers_up_to, peer_lost,
    peers_without, stands_at, sync_started, SyncView,
};
use crate::storage::blocks::{
    hash_at_height, header_at, header_at_height, meta_at, BlockMetaView, Lookup,
};
use vstd::arithmetic::power::pow;
use vstd::prelude::*;

verus! {

/// Why an answer of headers has no more of them: there is no other in the chain, the last is the one
/// that was asked for last, or there are as many as a message may hold.
pub open spec fn answer_ends(
    chain: ChainView,
    height: int,
    stop_hash: Seq<u8>,
    n: nat,
    answer: Seq<BlockHeaderView>,
) -> bool {
    ||| answer.len() == n
    ||| height + answer.len() > u64::MAX
    ||| !(exists|h: BlockHeaderView| #[trigger] stands_at(chain, height + answer.len(), h))
    ||| answer.len() > 0 && hash_at_height(chain.blocks, (height + answer.len() - 1) as u64)
        == Lookup::<Seq<u8>>::Ok(Some(stop_hash))
}

proof fn lemma_answer_ends(chain: ChainView, height: int, stop_hash: Seq<u8>, n: nat)
    requires
        height >= 0,
    ensures
        answer_ends(
            chain,
            height,
            stop_hash,
            n,
            headers_up_to(chain, height, stop_hash, n),
        ),
    decreases n,
{
    let r = headers_up_to(chain, height, stop_hash, n);
    if n > 0 && height <= u64::MAX {
        if let Ok(Some(hash)) = hash_at_height(chain.blocks, height as u64) {
            if let Ok(Some(h)) = header_at(chain.blocks, hash) {
                lemma_answer_ends(chain, height + 1, stop_hash, (n - 1) as nat);
                let rest = headers_up_to(chain, height + 1, stop_hash, (n - 1) as nat);
                if r.len() > 1 {
                    assert(r == seq![h] + rest);
                }
            }
        }
    }
}

/// A request for headers is answered with those of the active chain behind the first entry of its
/// locator that is in it, one height after the other, up to two thousand, to the end of the chain or
/// to the one that it names.
pub proof fn lemma_headers_answered(chain: ChainView, request: GetHeadersView)
    ensures
        ({
            let from = height_behind(chain, request.block_locator);
            let answer = headers_for(chain, request);
            &&& from >= 0
            &&& answer.len() <= 2000
            &&& forall|i: int|
                0 <= i < answer.len() ==> stands_at(chain, from + i, #[trigger] answer[i])
            &&& answer_ends(chain, from, request.stop_hash, 2000, answer)
        }),
{
    let from = height_behind(chain, request.block_locator);
    lemma_behind(chain, request.block_locator);
    lemma_headers_up_to(chain, from, request.stop_hash, 2000);
    lemma_answer_ends(chain, from, request.stop_hash, 2000);
}

proof fn lemma_behind(chain: ChainView, locator: Seq<Seq<u8>>)
    ensures
        height_behind(chain, locator) >= 0,
    decreases locator.len(),
{
    if locator.len() > 0 && active_height(chain, locator[0]) is None {
        lemma_behind(chain, locator.skip(1));
    }
}

/// Headers are told from behind the first entry that is in the active chain, or from the first block.
pub proof fn lemma_first_entry_counts(chain: ChainView, locator: Seq<Seq<u8>>, i: int)
    requires
        0 <= i <= locator.len(),
        forall|j: int| 0 <= j < i ==> active_height(chain, #[trigger] locator[j]) is None,
    ensures
        i == locator.len() ==> height_behind(chain, locator) == 0,
        i < locator.len() && active_height(chain, locator[i]) is Some ==> height_behind(
            chain,
            locator,
        ) == active_height(chain, locator[i])->Some_0 + 1,
    decreases i,
{
    if i > 0 {
        assert(active_height(chain, locator[0]) is None);
        let rest = locator.skip(1);
        assert forall|j: int| 0 <= j < i - 1 implies active_height(chain, #[trigger] rest[j])
            is None by {
            assert(rest[j] == locator[j + 1]);
        }
        lemma_first_entry_counts(chain, rest, i - 1);
        if i < locator.len() {
            assert(rest[i - 1] == locator[i]);
        }
    }
}

/// A block is in the active chain exactly if its height is known and the chain has it there.
pub proof fn lemma_in_active_chain(chain: ChainView, hash: Seq<u8>, height: u64)
    ensures
        active_height(chain, hash) == Some(height) <==> known_height(chain, hash) == Some(height)
            && hash_at_height(chain.blocks, height) == Lookup::<Seq<u8>>::Ok(Some(hash)),
        known_height(chain, hash) == Some(height) ==> chain.height_of(hash) == height,
{
}

/// A ping is answered with its number, a pong that carries the number of the last ping clears it.
pub proof fn lemma_pings_dispatched(
    before: DispatchView,
    chain: ChainView,
    max: usize,
    id: u64,
    nonce: u64,
    now: u64,
)
    ensures
        ({
            let r = dispatched(before, chain, max, id, PayloadView::Ping(nonce), now);
            &&& before.manager.peers.contains_key(id) ==> r.sends.len() == 1 && r.sends[0].peer_id
                == id && r.sends[0].payload == PayloadView::Pong(nonce)
            &&& !before.manager.peers.contains_key(id) ==> r.sends.len() == 0
            &&& r.sync == before.sync && r.pool == before.pool && r.list == before.list && r.pings
                == before.pings
        }),
        ({
            let r = dispatched(before, chain, max, id, PayloadView::Pong(nonce), now);
            &&& before.pings.contains_key(id) && before.pings[id].pending_nonce == Some(nonce)
                ==> r.pings[id].pending_nonce is None && r.pings[id].missed_pongs == 0
                && r.pings[id].last_pong_received == now
            &&& !(before.pings.contains_key(id) && before.pings[id].pending_nonce == Some(nonce))
                ==> r.pings == before.pings
            &&& r.sync == before.sync && r.pool == before.pool && r.manager == before.manager
        }),
{
}

/// A transaction that a peer sends is offered to the pool, and told of exactly if it is taken.
pub proof fn lemma_transaction_dispatched(
    before: DispatchView,
    chain: ChainView,
    max: usize,
    id: u64,
    tx: crate::consensus::transaction::TransactionView,
    now: u64,
)
    ensures
        ({
            let r = dispatched(before, chain, max, id, PayloadView::Tx(tx), now);
            let taken = admission(before.pool, chain.utxos, tx) == Ok::<bool, MempoolError>(true);
            &&& r.pool == offered(before.pool, chain.utxos, tx)
            &&& taken <==> r.broadcast is Some
            &&& taken ==> r.broadcast->Some_0 is Inv && r.broadcast->Some_0->Inv_0.len() == 1
                && r.broadcast->Some_0->Inv_0[0].inv_type == 1
                && r.broadcast->Some_0->Inv_0[0].hash == tx.txid()
            &&& r.sync == before.sync && r.list == before.list && r.manager == before.manager
        }),
{
}

/// Up to a thousand addresses are told, from the front, and nothing where none is known.
pub proof fn lemma_addresses_dispatched(
    before: DispatchView,
    chain: ChainView,
    max: usize,
    id: u64,
    now: u64,
    i: int,
)
    requires
        0 <= i < before.list.len(),
        i < 1000,
    ensures
        ({
            let r = dispatched(before, chain, max, id, PayloadView::GetAddr(()), now);
            &&& r.sends.len() == 1
            &&& r.sends[0].peer_id == id
            &&& r.sends[0].payload is Addr
            &&& r.sends[0].payload->Addr_0.len() <= 1000
            &&& i < r.sends[0].payload->Addr_0.len()
            &&& r.sends[0].payload->Addr_0[i].ip == mapped_octets(before.list[i].addr.ip)
            &&& r.sends[0].payload->Addr_0[i].port == before.list[i].addr.port
            &&& r.sends[0].payload->Addr_0[i].timestamp == before.list[i].timestamp
            &&& r.sends[0].payload->Addr_0[i].services == before.list[i].services
            &&& before.list.len() <= 1000 ==> r.sends[0].payload->Addr_0.len() == before.list.len()
        }),
{
}

/// A request for headers, blocks or transactions changes nothing but what is sent.
pub proof fn lemma_requests_change_nothing(
    before: DispatchView,
    chain: ChainView,
    max: usize,
    id: u64,
    payload: PayloadView,
    now: u64,
)
    requires
        payload is GetHeaders || payload is GetData || payload is GetAddr,
    ensures
        ({
            let r = dispatched(before, chain, max, id, payload, now);
            &&& r == (DispatchView { sends: r.sends, ..before })
            &&& payload is GetHeaders ==> r.sends.len() == 1 && r.sends[0].peer_id == id
                && r.sends[0].payload == PayloadView::Headers(
                headers_for(chain, payload->GetHeaders_0),
            )
        }),
{
}

/// After our version was acknowledged a peer whose version was read is active; pings are passed over,
/// and all else ends the handshake.
pub proof fn lemma_acknowledged(h: Handshake, p: PeerView, m: NetworkMessageView, timestamp: i64)
    requires
        h.phase == Phase::AwaitVerack,
    ensures
        ({
            let r = stepped(h, p, m, timestamp);
            let kind = kind_of_name(field_name(m.command));
            &&& kind == Some(MessageKind::Verack) && p.state == PeerState::VersionReceived
                ==> r.result is Ok && r.handshake.phase == Phase::Done && r.peer.state
                == PeerState::Active
            &&& kind == Some(MessageKind::Verack) && p.state != PeerState::VersionReceived
                ==> r.result is Err
            &&& kind == Some(MessageKind::Ping) ==> r.result is Ok && r.handshake == h && r.peer == p
            &&& kind != Some(MessageKind::Verack) && kind != Some(MessageKind::Ping)
                ==> r.result is Err && r.handshake == h && r.peer == p
            &&& r.sends.len() == 0
        }),
{
}

/// Before a version nothing else is taken.
pub proof fn lemma_version_first(h: Handshake, p: PeerView, m: NetworkMessageView, timestamp: i64)
    requires
        h.phase == Phase::AwaitVersion,
        kind_of_name(field_name(m.command)) != Some(MessageKind::Version),
    ensures
        stepped(h, p, m, timestamp).result == Err::<(), HandshakeError>(
            HandshakeError::ExpectedVersion,
        ),
        stepped(h, p, m, timestamp).peer == p,
        stepped(h, p, m, timestamp).handshake == h,
        stepped(h, p, m, timestamp).sends.len() == 0,
{
}

/// What we say of ourselves, and to whom.
pub proof fn lemma_own_version(
    p: PeerView,
    version: u32,
    services: u64,
    height: u32,
    nonce: u64,
    timestamp: i64,
)
    ensures
        ({
            let m = our_version_message(p, version, services, height, nonce, timestamp);
            &&& m.version == version
            &&& m.services == services
            &&& m.timestamp == timestamp
            &&& m.nonce == nonce
            &&& m.start_height == height
            &&& m.receiver.ip == mapped_octets(p.addr.ip)
            &&& m.receiver.port == p.addr.port
            &&& m.sender.services == services
            &&& m.sender.port == 0
            &&& m.user_agent == "/Ferrous:0.1.0/"@
        }),
{
}

/// The names of the commands, letter by letter.
pub proof fn lemma_command_names()
    ensures
        kind_of_name(seq![118u8, 101, 114, 115, 105, 111, 110]) == Some(MessageKind::Version),
        kind_of_name(seq![118u8, 101, 114, 97, 99, 107]) == Some(MessageKind::Verack),
        kind_of_name(seq![112u8, 105, 110, 103]) == Some(MessageKind::Ping),
        kind_of_name(seq![112u8, 111, 110, 103]) == Some(MessageKind::Pong),
        kind_of_name(seq![105u8, 110, 118]) == Some(MessageKind::Inv),
        kind_of_name(seq![103u8, 101, 116, 100, 97, 116, 97]) == Some(MessageKind::GetData),
        kind_of_name(seq![98u8, 108, 111, 99, 107]) == Some(MessageKind::Block),
        kind_of_name(seq![103u8, 101, 116, 104, 101, 97, 100, 101, 114, 115]) == Some(
            MessageKind::GetHeaders,
        ),
        kind_of_name(seq![104u8, 101, 97, 100, 101, 114, 115]) == Some(MessageKind::Headers),
        kind_of_name(seq![116u8, 120]) == Some(MessageKind::Tx),
        kind_of_name(seq![97u8, 100, 100, 114]) == Some(MessageKind::Addr),
        kind_of_name(seq![103u8, 101, 116, 97, 100, 100, 114]) == Some(MessageKind::GetAddr),
{
    let version = seq![118u8, 101, 114, 115, 105, 111, 110];
    let verack = seq![118u8, 101, 114, 97, 99, 107];
    let ping = seq![112u8, 105, 110, 103];
    let pong = seq![112u8, 111, 110, 103];
    let inv = seq![105u8, 110, 118];
    let getdata = seq![103u8, 101, 116, 100, 97, 116, 97];
    let block = seq![98u8, 108, 111, 99, 107];
    let getheaders = seq![103u8, 101, 116, 104, 101, 97, 100, 101, 114, 115];
    let headers = seq![104u8, 101, 97, 100, 101, 114, 115];
    let tx = seq![116u8, 120];
    let addr = seq![97u8, 100, 100, 114];
    let getaddr = seq![103u8, 101, 116, 97, 100, 100, 114];
    assert(version.len() == 7 && verack.len() == 6 && ping.len() == 4 && pong.len() == 4 && inv.len()
        == 3 && getdata.len() == 7 && block.len() == 5 && getheaders.len() == 10 && headers.len()
        == 7 && tx.len() == 2 && addr.len() == 4 && getaddr.len() == 7);
    assert(pong[1] != ping[1]);
    assert(addr[0] != ping[0] && addr[0] != pong[0]);
    assert(getdata[0] != version[0]);
    assert(headers[0] != version[0] && headers[0] != getdata[0]);
    assert(getaddr[0] != version[0] && getaddr[0] != headers[0] && getaddr[3] != getdata[3]);
}

/// A connection that is refused bars its address like one that failed; trusted ones leave no trace.
pub proof fn lemma_knocks(m: ManagerView, ip: IpAddrView, now: u64)
    ensures
        is_trusted(ip) ==> knocked(m, ip, now) == m,
        !is_trusted(ip) && !accepts_inbound(m.dos, ip_key(ip), now) ==> knocked(
            m,
            ip,
            now,
        ).dos.failed.contains_key(ip_key(ip)) && knocked(m, ip, now).dos.failed[ip_key(ip)] == now,
        !is_trusted(ip) && accepts_inbound(m.dos, ip_key(ip), now) ==> knocked(m, ip, now).dos.failed
            == m.dos.failed,
        knocked(m, ip, now).peers == m.peers,
        knocked(m, ip, now).next_id == m.next_id,
{
}

/// What a peer was told is not told it again; what it was not told is, and is remembered.
pub proof fn lemma_told_once(
    b: crate::network::batch::BatcherView,
    c: crate::network::batch::CacheView,
    item: InvVector,
    id: u64,
    now: u64,
)
    requires
        c.max > 0,
    ensures
        ({
            let (b1, c1) = inventory_told(b, c, item, seq![id], 1, now);
            let known = waiting(c.sent, id).contains(item.hash@);
            &&& known ==> b1 == b && c1 == c
            &&& !known ==> waiting(b1.inv, id).len() == waiting(b.inv, id).len() + 1 && waiting(
                b1.inv,
                id,
            ).last() == item
            &&& !known ==> b1.started.contains_key(id)
            &&& !known ==> waiting(c1.sent, id).len() > 0 && waiting(c1.sent, id).last()
                == item.hash@
            &&& b1.getdata == b.getdata && b1.addr == b.addr
        }),
{
    reveal_with_fuel(inventory_told, 2);
}

/// The tip is as old as the time since its stamp, or new.
pub proof fn lemma_tip_age(chain: ChainView, time: u64)
    requires
        chain.tip is Some,
        chain.cached(chain.tip->Some_0) is Some,
    ensures
        ({
            let stamp = chain.cached(chain.tip->Some_0)->Some_0.block.header.timestamp;
            &&& time >= stamp ==> tip_age(chain, time) + stamp == time
            &&& time < stamp ==> tip_age(chain, time) == 0
        }),
{
}

/// Seeds may be tried again at once; nothing else is forgiven.
pub proof fn lemma_seeds_forgiven(
    m: ManagerView,
    seeds: Seq<SocketAddrView>,
    n: nat,
    key: Seq<u8>,
)
    requires
        n <= seeds.len(),
    ensures
        seeds_forgiven(m, seeds, n).dos.failed.contains_key(key) <==> m.dos.failed.contains_key(key)
            && forall|i: int| 0 <= i < n ==> ip_key((#[trigger] seeds[i]).ip) != key,
        seeds_forgiven(m, seeds, n).peers == m.peers,
        seeds_forgiven(m, seeds, n).dos.connections == m.dos.connections,
    decreases n,
{
    if n > 0 {
        lemma_seeds_forgiven(m, seeds, (n - 1) as nat, key);
    }
}

/// Connections look as if someone surrounded the node exactly if more than seven of at least ten
/// within five minutes are of one network, or the last twenty are of at most two.
pub proof fn lemma_surrounded_iff(v: SecurityView, now: u64)
    ensures
        surrounded(v, now) <==> {
            ||| younger(v.history, 300_000_000_000, now).len() >= 10 && exists|code: u64|
                #[trigger] entries_of(younger(v.history, 300_000_000_000, now), code) > 7
            ||| v.history.len() >= 20 && codes(
                v.history.subrange(v.history.len() - 20, v.history.len() as int),
            ).to_set().len() <= 2
        },
{
    if v.history.len() >= 20 {
        assert(last_twenty(v.history) =~= v.history.subrange(
            v.history.len() - 20,
            v.history.len() as int,
        ));
    }
}

/// The first block that is missing is the lowest that the headers name and that is not stored.
pub proof fn lemma_first_missing(
    chain: ChainView,
    by_height: Map<u64, Seq<u8>>,
    total: u32,
    height: u64,
)
    requires
        by_height.contains_key(height),
        !has_block(chain, by_height[height]),
        forall|k: u64|
            k < height && by_height.contains_key(k) ==> has_block(chain, #[trigger] by_height[k]),
    ensures
        first_missing(chain, by_height, total) == height,
{
    assert(is_first_missing(chain, by_height, height)) by {
        assert forall|k: u64| k < height && by_height.contains_key(k) implies #[trigger] has_block(
            chain,
            by_height[k],
        ) by {}
    }
    let h = choose|h: u64| is_first_missing(chain, by_height, h);
    if h < height {
        assert(has_block(chain, by_height[h]));
    } else if height < h {
        assert(has_block(chain, by_height[height]));
    }
}

/// Headers that were read are filed under their heights and hashes, the last of a height counting.
pub proof fn lemma_headers_filed(
    v: SyncView,
    stored: Seq<(BlockHeaderView, u64)>,
    n: nat,
    i: int,
)
    requires
        n <= stored.len(),
        0 <= i < n,
        forall|j: int| 0 <= j < n ==> (#[trigger] stored[j]).1 <= 0xFFFF_FFFF,
        forall|j: int| i < j < n ==> (#[trigger] stored[j]).1 != stored[i].1,
    ensures
        filed(v, stored, n).by_height.contains_key(stored[i].1),
        filed(v, stored, n).by_height[stored[i].1] == stored[i].0.hash(),
        filed(v, stored, n).queue == v.queue,
        filed(v, stored, n).buffer == v.buffer,
    decreases n,
{
    let m = (n - 1) as nat;
    assert(stored[m as int].1 <= 0xFFFF_FFFF);
    if i < m {
        lemma_headers_filed(v, stored, m, i);
        assert(stored[m as int].1 != stored[i].1);
    } else {
        lemma_filed_keeps(v, stored, m);
    }
}

proof fn lemma_filed_keeps(v: SyncView, stored: Seq<(BlockHeaderView, u64)>, n: nat)
    ensures
        filed(v, stored, n).queue == v.queue,
        filed(v, stored, n).buffer == v.buffer,
    decreases n,
{
    if n > 0 {
        lemma_filed_keeps(v, stored, (n - 1) as nat);
    }
}

/// Up to eleven headers are read downwards, each from the height below.
pub proof fn lemma_headers_downwards(chain: ChainView, height: u32, n: nat, i: int)
    requires
        0 <= i < headers_down(chain, height, n).len(),
    ensures
        headers_down(chain, height, n).len() <= n,
        i <= height,
        header_at_height(chain.blocks, (height - i) as u64) == Lookup::<BlockHeaderView>::Ok(
            Some(headers_down(chain, height, n)[i]),
        ),
    decreases n,
{
    if n > 0 {
        if let Ok(Some(h)) = header_at_height(chain.blocks, height as u64) {
            if height > 0 {
                let rest = headers_down(chain, (height - 1) as u32, (n - 1) as nat);
                let all = headers_down(chain, height, n);
                assert(all == seq![h] + rest);
                if rest.len() > 0 {
                    lemma_headers_downwards(
                        chain,
                        (height - 1) as u32,
                        (n - 1) as nat,
                        if i > 0 {
                            i - 1
                        } else {
                            0
                        },
                    );
                }
                if i > 0 {
                    assert(all[i] == rest[i - 1]);
                }
            }
        }
    }
}

/// Headers leave the active chain at the first height, up to the tip, at which it has another block.
pub proof fn lemma_fork_found(
    chain: ChainView,
    start: Option<u32>,
    hash: Seq<u8>,
    height: u32,
)
    ensures
        start is Some ==> fork_after(chain, start, hash, height) == start,
        start is None && height > tip_height(chain) as u32 ==> fork_after(
            chain,
            start,
            hash,
            height,
        ) is None,
        start is None && height <= tip_height(chain) as u32 ==> (fork_after(
            chain,
            start,
            hash,
            height,
        ) is None <==> (crate::storage::blocks::block_at_height(chain.blocks, height as u64) matches Ok(
            Some(b),
        ) && b.hash() == hash)),
        fork_after(chain, None, hash, height) is Some ==> fork_after(chain, None, hash, height)
            == Some(height),
{
}

/// The height of an entry of a locator is that of the first with its hash.
pub proof fn lemma_entry_height(locator: Seq<(Seq<u8>, u64)>, i: int)
    requires
        0 <= i < locator.len(),
        forall|j: int| 0 <= j < i ==> (#[trigger] locator[j]).0 != locator[i].0,
    ensures
        locator_height(locator, locator[i].0) == Some(locator[i].1),
    decreases i,
{
    if i > 0 {
        let rest = locator.skip(1);
        assert(locator[0].0 != locator[i].0);
        assert forall|j: int| 0 <= j < i - 1 implies (#[trigger] rest[j]).0 != rest[i - 1].0 by {
            assert(rest[j] == locator[j + 1]);
        }
        lemma_entry_height(rest, i - 1);
    }
}

/// A peer that is lost no longer takes part, and what it was to send waits again.
pub proof fn lemma_lost_peer(v: SyncView, id: u64, now: u64)
    ensures
        v.state is DownloadingBlocks ==> {
            let s = peer_lost(v, id, now).sync.state;
            &&& s is DownloadingBlocks
            &&& s->active_peers == peers_without(v.state->active_peers, id)
            &&& s->next_apply_height == v.state->next_apply_height
            &&& s->total_height == v.state->total_height
        },
        !(v.state is DownloadingBlocks) ==> peer_lost(v, id, now).sync.state == v.state
            && peer_lost(v, id, now).sends.len() == 0,
        peer_lost(v, id, now).sync.buffer == v.buffer,
{
}

/// What is known of a peer is told as it is.
pub proof fn lemma_peer_told(p: PeerView, now: u64)
    requires
        now >= p.connected_at,
        now >= p.last_recv,
        now >= p.bandwidth_start,
    ensures
        ({
            let d = known_of(p, now);
            &&& d.peer_id == p.id
            &&& d.address == p.addr
            &&& d.inbound == p.inbound
            &&& d.connected_duration == now - p.connected_at
            &&& d.last_message == now - p.last_recv
            &&& d.version == p.version
            &&& d.services == p.services
            &&& d.start_height == p.start_height
            &&& d.ban_score == p.ban_score
            &&& d.bytes_sent == p.bytes_sent
            &&& d.bytes_received == p.bytes_received
            &&& d.measured == now - p.bandwidth_start
        }),
{
}

/// Ages of addresses are counted in days of 86400 seconds.
pub proof fn lemma_day()
    ensures
        SECONDS_PER_DAY == 86_400,
{
}

/// The work behind a header is what is stored of it, or its own and what lies behind its predecessor.
pub proof fn lemma_work_adds_up(chain: ChainView, hash: Seq<u8>, steps: nat)
    requires
        meta_at(chain.blocks, hash) == Lookup::<BlockMetaView>::Ok(None),
        header_at(chain.blocks, hash) matches Ok(Some(_)),
    ensures
        ({
            let h = header_at(chain.blocks, hash)->Ok_0->Some_0;
            let behind = header_work(chain, h.prev_block_hash, steps);
            &&& h.prev_block_hash != zero_hash() && behind is Some ==> header_work(
                chain,
                hash,
                steps + 1,
            ) == Some((behind->Some_0 + h.work()) % (pow(256, 32) as nat))
            &&& h.prev_block_hash != zero_hash() && behind is None ==> header_work(
                chain,
                hash,
                steps + 1,
            ) is None
            &&& h.prev_block_hash == zero_hash() ==> header_work(chain, hash, steps) == Some(
                h.work() % (pow(256, 32) as nat),
            )
        }),
{
}

/// The work of a stored block is what is stored of it.
pub proof fn lemma_stored_work(chain: ChainView, hash: Seq<u8>, steps: nat, m: BlockMetaView)
    requires
        meta_at(chain.blocks, hash) == Lookup::<BlockMetaView>::Ok(Some(m)),
    ensures
        header_work(chain, hash, steps) == Some(m.cumulative_work),
{
}

/// The header that a batch builds on is filed where nothing is filed yet, and replaces nothing.
pub proof fn lemma_anchor(v: SyncView, height: u32, hash: Seq<u8>)
    ensures
        anchored(v, height, hash).by_height.contains_key(height as u64),
        v.by_height.contains_key(height as u64) ==> anchored(v, height, hash).by_height
            == v.by_height,
        !v.by_height.contains_key(height as u64) ==> anchored(v, height, hash).by_height[
            height as u64] == hash,
        anchored(v, height, hash).by_hash.contains_key(hash),
        !v.by_hash.contains_key(hash) ==> anchored(v, height, hash).by_hash[hash] == height,
        anchored(v, height, hash).queue == v.queue,
{
}

/// A peer to synchronise with is asked for headers from the locator of the chain on, unless headers
/// or blocks are being fetched.
pub proof fn lemma_sync_starts(v: SyncView, chain: ChainView, id: u64, now: u64)
    ensures
        v.state is DownloadingHeaders ==> sync_started(v, chain, id, now).sync == v && sync_started(
            v,
            chain,
            id,
            now,
        ).sends.len() == 0,
        v.state is Idle || v.state is Synced ==> {
            let r = sync_started(v, chain, id, now);
            &&& r.sync.state is DownloadingHeaders
            &&& r.sync.state->peer_id == id
            &&& r.sends.len() >= 1
            &&& r.sends[0].peer_id == id
            &&& r.sends[0].payload is GetHeaders
            &&& r.sends[0].payload->GetHeaders_0.block_locator.len() == locator(chain).len()
            &&& forall|i: int|
                0 <= i < locator(chain).len() ==> (
                #[trigger] r.sends[0].payload->GetHeaders_0.block_locator[i]) == locator(chain)[i].0
            &&& r.sync.locator == locator(chain)
            &&& r.sync.by_height.dom() == Set::<u64>::empty()
            &&& r.sync.queue.pending.len() == 0
        },
{
}

/// The names that commands are sent under, letter by letter.
pub proof fn lemma_sent_names(p: PayloadView)
    ensures
        kind_of_name(command_name(p)) is Some,
        p is Version <==> kind_of_name(command_name(p)) == Some(MessageKind::Version),
        p is Verack <==> kind_of_name(command_name(p)) == Some(MessageKind::Verack),
        p is Ping <==> kind_of_name(command_name(p)) == Some(MessageKind::Ping),
        p is Pong <==> kind_of_name(command_name(p)) == Some(MessageKind::Pong),
        p is Inv <==> kind_of_name(command_name(p)) == Some(MessageKind::Inv),
        p is GetData <==> kind_of_name(command_name(p)) == Some(MessageKind::GetData),
        p is Block <==> kind_of_name(command_name(p)) == Some(MessageKind::Block),
        p is GetHeaders <==> kind_of_name(command_name(p)) == Some(MessageKind::GetHeaders),
        p is Headers <==> kind_of_name(command_name(p)) == Some(MessageKind::Headers),
        p is Tx <==> kind_of_name(command_name(p)) == Some(MessageKind::Tx),
        p is Addr <==> kind_of_name(command_name(p)) == Some(MessageKind::Addr),
        p is GetAddr <==> kind_of_name(command_name(p)) == Some(MessageKind::GetAddr),
{
    lemma_command_name_kind(p);
}

/// The version that a handshake sends is made of what the handshake was begun with.
pub proof fn lemma_version_sent(h: Handshake, p: PeerView, timestamp: i64)
    ensures
        own_version(h, p, timestamp) is Version,
        ({
            let m = own_version(h, p, timestamp)->Version_0;
            &&& m.version == h.our_version
            &&& m.services == h.our_services
            &&& m.start_height == h.our_height
            &&& m.nonce == h.our_nonce
            &&& m.timestamp == timestamp
            &&& m.receiver.ip == mapped_octets(p.addr.ip)
        }),
{
}

} // verus!
