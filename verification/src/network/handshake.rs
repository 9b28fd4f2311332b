//! The first messages between two peers.

use crate::network::message::{field_name, kind_of_name, MessageKind, NetworkMessage, NetworkMessageView};
use crate::network::peer::{
    our_version_message, version_fault, with_version, Peer, PeerError, PeerState, PeerView,
};
use crate::network::protocol::{MessagePayload, PayloadView, VersionMessage, VersionView};
use crate::primitives::serialize::{views, Decode, DecodeError, Encode};
use vstd::prelude::*;

verus! {

/// Nanoseconds within which a handshake has to be done.
pub const HANDSHAKE_TIMEOUT: u64 = 30_000_000_000;

/// Why a handshake failed.
#[derive(Debug, Clone, Copy, PartialEq, Eq, Structural)]
pub enum HandshakeError {
    TimeoutVersion,
    TimeoutVerack,
    ExpectedVersion,
    ExpectedVerack,
    DuplicateVersion,
    BadVersion(DecodeError),
    ConnectedToSelf,
    Peer(PeerError),
}

/// What is waited for.
#[derive(Debug, Clone, Copy, PartialEq, Eq, Structural)]
pub enum Phase {
    AwaitVersion,
    AwaitVerack,
    Done,
}

/// A handshake under way.
#[derive(Debug, Clone, Copy)]
pub struct Handshake {
    /// Whether the peer opened the connection.
    pub inbound: bool,
    pub phase: Phase,
    pub our_version: u32,
    pub our_services: u64,
    pub our_height: u32,
    pub our_nonce: u64,
    pub started: u64,
}

/// What a message leads to.
pub struct Stepped {
    pub handshake: Handshake,
    pub peer: PeerView,
    /// What goes out, also where the handshake fails.
    pub sends: Seq<PayloadView>,
    pub result: Result<(), HandshakeError>,
}

/// The answer to a message.
#[derive(Debug, PartialEq)]
pub struct HandshakeReply {
    /// What goes out, also where the handshake fails.
    pub sends: Vec<MessagePayload>,
    pub result: Result<(), HandshakeError>,
}

/// A message after which nothing goes out and the handshake has failed.
pub open spec fn refused(h: Handshake, p: PeerView, e: HandshakeError) -> Stepped {
    Stepped { handshake: h, peer: p, sends: Seq::empty(), result: Err(e) }
}

/// The message in which a handshake says who we are.
pub open spec fn own_version(h: Handshake, p: PeerView, timestamp: i64) -> PayloadView {
    PayloadView::Version(
        our_version_message(
            p,
            h.our_version,
            h.our_services,
            h.our_height,
            h.our_nonce,
            timestamp,
        ),
    )
}

/// The version message of a peer was read. To one that opened the connection our
/// own comes first, so that it receives it before the answer, and also where it is
/// refused.
pub open spec fn version_read(h: Handshake, p: PeerView, m: VersionView, timestamp: i64) -> Stepped {
    if m.nonce == h.our_nonce {
        refused(h, p, HandshakeError::ConnectedToSelf)
    } else {
        let p1 = if h.inbound {
            PeerView { state: PeerState::VersionSent, ..p }
        } else {
            p
        };
        let first = if h.inbound {
            seq![own_version(h, p, timestamp)]
        } else {
            Seq::empty()
        };
        match version_fault(p1, m) {
            Some(e) => Stepped {
                handshake: h,
                peer: p1,
                sends: first,
                result: Err(HandshakeError::Peer(e)),
            },
            None => Stepped {
                handshake: Handshake { phase: Phase::AwaitVerack, ..h },
                peer: with_version(p1, m),
                sends: first.push(PayloadView::Verack(())),
                result: Ok(()),
            },
        }
    }
}

/// A message comes while a handshake is under way.
pub open spec fn stepped(h: Handshake, p: PeerView, m: NetworkMessageView, timestamp: i64) -> Stepped {
    let kind = kind_of_name(field_name(m.command));
    match h.phase {
        Phase::AwaitVersion => if kind == Some(MessageKind::Version) {
            match VersionMessage::parse(m.payload) {
                Err(e) => refused(h, p, HandshakeError::BadVersion(e)),
                Ok((v, n)) => version_read(h, p, v, timestamp),
            }
        } else {
            refused(h, p, HandshakeError::ExpectedVersion)
        },
        Phase::AwaitVerack => if kind == Some(MessageKind::Verack) {
            if p.state == PeerState::VersionReceived {
                Stepped {
                    handshake: Handshake { phase: Phase::Done, ..h },
                    peer: PeerView { state: PeerState::Active, ..p },
                    sends: Seq::empty(),
                    result: Ok(()),
                }
            } else {
                refused(h, p, HandshakeError::Peer(PeerError::UnexpectedVerack))
            }
        } else if kind == Some(MessageKind::Ping) {
            Stepped { handshake: h, peer: p, sends: Seq::empty(), result: Ok(()) }
        } else if kind == Some(MessageKind::Version) && !h.inbound {
            refused(h, p, HandshakeError::DuplicateVersion)
        } else {
            refused(h, p, HandshakeError::ExpectedVerack)
        },
        Phase::Done => Stepped { handshake: h, peer: p, sends: Seq::empty(), result: Ok(()) },
    }
}

/// Whether a handshake has taken too long, and at what.
pub open spec fn overtime(h: Handshake, now: u64) -> Option<HandshakeError> {
    if now - h.started > HANDSHAKE_TIMEOUT {
        match h.phase {
            Phase::AwaitVersion => Some(HandshakeError::TimeoutVersion),
            Phase::AwaitVerack => Some(HandshakeError::TimeoutVerack),
            Phase::Done => None,
        }
    } else {
        None
    }
}

/// Two nodes that state different numbers, and versions that are new enough, become
/// active peers of each other, whoever opened the connection.
pub proof fn lemma_handshake_completes(
    h: Handshake,
    p: PeerView,
    version: NetworkMessageView,
    verack: NetworkMessageView,
    v: VersionView,
    n: int,
    timestamp: i64,
)
    requires
        h.phase == Phase::AwaitVersion,
        h.inbound ==> p.state == PeerState::Connected,
        !h.inbound ==> p.state == PeerState::VersionSent,
        kind_of_name(field_name(version.command)) == Some(MessageKind::Version),
        kind_of_name(field_name(verack.command)) == Some(MessageKind::Verack),
        VersionMessage::parse(version.payload) == crate::primitives::serialize::Parsed::<
            VersionView,
        >::Ok((v, n)),
        v.nonce != h.our_nonce,
        v.version >= crate::network::peer::MIN_PEER_VERSION,
    ensures
        ({
            let first = stepped(h, p, version, timestamp);
            let second = stepped(first.handshake, first.peer, verack, timestamp);
            &&& first.result is Ok
            &&& first.sends.contains(PayloadView::Verack(()))
            &&& second.result is Ok
            &&& second.sends.len() == 0
            &&& second.handshake.phase == Phase::Done
            &&& second.peer.state == PeerState::Active
            &&& second.peer.version == Some(v.version)
            &&& second.peer.start_height == v.start_height
        }),
{
    let first = stepped(h, p, version, timestamp);
    let sent = first.sends;
    assert(sent[sent.len() - 1] == PayloadView::Verack(()));
}

/// A node that is connected to itself notices.
pub proof fn lemma_own_number_refused(
    h: Handshake,
    p: PeerView,
    version: NetworkMessageView,
    v: VersionView,
    n: int,
    timestamp: i64,
)
    requires
        h.phase == Phase::AwaitVersion,
        kind_of_name(field_name(version.command)) == Some(MessageKind::Version),
        VersionMessage::parse(version.payload) == crate::primitives::serialize::Parsed::<
            VersionView,
        >::Ok((v, n)),
        v.nonce == h.our_nonce,
    ensures
        stepped(h, p, version, timestamp) == refused(h, p, HandshakeError::ConnectedToSelf),
{
}

/// A peer that opened the connection and states another number is told our version before
/// anything else, and also where its own is too low.
pub proof fn lemma_caller_learns_our_version(
    h: Handshake,
    p: PeerView,
    version: NetworkMessageView,
    v: VersionView,
    n: int,
    timestamp: i64,
)
    requires
        h.phase == Phase::AwaitVersion,
        h.inbound,
        kind_of_name(field_name(version.command)) == Some(MessageKind::Version),
        VersionMessage::parse(version.payload) == crate::primitives::serialize::Parsed::<
            VersionView,
        >::Ok((v, n)),
        v.nonce != h.our_nonce,
    ensures
        ({
            let after = stepped(h, p, version, timestamp);
            &&& after.sends.len() > 0
            &&& after.sends[0] == own_version(h, p, timestamp)
            &&& after.result is Ok <==> v.version >= crate::network::peer::MIN_PEER_VERSION
            &&& after.result is Err ==> after.sends.len() == 1
        }),
{
}

/// Opens a handshake with a peer that we connected to.
pub fn perform_handshake(
    peer: &mut Peer,
    our_version: u32,
    our_services: u64,
    our_height: u32,
    our_nonce: u64,
    timestamp: i64,
    now: u64,
) -> (r: (Handshake, MessagePayload))
    ensures
        r.0 == (Handshake {
            inbound: false,
            phase: Phase::AwaitVersion,
            our_version,
            our_services,
            our_height,
            our_nonce,
            started: now,
        }),
        r.1@ == own_version(r.0, old(peer)@, timestamp),
        final(peer)@ == (PeerView { state: PeerState::VersionSent, ..old(peer)@ }),
{
    let message = peer.initiate_handshake(
        our_version,
        our_services,
        our_height,
        our_nonce,
        timestamp,
    );
    let handshake = Handshake {
        inbound: false,
        phase: Phase::AwaitVersion,
        our_version,
        our_services,
        our_height,
        our_nonce,
        started: now,
    };
    (handshake, message)
}

/// Waits for the handshake of a peer that connected to us.
pub fn perform_inbound_handshake(
    our_version: u32,
    our_services: u64,
    our_height: u32,
    our_nonce: u64,
    now: u64,
) -> (r: Handshake)
    ensures
        r == (Handshake {
            inbound: true,
            phase: Phase::AwaitVersion,
            our_version,
            our_services,
            our_height,
            our_nonce,
            started: now,
        }),
{
    Handshake {
        inbound: true,
        phase: Phase::AwaitVersion,
        our_version,
        our_services,
        our_height,
        our_nonce,
        started: now,
    }
}

/// Whether an answer, a handshake and a peer are those that a message leads to.
pub open spec fn replied(r: HandshakeReply, h: Handshake, p: PeerView, want: Stepped) -> bool {
    &&& h == want.handshake
    &&& p == want.peer
    &&& views(r.sends@) == want.sends
    &&& r.result == want.result
}

impl Handshake {
    /// Whether the handshake has taken too long.
    pub fn check_time(&self, now: u64) -> (r: Result<(), HandshakeError>)
        ensures
            match r {
                Ok(_) => overtime(*self, now) is None,
                Err(e) => overtime(*self, now) == Some(e),
            },
    {
        if now >= self.started && now - self.started > HANDSHAKE_TIMEOUT {
            match self.phase {
                Phase::AwaitVersion => Err(HandshakeError::TimeoutVersion),
                Phase::AwaitVerack => Err(HandshakeError::TimeoutVerack),
                Phase::Done => Ok(()),
            }
        } else {
            Ok(())
        }
    }

    fn take_version(&mut self, peer: &mut Peer, m: &VersionMessage, timestamp: i64) -> (r:
        HandshakeReply)
        ensures
            replied(
                r,
                *final(self),
                final(peer)@,
                version_read(*old(self), old(peer)@, m@, timestamp),
            ),
    {
        let mut sends: Vec<MessagePayload> = Vec::new();
        assert(views(sends@) =~= Seq::empty());
        if m.nonce == self.our_nonce {
            return HandshakeReply { sends, result: Err(HandshakeError::ConnectedToSelf) };
        }
        let ghost p0 = peer@;
        if self.inbound {
            sends.push(
                peer.initiate_handshake(
                    self.our_version,
                    self.our_services,
                    self.our_height,
                    self.our_nonce,
                    timestamp,
                ),
            );
            assert(views(sends@) =~= seq![own_version(*self, p0, timestamp)]);
        }
        let ghost before = sends@;
        match peer.handle_version(m) {
            Err(e) => HandshakeReply { sends, result: Err(HandshakeError::Peer(e)) },
            Ok(answer) => {
                self.phase = Phase::AwaitVerack;
                sends.push(answer);
                assert(views(sends@) =~= views(before).push(PayloadView::Verack(())));
                HandshakeReply { sends, result: Ok(()) }
            },
        }
    }

    /// A message of the peer. What is to be sent comes back, also where the handshake
    /// fails.
    pub fn on_message(&mut self, peer: &mut Peer, msg: &NetworkMessage, timestamp: i64) -> (r:
        HandshakeReply)
        ensures
            replied(
                r,
                *final(self),
                final(peer)@,
                stepped(*old(self), old(peer)@, msg@, timestamp),
            ),
    {
        let kind = msg.kind();
        let result: Result<(), HandshakeError> = match self.phase {
            Phase::AwaitVersion => match kind {
                Some(MessageKind::Version) => match VersionMessage::decode(
                    msg.payload.as_slice(),
                ) {
                    Err(e) => Err(HandshakeError::BadVersion(e)),
                    Ok((m, _)) => return self.take_version(peer, &m, timestamp),
                },
                _ => Err(HandshakeError::ExpectedVersion),
            },
            Phase::AwaitVerack => match kind {
                Some(MessageKind::Verack) => match peer.handle_verack() {
                    Ok(()) => {
                        self.phase = Phase::Done;
                        Ok(())
                    },
                    Err(e) => Err(HandshakeError::Peer(e)),
                },
                Some(MessageKind::Ping) => Ok(()),
                Some(MessageKind::Version) => {
                    if self.inbound {
                        Err(HandshakeError::ExpectedVerack)
                    } else {
                        Err(HandshakeError::DuplicateVersion)
                    }
                },
                _ => Err(HandshakeError::ExpectedVerack),
            },
            Phase::Done => Ok(()),
        };
        let sends: Vec<MessagePayload> = Vec::new();
        assert(views(sends@) =~= Seq::empty());
        HandshakeReply { sends, result }
    }
}

} // verus!
