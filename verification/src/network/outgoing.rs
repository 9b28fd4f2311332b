//! Messages on their way to a peer.

use crate::network::message::{envelope, NetworkMessage, NetworkMessageView};
use crate::network::protocol::{command_name, MessagePayload, PayloadView};
use crate::primitives::serialize::Encode;
use vstd::prelude::*;

verus! {

/// A message that is to be sent to a peer.
#[derive(Debug)]
pub struct Outgoing {
    pub peer_id: u64,
    pub payload: MessagePayload,
    /// Whether the operation fails where the message cannot be sent.
    pub required: bool,
}

/// What a message on its way stands for.
pub struct OutgoingView {
    pub peer_id: u64,
    pub payload: PayloadView,
    pub required: bool,
}

impl View for Outgoing {
    type V = OutgoingView;

    open spec fn view(&self) -> OutgoingView {
        OutgoingView {
            peer_id: self.peer_id,
            payload: self.payload@,
            required: self.required,
        }
    }
}

/// The message with some contents on a network.
pub open spec fn framed(magic: Seq<u8>, payload: PayloadView) -> NetworkMessageView {
    envelope(magic, command_name(payload), MessagePayload::encoding(payload))
}

/// Puts contents into a message for a network.
pub fn frame(magic: [u8; 4], payload: &MessagePayload) -> (r: NetworkMessage)
    ensures
        r@ == framed(magic@, payload@),
{
    NetworkMessage::new(magic, payload.command(), payload.encode())
}

} // verus!
