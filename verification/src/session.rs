//! The packets of the session handshake: what is asked of the broker, and
//! how its answer is judged.

use vstd::prelude::*;
use crate::packet::{
    ConnackPacket, ConnackReturnCode, Packet, PacketView, SubscribePacket, Subscription,
};

verus! {

/// Whether `response` accepts the session: a CONNACK with return code
/// `Accepted`, whatever its flags.
pub open spec fn spec_accepts_session(response: PacketView) -> bool {
    response matches PacketView::Connack(inner) && inner.return_code == ConnackReturnCode::Accepted
}

/// Whether `response` accepts the session: a CONNACK with return code
/// `Accepted`, whatever its flags.
pub fn accepts_session(response: &Packet) -> (accepted: bool)
    ensures
        accepted == spec_accepts_session(response@),
{
    match response {
        Packet::Connack(ConnackPacket { return_code: ConnackReturnCode::Accepted, .. }) => true,
        _ => false,
    }
}

/// The request to subscribe to the one topic filter `topic`.
pub fn subscribe_request(topic: String) -> (request: Packet)
    ensures
        request@ == PacketView::Subscribe(seq![topic@]),
{
    let mut subscriptions: Vec<Subscription> = Vec::new();
    subscriptions.push(Subscription { topic });
    let subscribe_packet = SubscribePacket { subscriptions };
    assert(subscribe_packet@ =~= seq![topic@]);
    Packet::Subscribe(subscribe_packet)
}

} // verus!
