//! The leaf session actor: represents one connected client at the bottom
//! of the tree. It owns no relay logic of its own; it decides, message by
//! message, what its surroundings must do — forward inbound text upward
//! unchanged, write broadcast text to the transport, or withdraw from the
//! parent and stop when the transport closes — and hands each decision
//! back as data.

use vstd::prelude::*;
use crate::channel;
use crate::mailbox::{RelayHandle, SendError};

verus! {

/// The messages a leaf session takes, one at a time, in arrival order.
#[derive(Debug, PartialEq)]
pub enum ActorMessage {
    /// Text the client sent; it is forwarded upward unchanged.
    Inbound(String),
    /// Text the tree broadcast to this client; it is to be written to the
    /// client's transport.
    Outbound(String),
    /// The transport has ended; the session withdraws and terminates.
    Closed,
}

/// What one message makes the session do, as data. The session performs
/// no I/O itself: the task driving it hands an upstream message to the
/// parent relay's mailbox, or writes to the transport, exactly as
/// instructed here.
pub enum Effect {
    /// Hand this message — the inbound text as an `Aggregate`, payload
    /// unchanged — to the parent relay's mailbox.
    Forward(channel::ActorMessage),
    /// Write this text to the client's transport. A failed write is
    /// recovered locally: the session keeps serving.
    Write(String),
    /// Hand this parting message — the session's own `Leave` — to the
    /// parent relay's mailbox, then stop the session's task.
    Stop(channel::ActorMessage),
}

/// The message one broadcast pass hands to a leaf session: the broadcast
/// payload, unchanged, to be written to that client's transport.
pub fn outbound_of(text: &String) -> (m: ActorMessage)
    ensures
        m == ActorMessage::Outbound(*text),
{
    ActorMessage::Outbound(text.clone())
}

/// One client's representative in the tree: its stable identity and the
/// capability to reach its parent relay node.
pub struct Connection {
    pub id: u64,
    pub upstream: RelayHandle,
}

impl Connection {
    /// Creates the session and, before anything else, announces it to the
    /// parent relay with a `Join` carrying `self_sender`, the session's
    /// own mailbox. If that enqueue fails the client is never considered
    /// attached, and the error is handed back.
    pub fn attach(
        id: u64,
        upstream: RelayHandle,
        self_sender: tokio::sync::mpsc::Sender<ActorMessage>,
    ) -> (r: Result<Connection, SendError>)
        ensures
            r matches Ok(c) ==> c.id == id && c.upstream == upstream,
    {
        let m = channel::join_announcement(id, channel::ChildHandle::Session(self_sender));
        match upstream.send_message(m) {
            Ok(_) => Ok(Connection { id, upstream }),
            Err(e) => Err(e),
        }
    }

    /// This session's stable identity within its parent's membership set.
    pub fn get_id(&self) -> (r: u64)
        ensures
            r == self.id,
    {
        self.id
    }

    /// Decides one message: inbound text becomes exactly one `Aggregate`
    /// for the parent, payload unchanged; outbound text becomes a write
    /// request for the transport; a closed transport becomes exactly one
    /// `Leave` under this session's own identity, plus a stop request.
    pub fn handle(&self, msg: ActorMessage) -> (e: Effect)
        ensures
            match msg {
                ActorMessage::Inbound(t) => e == Effect::Forward(
                    channel::ActorMessage::Aggregate(t),
                ),
                ActorMessage::Outbound(t) => e == Effect::Write(t),
                ActorMessage::Closed => e == Effect::Stop(
                    channel::ActorMessage::Leave(self.id),
                ),
            },
    {
        match msg {
            ActorMessage::Inbound(t) => Effect::Forward(channel::ActorMessage::Aggregate(t)),
            ActorMessage::Outbound(t) => Effect::Write(t),
            ActorMessage::Closed => Effect::Stop(channel::ActorMessage::Leave(self.id)),
        }
    }
}

} // verus!
