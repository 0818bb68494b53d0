//! The actor-mailbox primitive: a bounded FIFO queue feeding one actor
//! task. A sender is a clonable capability to enqueue one message; a send
//! either enqueues at once or reports failure, and never blocks. Whether a
//! given send succeeds depends on the receiving task and on the queue's
//! momentary fill, so no contract here promises success: callers state
//! what holds of every outcome.

use vstd::prelude::*;
use crate::channel;

verus! {

/// Why handing a message to a mailbox failed: the bounded queue was
/// saturated, or the receiving task is gone. Callers treat both as
/// "peer unreachable" and prune the member rather than crash or retry.
#[derive(Clone, Copy, Debug, PartialEq, Eq, Structural)]
pub enum SendError {
    Full,
    Closed,
}

/// The sending half of a mailbox.
/// Relies on tokio::sync::mpsc::Sender, the enqueue capability of a
/// bounded channel.
#[verifier::external_type_specification]
#[verifier::external_body]
#[verifier::reject_recursive_types(T)]
pub struct ExSender<T>(tokio::sync::mpsc::Sender<T>);

/// The receiving half of a mailbox; the one actor task that owns it
/// drains it message by message.
/// Relies on tokio::sync::mpsc::Receiver, the sole consumer handle of a
/// bounded channel.
#[verifier::external_type_specification]
#[verifier::external_body]
#[verifier::reject_recursive_types(T)]
pub struct ExReceiver<T>(tokio::sync::mpsc::Receiver<T>);

/// Relies on the impl of Clone for tokio::sync::mpsc::Sender: it clones
/// only the shared pointer to the one queue, so the clone is the same
/// capability as a value — a send through either reaches the same
/// mailbox.
pub assume_specification<T>[ <tokio::sync::mpsc::Sender<T> as Clone>::clone ](
    s: &tokio::sync::mpsc::Sender<T>,
) -> (r: tokio::sync::mpsc::Sender<T>)
    ensures
        r == *s,
;

/// Relies on tokio::sync::mpsc::channel: makes a fresh bounded queue and
/// hands back its two halves. It panics on a zero capacity and on one
/// above the semaphore's permit limit of `usize::MAX >> 3`, so both are
/// excluded here.
#[verifier::external_body]
pub fn new_mailbox<T>(capacity: usize) -> (tokio::sync::mpsc::Sender<T>, tokio::sync::mpsc::Receiver<T>)
    requires
        1 <= capacity <= usize::MAX >> 3,
{
    tokio::sync::mpsc::channel(capacity)
}

/// Relies on tokio::sync::mpsc::Sender::try_send: it enqueues without
/// blocking and reports a saturated queue or a dropped receiver as an
/// error. Which outcome comes back depends on the peer task, so only the
/// shape of the result is stated.
#[verifier::external_body]
pub fn mailbox_send<T>(s: &tokio::sync::mpsc::Sender<T>, m: T) -> Result<(), SendError> {
    match s.try_send(m) {
        Ok(()) => Ok(()),
        Err(tokio::sync::mpsc::error::TrySendError::Full(_)) => Err(SendError::Full),
        Err(tokio::sync::mpsc::error::TrySendError::Closed(_)) => Err(SendError::Closed),
    }
}

/// A clonable capability to enqueue messages for one relay node.
///
/// The sender inside stays hidden from the verifier on purpose: a relay
/// message can itself carry such a handle (a child joining announces its
/// own mailbox), so the sender's type refers back to the message type,
/// a shape the verifier refuses for a visible field.
#[verifier::external_body]
pub struct RelayHandle {
    inner: tokio::sync::mpsc::Sender<channel::ActorMessage>,
}

impl RelayHandle {
    /// Wraps a relay-mailbox sender; moves the value, nothing else.
    #[verifier::external_body]
    pub(crate) fn new(inner: tokio::sync::mpsc::Sender<channel::ActorMessage>) -> RelayHandle {
        RelayHandle { inner }
    }

    /// Hands out the wrapped sender; moves nothing, converts nothing.
    #[verifier::external_body]
    pub(crate) fn raw(&self) -> &tokio::sync::mpsc::Sender<channel::ActorMessage> {
        &self.inner
    }

    /// A further capability on the same relay mailbox.
    /// Relies on tokio::sync::mpsc::Sender::clone: it clones only the
    /// shared pointer to the one queue, so the duplicate is the same
    /// handle as a value.
    #[verifier::external_body]
    pub fn duplicate(&self) -> (r: RelayHandle)
        ensures
            r == *self,
    {
        RelayHandle { inner: self.inner.clone() }
    }

    /// Enqueues one message for the relay node this handle names.
    pub fn send_message(&self, m: channel::ActorMessage) -> Result<(), SendError> {
        mailbox_send(self.raw(), m)
    }
}

} // verus!
