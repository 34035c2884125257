//! The channel on which events reach the engine.
//!
//! Events are produced at the boundary (the terminal, timers, other threads) and handed over
//! through an unbounded channel. The engine takes them off one at a time, without waiting.

use crate::errors::SendError;
use crate::events::Message;
use vstd::prelude::*;

verus! {

#[verifier::external_type_specification]
#[verifier::external_body]
#[verifier::reject_recursive_types(T)]
pub struct ExSender<T>(async_channel::Sender<T>);

#[verifier::external_type_specification]
#[verifier::external_body]
#[verifier::reject_recursive_types(T)]
pub struct ExReceiver<T>(async_channel::Receiver<T>);

#[verifier::external_type_specification]
#[verifier::external_body]
#[verifier::reject_recursive_types(T)]
pub struct ExTrySendError<T>(async_channel::TrySendError<T>);

#[verifier::external_type_specification]
#[verifier::external_body]
pub struct ExTryRecvError(async_channel::TryRecvError);

/// `async_channel::unbounded`: the two ends of a new channel without a limit.
#[verifier::external_body]
fn open_channel() -> (ends: (async_channel::Sender<Message>, async_channel::Receiver<Message>)) {
    async_channel::unbounded()
}

/// `async_channel::Sender::try_send`: hands the message to the channel without waiting. What
/// comes back depends on the state of the channel.
#[verifier::external_body]
fn channel_try_send(tx: &async_channel::Sender<Message>, msg: Message) -> (r: Result<
    (),
    async_channel::TrySendError<Message>,
>) {
    tx.try_send(msg)
}

/// `async_channel::Receiver::try_recv`: takes the next message off the channel if one waits
/// there. What comes back depends on the state of the channel.
#[verifier::external_body]
fn channel_try_recv(rx: &async_channel::Receiver<Message>) -> (r: Result<
    Message,
    async_channel::TryRecvError,
>) {
    rx.try_recv()
}

/// What a caller is handed of an attempt to receive: the message that was taken off the
/// channel, or nothing where none was.
pub fn recv_outcome(r: Result<Message, async_channel::TryRecvError>) -> (msg: Option<Message>)
    ensures
        msg == match r {
            Ok(m) => Some(m),
            Err(_) => None,
        },
{
    match r {
        Ok(m) => Some(m),
        Err(_) => None,
    }
}

/// What a caller is told of an attempt to send: that it succeeded, or that it did not.
pub fn send_outcome(r: Result<(), async_channel::TrySendError<Message>>) -> (out: Result<
    (),
    SendError,
>)
    ensures
        out is Ok <==> r is Ok,
{
    match r {
        Ok(()) => Ok(()),
        Err(_) => Err(SendError),
    }
}

/// `async_channel::Sender::clone`: another handle to the sending end of the same channel.
#[verifier::external_body]
fn channel_clone(tx: &async_channel::Sender<Message>) -> (copy: async_channel::Sender<Message>) {
    tx.clone()
}

/// The sending end of the channel of events.
pub struct MessageSender {
    tx: async_channel::Sender<Message>,
}

impl Clone for MessageSender {
    fn clone(&self) -> (copy: Self) {
        Self { tx: channel_clone(&self.tx) }
    }
}

impl MessageSender {
    /// The sending end of the channel that the events are handed to.
    pub closed spec fn channel(&self) -> async_channel::Sender<Message> {
        self.tx
    }

    /// Wraps the sending end of a channel.
    pub fn from(tx: async_channel::Sender<Message>) -> (sender: Self)
        ensures
            sender.channel() == tx,
    {
        Self { tx }
    }

    /// Sends an event to the engine.
    ///
    /// The event is lost, and an error returned, if the receiving end is gone. The call never
    /// waits.
    pub fn send(&self, msg: Message) -> (r: Result<(), SendError>) {
        send_outcome(channel_try_send(&self.tx, msg))
    }
}

/// The channel of events, with both of its ends.
pub struct MessageBus {
    tx: MessageSender,
    rx: async_channel::Receiver<Message>,
}

impl MessageBus {
    /// The sending end of the bus.
    pub closed spec fn sender(&self) -> MessageSender {
        self.tx
    }

    /// The receiving end of the bus.
    pub closed spec fn receiving(&self) -> async_channel::Receiver<Message> {
        self.rx
    }

    /// The bus of the two ends of a channel.
    pub fn from_ends(
        tx: async_channel::Sender<Message>,
        rx: async_channel::Receiver<Message>,
    ) -> (bus: Self)
        ensures
            bus.sender().channel() == tx,
            bus.receiving() == rx,
    {
        Self { tx: MessageSender::from(tx), rx }
    }

    /// Opens a channel.
    pub fn new() -> (bus: Self) {
        let (tx, rx) = open_channel();
        Self::from_ends(tx, rx)
    }

    /// The sending end, to be cloned for each producer of events.
    pub fn handle(&self) -> (sender: &MessageSender)
        ensures
            *sender == self.sender(),
    {
        &self.tx
    }

    /// The receiving end, for a caller that waits for events.
    pub fn receiver(&self) -> (rx: &async_channel::Receiver<Message>)
        ensures
            *rx == self.receiving(),
    {
        &self.rx
    }

    /// Takes the next event off the channel if one waits there.
    pub fn try_recv(&self) -> (msg: Option<Message>) {
        recv_outcome(channel_try_recv(&self.rx))
    }
}

} // verus!
