//! The sending end of a channel, and what has become of the items that were handed to it.

use tokio::sync::mpsc::error::TrySendError;
use tokio::sync::mpsc::{Receiver, Sender};
use vstd::prelude::*;

verus! {

/// `tokio::sync::mpsc::Sender`.
#[verifier::external_type_specification]
#[verifier::external_body]
#[verifier::reject_recursive_types(T)]
pub struct ExSender<T>(Sender<T>);

/// `tokio::sync::mpsc::Receiver`.
#[verifier::external_type_specification]
#[verifier::external_body]
#[verifier::reject_recursive_types(T)]
pub struct ExReceiver<T>(Receiver<T>);

/// `tokio::sync::mpsc::channel`, which makes both ends of a channel. It panics without a buffer, and
/// with one beyond an eighth of the range of `usize`.
///
/// Nothing is claimed of either end. That two ends have come out of one call is what `connected`
/// says of them.
#[verifier::external_body]
pub(crate) fn channel<T>(buffer: usize) -> (r: (Sender<T>, Receiver<T>))
    requires
        0 < buffer <= usize::MAX / 8,
{
    tokio::sync::mpsc::channel(buffer)
}

/// Whether a sender and a receiver are both ends of a channel that was made with a buffer.
pub closed spec fn connected<T>(buffer: usize, tx: Sender<T>, rx: Receiver<T>) -> bool {
    call_ensures(channel::<T>, (buffer,), (tx, rx))
}

/// Calls a function.
fn call<A, B, F: Fn(A) -> B>(f: F, a: A) -> (r: B)
    requires
        call_requires(f, (a,)),
    ensures
        call_ensures(f, (a,), r),
{
    f(a)
}

/// Makes both ends of a channel.
pub(crate) fn new_channel<T>(buffer: usize) -> (r: (Sender<T>, Receiver<T>))
    requires
        0 < buffer <= usize::MAX / 8,
    ensures
        connected(buffer, r.0, r.1),
{
    call(channel::<T>, buffer)
}

/// What has come of offering an item to a channel.
pub enum SendOutcome<T> {
    /// The channel has taken the item.
    Sent,
    /// The channel has no room for the item.
    Full(T),
    /// The receiver of the channel is gone.
    Closed(T),
}

/// Something that has happened to an item.
pub enum SendEvent<T> {
    /// The item was offered to the channel, which has taken it.
    Sent(T),
    /// The item was offered to the channel, which had no room for it.
    Full(T),
    /// The item was offered to the channel, whose receiver was gone.
    Closed(T),
    /// The item was given out to be sent, and this has been reported of it.
    Reported { item: T, sent: bool },
}

/// The sending end of a channel until it is dropped, and a record of what has happened to the items.
///
/// That an item was offered to the channel enters the record in `try_send` and nowhere else.
#[verifier::reject_recursive_types(T)]
pub struct Channel<T> {
    sender: Option<Sender<T>>,
    log: Ghost<Seq<SendEvent<T>>>,
}

/// The sending end of a channel as a mathematical value.
#[verifier::ext_equal]
#[verifier::reject_recursive_types(T)]
pub struct ChannelView<T> {
    pub sender: Option<Sender<T>>,
    pub log: Seq<SendEvent<T>>,
}

impl<T> View for Channel<T> {
    type V = ChannelView<T>;

    closed spec fn view(&self) -> ChannelView<T> {
        ChannelView { sender: self.sender, log: self.log@ }
    }
}

impl<T> Channel<T> {
    /// The sending end of a channel that nothing has been handed to.
    pub fn new(sender: Sender<T>) -> (r: Self)
        ensures
            r@ == (ChannelView { sender: Some(sender), log: Seq::<SendEvent<T>>::empty() }),
    {
        Channel { sender: Some(sender), log: Ghost(Seq::empty()) }
    }

    /// Whether the sender is there.
    pub fn is_open(&self) -> (r: bool)
        ensures
            r == self@.sender is Some,
    {
        self.sender.is_some()
    }

    /// The sender.
    pub fn sender(&self) -> (r: Option<&Sender<T>>)
        ensures
            match r {
                Some(tx) => self@.sender == Some(*tx),
                None => self@.sender is None,
            },
    {
        self.sender.as_ref()
    }

    /// Drops the sender.
    pub fn close(&mut self)
        ensures
            final(self)@ == (ChannelView { sender: None, ..old(self)@ }),
    {
        self.sender = None;
    }

    /// `tokio::sync::mpsc::Sender::try_send` on the sender, which must be there: an item that is not
    /// taken is given back, together with the reason. The record grows by the item and the answer;
    /// nothing else changes.
    ///
    /// Which answer it is depends on the receiver, and nothing is claimed of it.
    #[verifier::external_body]
    pub(crate) fn try_send(&mut self, item: T) -> (r: SendOutcome<T>)
        requires
            old(self)@.sender is Some,
        ensures
            final(self)@ == (ChannelView {
                log: old(self)@.log.push(
                    match r {
                        SendOutcome::Sent => SendEvent::Sent(item),
                        SendOutcome::Full(_) => SendEvent::Full(item),
                        SendOutcome::Closed(_) => SendEvent::Closed(item),
                    },
                ),
                ..old(self)@
            }),
            match r {
                SendOutcome::Sent => true,
                SendOutcome::Full(x) => x == item,
                SendOutcome::Closed(x) => x == item,
            },
    {
        match self.sender.as_ref().unwrap().try_send(item) {
            Ok(()) => SendOutcome::Sent,
            Err(TrySendError::Full(x)) => SendOutcome::Full(x),
            Err(TrySendError::Closed(x)) => SendOutcome::Closed(x),
        }
    }

    /// Takes down what has been reported of an item that was given out to be sent.
    pub(crate) fn record(&mut self, item: Ghost<T>, sent: bool)
        ensures
            final(self)@ == (ChannelView {
                log: old(self)@.log.push(SendEvent::Reported { item: item@, sent }),
                ..old(self)@
            }),
    {
        self.log = Ghost(self.log@.push(SendEvent::Reported { item: item@, sent }));
    }
}

}
