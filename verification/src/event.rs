//! Typed publish/subscribe topics over tokio's broadcast channel.
use vstd::prelude::*;
use std::sync::Arc;

use tokio::sync::broadcast::error::SendError;
use tokio::sync::broadcast::{Receiver, Sender};

verus! {

/// tokio's broadcast sender, carried as an opaque value.
#[verifier::external_type_specification]
#[verifier::external_body]
#[verifier::reject_recursive_types(T)]
pub struct ExSender<T>(tokio::sync::broadcast::Sender<T>);

/// tokio's broadcast receiver, carried as an opaque value.
#[verifier::external_type_specification]
#[verifier::external_body]
#[verifier::reject_recursive_types(T)]
pub struct ExReceiver<T>(tokio::sync::broadcast::Receiver<T>);

/// The error of sending on a broadcast channel without receivers.
#[verifier::external_type_specification]
#[verifier::external_body]
#[verifier::reject_recursive_types(T)]
pub struct ExSendError<T>(tokio::sync::broadcast::error::SendError<T>);

/// Calls `tokio::sync::broadcast::channel`, which panics when `capacity` is 0
/// or above `usize::MAX / 2`; the channel's state is not described.
#[verifier::external_body]
fn open_channel<T: Clone>(capacity: usize) -> (r: (Sender<T>, Receiver<T>))
    requires
        0 < capacity <= usize::MAX / 2,
{
    tokio::sync::broadcast::channel(capacity)
}

/// Calls `Sender::send`. Its source returns `Ok` with the number of receivers
/// subscribed at the time of the send, which is never 0 (with no receivers it
/// returns `Err`); how many there are depends on shared state and is not
/// stated.
#[verifier::external_body]
fn send_on<T>(tx: &Sender<T>, value: T) -> (r: Result<usize, SendError<T>>)
    ensures
        r matches Ok(n) ==> n >= 1,
{
    tx.send(value)
}

/// Calls `Sender::subscribe`: a receiver of everything sent from now on. Its
/// source panics once `usize::MAX >> 2` receivers exist, a count held in
/// shared state that no clause here can name.
#[verifier::external_body]
fn subscribe_to<T>(tx: &Sender<T>) -> (rx: Receiver<T>) {
    tx.subscribe()
}

/// Calls `Sender::receiver_count`, which reads shared state; nothing is
/// stated of the count.
#[verifier::external_body]
fn count_receivers<T>(tx: &Sender<T>) -> (n: usize) {
    tx.receiver_count()
}

/// Calls `<Sender<T> as Clone>::clone`. Its source builds a sender whose only
/// field is a clone of the original's `Arc` to the same shared channel, so
/// the clone is the same sender as the original.
#[verifier::external_body]
fn clone_sender<T>(tx: &Sender<T>) -> (c: Sender<T>)
    ensures
        c == *tx,
{
    tx.clone()
}

/// Configuration of a topic.
#[derive(Clone, Copy, Debug)]
pub struct TopicConfig {
    /// Size of the broadcast ring buffer.
    pub capacity: usize,
}

impl Default for TopicConfig {
    fn default() -> (c: TopicConfig)
        ensures
            c.capacity == 1024,
    {
        TopicConfig { capacity: 1024 }
    }
}

/// A typed publish/subscribe channel: every subscriber receives each event
/// published after it subscribed (recent history only).
#[verifier::reject_recursive_types(E)]
pub struct Topic<E> {
    tx: Sender<Arc<E>>,
}

impl<E> Clone for Topic<E> {
    fn clone(&self) -> (t: Topic<E>)
        ensures
            t == *self,
    {
        Topic { tx: clone_sender(&self.tx) }
    }
}

/// Publishing found no subscriber.
#[derive(Debug, Clone, Copy)]
pub struct TopicClosed;

/// What publishing reports for the channel's answer to a send: the number of
/// receivers when the send went through, `TopicClosed` when the channel had
/// no receiver.
pub fn publish_outcome<T>(sent: Result<usize, SendError<T>>) -> (r: Result<usize, TopicClosed>)
    ensures
        sent matches Ok(n) ==> r == Ok::<usize, TopicClosed>(n),
        sent is Err ==> r is Err,
{
    match sent {
        Ok(n) => Ok(n),
        Err(_) => Err(TopicClosed),
    }
}

impl<E> Topic<E> where E: Send + Sync + 'static {
    /// A new topic whose ring buffer holds `cfg.capacity` events (rounded up
    /// to a power of two by the channel).
    pub fn new(cfg: TopicConfig) -> (t: Topic<E>)
        requires
            0 < cfg.capacity <= usize::MAX / 2,
    {
        let (tx, _rx) = open_channel(cfg.capacity);
        Topic { tx }
    }

    /// Sends `event` to every current subscriber. Returns how many there are
    /// (at least one), or `TopicClosed` when there is none.
    pub fn publish(&self, event: E) -> (r: Result<usize, TopicClosed>)
        ensures
            r matches Ok(n) ==> n >= 1,
    {
        publish_outcome(send_on(&self.tx, Arc::new(event)))
    }

    /// A new subscriber, receiving events published from now on.
    pub fn subscribe(&self) -> (rx: Receiver<Arc<E>>) {
        subscribe_to(&self.tx)
    }

    /// How many subscribers there are now.
    pub fn receiver_count(&self) -> (n: usize) {
        count_receivers(&self.tx)
    }
}

} // verus!
