//! The notification bus: one broadcast channel on which every stored
//! message is announced to whoever listens.

use crate::QueueItem;
use vstd::prelude::*;

verus! {

/// The sending half of tokio's broadcast channel.
#[verifier::external_type_specification]
#[verifier::external_body]
#[verifier::reject_recursive_types(T)]
pub struct ExSender<T>(tokio::sync::broadcast::Sender<T>);

/// tokio's `broadcast::Sender::send`, with the outcome dropped: the call
/// returns at once, and fails only to say that nobody listens. Nothing is
/// claimed of who receives the announcement.
#[verifier::external_body]
fn send(channel: &tokio::sync::broadcast::Sender<std::sync::Arc<QueueItem>>, item: &QueueItem) {
    let _ = channel.send(std::sync::Arc::new(item.clone()));
}

/// The number of announcements that a channel was asked to keep when it was
/// made. tokio keeps that many for a listener that falls behind, or more: it
/// rounds the number up to a power of two.
pub uninterp spec fn asked_capacity(
    channel: tokio::sync::broadcast::Sender<std::sync::Arc<QueueItem>>,
) -> nat;

/// tokio's `broadcast::Sender::new`: a channel that keeps up to `capacity`
/// announcements for listeners that fall behind, with no listener yet. The
/// call panics on a capacity of zero or above half of `usize::MAX`, which
/// the contract leaves out. The contract claims only that the channel was
/// asked to keep `capacity` announcements.
#[verifier::external_body]
fn channel(capacity: usize) -> (r: tokio::sync::broadcast::Sender<std::sync::Arc<QueueItem>>)
    requires
        0 < capacity <= usize::MAX / 2,
    ensures
        asked_capacity(r) == capacity,
{
    tokio::sync::broadcast::Sender::new(capacity)
}

/// How many announcements the bus keeps for a listener that falls behind.
pub const CAPACITY: usize = 16;

/// Opens the bus. A listener that falls more than `CAPACITY` announcements
/// behind loses the oldest ones; the publisher is never held up.
pub fn open() -> (r: tokio::sync::broadcast::Sender<std::sync::Arc<QueueItem>>)
    ensures
        asked_capacity(r) == CAPACITY,
{
    channel(CAPACITY)
}

/// Publishes the announcements in their order. The publisher is never held
/// up and learns of no failure, whether or not anyone listens.
pub fn publish(
    channel: &tokio::sync::broadcast::Sender<std::sync::Arc<QueueItem>>,
    events: &Vec<QueueItem>,
) -> (sent: usize)
    ensures
        sent == events@.len(),
{
    let mut i: usize = 0;
    while i < events.len()
        invariant
            i <= events.len(),
        decreases events.len() - i,
    {
        send(channel, &events[i]);
        i += 1;
    }
    i
}

} // verus!
