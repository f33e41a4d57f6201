//! Status/update fan-out: two independent bounded broadcast topics. The
//! status topic carries the coarse `TxStatus` signal, the update topic the
//! keyed `TxUpdate` record. Publishing is fire-and-forget: it never blocks
//! and never fails the caller, even with zero subscribers; a subscriber
//! that falls behind the capacity misses the oldest messages.
//!
//! Every publication is also recorded in a ghost log, so contracts can
//! state exactly which events an operation emitted.

use vstd::prelude::*;

use crate::tx::{TxStatus, TxUpdate};

verus! {

/// Declares tokio's broadcast sender handle so it can stand in fields and
/// signatures; its inside stays opaque to verification.
#[verifier::external_type_specification]
#[verifier::external_body]
#[verifier::reject_recursive_types(T)]
pub struct ExBroadcastSender<T>(tokio::sync::broadcast::Sender<T>);

/// Declares tokio's broadcast receiver handle; subscribers poll it for
/// the values published after they subscribed.
#[verifier::external_type_specification]
#[verifier::external_body]
#[verifier::reject_recursive_types(T)]
pub struct ExBroadcastReceiver<T>(tokio::sync::broadcast::Receiver<T>);

/// Relies on tokio::sync::broadcast::channel: creates a bounded broadcast
/// topic of the given capacity. It panics on a capacity of zero or above
/// usize::MAX / 2, so those capacities are excluded here.
#[verifier::external_body]
fn new_topic<T: Clone>(capacity: usize) -> (
    tokio::sync::broadcast::Sender<T>,
    tokio::sync::broadcast::Receiver<T>,
)
    requires
        0 < capacity <= usize::MAX / 2,
{
    tokio::sync::broadcast::channel(capacity)
}

/// Relies on tokio::sync::broadcast::Sender::send: publishes one value to
/// every current subscriber without blocking; the only error it reports is
/// the absence of subscribers, which this fire-and-forget topic drops.
#[verifier::external_body]
fn publish<T>(sender: &tokio::sync::broadcast::Sender<T>, value: T) {
    let _ = sender.send(value);
}

/// Relies on tokio::sync::broadcast::Sender::subscribe: returns a fresh
/// receiver that observes the values sent after this call.
#[verifier::external_body]
fn new_subscriber<T>(sender: &tokio::sync::broadcast::Sender<T>) -> tokio::sync::broadcast::Receiver<T> {
    sender.subscribe()
}

/// The producer side of both fan-out topics. `statuses` and `updates` are
/// the ghost logs of everything ever published on each topic, in order;
/// every send method appends exactly one record to each log.
pub struct TxStatusChange {
    pub status_sender: tokio::sync::broadcast::Sender<TxStatus>,
    pub update_sender: tokio::sync::broadcast::Sender<TxUpdate>,
    pub statuses: Ghost<Seq<TxStatus>>,
    pub updates: Ghost<Seq<TxUpdate>>,
}

impl TxStatusChange {
    /// Two fresh topics, each holding up to `capacity` pending messages
    /// per subscriber; nothing has been published yet.
    pub fn new(capacity: usize) -> (r: Self)
        requires
            0 < capacity <= usize::MAX / 2,
        ensures
            r.statuses@ == Seq::<TxStatus>::empty(),
            r.updates@ == Seq::<TxUpdate>::empty(),
    {
        let (status_sender, _status_rx) = new_topic(capacity);
        let (update_sender, _update_rx) = new_topic(capacity);
        Self {
            status_sender,
            update_sender,
            statuses: Ghost(Seq::empty()),
            updates: Ghost(Seq::empty()),
        }
    }

    /// Publishes the pair of events for a transaction completed by block
    /// inclusion: a `Completed` status and an un-keyed-reason update.
    pub fn send_complete(&mut self, id: u64)
        ensures
            final(self).statuses@ == old(self).statuses@.push(TxStatus::Completed),
            final(self).updates@ == old(self).updates@.push((TxUpdate {
                tx_id: id,
                squeezed_out: None,
            })),
    {
        publish(&self.status_sender, TxStatus::Completed);
        self.statuses = Ghost(self.statuses@.push(TxStatus::Completed));
        self.updated(id);
    }

    /// Publishes the pair of events for a freshly admitted transaction:
    /// a `Submitted` status and an un-keyed-reason update.
    pub fn send_submitted(&mut self, id: u64)
        ensures
            final(self).statuses@ == old(self).statuses@.push(TxStatus::Submitted),
            final(self).updates@ == old(self).updates@.push((TxUpdate {
                tx_id: id,
                squeezed_out: None,
            })),
    {
        publish(&self.status_sender, TxStatus::Submitted);
        self.statuses = Ghost(self.statuses@.push(TxStatus::Submitted));
        self.updated(id);
    }

    /// Publishes the pair of events for an involuntary eviction: a
    /// `SqueezedOut` status and an update keyed with the reason.
    pub fn send_squeezed_out(&mut self, id: u64, reason: crate::tx::Error)
        ensures
            final(self).statuses@ == old(self).statuses@.push((TxStatus::SqueezedOut { reason })),
            final(self).updates@ == old(self).updates@.push((TxUpdate {
                tx_id: id,
                squeezed_out: Some(reason),
            })),
    {
        publish(&self.status_sender, TxStatus::SqueezedOut { reason });
        publish(&self.update_sender, TxUpdate::squeezed_out(id, reason));
        self.statuses = Ghost(self.statuses@.push(TxStatus::SqueezedOut { reason }));
        self.updates = Ghost(self.updates@.push(TxUpdate { tx_id: id, squeezed_out: Some(reason) }));
    }

    fn updated(&mut self, id: u64)
        ensures
            final(self).statuses@ == old(self).statuses@,
            final(self).updates@ == old(self).updates@.push((TxUpdate {
                tx_id: id,
                squeezed_out: None,
            })),
    {
        publish(&self.update_sender, TxUpdate::updated(id));
        self.updates = Ghost(self.updates@.push(TxUpdate { tx_id: id, squeezed_out: None }));
    }

    /// A fresh subscriber to the coarse status topic.
    pub fn status_subscribe(&self) -> tokio::sync::broadcast::Receiver<TxStatus> {
        new_subscriber(&self.status_sender)
    }

    /// A fresh subscriber to the keyed update topic.
    pub fn update_subscribe(&self) -> tokio::sync::broadcast::Receiver<TxUpdate> {
        new_subscriber(&self.update_sender)
    }
}

} // verus!
