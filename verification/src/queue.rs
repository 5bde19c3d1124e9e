//! The write queue: a bounded crossbeam channel from the engine's callers to the
//! writer, and the gathering of queued operations into batches.
//!
//! What a channel holds is shared by its two ends and changes under them, so no
//! contents are named for it: a send or a receive is stated only by what is handed
//! to it and by the shape of what comes back.
use vstd::prelude::*;
use crossbeam_channel::{Receiver, RecvTimeoutError, Sender};
use std::time::Duration;
use crate::writes::WriteOp;

verus! {

/// How many operations the queue holds before a send waits, and how many
/// operations one batch takes at most.
pub const QUEUE_CAPACITY: usize = 10000;

/// How long the writer waits for the first operation of a batch, in milliseconds.
pub const BATCH_WINDOW_MS: u64 = 10;

/// The sending end of a crossbeam channel, carried opaque.
#[verifier::external_type_specification]
#[verifier::external_body]
#[verifier::reject_recursive_types(T)]
pub struct ExSender<T>(Sender<T>);

/// The receiving end of a crossbeam channel, carried opaque.
#[verifier::external_type_specification]
#[verifier::external_body]
#[verifier::reject_recursive_types(T)]
pub struct ExReceiver<T>(Receiver<T>);

/// What a timed receive brought.
pub enum Received {
    Op(WriteOp),
    Timeout,
    Disconnected,
}

/// How many operations a channel holds before a send waits: the limit it was made
/// with, which `Sender::capacity` reports.
pub uninterp spec fn channel_capacity(s: Sender<WriteOp>) -> nat;

/// Whether a sending end and a receiving end belong to one channel, so that what
/// the one sends the other receives.
pub uninterp spec fn channel_pair(s: Sender<WriteOp>, r: Receiver<WriteOp>) -> bool;

/// `crossbeam_channel::bounded`: the two ends of one channel that holds up to `cap`
/// operations. The
/// channel's set-up panics where `cap + 1`, rounded up to a power of two and
/// doubled, does not fit its index type (at least 32 bits wide); `requires` keeps
/// `cap` well below that.
#[verifier::external_body]
pub(crate) fn bounded_queue(cap: usize) -> (ends: (Sender<WriteOp>, Receiver<WriteOp>))
    requires
        cap <= 0x2000_0000,
    ensures
        channel_capacity(ends.0) == cap,
        channel_pair(ends.0, ends.1),
{
    crossbeam_channel::bounded(cap)
}

/// `Sender::send`: queues `op`, waiting while the channel is full. Where the
/// receiving end is gone it fails, and its error (`SendError`) holds the very
/// operation it was handed; that comes back here with the error's `Display` text.
#[verifier::external_body]
pub(crate) fn send_op(queue: &Sender<WriteOp>, op: WriteOp) -> (r: Result<(), (WriteOp, String)>)
    ensures
        r matches Err((back, _)) ==> back@ == op@,
{
    queue.send(op).map_err(|e| {
        let text = e.to_string();
        (e.0, text)
    })
}

/// `Receiver::recv_timeout` for `millis` milliseconds, its error told apart by
/// variant.
#[verifier::external_body]
pub(crate) fn recv_op_within(queue: &Receiver<WriteOp>, millis: u64) -> (r: Received) {
    match queue.recv_timeout(Duration::from_millis(millis)) {
        Ok(op) => Received::Op(op),
        Err(RecvTimeoutError::Timeout) => Received::Timeout,
        Err(RecvTimeoutError::Disconnected) => Received::Disconnected,
    }
}

/// `Receiver::try_recv`: an operation that is already queued, or `None` where the
/// queue is empty or closed.
#[verifier::external_body]
pub(crate) fn try_recv_op(queue: &Receiver<WriteOp>) -> (r: Option<WriteOp>) {
    queue.try_recv().ok()
}

/// A batch that starts with `first` and takes whatever is already queued, up to
/// `QUEUE_CAPACITY` operations in all.
pub fn collect_batch(first: WriteOp, queue: &Receiver<WriteOp>) -> (batch: Vec<WriteOp>)
    ensures
        1 <= batch.len() <= QUEUE_CAPACITY,
        batch@[0]@ == first@,
{
    let mut batch: Vec<WriteOp> = Vec::new();
    let ghost first_view = first@;
    batch.push(first);
    while batch.len() < QUEUE_CAPACITY
        invariant
            1 <= batch.len() <= QUEUE_CAPACITY,
            batch@[0]@ == first_view,
        decreases QUEUE_CAPACITY - batch.len(),
    {
        match try_recv_op(queue) {
            Some(op) => {
                batch.push(op);
            },
            None => {
                break;
            },
        }
    }
    batch
}

} // verus!
