//! The outbound channel of a socket: tokio's bounded `mpsc::Sender`, what its
//! queue has room for, and the records of the messages handed to it. A record is
//! made only here, by the call that hands the message over, so a record that a
//! function gives back stands for a hand-over that took place.

use vstd::prelude::*;
use tokio::sync::mpsc::Sender;
use crate::session::{MessageView, OutboundMessage};

verus! {

#[verifier::external_type_specification]
#[verifier::external_body]
#[verifier::reject_recursive_types(T)]
pub struct ExSender<T>(tokio::sync::mpsc::Sender<T>);

/// How a `try_send` on an outbound channel went.
#[derive(Debug, Clone, Copy, PartialEq, Eq, Structural)]
pub enum SendOutcome {
    Sent,
    Full,
    Closed,
}

/// One hand-over to an outbound channel: the channel and the message handed to it.
pub type Handover = (Sender<OutboundMessage>, MessageView);

/// The hand-overs made so far through one log, in the order of the calls. A log
/// starts empty and grows only by `try_send`, one entry per call.
pub struct SendLog {
    entries: Ghost<Seq<Handover>>,
}

impl SendLog {
    /// The hand-overs made through this log, oldest first.
    pub closed spec fn entries(&self) -> Seq<Handover> {
        self.entries@
    }

    /// A log with no hand-over in it.
    pub fn new() -> (res: SendLog)
        ensures
            res.entries() == Seq::<Handover>::empty(),
    {
        SendLog { entries: Ghost(Seq::empty()) }
    }
}

/// One message handed to an outbound channel: how the hand-over went, which
/// message went to which channel, and the hand-overs that its log held before it.
pub struct SendAttempt {
    outcome: SendOutcome,
    handed: Ghost<Handover>,
    prior: Ghost<Seq<Handover>>,
}

impl SendAttempt {
    /// The channel and the message of this hand-over.
    pub closed spec fn handed(&self) -> Handover {
        self.handed@
    }

    /// The hand-overs made through the same log before this one, oldest first.
    pub closed spec fn prior(&self) -> Seq<Handover> {
        self.prior@
    }

    /// How this hand-over went.
    pub closed spec fn result(&self) -> SendOutcome {
        self.outcome
    }

    pub fn outcome(&self) -> (res: SendOutcome)
        ensures
            res == self.result(),
    {
        self.outcome
    }
}

/// The channels and messages of these hand-overs, in their order.
pub open spec fn handed_of(attempts: Seq<SendAttempt>) -> Seq<Handover> {
    attempts.map_values(|a: SendAttempt| a.handed())
}

/// These hand-overs were made one after the other, in this order, through a log
/// that held `start` before the first of them.
pub open spec fn chained(attempts: Seq<SendAttempt>, start: Seq<Handover>) -> bool {
    forall|k: int| 0 <= k < attempts.len() ==> #[trigger] attempts[k].prior() == start + handed_of(attempts.take(k))
}

/// Two runs of hand-overs made one after the other through one log make one run.
pub proof fn lemma_chained_append(a: Seq<SendAttempt>, b: Seq<SendAttempt>, start: Seq<Handover>)
    requires
        chained(a, start),
        chained(b, start + handed_of(a)),
    ensures
        chained(a + b, start),
        handed_of(a + b) == handed_of(a) + handed_of(b),
{
    assert(handed_of(a + b) =~= handed_of(a) + handed_of(b));
    assert forall|k: int| 0 <= k < (a + b).len() implies #[trigger] (a + b)[k].prior() == start + handed_of((a + b).take(k)) by {
        if k < a.len() {
            assert((a + b).take(k) =~= a.take(k));
            assert((a + b)[k] == a[k]);
        } else {
            let j = k - a.len();
            assert((a + b)[k] == b[j]);
            assert((a + b).take(k) =~= a + b.take(j));
            assert(handed_of(a + b.take(j)) =~= handed_of(a) + handed_of(b.take(j)));
            assert(start + handed_of(a) + handed_of(b.take(j)) =~= start + (handed_of(a) + handed_of(b.take(j))));
        }
    }
}

/// The free places that a channel's queue had when it was asked.
pub struct QueueRoom {
    free: usize,
    channel: Ghost<Sender<OutboundMessage>>,
}

impl QueueRoom {
    /// The number of free places.
    pub closed spec fn count(&self) -> usize {
        self.free
    }

    /// The channel that was asked.
    pub closed spec fn channel(&self) -> Sender<OutboundMessage> {
        self.channel@
    }

    pub fn free(&self) -> (res: usize)
        ensures
            res == self.count(),
    {
        self.free
    }
}

/// Queues `message` on the channel with tokio's `mpsc::Sender::try_send`, which
/// never waits, and tells which of its outcomes came back. The record says only
/// that `message` was handed to `tx`, after the hand-overs already in `log`, and the
/// log gains that entry, as the body shows. The outcome depends on the channel's
/// fill and on whether its receiver is gone, so nothing is claimed of it.
#[verifier::external_body]
pub(crate) fn try_send(log: &mut SendLog, tx: &Sender<OutboundMessage>, message: OutboundMessage) -> (res: SendAttempt)
    ensures
        res.handed() == (*tx, message@),
        res.prior() == old(log).entries(),
        final(log).entries() == old(log).entries().push((*tx, message@)),
{
    let handed = Ghost((*tx, message@));
    let prior = Ghost(log.entries@);
    log.entries = Ghost(log.entries@.push((*tx, message@)));
    let outcome = match tx.try_send(message) {
        Ok(()) => SendOutcome::Sent,
        Err(tokio::sync::mpsc::error::TrySendError::Full(_)) => SendOutcome::Full,
        Err(tokio::sync::mpsc::error::TrySendError::Closed(_)) => SendOutcome::Closed,
    };
    SendAttempt { outcome, handed, prior }
}

/// The free places of the channel's queue, from tokio's `Sender::capacity`. The
/// record says which channel was asked; the number depends on what the receiver
/// has taken, so nothing is claimed of it.
#[verifier::external_body]
pub(crate) fn free_slots(tx: &Sender<OutboundMessage>) -> (res: QueueRoom)
    ensures
        res.channel() == *tx,
{
    QueueRoom { free: tx.capacity(), channel: Ghost(*tx) }
}

} // verus!
