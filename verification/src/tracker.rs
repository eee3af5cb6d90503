//! Mailbox updates that reach a session: what changed, queued until the
//! session writes them out, with a best-effort wake-up signal for IDLE.
use vstd::prelude::*;
use tokio::sync::mpsc::{Receiver, Sender};
use crate::types::Flag;

verus! {

/// Updates queued by the mailbox tracker for sessions to consume.
#[derive(Debug, Clone)]
pub enum TrackerUpdate {
    /// Messages were expunged. Value is the sequence number.
    Expunge(u32),
    /// Number of messages changed.
    NumMessages(u32),
    /// Mailbox flags changed.
    MailboxFlags(Vec<Flag>),
    /// A message's flags changed.
    MessageFlags { seq: u32, uid: u32, flags: Vec<Flag> },
}

#[verifier::external_type_specification]
#[verifier::external_body]
#[verifier::reject_recursive_types(T)]
pub struct ExSender<T>(Sender<T>);

#[verifier::external_type_specification]
#[verifier::external_body]
#[verifier::reject_recursive_types(T)]
pub struct ExReceiver<T>(Receiver<T>);

/// `tokio::sync::mpsc::channel(buffer)`: a new bounded channel. Tokio
/// panics on a zero buffer and on one above `usize::MAX >> 3`, which the
/// `requires` leaves out; nothing is stated of the halves.
#[verifier::external_body]
fn channel(buffer: usize) -> (Sender<()>, Receiver<()>)
    requires
        0 < buffer <= usize::MAX / 8,
{
    tokio::sync::mpsc::channel(buffer)
}

/// `Sender::try_send(())`: whether the signal was queued. It depends on how
/// full the channel is and whether its receiver is gone, so nothing is
/// stated of the result.
#[verifier::external_body]
fn try_signal(tx: &Sender<()>) -> bool {
    tx.try_send(()).is_ok()
}

/// Per-session tracker: the updates the session has not yet written,
/// oldest first, and the channel that wakes an IDLE handler when one
/// arrives.
pub struct SessionTracker {
    pending: Vec<TrackerUpdate>,
    notify_tx: Sender<()>,
    notify_rx: Option<Receiver<()>>,
}

impl View for SessionTracker {
    type V = Seq<TrackerUpdate>;

    closed spec fn view(&self) -> Seq<TrackerUpdate> {
        self.pending@
    }
}

impl SessionTracker {
    /// Whether the receiver of the wake-up channel is still here to take.
    pub closed spec fn has_receiver(&self) -> bool {
        self.notify_rx is Some
    }

    /// No pending updates, and a fresh wake-up channel of capacity 64.
    pub fn new() -> (r: Self)
        ensures
            r@ == Seq::<TrackerUpdate>::empty(),
            r.has_receiver(),
    {
        let (notify_tx, notify_rx) = channel(64);
        SessionTracker { pending: Vec::new(), notify_tx, notify_rx: Some(notify_rx) }
    }

    /// Hands out every pending update, oldest first, and keeps none.
    pub fn drain(&mut self) -> (r: Vec<TrackerUpdate>)
        ensures
            r@ == old(self)@,
            final(self)@ == Seq::<TrackerUpdate>::empty(),
            final(self).has_receiver() == old(self).has_receiver(),
    {
        let mut out: Vec<TrackerUpdate> = Vec::new();
        std::mem::swap(&mut out, &mut self.pending);
        out
    }

    /// Whether any update is pending.
    pub fn has_pending(&self) -> (r: bool)
        ensures
            r == (self@.len() > 0),
    {
        self.pending.len() > 0
    }

    /// Queues an update after the others and signals the wake-up channel;
    /// a full or closed channel drops the signal, not the update.
    pub fn push(&mut self, update: TrackerUpdate)
        ensures
            final(self)@ == old(self)@.push(update),
            final(self).has_receiver() == old(self).has_receiver(),
    {
        self.pending.push(update);
        let _ = try_signal(&self.notify_tx);
    }

    /// Takes the wake-up receiver for IDLE. When it was taken before, a new
    /// channel replaces the old one, so that later pushes still signal.
    pub fn take_receiver(&mut self) -> (r: Receiver<()>)
        ensures
            final(self)@ == old(self)@,
            !final(self).has_receiver(),
    {
        match self.notify_rx.take() {
            Some(rx) => rx,
            None => {
                let (tx, rx) = channel(64);
                self.notify_tx = tx;
                rx
            },
        }
    }
}

impl Default for SessionTracker {
    fn default() -> (r: Self)
        ensures
            r@ == Seq::<TrackerUpdate>::empty(),
            r.has_receiver(),
    {
        SessionTracker::new()
    }
}

} // verus!
