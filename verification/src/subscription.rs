//! One device's binding to a collaboration group: its origin marker, its
//! read cursor into the group's broadcast channel, and its stopped flag.
//! The two pumps of a live connection are driven from outside: the
//! outbound pump repeatedly takes `outbound_step` and writes what it
//! yields to the device's sink; the inbound pump feeds device messages to
//! the group. Both end when the subscription is stopped.

use crate::broadcast::BroadcastMessage;
use crate::broadcast::CollabBroadcast;
use crate::broadcast::RecvOutcome;
use vstd::prelude::*;

verus! {

/// The per-device subscription state.
#[derive(PartialEq, Eq, Structural, Clone, Copy, Debug)]
pub struct Subscription {
    /// Origin marker of this device's connection; its own edits carry it,
    /// and the outbound pump filters them out.
    pub origin: u64,
    /// Position in the group's broadcast channel up to which this device
    /// has been served.
    pub cursor: u64,
    /// Set once `stop` has run; no pump makes progress afterwards.
    pub stopped: bool,
}

/// The state a subscription reaches when stopped.
pub open spec fn spec_stopped(s: Subscription) -> Subscription {
    Subscription { origin: s.origin, cursor: s.cursor, stopped: true }
}

/// What one step of the outbound pump yields.
pub enum OutboundEvent {
    /// Write this message to the device's sink.
    Deliver(BroadcastMessage),
    /// The device fell behind the bounded channel and missed messages; it
    /// must run the resync handshake. The cursor has been moved to the
    /// oldest retained message.
    Lagged,
    /// Nothing to do.
    Idle,
}

impl Subscription {
    /// A live subscription reading the channel from `cursor` on.
    pub fn new(origin: u64, cursor: u64) -> (r: Subscription)
        ensures
            r == (Subscription { origin, cursor, stopped: false }),
    {
        Subscription { origin, cursor, stopped: false }
    }

    /// Terminate both pumps. Idempotent: stopping an already stopped
    /// subscription changes nothing and raises no error.
    pub fn stop(&mut self)
        ensures
            *final(self) == spec_stopped(*old(self)),
    {
        self.stopped = true;
    }

    /// One step of the outbound pump: take the next broadcast message not
    /// originated by this device and advance the cursor past it. A stopped
    /// subscription does nothing. A device never receives its own edit
    /// back: everything delivered carries a foreign origin marker. A live
    /// subscription may answer `Idle` only when nothing foreign is
    /// pending: every retained message at or past its cursor is its own.
    pub fn outbound_step(&mut self, hub: &CollabBroadcast) -> (r: OutboundEvent)
        requires
            hub.wf(),
        ensures
            final(self).origin == old(self).origin,
            final(self).stopped == old(self).stopped,
            old(self).stopped ==> *final(self) == *old(self) && (r matches OutboundEvent::Idle),
            (r matches OutboundEvent::Idle ==> old(self).stopped || (old(self).cursor
                >= hub.start_seq && forall|j: int|
                old(self).cursor - hub.start_seq <= j < hub.buffer@.len() && 0 <= j
                    ==> hub.buffer@[j].origin == old(self).origin)),
            (r matches OutboundEvent::Deliver(m) ==> {
                &&& m.origin != old(self).origin
                &&& hub.start_seq <= final(self).cursor - 1 < hub.spec_next_seq()
                &&& m == hub.buffer@[final(self).cursor - 1 - hub.start_seq]
                &&& old(self).cursor <= final(self).cursor - 1
                &&& forall|j: int|
                    old(self).cursor - hub.start_seq <= j < final(self).cursor - 1 - hub.start_seq
                        && 0 <= j ==> hub.buffer@[j].origin == old(self).origin
            }),
            (r matches OutboundEvent::Lagged ==> old(self).cursor < hub.start_seq
                && final(self).cursor == hub.start_seq),
            (r matches OutboundEvent::Idle ==> final(self).cursor == old(self).cursor),
    {
        if self.stopped {
            return OutboundEvent::Idle;
        }
        match hub.receive(self.cursor, self.origin) {
            RecvOutcome::Message(m, next) => {
                self.cursor = next;
                OutboundEvent::Deliver(m)
            },
            RecvOutcome::Lagged(resume) => {
                self.cursor = resume;
                OutboundEvent::Lagged
            },
            RecvOutcome::UpToDate => OutboundEvent::Idle,
        }
    }
}

/// Stopping is idempotent: a second stop reaches the very same state.
pub proof fn lemma_stop_idempotent(s: Subscription)
    ensures
        spec_stopped(spec_stopped(s)) == spec_stopped(s),
{
}

} // verus!
