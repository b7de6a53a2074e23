//! The fan-out point for one document: a bounded multi-consumer channel of
//! accepted edits, each tagged with the origin marker of the connection
//! that produced it, plus the document's last-modified time. Each
//! subscriber reads with its own cursor; a reader that falls behind the
//! bounded buffer observes a lag and must resynchronise.

use crate::doc::Update;
use crate::doc::UpdateV;
use vstd::prelude::*;

verus! {

/// One published edit together with the origin marker of the connection
/// it came from.
pub struct BroadcastMessage {
    pub origin: u64,
    pub update: Update,
}

/// Mathematical image of a broadcast message.
#[verifier::ext_equal]
pub ghost struct BroadcastMessageV {
    pub origin: u64,
    pub update: UpdateV,
}

impl View for BroadcastMessage {
    type V = BroadcastMessageV;

    open spec fn view(&self) -> BroadcastMessageV {
        BroadcastMessageV { origin: self.origin, update: self.update@ }
    }
}

impl BroadcastMessage {
    /// A copy of this message.
    pub fn dup(&self) -> (r: BroadcastMessage)
        ensures
            r == *self,
    {
        BroadcastMessage { origin: self.origin, update: self.update.dup() }
    }
}

/// What a subscriber's read of the channel yields.
pub enum RecvOutcome {
    /// A message from another device, and the cursor to resume from.
    Message(BroadcastMessage, u64),
    /// The reader fell behind the bounded buffer and messages it never saw
    /// were dropped; it must resynchronise. Carries the earliest cursor
    /// still available.
    Lagged(u64),
    /// Nothing new from other devices.
    UpToDate,
}

/// The broadcast hub of one collaboration group.
pub struct CollabBroadcast {
    /// The retained tail of the publish channel.
    pub buffer: Vec<BroadcastMessage>,
    /// Sequence number of the oldest retained message.
    pub start_seq: u64,
    /// Bound on the retained tail; older messages are dropped.
    pub capacity: usize,
    /// Advances on every accepted edit; never regresses.
    pub last_modified: u64,
}

impl CollabBroadcast {
    pub open spec fn wf(&self) -> bool {
        &&& 1 <= self.capacity
        &&& self.buffer@.len() <= self.capacity
        &&& self.start_seq + self.buffer@.len() <= u64::MAX
    }

    /// Sequence number the next published message will get.
    pub open spec fn spec_next_seq(&self) -> int {
        self.start_seq + self.buffer@.len()
    }

    /// A fresh hub with an empty channel.
    pub fn new(capacity: usize, now: u64) -> (r: CollabBroadcast)
        requires
            capacity >= 1,
        ensures
            r.wf(),
            r.buffer@ == Seq::<BroadcastMessage>::empty(),
            r.start_seq == 0,
            r.capacity == capacity,
            r.last_modified == now,
    {
        let r = CollabBroadcast { buffer: Vec::new(), start_seq: 0, capacity, last_modified: now };
        proof {
            assert(r.buffer@ =~= Seq::<BroadcastMessage>::empty());
        }
        r
    }

    /// Sequence number a newly attached subscriber should read from, so
    /// that it sees exactly the edits published after it attached.
    pub fn next_seq(&self) -> (r: u64)
        requires
            self.wf(),
        ensures
            r as int == self.spec_next_seq(),
    {
        self.start_seq + (self.buffer.len() as u64)
    }

    /// Publish one accepted edit, advancing the last-modified time (which
    /// never regresses). When the bounded buffer is full, the oldest
    /// retained message is dropped and slow readers will observe a lag.
    pub fn publish(&mut self, origin: u64, update: Update, now: u64)
        requires
            old(self).wf(),
            old(self).spec_next_seq() < u64::MAX,
        ensures
            final(self).wf(),
            final(self).capacity == old(self).capacity,
            final(self).spec_next_seq() == old(self).spec_next_seq() + 1,
            final(self).buffer@ == (if old(self).buffer@.len() < old(self).capacity {
                old(self).buffer@
            } else {
                old(self).buffer@.subrange(1, old(self).buffer@.len() as int)
            }).push((BroadcastMessage { origin, update })),
            final(self).start_seq as int == if old(self).buffer@.len() < old(self).capacity {
                old(self).start_seq as int
            } else {
                old(self).start_seq + 1
            },
            final(self).last_modified == if now > old(self).last_modified {
                now
            } else {
                old(self).last_modified
            },
            final(self).last_modified >= old(self).last_modified,
    {
        let ghost old_buf = self.buffer@;
        if self.buffer.len() == self.capacity {
            self.buffer.remove(0);
            self.start_seq = self.start_seq + 1;
            proof {
                assert(self.buffer@ =~= old_buf.subrange(1, old_buf.len() as int));
            }
        }
        self.buffer.push(BroadcastMessage { origin, update });
        if now > self.last_modified {
            self.last_modified = now;
        }
    }

    /// Read the next message for a subscriber whose own origin marker is
    /// `origin`, starting at `cursor`. Messages carrying the reader's own
    /// origin marker are skipped: a device never receives its own edit
    /// back.
    pub fn receive(&self, cursor: u64, origin: u64) -> (r: RecvOutcome)
        requires
            self.wf(),
        ensures
            (r matches RecvOutcome::Lagged(c)) <==> cursor < self.start_seq,
            (r matches RecvOutcome::Lagged(c) ==> c == self.start_seq),
            (r matches RecvOutcome::Message(m, next) ==> {
                &&& m.origin != origin
                &&& self.start_seq <= next - 1 < self.spec_next_seq()
                &&& cursor <= next - 1
                &&& m == self.buffer@[next - 1 - self.start_seq]
                &&& forall|j: int|
                    cursor - self.start_seq <= j < next - 1 - self.start_seq && 0 <= j
                        ==> self.buffer@[j].origin == origin
            }),
            (r matches RecvOutcome::UpToDate ==> cursor >= self.start_seq && forall|j: int|
                cursor - self.start_seq <= j < self.buffer@.len() && 0 <= j
                    ==> self.buffer@[j].origin == origin),
    {
        if cursor < self.start_seq {
            return RecvOutcome::Lagged(self.start_seq);
        }
        let mut idx: u64 = cursor;
        let upper = self.next_seq();
        while idx < upper
            invariant
                self.wf(),
                upper as int == self.spec_next_seq(),
                cursor <= idx,
                self.start_seq <= cursor,
                forall|j: int|
                    cursor - self.start_seq <= j < idx - self.start_seq && 0 <= j
                        ==> self.buffer@[j].origin == origin,
            decreases upper - idx,
        {
            let off = (idx - self.start_seq) as usize;
            if self.buffer[off].origin != origin {
                return RecvOutcome::Message(self.buffer[off].dup(), idx + 1);
            }
            idx = idx + 1;
        }
        RecvOutcome::UpToDate
    }
}

} // verus!
