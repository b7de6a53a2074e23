//! The per-document collaboration group: the sole owner of one document
//! replica and one broadcast hub, plus the subscriber registry. At most
//! one live subscription exists per (user, device) slot — a reconnect of
//! the same device stops and replaces its predecessor — and a group is
//! evicted only when it has no subscribers and has been idle past its
//! type's timeout.

use crate::broadcast::BroadcastMessage;
use crate::broadcast::CollabBroadcast;
use crate::doc::DocState;
use crate::doc::EncodedDoc;
use crate::doc::RegV;
use crate::doc::Update;
use crate::doc::UpdateV;
use crate::doc::lemma_same_edits_converge;
use crate::doc::spec_apply;
use crate::doc::spec_apply_seq;
use crate::doc::swappable;
use crate::subscription::Subscription;
use crate::subscription::spec_stopped;
use crate::sync::StateVector;
use crate::sync::SyncResponse;
use crate::sync::lemma_sync_partition;
use crate::sync::spec_covered_part;
use crate::sync::spec_missing;
use crate::sync::sv_actors_unique;
use crate::sync::sync_response;
use crate::sync::views_of;
use vstd::prelude::*;

verus! {

/// The kind of collaborative object a group manages; it decides the idle
/// timeout.
#[derive(PartialEq, Eq, Structural, Clone, Copy, Debug)]
pub enum CollabType {
    Document,
    Database,
    DatabaseRow,
    WorkspaceDatabase,
    Folder,
    UserAwareness,
}

/// An authenticated connection: the logical user, the physical device,
/// and a number distinguishing successive connections of one device.
#[derive(PartialEq, Eq, Structural, Clone, Copy, Debug, Hash)]
pub struct User {
    pub uid: u64,
    pub device: u64,
    pub connection: u64,
}

/// The (user, device) slot of which at most one subscription may be live.
#[derive(PartialEq, Eq, Structural, Clone, Copy, Debug, Hash)]
pub struct DeviceKey {
    pub uid: u64,
    pub device: u64,
}

/// The slot a user's connection occupies.
pub open spec fn device_of(u: User) -> DeviceKey {
    DeviceKey { uid: u.uid, device: u.device }
}

/// Idle timeout per collaboration type, in seconds.
pub open spec fn spec_timeout_secs(t: CollabType) -> u64 {
    match t {
        CollabType::Document => 600,
        CollabType::Database | CollabType::DatabaseRow => 3600,
        CollabType::WorkspaceDatabase | CollabType::Folder | CollabType::UserAwareness => 7200,
    }
}

/// No (user, device) slot holds two subscriptions.
pub open spec fn devices_unique(s: Seq<(User, Subscription)>) -> bool {
    forall|i: int, j: int| 0 <= i < j < s.len() ==> device_of(s[i].0) != device_of(s[j].0)
}

/// No device key appears twice in the slot table.
pub open spec fn dkeys_unique(s: Seq<(DeviceKey, User)>) -> bool {
    forall|i: int, j: int| 0 <= i < j < s.len() ==> s[i].0 != s[j].0
}

/// The registry holds a subscription for this user key.
pub open spec fn has_user(s: Seq<(User, Subscription)>, u: User) -> bool {
    exists|i: int| 0 <= i < s.len() && s[i].0 == u
}

/// This exact entry stands in the registry.
pub open spec fn has_entry(s: Seq<(User, Subscription)>, e: (User, Subscription)) -> bool {
    exists|i: int| 0 <= i < s.len() && s[i] == e
}

/// The subscription registered for a user key (meaningful under
/// `users_unique` together with `has_user`).
pub open spec fn sub_of(s: Seq<(User, Subscription)>, u: User) -> Subscription {
    s[choose|i: int| 0 <= i < s.len() && s[i].0 == u].1
}

/// The slot table maps this device key to this user.
pub open spec fn slot_maps_to(s: Seq<(DeviceKey, User)>, k: DeviceKey, u: User) -> bool {
    exists|i: int| 0 <= i < s.len() && s[i] == (k, u)
}

/// Messages a device can send to the group.
pub enum ClientMessage {
    /// An edit to merge into the document.
    Edit(Update),
    /// The reconnect handshake, carrying the device's state vector.
    SyncRequest(StateVector),
    /// A frame the transport could not decode.
    Malformed,
}

/// The outcome of one inbound message.
pub enum InboundOutcome {
    /// The edit was merged, logged and broadcast to the other devices.
    Applied,
    /// The edit's clock was not newer than what the group had already
    /// accepted from that actor: a replay of an edit it holds.
    Stale,
    /// The access-control decision denied the operation; nothing changed.
    Forbidden,
    /// The message was malformed; nothing changed.
    ProtocolError,
    /// The answer to a sync request, to send back to the requester only.
    SyncReply(SyncResponse),
}

/// The per-document owner of replica, hub and subscribers.
pub struct CollabGroup {
    /// Stable identifier of the document; immutable.
    pub object_id: String,
    /// Immutable; decides the inactivity timeout.
    pub collab_type: CollabType,
    /// Environment-level override of the idle timeout in seconds (for
    /// example a shortened development setting); `None` uses the type's.
    pub timeout_override: Option<u64>,
    /// Gap, in missed edits, beyond which a reconnecting device is sent
    /// the full state instead of an incremental replay.
    pub init_sync_threshold: usize,
    /// The authoritative replica.
    pub doc: DocState,
    /// Every accepted edit since creation, in application order.
    pub log: Vec<Update>,
    /// Per actor, the highest clock among accepted edits.
    pub frontier: StateVector,
    /// The fan-out channel and last-modified time.
    pub broadcast: CollabBroadcast,
    /// The live subscriptions, keyed by user.
    pub subscribers: Vec<(User, Subscription)>,
    /// Which user currently holds each (user, device) slot.
    pub user_by_device: Vec<(DeviceKey, User)>,
    /// The document the group was created from.
    pub init_doc: Ghost<Map<Seq<char>, RegV>>,
}

/// Everything a registry operation leaves untouched.
pub open spec fn same_core(a: CollabGroup, b: CollabGroup) -> bool {
    &&& a.object_id == b.object_id
    &&& a.collab_type == b.collab_type
    &&& a.timeout_override == b.timeout_override
    &&& a.init_sync_threshold == b.init_sync_threshold
    &&& a.doc == b.doc
    &&& a.log == b.log
    &&& a.frontier == b.frontier
    &&& a.broadcast == b.broadcast
    &&& a.init_doc@ == b.init_doc@
}

/// Everything an inbound message leaves untouched.
pub open spec fn same_registry(a: CollabGroup, b: CollabGroup) -> bool {
    &&& a.object_id == b.object_id
    &&& a.collab_type == b.collab_type
    &&& a.timeout_override == b.timeout_override
    &&& a.init_sync_threshold == b.init_sync_threshold
    &&& a.subscribers@ == b.subscribers@
    &&& a.user_by_device@ == b.user_by_device@
    &&& a.init_doc@ == b.init_doc@
}

/// A rejected or replayed message changes no document state.
pub open spec fn same_document(a: CollabGroup, b: CollabGroup) -> bool {
    &&& a.doc == b.doc
    &&& a.log@ == b.log@
    &&& a.frontier == b.frontier
    &&& a.broadcast == b.broadcast
}

impl CollabGroup {
    pub open spec fn wf(&self) -> bool {
        &&& self.doc.wf()
        &&& self.frontier.wf()
        &&& self.broadcast.wf()
        &&& devices_unique(self.subscribers@)
        &&& dkeys_unique(self.user_by_device@)
        &&& forall|i: int|
            0 <= i < self.user_by_device@.len() ==> device_of(#[trigger] self.user_by_device@[i].1)
                == self.user_by_device@[i].0
        &&& forall|i: int|
            0 <= i < self.subscribers@.len() ==> slot_maps_to(
                self.user_by_device@,
                device_of(#[trigger] self.subscribers@[i].0),
                self.subscribers@[i].0,
            )
        &&& self.doc@ == spec_apply_seq(self.init_doc@, views_of(self.log@))
        &&& self.broadcast.spec_next_seq() == self.log@.len()
        &&& forall|i: int|
            0 <= i < self.broadcast.buffer@.len() ==> #[trigger] self.broadcast.buffer@[i].update
                == self.log@[self.broadcast.start_seq + i]
        &&& forall|i: int|
            0 <= i < self.log@.len() ==> #[trigger] self.log@[i]@.clock
                <= self.frontier.spec_clock_of(self.log@[i]@.actor)
        &&& forall|i: int, j: int|
            0 <= i < j < self.log@.len() ==> !(self.log@[i]@.actor == self.log@[j]@.actor
                && self.log@[i]@.clock == self.log@[j]@.clock)
    }

    /// The idle timeout in force: the configured override if any, else the
    /// collaboration type's own.
    pub open spec fn spec_effective_timeout(&self) -> u64 {
        match self.timeout_override {
            Some(t) => t,
            None => spec_timeout_secs(self.collab_type),
        }
    }

    /// When the document was last modified: the hub advances this on
    /// every accepted edit.
    pub open spec fn spec_last_modified(&self) -> u64 {
        self.broadcast.last_modified
    }

    /// A group is inactive exactly when nobody is subscribed and nothing
    /// has been modified for longer than the timeout in force.
    pub open spec fn spec_is_inactive(&self, now: u64) -> bool {
        &&& self.subscribers@.len() == 0
        &&& now > self.spec_last_modified()
        &&& now - self.spec_last_modified() > self.spec_effective_timeout()
    }

    /// Create the group for one object over the loaded replica, wiring a
    /// fresh broadcast hub; there are no subscribers yet.
    pub fn new(
        object_id: String,
        collab_type: CollabType,
        initial: DocState,
        now: u64,
        init_sync_threshold: usize,
        timeout_override: Option<u64>,
    ) -> (r: CollabGroup)
        requires
            initial.wf(),
        ensures
            r.wf(),
            r.object_id == object_id,
            r.collab_type == collab_type,
            r.timeout_override == timeout_override,
            r.init_sync_threshold == init_sync_threshold,
            r.doc@ == initial@,
            r.init_doc@ == initial@,
            r.log@.len() == 0,
            r.subscribers@.len() == 0,
            r.user_by_device@.len() == 0,
            r.broadcast.last_modified == now,
            r.broadcast.spec_next_seq() == 0,
            r.broadcast.capacity == 10,
            forall|a: u64| r.frontier.spec_clock_of(a) == 0,
    {
        let ghost init = initial@;
        let r = CollabGroup {
            object_id,
            collab_type,
            timeout_override,
            init_sync_threshold,
            doc: initial,
            log: Vec::new(),
            frontier: StateVector::new(),
            broadcast: CollabBroadcast::new(10, now),
            subscribers: Vec::new(),
            user_by_device: Vec::new(),
            init_doc: Ghost(init),
        };
        proof {
            assert(views_of(r.log@) =~= Seq::<crate::doc::UpdateV>::empty());
        }
        r
    }

    fn find_sub_index(&self, user: &User) -> (r: Option<usize>)
        ensures
            match r {
                Some(i) => i < self.subscribers@.len() && self.subscribers@[i as int].0 == *user,
                None => forall|i: int|
                    0 <= i < self.subscribers@.len() ==> self.subscribers@[i].0 != *user,
            },
    {
        let mut i: usize = 0;
        while i < self.subscribers.len()
            invariant
                i <= self.subscribers@.len(),
                forall|j: int| 0 <= j < i ==> self.subscribers@[j].0 != *user,
            decreases self.subscribers@.len() - i,
        {
            if self.subscribers[i].0 == *user {
                return Some(i);
            }
            i += 1;
        }
        None
    }

    fn find_device_index(&self, key: &DeviceKey) -> (r: Option<usize>)
        ensures
            match r {
                Some(i) => i < self.user_by_device@.len() && self.user_by_device@[i as int].0
                    == *key,
                None => forall|i: int|
                    0 <= i < self.user_by_device@.len() ==> self.user_by_device@[i].0 != *key,
            },
    {
        let mut i: usize = 0;
        while i < self.user_by_device.len()
            invariant
                i <= self.user_by_device@.len(),
                forall|j: int| 0 <= j < i ==> self.user_by_device@[j].0 != *key,
            decreases self.user_by_device@.len() - i,
        {
            if self.user_by_device[i].0 == *key {
                return Some(i);
            }
            i += 1;
        }
        None
    }

    /// Whether this user key holds a subscription.
    pub fn contains_user(&self, user: &User) -> (r: bool)
        ensures
            r == has_user(self.subscribers@, *user),
    {
        self.find_sub_index(user).is_some()
    }

    /// The number of live subscriptions.
    pub fn user_count(&self) -> (r: usize)
        ensures
            r == self.subscribers@.len(),
    {
        self.subscribers.len()
    }

    /// Remove this user's subscription, stopping its pumps first. The
    /// stopped subscription is handed back so the caller can tear its
    /// tasks down; `None` (and no change) if the user holds none.
    pub fn remove_user(&mut self, user: &User) -> (r: Option<Subscription>)
        requires
            old(self).wf(),
        ensures
            final(self).wf(),
            same_core(*final(self), *old(self)),
            final(self).user_by_device@ == old(self).user_by_device@,
            !has_user(final(self).subscribers@, *user),
            match r {
                Some(s) => {
                    &&& has_user(old(self).subscribers@, *user)
                    &&& s == spec_stopped(sub_of(old(self).subscribers@, *user))
                    &&& s.stopped
                    &&& final(self).subscribers@.len() == old(self).subscribers@.len() - 1
                },
                None => {
                    &&& !has_user(old(self).subscribers@, *user)
                    &&& final(self).subscribers@ == old(self).subscribers@
                },
            },
            forall|e: (User, Subscription)|
                has_entry(final(self).subscribers@, e) <==> (has_entry(old(self).subscribers@, e)
                    && e.0 != *user),
    {
        let ghost old_subs = self.subscribers@;
        match self.find_sub_index(user) {
            Some(i) => {
                let entry = self.subscribers.remove(i);
                let mut sub = entry.1;
                sub.stop();
                proof {
                    assert(self.subscribers@ == old_subs.remove(i as int));
                    assert forall|j: int| 0 <= j < self.subscribers@.len() implies
                        self.subscribers@[j] == (if j < i as int {
                        old_subs[j]
                    } else {
                        old_subs[j + 1]
                    }) by {}
                    assert(devices_unique(self.subscribers@));
                    assert forall|j: int| 0 <= j < self.subscribers@.len() implies slot_maps_to(
                        self.user_by_device@,
                        device_of(#[trigger] self.subscribers@[j].0),
                        self.subscribers@[j].0,
                    ) by {
                        if j < i as int {
                            assert(self.subscribers@[j] == old_subs[j]);
                        } else {
                            assert(self.subscribers@[j] == old_subs[j + 1]);
                        }
                    }
                    assert forall|j: int| 0 <= j < self.subscribers@.len() implies
                        self.subscribers@[j].0 != *user by {
                        if j < i as int {
                            assert(old_subs[j].0 != old_subs[i as int].0) by {
                                assert(device_of(old_subs[j].0) != device_of(old_subs[i as int].0));
                            }
                        } else {
                            assert(device_of(old_subs[j + 1].0) != device_of(
                                old_subs[i as int].0,
                            ));
                        }
                    }
                    let ci = choose|k: int| 0 <= k < old_subs.len() && old_subs[k].0 == *user;
                    assert(ci == i as int) by {
                        if ci != i as int {
                            assert(device_of(old_subs[ci].0) != device_of(old_subs[i as int].0));
                        }
                    }
                    assert forall|e: (User, Subscription)|
                        has_entry(self.subscribers@, e) <==> (has_entry(old_subs, e) && e.0
                            != *user) by {
                        if has_entry(self.subscribers@, e) {
                            let j = choose|j: int|
                                0 <= j < self.subscribers@.len() && self.subscribers@[j] == e;
                            if j < i as int {
                                assert(old_subs[j] == e);
                            } else {
                                assert(old_subs[j + 1] == e);
                            }
                        }
                        if has_entry(old_subs, e) && e.0 != *user {
                            let j = choose|j: int| 0 <= j < old_subs.len() && old_subs[j] == e;
                            if j < i as int {
                                assert(self.subscribers@[j] == e);
                            } else {
                                assert(j != i as int);
                                assert(self.subscribers@[j - 1] == e);
                            }
                        }
                    }
                }
                Some(sub)
            },
            None => None,
        }
    }

    /// Register a new connection of `user`'s device, reading the broadcast
    /// channel from its current end. If the same (user, device) slot
    /// already holds a subscription, that one is stopped and removed
    /// first: the last connection wins, and no physical device ever
    /// receives a broadcast twice. The stopped predecessor, if any, is
    /// handed back for teardown.
    pub fn subscribe(&mut self, user: User, subscriber_origin: u64) -> (r: Option<Subscription>)
        requires
            old(self).wf(),
        ensures
            final(self).wf(),
            same_core(*final(self), *old(self)),
            has_user(final(self).subscribers@, user),
            sub_of(final(self).subscribers@, user).origin == subscriber_origin,
            !sub_of(final(self).subscribers@, user).stopped,
            sub_of(final(self).subscribers@, user).cursor as int == old(
                self,
            ).broadcast.spec_next_seq(),
            slot_maps_to(final(self).user_by_device@, device_of(user), user),
            forall|i: int|
                0 <= i < final(self).subscribers@.len() && device_of(
                    #[trigger] final(self).subscribers@[i].0,
                ) == device_of(user) ==> final(self).subscribers@[i].0 == user,
            forall|e: (User, Subscription)|
                device_of(e.0) != device_of(user) ==> (has_entry(final(self).subscribers@, e)
                    <==> has_entry(old(self).subscribers@, e)),
            match r {
                Some(s) => {
                    &&& s.stopped
                    &&& exists|i: int|
                        0 <= i < old(self).subscribers@.len() && device_of(
                            #[trigger] old(self).subscribers@[i].0,
                        ) == device_of(user) && s == spec_stopped(old(self).subscribers@[i].1)
                    &&& final(self).subscribers@.len() == old(self).subscribers@.len()
                },
                None => {
                    &&& forall|i: int|
                        0 <= i < old(self).subscribers@.len() ==> device_of(
                            #[trigger] old(self).subscribers@[i].0,
                        ) != device_of(user)
                    &&& final(self).subscribers@.len() == old(self).subscribers@.len() + 1
                },
            },
    {
        let cursor = self.broadcast.next_seq();
        let sub = Subscription::new(subscriber_origin, cursor);
        let key = DeviceKey { uid: user.uid, device: user.device };
        let ghost old_subs = self.subscribers@;
        let ghost old_slots = self.user_by_device@;

        let displaced: Option<Subscription> = match self.find_device_index(&key) {
            Some(di) => {
                let old_user = self.user_by_device[di].1;
                proof {
                    assert(device_of(old_user) == key);
                }
                let prior = self.remove_user(&old_user);
                let ghost mid1_subs = self.subscribers@;
                let _ = self.user_by_device.remove(di);
                proof {
                    assert(self.user_by_device@ == old_slots.remove(di as int));
                    assert forall|j: int| 0 <= j < self.user_by_device@.len() implies
                        self.user_by_device@[j] == (if j < di as int {
                        old_slots[j]
                    } else {
                        old_slots[j + 1]
                    }) by {}
                    assert(dkeys_unique(self.user_by_device@));
                    // No remaining subscriber sits in this device slot: one
                    // that did would, by the slot invariant and slot-key
                    // uniqueness, be `old_user`, which was just removed.
                    assert forall|i: int|
                        0 <= i < self.subscribers@.len() && device_of(
                            #[trigger] self.subscribers@[i].0,
                        ) == key implies false by {
                        let e = self.subscribers@[i];
                        assert(has_entry(mid1_subs, e));
                        assert(has_entry(old_subs, e) && e.0 != old_user);
                        assert(slot_maps_to(old_slots, key, e.0));
                        let k = choose|k: int|
                            0 <= k < old_slots.len() && old_slots[k] == (key, e.0);
                        assert(k == di as int);
                        assert(e.0 == old_user);
                    }
                    // Every remaining subscriber's slot survives the removal.
                    assert forall|i: int| 0 <= i < self.subscribers@.len() implies slot_maps_to(
                        self.user_by_device@,
                        device_of(#[trigger] self.subscribers@[i].0),
                        self.subscribers@[i].0,
                    ) by {
                        let e = self.subscribers@[i];
                        assert(slot_maps_to(old_slots, device_of(e.0), e.0));
                        let k = choose|k: int|
                            0 <= k < old_slots.len() && old_slots[k] == (device_of(e.0), e.0);
                        assert(device_of(e.0) != key);
                        assert(k != di as int);
                        if k < di as int {
                            assert(self.user_by_device@[k] == (device_of(e.0), e.0));
                        } else {
                            assert(self.user_by_device@[k - 1] == (device_of(e.0), e.0));
                        }
                    }
                    // The displaced subscription, if any, sat in this slot.
                    if prior is Some {
                        let ci = choose|k: int|
                            0 <= k < old_subs.len() && old_subs[k].0 == old_user;
                        assert(device_of(old_subs[ci].0) == device_of(user));
                    } else {
                        assert forall|i: int| 0 <= i < old_subs.len() implies device_of(
                            #[trigger] old_subs[i].0,
                        ) != device_of(user) by {
                            if device_of(old_subs[i].0) == key {
                                assert(slot_maps_to(old_slots, key, old_subs[i].0));
                                let k = choose|k: int|
                                    0 <= k < old_slots.len() && old_slots[k] == (
                                    key,
                                    old_subs[i].0,
                                );
                                assert(k == di as int);
                                assert(old_subs[i].0 == old_user);
                                assert(has_user(old_subs, old_user));
                            }
                        }
                    }
                    // The device slot is now free.
                    assert forall|j: int| 0 <= j < self.user_by_device@.len() implies
                        self.user_by_device@[j].0 != key by {
                        if j < di as int {
                            assert(old_slots[j].0 != old_slots[di as int].0);
                        } else {
                            assert(old_slots[j + 1].0 != old_slots[di as int].0);
                        }
                    }
                    assert forall|j: int| 0 <= j < self.user_by_device@.len() implies device_of(
                        #[trigger] self.user_by_device@[j].1,
                    ) == self.user_by_device@[j].0 by {}
                    // Subscriptions of other device slots are untouched.
                    assert forall|e: (User, Subscription)| device_of(e.0) != key implies (
                    has_entry(self.subscribers@, e) <==> has_entry(old_subs, e)) by {
                        assert(e.0 != old_user);
                        assert(self.subscribers@ == mid1_subs);
                    }
                    assert(devices_unique(self.subscribers@));
                }
                prior
            },
            None => {
                proof {
                    // No subscriber sits in an unmapped slot.
                    assert forall|i: int| 0 <= i < self.subscribers@.len() implies device_of(
                        #[trigger] self.subscribers@[i].0,
                    ) != key by {
                        if device_of(self.subscribers@[i].0) == key {
                            assert(slot_maps_to(old_slots, key, self.subscribers@[i].0));
                            let s_i = choose|k: int|
                                0 <= k < old_slots.len() && old_slots[k] == (
                                key,
                                self.subscribers@[i].0,
                            );
                            assert(old_slots[s_i].0 == key);
                        }
                    }
                    assert(self.subscribers@ == old_subs);
                    assert(devices_unique(self.subscribers@));
                    assert(dkeys_unique(self.user_by_device@));
                    assert forall|j: int| 0 <= j < self.user_by_device@.len() implies device_of(
                        #[trigger] self.user_by_device@[j].1,
                    ) == self.user_by_device@[j].0 by {}
                }
                None
            },
        };

        let ghost mid_subs = self.subscribers@;
        let ghost mid_slots = self.user_by_device@;
        self.user_by_device.push((key, user));
        self.subscribers.push((user, sub));
        proof {
            assert(self.subscribers@ == mid_subs.push((user, sub)));
            assert(self.user_by_device@ == mid_slots.push((key, user)));
            assert(self.subscribers@.last() == (user, sub));
            assert(self.user_by_device@.last() == (key, user));
            assert forall|j: int| 0 <= j < mid_subs.len() implies self.subscribers@[j]
                == mid_subs[j] by {}
            assert forall|j: int| 0 <= j < mid_slots.len() implies self.user_by_device@[j]
                == mid_slots[j] by {}
            assert forall|i: int, j: int| 0 <= i < j < self.subscribers@.len() implies device_of(
                self.subscribers@[i].0,
            ) != device_of(self.subscribers@[j].0) by {
                if j == self.subscribers@.len() - 1 {
                    assert(device_of(mid_subs[i].0) != key);
                } else {
                    assert(device_of(mid_subs[i].0) != device_of(mid_subs[j].0));
                }
            }
            assert(devices_unique(self.subscribers@));
            assert forall|i: int, j: int| 0 <= i < j < self.user_by_device@.len() implies
                self.user_by_device@[i].0 != self.user_by_device@[j].0 by {
                if j == self.user_by_device@.len() - 1 {
                    assert(mid_slots[i].0 != key);
                } else {
                    assert(mid_slots[i].0 != mid_slots[j].0);
                }
            }
            assert(dkeys_unique(self.user_by_device@));
            assert forall|j: int| 0 <= j < self.user_by_device@.len() implies device_of(
                #[trigger] self.user_by_device@[j].1,
            ) == self.user_by_device@[j].0 by {
                if j < mid_slots.len() {
                    assert(device_of(mid_slots[j].1) == mid_slots[j].0);
                } else {
                    assert(self.user_by_device@[j] == (key, user));
                }
            }
            assert forall|i: int| 0 <= i < self.subscribers@.len() implies slot_maps_to(
                self.user_by_device@,
                device_of(#[trigger] self.subscribers@[i].0),
                self.subscribers@[i].0,
            ) by {
                if i < mid_subs.len() {
                    assert(slot_maps_to(mid_slots, device_of(mid_subs[i].0), mid_subs[i].0));
                    let k = choose|k: int|
                        0 <= k < mid_slots.len() && mid_slots[k] == (
                        device_of(mid_subs[i].0),
                        mid_subs[i].0,
                    );
                    assert(self.user_by_device@[k] == (
                        device_of(self.subscribers@[i].0),
                        self.subscribers@[i].0,
                    ));
                } else {
                    assert(self.user_by_device@.last() == (
                        device_of(self.subscribers@[i].0),
                        self.subscribers@[i].0,
                    ));
                }
            }
            let li = self.subscribers@.len() - 1;
            assert(self.subscribers@[li].0 == user);
            let ci = choose|k: int|
                0 <= k < self.subscribers@.len() && self.subscribers@[k].0 == user;
            assert(ci == li) by {
                if ci != li {
                    assert(device_of(self.subscribers@[ci].0) != device_of(
                        self.subscribers@[li].0,
                    ));
                }
            }
            assert(sub_of(self.subscribers@, user) == sub);
            assert forall|e: (User, Subscription)| device_of(e.0) != device_of(user) implies (
            has_entry(self.subscribers@, e) <==> has_entry(old_subs, e)) by {
                if has_entry(self.subscribers@, e) {
                    let j = choose|j: int|
                        0 <= j < self.subscribers@.len() && self.subscribers@[j] == e;
                    assert(j < mid_subs.len());
                    assert(has_entry(mid_subs, e));
                }
                if has_entry(mid_subs, e) {
                    let j = choose|j: int| 0 <= j < mid_subs.len() && mid_subs[j] == e;
                    assert(self.subscribers@[j] == e);
                }
            }
        }
        displaced
    }

    /// The inactivity decision for the eviction scheduler. A group with at
    /// least one live subscriber is never inactive, regardless of elapsed
    /// time; with none, it is inactive once the time since the last
    /// accepted modification exceeds the timeout in force (Document: 10
    /// minutes, Database and DatabaseRow: 1 hour, WorkspaceDatabase,
    /// Folder and UserAwareness: 2 hours; the configured override wins).
    pub fn is_inactive(&self, now: u64) -> (r: bool)
        ensures
            r == self.spec_is_inactive(now),
    {
        if self.user_count() > 0 {
            return false;
        }
        let timeout = match self.timeout_override {
            Some(t) => t,
            None => self.timeout_secs(),
        };
        let modified_at = self.broadcast.last_modified;
        now > modified_at && now - modified_at > timeout
    }

    /// Stop every subscription, draining the registry. The stopped
    /// subscriptions are handed back, in registry order, so the caller
    /// can tear their pump tasks down. Idempotent: stopping an already
    /// drained group changes nothing and hands nothing back.
    pub fn stop(&mut self) -> (r: Vec<Subscription>)
        requires
            old(self).wf(),
        ensures
            final(self).wf(),
            same_core(*final(self), *old(self)),
            final(self).user_by_device@ == old(self).user_by_device@,
            final(self).subscribers@.len() == 0,
            r@.len() == old(self).subscribers@.len(),
            forall|i: int|
                0 <= i < r@.len() ==> r@[i] == spec_stopped(old(self).subscribers@[i].1)
                    && r@[i].stopped,
            old(self).subscribers@.len() == 0 ==> final(self).subscribers@ == old(
                self,
            ).subscribers@ && r@ == Seq::<Subscription>::empty(),
    {
        let ghost g0 = *self;
        let mut out: Vec<Subscription> = Vec::new();
        while self.subscribers.len() > 0
            invariant
                g0 == *old(self),
                g0.wf(),
                same_core(*self, g0),
                self.user_by_device@ == g0.user_by_device@,
                out@.len() + self.subscribers@.len() == g0.subscribers@.len(),
                forall|j: int|
                    0 <= j < out@.len() ==> out@[j] == spec_stopped(g0.subscribers@[j].1)
                        && out@[j].stopped,
                forall|j: int|
                    0 <= j < self.subscribers@.len() ==> self.subscribers@[j] == g0.subscribers@[j
                        + out@.len()],
            decreases self.subscribers@.len(),
        {
            let entry = self.subscribers.remove(0);
            let mut sub = entry.1;
            sub.stop();
            out.push(sub);
        }
        proof {
            if g0.subscribers@.len() == 0 {
                assert(self.subscribers@ =~= g0.subscribers@);
                assert(out@ =~= Seq::<Subscription>::empty());
            }
        }
        out
    }

    fn timeout_secs(&self) -> (r: u64)
        ensures
            r == spec_timeout_secs(self.collab_type),
    {
        match self.collab_type {
            CollabType::Document => 600,
            CollabType::Database | CollabType::DatabaseRow => 3600,
            CollabType::WorkspaceDatabase | CollabType::Folder | CollabType::UserAwareness => 7200,
        }
    }

    /// Process one message arriving from a device connection that carries
    /// origin marker `origin`, under the access-control decision `allowed`
    /// obtained from the policy boundary for (user, object, operation).
    ///
    /// A malformed frame and a denied operation change nothing. An edit
    /// whose clock is newer than the group's frontier for its actor is
    /// merged into the replica, appended to the log and published to every
    /// other device, advancing the last-modified time; a replay of an
    /// already accepted edit is ignored. Treating every edit at or below
    /// the frontier as a replay assumes each connection delivers its own
    /// edits in order, which the per-connection channel guarantees: an
    /// actor's clocks arrive strictly increasing. A well-formed sync request is
    /// answered — without touching the document — with either exactly the
    /// missed edits or, past the configured threshold, a full snapshot.
    pub fn handle_inbound(&mut self, origin: u64, msg: ClientMessage, allowed: bool, now: u64) -> (r:
        InboundOutcome)
        requires
            old(self).wf(),
            old(self).broadcast.spec_next_seq() < u64::MAX,
        ensures
            final(self).wf(),
            same_registry(*final(self), *old(self)),
            final(self).broadcast.capacity == old(self).broadcast.capacity,
            (msg matches ClientMessage::Malformed ==> (r matches InboundOutcome::ProtocolError)
                && same_document(*final(self), *old(self))),
            (!(msg matches ClientMessage::Malformed) && !allowed ==> (r matches
                InboundOutcome::Forbidden) && same_document(*final(self), *old(self))),
            (msg matches ClientMessage::Edit(u) ==> allowed ==> u@.clock > old(
                self,
            ).frontier.spec_clock_of(u@.actor) ==> {
                &&& r matches InboundOutcome::Applied
                &&& final(self).doc@ == spec_apply(old(self).doc@, u@)
                &&& final(self).log@ == old(self).log@.push(u)
                &&& final(self).frontier.spec_clock_of(u@.actor) == u@.clock
                &&& forall|a: u64|
                    a != u@.actor ==> final(self).frontier.spec_clock_of(a) == old(
                        self,
                    ).frontier.spec_clock_of(a)
                &&& final(self).broadcast.spec_next_seq() == old(self).broadcast.spec_next_seq()
                    + 1
                &&& final(self).broadcast.buffer@.last() == (BroadcastMessage { origin, update: u })
                &&& final(self).broadcast.last_modified == (if now > old(
                    self,
                ).broadcast.last_modified {
                    now
                } else {
                    old(self).broadcast.last_modified
                })
            }),
            (msg matches ClientMessage::Edit(u) ==> allowed ==> u@.clock <= old(
                self,
            ).frontier.spec_clock_of(u@.actor) ==> (r matches InboundOutcome::Stale)
                && same_document(*final(self), *old(self))),
            (msg matches ClientMessage::SyncRequest(sv) ==> allowed ==> {
                &&& same_document(*final(self), *old(self))
                &&& (!sv_actors_unique(sv.seen@) ==> (r matches InboundOutcome::ProtocolError))
                &&& (sv_actors_unique(sv.seen@) ==> (r matches InboundOutcome::SyncReply(resp)
                    && {
                    &&& ((spec_missing(views_of(old(self).log@), sv).len() > old(
                        self,
                    ).init_sync_threshold) <==> (resp matches SyncResponse::FullState(_)))
                    &&& (resp matches SyncResponse::FullState(e) ==> e.wf() && e@ == old(
                        self,
                    ).doc@)
                    &&& (resp matches SyncResponse::Incremental(v) ==> views_of(v@)
                        == spec_missing(views_of(old(self).log@), sv))
                }))
            }),
    {
        match msg {
            ClientMessage::Malformed => InboundOutcome::ProtocolError,
            ClientMessage::Edit(u) => {
                if !allowed {
                    return InboundOutcome::Forbidden;
                }
                let last = self.frontier.clock_of(u.actor);
                if u.clock > last {
                    let ghost old_log = self.log@;
                    let ghost old_frontier = self.frontier;
                    self.doc.apply_update(&u);
                    self.frontier.record(u.actor, u.clock);
                    self.broadcast.publish(origin, u.dup(), now);
                    self.log.push(u);
                    proof {
                        assert(views_of(self.log@) =~= views_of(old_log).push(u@));
                        assert(views_of(self.log@).drop_last() =~= views_of(old_log));
                        assert(self.log@.last() == u);
                        assert forall|i: int| 0 <= i < self.log@.len() implies
                            #[trigger] self.log@[i]@.clock <= self.frontier.spec_clock_of(
                            self.log@[i]@.actor,
                        ) by {
                            if i < old_log.len() {
                                assert(self.log@[i] == old_log[i]);
                                assert(old_log[i]@.clock <= old_frontier.spec_clock_of(
                                    old_log[i]@.actor,
                                ));
                            }
                        }
                        assert forall|i: int, j: int| 0 <= i < j < self.log@.len() implies !(
                        self.log@[i]@.actor == self.log@[j]@.actor && self.log@[i]@.clock
                            == self.log@[j]@.clock) by {
                            if j < self.log@.len() - 1 {
                                assert(self.log@[i] == old_log[i] && self.log@[j] == old_log[j]);
                            } else {
                                assert(self.log@[i] == old_log[i]);
                                if old_log[i]@.actor == u@.actor {
                                    assert(old_log[i]@.clock <= old_frontier.spec_clock_of(
                                        u@.actor,
                                    ));
                                }
                            }
                        }
                    }
                    InboundOutcome::Applied
                } else {
                    InboundOutcome::Stale
                }
            },
            ClientMessage::SyncRequest(sv) => {
                if !allowed {
                    return InboundOutcome::Forbidden;
                }
                if !state_vector_valid(&sv) {
                    return InboundOutcome::ProtocolError;
                }
                let resp = sync_response(&self.doc, &self.log, &sv, self.init_sync_threshold);
                InboundOutcome::SyncReply(resp)
            },
        }
    }

    /// A full encoding of the current document state for external
    /// consumers: a cold read, or a reconnect snapshot.
    pub fn encode_collab(&self) -> (r: EncodedDoc)
        requires
            self.wf(),
        ensures
            r.wf(),
            r@ == self.doc@,
    {
        self.doc.encode()
    }

    /// The snapshot to hand to the persistence boundary. Taking it does
    /// not disturb the group; the boundary's own policy decides when and
    /// whether the bytes are durably stored.
    pub fn flush_collab(&self) -> (r: EncodedDoc)
        requires
            self.wf(),
        ensures
            r.wf(),
            r@ == self.doc@,
    {
        self.doc.encode()
    }
}

fn state_vector_valid(sv: &StateVector) -> (r: bool)
    ensures
        r == sv_actors_unique(sv.seen@),
{
    let mut i: usize = 0;
    while i < sv.seen.len()
        invariant
            i <= sv.seen@.len(),
            forall|p: int, q: int| 0 <= p < q < i ==> sv.seen@[p].0 != sv.seen@[q].0,
        decreases sv.seen@.len() - i,
    {
        let mut j: usize = 0;
        while j < i
            invariant
                j <= i < sv.seen@.len(),
                forall|p: int| 0 <= p < j ==> sv.seen@[p].0 != sv.seen@[i as int].0,
            decreases i - j,
        {
            if sv.seen[j].0 == sv.seen[i].0 {
                return false;
            }
            j += 1;
        }
        i += 1;
    }
    true
}

/// At most one live subscription exists per (user, device) slot: two
/// distinct registered subscriptions always belong to distinct slots.
pub proof fn lemma_single_subscription_per_device(g: CollabGroup, i: int, j: int)
    requires
        g.wf(),
        0 <= i < g.subscribers@.len(),
        0 <= j < g.subscribers@.len(),
        i != j,
    ensures
        device_of(g.subscribers@[i].0) != device_of(g.subscribers@[j].0),
{
}

/// A group with at least one live subscriber is never inactive, no
/// matter how much time has passed since its last modification.
pub proof fn lemma_live_subscriber_keeps_active(g: CollabGroup, now: u64)
    requires
        g.subscribers@.len() > 0,
    ensures
        !g.spec_is_inactive(now),
{
}

/// What the fan-out delivers is genuine: the hub's retained messages are
/// exactly the tail of the group's log of accepted edits, in order.
pub proof fn lemma_delivered_messages_are_logged(g: CollabGroup, i: int)
    requires
        g.wf(),
        0 <= i < g.broadcast.buffer@.len(),
    ensures
        g.broadcast.buffer@[i].update == g.log@[g.broadcast.start_seq + i],
{
}

/// Order independence: a replica that merges the group's accepted edits
/// in any arrival order whatsoever ends with the group's own document.
/// The group's log never carries two edits with one stamp, so every
/// interleaving commutes.
pub proof fn lemma_log_order_irrelevant(g: CollabGroup, other_order: Seq<UpdateV>)
    requires
        g.wf(),
        views_of(g.log@).to_multiset() == other_order.to_multiset(),
    ensures
        spec_apply_seq(g.init_doc@, other_order) == g.doc@,
{
    let vs = views_of(g.log@);
    assert forall|i: int, j: int| 0 <= i < vs.len() && 0 <= j < vs.len() implies swappable(
        #[trigger] vs[i],
        #[trigger] vs[j],
    ) by {
        if i != j {
            assert(!(g.log@[i]@.actor == g.log@[j]@.actor && g.log@[i]@.clock
                == g.log@[j]@.clock));
        }
    }
    lemma_same_edits_converge(g.init_doc@, vs, other_order);
}

/// Convergence on reconnect: a device holding exactly the part of the
/// group's log its state vector covers, after merging the missed edits of
/// an incremental reply, holds the group's own document — however many
/// edits it missed while disconnected.
pub proof fn lemma_incremental_resync_converges(g: CollabGroup, sv: StateVector)
    requires
        g.wf(),
    ensures
        spec_apply_seq(
            spec_apply_seq(g.init_doc@, spec_covered_part(views_of(g.log@), sv)),
            spec_missing(views_of(g.log@), sv),
        ) == g.doc@,
{
    lemma_sync_partition(g.init_doc@, views_of(g.log@), sv);
}

} // verus!
