//! The reconnect/resync protocol. A client's sync request carries a state
//! vector: for each actor, the highest clock the client has seen. The
//! server compares it against its log of accepted edits; a small gap is
//! answered with exactly the missed edits, a gap past the configured
//! threshold with a full snapshot the client adopts wholesale.

use crate::doc::DocState;
use crate::doc::EncodedDoc;
use crate::doc::RegV;
use crate::doc::Update;
use crate::doc::UpdateV;
use crate::doc::lemma_push_through;
use crate::doc::spec_apply;
use crate::doc::spec_apply_seq;
use crate::doc::swappable;
use vstd::prelude::*;

verus! {

/// A compact summary of which edits a replica has seen: per actor, the
/// highest clock among that actor's edits it holds.
pub struct StateVector {
    pub seen: Vec<(u64, u64)>,
}

/// No actor appears twice.
pub open spec fn sv_actors_unique(s: Seq<(u64, u64)>) -> bool {
    forall|i: int, j: int| 0 <= i < j < s.len() ==> s[i].0 != s[j].0
}

/// The clock recorded for an actor; zero for an actor never seen.
pub open spec fn sv_clock_of(s: Seq<(u64, u64)>, actor: u64) -> u64
    decreases s.len(),
{
    if s.len() == 0 {
        0
    } else if s.last().0 == actor {
        s.last().1
    } else {
        sv_clock_of(s.drop_last(), actor)
    }
}

/// Pointwise reading of `sv_clock_of` under actor uniqueness.
pub proof fn lemma_sv_clock_of(s: Seq<(u64, u64)>, actor: u64)
    requires
        sv_actors_unique(s),
    ensures
        forall|i: int| 0 <= i < s.len() && s[i].0 == actor ==> sv_clock_of(s, actor) == s[i].1,
        (forall|i: int| 0 <= i < s.len() ==> s[i].0 != actor) ==> sv_clock_of(s, actor) == 0,
    decreases s.len(),
{
    if s.len() > 0 {
        let pre = s.drop_last();
        assert(forall|i: int| 0 <= i < pre.len() ==> pre[i] == s[i]);
        lemma_sv_clock_of(pre, actor);
    }
}

impl StateVector {
    pub open spec fn wf(&self) -> bool {
        sv_actors_unique(self.seen@)
    }

    /// The clock this vector records for `actor`.
    pub open spec fn spec_clock_of(&self, actor: u64) -> u64 {
        sv_clock_of(self.seen@, actor)
    }

    /// A vector that has seen nothing.
    pub fn new() -> (r: StateVector)
        ensures
            r.wf(),
            forall|a: u64| r.spec_clock_of(a) == 0,
    {
        let r = StateVector { seen: Vec::new() };
        proof {
            assert forall|a: u64| r.spec_clock_of(a) == 0 by {
                lemma_sv_clock_of(r.seen@, a);
            }
        }
        r
    }

    /// The highest clock seen for `actor`, zero if none.
    pub fn clock_of(&self, actor: u64) -> (r: u64)
        requires
            self.wf(),
        ensures
            r == self.spec_clock_of(actor),
    {
        proof {
            lemma_sv_clock_of(self.seen@, actor);
        }
        let mut i: usize = 0;
        while i < self.seen.len()
            invariant
                i <= self.seen@.len(),
                self.wf(),
                forall|j: int| 0 <= j < i ==> self.seen@[j].0 != actor,
            decreases self.seen@.len() - i,
        {
            if self.seen[i].0 == actor {
                proof {
                    lemma_sv_clock_of(self.seen@, actor);
                }
                return self.seen[i].1;
            }
            i += 1;
        }
        0
    }

    /// Record that `clock` has now been seen for `actor`, replacing any
    /// earlier record.
    pub fn record(&mut self, actor: u64, clock: u64)
        requires
            old(self).wf(),
        ensures
            final(self).wf(),
            final(self).spec_clock_of(actor) == clock,
            forall|a: u64| a != actor ==> final(self).spec_clock_of(a) == old(
                self,
            ).spec_clock_of(a),
    {
        proof {
            lemma_sv_clock_of(self.seen@, actor);
        }
        let ghost old_seen = self.seen@;
        let mut i: usize = 0;
        while i < self.seen.len()
            invariant
                i <= self.seen@.len(),
                self.seen@ == old_seen,
                old_seen == old(self).seen@,
                sv_actors_unique(old_seen),
                forall|j: int| 0 <= j < i ==> self.seen@[j].0 != actor,
            decreases self.seen@.len() - i,
        {
            if self.seen[i].0 == actor {
                self.seen.set(i, (actor, clock));
                proof {
                    assert forall|p: int, q: int|
                        0 <= p < q < self.seen@.len() implies self.seen@[p].0
                        != self.seen@[q].0 by {
                        assert(old_seen[p].0 != old_seen[q].0);
                    }
                    assert(self.seen@[i as int].0 == actor && self.seen@[i as int].1 == clock);
                    lemma_sv_clock_of(self.seen@, actor);
                    assert forall|a: u64| a != actor implies self.spec_clock_of(a) == sv_clock_of(
                        old_seen,
                        a,
                    ) by {
                        lemma_sv_clock_of_set_other(old_seen, self.seen@, a);
                    }
                }
                return ;
            }
            i += 1;
        }
        self.seen.push((actor, clock));
        proof {
            assert(self.seen@.drop_last() =~= old_seen);
            assert forall|p: int, q: int| 0 <= p < q < self.seen@.len() implies self.seen@[p].0
                != self.seen@[q].0 by {
                if q < self.seen@.len() - 1 {
                    assert(old_seen[p].0 != old_seen[q].0);
                } else {
                    assert(old_seen[p].0 != actor);
                }
            }
            lemma_sv_clock_of(self.seen@, actor);
            assert(self.seen@[self.seen@.len() - 1] == (actor, clock));
        }
    }
}

/// Two vectors of equal length whose entries agree except possibly in the
/// actor written record the same clock for every other actor.
proof fn lemma_sv_clock_of_set_other(s1: Seq<(u64, u64)>, s2: Seq<(u64, u64)>, a: u64)
    requires
        s1.len() == s2.len(),
        forall|i: int| 0 <= i < s1.len() && s1[i].0 == a ==> s2[i] == s1[i],
        forall|i: int| 0 <= i < s1.len() && s1[i].0 != a ==> s2[i].0 == s1[i].0,
    ensures
        sv_clock_of(s2, a) == sv_clock_of(s1, a),
    decreases s1.len(),
{
    if s1.len() > 0 {
        let p1 = s1.drop_last();
        let p2 = s2.drop_last();
        assert(forall|i: int| 0 <= i < p1.len() ==> p1[i] == s1[i] && p2[i] == s2[i]);
        lemma_sv_clock_of_set_other(p1, p2, a);
    }
}

/// Whether a state vector already covers an edit.
pub open spec fn covered(sv: StateVector, u: UpdateV) -> bool {
    u.clock <= sv.spec_clock_of(u.actor)
}

/// The ghost images of a vector of edits.
pub open spec fn views_of(s: Seq<Update>) -> Seq<UpdateV> {
    s.map_values(|u: Update| u@)
}

/// The edits of a log the requesting client already holds, in log order.
pub open spec fn spec_covered_part(log: Seq<UpdateV>, sv: StateVector) -> Seq<UpdateV>
    decreases log.len(),
{
    if log.len() == 0 {
        Seq::empty()
    } else if covered(sv, log.last()) {
        spec_covered_part(log.drop_last(), sv).push(log.last())
    } else {
        spec_covered_part(log.drop_last(), sv)
    }
}

/// The edits of a log the requesting client is missing, in log order.
pub open spec fn spec_missing(log: Seq<UpdateV>, sv: StateVector) -> Seq<UpdateV>
    decreases log.len(),
{
    if log.len() == 0 {
        Seq::empty()
    } else if covered(sv, log.last()) {
        spec_missing(log.drop_last(), sv)
    } else {
        spec_missing(log.drop_last(), sv).push(log.last())
    }
}

/// Every edit in the missing part is indeed not covered.
pub proof fn lemma_missing_elems(log: Seq<UpdateV>, sv: StateVector)
    ensures
        forall|i: int|
            0 <= i < spec_missing(log, sv).len() ==> !covered(
                sv,
                #[trigger] spec_missing(log, sv)[i],
            ),
    decreases log.len(),
{
    if log.len() > 0 {
        let pre = log.drop_last();
        lemma_missing_elems(pre, sv);
        if !covered(sv, log.last()) {
            assert forall|i: int| 0 <= i < spec_missing(log, sv).len() implies !covered(
                sv,
                #[trigger] spec_missing(log, sv)[i],
            ) by {
                if i < spec_missing(pre, sv).len() {
                    assert(spec_missing(log, sv)[i] == spec_missing(pre, sv)[i]);
                } else {
                    assert(spec_missing(log, sv)[i] == log.last());
                }
            }
        } else {
            assert(spec_missing(log, sv) == spec_missing(pre, sv));
        }
    }
}

/// Convergence of the resync protocol: a replica holding exactly the
/// covered part of the log, after merging exactly the missed edits, holds
/// the document that applied the whole log in order.
pub proof fn lemma_sync_partition(m: Map<Seq<char>, RegV>, log: Seq<UpdateV>, sv: StateVector)
    ensures
        spec_apply_seq(spec_apply_seq(m, spec_covered_part(log, sv)), spec_missing(log, sv))
            == spec_apply_seq(m, log),
    decreases log.len(),
{
    if log.len() > 0 {
        let pre = log.drop_last();
        let u = log.last();
        lemma_sync_partition(m, pre, sv);
        let fc = spec_covered_part(pre, sv);
        let fm = spec_missing(pre, sv);
        if covered(sv, u) {
            assert(spec_covered_part(log, sv) == fc.push(u));
            assert(spec_missing(log, sv) == fm);
            assert(fc.push(u).drop_last() =~= fc);
            assert(spec_apply_seq(m, fc.push(u)) == spec_apply(spec_apply_seq(m, fc), u));
            lemma_missing_elems(pre, sv);
            assert forall|i: int| 0 <= i < fm.len() implies swappable(u, #[trigger] fm[i]) by {
                assert(!covered(sv, fm[i]));
            }
            lemma_push_through(spec_apply_seq(m, fc), u, fm);
        } else {
            assert(spec_missing(log, sv) == fm.push(u));
            assert(fm.push(u).drop_last() =~= fm);
            assert(spec_apply_seq(spec_apply_seq(m, fc), fm.push(u)) == spec_apply(
                spec_apply_seq(spec_apply_seq(m, fc), fm),
                u,
            ));
        }
    }
}

/// The edits of the log the client is missing, in log order.
pub fn missing_updates(log: &Vec<Update>, sv: &StateVector) -> (r: Vec<Update>)
    requires
        sv.wf(),
    ensures
        views_of(r@) == spec_missing(views_of(log@), *sv),
{
    let mut out: Vec<Update> = Vec::new();
    let mut i: usize = 0;
    while i < log.len()
        invariant
            i <= log@.len(),
            sv.wf(),
            views_of(out@) == spec_missing(views_of(log@.subrange(0, i as int)), *sv),
        decreases log@.len() - i,
    {
        let u = &log[i];
        let c = sv.clock_of(u.actor);
        proof {
            assert(views_of(log@.subrange(0, i + 1)).drop_last() =~= views_of(
                log@.subrange(0, i as int),
            ));
            assert(views_of(log@.subrange(0, i + 1)).last() == log@[i as int]@);
        }
        let ghost prev = out@;
        if u.clock > c {
            out.push(u.dup());
            proof {
                assert(views_of(out@) =~= views_of(prev).push(log@[i as int]@));
            }
        }
        i += 1;
    }
    proof {
        assert(log@.subrange(0, log@.len() as int) =~= log@);
    }
    out
}

/// The server's reply to a sync request.
pub enum SyncResponse {
    /// The client's gap is small: exactly the missed edits, in log order.
    Incremental(Vec<Update>),
    /// The client's gap exceeds the threshold: a full snapshot it must
    /// adopt wholesale.
    FullState(EncodedDoc),
}

/// Answer a reconnect handshake. The reply is a full snapshot exactly when
/// the client misses more than `threshold` edits, and otherwise the missed
/// edits themselves.
pub fn sync_response(d: &DocState, log: &Vec<Update>, sv: &StateVector, threshold: usize) -> (r:
    SyncResponse)
    requires
        d.wf(),
        sv.wf(),
    ensures
        (spec_missing(views_of(log@), *sv).len() > threshold) <==> (r matches
            SyncResponse::FullState(_)),
        (r matches SyncResponse::FullState(e) ==> e.wf() && e@ == d@),
        (r matches SyncResponse::Incremental(v) ==> views_of(v@) == spec_missing(
            views_of(log@),
            *sv,
        )),
{
    let miss = missing_updates(log, sv);
    if miss.len() > threshold {
        SyncResponse::FullState(d.encode())
    } else {
        SyncResponse::Incremental(miss)
    }
}

} // verus!
