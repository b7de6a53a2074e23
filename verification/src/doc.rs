//! The document replica: a key/value document under last-writer-wins
//! merge semantics. Every edit carries a logical clock and the id of the
//! actor (device connection) that produced it; concurrent edits of one key
//! are resolved by clock, with the actor id breaking ties, so every replica
//! that has seen the same set of edits holds the same document.

use vstd::prelude::*;

verus! {

/// One register of the document: the value currently held at a key,
/// together with the stamp of the write that produced it.
pub struct Reg {
    pub value: String,
    pub clock: u64,
    pub actor: u64,
}

/// Mathematical image of a register.
#[verifier::ext_equal]
pub ghost struct RegV {
    pub value: Seq<char>,
    pub clock: u64,
    pub actor: u64,
}

impl View for Reg {
    type V = RegV;

    open spec fn view(&self) -> RegV {
        RegV { value: self.value@, clock: self.clock, actor: self.actor }
    }
}

/// One edit: write `value` at `key`. The pair (clock, actor) stamps the
/// edit; an actor never issues two edits with the same clock.
pub struct Update {
    pub key: String,
    pub value: String,
    pub clock: u64,
    pub actor: u64,
}

/// Mathematical image of an edit.
#[verifier::ext_equal]
pub ghost struct UpdateV {
    pub key: Seq<char>,
    pub value: Seq<char>,
    pub clock: u64,
    pub actor: u64,
}

impl View for Update {
    type V = UpdateV;

    open spec fn view(&self) -> UpdateV {
        UpdateV { key: self.key@, value: self.value@, clock: self.clock, actor: self.actor }
    }
}

impl Update {
    /// A copy of this edit.
    pub fn dup(&self) -> (r: Update)
        ensures
            r == *self,
    {
        Update {
            key: self.key.clone(),
            value: self.value.clone(),
            clock: self.clock,
            actor: self.actor,
        }
    }
}

/// The register an edit writes.
pub open spec fn reg_of(u: UpdateV) -> RegV {
    RegV { value: u.value, clock: u.clock, actor: u.actor }
}

/// Last-writer-wins order: a higher clock wins, and between concurrent
/// writes with equal clocks the higher actor id wins.
pub open spec fn reg_wins(new: RegV, cur: RegV) -> bool {
    new.clock > cur.clock || (new.clock == cur.clock && new.actor > cur.actor)
}

/// Effect of one edit on the document, as a map transformation.
pub open spec fn spec_apply(m: Map<Seq<char>, RegV>, u: UpdateV) -> Map<Seq<char>, RegV> {
    if !m.contains_key(u.key) || reg_wins(reg_of(u), m[u.key]) {
        m.insert(u.key, reg_of(u))
    } else {
        m
    }
}

/// Effect of a sequence of edits, applied left to right.
pub open spec fn spec_apply_seq(m: Map<Seq<char>, RegV>, s: Seq<UpdateV>) -> Map<Seq<char>, RegV>
    decreases s.len(),
{
    if s.len() == 0 {
        m
    } else {
        spec_apply(spec_apply_seq(m, s.drop_last()), s.last())
    }
}

/// Two edits may be merged in either order: either they are the same edit,
/// touch different keys, or carry different stamps. Edits of honest actors
/// always satisfy this, since an actor never reuses a clock.
pub open spec fn swappable(a: UpdateV, b: UpdateV) -> bool {
    a == b || a.key != b.key || !(a.clock == b.clock && a.actor == b.actor)
}

/// Merging two edits is order-independent: the document that has seen both
/// does not depend on which arrived first.
pub proof fn lemma_apply_comm(m: Map<Seq<char>, RegV>, a: UpdateV, b: UpdateV)
    requires
        swappable(a, b),
    ensures
        spec_apply(spec_apply(m, a), b) == spec_apply(spec_apply(m, b), a),
{
    assert(spec_apply(spec_apply(m, a), b) =~= spec_apply(spec_apply(m, b), a));
}

/// An edit that may be swapped with every element of a sequence can be
/// merged before or after the whole sequence with the same outcome.
pub proof fn lemma_push_through(m: Map<Seq<char>, RegV>, u: UpdateV, s: Seq<UpdateV>)
    requires
        forall|i: int| 0 <= i < s.len() ==> swappable(u, #[trigger] s[i]),
    ensures
        spec_apply_seq(spec_apply(m, u), s) == spec_apply(spec_apply_seq(m, s), u),
    decreases s.len(),
{
    if s.len() > 0 {
        let pre = s.drop_last();
        assert(forall|i: int| 0 <= i < pre.len() ==> pre[i] == s[i]);
        lemma_push_through(m, u, pre);
        assert(swappable(u, s[s.len() - 1]));
        lemma_apply_comm(spec_apply_seq(m, pre), u, s.last());
    }
}

/// Merging a concatenation is merging the parts in turn.
pub proof fn lemma_apply_seq_concat(m: Map<Seq<char>, RegV>, a: Seq<UpdateV>, b: Seq<UpdateV>)
    ensures
        spec_apply_seq(m, a + b) == spec_apply_seq(spec_apply_seq(m, a), b),
    decreases b.len(),
{
    if b.len() == 0 {
        assert(a + b =~= a);
    } else {
        lemma_apply_seq_concat(m, a, b.drop_last());
        assert((a + b).drop_last() =~= a + b.drop_last());
        assert((a + b).last() == b.last());
    }
}

/// Replicas that merged the same edits, each in its own arrival order,
/// hold the same document — provided distinct edits carry distinct
/// stamps, as honest actors guarantee.
pub proof fn lemma_same_edits_converge(m: Map<Seq<char>, RegV>, s: Seq<UpdateV>, t: Seq<UpdateV>)
    requires
        s.to_multiset() == t.to_multiset(),
        forall|i: int, j: int|
            0 <= i < s.len() && 0 <= j < s.len() ==> swappable(#[trigger] s[i], #[trigger] s[j]),
    ensures
        spec_apply_seq(m, s) == spec_apply_seq(m, t),
    decreases s.len(),
{
    s.to_multiset_ensures();
    t.to_multiset_ensures();
    if s.len() == 0 {
        assert(t.len() == 0);
    } else {
        let u = s.last();
        let pre = s.drop_last();
        assert(forall|i: int| 0 <= i < pre.len() ==> pre[i] == s[i]);
        assert(s.contains(u));
        assert(t.to_multiset().count(u) > 0);
        assert(t.contains(u));
        let k = choose|k: int| 0 <= k < t.len() && t[k] == u;
        let t1 = t.subrange(0, k);
        let t2 = t.subrange(k + 1, t.len() as int);
        let rest = t.remove(k);
        assert(rest =~= t1 + t2);
        assert(t =~= t1 + seq![u] + t2);
        // The two multisets shed one copy of the final edit together.
        assert(pre.to_multiset() =~= s.to_multiset().remove(u)) by {
            pre.to_multiset_ensures();
            assert(pre.push(u) =~= s);
            assert(s.to_multiset() =~= pre.to_multiset().insert(u));
        }
        assert(rest.to_multiset() =~= t.to_multiset().remove(u));
        assert(pre.to_multiset() == rest.to_multiset());
        lemma_same_edits_converge(m, pre, rest);
        // The removed edit commutes past everything that followed it.
        assert forall|i: int| 0 <= i < t2.len() implies swappable(u, #[trigger] t2[i]) by {
            assert(t.contains(t2[i])) by {
                assert(t[k + 1 + i] == t2[i]);
            }
            assert(s.to_multiset().count(t2[i]) > 0);
            assert(s.contains(t2[i]));
            let j = choose|j: int| 0 <= j < s.len() && s[j] == t2[i];
            assert(swappable(s[s.len() - 1], s[j]));
        }
        lemma_apply_seq_concat(m, t1 + seq![u], t2);
        assert(t1 + seq![u] =~= t1.push(u));
        assert(spec_apply_seq(m, t1.push(u)) == spec_apply(spec_apply_seq(m, t1), u)) by {
            assert(t1.push(u).drop_last() =~= t1);
        }
        lemma_push_through(spec_apply_seq(m, t1), u, t2);
        lemma_apply_seq_concat(m, t1, t2);
        assert(spec_apply_seq(m, t) == spec_apply(spec_apply_seq(m, rest), u)) by {
            assert(spec_apply_seq(m, t) == spec_apply_seq(m, t1 + seq![u] + t2));
        }
        assert(spec_apply_seq(m, s) == spec_apply(spec_apply_seq(m, pre), u));
    }
}

/// Two writes to one key settle on the last-writer-wins winner on every
/// replica, whichever order the replica received them in.
pub proof fn lemma_last_writer_wins(m: Map<Seq<char>, RegV>, a: UpdateV, b: UpdateV)
    requires
        a.key == b.key,
        reg_wins(reg_of(b), reg_of(a)),
        m.contains_key(b.key) ==> reg_wins(reg_of(b), m[b.key]),
    ensures
        spec_apply(spec_apply(m, a), b) == spec_apply(spec_apply(m, b), a),
        spec_apply(spec_apply(m, a), b).contains_key(b.key),
        spec_apply(spec_apply(m, a), b)[b.key] == reg_of(b),
{
    lemma_apply_comm(m, a, b);
}

/// No two entries of the backing vector hold the same key.
pub open spec fn doc_keys_unique(s: Seq<(String, Reg)>) -> bool {
    forall|i: int, j: int| 0 <= i < j < s.len() ==> s[i].0@ != s[j].0@
}

/// The map a vector of entries denotes.
pub open spec fn doc_map_of(s: Seq<(String, Reg)>) -> Map<Seq<char>, RegV>
    decreases s.len(),
{
    if s.len() == 0 {
        Map::empty()
    } else {
        doc_map_of(s.drop_last()).insert(s.last().0@, s.last().1@)
    }
}

/// Pointwise reading of `doc_map_of`: its keys are exactly the keys of the
/// entries, and under key uniqueness each entry gives its key's register.
pub proof fn lemma_doc_map_of(s: Seq<(String, Reg)>)
    ensures
        forall|k: Seq<char>|
            doc_map_of(s).contains_key(k) <==> (exists|i: int|
                0 <= i < s.len() && s[i].0@ == k),
        doc_keys_unique(s) ==> forall|i: int|
            0 <= i < s.len() ==> doc_map_of(s).contains_key(#[trigger] s[i].0@)
                && doc_map_of(s)[s[i].0@] == s[i].1@,
    decreases s.len(),
{
    if s.len() > 0 {
        let pre = s.drop_last();
        lemma_doc_map_of(pre);
        assert forall|k: Seq<char>| doc_map_of(s).contains_key(k) implies (exists|i: int|
            0 <= i < s.len() && s[i].0@ == k) by {
            if k == s.last().0@ {
                assert(s[s.len() - 1].0@ == k);
            } else {
                assert(doc_map_of(pre).contains_key(k));
                let i = choose|i: int| 0 <= i < pre.len() && pre[i].0@ == k;
                assert(pre[i] == s[i]);
                assert(s[i].0@ == k);
            }
        }
        assert forall|k: Seq<char>| (exists|i: int| 0 <= i < s.len() && s[i].0@ == k)
            implies doc_map_of(s).contains_key(k) by {
            let i = choose|i: int| 0 <= i < s.len() && s[i].0@ == k;
            if i < s.len() - 1 {
                assert(pre[i] == s[i]);
                assert(pre[i].0@ == k);
                assert(doc_map_of(pre).contains_key(k));
            } else {
                assert(k == s.last().0@);
            }
        }
        if doc_keys_unique(s) {
            assert(doc_keys_unique(pre));
            assert forall|i: int| 0 <= i < s.len() implies doc_map_of(s).contains_key(
                #[trigger] s[i].0@,
            ) && doc_map_of(s)[s[i].0@] == s[i].1@ by {
                if i < s.len() - 1 {
                    assert(pre[i].0@ == s[i].0@ && pre[i].1@ == s[i].1@);
                    assert(s[i].0@ != s.last().0@);
                }
            }
        }
    }
}

/// The in-memory replica of one document.
pub struct DocState {
    pub entries: Vec<(String, Reg)>,
}

impl View for DocState {
    type V = Map<Seq<char>, RegV>;

    open spec fn view(&self) -> Map<Seq<char>, RegV> {
        doc_map_of(self.entries@)
    }
}

/// A point-in-time encoding of a document, as handed to the persistence
/// boundary or to a reconnecting client that needs the whole state.
pub struct EncodedDoc {
    pub entries: Vec<(String, Reg)>,
}

impl View for EncodedDoc {
    type V = Map<Seq<char>, RegV>;

    open spec fn view(&self) -> Map<Seq<char>, RegV> {
        doc_map_of(self.entries@)
    }
}

impl EncodedDoc {
    pub open spec fn wf(&self) -> bool {
        doc_keys_unique(self.entries@)
    }
}

fn clone_entries(src: &Vec<(String, Reg)>) -> (r: Vec<(String, Reg)>)
    ensures
        r@ == src@,
{
    let mut out: Vec<(String, Reg)> = Vec::new();
    let mut i: usize = 0;
    while i < src.len()
        invariant
            i <= src@.len(),
            out@.len() == i as int,
            forall|j: int| 0 <= j < i ==> out@[j] == src@[j],
        decreases src@.len() - i,
    {
        let p = &src[i];
        out.push((p.0.clone(), Reg { value: p.1.value.clone(), clock: p.1.clock, actor: p.1.actor }));
        i += 1;
    }
    proof {
        assert(out@ =~= src@);
    }
    out
}

impl DocState {
    pub open spec fn wf(&self) -> bool {
        doc_keys_unique(self.entries@)
    }

    /// A fresh, empty document.
    pub fn new() -> (r: DocState)
        ensures
            r.wf(),
            r@ == Map::<Seq<char>, RegV>::empty(),
    {
        DocState { entries: Vec::new() }
    }

    fn find_index(&self, key: &String) -> (r: Option<usize>)
        ensures
            match r {
                Some(i) => i < self.entries@.len() && self.entries@[i as int].0@ == key@,
                None => forall|i: int| 0 <= i < self.entries@.len() ==> self.entries@[i].0@ != key@,
            },
    {
        let mut i: usize = 0;
        while i < self.entries.len()
            invariant
                i <= self.entries@.len(),
                forall|j: int| 0 <= j < i ==> self.entries@[j].0@ != key@,
            decreases self.entries@.len() - i,
        {
            if self.entries[i].0 == *key {
                return Some(i);
            }
            i += 1;
        }
        None
    }

    /// The register currently held at `key`, if any.
    pub fn get(&self, key: &String) -> (r: Option<&Reg>)
        requires
            self.wf(),
        ensures
            match r {
                Some(reg) => self@.contains_key(key@) && reg@ == self@[key@],
                None => !self@.contains_key(key@),
            },
    {
        proof {
            lemma_doc_map_of(self.entries@);
        }
        match self.find_index(key) {
            Some(i) => Some(&self.entries[i].1),
            None => None,
        }
    }

    /// Merge one edit into the replica. The edit takes the key exactly when
    /// the key is absent or the edit wins the last-writer-wins order; the
    /// result is `spec_apply` of the old document.
    pub fn apply_update(&mut self, u: &Update) -> (applied: bool)
        requires
            old(self).wf(),
        ensures
            final(self).wf(),
            final(self)@ == spec_apply(old(self)@, u@),
            applied == (!old(self)@.contains_key(u@.key) || reg_wins(
                reg_of(u@),
                old(self)@[u@.key],
            )),
    {
        proof {
            lemma_doc_map_of(self.entries@);
        }
        let ghost old_entries = self.entries@;
        match self.find_index(&u.key) {
            Some(i) => {
                let cur_clock = self.entries[i].1.clock;
                let cur_actor = self.entries[i].1.actor;
                let wins = u.clock > cur_clock || (u.clock == cur_clock && u.actor > cur_actor);
                if wins {
                    self.entries.set(
                        i,
                        (
                            u.key.clone(),
                            Reg { value: u.value.clone(), clock: u.clock, actor: u.actor },
                        ),
                    );
                    proof {
                        assert(self.entries@[i as int].0@ == old_entries[i as int].0@);
                        assert forall|p: int, q: int|
                            0 <= p < q < self.entries@.len() implies self.entries@[p].0@
                            != self.entries@[q].0@ by {
                            assert(old_entries[p].0@ != old_entries[q].0@);
                        }
                        lemma_doc_map_of(self.entries@);
                        assert(doc_map_of(self.entries@) =~= spec_apply(
                            doc_map_of(old_entries),
                            u@,
                        )) by {
                            lemma_doc_map_of(old_entries);
                            lemma_doc_map_of(self.entries@);
                            assert forall|k: Seq<char>|
                                doc_map_of(self.entries@).contains_key(k)
                                <==> spec_apply(doc_map_of(old_entries), u@).contains_key(k) by {
                                assert forall|j: int| 0 <= j < old_entries.len() implies
                                    self.entries@[j].0@ == old_entries[j].0@ by {}
                            }
                            assert forall|k: Seq<char>| doc_map_of(self.entries@).contains_key(k)
                                implies doc_map_of(self.entries@)[k] == spec_apply(
                                doc_map_of(old_entries),
                                u@,
                            )[k] by {
                                let j = choose|j: int|
                                    0 <= j < self.entries@.len() && self.entries@[j].0@ == k;
                                if j == i {
                                    assert(doc_map_of(self.entries@)[k] == reg_of(u@));
                                } else {
                                    assert(old_entries[j].0@ == k && old_entries[j].0@ != u@.key);
                                    assert(doc_map_of(self.entries@)[k] == old_entries[j].1@);
                                }
                            }
                        }
                    }
                    true
                } else {
                    false
                }
            },
            None => {
                self.entries.push(
                    (u.key.clone(), Reg { value: u.value.clone(), clock: u.clock, actor: u.actor }),
                );
                proof {
                    assert(self.entries@.drop_last() =~= old_entries);
                    assert(self.entries@.last().0@ == u@.key);
                    assert(self.entries@.last().1@ == reg_of(u@));
                    assert forall|p: int, q: int|
                        0 <= p < q < self.entries@.len() implies self.entries@[p].0@
                        != self.entries@[q].0@ by {
                        if q < self.entries@.len() - 1 {
                            assert(old_entries[p].0@ != old_entries[q].0@);
                        } else {
                            assert(old_entries[p].0@ != u@.key);
                        }
                    }
                    assert(doc_map_of(self.entries@) == doc_map_of(old_entries).insert(
                        u@.key,
                        reg_of(u@),
                    ));
                }
                true
            },
        }
    }

    /// A full snapshot of the current state.
    pub fn encode(&self) -> (r: EncodedDoc)
        requires
            self.wf(),
        ensures
            r.wf(),
            r@ == self@,
    {
        EncodedDoc { entries: clone_entries(&self.entries) }
    }

    /// Rebuild a replica from a snapshot, e.g. on a client that was told to
    /// replace its state wholesale.
    pub fn decode(e: &EncodedDoc) -> (r: DocState)
        requires
            e.wf(),
        ensures
            r.wf(),
            r@ == e@,
    {
        DocState { entries: clone_entries(&e.entries) }
    }

    /// Rebuild a replica from an encoding of unknown provenance, such as
    /// persisted state loaded at group creation: the entries are first
    /// checked for key uniqueness, and a corrupt snapshot is refused
    /// rather than silently adopted.
    pub fn try_decode(e: &EncodedDoc) -> (r: Option<DocState>)
        ensures
            match r {
                Some(d) => e.wf() && d.wf() && d@ == e@,
                None => !e.wf(),
            },
    {
        if entries_keys_unique(&e.entries) {
            Some(DocState { entries: clone_entries(&e.entries) })
        } else {
            None
        }
    }
}

fn entries_keys_unique(src: &Vec<(String, Reg)>) -> (r: bool)
    ensures
        r == doc_keys_unique(src@),
{
    let mut i: usize = 0;
    while i < src.len()
        invariant
            i <= src@.len(),
            forall|p: int, q: int| 0 <= p < q < i ==> src@[p].0@ != src@[q].0@,
        decreases src@.len() - i,
    {
        let mut j: usize = 0;
        while j < i
            invariant
                j <= i < src@.len(),
                forall|p: int| 0 <= p < j ==> src@[p].0@ != src@[i as int].0@,
            decreases i - j,
        {
            if src[j].0 == src[i].0 {
                return false;
            }
            j += 1;
        }
        i += 1;
    }
    true
}

} // verus!
