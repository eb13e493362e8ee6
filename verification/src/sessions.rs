//! The pairwise session store: an ordered collection of ratchet sessions
//! for each remote sender key.
//!
//! Order is significant: a list is kept in last-used order, most recently
//! saved last, so the caller's "pick the best session" heuristic is
//! deterministic.  Sessions carry a stable per-session id; re-saving an
//! existing session replaces it and moves it to the most-recent position
//! instead of duplicating it.  One `save_sessions` call commits every
//! update in a single transaction: all of them become visible, or none.

use vstd::prelude::*;

use crate::codec;
use crate::codec::Kind;
use crate::errors::CryptoStoreError;
use crate::kv;
use crate::kv::{PartitionId, Record, RecordV, Transaction, TxnMode, TxnOpV};
use crate::store::{
    lemma_devices_frame, lemma_identities_frame, lemma_rooms_frame, lemma_tracked_frame,
    open_session_v, sealed_session_v, spec_sessions, wf_session_items, wf_sessions_map, Cryptostore,
    StoreMap,
};
use crate::types::{Session, SessionV};

verus! {

/// Whether some session of the list carries the id.
pub open spec fn has_sid(items: Seq<SessionV>, sid: Seq<char>) -> bool {
    exists|i: int| 0 <= i < items.len() && (#[trigger] items[i]).session_id == sid
}

/// The index of the session carrying the id.
pub open spec fn sid_index(items: Seq<SessionV>, sid: Seq<char>) -> int {
    choose|i: int| 0 <= i < items.len() && (#[trigger] items[i]).session_id == sid
}

/// Whether each session id appears at most once.
pub open spec fn unique_sids(items: Seq<SessionV>) -> bool {
    forall|i: int, j: int| 0 <= i < j < items.len() ==> items[i].session_id != items[j].session_id
}

/// The list with the session of that id taken out, if present.
pub open spec fn remove_sid(items: Seq<SessionV>, sid: Seq<char>) -> Seq<SessionV> {
    if has_sid(items, sid) {
        items.remove(sid_index(items, sid))
    } else {
        items
    }
}

/// One session saved into the model: replaced in place if its id was
/// present, and moved to the most-recent (last) position.
pub open spec fn upsert_session(m: Map<Seq<char>, Seq<SessionV>>, s: SessionV) -> Map<
    Seq<char>,
    Seq<SessionV>,
> {
    let base = if m.contains_key(s.sender_key) {
        m[s.sender_key]
    } else {
        Seq::empty()
    };
    m.insert(s.sender_key, remove_sid(base, s.session_id).push(s))
}

/// A batch of sessions saved into the model, in order.
pub open spec fn upsert_sessions(m: Map<Seq<char>, Seq<SessionV>>, ss: Seq<SessionV>) -> Map<
    Seq<char>,
    Seq<SessionV>,
>
    decreases ss.len(),
{
    if ss.len() == 0 {
        m
    } else {
        upsert_session(upsert_sessions(m, ss.drop_last()), ss.last())
    }
}

/// Saving one more session extends the fold by one step.
pub proof fn lemma_upsert_step(m: Map<Seq<char>, Seq<SessionV>>, ss: Seq<SessionV>, i: int)
    requires
        0 <= i < ss.len(),
    ensures
        upsert_sessions(m, ss.take(i + 1)) == upsert_session(upsert_sessions(m, ss.take(i)), ss[i]),
{
    assert(ss.take(i + 1).drop_last() =~= ss.take(i));
    assert(ss.take(i + 1).last() == ss[i]);
}

/// With unique ids, the session at index `i` is the one its id finds.
pub proof fn lemma_sid_at(items: Seq<SessionV>, i: int)
    requires
        unique_sids(items),
        0 <= i < items.len(),
    ensures
        has_sid(items, items[i].session_id),
        sid_index(items, items[i].session_id) == i,
{
    assert(has_sid(items, items[i].session_id));
    let j = sid_index(items, items[i].session_id);
    if i < j {
        assert(items[i].session_id != items[j].session_id);
    } else if j < i {
        assert(items[j].session_id != items[i].session_id);
    }
}

/// The views of a stored list with every pickle unsealed.
pub open spec fn opened_sessions(items: Seq<SessionV>) -> Seq<SessionV> {
    items.map_values(|s: SessionV| open_session_v(s))
}

/// Unsealing touches only the pickles, so id lookups and removals agree
/// between a stored list and its unsealed view.
pub proof fn lemma_open_remove_sid(items: Seq<SessionV>, sid: Seq<char>)
    requires
        unique_sids(items),
    ensures
        unique_sids(opened_sessions(items)),
        has_sid(opened_sessions(items), sid) == has_sid(items, sid),
        opened_sessions(remove_sid(items, sid)) == remove_sid(opened_sessions(items), sid),
{
    let opened = opened_sessions(items);
    assert(forall|i: int|
        0 <= i < items.len() ==> (#[trigger] opened[i]).session_id == items[i].session_id
            && opened[i].sender_key == items[i].sender_key);
    assert(unique_sids(opened));
    if has_sid(items, sid) {
        let i = sid_index(items, sid);
        lemma_sid_at(items, i);
        assert(opened[i].session_id == sid);
        assert(has_sid(opened, sid));
        lemma_sid_at(opened, i);
        assert(opened_sessions(items.remove(i)) =~= opened.remove(i));
    } else {
        if has_sid(opened, sid) {
            let i = sid_index(opened, sid);
            assert(items[i].session_id == sid);
        }
    }
}

/// Find the index of the session carrying the id, if any.
fn find_sid_index(items: &Vec<Session>, sid: &String) -> (r: Option<usize>)
    ensures
        match r {
            Some(i) => i < items@.len() && items@[i as int]@.session_id == sid@,
            None => !has_sid(items@.map_values(|s: Session| s@), sid@),
        },
{
    let ghost views = items@.map_values(|s: Session| s@);
    let mut i: usize = 0;
    while i < items.len()
        invariant
            i <= items@.len(),
            views == items@.map_values(|s: Session| s@),
            forall|j: int| 0 <= j < i ==> (#[trigger] views[j]).session_id != sid@,
        decreases items@.len() - i,
    {
        let item = &items[i];
        if item.session_id == *sid {
            return Some(i);
        }
        i = i + 1;
    }
    None
}

/// Copy a list of sessions.
fn duplicate_session_list(items: &Vec<Session>) -> (r: Vec<Session>)
    ensures
        r@.len() == items@.len(),
        forall|i: int| 0 <= i < items@.len() ==> (#[trigger] r@[i])@ == items@[i]@,
{
    let mut r: Vec<Session> = Vec::new();
    let mut i: usize = 0;
    while i < items.len()
        invariant
            i <= items@.len(),
            r@.len() == i,
            forall|j: int| 0 <= j < i ==> (#[trigger] r@[j])@ == items@[j]@,
        decreases items@.len() - i,
    {
        r.push(items[i].duplicate());
        i = i + 1;
    }
    r
}

/// Replace-or-append `s` into a stored list: any session with the same id
/// leaves, and `s` takes the most-recent (last) position.
fn upsert_stored(list: &mut Vec<Session>, s: Session)
    requires
        unique_sids(old(list)@.map_values(|x: Session| x@)),
    ensures
        unique_sids(final(list)@.map_values(|x: Session| x@)),
        final(list)@.map_values(|x: Session| x@) == remove_sid(
            old(list)@.map_values(|x: Session| x@),
            s@.session_id,
        ).push(s@),
{
    let ghost views0 = list@.map_values(|x: Session| x@);
    let ghost sv = s@;
    let found = find_sid_index(list, &s.session_id);
    match found {
        Some(i) => {
            proof {
                lemma_sid_at(views0, i as int);
            }
            list.remove(i);
            proof {
                assert(list@.map_values(|x: Session| x@) =~= views0.remove(i as int));
                assert(views0.remove(i as int) == remove_sid(views0, sv.session_id));
                let removed = remove_sid(views0, sv.session_id);
                assert forall|a: int, b: int| 0 <= a < b < removed.len() implies removed[a].session_id
                    != removed[b].session_id by {
                    let a0: int = if a < i { a } else { a + 1 };
                    let b0: int = if b < i { b } else { b + 1 };
                    assert(views0[a0].session_id != views0[b0].session_id);
                }
            }
        },
        None => {
            proof {
                assert(remove_sid(views0, sv.session_id) == views0);
            }
        },
    }
    let ghost views1 = list@.map_values(|x: Session| x@);
    proof {
        assert(views1 == remove_sid(views0, sv.session_id));
        assert forall|a: int| 0 <= a < views1.len() implies views1[a].session_id
            != sv.session_id by {
            if has_sid(views0, sv.session_id) {
                let i = sid_index(views0, sv.session_id);
                lemma_sid_at(views0, i);
                let a0: int = if a < i {
                    a
                } else {
                    a + 1
                };
                assert(views1[a] == views0[a0]);
                if views0[a0].session_id == sv.session_id {
                    lemma_sid_at(views0, a0);
                }
            } else {
                if views1[a].session_id == sv.session_id {
                    assert(has_sid(views0, sv.session_id));
                }
            }
        }
    }
    list.push(s);
    proof {
        assert(list@.map_values(|x: Session| x@) =~= views1.push(sv));
        let pushed = views1.push(sv);
        assert forall|a: int, b: int| 0 <= a < b < pushed.len() implies pushed[a].session_id
            != pushed[b].session_id by {
            if b < views1.len() {
                assert(views1[a].session_id != views1[b].session_id);
            }
        }
    }
}

impl Cryptostore {
    /// The ordered session list for a sender key: a structurally equal
    /// copy, pickles unsealed, least recently used first.  `None` when
    /// the key was never seen.  Callers treating the list as shared state
    /// re-save through [`Cryptostore::save_sessions`].
    pub fn get_sessions(&self, sender_key: &String) -> (r: Result<
        Option<Vec<Session>>,
        CryptoStoreError,
    >)
        requires
            self.wf(),
        ensures
            match r {
                Ok(Some(v)) => {
                    &&& self.sessions().contains_key(sender_key@)
                    &&& v@.map_values(|x: Session| x@) == self.sessions()[sender_key@]
                },
                Ok(None) => !self.sessions().contains_key(sender_key@),
                Err(_) => false,
            },
    {
        let got = self.db.get(PartitionId::Sessions, sender_key);
        match got {
            Some(record) => {
                match record {
                    Record::Sessions(v) => {
                        let ghost stored = v@.map_values(|s: Session| s@);
                        proof {
                            assert(wf_session_items(stored, sender_key@));
                            assert(opened_sessions(stored) =~= self.sessions()[sender_key@]);
                        }
                        let mut out: Vec<Session> = Vec::new();
                        let mut i: usize = 0;
                        while i < v.len()
                            invariant
                                stored == v@.map_values(|s: Session| s@),
                                wf_session_items(stored, sender_key@),
                                i <= stored.len(),
                                out@.len() == i,
                                forall|j: int|
                                    0 <= j < i ==> (#[trigger] out@[j])@ == open_session_v(
                                        stored[j],
                                    ),
                            decreases stored.len() - i,
                        {
                            let item = &v[i];
                            proof {
                                assert(stored[i as int].sender_key == sender_key@);
                                assert(codec::well_sealed(stored[i as int].pickle, Kind::Session));
                                assert(item.pickle@ == stored[i as int].pickle);
                            }
                            let payload = codec::unseal(Kind::Session, &item.pickle);
                            match payload {
                                Ok(p) => {
                                    out.push(
                                        Session {
                                            sender_key: item.sender_key.clone(),
                                            session_id: item.session_id.clone(),
                                            pickle: p,
                                        },
                                    );
                                },
                                Err(e) => {
                                    proof {
                                        assert(false);
                                    }
                                    return Err(e);
                                },
                            }
                            i = i + 1;
                        }
                        proof {
                            assert(out@.map_values(|x: Session| x@) =~= opened_sessions(stored));
                        }
                        Ok(Some(out))
                    },
                    _ => {
                        proof {
                            assert(false);
                        }
                        Err(CryptoStoreError::Deserialization)
                    },
                }
            },
            None => Ok(None),
        }
    }
}

/// Whether some staged entry carries the key.
pub open spec fn staged_has(st: Seq<(String, Vec<Session>)>, k: Seq<char>) -> bool {
    exists|j: int| 0 <= j < st.len() && (#[trigger] st[j]).0@ == k
}

/// The index of the staged entry carrying the key.
pub open spec fn staged_index(st: Seq<(String, Vec<Session>)>, k: Seq<char>) -> int {
    choose|j: int| 0 <= j < st.len() && (#[trigger] st[j]).0@ == k
}

/// Whether each staged key appears at most once.
pub open spec fn staged_unique(st: Seq<(String, Vec<Session>)>) -> bool {
    forall|a: int, b: int| 0 <= a < b < st.len() ==> st[a].0@ != st[b].0@
}

/// The stored views of one staged list.
pub open spec fn staged_views(entry: (String, Vec<Session>)) -> Seq<SessionV> {
    entry.1@.map_values(|x: Session| x@)
}

/// One staged entry is coherent with the target model: well-formed for
/// its key, and its unsealed view is exactly what the model holds there.
pub open spec fn staged_entry_ok(
    entry: (String, Vec<Session>),
    target: Map<Seq<char>, Seq<SessionV>>,
) -> bool {
    &&& wf_session_items(staged_views(entry), entry.0@)
    &&& target.contains_key(entry.0@)
    &&& opened_sessions(staged_views(entry)) == target[entry.0@]
}

/// The staged writes, one put per staged entry, in order.
pub open spec fn staged_ops(st: Seq<(String, Vec<Session>)>) -> Seq<TxnOpV> {
    st.map_values(
        |p: (String, Vec<Session>)| TxnOpV::Put(
            PartitionId::Sessions,
            p.0@,
            RecordV::Sessions(staged_views(p)),
        ),
    )
}

/// The sessions partition after the staged entries are written over it.
pub open spec fn staged_records(
    base: Map<Seq<char>, RecordV>,
    st: Seq<(String, Vec<Session>)>,
) -> Map<Seq<char>, RecordV>
    decreases st.len(),
{
    if st.len() == 0 {
        base
    } else {
        staged_records(base, st.drop_last()).insert(
            st.last().0@,
            RecordV::Sessions(staged_views(st.last())),
        )
    }
}

/// Applying the staged writes replaces the sessions partition by the
/// staged records and touches nothing else.
pub proof fn lemma_staged_apply(m: StoreMap, st: Seq<(String, Vec<Session>)>)
    requires
        m.contains_key(PartitionId::Sessions),
    ensures
        kv::spec_apply_ops(m, staged_ops(st)) == m.insert(
            PartitionId::Sessions,
            staged_records(m[PartitionId::Sessions], st),
        ),
    decreases st.len(),
{
    if st.len() == 0 {
        assert(m.insert(PartitionId::Sessions, m[PartitionId::Sessions]) =~= m);
    } else {
        lemma_staged_apply(m, st.drop_last());
        assert(staged_ops(st).drop_last() =~= staged_ops(st.drop_last()));
        let prev = kv::spec_apply_ops(m, staged_ops(st.drop_last()));
        assert(kv::spec_apply_ops(m, staged_ops(st)) == kv::spec_apply_op(
            prev,
            staged_ops(st).last(),
        ));
        assert(staged_ops(st).last() == TxnOpV::Put(
            PartitionId::Sessions,
            st.last().0@,
            RecordV::Sessions(staged_views(st.last())),
        ));
        assert(kv::spec_apply_ops(m, staged_ops(st)) =~= m.insert(
            PartitionId::Sessions,
            staged_records(m[PartitionId::Sessions], st),
        ));
    }
}

/// What the staged records hold at each key: the unique staged entry for
/// staged keys, the base record for the rest.
pub proof fn lemma_staged_records_at(
    base: Map<Seq<char>, RecordV>,
    st: Seq<(String, Vec<Session>)>,
    k: Seq<char>,
)
    requires
        staged_unique(st),
    ensures
        staged_records(base, st).contains_key(k) == (base.contains_key(k) || staged_has(st, k)),
        staged_has(st, k) ==> staged_records(base, st)[k] == RecordV::Sessions(
            staged_views(st[staged_index(st, k)]),
        ),
        !staged_has(st, k) ==> (base.contains_key(k) ==> staged_records(base, st)[k] == base[k]),
    decreases st.len(),
{
    if st.len() > 0 {
        let front = st.drop_last();
        assert(staged_unique(front));
        lemma_staged_records_at(base, front, k);
        if staged_has(front, k) {
            let j = choose|j: int| 0 <= j < front.len() && (#[trigger] front[j]).0@ == k;
            assert(st[j].0@ == k);
            assert(staged_has(st, k));
        }
        if k == st.last().0@ {
            assert(st[st.len() - 1].0@ == k);
            assert(staged_has(st, k));
            let j = staged_index(st, k);
            assert(0 <= j < st.len() && st[j].0@ == k);
            if j < st.len() - 1 {
                assert(st[j].0@ != st[st.len() - 1].0@);
            }
            assert(j == st.len() - 1);
        } else {
            if staged_has(st, k) {
                let j = staged_index(st, k);
                assert(0 <= j < st.len() && st[j].0@ == k);
                assert(j < st.len() - 1);
                assert(front[j].0@ == k);
                assert(staged_has(front, k));
                let j2 = staged_index(front, k);
                assert(0 <= j2 < front.len() && front[j2].0@ == k);
                if j2 < j {
                    assert(st[j2].0@ != st[j].0@);
                } else if j < j2 {
                    assert(st[j].0@ != st[j2].0@);
                }
                assert(staged_views(front[j2]) == staged_views(st[j]));
            } else {
                if staged_has(front, k) {
                    assert(staged_has(st, k));
                }
            }
        }
    }
}

/// Find the index of the staged entry carrying the key, if any.
fn staged_find(st: &Vec<(String, Vec<Session>)>, key: &String) -> (r: Option<usize>)
    ensures
        match r {
            Some(i) => i < st@.len() && st@[i as int].0@ == key@,
            None => !staged_has(st@, key@),
        },
{
    let mut i: usize = 0;
    while i < st.len()
        invariant
            i <= st@.len(),
            forall|j: int| 0 <= j < i ==> (#[trigger] st@[j]).0@ != key@,
        decreases st@.len() - i,
    {
        if st[i].0 == *key {
            return Some(i);
        }
        i = i + 1;
    }
    None
}

/// A session as it is written: identifiers copied, pickle sealed.
fn seal_session(s: &Session) -> (r: Session)
    ensures
        r@ == sealed_session_v(s@),
{
    Session {
        sender_key: s.sender_key.clone(),
        session_id: s.session_id.clone(),
        pickle: codec::seal(Kind::Session, &s.pickle),
    }
}

impl Cryptostore {
    /// Persist a batch of sessions, in order, atomically: each one
    /// replaces any stored session with its id under its sender key and
    /// takes the most-recent position there.  Either every update in the
    /// batch becomes visible or none does.  No other store is touched.
    pub fn save_sessions(&mut self, sessions: &Vec<Session>) -> (r: Result<(), CryptoStoreError>)
        requires
            old(self).wf(),
        ensures
            final(self).wf(),
            r is Ok,
            final(self).sessions() == upsert_sessions(
                old(self).sessions(),
                sessions@.map_values(|s: Session| s@),
            ),
            final(self).account() == old(self).account(),
            final(self).rooms() == old(self).rooms(),
            final(self).devices() == old(self).devices(),
            final(self).identities() == old(self).identities(),
            final(self).tracked_users() == old(self).tracked_users(),
    {
        let ghost minit = old(self).sessions();
        let ghost inputs = sessions@.map_values(|s: Session| s@);
        let ghost m0 = old(self).db@;
        let mut staged: Vec<(String, Vec<Session>)> = Vec::new();
        let mut i: usize = 0;
        while i < sessions.len()
            invariant
                self.wf(),
                *self == *old(self),
                minit == spec_sessions(self.db@),
                inputs == sessions@.map_values(|s: Session| s@),
                i <= inputs.len(),
                staged_unique(staged@),
                forall|j: int|
                    0 <= j < staged@.len() ==> staged_entry_ok(
                        #[trigger] staged@[j],
                        upsert_sessions(minit, inputs.take(i as int)),
                    ),
                forall|k: Seq<char>|
                    #![trigger staged_has(staged@, k)]
                    !staged_has(staged@, k) ==> (upsert_sessions(
                        minit,
                        inputs.take(i as int),
                    ).contains_key(k) == minit.contains_key(k) && (minit.contains_key(k)
                        ==> upsert_sessions(minit, inputs.take(i as int))[k] == minit[k])),
            decreases inputs.len() - i,
        {
            let s = &sessions[i];
            let ghost sv = inputs[i as int];
            let ghost target_cur = upsert_sessions(minit, inputs.take(i as int));
            let ghost target_next = upsert_sessions(minit, inputs.take(i + 1));
            proof {
                lemma_upsert_step(minit, inputs, i as int);
                assert(target_next == upsert_session(target_cur, sv));
                assert(sv == s@);
            }
            let sealed = seal_session(s);
            let ghost sealedv = sealed@;
            proof {
                codec::lemma_seal_round_trip(Kind::Session, s.pickle@);
                assert(open_session_v(sealedv) == sv);
            }
            let found = staged_find(&staged, &s.sender_key);
            match found {
                Some(j) => {
                    let ghost st_before = staged@;
                    let pair = staged.remove(j);
                    let key_string = pair.0;
                    let mut list = pair.1;
                    let ghost lv0 = list@.map_values(|x: Session| x@);
                    proof {
                        assert(staged_entry_ok(st_before[j as int], target_cur));
                        assert(lv0 == staged_views(st_before[j as int]));
                        assert(wf_session_items(lv0, sv.sender_key));
                        assert(unique_sids(lv0));
                    }
                    upsert_stored(&mut list, sealed);
                    let ghost lv1 = list@.map_values(|x: Session| x@);
                    proof {
                        assert(lv1 == remove_sid(lv0, sv.session_id).push(sealedv));
                        lemma_open_remove_sid(lv0, sv.session_id);
                        assert(opened_sessions(lv1) =~= remove_sid(
                            opened_sessions(lv0),
                            sv.session_id,
                        ).push(sv));
                        assert(opened_sessions(lv1) == target_next[sv.sender_key]);
                        assert(wf_session_items(lv1, sv.sender_key)) by {
                            let removed = remove_sid(lv0, sv.session_id);
                            assert(forall|a: int|
                                0 <= a < removed.len() ==> (
                                #[trigger] removed[a]).sender_key == sv.sender_key
                                    && codec::well_sealed(removed[a].pickle, Kind::Session)) by {
                                if has_sid(lv0, sv.session_id) {
                                    let ri = sid_index(lv0, sv.session_id);
                                    lemma_sid_at(lv0, ri);
                                }
                            }
                        }
                    }
                    staged.insert(j, (key_string, list));
                    proof {
                        assert(staged@ =~= st_before.update(j as int, staged@[j as int]));
                        assert(staged@[j as int].0@ == sv.sender_key);
                        assert(staged@[j as int].1 == list);
                        assert(staged_unique(staged@)) by {
                            assert(forall|a: int|
                                0 <= a < staged@.len() ==> (#[trigger] staged@[a]).0@
                                    == st_before[a].0@);
                        }
                        assert forall|j2: int| 0 <= j2 < staged@.len() implies staged_entry_ok(
                            #[trigger] staged@[j2],
                            target_next,
                        ) by {
                            if j2 == j {
                                assert(staged_views(staged@[j2]) == lv1);
                            } else {
                                assert(staged@[j2] == st_before[j2]);
                                assert(staged_entry_ok(st_before[j2], target_cur));
                                assert(st_before[j2].0@ != sv.sender_key);
                            }
                        }
                        assert forall|k: Seq<char>|
                            #![trigger staged_has(staged@, k)]
                            !staged_has(staged@, k) implies (target_next.contains_key(k)
                            == minit.contains_key(k) && (minit.contains_key(k) ==> target_next[k]
                            == minit[k])) by {
                            if k == sv.sender_key {
                                assert(staged@[j as int].0@ == k);
                                assert(staged_has(staged@, k));
                            }
                            if staged_has(st_before, k) {
                                let a = staged_index(st_before, k);
                                assert(0 <= a < st_before.len() && st_before[a].0@ == k);
                                assert(staged@[a].0@ == k);
                                assert(staged_has(staged@, k));
                            }
                            assert(k != sv.sender_key);
                            assert(!staged_has(st_before, k));
                        }
                    }
                },
                None => {
                    let ghost st_before = staged@;
                    let got = self.db.get(PartitionId::Sessions, &s.sender_key);
                    let mut list: Vec<Session> = match got {
                        Some(record) => {
                            match record {
                                Record::Sessions(v) => duplicate_session_list(v),
                                _ => {
                                    proof {
                                        assert(false);
                                    }
                                    Vec::new()
                                },
                            }
                        },
                        None => Vec::new(),
                    };
                    let ghost lv0 = list@.map_values(|x: Session| x@);
                    proof {
                        if minit.contains_key(sv.sender_key) {
                            assert(lv0 =~= (match self.db@[PartitionId::Sessions][sv.sender_key] {
                                RecordV::Sessions(items) => items,
                                _ => Seq::empty(),
                            }));
                            assert(wf_session_items(lv0, sv.sender_key));
                            assert(opened_sessions(lv0) =~= minit[sv.sender_key]);
                        } else {
                            assert(lv0 =~= Seq::<SessionV>::empty());
                            assert(opened_sessions(lv0) =~= Seq::<SessionV>::empty());
                        }
                        assert(unique_sids(lv0));
                    }
                    upsert_stored(&mut list, sealed);
                    let ghost lv1 = list@.map_values(|x: Session| x@);
                    proof {
                        assert(lv1 == remove_sid(lv0, sv.session_id).push(sealedv));
                        lemma_open_remove_sid(lv0, sv.session_id);
                        assert(opened_sessions(lv1) =~= remove_sid(
                            opened_sessions(lv0),
                            sv.session_id,
                        ).push(sv));
                        assert(target_cur.contains_key(sv.sender_key) == minit.contains_key(
                            sv.sender_key,
                        ));
                        assert(opened_sessions(lv1) == target_next[sv.sender_key]);
                        assert(wf_session_items(lv1, sv.sender_key)) by {
                            let removed = remove_sid(lv0, sv.session_id);
                            assert(forall|a: int|
                                0 <= a < removed.len() ==> (
                                #[trigger] removed[a]).sender_key == sv.sender_key
                                    && codec::well_sealed(removed[a].pickle, Kind::Session)) by {
                                if has_sid(lv0, sv.session_id) {
                                    let ri = sid_index(lv0, sv.session_id);
                                    lemma_sid_at(lv0, ri);
                                }
                            }
                        }
                    }
                    staged.push((s.sender_key.clone(), list));
                    proof {
                        assert(staged@ =~= st_before.push(staged@[staged@.len() - 1]));
                        assert(staged@[staged@.len() - 1].0@ == sv.sender_key);
                        assert(staged_unique(staged@)) by {
                            assert forall|a: int, b: int|
                                0 <= a < b < staged@.len() implies staged@[a].0@
                                != staged@[b].0@ by {
                                if b == staged@.len() - 1 {
                                    if staged@[a].0@ == sv.sender_key {
                                        assert(st_before[a].0@ == sv.sender_key);
                                        assert(staged_has(st_before, sv.sender_key));
                                    }
                                }
                            }
                        }
                        assert forall|j2: int| 0 <= j2 < staged@.len() implies staged_entry_ok(
                            #[trigger] staged@[j2],
                            target_next,
                        ) by {
                            if j2 == staged@.len() - 1 {
                                assert(staged_views(staged@[j2]) == lv1);
                            } else {
                                assert(staged@[j2] == st_before[j2]);
                                assert(staged_entry_ok(st_before[j2], target_cur));
                                assert(st_before[j2].0@ != sv.sender_key);
                            }
                        }
                        assert forall|k: Seq<char>|
                            #![trigger staged_has(staged@, k)]
                            !staged_has(staged@, k) implies (target_next.contains_key(k)
                            == minit.contains_key(k) && (minit.contains_key(k) ==> target_next[k]
                            == minit[k])) by {
                            assert(staged@[staged@.len() - 1].0@ == sv.sender_key);
                            if k == sv.sender_key {
                                assert(staged_has(staged@, k));
                            }
                            if staged_has(st_before, k) {
                                let a = staged_index(st_before, k);
                                assert(0 <= a < st_before.len() && st_before[a].0@ == k);
                                assert(staged@[a].0@ == k);
                                assert(staged_has(staged@, k));
                            }
                            assert(k != sv.sender_key);
                            assert(!staged_has(st_before, k));
                        }
                    }
                },
            }
            i = i + 1;
        }
        let ghost target = upsert_sessions(minit, inputs);
        let ghost all_staged = staged@;
        proof {
            assert(inputs.take(inputs.len() as int) =~= inputs);
            assert(forall|k: Seq<char>|
                #![trigger staged_has(all_staged, k)]
                !staged_has(all_staged, k) ==> (target.contains_key(k) == minit.contains_key(k) && (
                minit.contains_key(k) ==> target[k] == minit[k])));
            assert(forall|j: int|
                0 <= j < all_staged.len() ==> staged_entry_ok(#[trigger] all_staged[j], target));
        }
        let mut txn = Transaction::begin(TxnMode::ReadWrite);
        while staged.len() > 0
            invariant
                self.wf(),
                *self == *old(self),
                txn.mode == TxnMode::ReadWrite,
                staged@.len() <= all_staged.len(),
                staged@ =~= all_staged.subrange(
                    all_staged.len() - staged@.len(),
                    all_staged.len() as int,
                ),
                txn@ =~= staged_ops(all_staged.take(all_staged.len() - staged@.len())),
            decreases staged@.len(),
        {
            let ghost done = all_staged.len() - staged@.len();
            let ghost pre = staged@;
            let pair = staged.remove(0);
            proof {
                assert(pre[0] == all_staged[done]);
                assert(pair == all_staged[done]);
                assert(staged@ =~= all_staged.subrange(done + 1, all_staged.len() as int));
            }
            let put_res = txn.put(PartitionId::Sessions, pair.0, Record::Sessions(pair.1));
            match put_res {
                Ok(()) => {},
                Err(e) => {
                    proof {
                        assert(false);
                    }
                    return Err(e);
                },
            }
            proof {
                assert(txn@ =~= staged_ops(all_staged.take(done + 1))) by {
                    assert(staged_ops(all_staged.take(done)).push(
                        TxnOpV::Put(
                            PartitionId::Sessions,
                            all_staged[done].0@,
                            RecordV::Sessions(staged_views(all_staged[done])),
                        ),
                    ) =~= staged_ops(all_staged.take(done + 1)));
                }
            }
        }
        proof {
            assert(all_staged.take(all_staged.len() as int) =~= all_staged);
            assert(txn@ =~= staged_ops(all_staged));
            assert forall|oi: int| 0 <= oi < staged_ops(all_staged).len() implies m0.contains_key(
                kv::op_partition(#[trigger] staged_ops(all_staged)[oi]),
            ) by {
                assert(staged_ops(all_staged)[oi] == TxnOpV::Put(
                    PartitionId::Sessions,
                    all_staged[oi].0@,
                    RecordV::Sessions(staged_views(all_staged[oi])),
                ));
            }
            assert(kv::spec_ops_ok(m0, txn@));
        }
        let commit_res = self.db.commit(txn);
        match commit_res {
            Ok(()) => {
                proof {
                    lemma_staged_apply(m0, all_staged);
                    let m1 = self.db@;
                    assert(m1 == m0.insert(
                        PartitionId::Sessions,
                        staged_records(m0[PartitionId::Sessions], all_staged),
                    ));
                    let part1 = staged_records(m0[PartitionId::Sessions], all_staged);
                    assert(wf_sessions_map(m1)) by {
                        assert forall|k: Seq<char>| m1[PartitionId::Sessions].contains_key(
                            k,
                        ) implies ((m1[PartitionId::Sessions][k]) matches RecordV::Sessions(items)
                            && wf_session_items(items, k)) by {
                            lemma_staged_records_at(m0[PartitionId::Sessions], all_staged, k);
                            if staged_has(all_staged, k) {
                                let j = staged_index(all_staged, k);
                                assert(0 <= j < all_staged.len() && all_staged[j].0@ == k);
                                assert(staged_entry_ok(all_staged[j], target));
                            } else {
                                assert(m0[PartitionId::Sessions].contains_key(k));
                            }
                        }
                    }
                    assert(spec_sessions(m1) =~= target) by {
                        assert forall|k: Seq<char>| #![all_triggers] true implies (
                        spec_sessions(m1).contains_key(k) == target.contains_key(k) && (
                        target.contains_key(k) ==> spec_sessions(m1)[k] == target[k])) by {
                            lemma_staged_records_at(m0[PartitionId::Sessions], all_staged, k);
                            if staged_has(all_staged, k) {
                                let j = staged_index(all_staged, k);
                                assert(0 <= j < all_staged.len() && all_staged[j].0@ == k);
                                assert(staged_entry_ok(all_staged[j], target));
                                assert(part1[k] == RecordV::Sessions(staged_views(all_staged[j])));
                                assert(spec_sessions(m1)[k] =~= opened_sessions(
                                    staged_views(all_staged[j]),
                                ));
                            } else {
                                assert(target.contains_key(k) == minit.contains_key(k));
                                if minit.contains_key(k) {
                                    assert(m0[PartitionId::Sessions].contains_key(k));
                                    assert(part1[k] == m0[PartitionId::Sessions][k]);
                                    assert(spec_sessions(m1)[k] =~= spec_sessions(m0)[k]);
                                }
                            }
                        }
                    }
                    assert(m1[PartitionId::Account] == m0[PartitionId::Account]);
                    lemma_rooms_frame(m1, m0);
                    lemma_devices_frame(m1, m0);
                    lemma_identities_frame(m1, m0);
                    lemma_tracked_frame(m1, m0);
                }
                Ok(())
            },
            Err(e) => {
                proof {
                    assert(false);
                }
                Err(e)
            },
        }
    }
}

} // verus!
