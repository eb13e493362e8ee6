//! The inbound group-session store, keyed by the triple of room id,
//! sender identity key and session id.
//!
//! Saving reports whether it inserted a fresh session (`true`) or
//! overwrote one already stored under the same triple (`false`); callers
//! rely on that signal to avoid re-sharing room keys.  Group sessions are
//! never deleted: history must stay decryptable.

use vstd::prelude::*;

use crate::codec;
use crate::codec::Kind;
use crate::errors::CryptoStoreError;
use crate::kv;
use crate::kv::{PartitionId, Record, RecordV, Transaction, TxnMode, TxnOpV};
use crate::store::{
    lemma_devices_frame, lemma_identities_frame, lemma_sessions_frame, lemma_tracked_frame,
    open_group_v, spec_rooms, wf_group_items, wf_rooms_map, Cryptostore, StoreMap,
};
use crate::types::InboundGroupSession;
use crate::types::InboundGroupSessionV;

verus! {

/// Whether some session of the list carries the (sender key, session id)
/// pair.
pub open spec fn has_group(
    items: Seq<InboundGroupSessionV>,
    sender: Seq<char>,
    sid: Seq<char>,
) -> bool {
    exists|i: int|
        0 <= i < items.len() && (#[trigger] items[i]).sender_key == sender && items[i].session_id
            == sid
}

/// The index of the session carrying the pair.
pub open spec fn group_index(
    items: Seq<InboundGroupSessionV>,
    sender: Seq<char>,
    sid: Seq<char>,
) -> int {
    choose|i: int|
        0 <= i < items.len() && (#[trigger] items[i]).sender_key == sender && items[i].session_id
            == sid
}

/// Whether each (sender key, session id) pair appears at most once.
pub open spec fn unique_group_pairs(items: Seq<InboundGroupSessionV>) -> bool {
    forall|i: int, j: int|
        0 <= i < j < items.len() ==> !(items[i].sender_key == items[j].sender_key
            && items[i].session_id == items[j].session_id)
}

/// The session stored under the pair, if any.
pub open spec fn group_lookup(
    items: Seq<InboundGroupSessionV>,
    sender: Seq<char>,
    sid: Seq<char>,
) -> Option<InboundGroupSessionV> {
    if has_group(items, sender, sid) {
        Some(items[group_index(items, sender, sid)])
    } else {
        None
    }
}

/// The group session the store holds under a triple, if any, with its
/// pickle unsealed.
pub open spec fn spec_group_session(
    m: StoreMap,
    room: Seq<char>,
    sender: Seq<char>,
    sid: Seq<char>,
) -> Option<InboundGroupSessionV> {
    if spec_rooms(m).contains_key(room) {
        group_lookup(spec_rooms(m)[room], sender, sid)
    } else {
        None
    }
}

impl Cryptostore {
    /// The group-session model: triple to session.
    pub open spec fn group_session(
        self,
        room: Seq<char>,
        sender: Seq<char>,
        sid: Seq<char>,
    ) -> Option<InboundGroupSessionV> {
        spec_group_session(self.db@, room, sender, sid)
    }
}

/// With unique pairs, the session at index `i` is the one the lookup
/// finds for its pair.
pub proof fn lemma_group_at(items: Seq<InboundGroupSessionV>, i: int)
    requires
        unique_group_pairs(items),
        0 <= i < items.len(),
    ensures
        has_group(items, items[i].sender_key, items[i].session_id),
        group_index(items, items[i].sender_key, items[i].session_id) == i,
        group_lookup(items, items[i].sender_key, items[i].session_id) == Some(items[i]),
{
    assert(has_group(items, items[i].sender_key, items[i].session_id));
    let j = group_index(items, items[i].sender_key, items[i].session_id);
    if i < j {
        assert(!(items[i].sender_key == items[j].sender_key && items[i].session_id
            == items[j].session_id));
    } else if j < i {
        assert(!(items[j].sender_key == items[i].sender_key && items[j].session_id
            == items[i].session_id));
    }
}

/// Replacing the session at `i` by one with the same pair updates the
/// lookup at that pair and no other.
pub proof fn lemma_group_update(items: Seq<InboundGroupSessionV>, i: int, s: InboundGroupSessionV)
    requires
        unique_group_pairs(items),
        0 <= i < items.len(),
        items[i].sender_key == s.sender_key,
        items[i].session_id == s.session_id,
    ensures
        unique_group_pairs(items.update(i, s)),
        group_lookup(items.update(i, s), s.sender_key, s.session_id) == Some(s),
        forall|k2: Seq<char>, s2: Seq<char>|
            !(k2 == s.sender_key && s2 == s.session_id) ==> group_lookup(
                items.update(i, s),
                k2,
                s2,
            ) == group_lookup(items, k2, s2),
{
    let updated = items.update(i, s);
    assert(forall|j: int|
        0 <= j < items.len() ==> (#[trigger] updated[j]).sender_key == items[j].sender_key
            && updated[j].session_id == items[j].session_id);
    assert(unique_group_pairs(updated));
    lemma_group_at(updated, i);
    assert forall|k2: Seq<char>, s2: Seq<char>|
        !(k2 == s.sender_key && s2 == s.session_id) implies group_lookup(updated, k2, s2)
        == group_lookup(items, k2, s2) by {
        if has_group(updated, k2, s2) {
            let j = group_index(updated, k2, s2);
            lemma_group_at(updated, j);
            assert(j != i);
            lemma_group_at(items, j);
        }
        if has_group(items, k2, s2) {
            let j = group_index(items, k2, s2);
            lemma_group_at(items, j);
            assert(j != i);
            lemma_group_at(updated, j);
        }
    }
}

/// Appending a session with a fresh pair makes the lookup find it and
/// changes no other pair.
pub proof fn lemma_group_push(items: Seq<InboundGroupSessionV>, s: InboundGroupSessionV)
    requires
        unique_group_pairs(items),
        !has_group(items, s.sender_key, s.session_id),
    ensures
        unique_group_pairs(items.push(s)),
        group_lookup(items.push(s), s.sender_key, s.session_id) == Some(s),
        forall|k2: Seq<char>, s2: Seq<char>|
            !(k2 == s.sender_key && s2 == s.session_id) ==> group_lookup(items.push(s), k2, s2)
                == group_lookup(items, k2, s2),
{
    let pushed = items.push(s);
    assert forall|i: int, j: int| 0 <= i < j < pushed.len() implies !(pushed[i].sender_key
        == pushed[j].sender_key && pushed[i].session_id == pushed[j].session_id) by {
        if j < items.len() {
            assert(!(items[i].sender_key == items[j].sender_key && items[i].session_id
                == items[j].session_id));
        } else {
            assert(pushed[j] == s);
            if pushed[i].sender_key == s.sender_key && pushed[i].session_id == s.session_id {
                assert(has_group(items, s.sender_key, s.session_id));
            }
        }
    }
    lemma_group_at(pushed, items.len() as int);
    assert forall|k2: Seq<char>, s2: Seq<char>|
        !(k2 == s.sender_key && s2 == s.session_id) implies group_lookup(pushed, k2, s2)
        == group_lookup(items, k2, s2) by {
        if has_group(pushed, k2, s2) {
            let j = group_index(pushed, k2, s2);
            lemma_group_at(pushed, j);
            assert(j < items.len());
            lemma_group_at(items, j);
        }
        if has_group(items, k2, s2) {
            let j = group_index(items, k2, s2);
            lemma_group_at(items, j);
            lemma_group_at(pushed, j);
        }
    }
}

/// Find the index of the session carrying the pair, if any.
fn find_group_index(items: &Vec<InboundGroupSession>, sender: &String, sid: &String) -> (r: Option<
    usize,
>)
    ensures
        match r {
            Some(i) => {
                &&& i < items@.len()
                &&& items@[i as int]@.sender_key == sender@
                &&& items@[i as int]@.session_id == sid@
            },
            None => !has_group(
                items@.map_values(|s: InboundGroupSession| s@),
                sender@,
                sid@,
            ),
        },
{
    let ghost views = items@.map_values(|s: InboundGroupSession| s@);
    let mut i: usize = 0;
    while i < items.len()
        invariant
            i <= items@.len(),
            views == items@.map_values(|s: InboundGroupSession| s@),
            forall|j: int|
                0 <= j < i ==> !((#[trigger] views[j]).sender_key == sender@ && views[j].session_id
                    == sid@),
        decreases items@.len() - i,
    {
        let item = &items[i];
        if item.sender_key == *sender && item.session_id == *sid {
            return Some(i);
        }
        i = i + 1;
    }
    None
}

/// Copy a list of group sessions.
fn duplicate_group_list(items: &Vec<InboundGroupSession>) -> (r: Vec<InboundGroupSession>)
    ensures
        r@.len() == items@.len(),
        forall|i: int| 0 <= i < items@.len() ==> (#[trigger] r@[i])@ == items@[i]@,
{
    let mut r: Vec<InboundGroupSession> = Vec::new();
    let mut i: usize = 0;
    while i < items.len()
        invariant
            i <= items@.len(),
            r@.len() == i,
            forall|j: int| 0 <= j < i ==> (#[trigger] r@[j])@ == items@[j]@,
        decreases items@.len() - i,
    {
        r.push(items[i].duplicate());
        i = i + 1;
    }
    r
}

impl Cryptostore {
    /// Save one inbound group session under its triple.  Returns `true`
    /// when the triple was absent (a fresh insert), `false` when an
    /// existing session was overwritten; either way the stored content is
    /// the latest save.  No other triple and no other store changes.
    pub fn save_inbound_group_session(&mut self, session: &InboundGroupSession) -> (r: Result<
        bool,
        CryptoStoreError,
    >)
        requires
            old(self).wf(),
        ensures
            final(self).wf(),
            match r {
                Ok(inserted) => {
                    &&& inserted == (old(self).group_session(
                        session.room_id@,
                        session.sender_key@,
                        session.session_id@,
                    ) is None)
                    &&& final(self).group_session(
                        session.room_id@,
                        session.sender_key@,
                        session.session_id@,
                    ) == Some(session@)
                    &&& forall|r2: Seq<char>, k2: Seq<char>, s2: Seq<char>|
                        !(r2 == session.room_id@ && k2 == session.sender_key@ && s2
                            == session.session_id@) ==> final(self).group_session(r2, k2, s2)
                            == old(self).group_session(r2, k2, s2)
                    &&& final(self).account() == old(self).account()
                    &&& final(self).sessions() == old(self).sessions()
                    &&& final(self).devices() == old(self).devices()
                    &&& final(self).identities() == old(self).identities()
                    &&& final(self).tracked_users() == old(self).tracked_users()
                },
                Err(_) => false,
            },
    {
        let room_key = session.room_id.clone();
        let got = self.db.get(PartitionId::GroupSessions, &room_key);
        let ghost m0 = self.db@;
        let ghost had_room = spec_rooms(m0).contains_key(session.room_id@);
        let mut items: Vec<InboundGroupSession> = match got {
            Some(record) => {
                match record {
                    Record::GroupSessions(v) => duplicate_group_list(v),
                    _ => {
                        proof {
                            assert(false);
                        }
                        Vec::new()
                    },
                }
            },
            None => Vec::new(),
        };
        let ghost stored0 = items@.map_values(|s: InboundGroupSession| s@);
        let ghost opened0 = stored0.map_values(|s: InboundGroupSessionV| open_group_v(s));
        proof {
            if had_room {
                assert(stored0 =~= (match m0[PartitionId::GroupSessions][session.room_id@] {
                    RecordV::GroupSessions(v) => v,
                    _ => Seq::empty(),
                }));
                assert(opened0 =~= spec_rooms(m0)[session.room_id@]);
            } else {
                assert(opened0 =~= Seq::<InboundGroupSessionV>::empty());
            }
            assert(wf_group_items(stored0, session.room_id@) || stored0 =~= Seq::<
                InboundGroupSessionV,
            >::empty());
            assert(unique_group_pairs(stored0));
            assert(forall|i: int|
                0 <= i < stored0.len() ==> (#[trigger] opened0[i]).sender_key
                    == stored0[i].sender_key && opened0[i].session_id == stored0[i].session_id);
            assert(unique_group_pairs(opened0));
        }
        let found = find_group_index(&items, &session.sender_key, &session.session_id);
        let stored = InboundGroupSession {
            room_id: session.room_id.clone(),
            sender_key: session.sender_key.clone(),
            session_id: session.session_id.clone(),
            pickle: codec::seal(Kind::GroupSession, &session.pickle),
        };
        let ghost storedv = stored@;
        proof {
            codec::lemma_seal_round_trip(Kind::GroupSession, session.pickle@);
            assert(open_group_v(storedv) == session@);
        }
        let inserted: bool;
        match found {
            Some(j) => {
                items.set(j, stored);
                inserted = false;
                proof {
                    assert(items@.map_values(|s: InboundGroupSession| s@) =~= stored0.update(
                        j as int,
                        storedv,
                    ));
                    lemma_group_at(opened0, j as int);
                }
            },
            None => {
                items.push(stored);
                inserted = true;
                proof {
                    assert(items@.map_values(|s: InboundGroupSession| s@) =~= stored0.push(
                        storedv,
                    ));
                }
            },
        }
        let ghost stored1 = items@.map_values(|s: InboundGroupSession| s@);
        let ghost opened1 = stored1.map_values(|s: InboundGroupSessionV| open_group_v(s));
        proof {
            match found {
                Some(j) => {
                    assert(opened1 =~= opened0.update(j as int, session@));
                    lemma_group_update(opened0, j as int, session@);
                },
                None => {
                    assert(opened1 =~= opened0.push(session@));
                    lemma_group_push(opened0, session@);
                },
            }
            assert(group_lookup(opened1, session.sender_key@, session.session_id@) == Some(
                session@,
            ));
        }
        let mut txn = Transaction::begin(TxnMode::ReadWrite);
        let put_res = txn.put(PartitionId::GroupSessions, room_key, Record::GroupSessions(items));
        match put_res {
            Ok(()) => {},
            Err(e) => {
                proof {
                    assert(false);
                }
                return Err(e);
            },
        }
        let ghost ops = txn@;
        proof {
            assert(ops[0] == TxnOpV::Put(
                PartitionId::GroupSessions,
                session.room_id@,
                RecordV::GroupSessions(stored1),
            ));
            assert(kv::spec_ops_ok(m0, ops));
        }
        let commit_res = self.db.commit(txn);
        match commit_res {
            Ok(()) => {
                proof {
                    assert(ops =~= seq![ops[0]]);
                    kv::lemma_apply_single(m0, ops[0]);
                    let m1 = self.db@;
                    assert(m1 == m0.insert(
                        PartitionId::GroupSessions,
                        m0[PartitionId::GroupSessions].insert(
                            session.room_id@,
                            RecordV::GroupSessions(stored1),
                        ),
                    ));
                    assert(wf_group_items(stored1, session.room_id@)) by {
                        assert(forall|i: int|
                            0 <= i < stored1.len() ==> (#[trigger] stored1[i]).sender_key
                                == opened1[i].sender_key && stored1[i].session_id
                                == opened1[i].session_id);
                        assert(unique_group_pairs(stored1));
                    }
                    assert(wf_rooms_map(m1)) by {
                        assert forall|k: Seq<char>|
                            m1[PartitionId::GroupSessions].contains_key(k) implies ((
                        m1[PartitionId::GroupSessions][k]) matches RecordV::GroupSessions(items2)
                            && wf_group_items(items2, k)) by {
                            if k != session.room_id@ {
                                assert(m0[PartitionId::GroupSessions].contains_key(k));
                            }
                        }
                    }
                    assert(spec_rooms(m1) =~= spec_rooms(m0).insert(session.room_id@, opened1));
                    assert(final(self).group_session(
                        session.room_id@,
                        session.sender_key@,
                        session.session_id@,
                    ) == Some(session@));
                    assert forall|r2: Seq<char>, k2: Seq<char>, s2: Seq<char>|
                        !(r2 == session.room_id@ && k2 == session.sender_key@ && s2
                            == session.session_id@) implies final(self).group_session(r2, k2, s2)
                        == old(self).group_session(r2, k2, s2) by {
                        if r2 == session.room_id@ {
                            if !(k2 == session.sender_key@ && s2 == session.session_id@) {
                                if had_room {
                                } else {
                                    if has_group(opened0, k2, s2) {
                                        assert(false);
                                    }
                                }
                            }
                        }
                    }
                    assert(m1[PartitionId::Account] == m0[PartitionId::Account]);
                    lemma_sessions_frame(m1, m0);
                    lemma_devices_frame(m1, m0);
                    lemma_identities_frame(m1, m0);
                    lemma_tracked_frame(m1, m0);
                }
                Ok(inserted)
            },
            Err(e) => {
                proof {
                    assert(false);
                }
                Err(e)
            },
        }
    }

    /// Exact-triple lookup of an inbound group session; `None` when the
    /// triple was never stored.  Never synthesizes a session.
    pub fn get_inbound_group_session(
        &self,
        room_id: &String,
        sender_key: &String,
        session_id: &String,
    ) -> (r: Result<Option<InboundGroupSession>, CryptoStoreError>)
        requires
            self.wf(),
        ensures
            match r {
                Ok(Some(s)) => self.group_session(room_id@, sender_key@, session_id@) == Some(s@),
                Ok(None) => self.group_session(room_id@, sender_key@, session_id@) is None,
                Err(_) => false,
            },
    {
        let got = self.db.get(PartitionId::GroupSessions, room_id);
        match got {
            Some(record) => {
                match record {
                    Record::GroupSessions(v) => {
                        let ghost stored = v@.map_values(|s: InboundGroupSession| s@);
                        let ghost opened = stored.map_values(
                            |s: InboundGroupSessionV| open_group_v(s),
                        );
                        proof {
                            assert(opened =~= spec_rooms(self.db@)[room_id@]);
                            assert(wf_group_items(stored, room_id@));
                            assert(forall|i: int|
                                0 <= i < stored.len() ==> (#[trigger] opened[i]).sender_key
                                    == stored[i].sender_key && opened[i].session_id
                                    == stored[i].session_id);
                            assert(unique_group_pairs(opened));
                        }
                        let found = find_group_index(v, sender_key, session_id);
                        match found {
                            Some(i) => {
                                let item = &v[i];
                                let payload = codec::unseal(Kind::GroupSession, &item.pickle);
                                match payload {
                                    Ok(p) => {
                                        let out = InboundGroupSession {
                                            room_id: item.room_id.clone(),
                                            sender_key: item.sender_key.clone(),
                                            session_id: item.session_id.clone(),
                                            pickle: p,
                                        };
                                        proof {
                                            lemma_group_at(opened, i as int);
                                            assert(opened[i as int] == out@);
                                        }
                                        Ok(Some(out))
                                    },
                                    Err(e) => {
                                        proof {
                                            assert(false);
                                        }
                                        Err(e)
                                    },
                                }
                            },
                            None => {
                                proof {
                                    if has_group(opened, sender_key@, session_id@) {
                                        let j = group_index(opened, sender_key@, session_id@);
                                        lemma_group_at(opened, j);
                                        assert(stored[j].sender_key == sender_key@);
                                        assert(has_group(stored, sender_key@, session_id@));
                                        assert(false);
                                    }
                                }
                                Ok(None)
                            },
                        }
                    },
                    _ => {
                        proof {
                            assert(false);
                        }
                        Err(CryptoStoreError::Deserialization)
                    },
                }
            },
            None => Ok(None),
        }
    }
}

} // verus!
