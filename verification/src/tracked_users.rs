//! The tracked-user set: the users whose device lists must be kept
//! fresh, each entry carrying a dirty flag (true means a key query is
//! owed).
//!
//! Updates are idempotent and report whether they changed anything, so
//! callers can skip redundant scheduling work.  The dirty subset is read
//! straight off the flags, and the non-empty check stops at the first
//! dirty entry instead of materializing the set.

use vstd::prelude::*;

use crate::errors::CryptoStoreError;
use crate::kv;
use crate::kv::{PartitionId, Record, RecordV, Transaction, TxnMode, TxnOpV};
use crate::store::{
    lemma_devices_frame, lemma_identities_frame, lemma_rooms_frame, lemma_sessions_frame,
    spec_tracked, wf_tracked_map, Cryptostore,
};

verus! {

impl Cryptostore {
    /// Upsert `(user, dirty)` into the tracked set.  Returns `true` only
    /// when the call changed the set: a new member, or a flag that
    /// flipped.  An exact repeat is a no-op and returns `false`.
    pub fn update_tracked_user(&mut self, user: &String, dirty: bool) -> (r: Result<
        bool,
        CryptoStoreError,
    >)
        requires
            old(self).wf(),
        ensures
            final(self).wf(),
            match r {
                Ok(changed) => {
                    &&& changed == !(old(self).tracked_users().contains_key(user@) && old(
                        self,
                    ).tracked_users()[user@] == dirty)
                    &&& final(self).tracked_users() == old(self).tracked_users().insert(
                        user@,
                        dirty,
                    )
                    &&& final(self).account() == old(self).account()
                    &&& final(self).sessions() == old(self).sessions()
                    &&& final(self).rooms() == old(self).rooms()
                    &&& final(self).devices() == old(self).devices()
                    &&& final(self).identities() == old(self).identities()
                },
                Err(_) => false,
            },
    {
        let got = self.db.get(PartitionId::TrackedUsers, user);
        let changed: bool = match got {
            Some(record) => {
                match record {
                    Record::TrackedUser(b) => *b != dirty,
                    _ => {
                        proof {
                            assert(false);
                        }
                        true
                    },
                }
            },
            None => true,
        };
        if !changed {
            proof {
                assert(self.tracked_users().insert(user@, dirty) =~= self.tracked_users());
            }
            return Ok(false);
        }
        let mut txn = Transaction::begin(TxnMode::ReadWrite);
        let put_res = txn.put(PartitionId::TrackedUsers, user.clone(), Record::TrackedUser(dirty));
        match put_res {
            Ok(()) => {},
            Err(e) => {
                proof {
                    assert(false);
                }
                return Err(e);
            },
        }
        let ghost ops = txn@;
        let ghost m0 = self.db@;
        proof {
            assert(ops[0] == TxnOpV::Put(
                PartitionId::TrackedUsers,
                user@,
                RecordV::TrackedUser(dirty),
            ));
            assert(kv::spec_ops_ok(m0, ops));
        }
        let commit_res = self.db.commit(txn);
        match commit_res {
            Ok(()) => {
                proof {
                    assert(ops =~= seq![ops[0]]);
                    kv::lemma_apply_single(m0, ops[0]);
                    let m1 = self.db@;
                    assert(m1 == m0.insert(
                        PartitionId::TrackedUsers,
                        m0[PartitionId::TrackedUsers].insert(user@, RecordV::TrackedUser(dirty)),
                    ));
                    assert(wf_tracked_map(m1)) by {
                        assert forall|k: Seq<char>|
                            m1[PartitionId::TrackedUsers].contains_key(k) implies ((
                        m1[PartitionId::TrackedUsers][k]) matches RecordV::TrackedUser(b)) by {
                            if k != user@ {
                                assert(m0[PartitionId::TrackedUsers].contains_key(k));
                            }
                        }
                    }
                    assert(spec_tracked(m1) =~= spec_tracked(m0).insert(user@, dirty));
                    assert(m1[PartitionId::Account] == m0[PartitionId::Account]);
                    lemma_sessions_frame(m1, m0);
                    lemma_rooms_frame(m1, m0);
                    lemma_devices_frame(m1, m0);
                    lemma_identities_frame(m1, m0);
                }
                Ok(changed)
            },
            Err(e) => {
                proof {
                    assert(false);
                }
                Err(e)
            },
        }
    }

    /// Whether `user` is in the tracked set, with either flag value.
    pub fn is_user_tracked(&self, user: &String) -> (r: bool)
        requires
            self.wf(),
        ensures
            r == self.tracked_users().contains_key(user@),
    {
        let got = self.db.get(PartitionId::TrackedUsers, user);
        got.is_some()
    }

    /// The users whose device lists are stale: every tracked user whose
    /// dirty flag is set, each exactly once.
    pub fn users_for_key_query(&self) -> (r: Vec<String>)
        requires
            self.wf(),
        ensures
            forall|i: int|
                0 <= i < r@.len() ==> self.tracked_users().contains_key(#[trigger] r@[i]@)
                    && self.tracked_users()[r@[i]@] == true,
            forall|u: Seq<char>|
                self.tracked_users().contains_key(u) && self.tracked_users()[u] ==> exists|i: int|
                    0 <= i < r@.len() && #[trigger] r@[i]@ == u,
            forall|i: int, j: int| 0 <= i < j < r@.len() ==> r@[i]@ != r@[j]@,
    {
        let found = self.db.find_partition(PartitionId::TrackedUsers);
        let mut out: Vec<String> = Vec::new();
        match found {
            Some(pi) => {
                let part = &self.db.partitions[pi];
                let ghost entries = part.entries@;
                let mut i: usize = 0;
                while i < part.entries.len()
                    invariant
                        self.wf(),
                        part.wf(),
                        part.as_map() == self.db@[PartitionId::TrackedUsers],
                        entries == part.entries@,
                        i <= entries.len(),
                        forall|oi: int|
                            0 <= oi < out@.len() ==> self.tracked_users().contains_key(
                                #[trigger] out@[oi]@,
                            ) && self.tracked_users()[out@[oi]@] == true,
                        forall|oi: int|
                            0 <= oi < out@.len() ==> exists|j: int|
                                0 <= j < i && #[trigger] out@[oi]@ == entries[j].0@,
                        forall|j: int|
                            0 <= j < i && (#[trigger] entries[j].1@) == RecordV::TrackedUser(true)
                                ==> exists|oi: int| 0 <= oi < out@.len() && #[trigger] out@[oi]@
                                == entries[j].0@,
                        forall|oi: int, oj: int| 0 <= oi < oj < out@.len() ==> out@[oi]@ != out@[oj]@,
                    decreases entries.len() - i,
                {
                    match &part.entries[i].1 {
                        Record::TrackedUser(b) => {
                            proof {
                                assert(entries[i as int].1@ == RecordV::TrackedUser(*b));
                            }
                            if *b {
                                proof {
                                    kv::lemma_entry_at(entries, i as int);
                                    assert forall|oi: int| 0 <= oi < out@.len() implies out@[oi]@
                                        != entries[i as int].0@ by {
                                        let j = choose|j: int|
                                            0 <= j < i && #[trigger] out@[oi]@ == entries[j].0@;
                                        assert(entries[j].0@ != entries[i as int].0@);
                                    }
                                }
                                let ghost prev_out = out@;
                                out.push(part.entries[i].0.clone());
                                proof {
                                    assert(out@[out@.len() - 1]@ == entries[i as int].0@);
                                    assert forall|oi: int| 0 <= oi < out@.len() implies exists|j: int|
                                        0 <= j < i + 1 && #[trigger] out@[oi]@ == entries[j].0@ by {
                                        if oi < prev_out.len() {
                                            let j = choose|j: int|
                                                0 <= j < i && #[trigger] prev_out[oi]@ == entries[j].0@;
                                            assert(out@[oi]@ == entries[j].0@);
                                        } else {
                                            assert(out@[oi]@ == entries[i as int].0@);
                                        }
                                    }
                                    assert forall|j: int|
                                        0 <= j < i + 1 && (#[trigger] entries[j].1@)
                                            == RecordV::TrackedUser(true) implies exists|oi: int|
                                        0 <= oi < out@.len() && #[trigger] out@[oi]@
                                            == entries[j].0@ by {
                                        if j < i {
                                            let oi = choose|oi: int|
                                                0 <= oi < prev_out.len() && #[trigger] prev_out[oi]@
                                                    == entries[j].0@;
                                            assert(out@[oi]@ == entries[j].0@);
                                        } else {
                                            assert(out@[out@.len() - 1]@ == entries[j].0@);
                                        }
                                    }
                                }
                            } else {
                                proof {
                                    assert(entries[i as int].1@ != RecordV::TrackedUser(true));
                                }
                            }
                        },
                        _ => {
                            proof {
                                kv::lemma_entry_at(entries, i as int);
                                assert(false);
                            }
                        },
                    }
                    i = i + 1;
                }
                proof {
                    assert forall|u: Seq<char>|
                        self.tracked_users().contains_key(u)
                            && self.tracked_users()[u] implies exists|oi: int| 0 <= oi < out@.len() && #[trigger] out@[oi]@
                        == u by {
                        assert(kv::entry_has_key(entries, u));
                        let j = choose|j: int| 0 <= j < entries.len() && entries[j].0@ == u;
                        kv::lemma_entry_at(entries, j);
                        assert(entries[j].1@ == RecordV::TrackedUser(true));
                    }
                }
            },
            None => {
                proof {
                    assert(false);
                }
            },
        }
        out
    }

    /// Whether any tracked user is dirty, stopping at the first one.
    pub fn has_users_for_key_query(&self) -> (r: bool)
        requires
            self.wf(),
        ensures
            r == exists|u: Seq<char>|
                self.tracked_users().contains_key(u) && self.tracked_users()[u],
    {
        let found = self.db.find_partition(PartitionId::TrackedUsers);
        match found {
            Some(pi) => {
                let part = &self.db.partitions[pi];
                let ghost entries = part.entries@;
                let mut i: usize = 0;
                while i < part.entries.len()
                    invariant
                        self.wf(),
                        part.wf(),
                        part.as_map() == self.db@[PartitionId::TrackedUsers],
                        entries == part.entries@,
                        i <= entries.len(),
                        forall|j: int|
                            0 <= j < i ==> (#[trigger] entries[j].1@) != RecordV::TrackedUser(true),
                    decreases entries.len() - i,
                {
                    match &part.entries[i].1 {
                        Record::TrackedUser(b) => {
                            proof {
                                assert(entries[i as int].1@ == RecordV::TrackedUser(*b));
                            }
                            if *b {
                                proof {
                                    kv::lemma_entry_at(entries, i as int);
                                    assert(self.tracked_users().contains_key(entries[i as int].0@)
                                        && self.tracked_users()[entries[i as int].0@]);
                                }
                                return true;
                            }
                        },
                        _ => {
                            proof {
                                kv::lemma_entry_at(entries, i as int);
                                assert(false);
                            }
                        },
                    }
                    i = i + 1;
                }
                proof {
                    if exists|u: Seq<char>|
                        self.tracked_users().contains_key(u) && self.tracked_users()[u] {
                        let u = choose|u: Seq<char>|
                            self.tracked_users().contains_key(u) && self.tracked_users()[u];
                        assert(kv::entry_has_key(entries, u));
                        let j = choose|j: int| 0 <= j < entries.len() && entries[j].0@ == u;
                        kv::lemma_entry_at(entries, j);
                        assert(false);
                    }
                }
                false
            },
            None => {
                proof {
                    assert(false);
                }
                false
            },
        }
    }
}

} // verus!
