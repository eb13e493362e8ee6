//! The account store: a singleton slot holding the local device's
//! long-term identity material.
//!
//! Saving overwrites the slot in place — there is no history — inside a
//! read-write transaction.  Loading before anything was saved answers
//! "absent", never an error.

use vstd::prelude::*;

use crate::codec;
use crate::codec::Kind;
use crate::errors::CryptoStoreError;
use crate::kv;
use crate::kv::{PartitionId, Record, RecordV, Transaction, TxnMode, TxnOpV};
use crate::store::{
    account_key, lemma_devices_frame, lemma_identities_frame, lemma_rooms_frame,
    lemma_sessions_frame, lemma_tracked_frame, wf_account_map, Cryptostore,
};
use crate::types::Account;

verus! {

impl Cryptostore {
    /// Persist the local account, replacing whatever the singleton slot
    /// held.  No other store is touched.
    pub fn save_account(&mut self, account: &Account) -> (r: Result<(), CryptoStoreError>)
        requires
            old(self).wf(),
        ensures
            final(self).wf(),
            r is Ok,
            final(self).account() == Some(account@),
            final(self).sessions() == old(self).sessions(),
            final(self).rooms() == old(self).rooms(),
            final(self).devices() == old(self).devices(),
            final(self).identities() == old(self).identities(),
            final(self).tracked_users() == old(self).tracked_users(),
    {
        let sealed = codec::seal(Kind::Account, &account.pickle);
        let record = Record::Account(
            Account {
                user_id: account.user_id.clone(),
                device_id: account.device_id.clone(),
                shared: account.shared,
                pickle: sealed,
            },
        );
        let ghost recv = record@;
        let mut txn = Transaction::begin(TxnMode::ReadWrite);
        let put_res = txn.put(PartitionId::Account, "account".to_owned(), record);
        match put_res {
            Ok(()) => {},
            Err(e) => {
                proof {
                    assert(false);
                }
                return Err(e);
            },
        }
        let ghost ops = txn@;
        let ghost m0 = self.db@;
        proof {
            assert(ops.len() == 1);
            assert(ops[0] == TxnOpV::Put(PartitionId::Account, account_key(), recv));
            assert(kv::spec_ops_ok(m0, ops));
        }
        let commit_res = self.db.commit(txn);
        match commit_res {
            Ok(()) => {
                proof {
                    assert(ops =~= seq![ops[0]]);
                    kv::lemma_apply_single(m0, ops[0]);
                    let m1 = self.db@;
                    assert(m1 == m0.insert(
                        PartitionId::Account,
                        m0[PartitionId::Account].insert(account_key(), recv),
                    ));
                    codec::lemma_seal_round_trip(Kind::Account, account.pickle@);
                    assert(wf_account_map(m1)) by {
                        assert forall|k: Seq<char>|
                            m1[PartitionId::Account].contains_key(k) implies ((
                        m1[PartitionId::Account][k]) matches RecordV::Account(a) && k
                            == account_key() && codec::well_sealed(a.pickle, Kind::Account)) by {
                            if k != account_key() {
                                assert(m0[PartitionId::Account].contains_key(k));
                            }
                        }
                    }
                    assert(m1[PartitionId::Sessions] == m0[PartitionId::Sessions]);
                    assert(m1[PartitionId::GroupSessions] == m0[PartitionId::GroupSessions]);
                    assert(m1[PartitionId::Devices] == m0[PartitionId::Devices]);
                    assert(m1[PartitionId::Identities] == m0[PartitionId::Identities]);
                    assert(m1[PartitionId::TrackedUsers] == m0[PartitionId::TrackedUsers]);
                    lemma_sessions_frame(m1, m0);
                    lemma_rooms_frame(m1, m0);
                    lemma_devices_frame(m1, m0);
                    lemma_identities_frame(m1, m0);
                    lemma_tracked_frame(m1, m0);
                    assert(final(self).account() == Some(account@));
                }
                Ok(())
            },
            Err(e) => {
                proof {
                    assert(false);
                }
                Err(e)
            },
        }
    }

    /// Load the local account, or `None` if nothing was ever saved.  The
    /// stored envelope is version-checked on the way out.
    pub fn load_account(&self) -> (r: Result<Option<Account>, CryptoStoreError>)
        requires
            self.wf(),
        ensures
            match r {
                Ok(Some(a)) => self.account() == Some(a@),
                Ok(None) => self.account() is None,
                Err(_) => false,
            },
    {
        let key = "account".to_owned();
        let got = self.db.get(PartitionId::Account, &key);
        match got {
            Some(record) => {
                match record {
                    Record::Account(stored) => {
                        let payload = codec::unseal(Kind::Account, &stored.pickle);
                        match payload {
                            Ok(p) => {
                                let account = Account {
                                    user_id: stored.user_id.clone(),
                                    device_id: stored.device_id.clone(),
                                    shared: stored.shared,
                                    pickle: p,
                                };
                                proof {
                                    assert(self.account() == Some(account@));
                                }
                                Ok(Some(account))
                            },
                            Err(e) => {
                                proof {
                                    assert(false);
                                }
                                Err(e)
                            },
                        }
                    },
                    _ => {
                        proof {
                            assert(false);
                        }
                        Err(CryptoStoreError::Deserialization)
                    },
                }
            },
            None => Ok(None),
        }
    }
}

} // verus!
