//! The cross-signing identity store: at most one identity per user,
//! replaced whole on every save.
//!
//! A batch save writes every identity in one transaction, later entries
//! for the same user winning; a lookup of a user never saved answers
//! "absent".

use vstd::prelude::*;

use crate::codec;
use crate::codec::Kind;
use crate::errors::CryptoStoreError;
use crate::kv;
use crate::kv::{PartitionId, Record, RecordV, Transaction, TxnMode, TxnOpV};
use crate::store::{
    lemma_devices_frame, lemma_rooms_frame, lemma_sessions_frame, lemma_tracked_frame,
    open_identity_v, sealed_identity_v, spec_identities, wf_identities_map, Cryptostore,
};
use crate::types::{UserIdentity, UserIdentityV};

verus! {

/// A batch of identities saved into the model, in order, later entries
/// for the same user winning.
pub open spec fn insert_identities(
    m: Map<Seq<char>, UserIdentityV>,
    ids: Seq<UserIdentityV>,
) -> Map<Seq<char>, UserIdentityV>
    decreases ids.len(),
{
    if ids.len() == 0 {
        m
    } else {
        insert_identities(m, ids.drop_last()).insert(ids.last().user_id, ids.last())
    }
}

/// The staged writes of a batch, one put per identity, in order.
pub open spec fn identity_ops(ids: Seq<UserIdentityV>) -> Seq<TxnOpV> {
    ids.map_values(
        |x: UserIdentityV| TxnOpV::Put(
            PartitionId::Identities,
            x.user_id,
            RecordV::Identity(sealed_identity_v(x)),
        ),
    )
}

/// The identities partition after the batch is written over it.
pub open spec fn identity_records(
    base: Map<Seq<char>, RecordV>,
    ids: Seq<UserIdentityV>,
) -> Map<Seq<char>, RecordV>
    decreases ids.len(),
{
    if ids.len() == 0 {
        base
    } else {
        identity_records(base, ids.drop_last()).insert(
            ids.last().user_id,
            RecordV::Identity(sealed_identity_v(ids.last())),
        )
    }
}

/// The identities a partition map stands for, pickles unsealed.
pub open spec fn part_identities(p: Map<Seq<char>, RecordV>) -> Map<Seq<char>, UserIdentityV> {
    Map::new(
        |k: Seq<char>| p.contains_key(k),
        |k: Seq<char>|
            match p[k] {
                RecordV::Identity(i) => open_identity_v(i),
                _ => UserIdentityV { user_id: k, pickle: Seq::empty() },
            },
    )
}

/// Applying the batch replaces the identities partition by its records
/// and touches nothing else.
pub proof fn lemma_identity_apply(
    m: Map<PartitionId, Map<Seq<char>, RecordV>>,
    ids: Seq<UserIdentityV>,
)
    requires
        m.contains_key(PartitionId::Identities),
    ensures
        kv::spec_apply_ops(m, identity_ops(ids)) == m.insert(
            PartitionId::Identities,
            identity_records(m[PartitionId::Identities], ids),
        ),
    decreases ids.len(),
{
    if ids.len() == 0 {
        assert(m.insert(PartitionId::Identities, m[PartitionId::Identities]) =~= m);
    } else {
        lemma_identity_apply(m, ids.drop_last());
        assert(identity_ops(ids).drop_last() =~= identity_ops(ids.drop_last()));
        let prev = kv::spec_apply_ops(m, identity_ops(ids.drop_last()));
        assert(kv::spec_apply_ops(m, identity_ops(ids)) == kv::spec_apply_op(
            prev,
            identity_ops(ids).last(),
        ));
        assert(identity_ops(ids).last() == TxnOpV::Put(
            PartitionId::Identities,
            ids.last().user_id,
            RecordV::Identity(sealed_identity_v(ids.last())),
        ));
        assert(kv::spec_apply_ops(m, identity_ops(ids)) =~= m.insert(
            PartitionId::Identities,
            identity_records(m[PartitionId::Identities], ids),
        ));
    }
}

/// The records of a batch unseal back to the model fold, and every
/// record they hold is either an untouched base record or a sealed
/// identity filed under its own user id.
pub proof fn lemma_identity_model(base: Map<Seq<char>, RecordV>, ids: Seq<UserIdentityV>)
    ensures
        part_identities(identity_records(base, ids)) == insert_identities(
            part_identities(base),
            ids,
        ),
        forall|k: Seq<char>|
            #![trigger identity_records(base, ids).contains_key(k)]
            identity_records(base, ids).contains_key(k) ==> ((base.contains_key(k)
                && identity_records(base, ids)[k] == base[k]) || (exists|j: int|
                0 <= j < ids.len() && (#[trigger] ids[j]).user_id == k && identity_records(
                    base,
                    ids,
                )[k] == RecordV::Identity(sealed_identity_v(ids[j])))),
    decreases ids.len(),
{
    if ids.len() > 0 {
        let front = ids.drop_last();
        lemma_identity_model(base, front);
        let last = ids.last();
        codec::lemma_seal_round_trip(Kind::Identity, last.pickle);
        assert(open_identity_v(sealed_identity_v(last)) == last);
        assert(part_identities(identity_records(base, ids)) =~= part_identities(
            identity_records(base, front),
        ).insert(last.user_id, last));
        assert forall|k: Seq<char>|
            identity_records(base, ids).contains_key(k) implies ((base.contains_key(k)
            && identity_records(base, ids)[k] == base[k]) || (exists|j: int|
            0 <= j < ids.len() && (#[trigger] ids[j]).user_id == k && identity_records(base, ids)[k]
                == RecordV::Identity(sealed_identity_v(ids[j])))) by {
            if k == last.user_id {
                assert(ids[ids.len() - 1].user_id == k);
                assert(identity_records(base, ids)[k] == RecordV::Identity(
                    sealed_identity_v(ids[ids.len() - 1]),
                ));
            } else {
                assert(identity_records(base, front).contains_key(k));
                assert(identity_records(base, ids)[k] == identity_records(base, front)[k]);
                if !(base.contains_key(k) && identity_records(base, front)[k] == base[k]) {
                    let j = choose|j: int|
                        0 <= j < front.len() && (#[trigger] front[j]).user_id == k
                            && identity_records(base, front)[k] == RecordV::Identity(
                            sealed_identity_v(front[j]),
                        );
                    assert(ids[j].user_id == k);
                    assert(identity_records(base, ids)[k] == RecordV::Identity(
                        sealed_identity_v(ids[j]),
                    ));
                }
            }
        }
    }
}

impl Cryptostore {
    /// Persist a batch of identities, in order, atomically; each fully
    /// replaces the record of its user.  No other store is touched.
    pub fn save_user_identities(&mut self, identities: &Vec<UserIdentity>) -> (r: Result<
        (),
        CryptoStoreError,
    >)
        requires
            old(self).wf(),
        ensures
            final(self).wf(),
            r is Ok,
            final(self).identities() == insert_identities(
                old(self).identities(),
                identities@.map_values(|x: UserIdentity| x@),
            ),
            final(self).account() == old(self).account(),
            final(self).sessions() == old(self).sessions(),
            final(self).rooms() == old(self).rooms(),
            final(self).devices() == old(self).devices(),
            final(self).tracked_users() == old(self).tracked_users(),
    {
        let ghost inputs = identities@.map_values(|x: UserIdentity| x@);
        let ghost m0 = old(self).db@;
        let ghost minit = old(self).identities();
        let mut txn = Transaction::begin(TxnMode::ReadWrite);
        let mut i: usize = 0;
        while i < identities.len()
            invariant
                self.wf(),
                *self == *old(self),
                inputs == identities@.map_values(|x: UserIdentity| x@),
                i <= inputs.len(),
                txn.mode == TxnMode::ReadWrite,
                txn@ =~= identity_ops(inputs.take(i as int)),
            decreases inputs.len() - i,
        {
            let ident = &identities[i];
            let sealed = UserIdentity {
                user_id: ident.user_id.clone(),
                pickle: codec::seal(Kind::Identity, &ident.pickle),
            };
            proof {
                assert(sealed@ == sealed_identity_v(inputs[i as int]));
            }
            let put_res = txn.put(
                PartitionId::Identities,
                ident.user_id.clone(),
                Record::Identity(sealed),
            );
            match put_res {
                Ok(()) => {},
                Err(e) => {
                    proof {
                        assert(false);
                    }
                    return Err(e);
                },
            }
            proof {
                assert(txn@ =~= identity_ops(inputs.take(i + 1))) by {
                    assert(identity_ops(inputs.take(i as int)).push(
                        TxnOpV::Put(
                            PartitionId::Identities,
                            inputs[i as int].user_id,
                            RecordV::Identity(sealed_identity_v(inputs[i as int])),
                        ),
                    ) =~= identity_ops(inputs.take(i + 1)));
                }
            }
            i = i + 1;
        }
        proof {
            assert(inputs.take(inputs.len() as int) =~= inputs);
            assert(txn@ =~= identity_ops(inputs));
            assert forall|oi: int| 0 <= oi < identity_ops(inputs).len() implies m0.contains_key(
                kv::op_partition(#[trigger] identity_ops(inputs)[oi]),
            ) by {
                assert(identity_ops(inputs)[oi] == TxnOpV::Put(
                    PartitionId::Identities,
                    inputs[oi].user_id,
                    RecordV::Identity(sealed_identity_v(inputs[oi])),
                ));
            }
            assert(kv::spec_ops_ok(m0, txn@));
        }
        let commit_res = self.db.commit(txn);
        match commit_res {
            Ok(()) => {
                proof {
                    lemma_identity_apply(m0, inputs);
                    let m1 = self.db@;
                    assert(m1 == m0.insert(
                        PartitionId::Identities,
                        identity_records(m0[PartitionId::Identities], inputs),
                    ));
                    let part1 = identity_records(m0[PartitionId::Identities], inputs);
                    lemma_identity_model(m0[PartitionId::Identities], inputs);
                    assert(wf_identities_map(m1)) by {
                        assert forall|k: Seq<char>| m1[PartitionId::Identities].contains_key(
                            k,
                        ) implies ((m1[PartitionId::Identities][k]) matches RecordV::Identity(x)
                            && x.user_id == k && codec::well_sealed(x.pickle, Kind::Identity)) by {
                            assert(part1.contains_key(k));
                            if base_holds(m0[PartitionId::Identities], part1, k) {
                                assert(m0[PartitionId::Identities].contains_key(k));
                            } else {
                                let j = choose|j: int|
                                    0 <= j < inputs.len() && (#[trigger] inputs[j]).user_id == k
                                        && part1[k] == RecordV::Identity(
                                        sealed_identity_v(inputs[j]),
                                    );
                                codec::lemma_seal_round_trip(Kind::Identity, inputs[j].pickle);
                            }
                        }
                    }
                    assert(spec_identities(m0) =~= part_identities(m0[PartitionId::Identities]));
                    assert(spec_identities(m1) =~= part_identities(part1));
                    assert(final(self).identities() == insert_identities(minit, inputs));
                    assert(m1[PartitionId::Account] == m0[PartitionId::Account]);
                    lemma_sessions_frame(m1, m0);
                    lemma_rooms_frame(m1, m0);
                    lemma_devices_frame(m1, m0);
                    lemma_tracked_frame(m1, m0);
                }
                Ok(())
            },
            Err(e) => {
                proof {
                    assert(false);
                }
                Err(e)
            },
        }
    }

    /// Load a user's cross-signing identity, or `None` if none was ever
    /// saved.  The stored envelope is version-checked on the way out.
    pub fn get_user_identity(&self, user_id: &String) -> (r: Result<
        Option<UserIdentity>,
        CryptoStoreError,
    >)
        requires
            self.wf(),
        ensures
            match r {
                Ok(Some(x)) => self.identities().contains_key(user_id@) && self.identities()[
                    user_id@] == x@,
                Ok(None) => !self.identities().contains_key(user_id@),
                Err(_) => false,
            },
    {
        let got = self.db.get(PartitionId::Identities, user_id);
        match got {
            Some(record) => {
                match record {
                    Record::Identity(stored) => {
                        let payload = codec::unseal(Kind::Identity, &stored.pickle);
                        match payload {
                            Ok(p) => {
                                let out = UserIdentity {
                                    user_id: stored.user_id.clone(),
                                    pickle: p,
                                };
                                proof {
                                    assert(self.identities()[user_id@] == out@);
                                }
                                Ok(Some(out))
                            },
                            Err(e) => {
                                proof {
                                    assert(false);
                                }
                                Err(e)
                            },
                        }
                    },
                    _ => {
                        proof {
                            assert(false);
                        }
                        Err(CryptoStoreError::Deserialization)
                    },
                }
            },
            None => Ok(None),
        }
    }
}

/// Whether the batched partition still holds the base record at a key.
pub open spec fn base_holds(
    base: Map<Seq<char>, RecordV>,
    part: Map<Seq<char>, RecordV>,
    k: Seq<char>,
) -> bool {
    base.contains_key(k) && part[k] == base[k]
}

} // verus!
