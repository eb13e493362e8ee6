//! The cryptostore facade: one owned store instance composing the
//! sub-stores over a single transactional adapter.
//!
//! Every operation reads and writes through the partitioned adapter of
//! [`crate::kv`]; multi-record updates are staged into one transaction and
//! committed atomically.  Each stored pickle is sealed into the versioned
//! envelope of [`crate::codec`] before it is written and unsealed (with the
//! version checked) on every read.
//!
//! The facade's contracts are stated over six mathematical models derived
//! from the store's map: the account slot, the per-sender-key session
//! lists, the per-room group-session lists, the per-user device
//! directories, the per-user identities, and the tracked-user set.

use vstd::prelude::*;

use crate::codec;
use crate::codec::Kind;
use crate::errors::CryptoStoreError;
use crate::kv::{Db, PartitionId, Record, RecordV};
use crate::types::{
    Account, AccountV, Device, DeviceV, InboundGroupSession, InboundGroupSessionV, Session,
    SessionV, UserIdentity, UserIdentityV,
};

verus! {

/// The schema version this store writes.
pub const SCHEMA_VERSION: u32 = 1;

/// The two-level map a store stands for: partition name, then key, then
/// record.
pub type StoreMap = Map<PartitionId, Map<Seq<char>, RecordV>>;

/// The fixed key of the singleton account slot.
pub open spec fn account_key() -> Seq<char> {
    "account"@
}

/// An account as stored: the pickle sealed in its envelope.
pub open spec fn sealed_account_v(a: AccountV) -> AccountV {
    AccountV {
        user_id: a.user_id,
        device_id: a.device_id,
        shared: a.shared,
        pickle: codec::spec_seal(Kind::Account, a.pickle),
    }
}

/// An account as loaded: the pickle unsealed from its envelope.
pub open spec fn open_account_v(a: AccountV) -> AccountV {
    AccountV {
        user_id: a.user_id,
        device_id: a.device_id,
        shared: a.shared,
        pickle: codec::spec_payload(a.pickle),
    }
}

/// A session as stored.
pub open spec fn sealed_session_v(s: SessionV) -> SessionV {
    SessionV {
        sender_key: s.sender_key,
        session_id: s.session_id,
        pickle: codec::spec_seal(Kind::Session, s.pickle),
    }
}

/// A session as loaded.
pub open spec fn open_session_v(s: SessionV) -> SessionV {
    SessionV {
        sender_key: s.sender_key,
        session_id: s.session_id,
        pickle: codec::spec_payload(s.pickle),
    }
}

/// A group session as stored.
pub open spec fn sealed_group_v(s: InboundGroupSessionV) -> InboundGroupSessionV {
    InboundGroupSessionV {
        room_id: s.room_id,
        sender_key: s.sender_key,
        session_id: s.session_id,
        pickle: codec::spec_seal(Kind::GroupSession, s.pickle),
    }
}

/// A group session as loaded.
pub open spec fn open_group_v(s: InboundGroupSessionV) -> InboundGroupSessionV {
    InboundGroupSessionV {
        room_id: s.room_id,
        sender_key: s.sender_key,
        session_id: s.session_id,
        pickle: codec::spec_payload(s.pickle),
    }
}

/// A device record as stored.
pub open spec fn sealed_device_v(d: DeviceV) -> DeviceV {
    DeviceV {
        user_id: d.user_id,
        device_id: d.device_id,
        deleted: d.deleted,
        pickle: codec::spec_seal(Kind::Device, d.pickle),
    }
}

/// A device record as loaded.
pub open spec fn open_device_v(d: DeviceV) -> DeviceV {
    DeviceV {
        user_id: d.user_id,
        device_id: d.device_id,
        deleted: d.deleted,
        pickle: codec::spec_payload(d.pickle),
    }
}

/// An identity as stored.
pub open spec fn sealed_identity_v(i: UserIdentityV) -> UserIdentityV {
    UserIdentityV { user_id: i.user_id, pickle: codec::spec_seal(Kind::Identity, i.pickle) }
}

/// An identity as loaded.
pub open spec fn open_identity_v(i: UserIdentityV) -> UserIdentityV {
    UserIdentityV { user_id: i.user_id, pickle: codec::spec_payload(i.pickle) }
}

/// Shape of the account partition: only the fixed key, holding a sealed
/// account record.
pub open spec fn wf_account_map(m: StoreMap) -> bool {
    &&& m.contains_key(PartitionId::Account)
    &&& forall|k: Seq<char>|
        m[PartitionId::Account].contains_key(k) ==> ((#[trigger] m[PartitionId::Account][k])
            matches RecordV::Account(a) && k == account_key() && codec::well_sealed(
            a.pickle,
            Kind::Account,
        ))
}

/// Shape of one stored session list: every entry belongs to the sender
/// key it is filed under, session ids are unique, pickles sealed.
pub open spec fn wf_session_items(items: Seq<SessionV>, k: Seq<char>) -> bool {
    &&& forall|i: int|
        0 <= i < items.len() ==> (#[trigger] items[i]).sender_key == k && codec::well_sealed(
            items[i].pickle,
            Kind::Session,
        )
    &&& forall|i: int, j: int|
        0 <= i < j < items.len() ==> items[i].session_id != items[j].session_id
}

/// Shape of the sessions partition.
pub open spec fn wf_sessions_map(m: StoreMap) -> bool {
    &&& m.contains_key(PartitionId::Sessions)
    &&& forall|k: Seq<char>|
        m[PartitionId::Sessions].contains_key(k) ==> ((#[trigger] m[PartitionId::Sessions][k])
            matches RecordV::Sessions(items) && wf_session_items(items, k))
}

/// Shape of one stored room list: every entry belongs to the room it is
/// filed under, (sender key, session id) pairs are unique, pickles sealed.
pub open spec fn wf_group_items(items: Seq<InboundGroupSessionV>, k: Seq<char>) -> bool {
    &&& forall|i: int|
        0 <= i < items.len() ==> (#[trigger] items[i]).room_id == k && codec::well_sealed(
            items[i].pickle,
            Kind::GroupSession,
        )
    &&& forall|i: int, j: int|
        0 <= i < j < items.len() ==> !(items[i].sender_key == items[j].sender_key
            && items[i].session_id == items[j].session_id)
}

/// Shape of the group-sessions partition.
pub open spec fn wf_rooms_map(m: StoreMap) -> bool {
    &&& m.contains_key(PartitionId::GroupSessions)
    &&& forall|k: Seq<char>|
        m[PartitionId::GroupSessions].contains_key(k) ==> ((#[trigger] m[PartitionId::GroupSessions][k])
            matches RecordV::GroupSessions(items) && wf_group_items(items, k))
}

/// Shape of one stored device directory: every record belongs to the user
/// it is filed under, device ids are unique, pickles sealed.
pub open spec fn wf_device_items(items: Seq<DeviceV>, k: Seq<char>) -> bool {
    &&& forall|i: int|
        0 <= i < items.len() ==> (#[trigger] items[i]).user_id == k && codec::well_sealed(
            items[i].pickle,
            Kind::Device,
        )
    &&& forall|i: int, j: int| 0 <= i < j < items.len() ==> items[i].device_id != items[j].device_id
}

/// Shape of the devices partition.
pub open spec fn wf_devices_map(m: StoreMap) -> bool {
    &&& m.contains_key(PartitionId::Devices)
    &&& forall|k: Seq<char>|
        m[PartitionId::Devices].contains_key(k) ==> ((#[trigger] m[PartitionId::Devices][k])
            matches RecordV::Devices(items) && wf_device_items(items, k))
}

/// Shape of the identities partition: one sealed identity per user key.
pub open spec fn wf_identities_map(m: StoreMap) -> bool {
    &&& m.contains_key(PartitionId::Identities)
    &&& forall|k: Seq<char>|
        m[PartitionId::Identities].contains_key(k) ==> ((#[trigger] m[PartitionId::Identities][k])
            matches RecordV::Identity(i) && i.user_id == k && codec::well_sealed(
            i.pickle,
            Kind::Identity,
        ))
}

/// Shape of the tracked-users partition: one dirty flag per user key.
pub open spec fn wf_tracked_map(m: StoreMap) -> bool {
    &&& m.contains_key(PartitionId::TrackedUsers)
    &&& forall|k: Seq<char>|
        m[PartitionId::TrackedUsers].contains_key(k) ==> (#[trigger] m[PartitionId::TrackedUsers][k])
            matches RecordV::TrackedUser(b)
}

/// The account the store holds, if any, with its pickle unsealed.
pub open spec fn spec_account(m: StoreMap) -> Option<AccountV> {
    if m[PartitionId::Account].contains_key(account_key()) {
        match m[PartitionId::Account][account_key()] {
            RecordV::Account(a) => Some(open_account_v(a)),
            _ => None,
        }
    } else {
        None
    }
}

/// The session lists the store holds, keyed by sender key, pickles
/// unsealed, least recently used first.
pub open spec fn spec_sessions(m: StoreMap) -> Map<Seq<char>, Seq<SessionV>> {
    Map::new(
        |k: Seq<char>| m[PartitionId::Sessions].contains_key(k),
        |k: Seq<char>|
            match m[PartitionId::Sessions][k] {
                RecordV::Sessions(items) => items.map_values(|s: SessionV| open_session_v(s)),
                _ => Seq::empty(),
            },
    )
}

/// The room lists the store holds, keyed by room id, pickles unsealed.
pub open spec fn spec_rooms(m: StoreMap) -> Map<Seq<char>, Seq<InboundGroupSessionV>> {
    Map::new(
        |k: Seq<char>| m[PartitionId::GroupSessions].contains_key(k),
        |k: Seq<char>|
            match m[PartitionId::GroupSessions][k] {
                RecordV::GroupSessions(items) => items.map_values(
                    |s: InboundGroupSessionV| open_group_v(s),
                ),
                _ => Seq::empty(),
            },
    )
}

/// The device directories the store holds, keyed by user id, pickles
/// unsealed.
pub open spec fn spec_devices(m: StoreMap) -> Map<Seq<char>, Seq<DeviceV>> {
    Map::new(
        |k: Seq<char>| m[PartitionId::Devices].contains_key(k),
        |k: Seq<char>|
            match m[PartitionId::Devices][k] {
                RecordV::Devices(items) => items.map_values(|d: DeviceV| open_device_v(d)),
                _ => Seq::empty(),
            },
    )
}

/// The identities the store holds, keyed by user id, pickles unsealed.
pub open spec fn spec_identities(m: StoreMap) -> Map<Seq<char>, UserIdentityV> {
    Map::new(
        |k: Seq<char>| m[PartitionId::Identities].contains_key(k),
        |k: Seq<char>|
            match m[PartitionId::Identities][k] {
                RecordV::Identity(i) => open_identity_v(i),
                _ => UserIdentityV { user_id: k, pickle: Seq::empty() },
            },
    )
}

/// The tracked users the store holds, each with its dirty flag.
pub open spec fn spec_tracked(m: StoreMap) -> Map<Seq<char>, bool> {
    Map::new(
        |k: Seq<char>| m[PartitionId::TrackedUsers].contains_key(k),
        |k: Seq<char>|
            match m[PartitionId::TrackedUsers][k] {
                RecordV::TrackedUser(b) => b,
                _ => false,
            },
    )
}

/// The persistence engine: every sub-store behind one transactional
/// adapter.  A single owner drives it; callers needing shared access wrap
/// it in their own exclusion.
pub struct Cryptostore {
    /// The partitioned store all operations read and write through.
    pub db: Db,
}

impl Cryptostore {
    /// The store is well-formed: the adapter is, the schema is current,
    /// and every partition has the shape its sub-store maintains.
    pub open spec fn wf(self) -> bool {
        &&& self.db.wf()
        &&& self.db.version == SCHEMA_VERSION
        &&& wf_account_map(self.db@)
        &&& wf_sessions_map(self.db@)
        &&& wf_rooms_map(self.db@)
        &&& wf_devices_map(self.db@)
        &&& wf_identities_map(self.db@)
        &&& wf_tracked_map(self.db@)
    }

    /// The account model.
    pub open spec fn account(self) -> Option<AccountV> {
        spec_account(self.db@)
    }

    /// The sessions model: sender key to ordered session list.
    pub open spec fn sessions(self) -> Map<Seq<char>, Seq<SessionV>> {
        spec_sessions(self.db@)
    }

    /// The group-sessions model: room id to session list.
    pub open spec fn rooms(self) -> Map<Seq<char>, Seq<InboundGroupSessionV>> {
        spec_rooms(self.db@)
    }

    /// The devices model: user id to device directory.
    pub open spec fn devices(self) -> Map<Seq<char>, Seq<DeviceV>> {
        spec_devices(self.db@)
    }

    /// The identities model: user id to identity.
    pub open spec fn identities(self) -> Map<Seq<char>, UserIdentityV> {
        spec_identities(self.db@)
    }

    /// The tracked-users model: user id to dirty flag.
    pub open spec fn tracked_users(self) -> Map<Seq<char>, bool> {
        spec_tracked(self.db@)
    }
}

/// Two store maps that agree on one partition give the same model for it;
/// stated once per model so mutators can frame the stores they left alone.
pub proof fn lemma_sessions_frame(m1: StoreMap, m2: StoreMap)
    requires
        m1[PartitionId::Sessions] == m2[PartitionId::Sessions],
    ensures
        spec_sessions(m1) == spec_sessions(m2),
{
    assert(spec_sessions(m1) =~= spec_sessions(m2));
}

/// Frame for the group-sessions model.
pub proof fn lemma_rooms_frame(m1: StoreMap, m2: StoreMap)
    requires
        m1[PartitionId::GroupSessions] == m2[PartitionId::GroupSessions],
    ensures
        spec_rooms(m1) == spec_rooms(m2),
{
    assert(spec_rooms(m1) =~= spec_rooms(m2));
}

/// Frame for the devices model.
pub proof fn lemma_devices_frame(m1: StoreMap, m2: StoreMap)
    requires
        m1[PartitionId::Devices] == m2[PartitionId::Devices],
    ensures
        spec_devices(m1) == spec_devices(m2),
{
    assert(spec_devices(m1) =~= spec_devices(m2));
}

/// Frame for the identities model.
pub proof fn lemma_identities_frame(m1: StoreMap, m2: StoreMap)
    requires
        m1[PartitionId::Identities] == m2[PartitionId::Identities],
    ensures
        spec_identities(m1) == spec_identities(m2),
{
    assert(spec_identities(m1) =~= spec_identities(m2));
}

/// Frame for the tracked-users model.
pub proof fn lemma_tracked_frame(m1: StoreMap, m2: StoreMap)
    requires
        m1[PartitionId::TrackedUsers] == m2[PartitionId::TrackedUsers],
    ensures
        spec_tracked(m1) == spec_tracked(m2),
{
    assert(spec_tracked(m1) =~= spec_tracked(m2));
}

impl Cryptostore {
    /// The six partitions every store is opened with.
    fn partition_list() -> (r: Vec<PartitionId>)
        ensures
            r@.len() == 6,
            r@[0] == PartitionId::Account,
            r@[1] == PartitionId::Sessions,
            r@[2] == PartitionId::GroupSessions,
            r@[3] == PartitionId::Devices,
            r@[4] == PartitionId::Identities,
            r@[5] == PartitionId::TrackedUsers,
    {
        let mut ids: Vec<PartitionId> = Vec::new();
        ids.push(PartitionId::Account);
        ids.push(PartitionId::Sessions);
        ids.push(PartitionId::GroupSessions);
        ids.push(PartitionId::Devices);
        ids.push(PartitionId::Identities);
        ids.push(PartitionId::TrackedUsers);
        ids
    }

    /// Open a fresh store: every partition exists and is empty, so every
    /// lookup answers "absent" until something is saved.
    pub fn open() -> (r: Cryptostore)
        ensures
            r.wf(),
            r.account() is None,
            r.sessions() == Map::<Seq<char>, Seq<SessionV>>::empty(),
            r.rooms() == Map::<Seq<char>, Seq<InboundGroupSessionV>>::empty(),
            r.devices() == Map::<Seq<char>, Seq<DeviceV>>::empty(),
            r.identities() == Map::<Seq<char>, UserIdentityV>::empty(),
            r.tracked_users() == Map::<Seq<char>, bool>::empty(),
    {
        let ids = Self::partition_list();
        let opened = Db::open(None, SCHEMA_VERSION, &ids);
        match opened {
            Ok(db) => {
                let store = Cryptostore { db };
                proof {
                    assert(ids@.contains(PartitionId::Account));
                    assert(ids@.contains(PartitionId::Sessions));
                    assert(ids@.contains(PartitionId::GroupSessions));
                    assert(ids@.contains(PartitionId::Devices));
                    assert(ids@.contains(PartitionId::Identities));
                    assert(ids@.contains(PartitionId::TrackedUsers));
                    assert(store.sessions() =~= Map::<Seq<char>, Seq<SessionV>>::empty());
                    assert(store.rooms() =~= Map::<Seq<char>, Seq<InboundGroupSessionV>>::empty());
                    assert(store.devices() =~= Map::<Seq<char>, Seq<DeviceV>>::empty());
                    assert(store.identities() =~= Map::<Seq<char>, UserIdentityV>::empty());
                    assert(store.tracked_users() =~= Map::<Seq<char>, bool>::empty());
                }
                store
            },
            Err(_) => {
                proof {
                    assert(false);
                }
                Cryptostore { db: Db { version: SCHEMA_VERSION, partitions: Vec::new() } }
            },
        }
    }

    /// Reopen a store left by an earlier session, running migration.  The
    /// migration is idempotent: a store that is already at the current
    /// schema keeps every model unchanged.
    pub fn reopen(previous: Cryptostore) -> (r: Cryptostore)
        requires
            previous.wf(),
        ensures
            r.wf(),
            r.account() == previous.account(),
            r.sessions() == previous.sessions(),
            r.rooms() == previous.rooms(),
            r.devices() == previous.devices(),
            r.identities() == previous.identities(),
            r.tracked_users() == previous.tracked_users(),
    {
        let ghost prev = previous;
        let ids = Self::partition_list();
        let opened = Db::open(Some(previous.db), SCHEMA_VERSION, &ids);
        match opened {
            Ok(db) => {
                let store = Cryptostore { db };
                proof {
                    assert forall|id: PartitionId| crate::kv::ids_set(ids@).contains(
                        id,
                    ) implies prev.db@.dom().contains(id) by {
                        let i = choose|i: int| 0 <= i < ids@.len() && ids@[i] == id;
                        if i == 0 {
                            assert(id == PartitionId::Account);
                        } else if i == 1 {
                            assert(id == PartitionId::Sessions);
                        } else if i == 2 {
                            assert(id == PartitionId::GroupSessions);
                        } else if i == 3 {
                            assert(id == PartitionId::Devices);
                        } else if i == 4 {
                            assert(id == PartitionId::Identities);
                        } else {
                            assert(id == PartitionId::TrackedUsers);
                        }
                    }
                    assert(crate::kv::ids_set(ids@) <= prev.db@.dom());
                    assert(store.db@ == prev.db@);
                }
                store
            },
            Err(_) => {
                proof {
                    assert(false);
                }
                Cryptostore { db: Db { version: SCHEMA_VERSION, partitions: Vec::new() } }
            },
        }
    }
}

} // verus!
