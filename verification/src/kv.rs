//! Transactional store adapter: a partitioned key-value store with
//! all-or-nothing commits.
//!
//! The store holds named partitions; each partition maps string keys to
//! storable records.  Writers stage their updates in a [`Transaction`] and
//! apply them with a single [`Db::commit`]: either every staged operation
//! becomes visible, or — when the transaction touches a partition the store
//! does not have — none of them do and the store is left untouched.  A
//! write staged into a read-only transaction is rejected with an access
//! error.  Dropping a transaction without committing it discards all of
//! its staged writes.
//!
//! [`Db::open`] runs schema migration: it brings the store to the requested
//! version and creates whatever partitions are missing, preserving all data
//! already present.  Opening data written by a newer schema is a hard
//! error.  Migration is idempotent: opening an already-current store with
//! the same partition list changes nothing.

use vstd::prelude::*;

use crate::errors::CryptoStoreError;
use crate::types::{
    Account, AccountV, Device, DeviceV, InboundGroupSession, InboundGroupSessionV, Session,
    SessionV, UserIdentity, UserIdentityV,
};

verus! {

/// The named partitions of the store.
#[derive(Clone, Copy, Debug, PartialEq, Eq, Structural)]
pub enum PartitionId {
    /// The singleton slot for the local account.
    Account,
    /// Pairwise sessions, keyed by the remote sender's identity key.
    Sessions,
    /// Inbound group sessions, keyed by room id.
    GroupSessions,
    /// Remote device directories, keyed by user id.
    Devices,
    /// Cross-signing identities, keyed by user id.
    Identities,
    /// The tracked-user set, keyed by user id.
    TrackedUsers,
}

/// A storable record: what one partition entry holds.
pub enum Record {
    /// The local account, its pickle sealed in an envelope.
    Account(Account),
    /// The ordered pairwise sessions of one sender key, least recently
    /// used first; pickles sealed.
    Sessions(Vec<Session>),
    /// The inbound group sessions of one room; pickles sealed.
    GroupSessions(Vec<InboundGroupSession>),
    /// The device directory of one user; pickles sealed.
    Devices(Vec<Device>),
    /// The cross-signing identity of one user, its pickle sealed.
    Identity(UserIdentity),
    /// One tracked user's dirty flag.
    TrackedUser(bool),
}

/// The mathematical value of a [`Record`].
pub enum RecordV {
    Account(AccountV),
    Sessions(Seq<SessionV>),
    GroupSessions(Seq<InboundGroupSessionV>),
    Devices(Seq<DeviceV>),
    Identity(UserIdentityV),
    TrackedUser(bool),
}

impl View for Record {
    type V = RecordV;

    open spec fn view(&self) -> RecordV {
        match self {
            Record::Account(a) => RecordV::Account(a@),
            Record::Sessions(items) => RecordV::Sessions(items@.map_values(|s: Session| s@)),
            Record::GroupSessions(items) => RecordV::GroupSessions(
                items@.map_values(|s: InboundGroupSession| s@),
            ),
            Record::Devices(items) => RecordV::Devices(items@.map_values(|d: Device| d@)),
            Record::Identity(i) => RecordV::Identity(i@),
            Record::TrackedUser(dirty) => RecordV::TrackedUser(*dirty),
        }
    }
}

/// Whether some entry of the association list carries key `k`.
pub open spec fn entry_has_key(entries: Seq<(String, Record)>, k: Seq<char>) -> bool {
    exists|i: int| 0 <= i < entries.len() && entries[i].0@ == k
}

/// The index of the entry carrying key `k`.
pub open spec fn entry_index(entries: Seq<(String, Record)>, k: Seq<char>) -> int {
    choose|i: int| 0 <= i < entries.len() && entries[i].0@ == k
}

/// Whether the association list carries each key at most once.
pub open spec fn unique_keys(entries: Seq<(String, Record)>) -> bool {
    forall|i: int, j: int| 0 <= i < j < entries.len() ==> entries[i].0@ != entries[j].0@
}

/// The map an association list stands for.
pub open spec fn entries_map(entries: Seq<(String, Record)>) -> Map<Seq<char>, RecordV> {
    Map::new(
        |k: Seq<char>| entry_has_key(entries, k),
        |k: Seq<char>| entries[entry_index(entries, k)].1@,
    )
}

/// With unique keys, the entry at index `i` is the one the map holds for
/// its key.
pub proof fn lemma_entry_at(entries: Seq<(String, Record)>, i: int)
    requires
        unique_keys(entries),
        0 <= i < entries.len(),
    ensures
        entry_has_key(entries, entries[i].0@),
        entry_index(entries, entries[i].0@) == i,
        entries_map(entries).contains_key(entries[i].0@),
        entries_map(entries)[entries[i].0@] == entries[i].1@,
{
    assert(entry_has_key(entries, entries[i].0@));
    let j = entry_index(entries, entries[i].0@);
    assert(0 <= j < entries.len() && entries[j].0@ == entries[i].0@);
    if i < j {
        assert(entries[i].0@ != entries[j].0@);
    } else if j < i {
        assert(entries[j].0@ != entries[i].0@);
    }
}

/// Replacing the entry at `i` by one with the same key updates the map at
/// that key.
pub proof fn lemma_entries_update(entries: Seq<(String, Record)>, i: int, p: (String, Record))
    requires
        unique_keys(entries),
        0 <= i < entries.len(),
        entries[i].0@ == p.0@,
    ensures
        unique_keys(entries.update(i, p)),
        entries_map(entries.update(i, p)) == entries_map(entries).insert(p.0@, p.1@),
{
    let updated = entries.update(i, p);
    assert(forall|j: int| 0 <= j < entries.len() ==> updated[j].0@ == entries[j].0@);
    assert(unique_keys(updated));
    assert forall|k: Seq<char>| entry_has_key(updated, k) == entry_has_key(entries, k) by {
        if entry_has_key(updated, k) {
            let j = choose|j: int| 0 <= j < updated.len() && updated[j].0@ == k;
            assert(entries[j].0@ == k);
        }
        if entry_has_key(entries, k) {
            let j = choose|j: int| 0 <= j < entries.len() && entries[j].0@ == k;
            assert(updated[j].0@ == k);
        }
    }
    assert(entries_map(updated) =~= entries_map(entries).insert(p.0@, p.1@)) by {
        assert forall|k: Seq<char>| entry_has_key(updated, k) implies entries_map(updated)[k]
            == entries_map(entries).insert(p.0@, p.1@)[k] by {
            let j = choose|j: int| 0 <= j < updated.len() && updated[j].0@ == k;
            lemma_entry_at(updated, j);
            if k == p.0@ {
                lemma_entry_at(updated, i);
            } else {
                assert(j != i);
                lemma_entry_at(entries, j);
            }
        }
    }
}

/// Appending an entry with a fresh key inserts it into the map.
pub proof fn lemma_entries_push(entries: Seq<(String, Record)>, p: (String, Record))
    requires
        unique_keys(entries),
        !entry_has_key(entries, p.0@),
    ensures
        unique_keys(entries.push(p)),
        entries_map(entries.push(p)) == entries_map(entries).insert(p.0@, p.1@),
{
    let pushed = entries.push(p);
    assert forall|i: int, j: int| 0 <= i < j < pushed.len() implies pushed[i].0@ != pushed[j].0@ by {
        if j < entries.len() {
            assert(entries[i].0@ != entries[j].0@);
        } else {
            assert(pushed[j] == p);
            if pushed[i].0@ == p.0@ {
                assert(entry_has_key(entries, p.0@));
            }
        }
    }
    assert forall|k: Seq<char>| entry_has_key(pushed, k) == (entry_has_key(entries, k) || k
        == p.0@) by {
        if entry_has_key(pushed, k) {
            let j = choose|j: int| 0 <= j < pushed.len() && pushed[j].0@ == k;
            if j < entries.len() {
                assert(entries[j].0@ == k);
            }
        }
        if entry_has_key(entries, k) {
            let j = choose|j: int| 0 <= j < entries.len() && entries[j].0@ == k;
            assert(pushed[j].0@ == k);
        }
        if k == p.0@ {
            assert(pushed[entries.len() as int].0@ == k);
        }
    }
    assert(entries_map(pushed) =~= entries_map(entries).insert(p.0@, p.1@)) by {
        assert forall|k: Seq<char>| entry_has_key(pushed, k) implies entries_map(pushed)[k]
            == entries_map(entries).insert(p.0@, p.1@)[k] by {
            let j = choose|j: int| 0 <= j < pushed.len() && pushed[j].0@ == k;
            lemma_entry_at(pushed, j);
            if k == p.0@ {
                lemma_entry_at(pushed, entries.len() as int);
            } else {
                assert(j < entries.len());
                lemma_entry_at(entries, j);
            }
        }
    }
}

/// Removing the entry at `i` removes its key from the map.
pub proof fn lemma_entries_remove(entries: Seq<(String, Record)>, i: int)
    requires
        unique_keys(entries),
        0 <= i < entries.len(),
    ensures
        unique_keys(entries.remove(i)),
        entries_map(entries.remove(i)) == entries_map(entries).remove(entries[i].0@),
{
    let removed = entries.remove(i);
    assert(forall|j: int| 0 <= j < i ==> removed[j] == entries[j]);
    assert(forall|j: int| i <= j < removed.len() ==> removed[j] == entries[j + 1]);
    assert forall|a: int, b: int| 0 <= a < b < removed.len() implies removed[a].0@
        != removed[b].0@ by {
        let a0: int = if a < i { a } else { a + 1 };
        let b0: int = if b < i { b } else { b + 1 };
        assert(entries[a0].0@ != entries[b0].0@);
    }
    assert forall|k: Seq<char>| entry_has_key(removed, k) == (entry_has_key(entries, k) && k
        != entries[i].0@) by {
        if entry_has_key(removed, k) {
            let j = choose|j: int| 0 <= j < removed.len() && removed[j].0@ == k;
            let j0: int = if j < i { j } else { j + 1 };
            assert(entries[j0].0@ == k);
            if k == entries[i].0@ {
                lemma_entry_at(entries, i);
                lemma_entry_at(entries, j0);
            }
        }
        if entry_has_key(entries, k) && k != entries[i].0@ {
            let j = choose|j: int| 0 <= j < entries.len() && entries[j].0@ == k;
            assert(j != i);
            if j < i {
                assert(removed[j].0@ == k);
            } else {
                assert(removed[j - 1].0@ == k);
            }
        }
    }
    assert(entries_map(removed) =~= entries_map(entries).remove(entries[i].0@)) by {
        assert forall|k: Seq<char>| entry_has_key(removed, k) implies entries_map(removed)[k]
            == entries_map(entries).remove(entries[i].0@)[k] by {
            let j = choose|j: int| 0 <= j < removed.len() && removed[j].0@ == k;
            lemma_entry_at(removed, j);
            let j0: int = if j < i { j } else { j + 1 };
            lemma_entry_at(entries, j0);
        }
    }
}

/// One named partition: an association list from string keys to records,
/// each key held at most once.
pub struct Partition {
    /// The partition's name.
    pub id: PartitionId,
    /// The entries, in insertion order.
    pub entries: Vec<(String, Record)>,
}

impl Partition {
    /// Each key appears at most once.
    pub open spec fn wf(self) -> bool {
        unique_keys(self.entries@)
    }

    /// The map this partition stands for.
    pub open spec fn as_map(self) -> Map<Seq<char>, RecordV> {
        entries_map(self.entries@)
    }

    /// An empty partition.
    pub fn empty(id: PartitionId) -> (r: Partition)
        ensures
            r.wf(),
            r.id == id,
            r.as_map() == Map::<Seq<char>, RecordV>::empty(),
    {
        let r = Partition { id, entries: Vec::new() };
        proof {
            assert(r.as_map() =~= Map::<Seq<char>, RecordV>::empty());
        }
        r
    }

    /// Find the index of the entry holding `key`, if any.
    pub fn find(&self, key: &String) -> (r: Option<usize>)
        requires
            self.wf(),
        ensures
            match r {
                Some(i) => {
                    &&& i < self.entries@.len()
                    &&& self.entries@[i as int].0@ == key@
                    &&& self.as_map().contains_key(key@)
                    &&& self.as_map()[key@] == self.entries@[i as int].1@
                },
                None => !self.as_map().contains_key(key@),
            },
    {
        let mut i: usize = 0;
        while i < self.entries.len()
            invariant
                self.wf(),
                i <= self.entries@.len(),
                forall|j: int| 0 <= j < i ==> self.entries@[j].0@ != key@,
            decreases self.entries@.len() - i,
        {
            if self.entries[i].0 == *key {
                proof {
                    lemma_entry_at(self.entries@, i as int);
                }
                return Some(i);
            }
            i = i + 1;
        }
        None
    }

    /// Insert or overwrite the record under `key`.
    pub fn put(&mut self, key: String, value: Record)
        requires
            old(self).wf(),
        ensures
            final(self).wf(),
            final(self).id == old(self).id,
            final(self).as_map() == old(self).as_map().insert(key@, value@),
    {
        let found = self.find(&key);
        match found {
            Some(i) => {
                proof {
                    lemma_entries_update(self.entries@, i as int, (key, value));
                }
                self.entries.set(i, (key, value));
            },
            None => {
                proof {
                    lemma_entries_push(self.entries@, (key, value));
                }
                self.entries.push((key, value));
            },
        }
    }

    /// Remove the record under `key`, if any.
    pub fn remove_key(&mut self, key: &String)
        requires
            old(self).wf(),
        ensures
            final(self).wf(),
            final(self).id == old(self).id,
            final(self).as_map() == old(self).as_map().remove(key@),
    {
        let found = self.find(key);
        match found {
            Some(i) => {
                proof {
                    lemma_entries_remove(self.entries@, i as int);
                }
                self.entries.remove(i);
            },
            None => {
                proof {
                    assert(self.as_map() =~= self.as_map().remove(key@));
                }
            },
        }
    }
}

/// Whether some partition of the list carries the name `id`.
pub open spec fn part_has(parts: Seq<Partition>, id: PartitionId) -> bool {
    exists|i: int| 0 <= i < parts.len() && parts[i].id == id
}

/// The index of the partition named `id`.
pub open spec fn part_index(parts: Seq<Partition>, id: PartitionId) -> int {
    choose|i: int| 0 <= i < parts.len() && parts[i].id == id
}

/// Whether each partition name appears at most once.
pub open spec fn unique_ids(parts: Seq<Partition>) -> bool {
    forall|i: int, j: int| 0 <= i < j < parts.len() ==> parts[i].id != parts[j].id
}

/// The two-level map a partition list stands for.
pub open spec fn parts_map(parts: Seq<Partition>) -> Map<PartitionId, Map<Seq<char>, RecordV>> {
    Map::new(
        |id: PartitionId| part_has(parts, id),
        |id: PartitionId| parts[part_index(parts, id)].as_map(),
    )
}

/// With unique names, the partition at index `i` is the one the map holds
/// for its name.
pub proof fn lemma_part_at(parts: Seq<Partition>, i: int)
    requires
        unique_ids(parts),
        0 <= i < parts.len(),
    ensures
        part_has(parts, parts[i].id),
        part_index(parts, parts[i].id) == i,
        parts_map(parts).contains_key(parts[i].id),
        parts_map(parts)[parts[i].id] == parts[i].as_map(),
{
    assert(part_has(parts, parts[i].id));
    let j = part_index(parts, parts[i].id);
    assert(0 <= j < parts.len() && parts[j].id == parts[i].id);
    if i < j {
        assert(parts[i].id != parts[j].id);
    } else if j < i {
        assert(parts[j].id != parts[i].id);
    }
}

/// Replacing the partition at `i` by one with the same name updates the
/// two-level map at that name.
pub proof fn lemma_parts_update(parts: Seq<Partition>, i: int, p: Partition)
    requires
        unique_ids(parts),
        0 <= i < parts.len(),
        parts[i].id == p.id,
    ensures
        unique_ids(parts.update(i, p)),
        parts_map(parts.update(i, p)) == parts_map(parts).insert(p.id, p.as_map()),
{
    let updated = parts.update(i, p);
    assert(forall|j: int| 0 <= j < parts.len() ==> updated[j].id == parts[j].id);
    assert(unique_ids(updated));
    assert forall|id: PartitionId| part_has(updated, id) == part_has(parts, id) by {
        if part_has(updated, id) {
            let j = choose|j: int| 0 <= j < updated.len() && updated[j].id == id;
            assert(parts[j].id == id);
        }
        if part_has(parts, id) {
            let j = choose|j: int| 0 <= j < parts.len() && parts[j].id == id;
            assert(updated[j].id == id);
        }
    }
    assert(parts_map(updated) =~= parts_map(parts).insert(p.id, p.as_map())) by {
        assert forall|id: PartitionId| part_has(updated, id) implies parts_map(updated)[id]
            == parts_map(parts).insert(p.id, p.as_map())[id] by {
            let j = choose|j: int| 0 <= j < updated.len() && updated[j].id == id;
            lemma_part_at(updated, j);
            if id == p.id {
                lemma_part_at(updated, i);
            } else {
                assert(j != i);
                lemma_part_at(parts, j);
            }
        }
    }
}

/// Appending a partition with a fresh name inserts it into the two-level
/// map.
pub proof fn lemma_parts_push(parts: Seq<Partition>, p: Partition)
    requires
        unique_ids(parts),
        !part_has(parts, p.id),
    ensures
        unique_ids(parts.push(p)),
        parts_map(parts.push(p)) == parts_map(parts).insert(p.id, p.as_map()),
{
    let pushed = parts.push(p);
    assert forall|i: int, j: int| 0 <= i < j < pushed.len() implies pushed[i].id != pushed[j].id by {
        if j < parts.len() {
            assert(parts[i].id != parts[j].id);
        } else {
            assert(pushed[j] == p);
            if pushed[i].id == p.id {
                assert(part_has(parts, p.id));
            }
        }
    }
    assert forall|id: PartitionId| part_has(pushed, id) == (part_has(parts, id) || id == p.id) by {
        if part_has(pushed, id) {
            let j = choose|j: int| 0 <= j < pushed.len() && pushed[j].id == id;
            if j < parts.len() {
                assert(parts[j].id == id);
            }
        }
        if part_has(parts, id) {
            let j = choose|j: int| 0 <= j < parts.len() && parts[j].id == id;
            assert(pushed[j].id == id);
        }
        if id == p.id {
            assert(pushed[parts.len() as int].id == id);
        }
    }
    assert(parts_map(pushed) =~= parts_map(parts).insert(p.id, p.as_map())) by {
        assert forall|id: PartitionId| part_has(pushed, id) implies parts_map(pushed)[id]
            == parts_map(parts).insert(p.id, p.as_map())[id] by {
            let j = choose|j: int| 0 <= j < pushed.len() && pushed[j].id == id;
            lemma_part_at(pushed, j);
            if id == p.id {
                lemma_part_at(pushed, parts.len() as int);
            } else {
                assert(j < parts.len());
                lemma_part_at(parts, j);
            }
        }
    }
}

/// The mode a transaction was begun in.
#[derive(Clone, Copy, Debug, PartialEq, Eq, Structural)]
pub enum TxnMode {
    /// Reads only; staging a write fails with an access error.
    ReadOnly,
    /// Reads and writes.
    ReadWrite,
}

/// One staged write.
pub enum TxnOp {
    /// Insert or overwrite the record under a key of a partition.
    Put(PartitionId, String, Record),
    /// Remove the record under a key of a partition.
    Delete(PartitionId, String),
}

/// The mathematical value of a [`TxnOp`].
pub enum TxnOpV {
    Put(PartitionId, Seq<char>, RecordV),
    Delete(PartitionId, Seq<char>),
}

impl View for TxnOp {
    type V = TxnOpV;

    open spec fn view(&self) -> TxnOpV {
        match self {
            TxnOp::Put(id, key, value) => TxnOpV::Put(*id, key@, value@),
            TxnOp::Delete(id, key) => TxnOpV::Delete(*id, key@),
        }
    }
}

/// The partition a staged write touches.
pub open spec fn op_partition(op: TxnOpV) -> PartitionId {
    match op {
        TxnOpV::Put(id, _, _) => id,
        TxnOpV::Delete(id, _) => id,
    }
}

/// The views of a list of staged writes.
pub open spec fn ops_views(ops: Seq<TxnOp>) -> Seq<TxnOpV> {
    ops.map_values(|op: TxnOp| op@)
}

/// The effect of one staged write on the store's map.  A write to a
/// missing partition has no effect; [`Db::commit`] refuses such a
/// transaction outright.
pub open spec fn spec_apply_op(
    m: Map<PartitionId, Map<Seq<char>, RecordV>>,
    op: TxnOpV,
) -> Map<PartitionId, Map<Seq<char>, RecordV>> {
    match op {
        TxnOpV::Put(id, key, value) => {
            if m.contains_key(id) {
                m.insert(id, m[id].insert(key, value))
            } else {
                m
            }
        },
        TxnOpV::Delete(id, key) => {
            if m.contains_key(id) {
                m.insert(id, m[id].remove(key))
            } else {
                m
            }
        },
    }
}

/// The effect of a list of staged writes, applied in order.
pub open spec fn spec_apply_ops(
    m: Map<PartitionId, Map<Seq<char>, RecordV>>,
    ops: Seq<TxnOpV>,
) -> Map<PartitionId, Map<Seq<char>, RecordV>>
    decreases ops.len(),
{
    if ops.len() == 0 {
        m
    } else {
        spec_apply_op(spec_apply_ops(m, ops.drop_last()), ops.last())
    }
}

/// Whether every staged write touches a partition the store has.
pub open spec fn spec_ops_ok(
    m: Map<PartitionId, Map<Seq<char>, RecordV>>,
    ops: Seq<TxnOpV>,
) -> bool {
    forall|i: int| 0 <= i < ops.len() ==> m.contains_key(op_partition(#[trigger] ops[i]))
}

/// Applying one more staged write extends the fold by one step.
pub proof fn lemma_apply_ops_step(
    m: Map<PartitionId, Map<Seq<char>, RecordV>>,
    ops: Seq<TxnOpV>,
    i: int,
)
    requires
        0 <= i < ops.len(),
    ensures
        spec_apply_ops(m, ops.take(i + 1)) == spec_apply_op(spec_apply_ops(m, ops.take(i)), ops[i]),
{
    assert(ops.take(i + 1).drop_last() =~= ops.take(i));
    assert(ops.take(i + 1).last() == ops[i]);
}

/// A single staged write applies as one step of the fold.
pub proof fn lemma_apply_single(m: Map<PartitionId, Map<Seq<char>, RecordV>>, op: TxnOpV)
    ensures
        spec_apply_ops(m, seq![op]) == spec_apply_op(m, op),
{
    assert(seq![op].drop_last() =~= Seq::<TxnOpV>::empty());
    assert(spec_apply_ops(m, seq![op].drop_last()) == m);
}

/// A transaction: a mode and the writes staged so far.
pub struct Transaction {
    /// The mode the transaction was begun in.
    pub mode: TxnMode,
    /// The staged writes, in the order they will apply.
    pub ops: Vec<TxnOp>,
}

impl View for Transaction {
    type V = Seq<TxnOpV>;

    open spec fn view(&self) -> Seq<TxnOpV> {
        ops_views(self.ops@)
    }
}

impl Transaction {
    /// Begin a transaction with no staged writes.
    pub fn begin(mode: TxnMode) -> (r: Transaction)
        ensures
            r.mode == mode,
            r@ =~= Seq::<TxnOpV>::empty(),
    {
        Transaction { mode, ops: Vec::new() }
    }

    /// Stage an insert-or-overwrite.  Fails with an access error in a
    /// read-only transaction, staging nothing.
    pub fn put(&mut self, id: PartitionId, key: String, value: Record) -> (r: Result<
        (),
        CryptoStoreError,
    >)
        ensures
            final(self).mode == old(self).mode,
            match r {
                Ok(()) => old(self).mode == TxnMode::ReadWrite && final(self)@ =~= old(self)@.push(
                    TxnOpV::Put(id, key@, value@),
                ),
                Err(e) => old(self).mode == TxnMode::ReadOnly && e == CryptoStoreError::Access
                    && *final(self) == *old(self),
            },
    {
        match self.mode {
            TxnMode::ReadOnly => Err(CryptoStoreError::Access),
            TxnMode::ReadWrite => {
                self.ops.push(TxnOp::Put(id, key, value));
                proof {
                    assert(self@ =~= old(self)@.push(TxnOpV::Put(id, key@, value@)));
                }
                Ok(())
            },
        }
    }

    /// Stage a removal.  Fails with an access error in a read-only
    /// transaction, staging nothing.
    pub fn delete(&mut self, id: PartitionId, key: String) -> (r: Result<(), CryptoStoreError>)
        ensures
            final(self).mode == old(self).mode,
            match r {
                Ok(()) => old(self).mode == TxnMode::ReadWrite && final(self)@ =~= old(self)@.push(
                    TxnOpV::Delete(id, key@),
                ),
                Err(e) => old(self).mode == TxnMode::ReadOnly && e == CryptoStoreError::Access
                    && *final(self) == *old(self),
            },
    {
        match self.mode {
            TxnMode::ReadOnly => Err(CryptoStoreError::Access),
            TxnMode::ReadWrite => {
                self.ops.push(TxnOp::Delete(id, key));
                proof {
                    assert(self@ =~= old(self)@.push(TxnOpV::Delete(id, key@)));
                }
                Ok(())
            },
        }
    }
}

/// The partitioned store itself.
pub struct Db {
    /// The schema version the store was opened at.
    pub version: u32,
    /// The partitions, each name held at most once.
    pub partitions: Vec<Partition>,
}

impl View for Db {
    type V = Map<PartitionId, Map<Seq<char>, RecordV>>;

    open spec fn view(&self) -> Map<PartitionId, Map<Seq<char>, RecordV>> {
        parts_map(self.partitions@)
    }
}

impl Db {
    /// Partition names unique, every partition well-formed.
    pub open spec fn wf(self) -> bool {
        &&& unique_ids(self.partitions@)
        &&& forall|i: int|
            0 <= i < self.partitions@.len() ==> (#[trigger] self.partitions@[i]).wf()
    }

    /// Find the index of the partition named `id`, if any.
    pub fn find_partition(&self, id: PartitionId) -> (r: Option<usize>)
        requires
            self.wf(),
        ensures
            match r {
                Some(i) => {
                    &&& i < self.partitions@.len()
                    &&& self.partitions@[i as int].id == id
                    &&& self@.contains_key(id)
                    &&& self@[id] == self.partitions@[i as int].as_map()
                },
                None => !self@.contains_key(id),
            },
    {
        let mut i: usize = 0;
        while i < self.partitions.len()
            invariant
                self.wf(),
                i <= self.partitions@.len(),
                forall|j: int| 0 <= j < i ==> self.partitions@[j].id != id,
            decreases self.partitions@.len() - i,
        {
            if self.partitions[i].id == id {
                proof {
                    lemma_part_at(self.partitions@, i as int);
                }
                return Some(i);
            }
            i = i + 1;
        }
        None
    }

    /// Read the record under `key` in partition `id`, if the partition and
    /// the key exist.
    pub fn get<'a>(&'a self, id: PartitionId, key: &String) -> (r: Option<&'a Record>)
        requires
            self.wf(),
        ensures
            match r {
                Some(record) => {
                    &&& self@.contains_key(id)
                    &&& self@[id].contains_key(key@)
                    &&& record@ == self@[id][key@]
                },
                None => !self@.contains_key(id) || !self@[id].contains_key(key@),
            },
    {
        let found = self.find_partition(id);
        match found {
            Some(pi) => {
                let part = &self.partitions[pi];
                let found_key = part.find(key);
                match found_key {
                    Some(ei) => Some(&part.entries[ei].1),
                    None => None,
                }
            },
            None => None,
        }
    }

    /// Replace the partition at index `pi` after an insert of `value`
    /// under `key`.
    fn apply_put(&mut self, pi: usize, key: String, value: Record)
        requires
            old(self).wf(),
            pi < old(self).partitions@.len(),
        ensures
            final(self).wf(),
            final(self).version == old(self).version,
            final(self)@ == old(self)@.insert(
                old(self).partitions@[pi as int].id,
                old(self).partitions@[pi as int].as_map().insert(key@, value@),
            ),
            final(self)@.dom() == old(self)@.dom(),
    {
        let mut part = self.partitions.remove(pi);
        part.put(key, value);
        proof {
            lemma_parts_update(old(self).partitions@, pi as int, part);
            assert(old(self).partitions@.remove(pi as int).insert(pi as int, part)
                =~= old(self).partitions@.update(pi as int, part));
            lemma_part_at(old(self).partitions@, pi as int);
        }
        self.partitions.insert(pi, part);
        proof {
            assert(self@.dom() =~= old(self)@.dom());
        }
    }

    /// Replace the partition at index `pi` after a removal of `key`.
    fn apply_delete(&mut self, pi: usize, key: &String)
        requires
            old(self).wf(),
            pi < old(self).partitions@.len(),
        ensures
            final(self).wf(),
            final(self).version == old(self).version,
            final(self)@ == old(self)@.insert(
                old(self).partitions@[pi as int].id,
                old(self).partitions@[pi as int].as_map().remove(key@),
            ),
            final(self)@.dom() == old(self)@.dom(),
    {
        let mut part = self.partitions.remove(pi);
        part.remove_key(key);
        proof {
            lemma_parts_update(old(self).partitions@, pi as int, part);
            assert(old(self).partitions@.remove(pi as int).insert(pi as int, part)
                =~= old(self).partitions@.update(pi as int, part));
            lemma_part_at(old(self).partitions@, pi as int);
        }
        self.partitions.insert(pi, part);
        proof {
            assert(self@.dom() =~= old(self)@.dom());
        }
    }

    /// Apply a transaction's staged writes, all or nothing.
    ///
    /// When every staged write names a partition the store has, all of
    /// them apply, in order.  Otherwise nothing changes and the commit
    /// fails with a store error.  Committing a read-only transaction is a
    /// no-op: nothing can be staged into one.
    pub fn commit(&mut self, txn: Transaction) -> (r: Result<(), CryptoStoreError>)
        requires
            old(self).wf(),
        ensures
            final(self).wf(),
            final(self).version == old(self).version,
            match r {
                Ok(()) => {
                    &&& spec_ops_ok(old(self)@, txn@)
                    &&& final(self)@ == spec_apply_ops(old(self)@, txn@)
                    &&& final(self)@.dom() == old(self)@.dom()
                },
                Err(e) => {
                    &&& *final(self) == *old(self)
                    &&& e == CryptoStoreError::Store
                    &&& !spec_ops_ok(old(self)@, txn@)
                },
            },
    {
        let ghost all_ops = txn@;
        // First pass: refuse the whole transaction if any staged write
        // names a missing partition.
        let mut i: usize = 0;
        while i < txn.ops.len()
            invariant
                self.wf(),
                *self == *old(self),
                all_ops == txn@,
                i <= txn.ops@.len(),
                forall|j: int| 0 <= j < i ==> self@.contains_key(op_partition(#[trigger] all_ops[j])),
            decreases txn.ops@.len() - i,
        {
            let id = match &txn.ops[i] {
                TxnOp::Put(id, _, _) => *id,
                TxnOp::Delete(id, _) => *id,
            };
            let found = self.find_partition(id);
            if found.is_none() {
                proof {
                    assert(op_partition(all_ops[i as int]) == id);
                    assert(!spec_ops_ok(old(self)@, txn@));
                }
                return Err(CryptoStoreError::Store);
            }
            i = i + 1;
        }
        proof {
            assert(spec_ops_ok(old(self)@, all_ops));
        }
        // Second pass: apply every staged write in order.
        let mut txn = txn;
        while txn.ops.len() > 0
            invariant
                self.wf(),
                self.version == old(self).version,
                spec_ops_ok(old(self)@, all_ops),
                self@.dom() == old(self)@.dom(),
                txn.ops@.len() <= all_ops.len(),
                ops_views(txn.ops@) =~= all_ops.subrange(
                    all_ops.len() - txn.ops@.len(),
                    all_ops.len() as int,
                ),
                self@ == spec_apply_ops(old(self)@, all_ops.take(all_ops.len() - txn.ops@.len())),
            decreases txn.ops@.len(),
        {
            let ghost done = all_ops.len() - txn.ops@.len();
            let ghost pre_ops = txn.ops@;
            let op = txn.ops.remove(0);
            let ghost opv = op@;
            proof {
                assert(0 <= done < all_ops.len());
                assert(ops_views(pre_ops)[0] == pre_ops[0]@);
                assert(opv == all_ops[done]);
                assert(txn.ops@ =~= pre_ops.subrange(1, pre_ops.len() as int));
                assert forall|j: int| 0 <= j < txn.ops@.len() implies ops_views(txn.ops@)[j]
                    == all_ops[done + 1 + j] by {
                    assert(txn.ops@[j] == pre_ops[j + 1]);
                    assert(ops_views(pre_ops)[j + 1] == pre_ops[j + 1]@);
                }
                assert(ops_views(txn.ops@) =~= all_ops.subrange(done + 1, all_ops.len() as int));
                assert(old(self)@.contains_key(op_partition(all_ops[done])));
            }
            let ghost prev = self@;
            match op {
                TxnOp::Put(id, key, value) => {
                    let ghost keyv = key@;
                    let ghost valuev = value@;
                    proof {
                        assert(opv == TxnOpV::Put(id, keyv, valuev));
                    }
                    let found = self.find_partition(id);
                    match found {
                        Some(pi) => {
                            self.apply_put(pi, key, value);
                            proof {
                                assert(self@ == spec_apply_op(prev, opv));
                            }
                        },
                        None => {
                            proof {
                                assert(false);
                            }
                            return Err(CryptoStoreError::Store);
                        },
                    }
                },
                TxnOp::Delete(id, key) => {
                    let ghost keyv = key@;
                    proof {
                        assert(opv == TxnOpV::Delete(id, keyv));
                    }
                    let found = self.find_partition(id);
                    match found {
                        Some(pi) => {
                            self.apply_delete(pi, &key);
                            proof {
                                assert(self@ == spec_apply_op(prev, opv));
                            }
                        },
                        None => {
                            proof {
                                assert(false);
                            }
                            return Err(CryptoStoreError::Store);
                        },
                    }
                },
            }
            proof {
                lemma_apply_ops_step(old(self)@, all_ops, done);
                assert(self@ == spec_apply_ops(old(self)@, all_ops.take(done + 1)));
            }
        }
        proof {
            assert(all_ops.take(all_ops.len() as int) =~= all_ops);
        }
        Ok(())
    }
}

/// The set of names in a partition list.
pub open spec fn ids_set(ids: Seq<PartitionId>) -> Set<PartitionId> {
    Set::new(|id: PartitionId| ids.contains(id))
}

/// Taking one more name adds exactly that name to the set.
pub proof fn lemma_ids_set_take_step(ids: Seq<PartitionId>, i: int)
    requires
        0 <= i < ids.len(),
    ensures
        ids_set(ids.take(i + 1)) == ids_set(ids.take(i)).insert(ids[i]),
{
    assert forall|x: PartitionId|
        ids_set(ids.take(i + 1)).contains(x) == ids_set(ids.take(i)).insert(ids[i]).contains(
            x,
        ) by {
        let taken = ids.take(i + 1);
        let prefix = ids.take(i as int);
        if taken.contains(x) {
            let j = choose|j: int| 0 <= j < taken.len() && #[trigger] taken[j] == x;
            if j < i {
                assert(prefix[j] == x);
                assert(prefix.contains(x));
            } else {
                assert(x == ids[i]);
            }
        }
        if prefix.contains(x) {
            let j = choose|j: int| 0 <= j < prefix.len() && #[trigger] prefix[j] == x;
            assert(taken[j] == x);
            assert(taken.contains(x));
        }
        if x == ids[i] {
            assert(taken[i] == x);
            assert(taken.contains(x));
        }
    }
    assert(ids_set(ids.take(i + 1)) =~= ids_set(ids.take(i)).insert(ids[i]));
}

impl Db {
    /// Open the store at schema version `version`, migrating as needed:
    /// every partition named in `ids` that is missing is created empty,
    /// and all data already present is preserved.  `previous` is the store
    /// as the last session left it, or `None` on first use.
    ///
    /// Fails when the data on disk was written by a newer schema.
    /// Migration is idempotent: opening an already-current store that has
    /// every named partition changes nothing.
    pub fn open(previous: Option<Db>, version: u32, ids: &Vec<PartitionId>) -> (r: Result<
        Db,
        CryptoStoreError,
    >)
        requires
            match previous {
                Some(db) => db.wf(),
                None => true,
            },
        ensures
            match r {
                Ok(db) => {
                    &&& db.wf()
                    &&& db.version == version
                    &&& match previous {
                        None => {
                            &&& db@.dom() == ids_set(ids@)
                            &&& forall|id: PartitionId|
                                db@.contains_key(id) ==> db@[id] == Map::<
                                    Seq<char>,
                                    RecordV,
                                >::empty()
                        },
                        Some(prev) => {
                            &&& prev.version <= version
                            &&& db@.dom() == prev@.dom() + ids_set(ids@)
                            &&& forall|id: PartitionId|
                                prev@.contains_key(id) ==> db@[id] == prev@[id]
                            &&& forall|id: PartitionId|
                                !prev@.contains_key(id) && db@.contains_key(id) ==> db@[id]
                                    == Map::<Seq<char>, RecordV>::empty()
                            &&& (prev.version == version && ids_set(ids@) <= prev@.dom()
                                ==> db@ == prev@)
                        },
                    }
                },
                Err(e) => {
                    &&& e == CryptoStoreError::Open
                    &&& match previous {
                        Some(prev) => prev.version > version,
                        None => false,
                    }
                },
            },
    {
        let ghost was_previous = previous is Some;
        let mut db = match previous {
            Some(prev) => {
                if prev.version > version {
                    return Err(CryptoStoreError::Open);
                }
                let mut d = prev;
                d.version = version;
                d
            },
            None => Db { version, partitions: Vec::new() },
        };
        let ghost base = db@;
        proof {
            if !was_previous {
                assert(base =~= Map::<PartitionId, Map<Seq<char>, RecordV>>::empty());
            }
        }
        let mut i: usize = 0;
        while i < ids.len()
            invariant
                db.wf(),
                db.version == version,
                i <= ids@.len(),
                db@.dom() == base.dom() + ids_set(ids@.take(i as int)),
                forall|id: PartitionId| base.contains_key(id) ==> db@[id] == base[id],
                forall|id: PartitionId|
                    !base.contains_key(id) && db@.contains_key(id) ==> db@[id] == Map::<
                        Seq<char>,
                        RecordV,
                    >::empty(),
            decreases ids@.len() - i,
        {
            let id = ids[i];
            let found = db.find_partition(id);
            match found {
                Some(_) => {
                    proof {
                        lemma_ids_set_take_step(ids@, i as int);
                        assert(db@.dom() =~= base.dom() + ids_set(ids@.take(i + 1)));
                    }
                },
                None => {
                    let fresh = Partition::empty(id);
                    proof {
                        lemma_parts_push(db.partitions@, fresh);
                        lemma_ids_set_take_step(ids@, i as int);
                    }
                    db.partitions.push(fresh);
                    proof {
                        assert(db@.dom() =~= base.dom() + ids_set(ids@.take(i + 1)));
                    }
                },
            }
            i = i + 1;
        }
        proof {
            assert(ids@.take(ids@.len() as int) =~= ids@);
            if was_previous && db.version == version && ids_set(ids@) <= base.dom() {
                assert(db@.dom() =~= base.dom());
                assert(db@ =~= base);
            }
        }
        Ok(db)
    }
}

} // verus!
