//! The device store: per-user directories of remote device records.
//!
//! A save replaces each device's whole record under its (user, device)
//! key — new devices are added, existing ones overwritten in place, never
//! merged field by field — and one `save_devices` call commits every
//! record in a single transaction.  Deleting a device removes its record;
//! lookups afterwards answer "absent".  A directory lists every device
//! saved for the user, marked-deleted ones included: callers decide
//! whether to filter.

use vstd::prelude::*;

use crate::codec;
use crate::codec::Kind;
use crate::errors::CryptoStoreError;
use crate::kv;
use crate::kv::{PartitionId, Record, RecordV, Transaction, TxnMode, TxnOpV};
use crate::store::{
    lemma_identities_frame, lemma_rooms_frame, lemma_sessions_frame, lemma_tracked_frame,
    open_device_v, sealed_device_v, spec_devices, wf_device_items, wf_devices_map, Cryptostore,
    StoreMap,
};
use crate::types::{Device, DeviceV};

verus! {

/// Whether some record of the directory carries the device id.
pub open spec fn has_did(items: Seq<DeviceV>, did: Seq<char>) -> bool {
    exists|i: int| 0 <= i < items.len() && (#[trigger] items[i]).device_id == did
}

/// The index of the record carrying the device id.
pub open spec fn did_index(items: Seq<DeviceV>, did: Seq<char>) -> int {
    choose|i: int| 0 <= i < items.len() && (#[trigger] items[i]).device_id == did
}

/// Whether each device id appears at most once.
pub open spec fn unique_dids(items: Seq<DeviceV>) -> bool {
    forall|i: int, j: int| 0 <= i < j < items.len() ==> items[i].device_id != items[j].device_id
}

/// The directory with the record of that id taken out, if present.
pub open spec fn remove_did(items: Seq<DeviceV>, did: Seq<char>) -> Seq<DeviceV> {
    if has_did(items, did) {
        items.remove(did_index(items, did))
    } else {
        items
    }
}

/// One record saved into a directory: overwritten in place if its id was
/// present, appended otherwise.
pub open spec fn upsert_device(items: Seq<DeviceV>, d: DeviceV) -> Seq<DeviceV> {
    if has_did(items, d.device_id) {
        items.update(did_index(items, d.device_id), d)
    } else {
        items.push(d)
    }
}

/// One record saved into the model, under its user.
pub open spec fn upsert_device_map(m: Map<Seq<char>, Seq<DeviceV>>, d: DeviceV) -> Map<
    Seq<char>,
    Seq<DeviceV>,
> {
    let base = if m.contains_key(d.user_id) {
        m[d.user_id]
    } else {
        Seq::empty()
    };
    m.insert(d.user_id, upsert_device(base, d))
}

/// A batch of records saved into the model, in order.
pub open spec fn upsert_devices(m: Map<Seq<char>, Seq<DeviceV>>, ds: Seq<DeviceV>) -> Map<
    Seq<char>,
    Seq<DeviceV>,
>
    decreases ds.len(),
{
    if ds.len() == 0 {
        m
    } else {
        upsert_device_map(upsert_devices(m, ds.drop_last()), ds.last())
    }
}

/// Saving one more record extends the fold by one step.
pub proof fn lemma_upsert_devices_step(m: Map<Seq<char>, Seq<DeviceV>>, ds: Seq<DeviceV>, i: int)
    requires
        0 <= i < ds.len(),
    ensures
        upsert_devices(m, ds.take(i + 1)) == upsert_device_map(
            upsert_devices(m, ds.take(i)),
            ds[i],
        ),
{
    assert(ds.take(i + 1).drop_last() =~= ds.take(i));
    assert(ds.take(i + 1).last() == ds[i]);
}

/// With unique ids, the record at index `i` is the one its id finds.
pub proof fn lemma_did_at(items: Seq<DeviceV>, i: int)
    requires
        unique_dids(items),
        0 <= i < items.len(),
    ensures
        has_did(items, items[i].device_id),
        did_index(items, items[i].device_id) == i,
{
    assert(has_did(items, items[i].device_id));
    let j = did_index(items, items[i].device_id);
    if i < j {
        assert(items[i].device_id != items[j].device_id);
    } else if j < i {
        assert(items[j].device_id != items[i].device_id);
    }
}

/// The views of a stored directory with every pickle unsealed.
pub open spec fn opened_devices(items: Seq<DeviceV>) -> Seq<DeviceV> {
    items.map_values(|d: DeviceV| open_device_v(d))
}

/// Unsealing touches only the pickles, so id lookups, updates, removals
/// and appends agree between a stored directory and its unsealed view.
pub proof fn lemma_open_upsert_device(items: Seq<DeviceV>, sealed: DeviceV, opened_d: DeviceV)
    requires
        unique_dids(items),
        open_device_v(sealed) == opened_d,
        sealed.device_id == opened_d.device_id,
    ensures
        unique_dids(opened_devices(items)),
        has_did(opened_devices(items), sealed.device_id) == has_did(items, sealed.device_id),
        opened_devices(upsert_device(items, sealed)) == upsert_device(
            opened_devices(items),
            opened_d,
        ),
        unique_dids(upsert_device(items, sealed)),
{
    let opened = opened_devices(items);
    assert(forall|i: int|
        0 <= i < items.len() ==> (#[trigger] opened[i]).device_id == items[i].device_id
            && opened[i].user_id == items[i].user_id);
    assert(unique_dids(opened));
    let did = sealed.device_id;
    if has_did(items, did) {
        let i = did_index(items, did);
        lemma_did_at(items, i);
        assert(opened[i].device_id == did);
        assert(has_did(opened, did));
        lemma_did_at(opened, i);
        assert(opened_devices(items.update(i, sealed)) =~= opened.update(i, opened_d));
        let updated = items.update(i, sealed);
        assert(forall|j: int|
            0 <= j < items.len() ==> (#[trigger] updated[j]).device_id == items[j].device_id);
        assert(unique_dids(updated));
    } else {
        if has_did(opened, did) {
            let i = did_index(opened, did);
            assert(items[i].device_id == did);
        }
        assert(opened_devices(items.push(sealed)) =~= opened.push(opened_d));
        let pushed = items.push(sealed);
        assert forall|a: int, b: int| 0 <= a < b < pushed.len() implies pushed[a].device_id
            != pushed[b].device_id by {
            if b < items.len() {
                assert(items[a].device_id != items[b].device_id);
            } else {
                assert(pushed[b] == sealed);
                if pushed[a].device_id == did {
                    assert(has_did(items, did));
                }
            }
        }
    }
}

/// The same agreement for removals.
pub proof fn lemma_open_remove_did(items: Seq<DeviceV>, did: Seq<char>)
    requires
        unique_dids(items),
    ensures
        unique_dids(opened_devices(items)),
        has_did(opened_devices(items), did) == has_did(items, did),
        opened_devices(remove_did(items, did)) == remove_did(opened_devices(items), did),
        unique_dids(remove_did(items, did)),
        !has_did(remove_did(items, did), did),
{
    let opened = opened_devices(items);
    assert(forall|i: int|
        0 <= i < items.len() ==> (#[trigger] opened[i]).device_id == items[i].device_id);
    assert(unique_dids(opened));
    if has_did(items, did) {
        let i = did_index(items, did);
        lemma_did_at(items, i);
        assert(opened[i].device_id == did);
        assert(has_did(opened, did));
        lemma_did_at(opened, i);
        assert(opened_devices(items.remove(i)) =~= opened.remove(i));
        let removed = items.remove(i);
        assert forall|a: int, b: int| 0 <= a < b < removed.len() implies removed[a].device_id
            != removed[b].device_id by {
            let a0: int = if a < i {
                a
            } else {
                a + 1
            };
            let b0: int = if b < i {
                b
            } else {
                b + 1
            };
            assert(items[a0].device_id != items[b0].device_id);
        }
        assert forall|a: int| 0 <= a < removed.len() implies removed[a].device_id != did by {
            let a0: int = if a < i {
                a
            } else {
                a + 1
            };
            assert(removed[a] == items[a0]);
            if items[a0].device_id == did {
                lemma_did_at(items, a0);
            }
        }
        if has_did(removed, did) {
            let a = did_index(removed, did);
            assert(removed[a].device_id != did);
        }
    } else {
        if has_did(opened, did) {
            let i = did_index(opened, did);
            assert(items[i].device_id == did);
        }
    }
}

/// The device record the model holds under (user, device id), if any.
pub open spec fn device_lookup(
    m: Map<Seq<char>, Seq<DeviceV>>,
    user: Seq<char>,
    did: Seq<char>,
) -> Option<DeviceV> {
    if m.contains_key(user) && has_did(m[user], did) {
        Some(m[user][did_index(m[user], did)])
    } else {
        None
    }
}

impl Cryptostore {
    /// The device model: (user, device id) to record.
    pub open spec fn device(self, user: Seq<char>, did: Seq<char>) -> Option<DeviceV> {
        device_lookup(self.devices(), user, did)
    }
}

/// Find the index of the record carrying the device id, if any.
fn find_did_index(items: &Vec<Device>, did: &String) -> (r: Option<usize>)
    ensures
        match r {
            Some(i) => i < items@.len() && items@[i as int]@.device_id == did@,
            None => !has_did(items@.map_values(|d: Device| d@), did@),
        },
{
    let ghost views = items@.map_values(|d: Device| d@);
    let mut i: usize = 0;
    while i < items.len()
        invariant
            i <= items@.len(),
            views == items@.map_values(|d: Device| d@),
            forall|j: int| 0 <= j < i ==> (#[trigger] views[j]).device_id != did@,
        decreases items@.len() - i,
    {
        let item = &items[i];
        if item.device_id == *did {
            return Some(i);
        }
        i = i + 1;
    }
    None
}

/// Copy a directory.
fn duplicate_device_list(items: &Vec<Device>) -> (r: Vec<Device>)
    ensures
        r@.len() == items@.len(),
        forall|i: int| 0 <= i < items@.len() ==> (#[trigger] r@[i])@ == items@[i]@,
{
    let mut r: Vec<Device> = Vec::new();
    let mut i: usize = 0;
    while i < items.len()
        invariant
            i <= items@.len(),
            r@.len() == i,
            forall|j: int| 0 <= j < i ==> (#[trigger] r@[j])@ == items@[j]@,
        decreases items@.len() - i,
    {
        r.push(items[i].duplicate());
        i = i + 1;
    }
    r
}

/// Overwrite-or-append `d` into a stored directory, in place.
fn upsert_stored_device(list: &mut Vec<Device>, d: Device)
    requires
        unique_dids(old(list)@.map_values(|x: Device| x@)),
    ensures
        final(list)@.map_values(|x: Device| x@) == upsert_device(
            old(list)@.map_values(|x: Device| x@),
            d@,
        ),
{
    let ghost views0 = list@.map_values(|x: Device| x@);
    let ghost dv = d@;
    let found = find_did_index(list, &d.device_id);
    match found {
        Some(i) => {
            proof {
                lemma_did_at(views0, i as int);
            }
            list.set(i, d);
            proof {
                assert(list@.map_values(|x: Device| x@) =~= views0.update(i as int, dv));
            }
        },
        None => {
            list.push(d);
            proof {
                assert(list@.map_values(|x: Device| x@) =~= views0.push(dv));
            }
        },
    }
}

/// A device record as it is written: identifiers and flag copied, pickle
/// sealed.
fn seal_device(d: &Device) -> (r: Device)
    ensures
        r@ == sealed_device_v(d@),
{
    Device {
        user_id: d.user_id.clone(),
        device_id: d.device_id.clone(),
        deleted: d.deleted,
        pickle: codec::seal(Kind::Device, &d.pickle),
    }
}

/// Whether some staged directory carries the user key.
pub open spec fn dstaged_has(st: Seq<(String, Vec<Device>)>, k: Seq<char>) -> bool {
    exists|j: int| 0 <= j < st.len() && (#[trigger] st[j]).0@ == k
}

/// The index of the staged directory carrying the user key.
pub open spec fn dstaged_index(st: Seq<(String, Vec<Device>)>, k: Seq<char>) -> int {
    choose|j: int| 0 <= j < st.len() && (#[trigger] st[j]).0@ == k
}

/// Whether each staged user key appears at most once.
pub open spec fn dstaged_unique(st: Seq<(String, Vec<Device>)>) -> bool {
    forall|a: int, b: int| 0 <= a < b < st.len() ==> st[a].0@ != st[b].0@
}

/// The stored views of one staged directory.
pub open spec fn dstaged_views(entry: (String, Vec<Device>)) -> Seq<DeviceV> {
    entry.1@.map_values(|x: Device| x@)
}

/// One staged directory is coherent with the target model.
pub open spec fn dstaged_entry_ok(
    entry: (String, Vec<Device>),
    target: Map<Seq<char>, Seq<DeviceV>>,
) -> bool {
    &&& wf_device_items(dstaged_views(entry), entry.0@)
    &&& target.contains_key(entry.0@)
    &&& opened_devices(dstaged_views(entry)) == target[entry.0@]
}

/// The staged writes, one put per staged directory, in order.
pub open spec fn dstaged_ops(st: Seq<(String, Vec<Device>)>) -> Seq<TxnOpV> {
    st.map_values(
        |p: (String, Vec<Device>)| TxnOpV::Put(
            PartitionId::Devices,
            p.0@,
            RecordV::Devices(dstaged_views(p)),
        ),
    )
}

/// The devices partition after the staged directories are written over
/// it.
pub open spec fn dstaged_records(
    base: Map<Seq<char>, RecordV>,
    st: Seq<(String, Vec<Device>)>,
) -> Map<Seq<char>, RecordV>
    decreases st.len(),
{
    if st.len() == 0 {
        base
    } else {
        dstaged_records(base, st.drop_last()).insert(
            st.last().0@,
            RecordV::Devices(dstaged_views(st.last())),
        )
    }
}

/// Applying the staged writes replaces the devices partition by the
/// staged records and touches nothing else.
pub proof fn lemma_dstaged_apply(m: StoreMap, st: Seq<(String, Vec<Device>)>)
    requires
        m.contains_key(PartitionId::Devices),
    ensures
        kv::spec_apply_ops(m, dstaged_ops(st)) == m.insert(
            PartitionId::Devices,
            dstaged_records(m[PartitionId::Devices], st),
        ),
    decreases st.len(),
{
    if st.len() == 0 {
        assert(m.insert(PartitionId::Devices, m[PartitionId::Devices]) =~= m);
    } else {
        lemma_dstaged_apply(m, st.drop_last());
        assert(dstaged_ops(st).drop_last() =~= dstaged_ops(st.drop_last()));
        let prev = kv::spec_apply_ops(m, dstaged_ops(st.drop_last()));
        assert(kv::spec_apply_ops(m, dstaged_ops(st)) == kv::spec_apply_op(
            prev,
            dstaged_ops(st).last(),
        ));
        assert(dstaged_ops(st).last() == TxnOpV::Put(
            PartitionId::Devices,
            st.last().0@,
            RecordV::Devices(dstaged_views(st.last())),
        ));
        assert(kv::spec_apply_ops(m, dstaged_ops(st)) =~= m.insert(
            PartitionId::Devices,
            dstaged_records(m[PartitionId::Devices], st),
        ));
    }
}

/// What the staged records hold at each key.
pub proof fn lemma_dstaged_records_at(
    base: Map<Seq<char>, RecordV>,
    st: Seq<(String, Vec<Device>)>,
    k: Seq<char>,
)
    requires
        dstaged_unique(st),
    ensures
        dstaged_records(base, st).contains_key(k) == (base.contains_key(k) || dstaged_has(st, k)),
        dstaged_has(st, k) ==> dstaged_records(base, st)[k] == RecordV::Devices(
            dstaged_views(st[dstaged_index(st, k)]),
        ),
        !dstaged_has(st, k) ==> (base.contains_key(k) ==> dstaged_records(base, st)[k] == base[k]),
    decreases st.len(),
{
    if st.len() > 0 {
        let front = st.drop_last();
        assert(dstaged_unique(front));
        lemma_dstaged_records_at(base, front, k);
        if dstaged_has(front, k) {
            let j = choose|j: int| 0 <= j < front.len() && (#[trigger] front[j]).0@ == k;
            assert(st[j].0@ == k);
            assert(dstaged_has(st, k));
        }
        if k == st.last().0@ {
            assert(st[st.len() - 1].0@ == k);
            assert(dstaged_has(st, k));
            let j = dstaged_index(st, k);
            assert(0 <= j < st.len() && st[j].0@ == k);
            if j < st.len() - 1 {
                assert(st[j].0@ != st[st.len() - 1].0@);
            }
            assert(j == st.len() - 1);
        } else {
            if dstaged_has(st, k) {
                let j = dstaged_index(st, k);
                assert(0 <= j < st.len() && st[j].0@ == k);
                assert(j < st.len() - 1);
                assert(front[j].0@ == k);
                assert(dstaged_has(front, k));
                let j2 = dstaged_index(front, k);
                assert(0 <= j2 < front.len() && front[j2].0@ == k);
                if j2 < j {
                    assert(st[j2].0@ != st[j].0@);
                } else if j < j2 {
                    assert(st[j].0@ != st[j2].0@);
                }
                assert(dstaged_views(front[j2]) == dstaged_views(st[j]));
            } else {
                if dstaged_has(front, k) {
                    assert(dstaged_has(st, k));
                }
            }
        }
    }
}

/// Find the index of the staged directory carrying the user key, if any.
fn dstaged_find(st: &Vec<(String, Vec<Device>)>, key: &String) -> (r: Option<usize>)
    ensures
        match r {
            Some(i) => i < st@.len() && st@[i as int].0@ == key@,
            None => !dstaged_has(st@, key@),
        },
{
    let mut i: usize = 0;
    while i < st.len()
        invariant
            i <= st@.len(),
            forall|j: int| 0 <= j < i ==> (#[trigger] st@[j]).0@ != key@,
        decreases st@.len() - i,
    {
        if st[i].0 == *key {
            return Some(i);
        }
        i = i + 1;
    }
    None
}

impl Cryptostore {
    /// Persist a batch of device records, in order, atomically: each one
    /// fully replaces any record stored under its (user, device id), or
    /// is added.  Either every record in the batch becomes visible or
    /// none does.  No other store is touched.
    pub fn save_devices(&mut self, devices: &Vec<Device>) -> (r: Result<(), CryptoStoreError>)
        requires
            old(self).wf(),
        ensures
            final(self).wf(),
            r is Ok,
            final(self).devices() == upsert_devices(
                old(self).devices(),
                devices@.map_values(|d: Device| d@),
            ),
            final(self).account() == old(self).account(),
            final(self).sessions() == old(self).sessions(),
            final(self).rooms() == old(self).rooms(),
            final(self).identities() == old(self).identities(),
            final(self).tracked_users() == old(self).tracked_users(),
    {
        let ghost minit = old(self).devices();
        let ghost inputs = devices@.map_values(|d: Device| d@);
        let ghost m0 = old(self).db@;
        let mut staged: Vec<(String, Vec<Device>)> = Vec::new();
        let mut i: usize = 0;
        while i < devices.len()
            invariant
                self.wf(),
                *self == *old(self),
                minit == spec_devices(self.db@),
                inputs == devices@.map_values(|d: Device| d@),
                i <= inputs.len(),
                dstaged_unique(staged@),
                forall|j: int|
                    0 <= j < staged@.len() ==> dstaged_entry_ok(
                        #[trigger] staged@[j],
                        upsert_devices(minit, inputs.take(i as int)),
                    ),
                forall|k: Seq<char>|
                    #![trigger dstaged_has(staged@, k)]
                    !dstaged_has(staged@, k) ==> (upsert_devices(
                        minit,
                        inputs.take(i as int),
                    ).contains_key(k) == minit.contains_key(k) && (minit.contains_key(k)
                        ==> upsert_devices(minit, inputs.take(i as int))[k] == minit[k])),
            decreases inputs.len() - i,
        {
            let d = &devices[i];
            let ghost dv = inputs[i as int];
            let ghost target_cur = upsert_devices(minit, inputs.take(i as int));
            let ghost target_next = upsert_devices(minit, inputs.take(i + 1));
            proof {
                lemma_upsert_devices_step(minit, inputs, i as int);
                assert(target_next == upsert_device_map(target_cur, dv));
                assert(dv == d@);
            }
            let sealed = seal_device(d);
            let ghost sealedv = sealed@;
            proof {
                codec::lemma_seal_round_trip(Kind::Device, d.pickle@);
                assert(open_device_v(sealedv) == dv);
            }
            let found = dstaged_find(&staged, &d.user_id);
            match found {
                Some(j) => {
                    let ghost st_before = staged@;
                    let pair = staged.remove(j);
                    let key_string = pair.0;
                    let mut list = pair.1;
                    let ghost lv0 = list@.map_values(|x: Device| x@);
                    proof {
                        assert(dstaged_entry_ok(st_before[j as int], target_cur));
                        assert(lv0 == dstaged_views(st_before[j as int]));
                        assert(wf_device_items(lv0, dv.user_id));
                        assert(unique_dids(lv0));
                    }
                    upsert_stored_device(&mut list, sealed);
                    let ghost lv1 = list@.map_values(|x: Device| x@);
                    proof {
                        assert(lv1 == upsert_device(lv0, sealedv));
                        lemma_open_upsert_device(lv0, sealedv, dv);
                        assert(opened_devices(lv1) == target_next[dv.user_id]);
                        assert(wf_device_items(lv1, dv.user_id)) by {
                            if has_did(lv0, dv.device_id) {
                                let ui = did_index(lv0, dv.device_id);
                                lemma_did_at(lv0, ui);
                                assert(forall|a: int|
                                    0 <= a < lv1.len() ==> (#[trigger] lv1[a]).user_id
                                        == dv.user_id && codec::well_sealed(
                                        lv1[a].pickle,
                                        Kind::Device,
                                    ));
                            }
                        }
                    }
                    staged.insert(j, (key_string, list));
                    proof {
                        assert(staged@ =~= st_before.update(j as int, staged@[j as int]));
                        assert(staged@[j as int].0@ == dv.user_id);
                        assert(staged@[j as int].1 == list);
                        assert(dstaged_unique(staged@)) by {
                            assert(forall|a: int|
                                0 <= a < staged@.len() ==> (#[trigger] staged@[a]).0@
                                    == st_before[a].0@);
                        }
                        assert forall|j2: int| 0 <= j2 < staged@.len() implies dstaged_entry_ok(
                            #[trigger] staged@[j2],
                            target_next,
                        ) by {
                            if j2 == j {
                                assert(dstaged_views(staged@[j2]) == lv1);
                            } else {
                                assert(staged@[j2] == st_before[j2]);
                                assert(dstaged_entry_ok(st_before[j2], target_cur));
                                assert(st_before[j2].0@ != dv.user_id);
                            }
                        }
                        assert forall|k: Seq<char>|
                            #![trigger dstaged_has(staged@, k)]
                            !dstaged_has(staged@, k) implies (target_next.contains_key(k)
                            == minit.contains_key(k) && (minit.contains_key(k) ==> target_next[k]
                            == minit[k])) by {
                            if k == dv.user_id {
                                assert(staged@[j as int].0@ == k);
                                assert(dstaged_has(staged@, k));
                            }
                            if dstaged_has(st_before, k) {
                                let a = dstaged_index(st_before, k);
                                assert(0 <= a < st_before.len() && st_before[a].0@ == k);
                                assert(staged@[a].0@ == k);
                                assert(dstaged_has(staged@, k));
                            }
                            assert(k != dv.user_id);
                            assert(!dstaged_has(st_before, k));
                        }
                    }
                },
                None => {
                    let ghost st_before = staged@;
                    let got = self.db.get(PartitionId::Devices, &d.user_id);
                    let mut list: Vec<Device> = match got {
                        Some(record) => {
                            match record {
                                Record::Devices(v) => duplicate_device_list(v),
                                _ => {
                                    proof {
                                        assert(false);
                                    }
                                    Vec::new()
                                },
                            }
                        },
                        None => Vec::new(),
                    };
                    let ghost lv0 = list@.map_values(|x: Device| x@);
                    proof {
                        if minit.contains_key(dv.user_id) {
                            assert(lv0 =~= (match self.db@[PartitionId::Devices][dv.user_id] {
                                RecordV::Devices(items) => items,
                                _ => Seq::empty(),
                            }));
                            assert(wf_device_items(lv0, dv.user_id));
                            assert(opened_devices(lv0) =~= minit[dv.user_id]);
                        } else {
                            assert(lv0 =~= Seq::<DeviceV>::empty());
                            assert(opened_devices(lv0) =~= Seq::<DeviceV>::empty());
                        }
                        assert(unique_dids(lv0));
                    }
                    upsert_stored_device(&mut list, sealed);
                    let ghost lv1 = list@.map_values(|x: Device| x@);
                    proof {
                        assert(lv1 == upsert_device(lv0, sealedv));
                        lemma_open_upsert_device(lv0, sealedv, dv);
                        assert(target_cur.contains_key(dv.user_id) == minit.contains_key(
                            dv.user_id,
                        ));
                        assert(opened_devices(lv1) == target_next[dv.user_id]);
                        assert(wf_device_items(lv1, dv.user_id)) by {
                            if has_did(lv0, dv.device_id) {
                                let ui = did_index(lv0, dv.device_id);
                                lemma_did_at(lv0, ui);
                                assert(forall|a: int|
                                    0 <= a < lv1.len() ==> (#[trigger] lv1[a]).user_id
                                        == dv.user_id && codec::well_sealed(
                                        lv1[a].pickle,
                                        Kind::Device,
                                    ));
                            }
                        }
                    }
                    staged.push((d.user_id.clone(), list));
                    proof {
                        assert(staged@ =~= st_before.push(staged@[staged@.len() - 1]));
                        assert(staged@[staged@.len() - 1].0@ == dv.user_id);
                        assert(dstaged_unique(staged@)) by {
                            assert forall|a: int, b: int|
                                0 <= a < b < staged@.len() implies staged@[a].0@
                                != staged@[b].0@ by {
                                if b == staged@.len() - 1 {
                                    if staged@[a].0@ == dv.user_id {
                                        assert(st_before[a].0@ == dv.user_id);
                                        assert(dstaged_has(st_before, dv.user_id));
                                    }
                                }
                            }
                        }
                        assert forall|j2: int| 0 <= j2 < staged@.len() implies dstaged_entry_ok(
                            #[trigger] staged@[j2],
                            target_next,
                        ) by {
                            if j2 == staged@.len() - 1 {
                                assert(dstaged_views(staged@[j2]) == lv1);
                            } else {
                                assert(staged@[j2] == st_before[j2]);
                                assert(dstaged_entry_ok(st_before[j2], target_cur));
                                assert(st_before[j2].0@ != dv.user_id);
                            }
                        }
                        assert forall|k: Seq<char>|
                            #![trigger dstaged_has(staged@, k)]
                            !dstaged_has(staged@, k) implies (target_next.contains_key(k)
                            == minit.contains_key(k) && (minit.contains_key(k) ==> target_next[k]
                            == minit[k])) by {
                            assert(staged@[staged@.len() - 1].0@ == dv.user_id);
                            if k == dv.user_id {
                                assert(dstaged_has(staged@, k));
                            }
                            if dstaged_has(st_before, k) {
                                let a = dstaged_index(st_before, k);
                                assert(0 <= a < st_before.len() && st_before[a].0@ == k);
                                assert(staged@[a].0@ == k);
                                assert(dstaged_has(staged@, k));
                            }
                            assert(k != dv.user_id);
                            assert(!dstaged_has(st_before, k));
                        }
                    }
                },
            }
            i = i + 1;
        }
        let ghost target = upsert_devices(minit, inputs);
        let ghost all_staged = staged@;
        proof {
            assert(inputs.take(inputs.len() as int) =~= inputs);
            assert(forall|k: Seq<char>|
                #![trigger dstaged_has(all_staged, k)]
                !dstaged_has(all_staged, k) ==> (target.contains_key(k) == minit.contains_key(k)
                    && (minit.contains_key(k) ==> target[k] == minit[k])));
            assert(forall|j: int|
                0 <= j < all_staged.len() ==> dstaged_entry_ok(#[trigger] all_staged[j], target));
        }
        let mut txn = Transaction::begin(TxnMode::ReadWrite);
        while staged.len() > 0
            invariant
                self.wf(),
                *self == *old(self),
                txn.mode == TxnMode::ReadWrite,
                staged@.len() <= all_staged.len(),
                staged@ =~= all_staged.subrange(
                    all_staged.len() - staged@.len(),
                    all_staged.len() as int,
                ),
                txn@ =~= dstaged_ops(all_staged.take(all_staged.len() - staged@.len())),
            decreases staged@.len(),
        {
            let ghost done = all_staged.len() - staged@.len();
            let ghost pre = staged@;
            let pair = staged.remove(0);
            proof {
                assert(pre[0] == all_staged[done]);
                assert(pair == all_staged[done]);
                assert(staged@ =~= all_staged.subrange(done + 1, all_staged.len() as int));
            }
            let put_res = txn.put(PartitionId::Devices, pair.0, Record::Devices(pair.1));
            match put_res {
                Ok(()) => {},
                Err(e) => {
                    proof {
                        assert(false);
                    }
                    return Err(e);
                },
            }
            proof {
                assert(txn@ =~= dstaged_ops(all_staged.take(done + 1))) by {
                    assert(dstaged_ops(all_staged.take(done)).push(
                        TxnOpV::Put(
                            PartitionId::Devices,
                            all_staged[done].0@,
                            RecordV::Devices(dstaged_views(all_staged[done])),
                        ),
                    ) =~= dstaged_ops(all_staged.take(done + 1)));
                }
            }
        }
        proof {
            assert(all_staged.take(all_staged.len() as int) =~= all_staged);
            assert(txn@ =~= dstaged_ops(all_staged));
            assert forall|oi: int| 0 <= oi < dstaged_ops(all_staged).len() implies m0.contains_key(
                kv::op_partition(#[trigger] dstaged_ops(all_staged)[oi]),
            ) by {
                assert(dstaged_ops(all_staged)[oi] == TxnOpV::Put(
                    PartitionId::Devices,
                    all_staged[oi].0@,
                    RecordV::Devices(dstaged_views(all_staged[oi])),
                ));
            }
            assert(kv::spec_ops_ok(m0, txn@));
        }
        let commit_res = self.db.commit(txn);
        match commit_res {
            Ok(()) => {
                proof {
                    lemma_dstaged_apply(m0, all_staged);
                    let m1 = self.db@;
                    assert(m1 == m0.insert(
                        PartitionId::Devices,
                        dstaged_records(m0[PartitionId::Devices], all_staged),
                    ));
                    let part1 = dstaged_records(m0[PartitionId::Devices], all_staged);
                    assert(wf_devices_map(m1)) by {
                        assert forall|k: Seq<char>| m1[PartitionId::Devices].contains_key(
                            k,
                        ) implies ((m1[PartitionId::Devices][k]) matches RecordV::Devices(items)
                            && wf_device_items(items, k)) by {
                            lemma_dstaged_records_at(m0[PartitionId::Devices], all_staged, k);
                            if dstaged_has(all_staged, k) {
                                let j = dstaged_index(all_staged, k);
                                assert(0 <= j < all_staged.len() && all_staged[j].0@ == k);
                                assert(dstaged_entry_ok(all_staged[j], target));
                            } else {
                                assert(m0[PartitionId::Devices].contains_key(k));
                            }
                        }
                    }
                    assert(spec_devices(m1) =~= target) by {
                        assert forall|k: Seq<char>| #![all_triggers] true implies (
                        spec_devices(m1).contains_key(k) == target.contains_key(k) && (
                        target.contains_key(k) ==> spec_devices(m1)[k] == target[k])) by {
                            lemma_dstaged_records_at(m0[PartitionId::Devices], all_staged, k);
                            if dstaged_has(all_staged, k) {
                                let j = dstaged_index(all_staged, k);
                                assert(0 <= j < all_staged.len() && all_staged[j].0@ == k);
                                assert(dstaged_entry_ok(all_staged[j], target));
                                assert(part1[k] == RecordV::Devices(dstaged_views(all_staged[j])));
                                assert(spec_devices(m1)[k] =~= opened_devices(
                                    dstaged_views(all_staged[j]),
                                ));
                            } else {
                                assert(target.contains_key(k) == minit.contains_key(k));
                                if minit.contains_key(k) {
                                    assert(m0[PartitionId::Devices].contains_key(k));
                                    assert(part1[k] == m0[PartitionId::Devices][k]);
                                    assert(spec_devices(m1)[k] =~= spec_devices(m0)[k]);
                                }
                            }
                        }
                    }
                    assert(m1[PartitionId::Account] == m0[PartitionId::Account]);
                    lemma_sessions_frame(m1, m0);
                    lemma_rooms_frame(m1, m0);
                    lemma_identities_frame(m1, m0);
                    lemma_tracked_frame(m1, m0);
                }
                Ok(())
            },
            Err(e) => {
                proof {
                    assert(false);
                }
                Err(e)
            },
        }
    }

    /// Look up one device record by user id and device id; `None` when it
    /// was never saved, or was deleted.
    pub fn get_device(&self, user_id: &String, device_id: &String) -> (r: Result<
        Option<Device>,
        CryptoStoreError,
    >)
        requires
            self.wf(),
        ensures
            match r {
                Ok(Some(d)) => self.device(user_id@, device_id@) == Some(d@),
                Ok(None) => self.device(user_id@, device_id@) is None,
                Err(_) => false,
            },
    {
        let got = self.db.get(PartitionId::Devices, user_id);
        match got {
            Some(record) => {
                match record {
                    Record::Devices(v) => {
                        let ghost stored = v@.map_values(|d: Device| d@);
                        let ghost opened = opened_devices(stored);
                        proof {
                            assert(wf_device_items(stored, user_id@));
                            assert(opened =~= spec_devices(self.db@)[user_id@]);
                            assert(forall|a: int|
                                0 <= a < stored.len() ==> (#[trigger] opened[a]).device_id
                                    == stored[a].device_id);
                            assert(unique_dids(opened));
                        }
                        let found = find_did_index(v, device_id);
                        match found {
                            Some(i) => {
                                let item = &v[i];
                                proof {
                                    assert(stored[i as int].user_id == user_id@);
                                    assert(codec::well_sealed(
                                        stored[i as int].pickle,
                                        Kind::Device,
                                    ));
                                }
                                let payload = codec::unseal(Kind::Device, &item.pickle);
                                match payload {
                                    Ok(p) => {
                                        let out = Device {
                                            user_id: item.user_id.clone(),
                                            device_id: item.device_id.clone(),
                                            deleted: item.deleted,
                                            pickle: p,
                                        };
                                        proof {
                                            lemma_did_at(opened, i as int);
                                            assert(opened[i as int] == out@);
                                        }
                                        Ok(Some(out))
                                    },
                                    Err(e) => {
                                        proof {
                                            assert(false);
                                        }
                                        Err(e)
                                    },
                                }
                            },
                            None => {
                                proof {
                                    if has_did(opened, device_id@) {
                                        let j = did_index(opened, device_id@);
                                        lemma_did_at(opened, j);
                                        assert(stored[j].device_id == device_id@);
                                        assert(has_did(stored, device_id@));
                                        assert(false);
                                    }
                                }
                                Ok(None)
                            },
                        }
                    },
                    _ => {
                        proof {
                            assert(false);
                        }
                        Err(CryptoStoreError::Deserialization)
                    },
                }
            },
            None => Ok(None),
        }
    }

    /// The full device directory of a user, marked-deleted records
    /// included; empty when the user was never seen.
    pub fn get_user_devices(&self, user_id: &String) -> (r: Result<Vec<Device>, CryptoStoreError>)
        requires
            self.wf(),
        ensures
            match r {
                Ok(v) => {
                    &&& self.devices().contains_key(user_id@) ==> v@.map_values(|x: Device| x@)
                        == self.devices()[user_id@]
                    &&& !self.devices().contains_key(user_id@) ==> v@.len() == 0
                },
                Err(_) => false,
            },
    {
        let got = self.db.get(PartitionId::Devices, user_id);
        match got {
            Some(record) => {
                match record {
                    Record::Devices(v) => {
                        let ghost stored = v@.map_values(|d: Device| d@);
                        proof {
                            assert(wf_device_items(stored, user_id@));
                            assert(opened_devices(stored) =~= self.devices()[user_id@]);
                        }
                        let mut out: Vec<Device> = Vec::new();
                        let mut i: usize = 0;
                        while i < v.len()
                            invariant
                                stored == v@.map_values(|d: Device| d@),
                                wf_device_items(stored, user_id@),
                                i <= stored.len(),
                                out@.len() == i,
                                forall|j: int|
                                    0 <= j < i ==> (#[trigger] out@[j])@ == open_device_v(
                                        stored[j],
                                    ),
                            decreases stored.len() - i,
                        {
                            let item = &v[i];
                            proof {
                                assert(stored[i as int].user_id == user_id@);
                                assert(codec::well_sealed(stored[i as int].pickle, Kind::Device));
                            }
                            let payload = codec::unseal(Kind::Device, &item.pickle);
                            match payload {
                                Ok(p) => {
                                    out.push(
                                        Device {
                                            user_id: item.user_id.clone(),
                                            device_id: item.device_id.clone(),
                                            deleted: item.deleted,
                                            pickle: p,
                                        },
                                    );
                                },
                                Err(e) => {
                                    proof {
                                        assert(false);
                                    }
                                    return Err(e);
                                },
                            }
                            i = i + 1;
                        }
                        proof {
                            assert(out@.map_values(|x: Device| x@) =~= opened_devices(stored));
                        }
                        Ok(out)
                    },
                    _ => {
                        proof {
                            assert(false);
                        }
                        Err(CryptoStoreError::Deserialization)
                    },
                }
            },
            None => Ok(Vec::new()),
        }
    }

    /// Remove one device's record.  Afterwards a lookup of its (user,
    /// device id) answers `None`, and the user's directory no longer
    /// lists it; every other record stays as it was.
    pub fn delete_device(&mut self, device: &Device) -> (r: Result<(), CryptoStoreError>)
        requires
            old(self).wf(),
        ensures
            final(self).wf(),
            r is Ok,
            final(self).devices() == (if old(self).devices().contains_key(device.user_id@) {
                old(self).devices().insert(
                    device.user_id@,
                    remove_did(old(self).devices()[device.user_id@], device.device_id@),
                )
            } else {
                old(self).devices()
            }),
            final(self).device(device.user_id@, device.device_id@) is None,
            final(self).account() == old(self).account(),
            final(self).sessions() == old(self).sessions(),
            final(self).rooms() == old(self).rooms(),
            final(self).identities() == old(self).identities(),
            final(self).tracked_users() == old(self).tracked_users(),
    {
        let ghost m0 = old(self).db@;
        let ghost minit = old(self).devices();
        let got = self.db.get(PartitionId::Devices, &device.user_id);
        let mut list: Vec<Device> = match got {
            Some(record) => {
                match record {
                    Record::Devices(v) => duplicate_device_list(v),
                    _ => {
                        proof {
                            assert(false);
                        }
                        Vec::new()
                    },
                }
            },
            None => {
                proof {
                    assert(!minit.contains_key(device.user_id@));
                }
                return Ok(());
            },
        };
        let ghost lv0 = list@.map_values(|x: Device| x@);
        proof {
            assert(minit.contains_key(device.user_id@));
            assert(lv0 =~= (match m0[PartitionId::Devices][device.user_id@] {
                RecordV::Devices(items) => items,
                _ => Seq::empty(),
            }));
            assert(wf_device_items(lv0, device.user_id@));
            assert(opened_devices(lv0) =~= minit[device.user_id@]);
            assert(unique_dids(lv0));
            lemma_open_remove_did(lv0, device.device_id@);
        }
        let found = find_did_index(&list, &device.device_id);
        match found {
            Some(i) => {
                proof {
                    lemma_did_at(lv0, i as int);
                }
                list.remove(i);
                proof {
                    assert(list@.map_values(|x: Device| x@) =~= lv0.remove(i as int));
                    assert(list@.map_values(|x: Device| x@) == remove_did(
                        lv0,
                        device.device_id@,
                    ));
                }
            },
            None => {
                proof {
                    assert(remove_did(lv0, device.device_id@) == lv0);
                }
            },
        }
        let ghost lv1 = list@.map_values(|x: Device| x@);
        proof {
            assert(lv1 == remove_did(lv0, device.device_id@));
            assert(opened_devices(lv1) == remove_did(opened_devices(lv0), device.device_id@));
        }
        let mut txn = Transaction::begin(TxnMode::ReadWrite);
        let put_res = txn.put(PartitionId::Devices, device.user_id.clone(), Record::Devices(list));
        match put_res {
            Ok(()) => {},
            Err(e) => {
                proof {
                    assert(false);
                }
                return Err(e);
            },
        }
        let ghost ops = txn@;
        proof {
            assert(ops[0] == TxnOpV::Put(
                PartitionId::Devices,
                device.user_id@,
                RecordV::Devices(lv1),
            ));
            assert(kv::spec_ops_ok(m0, ops));
        }
        let commit_res = self.db.commit(txn);
        match commit_res {
            Ok(()) => {
                proof {
                    assert(ops =~= seq![ops[0]]);
                    kv::lemma_apply_single(m0, ops[0]);
                    let m1 = self.db@;
                    assert(m1 == m0.insert(
                        PartitionId::Devices,
                        m0[PartitionId::Devices].insert(device.user_id@, RecordV::Devices(lv1)),
                    ));
                    assert(wf_device_items(lv1, device.user_id@)) by {
                        if has_did(lv0, device.device_id@) {
                            let di = did_index(lv0, device.device_id@);
                            lemma_did_at(lv0, di);
                            assert(forall|a: int|
                                0 <= a < lv1.len() ==> (#[trigger] lv1[a]).user_id
                                    == device.user_id@ && codec::well_sealed(
                                    lv1[a].pickle,
                                    Kind::Device,
                                ));
                        }
                    }
                    assert(wf_devices_map(m1)) by {
                        assert forall|k: Seq<char>| m1[PartitionId::Devices].contains_key(
                            k,
                        ) implies ((m1[PartitionId::Devices][k]) matches RecordV::Devices(items)
                            && wf_device_items(items, k)) by {
                            if k != device.user_id@ {
                                assert(m0[PartitionId::Devices].contains_key(k));
                            }
                        }
                    }
                    assert(spec_devices(m1) =~= minit.insert(
                        device.user_id@,
                        remove_did(minit[device.user_id@], device.device_id@),
                    ));
                    assert(!has_did(opened_devices(lv1), device.device_id@));
                    assert(final(self).device(device.user_id@, device.device_id@) is None);
                    assert(m1[PartitionId::Account] == m0[PartitionId::Account]);
                    lemma_sessions_frame(m1, m0);
                    lemma_rooms_frame(m1, m0);
                    lemma_identities_frame(m1, m0);
                    lemma_tracked_frame(m1, m0);
                }
                Ok(())
            },
            Err(e) => {
                proof {
                    assert(false);
                }
                Err(e)
            },
        }
    }
}

} // verus!
