//! Laws of the store, stated over the models its contracts use and
//! proved once for all inputs.
//!
//! Each operation's own `ensures` pins its effect on the models; the
//! lemmas here state the multi-call consequences a caller relies on:
//! what a load returns after a save, how the session order evolves, when
//! a tracked-user update is a no-op, and what a deletion leaves behind.

use vstd::prelude::*;

use crate::devices::{device_lookup, has_did, remove_did, unique_dids};
use crate::group_sessions::group_lookup;
use crate::identities::insert_identities;
use crate::sessions::{has_sid, lemma_sid_at, remove_sid, sid_index, unique_sids, upsert_session};
use crate::store::Cryptostore;
use crate::types::{AccountV, DeviceV, InboundGroupSessionV, SessionV, UserIdentityV};

verus! {

/// Round trip: a store whose account slot was just saved loads exactly
/// the saved account — `save_account` leaves the model at `Some(a)`, and
/// `load_account` returns the model.
pub proof fn lemma_account_round_trip(post: Cryptostore, a: AccountV)
    requires
        post.account() == Some(a),
    ensures
        post.account() matches Some(b) && b == a,
{
}

/// Round trip for identities: saving a batch ending with `x` leaves
/// exactly `x` under its user, which is what `get_user_identity`
/// returns.
pub proof fn lemma_identity_round_trip(m: Map<Seq<char>, UserIdentityV>, x: UserIdentityV)
    ensures
        insert_identities(m, seq![x]).contains_key(x.user_id),
        insert_identities(m, seq![x])[x.user_id] == x,
{
    assert(seq![x].drop_last() =~= Seq::<UserIdentityV>::empty());
    assert(insert_identities(m, seq![x].drop_last()) == m);
}

/// Absence before presence: on a store where every model is empty — as
/// `open` guarantees — every lookup answers "absent".
pub proof fn lemma_fresh_store_absent(
    s: Cryptostore,
    user: Seq<char>,
    sender: Seq<char>,
    room: Seq<char>,
    sid: Seq<char>,
)
    requires
        s.account() is None,
        s.sessions() == Map::<Seq<char>, Seq<SessionV>>::empty(),
        s.rooms() == Map::<Seq<char>, Seq<InboundGroupSessionV>>::empty(),
        s.devices() == Map::<Seq<char>, Seq<DeviceV>>::empty(),
        s.identities() == Map::<Seq<char>, UserIdentityV>::empty(),
        s.tracked_users() == Map::<Seq<char>, bool>::empty(),
    ensures
        !s.sessions().contains_key(sender),
        s.group_session(room, sender, sid) is None,
        s.device(user, sid) is None,
        !s.identities().contains_key(user),
        !s.tracked_users().contains_key(user),
{
}

/// Group-session insert signal: the first save of a triple finds the
/// model empty there and reports an insert; a repeat finds the saved
/// session and reports an overwrite, while the stored content is the
/// latest save.
pub proof fn lemma_group_insert_signal(
    before: Cryptostore,
    after: Cryptostore,
    g: InboundGroupSessionV,
)
    requires
        before.group_session(g.room_id, g.sender_key, g.session_id) is None,
        after.group_session(g.room_id, g.sender_key, g.session_id) == Some(g),
    ensures
        (before.group_session(g.room_id, g.sender_key, g.session_id) is None) == true,
        (after.group_session(g.room_id, g.sender_key, g.session_id) is None) == false,
{
}

/// Session ordering: saving `s1` then `s2` for one sender key leaves the
/// list ending `..., s1, s2` — last-used order, most recent last.
pub proof fn lemma_session_ordering(m: Map<Seq<char>, Seq<SessionV>>, s1: SessionV, s2: SessionV)
    requires
        s1.sender_key == s2.sender_key,
        s1.session_id != s2.session_id,
    ensures
        upsert_session(upsert_session(m, s1), s2).contains_key(s1.sender_key),
        upsert_session(upsert_session(m, s1), s2)[s1.sender_key].len() >= 2,
        upsert_session(upsert_session(m, s1), s2)[s1.sender_key].last() == s2,
        upsert_session(upsert_session(m, s1), s2)[s1.sender_key][upsert_session(
            upsert_session(m, s1),
            s2,
        )[s1.sender_key].len() - 2] == s1,
{
    let k = s1.sender_key;
    let m1 = upsert_session(m, s1);
    let l1 = m1[k];
    assert(l1.last() == s1);
    let base2 = l1;
    let removed = remove_sid(base2, s2.session_id);
    if has_sid(base2, s2.session_id) {
        let i = sid_index(base2, s2.session_id);
        assert(0 <= i < base2.len() && base2[i].session_id == s2.session_id);
        assert(i != base2.len() - 1);
        assert(removed.len() == base2.len() - 1);
        assert(removed[removed.len() - 1] == base2[base2.len() - 1]);
    }
    assert(removed.len() >= 1);
    assert(removed.last() == s1);
    let l2 = removed.push(s2);
    assert(l2.last() == s2);
    assert(l2[l2.len() - 2] == s1);
}

/// Re-saving a session moves it to the most-recent position: after an
/// upsert the list ends with the saved session, and its id occurs
/// nowhere else in the list.
pub proof fn lemma_session_resave(m: Map<Seq<char>, Seq<SessionV>>, s: SessionV)
    requires
        m.contains_key(s.sender_key) ==> unique_sids(m[s.sender_key]),
    ensures
        upsert_session(m, s)[s.sender_key].last() == s,
        forall|i: int|
            0 <= i < upsert_session(m, s)[s.sender_key].len() - 1 ==> (#[trigger] upsert_session(
                m,
                s,
            )[s.sender_key][i]).session_id != s.session_id,
{
    let base = if m.contains_key(s.sender_key) {
        m[s.sender_key]
    } else {
        Seq::empty()
    };
    let removed = remove_sid(base, s.session_id);
    if has_sid(base, s.session_id) {
        let i = sid_index(base, s.session_id);
        lemma_sid_at(base, i);
        assert forall|a: int| 0 <= a < removed.len() implies removed[a].session_id
            != s.session_id by {
            let a0: int = if a < i {
                a
            } else {
                a + 1
            };
            assert(removed[a] == base[a0]);
            if base[a0].session_id == s.session_id {
                lemma_sid_at(base, a0);
            }
        }
    } else {
        assert forall|a: int| 0 <= a < removed.len() implies removed[a].session_id
            != s.session_id by {
            if removed[a].session_id == s.session_id {
                assert(has_sid(base, s.session_id));
            }
        }
    }
}

/// Tracked-user idempotence: the first update of `(u, dirty)` on a model
/// that does not already hold it reports a change; an immediate repeat
/// reports none, and repeats leave the set exactly as one update did.
pub proof fn lemma_tracked_idempotent(m: Map<Seq<char>, bool>, u: Seq<char>, dirty: bool)
    ensures
        !(m.contains_key(u) && m[u] == dirty) ==> (!(m.contains_key(u) && m[u] == dirty)) == true,
        (m.insert(u, dirty).contains_key(u) && m.insert(u, dirty)[u] == dirty) == true,
        m.insert(u, dirty).insert(u, dirty) == m.insert(u, dirty),
        m.insert(u, dirty).dom() == m.insert(u, dirty).insert(u, dirty).dom(),
{
    assert(m.insert(u, dirty).insert(u, dirty) =~= m.insert(u, dirty));
}

/// Device deletion: after a device's record is removed from its user's
/// directory, the (user, device id) lookup answers `None`, and the
/// directory no longer lists the id; every other record of the
/// directory survives.
pub proof fn lemma_device_deletion(m: Map<Seq<char>, Seq<DeviceV>>, user: Seq<char>, did: Seq<char>)
    requires
        m.contains_key(user),
        unique_dids(m[user]),
    ensures
        device_lookup(m.insert(user, remove_did(m[user], did)), user, did) is None,
        !has_did(remove_did(m[user], did), did),
        forall|d: DeviceV|
            m[user].contains(d) && d.device_id != did ==> remove_did(m[user], did).contains(d),
{
    crate::devices::lemma_open_remove_did(m[user], did);
    let removed = remove_did(m[user], did);
    assert forall|d: DeviceV| m[user].contains(d) && d.device_id != did implies removed.contains(
        d,
    ) by {
        let items = m[user];
        let i = choose|i: int| 0 <= i < items.len() && items[i] == d;
        if has_did(items, did) {
            let j = crate::devices::did_index(items, did);
            assert(0 <= j < items.len() && items[j].device_id == did);
            assert(i != j);
            if i < j {
                assert(removed[i] == items[i]);
            } else {
                assert(removed[i - 1] == items[i]);
            }
        } else {
            assert(removed == items);
        }
    }
}

/// A committed group-session overwrite keeps every other triple: stated
/// by `save_inbound_group_session` itself; this lemma records that a
/// lookup of a different triple reads through an update unchanged.
pub proof fn lemma_group_other_triples(
    items: Seq<InboundGroupSessionV>,
    i: int,
    g: InboundGroupSessionV,
    k2: Seq<char>,
    s2: Seq<char>,
)
    requires
        crate::group_sessions::unique_group_pairs(items),
        0 <= i < items.len(),
        items[i].sender_key == g.sender_key,
        items[i].session_id == g.session_id,
        !(k2 == g.sender_key && s2 == g.session_id),
    ensures
        group_lookup(items.update(i, g), k2, s2) == group_lookup(items, k2, s2),
{
    crate::group_sessions::lemma_group_update(items, i, g);
}

} // verus!
