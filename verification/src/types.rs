//! The cryptographic objects the store persists.
//!
//! Every object carries the identifiers the store indexes it by, plus an
//! opaque pickled blob produced by the cryptography layer.  The store never
//! interprets the blob; it only seals it into a versioned envelope, writes
//! it, and hands it back unchanged.  Identifiers are opaque,
//! comparison-stable strings supplied by the caller; the store never
//! normalizes them.

use vstd::prelude::*;

verus! {

/// Copy a byte blob.
pub fn clone_bytes(v: &Vec<u8>) -> (r: Vec<u8>)
    ensures
        r@ == v@,
{
    let mut r: Vec<u8> = Vec::new();
    let mut i: usize = 0;
    while i < v.len()
        invariant
            i <= v@.len(),
            r@ == v@.subrange(0, i as int),
        decreases v@.len() - i,
    {
        r.push(v[i]);
        i = i + 1;
        assert(v@.subrange(0, i as int) =~= v@.subrange(0, i - 1).push(v@[i - 1]));
    }
    assert(v@.subrange(0, v@.len() as int) =~= v@);
    r
}

/// The local device's long-term identity material.  Exactly one per store;
/// saving replaces the previous record in place.
pub struct Account {
    /// The user this device belongs to.
    pub user_id: String,
    /// The id of this device.
    pub device_id: String,
    /// Whether the account's keys have been published to the server.
    pub shared: bool,
    /// The opaque pickled key material.
    pub pickle: Vec<u8>,
}

/// The mathematical value of an [`Account`].
pub struct AccountV {
    pub user_id: Seq<char>,
    pub device_id: Seq<char>,
    pub shared: bool,
    pub pickle: Seq<u8>,
}

impl View for Account {
    type V = AccountV;

    open spec fn view(&self) -> AccountV {
        AccountV {
            user_id: self.user_id@,
            device_id: self.device_id@,
            shared: self.shared,
            pickle: self.pickle@,
        }
    }
}

impl Account {
    /// A structurally equal copy.
    pub fn duplicate(&self) -> (r: Account)
        ensures
            r@ == self@,
    {
        Account {
            user_id: self.user_id.clone(),
            device_id: self.device_id.clone(),
            shared: self.shared,
            pickle: clone_bytes(&self.pickle),
        }
    }
}

/// One pairwise ratchet session with a remote device, identified by the
/// remote sender's identity key and a stable per-session id.
pub struct Session {
    /// The remote sender's identity (curve) key.
    pub sender_key: String,
    /// The stable id of this session.
    pub session_id: String,
    /// The opaque pickled ratchet state.
    pub pickle: Vec<u8>,
}

/// The mathematical value of a [`Session`].
pub struct SessionV {
    pub sender_key: Seq<char>,
    pub session_id: Seq<char>,
    pub pickle: Seq<u8>,
}

impl View for Session {
    type V = SessionV;

    open spec fn view(&self) -> SessionV {
        SessionV {
            sender_key: self.sender_key@,
            session_id: self.session_id@,
            pickle: self.pickle@,
        }
    }
}

impl Session {
    /// A structurally equal copy.
    pub fn duplicate(&self) -> (r: Session)
        ensures
            r@ == self@,
    {
        Session {
            sender_key: self.sender_key.clone(),
            session_id: self.session_id.clone(),
            pickle: clone_bytes(&self.pickle),
        }
    }
}

/// One inbound group (room) session, keyed by the triple of room id,
/// sender identity key and session id.
pub struct InboundGroupSession {
    /// The room the session decrypts messages for.
    pub room_id: String,
    /// The identity key of the device that created the session.
    pub sender_key: String,
    /// The stable id of this session.
    pub session_id: String,
    /// The opaque pickled ratchet state.
    pub pickle: Vec<u8>,
}

/// The mathematical value of an [`InboundGroupSession`].
pub struct InboundGroupSessionV {
    pub room_id: Seq<char>,
    pub sender_key: Seq<char>,
    pub session_id: Seq<char>,
    pub pickle: Seq<u8>,
}

impl View for InboundGroupSession {
    type V = InboundGroupSessionV;

    open spec fn view(&self) -> InboundGroupSessionV {
        InboundGroupSessionV {
            room_id: self.room_id@,
            sender_key: self.sender_key@,
            session_id: self.session_id@,
            pickle: self.pickle@,
        }
    }
}

impl InboundGroupSession {
    /// A structurally equal copy.
    pub fn duplicate(&self) -> (r: InboundGroupSession)
        ensures
            r@ == self@,
    {
        InboundGroupSession {
            room_id: self.room_id.clone(),
            sender_key: self.sender_key.clone(),
            session_id: self.session_id.clone(),
            pickle: clone_bytes(&self.pickle),
        }
    }
}

/// The stored record of one remote device, keyed by its user id and device
/// id.  Saving replaces the whole record; nothing is merged field by field.
pub struct Device {
    /// The user the device belongs to.
    pub user_id: String,
    /// The id of the device.
    pub device_id: String,
    /// Whether the device has been deleted on the server.  Deleted devices
    /// stay listed until explicitly removed, so device-list comparisons can
    /// observe the removal.
    pub deleted: bool,
    /// The opaque pickled device keys, algorithms and trust state.
    pub pickle: Vec<u8>,
}

/// The mathematical value of a [`Device`].
pub struct DeviceV {
    pub user_id: Seq<char>,
    pub device_id: Seq<char>,
    pub deleted: bool,
    pub pickle: Seq<u8>,
}

impl View for Device {
    type V = DeviceV;

    open spec fn view(&self) -> DeviceV {
        DeviceV {
            user_id: self.user_id@,
            device_id: self.device_id@,
            deleted: self.deleted,
            pickle: self.pickle@,
        }
    }
}

impl Device {
    /// A structurally equal copy.
    pub fn duplicate(&self) -> (r: Device)
        ensures
            r@ == self@,
    {
        Device {
            user_id: self.user_id.clone(),
            device_id: self.device_id.clone(),
            deleted: self.deleted,
            pickle: clone_bytes(&self.pickle),
        }
    }
}

/// A user's cross-signing identity.  At most one per user id; saving
/// replaces the previous record.
pub struct UserIdentity {
    /// The user the identity belongs to.
    pub user_id: String,
    /// The opaque pickled identity keys.
    pub pickle: Vec<u8>,
}

/// The mathematical value of a [`UserIdentity`].
pub struct UserIdentityV {
    pub user_id: Seq<char>,
    pub pickle: Seq<u8>,
}

impl View for UserIdentity {
    type V = UserIdentityV;

    open spec fn view(&self) -> UserIdentityV {
        UserIdentityV { user_id: self.user_id@, pickle: self.pickle@ }
    }
}

impl UserIdentity {
    /// A structurally equal copy.
    pub fn duplicate(&self) -> (r: UserIdentity)
        ensures
            r@ == self@,
    {
        UserIdentity { user_id: self.user_id.clone(), pickle: clone_bytes(&self.pickle) }
    }
}

} // verus!
