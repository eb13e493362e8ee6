//! Versioned envelope codec for opaque cryptographic blobs.
//!
//! A cryptographic object reaches the store as an opaque pickled byte blob.
//! Before the blob is written it is sealed into a storable byte record: a
//! two-byte envelope holding the schema version and a tag for the kind of
//! object, followed by the payload.  Decoding checks the version first —
//! bytes written by an unknown (future) schema are a hard error, never
//! silently ignored — and then the kind tag, so a record can never be
//! decoded as the wrong kind of object.

use vstd::prelude::*;

use crate::errors::CryptoStoreError;

verus! {

/// Schema version written into every envelope.
pub const ENVELOPE_VERSION: u8 = 1;

/// The kinds of cryptographic object the store can hold.
#[derive(Clone, Copy, Debug, PartialEq, Eq, Structural)]
pub enum Kind {
    Account,
    Session,
    GroupSession,
    Device,
    Identity,
}

/// The byte tag written for each kind of object.
pub open spec fn kind_tag(kind: Kind) -> u8 {
    match kind {
        Kind::Account => 1,
        Kind::Session => 2,
        Kind::GroupSession => 3,
        Kind::Device => 4,
        Kind::Identity => 5,
    }
}

/// The kind a byte tag stands for, if any.
pub open spec fn kind_of_tag(tag: u8) -> Option<Kind> {
    if tag == 1 {
        Some(Kind::Account)
    } else if tag == 2 {
        Some(Kind::Session)
    } else if tag == 3 {
        Some(Kind::GroupSession)
    } else if tag == 4 {
        Some(Kind::Device)
    } else if tag == 5 {
        Some(Kind::Identity)
    } else {
        None
    }
}

/// The storable byte record for a payload of the given kind.
pub open spec fn spec_seal(kind: Kind, payload: Seq<u8>) -> Seq<u8> {
    seq![ENVELOPE_VERSION, kind_tag(kind)] + payload
}

/// Whether `bytes` is a well-formed envelope of the given kind.
pub open spec fn well_sealed(bytes: Seq<u8>, kind: Kind) -> bool {
    &&& bytes.len() >= 2
    &&& bytes[0] == ENVELOPE_VERSION
    &&& bytes[1] == kind_tag(kind)
}

/// The payload carried by an envelope.
pub open spec fn spec_payload(bytes: Seq<u8>) -> Seq<u8> {
    bytes.subrange(2, bytes.len() as int)
}

/// What decoding arbitrary bytes yields: the kind and payload of a
/// well-formed envelope, or nothing.
pub open spec fn spec_decode(bytes: Seq<u8>) -> Option<(Kind, Seq<u8>)> {
    if bytes.len() < 2 || bytes[0] != ENVELOPE_VERSION {
        None
    } else {
        match kind_of_tag(bytes[1]) {
            Some(kind) => Some((kind, spec_payload(bytes))),
            None => None,
        }
    }
}

/// Sealing is lossless: decoding a sealed payload yields the kind and the
/// payload back, unchanged.
pub proof fn lemma_seal_round_trip(kind: Kind, payload: Seq<u8>)
    ensures
        spec_decode(spec_seal(kind, payload)) == Some((kind, payload)),
        well_sealed(spec_seal(kind, payload), kind),
        spec_payload(spec_seal(kind, payload)) == payload,
{
    assert(spec_payload(spec_seal(kind, payload)) =~= payload);
}

/// The exec mirror of [`kind_tag`].
fn tag_of(kind: Kind) -> (tag: u8)
    ensures
        tag == kind_tag(kind),
{
    match kind {
        Kind::Account => 1,
        Kind::Session => 2,
        Kind::GroupSession => 3,
        Kind::Device => 4,
        Kind::Identity => 5,
    }
}

/// Seal an opaque payload into its storable byte record.
pub fn seal(kind: Kind, payload: &Vec<u8>) -> (r: Vec<u8>)
    ensures
        r@ == spec_seal(kind, payload@),
        well_sealed(r@, kind),
        spec_payload(r@) == payload@,
{
    let mut out: Vec<u8> = Vec::new();
    out.push(ENVELOPE_VERSION);
    out.push(tag_of(kind));
    let mut i: usize = 0;
    while i < payload.len()
        invariant
            i <= payload@.len(),
            out@ == spec_seal(kind, payload@.subrange(0, i as int)),
        decreases payload@.len() - i,
    {
        out.push(payload[i]);
        i = i + 1;
        assert(spec_seal(kind, payload@.subrange(0, i as int)) =~= spec_seal(
            kind,
            payload@.subrange(0, i - 1),
        ).push(payload@[i - 1]));
    }
    assert(payload@.subrange(0, payload@.len() as int) =~= payload@);
    assert(spec_payload(out@) =~= payload@);
    out
}

/// Decode a storable byte record into its kind and payload, dispatching on
/// the kind tag.  Fails when the record is truncated, carries an unknown
/// schema version, or an unknown kind tag.
pub fn decode(bytes: &Vec<u8>) -> (r: Result<(Kind, Vec<u8>), CryptoStoreError>)
    ensures
        match r {
            Ok(kp) => spec_decode(bytes@) == Some((kp.0, kp.1@)),
            Err(e) => spec_decode(bytes@) is None && e == CryptoStoreError::Deserialization,
        },
{
    if bytes.len() < 2 {
        return Err(CryptoStoreError::Deserialization);
    }
    if bytes[0] != ENVELOPE_VERSION {
        return Err(CryptoStoreError::Deserialization);
    }
    let tag = bytes[1];
    let kind = if tag == 1 {
        Kind::Account
    } else if tag == 2 {
        Kind::Session
    } else if tag == 3 {
        Kind::GroupSession
    } else if tag == 4 {
        Kind::Device
    } else if tag == 5 {
        Kind::Identity
    } else {
        return Err(CryptoStoreError::Deserialization);
    };
    let payload = copy_payload(bytes);
    Ok((kind, payload))
}

/// Decode a storable byte record that must hold the given kind of object.
/// Fails exactly when the record is not a well-formed envelope of that kind.
pub fn unseal(kind: Kind, bytes: &Vec<u8>) -> (r: Result<Vec<u8>, CryptoStoreError>)
    ensures
        match r {
            Ok(p) => well_sealed(bytes@, kind) && p@ == spec_payload(bytes@),
            Err(e) => !well_sealed(bytes@, kind) && e == CryptoStoreError::Deserialization,
        },
{
    if bytes.len() < 2 {
        return Err(CryptoStoreError::Deserialization);
    }
    if bytes[0] != ENVELOPE_VERSION {
        return Err(CryptoStoreError::Deserialization);
    }
    if bytes[1] != tag_of(kind) {
        return Err(CryptoStoreError::Deserialization);
    }
    Ok(copy_payload(bytes))
}

/// Copy the payload out of an envelope known to hold at least the two
/// header bytes.
fn copy_payload(bytes: &Vec<u8>) -> (p: Vec<u8>)
    requires
        bytes@.len() >= 2,
    ensures
        p@ == spec_payload(bytes@),
{
    let mut p: Vec<u8> = Vec::new();
    let mut i: usize = 2;
    while i < bytes.len()
        invariant
            2 <= i <= bytes@.len(),
            p@ == bytes@.subrange(2, i as int),
        decreases bytes@.len() - i,
    {
        p.push(bytes[i]);
        i = i + 1;
        assert(bytes@.subrange(2, i as int) =~= bytes@.subrange(2, i - 1).push(bytes@[i - 1]));
    }
    p
}

} // verus!
