use cryptostore::codec::{decode, seal, unseal, Kind, ENVELOPE_VERSION};
use cryptostore::errors::CryptoStoreError;

#[test]
fn seal_prepends_version_and_tag() {
    let payload: Vec<u8> = vec![10, 20, 30];
    let sealed = seal(Kind::Account, &payload);
    assert_eq!(sealed.len(), 5);
    assert_eq!(sealed[0], ENVELOPE_VERSION);
    assert_eq!(&sealed[2..], &[10, 20, 30]);
}

#[test]
fn decode_round_trips_every_kind() {
    let payload: Vec<u8> = vec![1, 2, 3, 4];
    for kind in [
        Kind::Account,
        Kind::Session,
        Kind::GroupSession,
        Kind::Device,
        Kind::Identity,
    ] {
        let sealed = seal(kind, &payload);
        let (k, p) = decode(&sealed).expect("well-formed envelope must decode");
        assert_eq!(k, kind);
        assert_eq!(p, payload);
    }
}

#[test]
fn unseal_round_trips() {
    let payload: Vec<u8> = vec![9, 8, 7];
    let sealed = seal(Kind::Session, &payload);
    let out = unseal(Kind::Session, &sealed).expect("matching kind must unseal");
    assert_eq!(out, payload);
}

#[test]
fn unseal_empty_payload() {
    let payload: Vec<u8> = Vec::new();
    let sealed = seal(Kind::Device, &payload);
    assert_eq!(sealed.len(), 2);
    let out = unseal(Kind::Device, &sealed).expect("empty payload still unseals");
    assert!(out.is_empty());
}

#[test]
fn truncated_envelope_is_rejected() {
    let empty: Vec<u8> = Vec::new();
    assert_eq!(decode(&empty), Err(CryptoStoreError::Deserialization));
    let one: Vec<u8> = vec![ENVELOPE_VERSION];
    assert_eq!(decode(&one), Err(CryptoStoreError::Deserialization));
}

#[test]
fn unknown_version_is_a_hard_error() {
    let payload: Vec<u8> = vec![1, 2, 3];
    let mut sealed = seal(Kind::Account, &payload);
    sealed[0] = ENVELOPE_VERSION + 1;
    assert_eq!(decode(&sealed), Err(CryptoStoreError::Deserialization));
    assert_eq!(
        unseal(Kind::Account, &sealed),
        Err(CryptoStoreError::Deserialization)
    );
}

#[test]
fn unknown_tag_is_rejected() {
    let bytes: Vec<u8> = vec![ENVELOPE_VERSION, 99, 1, 2];
    assert_eq!(decode(&bytes), Err(CryptoStoreError::Deserialization));
}

#[test]
fn unseal_refuses_the_wrong_kind() {
    let payload: Vec<u8> = vec![5];
    let sealed = seal(Kind::Account, &payload);
    assert_eq!(
        unseal(Kind::Session, &sealed),
        Err(CryptoStoreError::Deserialization)
    );
}

#[test]
fn error_messages_are_not_empty() {
    for e in [
        CryptoStoreError::Open,
        CryptoStoreError::Access,
        CryptoStoreError::Serialization,
        CryptoStoreError::Deserialization,
        CryptoStoreError::Store,
    ] {
        assert!(!e.message().is_empty());
    }
}
