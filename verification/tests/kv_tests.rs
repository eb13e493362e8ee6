use cryptostore::errors::CryptoStoreError;
use cryptostore::kv::{Db, PartitionId, Record, Transaction, TxnMode};

fn tracked_record(dirty: bool) -> Record {
    Record::TrackedUser(dirty)
}

#[test]
fn fresh_store_has_empty_partitions() {
    let ids = vec![PartitionId::Account, PartitionId::TrackedUsers];
    let db = Db::open(None, 1, &ids).expect("fresh open succeeds");
    assert!(db.get(PartitionId::Account, &"account".to_string()).is_none());
    assert!(db.get(PartitionId::TrackedUsers, &"@alice:example.org".to_string()).is_none());
    assert!(db.get(PartitionId::Sessions, &"key".to_string()).is_none());
}

#[test]
fn commit_applies_puts_and_deletes_in_order() {
    let ids = vec![PartitionId::TrackedUsers];
    let mut db = Db::open(None, 1, &ids).expect("fresh open succeeds");
    let mut txn = Transaction::begin(TxnMode::ReadWrite);
    txn.put(PartitionId::TrackedUsers, "@a:x".to_string(), tracked_record(true)).unwrap();
    txn.put(PartitionId::TrackedUsers, "@b:x".to_string(), tracked_record(false)).unwrap();
    txn.put(PartitionId::TrackedUsers, "@a:x".to_string(), tracked_record(false)).unwrap();
    txn.delete(PartitionId::TrackedUsers, "@b:x".to_string()).unwrap();
    db.commit(txn).expect("commit on existing partitions succeeds");
    match db.get(PartitionId::TrackedUsers, &"@a:x".to_string()) {
        Some(Record::TrackedUser(dirty)) => assert!(!dirty),
        _ => panic!("the later put must win"),
    }
    assert!(db.get(PartitionId::TrackedUsers, &"@b:x".to_string()).is_none());
}

#[test]
fn failed_commit_changes_nothing() {
    // The store is opened without the sessions partition, so a
    // transaction touching it must fail as a whole: the write to the
    // tracked-users partition staged in the same transaction must not
    // become visible either.
    let ids = vec![PartitionId::TrackedUsers];
    let mut db = Db::open(None, 1, &ids).expect("fresh open succeeds");
    let mut txn = Transaction::begin(TxnMode::ReadWrite);
    txn.put(PartitionId::TrackedUsers, "@a:x".to_string(), tracked_record(true)).unwrap();
    txn.put(PartitionId::Sessions, "sender".to_string(), tracked_record(true)).unwrap();
    let r = db.commit(txn);
    assert_eq!(r, Err(CryptoStoreError::Store));
    assert!(db.get(PartitionId::TrackedUsers, &"@a:x".to_string()).is_none());
}

#[test]
fn read_only_transaction_refuses_writes() {
    let mut txn = Transaction::begin(TxnMode::ReadOnly);
    let r = txn.put(PartitionId::Account, "account".to_string(), tracked_record(true));
    assert_eq!(r, Err(CryptoStoreError::Access));
    let r = txn.delete(PartitionId::Account, "account".to_string());
    assert_eq!(r, Err(CryptoStoreError::Access));
    // Committing the (empty) read-only transaction is a no-op.
    let ids = vec![PartitionId::Account];
    let mut db = Db::open(None, 1, &ids).expect("fresh open succeeds");
    db.commit(txn).expect("empty commit succeeds");
}

#[test]
fn dropping_a_transaction_discards_its_writes() {
    let ids = vec![PartitionId::TrackedUsers];
    let mut db = Db::open(None, 1, &ids).expect("fresh open succeeds");
    {
        let mut txn = Transaction::begin(TxnMode::ReadWrite);
        txn.put(PartitionId::TrackedUsers, "@a:x".to_string(), tracked_record(true)).unwrap();
        // No commit: the transaction goes out of scope here.
    }
    assert!(db.get(PartitionId::TrackedUsers, &"@a:x".to_string()).is_none());
    let mut txn = Transaction::begin(TxnMode::ReadWrite);
    txn.put(PartitionId::TrackedUsers, "@a:x".to_string(), tracked_record(true)).unwrap();
    db.commit(txn).unwrap();
    assert!(db.get(PartitionId::TrackedUsers, &"@a:x".to_string()).is_some());
}

#[test]
fn migration_creates_missing_partitions_and_keeps_data() {
    let ids_v1 = vec![PartitionId::Account];
    let mut db = Db::open(None, 1, &ids_v1).expect("fresh open succeeds");
    let mut txn = Transaction::begin(TxnMode::ReadWrite);
    txn.put(PartitionId::Account, "account".to_string(), tracked_record(true)).unwrap();
    db.commit(txn).unwrap();

    let ids_v2 = vec![PartitionId::Account, PartitionId::Sessions];
    let db2 = Db::open(Some(db), 2, &ids_v2).expect("upgrade succeeds");
    assert_eq!(db2.version, 2);
    assert!(db2.get(PartitionId::Account, &"account".to_string()).is_some());
    assert!(db2.get(PartitionId::Sessions, &"sender".to_string()).is_none());
}

#[test]
fn migration_is_idempotent() {
    let ids = vec![PartitionId::Account, PartitionId::Sessions];
    let mut db = Db::open(None, 3, &ids).expect("fresh open succeeds");
    let mut txn = Transaction::begin(TxnMode::ReadWrite);
    txn.put(PartitionId::Account, "account".to_string(), tracked_record(false)).unwrap();
    db.commit(txn).unwrap();

    // Re-running the same migration on an already-current store changes
    // no schema and preserves all data.
    let db2 = Db::open(Some(db), 3, &ids).expect("reopen succeeds");
    assert_eq!(db2.version, 3);
    match db2.get(PartitionId::Account, &"account".to_string()) {
        Some(Record::TrackedUser(dirty)) => assert!(!dirty),
        _ => panic!("data must be preserved"),
    }
    let db3 = Db::open(Some(db2), 3, &ids).expect("a second reopen succeeds too");
    assert!(db3.get(PartitionId::Account, &"account".to_string()).is_some());
}

#[test]
fn opening_newer_data_with_an_older_version_fails() {
    let ids = vec![PartitionId::Account];
    let db = Db::open(None, 5, &ids).expect("fresh open succeeds");
    let r = Db::open(Some(db), 4, &ids);
    assert!(matches!(r, Err(CryptoStoreError::Open)));
}
