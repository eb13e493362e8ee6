use cryptostore::store::Cryptostore;
use cryptostore::types::{Account, Device, InboundGroupSession, Session, UserIdentity};

fn account(pickle: &[u8]) -> Account {
    Account {
        user_id: "@alice:example.org".to_string(),
        device_id: "ADEVICE".to_string(),
        shared: false,
        pickle: pickle.to_vec(),
    }
}

fn session(sender: &str, id: &str, pickle: &[u8]) -> Session {
    Session {
        sender_key: sender.to_string(),
        session_id: id.to_string(),
        pickle: pickle.to_vec(),
    }
}

fn group_session(room: &str, sender: &str, id: &str, pickle: &[u8]) -> InboundGroupSession {
    InboundGroupSession {
        room_id: room.to_string(),
        sender_key: sender.to_string(),
        session_id: id.to_string(),
        pickle: pickle.to_vec(),
    }
}

fn device(user: &str, id: &str, deleted: bool, pickle: &[u8]) -> Device {
    Device {
        user_id: user.to_string(),
        device_id: id.to_string(),
        deleted,
        pickle: pickle.to_vec(),
    }
}

#[test]
fn fresh_store_answers_absent_everywhere() {
    let store = Cryptostore::open();
    assert!(store.load_account().unwrap().is_none());
    assert!(store.get_sessions(&"sender".to_string()).unwrap().is_none());
    assert!(store
        .get_inbound_group_session(&"!r:x".to_string(), &"sender".to_string(), &"sid".to_string())
        .unwrap()
        .is_none());
    assert!(store
        .get_device(&"@a:x".to_string(), &"DEV".to_string())
        .unwrap()
        .is_none());
    assert!(store.get_user_devices(&"@a:x".to_string()).unwrap().is_empty());
    assert!(store.get_user_identity(&"@a:x".to_string()).unwrap().is_none());
    assert!(!store.is_user_tracked(&"@a:x".to_string()));
    assert!(!store.has_users_for_key_query());
    assert!(store.users_for_key_query().is_empty());
}

#[test]
fn account_round_trips() {
    let mut store = Cryptostore::open();
    let acct = account(&[1, 2, 3, 4, 5]);
    store.save_account(&acct).unwrap();
    let loaded = store
        .load_account()
        .unwrap()
        .expect("an account was saved");
    assert_eq!(loaded.user_id, acct.user_id);
    assert_eq!(loaded.device_id, acct.device_id);
    assert_eq!(loaded.shared, acct.shared);
    assert_eq!(loaded.pickle, acct.pickle);
}

#[test]
fn account_save_overwrites_in_place() {
    let mut store = Cryptostore::open();
    store.save_account(&account(&[1])).unwrap();
    let mut second = account(&[9, 9]);
    second.shared = true;
    store.save_account(&second).unwrap();
    let loaded = store.load_account().unwrap().unwrap();
    assert_eq!(loaded.pickle, vec![9, 9]);
    assert!(loaded.shared);
}

#[test]
fn sessions_come_back_in_last_used_order() {
    let mut store = Cryptostore::open();
    let sender = "curve-key-1".to_string();
    let s1 = session(&sender, "sid1", &[1]);
    let s2 = session(&sender, "sid2", &[2]);
    store.save_sessions(&vec![s1, s2]).unwrap();
    let got = store.get_sessions(&sender).unwrap().expect("saved");
    assert_eq!(got.len(), 2);
    assert_eq!(got[0].session_id, "sid1");
    assert_eq!(got[1].session_id, "sid2");
    assert_eq!(got[0].pickle, vec![1]);
    assert_eq!(got[1].pickle, vec![2]);
}

#[test]
fn resaving_a_session_moves_it_to_most_recent() {
    let mut store = Cryptostore::open();
    let sender = "curve-key-1".to_string();
    store
        .save_sessions(&vec![session(&sender, "sid1", &[1]), session(&sender, "sid2", &[2])])
        .unwrap();
    store
        .save_sessions(&vec![session(&sender, "sid1", &[3])])
        .unwrap();
    let got = store.get_sessions(&sender).unwrap().expect("saved");
    assert_eq!(got.len(), 2);
    assert_eq!(got[0].session_id, "sid2");
    assert_eq!(got[1].session_id, "sid1");
    assert_eq!(got[1].pickle, vec![3], "the re-save replaced the ratchet state");
}

#[test]
fn sessions_are_grouped_by_sender_key() {
    let mut store = Cryptostore::open();
    store
        .save_sessions(&vec![
            session("sender-a", "sid1", &[1]),
            session("sender-b", "sid2", &[2]),
        ])
        .unwrap();
    let got_a = store.get_sessions(&"sender-a".to_string()).unwrap().unwrap();
    let got_b = store.get_sessions(&"sender-b".to_string()).unwrap().unwrap();
    assert_eq!(got_a.len(), 1);
    assert_eq!(got_b.len(), 1);
    assert_eq!(got_a[0].session_id, "sid1");
    assert_eq!(got_b[0].session_id, "sid2");
}

#[test]
fn group_session_save_signals_insert_then_overwrite() {
    let mut store = Cryptostore::open();
    let g1 = group_session("!room:x", "sender", "sid", &[1, 1]);
    let inserted = store.save_inbound_group_session(&g1).unwrap();
    assert!(inserted, "the first save of a fresh triple inserts");
    let g2 = group_session("!room:x", "sender", "sid", &[2, 2]);
    let inserted = store.save_inbound_group_session(&g2).unwrap();
    assert!(!inserted, "the second save of the same triple overwrites");
    let got = store
        .get_inbound_group_session(&"!room:x".to_string(), &"sender".to_string(), &"sid".to_string())
        .unwrap()
        .expect("stored");
    assert_eq!(got.pickle, vec![2, 2], "the stored content is the latest save");
}

#[test]
fn group_sessions_are_keyed_by_the_full_triple() {
    let mut store = Cryptostore::open();
    assert!(store
        .save_inbound_group_session(&group_session("!room:x", "sender", "sid", &[1]))
        .unwrap());
    assert!(store
        .save_inbound_group_session(&group_session("!room:x", "sender", "other", &[2]))
        .unwrap());
    assert!(store
        .save_inbound_group_session(&group_session("!other:x", "sender", "sid", &[3]))
        .unwrap());
    let got = store
        .get_inbound_group_session(&"!room:x".to_string(), &"sender".to_string(), &"sid".to_string())
        .unwrap()
        .unwrap();
    assert_eq!(got.pickle, vec![1]);
    assert!(store
        .get_inbound_group_session(&"!room:x".to_string(), &"other".to_string(), &"sid".to_string())
        .unwrap()
        .is_none());
}

#[test]
fn three_devices_of_one_user_become_visible_together() {
    let mut store = Cryptostore::open();
    let batch = vec![
        device("@u:x", "DEV1", false, &[1]),
        device("@u:x", "DEV2", false, &[2]),
        device("@u:x", "DEV3", true, &[3]),
    ];
    store.save_devices(&batch).unwrap();
    let dir = store.get_user_devices(&"@u:x".to_string()).unwrap();
    assert_eq!(dir.len(), 3);
    assert!(dir.iter().any(|d| d.device_id == "DEV1"));
    assert!(dir.iter().any(|d| d.device_id == "DEV2"));
    assert!(
        dir.iter().any(|d| d.device_id == "DEV3" && d.deleted),
        "marked-deleted devices stay listed"
    );
}

#[test]
fn saving_a_device_again_overwrites_its_record() {
    let mut store = Cryptostore::open();
    store.save_devices(&vec![device("@u:x", "DEV1", false, &[1])]).unwrap();
    store.save_devices(&vec![device("@u:x", "DEV1", true, &[7, 8])]).unwrap();
    let got = store
        .get_device(&"@u:x".to_string(), &"DEV1".to_string())
        .unwrap()
        .expect("stored");
    assert!(got.deleted);
    assert_eq!(got.pickle, vec![7, 8]);
    assert_eq!(store.get_user_devices(&"@u:x".to_string()).unwrap().len(), 1);
}

#[test]
fn deleting_a_device_removes_it() {
    let mut store = Cryptostore::open();
    let d1 = device("@u:x", "DEV1", false, &[1]);
    let d2 = device("@u:x", "DEV2", false, &[2]);
    store.save_devices(&vec![d1.duplicate(), d2]).unwrap();
    store.delete_device(&d1).unwrap();
    assert!(store
        .get_device(&"@u:x".to_string(), &"DEV1".to_string())
        .unwrap()
        .is_none());
    let dir = store.get_user_devices(&"@u:x".to_string()).unwrap();
    assert_eq!(dir.len(), 1);
    assert_eq!(dir[0].device_id, "DEV2");
}

#[test]
fn identity_round_trips_and_replaces() {
    let mut store = Cryptostore::open();
    let first = UserIdentity { user_id: "@u:x".to_string(), pickle: vec![1] };
    let second = UserIdentity { user_id: "@u:x".to_string(), pickle: vec![2, 2] };
    store.save_user_identities(&vec![first]).unwrap();
    store.save_user_identities(&vec![second]).unwrap();
    let got = store
        .get_user_identity(&"@u:x".to_string())
        .unwrap()
        .expect("stored");
    assert_eq!(got.user_id, "@u:x");
    assert_eq!(got.pickle, vec![2, 2]);
    assert!(store.get_user_identity(&"@v:x".to_string()).unwrap().is_none());
}

#[test]
fn tracked_user_updates_are_idempotent() {
    let mut store = Cryptostore::open();
    let u = "@u:x".to_string();
    assert!(store.update_tracked_user(&u, true).unwrap(), "first call changes the set");
    assert!(!store.update_tracked_user(&u, true).unwrap(), "an exact repeat is a no-op");
    assert!(store.is_user_tracked(&u));
    let dirty = store.users_for_key_query();
    assert_eq!(dirty.len(), 1);
    assert_eq!(dirty[0], u);
    assert!(!store.update_tracked_user(&u, true).unwrap());
    assert_eq!(store.users_for_key_query().len(), 1, "the set's size is stable under repeats");
}

#[test]
fn dirty_flag_transitions_report_a_change() {
    let mut store = Cryptostore::open();
    let u = "@u:x".to_string();
    assert!(store.update_tracked_user(&u, false).unwrap());
    assert!(!store.has_users_for_key_query());
    assert!(store.update_tracked_user(&u, true).unwrap(), "flipping the flag is a change");
    assert!(store.has_users_for_key_query());
    assert!(store.update_tracked_user(&u, false).unwrap());
    assert!(!store.has_users_for_key_query());
    assert!(store.is_user_tracked(&u), "a clean user stays tracked");
}

#[test]
fn reopening_preserves_every_store() {
    let mut store = Cryptostore::open();
    store.save_account(&account(&[1])).unwrap();
    store
        .save_sessions(&vec![session("sender", "sid", &[2])])
        .unwrap();
    store
        .save_inbound_group_session(&group_session("!r:x", "sender", "sid", &[3]))
        .unwrap();
    store.save_devices(&vec![device("@u:x", "DEV", false, &[4])]).unwrap();
    store
        .save_user_identities(&vec![UserIdentity { user_id: "@u:x".to_string(), pickle: vec![5] }])
        .unwrap();
    store.update_tracked_user(&"@u:x".to_string(), true).unwrap();

    let store = Cryptostore::reopen(store);
    assert_eq!(store.load_account().unwrap().unwrap().pickle, vec![1]);
    assert_eq!(store.get_sessions(&"sender".to_string()).unwrap().unwrap()[0].pickle, vec![2]);
    assert_eq!(
        store
            .get_inbound_group_session(&"!r:x".to_string(), &"sender".to_string(), &"sid".to_string())
            .unwrap()
            .unwrap()
            .pickle,
        vec![3]
    );
    assert_eq!(
        store.get_device(&"@u:x".to_string(), &"DEV".to_string()).unwrap().unwrap().pickle,
        vec![4]
    );
    assert_eq!(store.get_user_identity(&"@u:x".to_string()).unwrap().unwrap().pickle, vec![5]);
    assert!(store.is_user_tracked(&"@u:x".to_string()));
    assert!(store.has_users_for_key_query());
}

#[test]
fn saving_an_empty_batch_changes_nothing() {
    let mut store = Cryptostore::open();
    store.save_sessions(&Vec::new()).unwrap();
    store.save_devices(&Vec::new()).unwrap();
    store.save_user_identities(&Vec::new()).unwrap();
    assert!(store.get_sessions(&"sender".to_string()).unwrap().is_none());
    assert!(store.get_user_devices(&"@u:x".to_string()).unwrap().is_empty());
    assert!(store.get_user_identity(&"@u:x".to_string()).unwrap().is_none());
}

#[test]
fn one_batch_can_touch_several_users() {
    let mut store = Cryptostore::open();
    store
        .save_devices(&vec![
            device("@u:x", "DEV1", false, &[1]),
            device("@v:x", "DEV2", false, &[2]),
            device("@u:x", "DEV3", false, &[3]),
        ])
        .unwrap();
    assert_eq!(store.get_user_devices(&"@u:x".to_string()).unwrap().len(), 2);
    assert_eq!(store.get_user_devices(&"@v:x".to_string()).unwrap().len(), 1);
}

#[test]
fn key_query_set_lists_only_dirty_users() {
    let mut store = Cryptostore::open();
    store.update_tracked_user(&"@dirty:x".to_string(), true).unwrap();
    store.update_tracked_user(&"@clean:x".to_string(), false).unwrap();
    let dirty = store.users_for_key_query();
    assert_eq!(dirty.len(), 1);
    assert_eq!(dirty[0], "@dirty:x");
    assert!(store.is_user_tracked(&"@clean:x".to_string()));
}

#[test]
fn deleting_an_unknown_device_is_a_no_op() {
    let mut store = Cryptostore::open();
    store.save_devices(&vec![device("@u:x", "DEV1", false, &[1])]).unwrap();
    store.delete_device(&device("@u:x", "GHOST", false, &[])).unwrap();
    store.delete_device(&device("@nobody:x", "DEV1", false, &[])).unwrap();
    assert_eq!(store.get_user_devices(&"@u:x".to_string()).unwrap().len(), 1);
}
