use pbs_datastore::api_types::{
    BackupDir, BackupGroup, BackupType, DataStoreConfig, GarbageCollectionStatus, Operation,
};
use pbs_datastore::auth::Authid;
use pbs_datastore::chunk_store::{ChunkStore, DataBlob};
use pbs_datastore::datastore::DataStore;
use pbs_datastore::digest::{digest_of_text, digest_to_hex, digest_to_prefix};
use pbs_datastore::error::Error;
use pbs_datastore::online_status::lookup_changer_name;
use pbs_datastore::pxar::{goodbye_range, CaFormatGoodbyeItem};
use pbs_datastore::registry::DatastoreRegistry;
use pbs_datastore::worker::{
    abort_result, check_abort, fail_on_shutdown, poll, shutdown_result, TaskState,
};

#[test]
fn polling_points_report_the_request() {
    assert_eq!(abort_result(false), Ok(()));
    assert_eq!(abort_result(true), Err(Error::AbortRequested));
    assert_eq!(shutdown_result(false), Ok(()));
    assert_eq!(shutdown_result(true), Err(Error::ShuttingDown));

    let running = TaskState::running();
    assert_eq!(check_abort(&running), Ok(()));
    assert_eq!(fail_on_shutdown(&running), Ok(()));
    assert_eq!(poll(&running), Ok(()));

    let aborted = TaskState { abort: true, shutdown: false };
    assert_eq!(check_abort(&aborted), Err(Error::AbortRequested));
    assert_eq!(fail_on_shutdown(&aborted), Ok(()));
    assert_eq!(poll(&aborted), Err(Error::AbortRequested));

    let stopping = TaskState { abort: false, shutdown: true };
    assert_eq!(check_abort(&stopping), Ok(()));
    assert_eq!(fail_on_shutdown(&stopping), Err(Error::ShuttingDown));
    assert_eq!(poll(&stopping), Err(Error::ShuttingDown));

    // the abort request is asked for first
    let both = TaskState { abort: true, shutdown: true };
    assert_eq!(poll(&both), Err(Error::AbortRequested));
}

#[test]
fn groups_and_snapshots_are_opened_from_their_parts() {
    let store = DataStore::open_path("store1", "/data/store1", Some(Operation::Read)).unwrap();
    assert_eq!(store.name(), "store1");
    assert_eq!(store.base_path(), "/data/store1");
    assert_eq!(store.operation(), Some(Operation::Read));
    assert!(!store.verify_new());

    let group = store.backup_group(BackupGroup::new(BackupType::Vm, "100".to_string()));
    assert_eq!(group.to_string(), "vm/100");

    let dir = store.backup_dir(BackupDir::new(group, 1_704_067_200)).unwrap();
    assert_eq!(dir.to_string().unwrap(), "vm/100/2024-01-01T00:00:00Z");
    // a time that has no text
    let group = store.backup_group_from_parts(BackupType::Vm, "100");
    assert_eq!(
        store.backup_dir(BackupDir::new(group, i64::MAX)).err(),
        Some(Error::InvalidInput)
    );

    let group = store.backup_group_from_parts(BackupType::Host, "mail");
    let dir = store.backup_dir_with_rfc3339(group, "2024-01-01T00:00:00Z").unwrap();
    assert_eq!(dir.time, 1_704_067_200);
    assert_eq!(dir.group.ty, BackupType::Host);
    assert_eq!(dir.group.id, "mail");
    let group = store.backup_group_from_parts(BackupType::Host, "mail");
    assert_eq!(
        store.backup_dir_with_rfc3339(group, "2024-01-01 00:00:00").err(),
        Some(Error::InvalidInput)
    );
}

#[test]
fn groups_are_listed_in_three_ways() {
    let mut store = DataStore::open_path("store1", "/data/store1", None).unwrap();
    let owner = Authid::parse("alice@pbs").unwrap();
    for id in ["100", "200"] {
        let group = store.backup_group_from_parts(BackupType::Vm, id);
        let (_, guard) = store.create_locked_backup_group(&group, &owner).unwrap();
        store.unlock(guard);
    }
    let names = |list: Vec<BackupGroup>| -> Vec<String> {
        list.iter().map(|g| g.to_string()).collect()
    };
    let expected = vec!["vm/100".to_string(), "vm/200".to_string()];
    assert_eq!(names(store.iter_backup_groups().unwrap()), expected);
    assert_eq!(names(store.iter_backup_groups_ok().unwrap()), expected);
    assert_eq!(names(store.list_backup_groups().unwrap()), expected);
}

#[test]
fn a_store_is_set_up_as_its_configuration_says() {
    let mut config = DataStoreConfig::new("store1".to_string(), "/data/store1".to_string());
    config.verify_new = Some(true);
    config.tuning = Some("chunk-order=none".to_string());
    let store = DataStore::open_from_config(config, Some(Operation::Write)).unwrap();
    assert!(store.verify_new());
    assert_eq!(store.operation(), Some(Operation::Write));
    assert!(!store.garbage_collection_running());

    let mut config = DataStoreConfig::new("store1".to_string(), "/data/store1".to_string());
    config.tuning = Some("chunk-order=sideways".to_string());
    assert_eq!(
        DataStore::open_from_config(config, None).err(),
        Some(Error::InvalidInput)
    );

    let config = DataStoreConfig::new("store1".to_string(), "/data/store1".to_string());
    let pool = ChunkStore::create("store1", "/data/store1");
    let mut status = GarbageCollectionStatus::default();
    status.disk_chunks = 3;
    assert!(DataStore::with_store_and_config(pool, &config, 4, 1000, Some(status)).is_ok());
    let mut config = DataStoreConfig::new("store1".to_string(), "/data/store1".to_string());
    config.tuning = Some("chunk-order".to_string());
    let pool = ChunkStore::create("store1", "/data/store1");
    assert_eq!(
        DataStore::with_store_and_config(pool, &config, 4, 1000, None).err(),
        Some(Error::InvalidInput)
    );
}

#[test]
fn the_changer_is_the_named_one_or_the_default() {
    assert_eq!(
        lookup_changer_name(Some("sl3"), Some("other".to_string())),
        Ok("sl3".to_string())
    );
    assert_eq!(lookup_changer_name(Some("sl3"), None), Ok("sl3".to_string()));
    assert_eq!(lookup_changer_name(None, Some("other".to_string())), Ok("other".to_string()));
    assert_eq!(lookup_changer_name(None, None), Err(Error::NotFound));
}

#[test]
fn digests_have_a_prefix_and_texts_a_digest() {
    let digest = digest_of_text("hello");
    assert_eq!(
        digest_to_hex(&digest),
        "2cf24dba5fb0a30e26e83b2ac5b9e29e1b161e5c1fa7425e73043362938b9824"
    );
    assert_eq!(digest_to_prefix(&digest), "2c");
    assert_eq!(digest_to_prefix(&[0x0a; 32]), "0a");
    assert_ne!(digest_of_text(""), digest_of_text("hello"));
    assert_eq!(DataBlob::from_raw(b"hello".to_vec()).raw_size(), 5);
    assert_eq!(DataBlob::from_raw(Vec::new()).raw_size(), 0);
}

#[test]
fn a_token_belongs_to_its_user() {
    let token = Authid::parse("alice@pbs!backup").unwrap();
    assert!(token.is_token());
    let user = token.without_token();
    assert!(!user.is_token());
    assert_eq!(user.to_string(), "alice@pbs");
    assert_eq!(user.without_token().to_string(), "alice@pbs");
}

#[test]
fn operations_are_counted_by_store_and_kind() {
    let mut registry = DatastoreRegistry::new();
    assert_eq!(registry.active_operations("store1", Operation::Read), 0);
    assert!(registry.update_active_operations("store1", Some(Operation::Read)));
    assert!(registry.update_active_operations("store1", Some(Operation::Read)));
    assert!(registry.update_active_operations("store1", Some(Operation::Write)));
    assert!(registry.update_active_operations("store2", Some(Operation::Write)));
    assert!(registry.update_active_operations("store2", None));
    assert_eq!(registry.active_operations("store1", Operation::Read), 2);
    assert_eq!(registry.active_operations("store1", Operation::Write), 1);
    assert_eq!(registry.active_operations("store2", Operation::Read), 0);
    assert_eq!(registry.active_operations("store2", Operation::Write), 1);
}

#[test]
fn one_goodbye_item_names_one_entry() {
    let item = |offset: u64, size: u64| CaFormatGoodbyeItem { offset, size, hash: 1 };
    assert_eq!(goodbye_range(100, 900, &item(800, 50)), Ok((100, 150)));
    assert_eq!(goodbye_range(100, 900, &item(50, 50)), Ok((850, 900)));
    assert_eq!(goodbye_range(100, 900, &item(0, 0)), Ok((900, 900)));
    // before the start of the directory
    assert_eq!(goodbye_range(100, 900, &item(801, 10)), Err(Error::Corrupt));
    // beyond the table
    assert_eq!(goodbye_range(100, 900, &item(50, 51)), Err(Error::Corrupt));
    assert_eq!(goodbye_range(900, 100, &item(0, 0)), Err(Error::Corrupt));
    assert_eq!(goodbye_range(0, u64::MAX, &item(1, u64::MAX)), Err(Error::Corrupt));
}
