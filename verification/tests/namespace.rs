use pbs_datastore::api_types::{BackupDir, BackupGroup, BackupType};
use pbs_datastore::auth::{check_backup_owner, Authid};
use pbs_datastore::chunk_store::DataBlob;
use pbs_datastore::datastore::DataStore;
use pbs_datastore::error::{Error, LockReason};
use pbs_datastore::index::{DynamicEntry, DynamicIndexReader, FixedIndexReader, IndexData, IndexFile};
use pbs_datastore::manifest::{
    archive_type, ArchiveType, BackupManifest, CLIENT_LOG_BLOB_NAME, MANIFEST_BLOB_NAME,
};
use pbs_datastore::namespace::{destroy_decision, read_owner_text, FileContent};

const T_2024: i64 = 1_704_067_200;

fn vm100() -> BackupGroup {
    BackupGroup::new(BackupType::Vm, "100".to_string())
}

fn dir_at(time: i64) -> BackupDir {
    BackupDir::new(vm100(), time)
}

fn auth(text: &str) -> Authid {
    Authid::parse(text).unwrap()
}

fn new_store() -> DataStore {
    DataStore::open_path("store1", "/data/store1", None).unwrap()
}

fn store_with_snapshots(times: &[i64]) -> DataStore {
    let mut store = new_store();
    let (_, guard) = store
        .create_locked_backup_group(&vm100(), &auth("backup@pbs"))
        .unwrap();
    store.unlock(guard);
    for t in times {
        let (_, _, guard) = store.create_locked_backup_dir(&dir_at(*t)).unwrap();
        store.unlock(guard);
    }
    store
}

fn manifest(files: &[&str]) -> BackupManifest {
    let mut m = BackupManifest::new(BackupType::Vm, "100".to_string(), T_2024);
    for f in files {
        m.add_file(f.to_string(), 10, [0u8; 32]);
    }
    m
}

#[test]
fn second_lock_of_a_snapshot_fails() {
    let mut store = store_with_snapshots(&[]);
    let (path, is_new, guard) = store.create_locked_backup_dir(&dir_at(T_2024)).unwrap();
    assert_eq!(path, "vm/100/2024-01-01T00:00:00Z");
    assert!(is_new);

    let second = store.create_locked_backup_dir(&dir_at(T_2024));
    match second {
        Err(Error::LockContended(reason)) => {
            assert_eq!(reason, LockReason::SnapshotInUse);
            assert!(reason.message().contains("already in use"));
        }
        other => panic!("unexpected result {:?}", other.map(|r| (r.0, r.1))),
    }

    store.unlock(guard);
    let (_, is_new, _guard) = store.create_locked_backup_dir(&dir_at(T_2024)).unwrap();
    assert!(!is_new);
}

#[test]
fn protected_snapshot_keeps_its_group() {
    let mut store = store_with_snapshots(&[T_2024, T_2024 + 60]);
    store.update_protection(&dir_at(T_2024), true).unwrap();

    assert_eq!(store.remove_backup_group(&vm100()), Ok(false));

    let left = store.list_snapshots(&vm100()).unwrap();
    assert_eq!(left.len(), 1);
    assert_eq!(left[0].time, T_2024);
    assert_eq!(store.list_backup_groups().unwrap().len(), 1);
    assert!(store.get_owner(&vm100()).is_ok());
}

#[test]
fn unprotected_group_is_removed_whole() {
    let mut store = store_with_snapshots(&[T_2024, T_2024 + 60]);
    assert_eq!(store.remove_backup_group(&vm100()), Ok(true));
    assert!(store.list_backup_groups().unwrap().is_empty());
    assert_eq!(store.remove_backup_group(&vm100()), Err(Error::NotFound));
    assert!(matches!(store.get_owner(&vm100()), Err(Error::NotFound)));
}

#[test]
fn protected_snapshot_cannot_be_removed() {
    let mut store = store_with_snapshots(&[T_2024]);
    store.update_protection(&dir_at(T_2024), true).unwrap();
    assert_eq!(
        store.remove_backup_dir(&dir_at(T_2024), false),
        Err(Error::ProtectedSnapshot)
    );
    assert_eq!(
        store.remove_backup_dir(&dir_at(T_2024), true),
        Err(Error::ProtectedSnapshot)
    );
    store.update_protection(&dir_at(T_2024), false).unwrap();
    // taking the protection away twice is no failure
    store.update_protection(&dir_at(T_2024), false).unwrap();
    assert_eq!(store.remove_backup_dir(&dir_at(T_2024), false), Ok(()));
    assert_eq!(
        store.remove_backup_dir(&dir_at(T_2024), false),
        Err(Error::NotFound)
    );
}

#[test]
fn locked_snapshot_is_removed_only_with_force() {
    let mut store = store_with_snapshots(&[T_2024]);
    let (_, _, guard) = store.create_locked_backup_dir(&dir_at(T_2024)).unwrap();
    assert_eq!(
        store.remove_backup_dir(&dir_at(T_2024), false),
        Err(Error::LockContended(LockReason::PossiblyInUse))
    );
    assert_eq!(
        store.update_protection(&dir_at(T_2024), true),
        Err(Error::LockContended(LockReason::PossiblyInUse))
    );
    assert_eq!(store.remove_backup_dir(&dir_at(T_2024), true), Ok(()));
    store.unlock(guard);
    assert!(store.list_snapshots(&vm100()).unwrap().is_empty());
}

#[test]
fn group_removal_stops_at_a_snapshot_in_use() {
    let mut store = store_with_snapshots(&[10, 20, 30]);
    let (_, _, guard) = store.create_locked_backup_dir(&dir_at(20)).unwrap();
    assert_eq!(
        store.remove_backup_group(&vm100()),
        Err(Error::LockContended(LockReason::PossiblyInUse))
    );
    let left: Vec<i64> = store
        .list_snapshots(&vm100())
        .unwrap()
        .iter()
        .map(|d| d.time)
        .collect();
    assert_eq!(left, vec![20, 30]);
    store.unlock(guard);
    assert_eq!(store.remove_backup_group(&vm100()), Ok(true));
}

#[test]
fn locked_group_cannot_be_locked_or_removed() {
    let mut store = new_store();
    let (owner, guard) = store
        .create_locked_backup_group(&vm100(), &auth("backup@pbs"))
        .unwrap();
    assert_eq!(owner.to_string(), "backup@pbs");
    assert!(matches!(
        store.create_locked_backup_group(&vm100(), &auth("other@pbs")),
        Err(Error::LockContended(LockReason::BackupRunning))
    ));
    assert_eq!(
        store.remove_backup_group(&vm100()),
        Err(Error::LockContended(LockReason::PossiblyRunningBackup))
    );
    store.unlock(guard);
    // the group is there: its owner is answered, not set
    let (owner, _guard) = store
        .create_locked_backup_group(&vm100(), &auth("other@pbs"))
        .unwrap();
    assert_eq!(owner.to_string(), "backup@pbs");
}

#[test]
fn snapshot_needs_its_group() {
    let mut store = new_store();
    assert!(matches!(
        store.create_locked_backup_dir(&dir_at(T_2024)),
        Err(Error::NotFound)
    ));
    let _ = store
        .create_locked_backup_group(&vm100(), &auth("backup@pbs"))
        .unwrap();
    assert!(matches!(
        store.create_locked_backup_dir(&dir_at(i64::MAX)),
        Err(Error::InvalidInput)
    ));
    assert_eq!(
        store.remove_backup_dir(&dir_at(i64::MIN), false),
        Err(Error::InvalidInput)
    );
}

#[test]
fn owner_persists() {
    let mut store = store_with_snapshots(&[]);
    let token = auth("admin@pam!sync-job");
    assert_eq!(store.set_owner(&vm100(), &token, false), Err(Error::IoError));
    assert_eq!(store.get_owner(&vm100()).unwrap().to_string(), "backup@pbs");
    assert_eq!(store.set_owner(&vm100(), &token, true), Ok(()));
    let owner = store.get_owner(&vm100()).unwrap();
    assert!(owner.same(&token));
    assert_eq!(owner.to_string(), "admin@pam!sync-job");
    assert!(owner.is_token());
    assert_eq!(owner.user(), "admin@pam");

    let missing = BackupGroup::new(BackupType::Ct, "7".to_string());
    assert_eq!(store.set_owner(&missing, &token, true), Err(Error::NotFound));
    assert!(matches!(store.get_owner(&missing), Err(Error::NotFound)));
}

#[test]
fn token_owner_lets_its_user_in() {
    let mut store = store_with_snapshots(&[]);
    let token = auth("admin@pam!sync-job");
    store.set_owner(&vm100(), &token, true).unwrap();
    assert_eq!(store.owns_backup(&vm100(), &token), Ok(true));
    assert_eq!(store.owns_backup(&vm100(), &auth("admin@pam")), Ok(true));
    assert_eq!(store.owns_backup(&vm100(), &auth("other@pam")), Ok(false));
    assert_eq!(
        store.owns_backup(&vm100(), &auth("admin@pam!other-token")),
        Ok(false)
    );
    assert_eq!(
        check_backup_owner(&auth("admin@pam"), &token),
        Err(Error::OwnerCheckFailed)
    );
    assert_eq!(check_backup_owner(&token, &auth("admin@pam")), Ok(()));
}

#[test]
fn identities_are_read_strictly() {
    assert!(Authid::parse("user@pbs").is_ok());
    assert!(Authid::parse("first.last@example.com@pam").is_ok());
    assert!(Authid::parse("user@pbs!token_1").is_ok());
    assert_eq!(Authid::parse("user").err(), Some(Error::InvalidInput));
    assert_eq!(Authid::parse("@pbs").err(), Some(Error::InvalidInput));
    assert_eq!(Authid::parse("user@").err(), Some(Error::InvalidInput));
    assert_eq!(Authid::parse("user@pbs!").err(), Some(Error::InvalidInput));
    assert_eq!(Authid::parse("us er@pbs").err(), Some(Error::InvalidInput));
    assert_eq!(Authid::parse("user@pb s").err(), Some(Error::InvalidInput));
    assert_eq!(Authid::parse("user@pbs!to ken").err(), Some(Error::InvalidInput));
    // an exclamation mark in the name belongs to the name
    let odd = Authid::parse("who!@pbs").unwrap();
    assert!(!odd.is_token());
    assert_eq!(odd.to_string(), "who!@pbs");
}

#[test]
fn last_successful_backup_is_the_latest_with_a_manifest() {
    let mut store = store_with_snapshots(&[100, 300, 200]);
    assert_eq!(store.last_successful_backup(&vm100()), Ok(None));
    store
        .store_file(&dir_at(100), MANIFEST_BLOB_NAME, FileContent::Manifest(manifest(&[])))
        .unwrap();
    store
        .store_file(&dir_at(200), MANIFEST_BLOB_NAME, FileContent::Manifest(manifest(&[])))
        .unwrap();
    // a manifest file that is no manifest does not count
    store
        .store_file(
            &dir_at(300),
            MANIFEST_BLOB_NAME,
            FileContent::Blob(DataBlob::from_raw(b"garbage".to_vec())),
        )
        .unwrap();
    assert_eq!(store.last_successful_backup(&vm100()), Ok(Some(200)));
    let missing = BackupGroup::new(BackupType::Host, "web".to_string());
    assert_eq!(store.last_successful_backup(&missing), Ok(None));
}

#[test]
fn manifest_is_loaded_and_updated() {
    let mut store = store_with_snapshots(&[T_2024]);
    let dir = dir_at(T_2024);
    assert!(matches!(store.load_manifest(&dir), Err(Error::NotFound)));
    assert_eq!(
        store.update_manifest(&dir, |m: BackupManifest| m),
        Err(Error::NotFound)
    );
    store
        .store_file(&dir, MANIFEST_BLOB_NAME, FileContent::Manifest(manifest(&["a.didx"])))
        .unwrap();
    store
        .update_manifest(&dir, |mut m: BackupManifest| {
            m.unprotected = "{\"verify_state\":\"ok\"}".to_string();
            m
        })
        .unwrap();
    let loaded = store.load_manifest(&dir).unwrap();
    assert_eq!(loaded.unprotected, "{\"verify_state\":\"ok\"}");
    assert_eq!(loaded.files().len(), 1);
    assert_eq!(loaded.files()[0].filename, "a.didx");

    store
        .store_file(
            &dir,
            MANIFEST_BLOB_NAME,
            FileContent::Blob(DataBlob::from_raw(vec![1, 2, 3])),
        )
        .unwrap();
    assert!(matches!(store.load_manifest(&dir), Err(Error::Corrupt)));
    assert!(matches!(
        store.load_manifest(&dir_at(T_2024 + 1)),
        Err(Error::NotFound)
    ));
}

#[test]
fn cleanup_keeps_what_the_manifest_wants() {
    let mut store = store_with_snapshots(&[T_2024]);
    let dir = dir_at(T_2024);
    let blob = || FileContent::Blob(DataBlob::from_raw(vec![0]));
    for name in [MANIFEST_BLOB_NAME, CLIENT_LOG_BLOB_NAME, "a.didx", "b.fidx", "stale.tmp"] {
        store.store_file(&dir, name, blob()).unwrap();
    }
    store.update_protection(&dir, true).unwrap();
    store.cleanup_backup_dir(&dir, &manifest(&["a.didx"])).unwrap();
    assert!(store.load_file(&dir, MANIFEST_BLOB_NAME).is_ok());
    assert!(store.load_file(&dir, CLIENT_LOG_BLOB_NAME).is_ok());
    assert!(store.load_file(&dir, "a.didx").is_ok());
    assert!(matches!(store.load_file(&dir, "b.fidx"), Err(Error::NotFound)));
    assert!(matches!(store.load_file(&dir, "stale.tmp"), Err(Error::NotFound)));
    // the marker is a file that no manifest wants
    assert_eq!(store.remove_backup_dir(&dir, false), Ok(()));
    assert_eq!(
        store.cleanup_backup_dir(&dir, &manifest(&[])),
        Err(Error::NotFound)
    );
}

#[test]
fn paths_of_groups_and_snapshots() {
    let store = new_store();
    assert_eq!(store.name(), "store1");
    assert_eq!(store.base_path(), "/data/store1");
    assert_eq!(store.group_path(&vm100()), "/data/store1/vm/100");
    assert_eq!(
        store.snapshot_path(&dir_at(T_2024)).unwrap(),
        "/data/store1/vm/100/2024-01-01T00:00:00Z"
    );
    let group = store.backup_group_from_path("host/web-01.example").unwrap();
    assert_eq!(group.ty, BackupType::Host);
    assert_eq!(group.id, "web-01.example");
    assert_eq!(group.to_string(), "host/web-01.example");
    let dir = store.backup_dir_from_path("ct/200/1970-01-01T00:00:10Z").unwrap();
    assert_eq!(dir.group.ty, BackupType::Ct);
    assert_eq!(dir.time, 10);
    assert_eq!(dir.to_string().unwrap(), "ct/200/1970-01-01T00:00:10Z");
    for bad in ["vm", "vm/", "vm/100/", "disk/100", "vm/.hidden", "vm/a b", "vm/100/x"] {
        assert!(store.backup_group_from_path(bad).is_err(), "{}", bad);
    }
    for bad in ["vm/100", "vm/100/2024-13-01T00:00:00Z", "vm/100/2024-01-01T00:00:00z"] {
        assert!(store.backup_dir_from_path(bad).is_err(), "{}", bad);
    }
    assert!(store.backup_dir_from_parts(BackupType::Vm, "1", i64::MAX).is_err());
    assert_eq!(
        store.backup_dir_from_parts(BackupType::Vm, "1", 0).unwrap().time,
        0
    );
    assert_eq!(
        store.backup_group_from_parts(BackupType::Ct, "x").to_string(),
        "ct/x"
    );
}

#[test]
fn archive_types_go_by_extension() {
    assert_eq!(archive_type("root.pxar.didx"), Ok(ArchiveType::DynamicIndex));
    assert_eq!(archive_type("vm/100/x/drive-scsi0.img.fidx"), Ok(ArchiveType::FixedIndex));
    assert_eq!(archive_type("index.json.blob"), Ok(ArchiveType::Blob));
    assert_eq!(archive_type("notes.txt"), Err(Error::InvalidInput));
    assert_eq!(archive_type("didx"), Err(Error::InvalidInput));
    assert_eq!(archive_type(".didx"), Err(Error::InvalidInput));
    assert_eq!(archive_type("dir.didx/file"), Err(Error::InvalidInput));
}

#[test]
fn index_files_are_opened_by_path() {
    let mut store = store_with_snapshots(&[T_2024]);
    let dir = dir_at(T_2024);
    let d1 = [1u8; 32];
    let d2 = [2u8; 32];
    let dynamic = DynamicIndexReader::new(vec![
        DynamicEntry { end: 100, digest: d1 },
        DynamicEntry { end: 250, digest: d2 },
    ])
    .unwrap();
    store
        .store_file(&dir, "root.pxar.didx", FileContent::Index(IndexData::Dynamic(dynamic)))
        .unwrap();
    let fixed = FixedIndexReader::new(4096, 10_000, vec![d1, d2, d1]).unwrap();
    store
        .store_file(&dir, "disk.img.fidx", FileContent::Index(IndexData::Fixed(fixed)))
        .unwrap();

    let index = store.open_index("vm/100/2024-01-01T00:00:00Z/root.pxar.didx").unwrap();
    assert_eq!(index.index_count(), 2);
    assert_eq!(index.index_bytes(), 250);
    assert_eq!(index.index_digest(1), Some(&d2));
    assert_eq!(index.index_digest(2), None);
    let info = index.chunk_info(1).unwrap();
    assert_eq!((info.start, info.end, info.digest), (100, 250, d2));

    let fixed = store
        .open_fixed_reader("vm/100/2024-01-01T00:00:00Z/disk.img.fidx")
        .unwrap();
    assert_eq!(fixed.index_count(), 3);
    assert_eq!(fixed.index_bytes(), 10_000);
    let last = fixed.chunk_info(2).unwrap();
    assert_eq!((last.start, last.end), (8192, 10_000));
    assert!(fixed.chunk_info(3).is_none());

    assert!(matches!(
        store.open_index("vm/100/2024-01-01T00:00:00Z/none.didx"),
        Err(Error::NotFound)
    ));
    assert!(matches!(
        store.open_index("vm/100/2024-01-01T00:00:00Z/index.json.blob"),
        Err(Error::InvalidInput)
    ));
    assert!(matches!(
        store.open_dynamic_reader("vm/100/2024-01-01T00:00:00Z/disk.img.fidx"),
        Err(Error::Corrupt)
    ));
    assert!(store
        .open_dynamic_reader("vm/100/2024-01-01T00:00:00Z/root.pxar.didx")
        .is_ok());
}

#[test]
fn malformed_indexes_are_refused() {
    let d = [1u8; 32];
    assert!(FixedIndexReader::new(0, 10, vec![d]).is_err());
    assert!(FixedIndexReader::new(4096, 10_000, vec![d, d]).is_err());
    assert!(FixedIndexReader::new(4096, 8192, vec![d, d, d]).is_err());
    assert!(FixedIndexReader::new(4096, 0, vec![d]).is_err());
    assert!(FixedIndexReader::new(4096, 0, vec![]).is_ok());
    assert!(FixedIndexReader::new(u64::MAX, u64::MAX, vec![d, d]).is_err());
    assert!(matches!(
        DynamicIndexReader::new(vec![
            DynamicEntry { end: 10, digest: d },
            DynamicEntry { end: 5, digest: d },
        ]),
        Err(Error::Corrupt)
    ));
    assert!(DynamicIndexReader::new(vec![]).is_ok());
}

#[test]
fn manifest_lock_serializes_updates() {
    let mut store = store_with_snapshots(&[T_2024]);
    let dir = dir_at(T_2024);
    store
        .store_file(&dir, MANIFEST_BLOB_NAME, FileContent::Manifest(manifest(&[])))
        .unwrap();
    let guard = store.lock_manifest(&dir).unwrap();
    assert!(matches!(store.lock_manifest(&dir), Err(Error::LockTimeout)));
    assert_eq!(
        store.update_manifest(&dir, |m: BackupManifest| m),
        Err(Error::LockTimeout)
    );
    assert_eq!(
        store.remove_backup_dir(&dir, false),
        Err(Error::LockTimeout)
    );
    store.unlock_manifest(guard);
    assert_eq!(store.update_manifest(&dir, |m: BackupManifest| m), Ok(()));
    assert!(matches!(
        store.lock_manifest(&dir_at(T_2024 + 5)),
        Err(Error::NotFound)
    ));
    assert_eq!(
        pbs_datastore::namespace::manifest_lock_path("/run/proxmox-backup", "store1", &dir)
            .unwrap(),
        "/run/proxmox-backup/locks/store1/vm/100/2024-01-01T00:00:00Z.index.json.lck"
    );
}

#[test]
fn protection_can_be_asked_for() {
    let mut store = store_with_snapshots(&[T_2024]);
    let dir = dir_at(T_2024);
    assert_eq!(store.is_protected(&dir), Ok(false));
    store.update_protection(&dir, true).unwrap();
    assert_eq!(store.is_protected(&dir), Ok(true));
    assert_eq!(store.is_protected(&dir_at(1)), Err(Error::NotFound));
}

#[test]
fn owner_is_read_from_the_first_line() {
    let owner = |text: &str| read_owner_text(text).map(|a| a.to_string());
    assert_eq!(owner("alice@pbs\n"), Ok("alice@pbs".to_string()));
    assert_eq!(owner("alice@pbs!backup  \nsecond line\n"), Ok("alice@pbs!backup".to_string()));
    assert_eq!(owner("alice@pbs"), Ok("alice@pbs".to_string()));
    assert_eq!(owner(""), Err(Error::InvalidInput));
    assert_eq!(owner("\nalice@pbs\n"), Err(Error::InvalidInput));
    assert_eq!(owner(" alice@pbs\n"), Err(Error::InvalidInput));
}

#[test]
fn snapshots_are_destroyed_unless_held_or_protected() {
    assert_eq!(destroy_decision(false, false, false, false), Ok(()));
    assert_eq!(
        destroy_decision(true, false, false, false),
        Err(Error::LockContended(LockReason::PossiblyInUse))
    );
    assert_eq!(destroy_decision(false, true, false, false), Err(Error::LockTimeout));
    assert_eq!(
        destroy_decision(true, true, true, false),
        Err(Error::LockContended(LockReason::PossiblyInUse))
    );
    assert_eq!(destroy_decision(false, false, true, false), Err(Error::ProtectedSnapshot));
    // force passes the locks, never the protection
    assert_eq!(destroy_decision(true, true, false, true), Ok(()));
    assert_eq!(destroy_decision(true, true, true, true), Err(Error::ProtectedSnapshot));
}
