use std::cell::Cell;

use pbs_datastore::api_types::{BackupDir, BackupGroup, BackupType};
use pbs_datastore::auth::Authid;
use pbs_datastore::chunk_store::DataBlob;
use pbs_datastore::datastore::DataStore;
use pbs_datastore::error::{Error, LockReason};
use pbs_datastore::gc::GcEvent;
use pbs_datastore::index::{DynamicEntry, DynamicIndexReader, FixedIndexReader, IndexData};
use pbs_datastore::namespace::FileContent;
use pbs_datastore::worker::{TaskState, WorkerTaskContext};

const T_2024: i64 = 1_704_067_200;

fn blob(data: &[u8]) -> DataBlob {
    DataBlob::from_raw(data.to_vec())
}

fn vm100() -> BackupGroup {
    BackupGroup::new(BackupType::Vm, "100".to_string())
}

fn snapshot() -> BackupDir {
    BackupDir::new(vm100(), T_2024)
}

fn dynamic_index(digests: &[[u8; 32]]) -> FileContent {
    let mut entries = Vec::new();
    let mut end = 0u64;
    for d in digests {
        end += 4096;
        entries.push(DynamicEntry { end, digest: *d });
    }
    FileContent::Index(IndexData::Dynamic(DynamicIndexReader::new(entries).unwrap()))
}

fn store_with_snapshot(index_digests: &[[u8; 32]]) -> DataStore {
    let mut store = DataStore::open_path("store1", "/data/store1", None).unwrap();
    let auth = Authid::parse("backup@pbs").unwrap();
    let (_, group_guard) = store.create_locked_backup_group(&vm100(), &auth).unwrap();
    let (path, is_new, dir_guard) = store.create_locked_backup_dir(&snapshot()).unwrap();
    assert_eq!(path, "vm/100/2024-01-01T00:00:00Z");
    assert!(is_new);
    store
        .store_file(&snapshot(), "root.pxar.didx", dynamic_index(index_digests))
        .unwrap();
    store.unlock(dir_guard);
    store.unlock(group_guard);
    store
}

struct AbortAfter {
    polls_left: Cell<usize>,
}

impl WorkerTaskContext for AbortAfter {
    fn abort_requested(&self) -> bool {
        let left = self.polls_left.get();
        if left == 0 {
            true
        } else {
            self.polls_left.set(left - 1);
            false
        }
    }

    fn shutdown_requested(&self) -> bool {
        false
    }
}

#[test]
fn referenced_chunk_survives_collection() {
    let c1 = [0x11u8; 32];
    let mut store = store_with_snapshot(&[c1]);
    let now: i64 = 2_000_000_000;
    store.insert_chunk(&blob(b"chunk one"), &c1, now - 7200).unwrap();

    let events = store
        .garbage_collection(&TaskState::running(), "UPID:gc", now)
        .unwrap();

    assert!(store.stat_chunk(&c1).is_ok());
    assert_eq!(store.stat_chunk(&c1).unwrap().atime, now);
    assert_eq!(store.load_chunk(&c1).unwrap().raw_data().as_slice(), b"chunk one");
    let status = store.last_gc_status();
    assert_eq!(status.index_file_count, 1);
    assert_eq!(status.index_data_bytes, 4096);
    assert_eq!(status.disk_chunks, 1);
    assert_eq!(status.disk_bytes, 9);
    assert_eq!(status.removed_chunks, 0);
    assert_eq!(events.len(), 1);
    assert!(matches!(
        events[0],
        GcEvent::MarkProgress { percentage: 100, done: 1, total: 1 }
    ));
}

#[test]
fn chunk_of_deleted_snapshot_is_swept() {
    let c1 = [0x11u8; 32];
    let mut store = store_with_snapshot(&[c1]);
    let now: i64 = 2_000_000_000;
    store.insert_chunk(&blob(b"chunk one"), &c1, now - 7200).unwrap();
    store.remove_backup_dir(&snapshot(), false).unwrap();

    store
        .garbage_collection(&TaskState::running(), "UPID:gc", now)
        .unwrap();

    assert_eq!(store.stat_chunk(&c1), Err(Error::NotFound));
    let status = store.last_gc_status();
    assert_eq!(status.index_file_count, 0);
    assert_eq!(status.removed_chunks, 1);
    assert_eq!(status.removed_bytes, 9);
    assert_eq!(status.disk_chunks, 0);
    assert_eq!(status.average_chunk_size(), None);
}

#[test]
fn second_collection_fails_while_first_runs() {
    let mut store = DataStore::open_path("store1", "/data/store1", None).unwrap();
    assert!(!store.garbage_collection_running());
    store.try_lock_garbage_collection().unwrap();
    assert!(store.garbage_collection_running());
    assert!(matches!(
        store.garbage_collection(&TaskState::running(), "UPID:second", 5),
        Err(Error::AlreadyRunning)
    ));
    assert_eq!(
        store.try_lock_garbage_collection(),
        Err(Error::AlreadyRunning)
    );
    store.unlock_garbage_collection();
    assert!(!store.garbage_collection_running());
    assert!(store
        .garbage_collection(&TaskState::running(), "UPID:third", 5)
        .is_ok());
    assert!(!store.garbage_collection_running());
}

#[test]
fn unreferenced_old_chunk_goes_fresh_one_stays() {
    let referenced = [0x11u8; 32];
    let old = [0x22u8; 32];
    let fresh = [0x33u8; 32];
    let mut store = store_with_snapshot(&[referenced]);
    let now: i64 = 1_000_000;
    store.insert_chunk(&blob(b"r"), &referenced, 10).unwrap();
    store.insert_chunk(&blob(b"old"), &old, now - 301).unwrap();
    store.insert_chunk(&blob(b"fresh"), &fresh, now - 300).unwrap();

    store
        .garbage_collection(&TaskState::running(), "UPID:gc", now)
        .unwrap();

    assert!(store.stat_chunk(&referenced).is_ok());
    assert!(store.stat_chunk(&old).is_err());
    assert!(store.stat_chunk(&fresh).is_ok());
    let status = store.last_gc_status();
    assert_eq!(status.removed_chunks, 1);
    assert_eq!(status.pending_chunks, 1);
    assert_eq!(status.disk_chunks, 1);
    assert_eq!(status.average_chunk_size(), Some(1));
}

#[test]
fn oldest_writer_moves_the_cutoff_back() {
    let unreferenced = [0x22u8; 32];
    let mut store = DataStore::open_path("store1", "/data/store1", None).unwrap();
    let now: i64 = 1_000_000;
    let writer = store.try_shared_chunk_store_lock(now - 5000).unwrap();
    store.insert_chunk(&blob(b"u"), &unreferenced, now - 5200).unwrap();
    store
        .garbage_collection(&TaskState::running(), "UPID:gc", now)
        .unwrap();
    // cutoff is the writer's registration less five minutes
    assert!(store.stat_chunk(&unreferenced).is_ok());
    store.unlock_shared_chunk_store_lock(writer);
    store
        .garbage_collection(&TaskState::running(), "UPID:gc", now)
        .unwrap();
    assert!(store.stat_chunk(&unreferenced).is_err());
}

#[test]
fn missing_chunk_is_reported_and_sidecars_are_kept() {
    let missing = [0x44u8; 32];
    let present = [0x55u8; 32];
    let mut store = store_with_snapshot(&[present, missing]);
    let now: i64 = 1_000_000;
    store.insert_chunk(&blob(b"p"), &present, 1).unwrap();
    store.insert_chunk(&blob(b"corrupt"), &missing, 1).unwrap();
    assert_eq!(store.rename_corrupted_chunk(&missing), Some(0));

    let events = store
        .garbage_collection(&TaskState::running(), "UPID:gc", now)
        .unwrap();

    assert_eq!(events.len(), 2);
    match &events[0] {
        GcEvent::MissingChunk { digest, index } => {
            assert_eq!(digest, &missing);
            assert_eq!(index, "vm/100/2024-01-01T00:00:00Z/root.pxar.didx");
        }
        other => panic!("unexpected event {:?}", other),
    }
    let status = store.last_gc_status();
    assert_eq!(status.still_bad, 1);
    assert_eq!(status.removed_bad, 0);
    assert_eq!(store.get_chunk_iterator().unwrap().len(), 2);
}

#[test]
fn unreferenced_sidecar_is_removed() {
    let digest = [0x44u8; 32];
    let mut store = DataStore::open_path("store1", "/data/store1", None).unwrap();
    store.insert_chunk(&blob(b"corrupt"), &digest, 1).unwrap();
    assert_eq!(store.rename_corrupted_chunk(&digest), Some(0));
    store
        .garbage_collection(&TaskState::running(), "UPID:gc", 1_000_000)
        .unwrap();
    let status = store.last_gc_status();
    assert_eq!(status.removed_bad, 1);
    assert_eq!(status.removed_bytes, 7);
    assert!(store.get_chunk_iterator().unwrap().is_empty());
}

#[test]
fn index_outside_the_scheme_is_counted_and_marked() {
    let digest = [0x66u8; 32];
    let mut store = DataStore::open_path("store1", "/data/store1", None).unwrap();
    let now: i64 = 1_000_000;
    store.insert_chunk(&blob(b"stray"), &digest, 1).unwrap();
    let index = IndexData::Fixed(FixedIndexReader::new(4096, 4096, vec![digest]).unwrap());
    store.store_stray_index("old/stuff/disk.fidx", index);
    assert_eq!(
        store.list_images().unwrap(),
        vec!["/data/store1/old/stuff/disk.fidx".to_string()]
    );

    let events = store
        .garbage_collection(&TaskState::running(), "UPID:gc", now)
        .unwrap();

    assert!(store.stat_chunk(&digest).is_ok());
    assert_eq!(events.len(), 2);
    assert!(matches!(events[1], GcEvent::StrangePaths { count: 1 }));
}

#[test]
fn hidden_index_files_are_not_marked() {
    let digest = [0x66u8; 32];
    let mut store = DataStore::open_path("store1", "/data/store1", None).unwrap();
    store.insert_chunk(&blob(b"hidden"), &digest, 1).unwrap();
    let index = IndexData::Fixed(FixedIndexReader::new(4096, 4096, vec![digest]).unwrap());
    store.store_stray_index(".trash/disk.fidx", index);
    assert!(store.list_images().unwrap().is_empty());
    store
        .garbage_collection(&TaskState::running(), "UPID:gc", 1_000_000)
        .unwrap();
    assert!(store.stat_chunk(&digest).is_err());
}

#[test]
fn index_of_the_wrong_kind_stops_collection_before_the_sweep() {
    let old = [0x22u8; 32];
    let mut store = store_with_snapshot(&[]);
    store.insert_chunk(&blob(b"old"), &old, 1).unwrap();
    // a dynamic index under the name of a fixed one
    store
        .store_file(&snapshot(), "drive.fidx", dynamic_index(&[old]))
        .unwrap();
    assert!(matches!(
        store.garbage_collection(&TaskState::running(), "UPID:gc", 1_000_000),
        Err(Error::Corrupt)
    ));
    assert!(store.stat_chunk(&old).is_ok());
    assert!(store.last_gc_status().upid.is_none());
}

#[test]
fn progress_is_reported_at_whole_percents() {
    let mut store = store_with_snapshot(&[]);
    for n in 0..3 {
        store
            .store_file(&snapshot(), &format!("a{}.didx", n), dynamic_index(&[]))
            .unwrap();
    }
    let events = store
        .garbage_collection(&TaskState::running(), "UPID:gc", 1_000_000)
        .unwrap();
    let seen: Vec<(usize, usize, usize)> = events
        .iter()
        .map(|e| match e {
            GcEvent::MarkProgress { percentage, done, total } => (*percentage, *done, *total),
            other => panic!("unexpected event {:?}", other),
        })
        .collect();
    assert_eq!(seen, vec![(25, 1, 4), (50, 2, 4), (75, 3, 4), (100, 4, 4)]);
}

#[test]
fn abort_during_mark_leaves_the_pool_whole() {
    let c1 = [0x11u8; 32];
    let old = [0x22u8; 32];
    let mut store = store_with_snapshot(&[c1]);
    store.insert_chunk(&blob(b"one"), &c1, 1).unwrap();
    store.insert_chunk(&blob(b"old"), &old, 1).unwrap();
    let worker = AbortAfter { polls_left: Cell::new(1) };
    assert!(matches!(
        store.garbage_collection(&worker, "UPID:gc", 1_000_000),
        Err(Error::AbortRequested)
    ));
    assert!(store.stat_chunk(&c1).is_ok());
    assert!(store.stat_chunk(&old).is_ok());
    assert!(!store.garbage_collection_running());
}

#[test]
fn abort_during_sweep_keeps_referenced_chunks() {
    let c1 = [0x11u8; 32];
    let old_a = [0x22u8; 32];
    let old_b = [0x33u8; 32];
    let mut store = store_with_snapshot(&[c1]);
    store.insert_chunk(&blob(b"one"), &c1, 1).unwrap();
    store.insert_chunk(&blob(b"a"), &old_a, 1).unwrap();
    store.insert_chunk(&blob(b"b"), &old_b, 1).unwrap();
    // one poll for the index file, one for its chunk, two for the sweep
    let worker = AbortAfter { polls_left: Cell::new(4) };
    assert!(matches!(
        store.garbage_collection(&worker, "UPID:gc", 1_000_000),
        Err(Error::AbortRequested)
    ));
    assert!(store.stat_chunk(&c1).is_ok());
    assert!(store.stat_chunk(&old_a).is_err());
    assert!(store.stat_chunk(&old_b).is_ok());
}

#[test]
fn collection_needs_the_exclusive_lock_to_be_free() {
    let old = [0x22u8; 32];
    let mut store = DataStore::open_path("store1", "/data/store1", None).unwrap();
    store.insert_chunk(&blob(b"old"), &old, 1).unwrap();
    let guard = store.try_exclusive_chunk_store_lock().unwrap();
    assert!(matches!(
        store.garbage_collection(&TaskState::running(), "UPID:gc", 1_000_000),
        Err(Error::LockContended(LockReason::ChunkStore))
    ));
    assert!(store.stat_chunk(&old).is_ok());
    assert!(!store.garbage_collection_running());
    store.unlock_exclusive_chunk_store_lock(guard);
    assert!(store
        .garbage_collection(&TaskState::running(), "UPID:gc", 1_000_000)
        .is_ok());
    assert!(store.stat_chunk(&old).is_err());
}
