use openssl::sha::sha256;
use pbs_datastore::api_types::GarbageCollectionStatus;
use pbs_datastore::chunk_store::{
    count_swept, is_pool, shard_percent, sweep_action, ChunkStore, DataBlob, PoolFile,
    SweepAction,
};
use pbs_datastore::datastore::DataStore;
use pbs_datastore::digest::{bad_chunk_rel_path_of, chunk_rel_path_of, digest_to_hex};
use pbs_datastore::error::{Error, LockReason};
use pbs_datastore::worker::TaskState;

const HELLO_HEX: &str = "2cf24dba5fb0a30e26e83b2ac5b9e29e1b161e5c1fa7425e73043362938b9824";

fn blob(data: &[u8]) -> DataBlob {
    DataBlob::from_raw(data.to_vec())
}

fn digest_with_first_byte(first: u8, rest: u8) -> [u8; 32] {
    let mut d = [rest; 32];
    d[0] = first;
    d
}

#[test]
fn empty_store_insert_load_iterate_collect() {
    let mut store = DataStore::open_path("store1", "/data/store1", None).unwrap();
    let digest = sha256(b"hello");
    assert_eq!(digest_to_hex(&digest), HELLO_HEX);

    let (existed, size) = store.insert_chunk(&blob(b"hello"), &digest, 1000).unwrap();
    assert!(!existed);
    assert_eq!(size, 5);

    let loaded = store.load_chunk(&digest).unwrap();
    assert_eq!(loaded.raw_data().as_slice(), b"hello");

    let items = store.get_chunk_iterator().unwrap();
    assert_eq!(items.len(), 1);
    assert_eq!(items[0].0.file_name, HELLO_HEX);
    assert_eq!(items[0].0.size, 5);
    assert!(!items[0].0.bad);
    assert_eq!(items[0].1, 0x2c);
    assert_eq!(shard_percent(0x2c), 0x2c * 100 / 256);
    // the walk is done with its last item
    assert!(items[0].2);

    let events = store
        .garbage_collection(&TaskState::running(), "UPID:test", 1010)
        .unwrap();
    assert!(events.is_empty());
    assert!(store.stat_chunk(&digest).is_ok());
    let status = store.last_gc_status();
    assert_eq!(status.upid.as_deref(), Some("UPID:test"));
    assert_eq!(status.removed_chunks, 0);
    assert_eq!(status.pending_chunks, 1);
    assert_eq!(status.pending_bytes, 5);
    assert_eq!(status.disk_chunks, 0);
}

#[test]
fn insert_chunk_is_idempotent() {
    let mut store = ChunkStore::create("s", "/s");
    let digest = sha256(b"abc");
    let first = store.insert_chunk(&blob(b"abc"), &digest, 10).unwrap();
    assert_eq!(first, (false, 3));
    for n in 0..5 {
        let again = store.insert_chunk(&blob(b"abc"), &digest, 20 + n).unwrap();
        assert_eq!(again, (true, 3));
    }
    assert_eq!(store.get_chunk_iterator().len(), 1);
    assert_eq!(store.stat_chunk(&digest).unwrap().atime, 24);
    assert_eq!(store.load_chunk(&digest).unwrap().raw_data().as_slice(), b"abc");
}

#[test]
fn insert_keeps_the_bytes_that_are_there() {
    let mut store = ChunkStore::create("s", "/s");
    let digest = [9u8; 32];
    store.insert_chunk(&blob(b"first"), &digest, 1).unwrap();
    let (existed, size) = store.insert_chunk(&blob(b"second!"), &digest, 2).unwrap();
    assert!(existed);
    assert_eq!(size, 5);
    assert_eq!(store.load_chunk(&digest).unwrap().raw_data().as_slice(), b"first");
}

#[test]
fn stat_succeeds_exactly_for_stored_chunks() {
    let mut store = ChunkStore::create("s", "/s");
    let there = [1u8; 32];
    let missing = [2u8; 32];
    store.insert_chunk(&blob(b"x"), &there, 7).unwrap();
    let stat = store.stat_chunk(&there).unwrap();
    assert_eq!(stat.size, 1);
    assert_eq!(stat.atime, 7);
    assert_eq!(store.stat_chunk(&missing), Err(Error::NotFound));
    assert!(matches!(store.load_chunk(&missing), Err(Error::NotFound)));
}

#[test]
fn chunk_paths_follow_the_layout() {
    let digest = sha256(b"hello");
    let (path, hex) = chunk_rel_path_of(&digest);
    assert_eq!(hex, HELLO_HEX);
    assert_eq!(path, format!(".chunks/2c/{}", HELLO_HEX));
    assert_eq!(
        bad_chunk_rel_path_of(&digest, 3),
        format!(".chunks/2c/{}.3.bad", HELLO_HEX)
    );

    let store = ChunkStore::create("store1", "/data/store1");
    let (full, _) = store.chunk_path(&digest);
    assert_eq!(full, format!("/data/store1/.chunks/2c/{}", HELLO_HEX));
    assert_eq!(store.name(), "store1");
    assert_eq!(store.base_path(), "/data/store1");
}

#[test]
fn hex_names_use_lower_case_and_two_digits_a_byte() {
    let mut digest = [0u8; 32];
    digest[0] = 0xAB;
    digest[1] = 0x0f;
    digest[31] = 0xF0;
    let hex = digest_to_hex(&digest);
    assert_eq!(hex.len(), 64);
    assert!(hex.starts_with("ab0f00"));
    assert!(hex.ends_with("00f0"));
}

#[test]
fn cond_touch_chunk_reports_presence() {
    let mut store = ChunkStore::create("s", "/s");
    let there = [1u8; 32];
    let missing = [2u8; 32];
    store.insert_chunk(&blob(b"x"), &there, 7).unwrap();
    assert_eq!(store.cond_touch_chunk(&there, true, 50), Ok(true));
    assert_eq!(store.stat_chunk(&there).unwrap().atime, 50);
    assert_eq!(store.cond_touch_chunk(&missing, false, 60), Ok(false));
    assert_eq!(store.cond_touch_chunk(&missing, true, 60), Err(Error::NotFound));
}

#[test]
fn iterator_walks_shard_by_shard() {
    let mut store = ChunkStore::create("s", "/s");
    let high = digest_with_first_byte(0xff, 1);
    let low = digest_with_first_byte(0x00, 2);
    let mid = digest_with_first_byte(0x80, 3);
    store.insert_chunk(&blob(b"h"), &high, 1).unwrap();
    store.insert_chunk(&blob(b"l"), &low, 2).unwrap();
    store.insert_chunk(&blob(b"m"), &mid, 3).unwrap();
    let items = store.get_chunk_iterator();
    let shards: Vec<usize> = items.iter().map(|i| i.1).collect();
    assert_eq!(shards, vec![0x00, 0x80, 0xff]);
    let percentages: Vec<usize> = shards.iter().map(|s| shard_percent(*s as u8)).collect();
    assert_eq!(percentages, vec![0, 50, 99]);
    let done: Vec<bool> = items.iter().map(|i| i.2).collect();
    assert_eq!(done, vec![false, false, true]);
    assert_eq!(items[0].0.file_name, digest_to_hex(&low));
    assert_eq!(items[2].0.file_name, digest_to_hex(&high));
}

#[test]
fn sweep_action_uses_the_cutoff() {
    // cutoff = min(oldest writer, start of phase 1) - 300
    assert_eq!(sweep_action(699, 1000, 2000), SweepAction::Remove);
    assert_eq!(sweep_action(700, 1000, 2000), SweepAction::Pending);
    assert_eq!(sweep_action(999, 1000, 2000), SweepAction::Pending);
    assert_eq!(sweep_action(1000, 1000, 2000), SweepAction::Keep);
    assert_eq!(sweep_action(1699, 3000, 2000), SweepAction::Remove);
    assert_eq!(sweep_action(1700, 3000, 2000), SweepAction::Pending);
    assert_eq!(sweep_action(2000, 3000, 2000), SweepAction::Keep);
    // no underflow at the lowest times
    assert_eq!(sweep_action(i64::MIN, i64::MIN, 0), SweepAction::Keep);
    assert_eq!(sweep_action(i64::MIN, i64::MIN + 10, 0), SweepAction::Pending);
}

#[test]
fn sweep_counts_what_goes_and_what_stays() {
    let mut store = ChunkStore::create("s", "/s");
    let old = digest_with_first_byte(1, 1);
    let pending = digest_with_first_byte(2, 2);
    let fresh = digest_with_first_byte(3, 3);
    let bad = digest_with_first_byte(4, 4);
    store.insert_chunk(&blob(b"1234567"), &old, 100).unwrap();
    store.insert_chunk(&blob(b"12345"), &pending, 9800).unwrap();
    store.insert_chunk(&blob(b"123"), &fresh, 10_000).unwrap();
    store.insert_chunk(&blob(b"12"), &bad, 50).unwrap();
    assert_eq!(store.rename_corrupted_chunk(&bad), Some(0));

    let mut status = GarbageCollectionStatus::default();
    store
        .sweep_unused_chunks(10_000, 10_000, &mut status, &TaskState::running())
        .unwrap();

    assert_eq!(status.removed_chunks, 1);
    assert_eq!(status.removed_bad, 1);
    assert_eq!(status.removed_bytes, 9);
    assert_eq!(status.pending_chunks, 1);
    assert_eq!(status.pending_bytes, 5);
    assert_eq!(status.disk_chunks, 1);
    assert_eq!(status.disk_bytes, 3);
    assert_eq!(status.still_bad, 0);
    assert!(store.stat_chunk(&old).is_err());
    assert!(store.stat_chunk(&pending).is_ok());
    assert!(store.stat_chunk(&fresh).is_ok());
    assert_eq!(store.get_chunk_iterator().len(), 2);
}

#[test]
fn sweep_stops_when_the_worker_asks() {
    let mut store = ChunkStore::create("s", "/s");
    let old = digest_with_first_byte(1, 1);
    store.insert_chunk(&blob(b"1234567"), &old, 100).unwrap();
    let mut status = GarbageCollectionStatus::default();
    let abort = TaskState { abort: true, shutdown: false };
    assert_eq!(
        store.sweep_unused_chunks(10_000, 10_000, &mut status, &abort),
        Err(Error::AbortRequested)
    );
    assert!(store.stat_chunk(&old).is_ok());
    let shutdown = TaskState { abort: false, shutdown: true };
    assert_eq!(
        store.sweep_unused_chunks(10_000, 10_000, &mut status, &shutdown),
        Err(Error::ShuttingDown)
    );
}

#[test]
fn corrupted_chunks_become_sidecars() {
    let mut store = ChunkStore::create("s", "/s");
    let digest = digest_with_first_byte(0x10, 7);
    assert_eq!(store.rename_corrupted_chunk(&digest), None);
    for n in 0..10u8 {
        store.insert_chunk(&blob(&[n]), &digest, n as i64).unwrap();
        assert_eq!(store.rename_corrupted_chunk(&digest), Some(n));
        assert!(store.stat_chunk(&digest).is_err());
    }
    // all numbers taken: the last sidecar is replaced
    store.insert_chunk(&blob(b"again"), &digest, 99).unwrap();
    assert_eq!(store.rename_corrupted_chunk(&digest), Some(9));
    let items = store.get_chunk_iterator();
    assert_eq!(items.len(), 10);
    assert!(items.iter().all(|i| i.0.bad));
    assert!(items.iter().all(|i| i.1 == digest[0] as usize));
    let last = items
        .iter()
        .find(|i| i.0.file_name.ends_with(".9.bad"))
        .unwrap();
    assert_eq!(last.0.size, 5);
    assert_eq!(store.cond_touch_file(&digest, Some(3), true, 500), Ok(true));
    assert_eq!(store.cond_touch_file(&digest, None, false, 500), Ok(false));
}

#[test]
fn process_lock_tracks_the_oldest_writer() {
    let mut store = ChunkStore::create("s", "/s");
    assert_eq!(store.oldest_writer(), None);
    let first = store.try_shared_lock(500).unwrap();
    let second = store.try_shared_lock(300).unwrap();
    let third = store.try_shared_lock(700).unwrap();
    assert_eq!(store.oldest_writer(), Some(300));
    store.unlock_shared(second);
    assert_eq!(store.oldest_writer(), Some(500));
    store.unlock_shared(first);
    store.unlock_shared(third);
    assert_eq!(store.oldest_writer(), None);

    let exclusive = store.try_exclusive_lock().unwrap();
    assert!(matches!(
        store.try_exclusive_lock(),
        Err(Error::LockContended(LockReason::ChunkStore))
    ));
    assert!(matches!(
        store.try_shared_lock(1),
        Err(Error::LockContended(LockReason::ChunkStore))
    ));
    store.unlock_exclusive(exclusive);
    assert!(store.try_shared_lock(1).is_ok());
}

fn pool_file(first: u8, bad_slot: Option<u8>, data: &[u8], ino: u64) -> PoolFile {
    PoolFile {
        digest: digest_with_first_byte(first, 7),
        bad_slot,
        data: data.to_vec(),
        atime: 50,
        ino,
    }
}

#[test]
fn a_pool_is_opened_with_its_files() {
    let files = vec![
        pool_file(1, None, b"one", 12),
        pool_file(1, Some(0), b"bad", 40),
        pool_file(3, None, b"three", 7),
    ];
    assert!(is_pool(&files));
    let mut store = ChunkStore::open("store1", "/data/store1", files).ok().unwrap();
    assert_eq!(store.name(), "store1");
    assert_eq!(store.base_path(), "/data/store1");
    let one = digest_with_first_byte(1, 7);
    let three = digest_with_first_byte(3, 7);
    assert_eq!(store.load_chunk(&one).unwrap().raw_data().as_slice(), b"one");
    assert_eq!(store.stat_chunk(&three).unwrap().ino, 7);
    assert_eq!(store.get_chunk_iterator().len(), 3);
    assert_eq!(store.oldest_writer(), None);
    // a new chunk gets the number behind the greatest one
    let two = digest_with_first_byte(2, 7);
    assert_eq!(store.insert_chunk(&blob(b"two"), &two, 60), Ok((false, 3)));
    assert_eq!(store.stat_chunk(&two).unwrap().ino, 41);
    assert_eq!(store.insert_chunk(&blob(b"again"), &one, 60), Ok((true, 3)));

    let empty = ChunkStore::open("store1", "/data/store1", Vec::new()).ok().unwrap();
    assert!(empty.get_chunk_iterator().is_empty());
}

#[test]
fn a_pool_with_wrong_files_is_not_opened() {
    let twice = vec![pool_file(1, None, b"one", 1), pool_file(1, None, b"other", 2)];
    assert!(!is_pool(&twice));
    assert_eq!(ChunkStore::open("s", "/s", twice).err(), Some(Error::Corrupt));
    let unordered = vec![pool_file(3, None, b"three", 1), pool_file(1, None, b"one", 2)];
    assert_eq!(ChunkStore::open("s", "/s", unordered).err(), Some(Error::Corrupt));
    let slot = vec![pool_file(1, Some(10), b"bad", 1)];
    assert_eq!(ChunkStore::open("s", "/s", slot).err(), Some(Error::Corrupt));
    let sidecars = vec![pool_file(1, Some(9), b"bad", 1), pool_file(1, Some(0), b"bad", 2)];
    assert!(ChunkStore::open("s", "/s", sidecars).is_ok());
}

#[test]
fn each_swept_file_is_counted_once() {
    let mut status = GarbageCollectionStatus::default();
    count_swept(&mut status, SweepAction::Remove, false, 10);
    count_swept(&mut status, SweepAction::Remove, true, 1);
    count_swept(&mut status, SweepAction::Pending, false, 20);
    count_swept(&mut status, SweepAction::Pending, true, 2);
    count_swept(&mut status, SweepAction::Keep, false, 30);
    count_swept(&mut status, SweepAction::Keep, true, 3);
    assert_eq!(status.removed_chunks, 1);
    assert_eq!(status.removed_bad, 1);
    assert_eq!(status.removed_bytes, 11);
    assert_eq!(status.pending_chunks, 1);
    assert_eq!(status.pending_bytes, 22);
    assert_eq!(status.disk_chunks, 1);
    assert_eq!(status.disk_bytes, 33);
    assert_eq!(status.still_bad, 2);
    assert_eq!(status.index_file_count, 0);
    // the counters stop at the largest number they hold
    status.disk_bytes = u64::MAX - 1;
    count_swept(&mut status, SweepAction::Keep, false, 30);
    assert_eq!(status.disk_bytes, u64::MAX);
    assert_eq!(status.disk_chunks, 2);
}

#[test]
fn first_insert_into_a_new_store_succeeds() {
    let mut store = DataStore::open_path("store1", "/data/store1", None).unwrap();
    let digest = digest_with_first_byte(5, 5);
    assert_eq!(store.insert_chunk(&blob(b"five"), &digest, 7), Ok((false, 4)));
    assert_eq!(store.stat_chunk(&digest).unwrap().ino, 1);
    let other = digest_with_first_byte(6, 6);
    assert_eq!(store.insert_chunk(&blob(b"six"), &other, 8), Ok((false, 3)));
    assert_eq!(store.stat_chunk(&other).unwrap().ino, 2);
}
