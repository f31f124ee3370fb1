//! The chunk pool: blobs stored under their digest, the files' access
//! times, and the process lock.
//!
//! The pool is held as the list of its files, shard by shard. A file is a
//! chunk, or a `.bad` sidecar that a chunk was renamed to when it failed
//! verification.

use vstd::prelude::*;
use vstd::string::StringExecFns;
use crate::api_types::{sat_u64, sat_usize, GarbageCollectionStatus};
use crate::digest::{bad_slot_text, hex_text, same_digest, digest_to_hex, MAX_BAD_SLOT};
use crate::error::{Error, LockReason};
use crate::worker::{never_stops, poll, stops_with, WorkerTaskContext};

verus! {

/// How many seconds a chunk file's access time must lie before the oldest
/// writer and the start of the mark phase for the sweep to remove it.
pub const SAFETY_WINDOW: i64 = 300;

/// A blob as it is stored: opaque bytes.
#[derive(Debug)]
pub struct DataBlob {
    raw_data: Vec<u8>,
}

impl View for DataBlob {
    type V = Seq<u8>;

    closed spec fn view(&self) -> Seq<u8> {
        self.raw_data@
    }
}

impl DataBlob {
    /// The blob with these bytes.
    pub fn from_raw(raw_data: Vec<u8>) -> (blob: DataBlob)
        ensures
            blob@ == raw_data@,
    {
        DataBlob { raw_data }
    }

    /// The bytes of the blob.
    pub fn raw_data(&self) -> (data: &Vec<u8>)
        ensures
            data@ == self@,
    {
        &self.raw_data
    }

    /// The number of bytes of the blob.
    pub fn raw_size(&self) -> (n: u64)
        ensures
            n == self@.len(),
    {
        self.raw_data.len() as u64
    }
}

/// A file of the pool.
pub struct PoolFile {
    pub digest: [u8; 32],
    /// `None` for a chunk, the sidecar's number for a `.bad` sidecar.
    pub bad_slot: Option<u8>,
    pub data: Vec<u8>,
    /// When the file was last touched, in seconds since the epoch.
    pub atime: i64,
    pub ino: u64,
}

/// A file of the pool, as contracts see it.
pub struct FileView {
    pub digest: Seq<u8>,
    pub bad_slot: Option<u8>,
    pub data: Seq<u8>,
    pub atime: i64,
    pub ino: u64,
}

impl View for PoolFile {
    type V = FileView;

    open spec fn view(&self) -> FileView {
        FileView {
            digest: self.digest@,
            bad_slot: self.bad_slot,
            data: self.data@,
            atime: self.atime,
            ino: self.ino,
        }
    }
}

/// The views of a list of files.
pub open spec fn file_views(files: Seq<PoolFile>) -> Seq<FileView> {
    Seq::new(files.len(), |i: int| files[i]@)
}

/// Whether the pool holds the file that is named by `digest` and `slot`.
pub open spec fn pool_has(pool: Seq<FileView>, digest: Seq<u8>, slot: Option<u8>) -> bool {
    exists|i: int| 0 <= i < pool.len() && pool[i].digest == digest && pool[i].bad_slot == slot
}

/// The place of the file that is named by `digest` and `slot`.
pub open spec fn pool_index(pool: Seq<FileView>, digest: Seq<u8>, slot: Option<u8>) -> int {
    choose|i: int| 0 <= i < pool.len() && pool[i].digest == digest && pool[i].bad_slot == slot
}

/// Whether the pool holds the chunk `digest`.
pub open spec fn has_chunk(pool: Seq<FileView>, digest: Seq<u8>) -> bool {
    pool_has(pool, digest, None)
}

/// The chunk `digest` of the pool.
pub open spec fn chunk_of(pool: Seq<FileView>, digest: Seq<u8>) -> FileView {
    pool[pool_index(pool, digest, None)]
}

/// No two files of the pool have the same name.
pub open spec fn names_distinct(pool: Seq<FileView>) -> bool {
    forall|i: int, j: int|
        0 <= i < pool.len() && 0 <= j < pool.len() && i != j ==> !(pool[i].digest
            == pool[j].digest && pool[i].bad_slot == pool[j].bad_slot)
}

/// The shard of a file: the first byte of its digest.
pub open spec fn shard_of(file: FileView) -> int {
    file.digest[0] as int
}

/// The files stand shard by shard.
pub open spec fn shard_sorted(pool: Seq<FileView>) -> bool {
    forall|i: int, j: int| 0 <= i <= j < pool.len() ==> shard_of(pool[i]) <= shard_of(pool[j])
}

/// What has to hold of the files of a pool.
pub open spec fn pool_wf(pool: Seq<FileView>) -> bool {
    &&& names_distinct(pool)
    &&& shard_sorted(pool)
    &&& forall|i: int| 0 <= i < pool.len() ==> (#[trigger] pool[i]).digest.len() == 32
    &&& forall|i: int|
        0 <= i < pool.len() ==> ((#[trigger] pool[i]).bad_slot matches Some(n) ==> n <= MAX_BAD_SLOT)
}

/// In a pool without double names, a file's name tells its place.
pub proof fn lemma_pool_index(pool: Seq<FileView>, i: int)
    requires
        names_distinct(pool),
        0 <= i < pool.len(),
    ensures
        pool_has(pool, pool[i].digest, pool[i].bad_slot),
        pool_index(pool, pool[i].digest, pool[i].bad_slot) == i,
{
}

/// The number of files of the pool in shards up to `shard`: where a new
/// file of that shard goes.
pub open spec fn insert_position(pool: Seq<FileView>, shard: int) -> int
    decreases pool.len(),
{
    if pool.len() == 0 {
        0
    } else {
        insert_position(pool.drop_last(), shard) + if shard_of(pool.last()) <= shard {
            1int
        } else {
            0int
        }
    }
}

/// Where the files up to a place are of shards up to `shard` and the others
/// are not, the place is the insert position.
pub proof fn lemma_insert_position(pool: Seq<FileView>, shard: int, k: int)
    requires
        0 <= k <= pool.len(),
        forall|i: int| 0 <= i < k ==> shard_of(pool[i]) <= shard,
        forall|i: int| k <= i < pool.len() ==> shard_of(pool[i]) > shard,
    ensures
        insert_position(pool, shard) == k,
    decreases pool.len(),
{
    if pool.len() > 0 {
        let init = pool.drop_last();
        if k == pool.len() {
            lemma_insert_position(init, shard, k - 1);
        } else {
            lemma_insert_position(init, shard, k);
        }
    }
}

/// The pool after the chunk `digest` was inserted at time `now`: a chunk
/// that is there is touched and keeps its bytes; a new one is filed in its
/// shard with the given bytes.
pub open spec fn pool_insert(
    pool: Seq<FileView>,
    digest: Seq<u8>,
    data: Seq<u8>,
    now: i64,
    ino: u64,
) -> Seq<FileView> {
    if has_chunk(pool, digest) {
        pool_touch(pool, digest, None, now)
    } else {
        pool.insert(
            insert_position(pool, digest[0] as int),
            FileView { digest, bad_slot: None, data, atime: now, ino },
        )
    }
}

/// The pool after the file named by `digest` and `slot` was touched at time
/// `now`, if it is there.
pub open spec fn pool_touch(
    pool: Seq<FileView>,
    digest: Seq<u8>,
    slot: Option<u8>,
    now: i64,
) -> Seq<FileView> {
    if pool_has(pool, digest, slot) {
        let i = pool_index(pool, digest, slot);
        pool.update(i, FileView { atime: now, ..pool[i] })
    } else {
        pool
    }
}

/// The bytes of the chunk `digest`, if the pool holds it.
pub open spec fn pool_load(pool: Seq<FileView>, digest: Seq<u8>) -> Option<Seq<u8>> {
    if has_chunk(pool, digest) {
        Some(chunk_of(pool, digest).data)
    } else {
        None
    }
}

/// The access time before which the sweep removes a file.
pub open spec fn atime_cutoff(oldest_writer: int, phase1_start: int) -> int {
    min_time(oldest_writer, phase1_start) - SAFETY_WINDOW
}

/// The earlier of two times.
pub open spec fn min_time(a: int, b: int) -> int {
    if a <= b {
        a
    } else {
        b
    }
}

/// What the sweep does with a file.
#[derive(Clone, Copy, Debug, PartialEq, Eq, Structural)]
pub enum SweepAction {
    /// The access time lies before the cutoff: the file goes.
    Remove,
    /// The file is old enough to go but lies inside the safety window.
    Pending,
    /// The file is in use.
    Keep,
}

/// What the sweep does with a file of the given access time.
pub open spec fn sweep_action_spec(atime: int, oldest_writer: int, phase1_start: int) -> SweepAction {
    if atime < atime_cutoff(oldest_writer, phase1_start) {
        SweepAction::Remove
    } else if atime < min_time(oldest_writer, phase1_start) {
        SweepAction::Pending
    } else {
        SweepAction::Keep
    }
}

/// Decides what the sweep does with a file of the given access time.
pub fn sweep_action(atime: i64, oldest_writer: i64, phase1_start: i64) -> (a: SweepAction)
    ensures
        a == sweep_action_spec(atime as int, oldest_writer as int, phase1_start as int),
{
    let first: i64 = if oldest_writer <= phase1_start {
        oldest_writer
    } else {
        phase1_start
    };
    if first >= i64::MIN + SAFETY_WINDOW && atime < first - SAFETY_WINDOW {
        SweepAction::Remove
    } else if atime < first {
        SweepAction::Pending
    } else {
        SweepAction::Keep
    }
}

/// The files that a sweep leaves.
pub open spec fn pool_sweep(pool: Seq<FileView>, oldest_writer: int, phase1_start: int) -> Seq<
    FileView,
>
    decreases pool.len(),
{
    if pool.len() == 0 {
        pool
    } else {
        let init = pool_sweep(pool.drop_last(), oldest_writer, phase1_start);
        if sweep_action_spec(pool.last().atime as int, oldest_writer, phase1_start)
            == SweepAction::Remove {
            init
        } else {
            init.push(pool.last())
        }
    }
}

/// The counters of a sweep.
#[derive(Clone, Copy, Debug, PartialEq, Eq, Structural)]
pub enum Counter {
    RemovedChunks,
    RemovedBad,
    RemovedBytes,
    PendingChunks,
    PendingBytes,
    StillBad,
    DiskChunks,
    DiskBytes,
}

/// What one file adds to a counter of the sweep.
///
/// A file that goes counts as a removed chunk or a removed sidecar, and its
/// bytes as removed. A chunk inside the safety window counts as pending,
/// with its bytes. A chunk in use counts as on disk, with its bytes. A
/// sidecar that stays counts as still bad, and its bytes as pending or on
/// disk as a chunk's would.
pub open spec fn counted(file: FileView, action: SweepAction, counter: Counter) -> int {
    counted_of(file.bad_slot is Some, file.data.len() as int, action, counter)
}

/// What a file of the given size adds to a counter of the sweep; `bad`
/// says whether the file is a sidecar.
pub open spec fn counted_of(bad: bool, size: int, action: SweepAction, counter: Counter) -> int {
    match counter {
        Counter::RemovedChunks => if action == SweepAction::Remove && !bad {
            1
        } else {
            0
        },
        Counter::RemovedBad => if action == SweepAction::Remove && bad {
            1
        } else {
            0
        },
        Counter::RemovedBytes => if action == SweepAction::Remove {
            size
        } else {
            0
        },
        Counter::PendingChunks => if action == SweepAction::Pending && !bad {
            1
        } else {
            0
        },
        Counter::PendingBytes => if action == SweepAction::Pending {
            size
        } else {
            0
        },
        Counter::StillBad => if action != SweepAction::Remove && bad {
            1
        } else {
            0
        },
        Counter::DiskChunks => if action == SweepAction::Keep && !bad {
            1
        } else {
            0
        },
        Counter::DiskBytes => if action == SweepAction::Keep {
            size
        } else {
            0
        },
    }
}

/// Whether `after` is the status `before` with one file counted: every
/// counter of the sweep grown by what the file adds to it, up to the
/// largest number that the counter holds.
pub open spec fn status_counted(
    before: GarbageCollectionStatus,
    after: GarbageCollectionStatus,
    bad: bool,
    size: int,
    action: SweepAction,
) -> bool {
    &&& after.upid == before.upid
    &&& after.index_file_count == before.index_file_count
    &&& after.index_data_bytes == before.index_data_bytes
    &&& after.removed_chunks == sat_usize(
        before.removed_chunks + counted_of(bad, size, action, Counter::RemovedChunks),
    )
    &&& after.removed_bad == sat_usize(
        before.removed_bad + counted_of(bad, size, action, Counter::RemovedBad),
    )
    &&& after.removed_bytes == sat_u64(
        before.removed_bytes + counted_of(bad, size, action, Counter::RemovedBytes),
    )
    &&& after.pending_chunks == sat_usize(
        before.pending_chunks + counted_of(bad, size, action, Counter::PendingChunks),
    )
    &&& after.pending_bytes == sat_u64(
        before.pending_bytes + counted_of(bad, size, action, Counter::PendingBytes),
    )
    &&& after.still_bad == sat_usize(
        before.still_bad + counted_of(bad, size, action, Counter::StillBad),
    )
    &&& after.disk_chunks == sat_usize(
        before.disk_chunks + counted_of(bad, size, action, Counter::DiskChunks),
    )
    &&& after.disk_bytes == sat_u64(
        before.disk_bytes + counted_of(bad, size, action, Counter::DiskBytes),
    )
}

/// Counts one file of a sweep in the status: what the sweep does with the
/// file, whether the file is a sidecar, and its size decide which counters
/// grow.
pub fn count_swept(status: &mut GarbageCollectionStatus, action: SweepAction, bad: bool, size: u64)
    ensures
        status_counted(*old(status), *final(status), bad, size as int, action),
{
    match action {
        SweepAction::Remove => {
            if bad {
                status.removed_bad = status.removed_bad.saturating_add(1);
            } else {
                status.removed_chunks = status.removed_chunks.saturating_add(1);
            }
            status.removed_bytes = status.removed_bytes.saturating_add(size);
        },
        SweepAction::Pending => {
            if bad {
                status.still_bad = status.still_bad.saturating_add(1);
            } else {
                status.pending_chunks = status.pending_chunks.saturating_add(1);
            }
            status.pending_bytes = status.pending_bytes.saturating_add(size);
        },
        SweepAction::Keep => {
            if bad {
                status.still_bad = status.still_bad.saturating_add(1);
            } else {
                status.disk_chunks = status.disk_chunks.saturating_add(1);
            }
            status.disk_bytes = status.disk_bytes.saturating_add(size);
        },
    }
}

/// What the files of a pool add to a counter of the sweep.
pub open spec fn tally(
    pool: Seq<FileView>,
    oldest_writer: int,
    phase1_start: int,
    counter: Counter,
) -> int
    decreases pool.len(),
{
    if pool.len() == 0 {
        0
    } else {
        tally(pool.drop_last(), oldest_writer, phase1_start, counter) + counted(
            pool.last(),
            sweep_action_spec(pool.last().atime as int, oldest_writer, phase1_start),
            counter,
        )
    }
}

/// No counter of a sweep is negative.
pub proof fn lemma_tally_nonnegative(
    pool: Seq<FileView>,
    oldest_writer: int,
    phase1_start: int,
    counter: Counter,
)
    ensures
        tally(pool, oldest_writer, phase1_start, counter) >= 0,
    decreases pool.len(),
{
    if pool.len() > 0 {
        lemma_tally_nonnegative(pool.drop_last(), oldest_writer, phase1_start, counter);
    }
}

/// What a sweep leaves of a status: every counter grown by what the files
/// add to it, up to the largest number that the counter holds.
pub open spec fn status_after_sweep(
    before: GarbageCollectionStatus,
    after: GarbageCollectionStatus,
    pool: Seq<FileView>,
    oldest_writer: int,
    phase1_start: int,
) -> bool {
    &&& after.upid == before.upid
    &&& after.index_file_count == before.index_file_count
    &&& after.index_data_bytes == before.index_data_bytes
    &&& after.removed_chunks == sat_usize(
        before.removed_chunks + tally(pool, oldest_writer, phase1_start, Counter::RemovedChunks),
    )
    &&& after.removed_bad == sat_usize(
        before.removed_bad + tally(pool, oldest_writer, phase1_start, Counter::RemovedBad),
    )
    &&& after.removed_bytes == sat_u64(
        before.removed_bytes + tally(pool, oldest_writer, phase1_start, Counter::RemovedBytes),
    )
    &&& after.pending_chunks == sat_usize(
        before.pending_chunks + tally(pool, oldest_writer, phase1_start, Counter::PendingChunks),
    )
    &&& after.pending_bytes == sat_u64(
        before.pending_bytes + tally(pool, oldest_writer, phase1_start, Counter::PendingBytes),
    )
    &&& after.still_bad == sat_usize(
        before.still_bad + tally(pool, oldest_writer, phase1_start, Counter::StillBad),
    )
    &&& after.disk_chunks == sat_usize(
        before.disk_chunks + tally(pool, oldest_writer, phase1_start, Counter::DiskChunks),
    )
    &&& after.disk_bytes == sat_u64(
        before.disk_bytes + tally(pool, oldest_writer, phase1_start, Counter::DiskBytes),
    )
}

/// A writer that holds the process lock shared.
#[derive(Clone, Copy, Debug, PartialEq, Eq, Structural)]
pub struct Writer {
    pub id: u64,
    /// When the writer registered, in seconds since the epoch.
    pub start: i64,
}

/// The registration time of the writer that registered first, if any
/// writer is registered.
pub open spec fn oldest_writer_spec(writers: Seq<Writer>) -> Option<i64>
    decreases writers.len(),
{
    if writers.len() == 0 {
        None
    } else {
        match oldest_writer_spec(writers.drop_last()) {
            None => Some(writers.last().start),
            Some(t) => if writers.last().start < t {
                Some(writers.last().start)
            } else {
                Some(t)
            },
        }
    }
}

/// Whether a writer with this id is registered.
pub open spec fn has_writer(writers: Seq<Writer>, id: u64) -> bool {
    exists|i: int| 0 <= i < writers.len() && writers[i].id == id
}

/// The writers without the writer of this id.
pub open spec fn writers_without(writers: Seq<Writer>, id: u64) -> Seq<Writer> {
    if has_writer(writers, id) {
        writers.remove(choose|i: int| 0 <= i < writers.len() && writers[i].id == id)
    } else {
        writers
    }
}

/// The proof of a shared hold of the process lock.
#[derive(Debug)]
pub struct ProcessLockSharedGuard {
    id: u64,
}

impl ProcessLockSharedGuard {
    /// The id under which the holder is registered as a writer.
    pub closed spec fn id(&self) -> u64 {
        self.id
    }
}

/// The proof of the exclusive hold of the process lock.
#[derive(Debug)]
pub struct ProcessLockExclusiveGuard {
    token: u64,
}

/// What `stat` tells of a chunk file.
#[derive(Clone, Copy, Debug, PartialEq, Eq, Structural)]
pub struct ChunkStat {
    pub size: u64,
    pub atime: i64,
    pub ino: u64,
}

/// One item of a walk through the pool.
#[derive(Debug)]
pub struct ChunkDirEntry {
    /// The file's name in its shard directory.
    pub file_name: String,
    pub size: u64,
    pub atime: i64,
    /// Whether the file is a `.bad` sidecar.
    pub bad: bool,
}

/// Whether `item` is the item of the walk for the file at place `k` of the
/// pool: the file, the index of its shard, and the mark that the walk is
/// done with this item.
pub open spec fn is_walk_item(pool: Seq<FileView>, k: int, item: (ChunkDirEntry, usize, bool)) -> bool {
    let file = pool[k];
    &&& item.0.file_name@ == pool_file_name(file)
    &&& item.0.size == file.data.len()
    &&& item.0.atime == file.atime
    &&& item.0.bad == (file.bad_slot is Some)
    &&& item.1 == shard_of(file)
    &&& item.2 == (k == pool.len() - 1)
}

/// Whether `items` is the walk through the pool: one item for each file,
/// in the order of the pool.
pub open spec fn is_walk(pool: Seq<FileView>, items: Seq<(ChunkDirEntry, usize, bool)>) -> bool {
    &&& items.len() == pool.len()
    &&& forall|k: int| 0 <= k < items.len() ==> is_walk_item(pool, k, #[trigger] items[k])
}

/// The name of a pool file in its shard directory: the digest in
/// hexadecimal, and for a sidecar `.<n>.bad` behind it.
pub open spec fn pool_file_name(file: FileView) -> Seq<char> {
    match file.bad_slot {
        None => hex_text(file.digest),
        Some(n) => hex_text(file.digest) + "."@ + bad_slot_text(n as int) + ".bad"@,
    }
}

/// How far a walk through the pool has come when it reaches a shard, in
/// percent.
pub open spec fn shard_percentage(shard: int) -> int {
    shard * 100 / 256
}

/// How far a walk through the pool has come when it reaches the shard of
/// the given index, in percent.
pub fn shard_percent(shard: u8) -> (percent: usize)
    ensures
        percent == shard_percentage(shard as int),
        percent < 100,
{
    let wide: usize = shard as usize;
    wide * 100 / 256
}

/// Whether the files are as the files of a pool have to be.
pub fn is_pool(files: &Vec<PoolFile>) -> (r: bool)
    ensures
        r == pool_wf(file_views(files@)),
{
    let ghost pool = file_views(files@);
    let mut i: usize = 0;
    while i < files.len()
        invariant
            i <= files.len(),
            pool == file_views(files@),
            forall|a: int, b: int| 0 <= a <= b < i ==> shard_of(pool[a]) <= shard_of(pool[b]),
            forall|a: int, b: int|
                0 <= a < b < i ==> !(pool[a].digest == pool[b].digest && pool[a].bad_slot
                    == pool[b].bad_slot),
            forall|a: int|
                0 <= a < i ==> ((#[trigger] pool[a]).bad_slot matches Some(n) ==> n <= MAX_BAD_SLOT),
        decreases files.len() - i,
    {
        assert(pool[i as int] == files@[i as int]@);
        match files[i].bad_slot {
            Some(n) => {
                if n > MAX_BAD_SLOT {
                    return false;
                }
            },
            None => {},
        }
        if i > 0 {
            assert(pool[i - 1] == files@[i - 1]@);
            if files[i - 1].digest[0] > files[i].digest[0] {
                assert(shard_of(pool[i - 1]) > shard_of(pool[i as int]));
                return false;
            }
        }
        let mut k: usize = 0;
        while k < i
            invariant
                k <= i,
                i < files.len(),
                pool == file_views(files@),
                forall|a: int|
                    0 <= a < k ==> !(pool[a].digest == pool[i as int].digest && pool[a].bad_slot
                        == pool[i as int].bad_slot),
            decreases i - k,
        {
            assert(pool[k as int] == files@[k as int]@);
            assert(pool[i as int] == files@[i as int]@);
            if same_digest(&files[k].digest, &files[i].digest) && files[k].bad_slot
                == files[i].bad_slot {
                return false;
            }
            k += 1;
        }
        i += 1;
    }
    true
}

/// The inode number that the next new chunk of a pool gets: one more than
/// the greatest that a file of the pool has, as far as there is such a
/// number.
pub open spec fn next_ino_spec(pool: Seq<FileView>) -> u64
    decreases pool.len(),
{
    if pool.len() == 0 {
        1
    } else {
        let init = next_ino_spec(pool.drop_last());
        if pool.last().ino < init {
            init
        } else if pool.last().ino == u64::MAX {
            u64::MAX
        } else {
            (pool.last().ino + 1) as u64
        }
    }
}

/// The inode number that the next new chunk of a pool gets.
fn next_ino_of(files: &Vec<PoolFile>) -> (next: u64)
    ensures
        next == next_ino_spec(file_views(files@)),
{
    let ghost pool = file_views(files@);
    let mut next: u64 = 1;
    let mut i: usize = 0;
    assert(pool.take(0) =~= Seq::<FileView>::empty());
    while i < files.len()
        invariant
            i <= files.len(),
            pool == file_views(files@),
            next == next_ino_spec(pool.take(i as int)),
        decreases files.len() - i,
    {
        proof {
            let t = pool.take(i + 1);
            assert(t.drop_last() =~= pool.take(i as int));
            assert(t.last() == files@[i as int]@);
        }
        let ino: u64 = files[i].ino;
        if ino >= next {
            next = if ino == u64::MAX {
                u64::MAX
            } else {
                ino + 1
            };
        }
        i += 1;
    }
    assert(pool.take(files.len() as int) =~= pool);
    next
}

/// The chunk pool of one datastore.
pub struct ChunkStore {
    name: String,
    base: String,
    files: Vec<PoolFile>,
    writers: Vec<Writer>,
    exclusive: bool,
    next_guard: u64,
    next_ino: u64,
}

impl ChunkStore {
    /// The files of the pool, shard by shard.
    pub closed spec fn pool(&self) -> Seq<FileView> {
        file_views(self.files@)
    }

    /// The writers that hold the process lock shared.
    pub closed spec fn writers(&self) -> Seq<Writer> {
        self.writers@
    }

    /// Whether the process lock is held exclusively.
    pub closed spec fn exclusive(&self) -> bool {
        self.exclusive
    }

    /// The name of the datastore.
    pub closed spec fn name_spec(&self) -> Seq<char> {
        self.name@
    }

    /// The base directory of the datastore.
    pub closed spec fn base_spec(&self) -> Seq<char> {
        self.base@
    }

    /// The inode number that the next new chunk gets.
    pub closed spec fn next_ino(&self) -> u64 {
        self.next_ino
    }

    /// The id that the next writer gets.
    pub closed spec fn next_guard(&self) -> u64 {
        self.next_guard
    }

    /// What holds of every chunk store: no two files have the same name,
    /// the files stand shard by shard, and no two writers have the same id.
    pub closed spec fn wf(&self) -> bool {
        &&& pool_wf(self.pool())
        &&& forall|i: int| 0 <= i < self.writers@.len() ==> (#[trigger] self.writers@[i]).id
            < self.next_guard
        &&& forall|i: int, j: int|
            0 <= i < j < self.writers@.len() ==> self.writers@[i].id != self.writers@[j].id
    }

    /// The files of a chunk store are as the files of a pool have to be.
    pub proof fn lemma_wf(&self)
        requires
            self.wf(),
        ensures
            pool_wf(self.pool()),
    {
    }

    /// An empty pool for the datastore `name` below the directory `path`.
    pub fn create(name: &str, path: &str) -> (store: ChunkStore)
        ensures
            store.wf(),
            store.pool() == Seq::<FileView>::empty(),
            store.writers() == Seq::<Writer>::empty(),
            !store.exclusive(),
            store.name_spec() == name@,
            store.base_spec() == path@,
            store.next_ino() == 1,
            store.next_guard() == 0,
    {
        let store = ChunkStore {
            name: String::from_str(name),
            base: String::from_str(path),
            files: Vec::new(),
            writers: Vec::new(),
            exclusive: false,
            next_guard: 0,
            next_ino: 1,
        };
        assert(store.pool() =~= Seq::<FileView>::empty());
        store
    }

    /// The pool of the datastore `name` below the directory `path`, with
    /// the files that are there. No lock is taken.
    ///
    /// Fails with `Corrupt` where the files are not as the files of a pool
    /// have to be: two of them have the same name, the number of a
    /// sidecar is above 9, or the files do not stand shard by shard.
    pub fn open(name: &str, path: &str, files: Vec<PoolFile>) -> (r: Result<ChunkStore, Error>)
        ensures
            r is Ok <==> pool_wf(file_views(files@)),
            r matches Err(e) ==> e == Error::Corrupt,
            r matches Ok(store) ==> {
                &&& store.wf()
                &&& store.pool() == file_views(files@)
                &&& store.writers() == Seq::<Writer>::empty()
                &&& !store.exclusive()
                &&& store.name_spec() == name@
                &&& store.base_spec() == path@
                &&& store.next_ino() == next_ino_spec(file_views(files@))
                &&& store.next_guard() == 0
            },
    {
        if !is_pool(&files) {
            return Err(Error::Corrupt);
        }
        let next_ino = next_ino_of(&files);
        Ok(
            ChunkStore {
                name: String::from_str(name),
                base: String::from_str(path),
                files,
                writers: Vec::new(),
                exclusive: false,
                next_guard: 0,
                next_ino,
            },
        )
    }

    /// The name of the datastore.
    pub fn name(&self) -> (s: &str)
        ensures
            s@ == self.name_spec(),
    {
        self.name.as_str()
    }

    /// The base directory of the datastore.
    pub fn base_path(&self) -> (s: String)
        ensures
            s@ == self.base_spec(),
    {
        self.base.clone()
    }

    /// The place of the file named by `digest` and `slot`.
    fn find(&self, digest: &[u8; 32], slot: Option<u8>) -> (r: Option<usize>)
        requires
            self.wf(),
        ensures
            r is Some <==> pool_has(self.pool(), digest@, slot),
            r matches Some(i) ==> i == pool_index(self.pool(), digest@, slot) && i
                < self.pool().len() && self.pool()[i as int].digest == digest@
                && self.pool()[i as int].bad_slot == slot,
    {
        let mut i: usize = 0;
        while i < self.files.len()
            invariant
                self.wf(),
                i <= self.files.len(),
                forall|k: int|
                    0 <= k < i ==> !(self.pool()[k].digest == digest@ && self.pool()[k].bad_slot
                        == slot),
            decreases self.files.len() - i,
        {
            if same_digest(&self.files[i].digest, digest) && self.files[i].bad_slot == slot {
                proof {
                    lemma_pool_index(self.pool(), i as int);
                }
                return Some(i);
            }
            i += 1;
        }
        None
    }

    /// Sets the access time of the file at place `i`.
    fn touch_at(&mut self, i: usize, now: i64)
        requires
            old(self).wf(),
            i < old(self).pool().len(),
        ensures
            final(self).wf(),
            final(self).pool() == old(self).pool().update(
                i as int,
                FileView { atime: now, ..old(self).pool()[i as int] },
            ),
            final(self).writers() == old(self).writers(),
            final(self).exclusive() == old(self).exclusive(),
            final(self).name_spec() == old(self).name_spec(),
            final(self).base_spec() == old(self).base_spec(),
            final(self).next_ino() == old(self).next_ino(),
            final(self).next_guard() == old(self).next_guard(),
    {
        let ghost before = self.pool();
        let mut file = self.files.remove(i);
        file.atime = now;
        self.files.insert(i, file);
        proof {
            let after = self.pool();
            let want = before.update(i as int, FileView { atime: now, ..before[i as int] });
            assert(after.len() == before.len());
            assert forall|k: int| 0 <= k < after.len() implies after[k] == want[k] by {
                if k != i {
                    assert(after[k].digest == before[k].digest);
                }
            }
            assert(after =~= want);
            assert forall|a: int, b: int|
                0 <= a < after.len() && 0 <= b < after.len() && a != b implies !(after[a].digest
                == after[b].digest && after[a].bad_slot == after[b].bad_slot) by {
                assert(after[a].digest == before[a].digest);
                assert(after[b].digest == before[b].digest);
            }
            assert forall|a: int, b: int| 0 <= a <= b < after.len() implies shard_of(after[a])
                <= shard_of(after[b]) by {
                assert(after[a].digest == before[a].digest);
                assert(after[b].digest == before[b].digest);
            }
        }
    }

    /// Stores a chunk under its digest at time `now`.
    ///
    /// Where the pool holds a chunk of this digest already, that chunk is
    /// touched and keeps its bytes, and the result is `true` and the size
    /// of the chunk that is there. Otherwise the blob is filed in its shard
    /// and the result is `false` and the blob's size. Fails with `IoError`
    /// only when a new chunk is due and the pool has no inode number left;
    /// the pool is then unchanged.
    pub fn insert_chunk(&mut self, chunk: &DataBlob, digest: &[u8; 32], now: i64) -> (r: Result<
        (bool, u64),
        Error,
    >)
        requires
            old(self).wf(),
        ensures
            final(self).wf(),
            final(self).writers() == old(self).writers(),
            final(self).exclusive() == old(self).exclusive(),
            final(self).name_spec() == old(self).name_spec(),
            final(self).base_spec() == old(self).base_spec(),
            final(self).next_guard() == old(self).next_guard(),
            r is Err <==> !has_chunk(old(self).pool(), digest@) && old(self).next_ino()
                == u64::MAX,
            r matches Err(e) ==> e == Error::IoError && final(self).pool() == old(self).pool()
                && final(self).next_ino() == old(self).next_ino(),
            r matches Ok(done) ==> {
                &&& final(self).next_ino() == if done.0 {
                    old(self).next_ino()
                } else {
                    (old(self).next_ino() + 1) as u64
                }
                &&& final(self).pool() == pool_insert(
                    old(self).pool(),
                    digest@,
                    chunk@,
                    now,
                    old(self).next_ino(),
                )
                &&& done.0 == has_chunk(old(self).pool(), digest@)
                &&& done.0 ==> done.1 == chunk_of(old(self).pool(), digest@).data.len()
                &&& !done.0 ==> done.1 == chunk@.len()
            },
    {
        match self.find(digest, None) {
            Some(i) => {
                let size: u64 = self.files[i].data.len() as u64;
                self.touch_at(i, now);
                Ok((true, size))
            },
            None => {
                if self.next_ino == u64::MAX {
                    return Err(Error::IoError);
                }
                let shard: u8 = digest[0];
                let mut k: usize = 0;
                while k < self.files.len() && self.files[k].digest[0] <= shard
                    invariant
                        self.wf(),
                        k <= self.files.len(),
                        forall|i: int| 0 <= i < k ==> shard_of(self.pool()[i]) <= shard,
                    decreases self.files.len() - k,
                {
                    k += 1;
                }
                let ghost before = self.pool();
                proof {
                    assert forall|i: int| k <= i < before.len() implies shard_of(before[i])
                        > shard by {
                        assert(shard_of(before[k as int]) <= shard_of(before[i]));
                    }
                    lemma_insert_position(before, shard as int, k as int);
                }
                let file = PoolFile {
                    digest: *digest,
                    bad_slot: None,
                    data: chunk.raw_data().clone(),
                    atime: now,
                    ino: self.next_ino,
                };
                let ghost fv = file@;
                self.files.insert(k, file);
                self.next_ino = self.next_ino + 1;
                proof {
                    let after = self.pool();
                    assert(after =~= before.insert(k as int, fv));
                    assert forall|a: int, b: int|
                        0 <= a < after.len() && 0 <= b < after.len() && a != b implies !(
                    after[a].digest == after[b].digest && after[a].bad_slot
                        == after[b].bad_slot) by {
                        let oa = if a < k { a } else { a - 1 };
                        let ob = if b < k { b } else { b - 1 };
                        if a != k && b != k {
                            assert(after[a] == before[oa]);
                            assert(after[b] == before[ob]);
                        } else if a == k {
                            assert(after[b] == before[ob]);
                        } else {
                            assert(after[a] == before[oa]);
                        }
                    }
                    assert forall|a: int, b: int| 0 <= a <= b < after.len() implies shard_of(
                        after[a],
                    ) <= shard_of(after[b]) by {
                        let oa = if a < k { a } else { a - 1 };
                        let ob = if b < k { b } else { b - 1 };
                        if a != k && b != k {
                            assert(after[a] == before[oa]);
                            assert(after[b] == before[ob]);
                        } else if a == k && b != k {
                            assert(after[b] == before[ob]);
                        } else if b == k && a != k {
                            assert(after[a] == before[oa]);
                        }
                    }
                    assert forall|i: int| 0 <= i < after.len() implies (#[trigger] after[i]).digest.len()
                        == 32 && (after[i].bad_slot matches Some(n) ==> n <= MAX_BAD_SLOT) by {
                        let oi = if i < k { i } else { i - 1 };
                        if i != k {
                            assert(after[i] == before[oi]);
                        }
                    }
                }
                Ok((false, chunk.raw_size()))
            },
        }
    }

    /// Touches the chunk `digest` at time `now`.
    ///
    /// The result is whether the chunk is there. Where it is not, the call
    /// fails with `NotFound` if `assert_exists` is set.
    pub fn cond_touch_chunk(&mut self, digest: &[u8; 32], assert_exists: bool, now: i64) -> (r:
        Result<bool, Error>)
        requires
            old(self).wf(),
        ensures
            final(self).wf(),
            final(self).pool() == pool_touch(old(self).pool(), digest@, None, now),
            final(self).writers() == old(self).writers(),
            final(self).exclusive() == old(self).exclusive(),
            final(self).name_spec() == old(self).name_spec(),
            final(self).base_spec() == old(self).base_spec(),
            final(self).next_ino() == old(self).next_ino(),
            final(self).next_guard() == old(self).next_guard(),
            has_chunk(old(self).pool(), digest@) ==> r == Ok::<bool, Error>(true),
            !has_chunk(old(self).pool(), digest@) ==> r == if assert_exists {
                Err::<bool, Error>(Error::NotFound)
            } else {
                Ok::<bool, Error>(false)
            },
    {
        self.cond_touch_file(digest, None, assert_exists, now)
    }

    /// Touches the file named by `digest` and `slot` at time `now`: the
    /// chunk itself, or one of its `.bad` sidecars.
    ///
    /// The result is whether the file is there. Where it is not, the call
    /// fails with `NotFound` if `assert_exists` is set.
    pub fn cond_touch_file(
        &mut self,
        digest: &[u8; 32],
        slot: Option<u8>,
        assert_exists: bool,
        now: i64,
    ) -> (r: Result<bool, Error>)
        requires
            old(self).wf(),
        ensures
            final(self).wf(),
            final(self).pool() == pool_touch(old(self).pool(), digest@, slot, now),
            final(self).writers() == old(self).writers(),
            final(self).exclusive() == old(self).exclusive(),
            final(self).name_spec() == old(self).name_spec(),
            final(self).base_spec() == old(self).base_spec(),
            final(self).next_ino() == old(self).next_ino(),
            final(self).next_guard() == old(self).next_guard(),
            pool_has(old(self).pool(), digest@, slot) ==> r == Ok::<bool, Error>(true),
            !pool_has(old(self).pool(), digest@, slot) ==> r == if assert_exists {
                Err::<bool, Error>(Error::NotFound)
            } else {
                Ok::<bool, Error>(false)
            },
    {
        match self.find(digest, slot) {
            Some(i) => {
                self.touch_at(i, now);
                Ok(true)
            },
            None => {
                if assert_exists {
                    Err(Error::NotFound)
                } else {
                    Ok(false)
                }
            },
        }
    }

    /// What `stat` tells of the chunk `digest`. Fails with `NotFound` if the
    /// pool does not hold the chunk.
    pub fn stat_chunk(&self, digest: &[u8; 32]) -> (r: Result<ChunkStat, Error>)
        requires
            self.wf(),
        ensures
            r is Ok <==> has_chunk(self.pool(), digest@),
            r matches Ok(stat) ==> {
                let file = chunk_of(self.pool(), digest@);
                stat.size == file.data.len() && stat.atime == file.atime && stat.ino == file.ino
            },
            r matches Err(e) ==> e == Error::NotFound,
    {
        match self.find(digest, None) {
            Some(i) => Ok(
                ChunkStat {
                    size: self.files[i].data.len() as u64,
                    atime: self.files[i].atime,
                    ino: self.files[i].ino,
                },
            ),
            None => Err(Error::NotFound),
        }
    }

    /// The blob of the chunk `digest`. Fails with `NotFound` if the pool
    /// does not hold the chunk.
    pub fn load_chunk(&self, digest: &[u8; 32]) -> (r: Result<DataBlob, Error>)
        requires
            self.wf(),
        ensures
            match pool_load(self.pool(), digest@) {
                Some(data) => r is Ok && r->Ok_0@ == data,
                None => r matches Err(e) && e == Error::NotFound,
            },
    {
        match self.find(digest, None) {
            Some(i) => Ok(DataBlob::from_raw(self.files[i].data.clone())),
            None => Err(Error::NotFound),
        }
    }

    /// Walks the pool shard by shard. Each item holds a file, the index of
    /// the file's shard, and the mark that the walk is done: it is set
    /// on the last item. The shard indices lie below 256 and never fall
    /// from one item to the next.
    pub fn get_chunk_iterator(&self) -> (items: Vec<(ChunkDirEntry, usize, bool)>)
        requires
            self.wf(),
        ensures
            is_walk(self.pool(), items@),
            forall|k: int| 0 <= k < items.len() ==> (#[trigger] items[k]).1 < 256,
            forall|j: int, k: int| 0 <= j <= k < items.len() ==> items[j].1 <= items[k].1,
    {
        let mut items: Vec<(ChunkDirEntry, usize, bool)> = Vec::new();
        let mut k: usize = 0;
        while k < self.files.len()
            invariant
                self.wf(),
                k <= self.files.len(),
                items.len() == k,
                forall|j: int| 0 <= j < k ==> is_walk_item(self.pool(), j, #[trigger] items[j]),
            decreases self.files.len() - k,
        {
            let file = &self.files[k];
            assert(self.pool()[k as int] == file@);
            let mut file_name = digest_to_hex(&file.digest);
            let bad: bool = match file.bad_slot {
                Some(n) => {
                    assert(n <= MAX_BAD_SLOT);
                    file_name.append(".");
                    crate::text::push_char(
                        &mut file_name,
                        crate::rfc3339::char_of_digit(n as u64),
                    );
                    file_name.append(".bad");
                    assert(file_name@ =~= pool_file_name(file@));
                    true
                },
                None => false,
            };
            let shard: usize = file.digest[0] as usize;
            let entry = ChunkDirEntry {
                file_name,
                size: file.data.len() as u64,
                atime: file.atime,
                bad,
            };
            let done: bool = k + 1 == self.files.len();
            items.push((entry, shard, done));
            k += 1;
        }
        proof {
            let pool = self.pool();
            assert forall|j: int, k: int| 0 <= j <= k < items.len() implies items[j].1
                <= items[k].1 by {
                assert(is_walk_item(pool, j, items[j]));
                assert(is_walk_item(pool, k, items[k]));
                assert(shard_of(pool[j]) <= shard_of(pool[k]));
            }
            assert forall|k: int| 0 <= k < items.len() implies (#[trigger] items[k]).1 < 256 by {
                assert(is_walk_item(pool, k, items[k]));
                assert(pool[k].digest.len() == 32);
            }
        }
        items
    }

    /// The registration time of the writer that registered first, if any
    /// writer is registered.
    pub fn oldest_writer(&self) -> (r: Option<i64>)
        ensures
            r == oldest_writer_spec(self.writers()),
    {
        let mut oldest: Option<i64> = None;
        let mut i: usize = 0;
        assert(self.writers@.take(0) =~= Seq::<Writer>::empty());
        while i < self.writers.len()
            invariant
                i <= self.writers.len(),
                oldest == oldest_writer_spec(self.writers@.take(i as int)),
            decreases self.writers.len() - i,
        {
            let start: i64 = self.writers[i].start;
            proof {
                let t = self.writers@.take(i + 1);
                assert(t.drop_last() =~= self.writers@.take(i as int));
                assert(t.last() == self.writers@[i as int]);
            }
            oldest = match oldest {
                None => Some(start),
                Some(t) => if start < t {
                    Some(start)
                } else {
                    Some(t)
                },
            };
            i += 1;
        }
        assert(self.writers@.take(self.writers.len() as int) =~= self.writers@);
        oldest
    }

    /// Registers a writer at time `now`: takes the process lock shared.
    ///
    /// Fails with `LockContended` while the lock is held exclusively, and
    /// with `IoError` when every writer id has been handed out.
    pub fn try_shared_lock(&mut self, now: i64) -> (r: Result<ProcessLockSharedGuard, Error>)
        requires
            old(self).wf(),
        ensures
            final(self).wf(),
            final(self).pool() == old(self).pool(),
            final(self).exclusive() == old(self).exclusive(),
            final(self).name_spec() == old(self).name_spec(),
            final(self).base_spec() == old(self).base_spec(),
            final(self).next_ino() == old(self).next_ino(),
            old(self).exclusive() ==> (r matches Err(e) && e == Error::LockContended(
                LockReason::ChunkStore,
            )),
            !old(self).exclusive() && old(self).next_guard() == u64::MAX ==> (r matches Err(e)
                && e == Error::IoError),
            r is Ok <==> !old(self).exclusive() && old(self).next_guard() < u64::MAX,
            r is Err ==> final(self).writers() == old(self).writers() && final(self).next_guard()
                == old(self).next_guard(),
            r matches Ok(guard) ==> {
                &&& guard.id() == old(self).next_guard()
                &&& final(self).next_guard() == old(self).next_guard() + 1
                &&& final(self).writers() == old(self).writers().push(
                    Writer { id: guard.id(), start: now },
                )
            },
    {
        if self.exclusive {
            return Err(Error::LockContended(LockReason::ChunkStore));
        }
        if self.next_guard == u64::MAX {
            return Err(Error::IoError);
        }
        let id: u64 = self.next_guard;
        self.writers.push(Writer { id, start: now });
        self.next_guard = id + 1;
        Ok(ProcessLockSharedGuard { id })
    }

    /// Gives a shared hold of the process lock back: the writer is no longer
    /// registered.
    pub fn unlock_shared(&mut self, guard: ProcessLockSharedGuard)
        requires
            old(self).wf(),
        ensures
            final(self).wf(),
            final(self).pool() == old(self).pool(),
            final(self).exclusive() == old(self).exclusive(),
            final(self).name_spec() == old(self).name_spec(),
            final(self).base_spec() == old(self).base_spec(),
            final(self).next_ino() == old(self).next_ino(),
            final(self).next_guard() == old(self).next_guard(),
            final(self).writers() == writers_without(old(self).writers(), guard.id()),
            !has_writer(final(self).writers(), guard.id()),
    {
        let mut i: usize = 0;
        while i < self.writers.len()
            invariant
                i <= self.writers.len(),
                self.wf(),
                self.writers@ == old(self).writers@,
                self.files == old(self).files,
                self.exclusive == old(self).exclusive,
                self.name == old(self).name,
                self.base == old(self).base,
                self.next_ino == old(self).next_ino,
                self.next_guard == old(self).next_guard,
                forall|k: int| 0 <= k < i ==> self.writers@[k].id != guard.id,
            decreases self.writers.len() - i,
        {
            if self.writers[i].id == guard.id {
                let ghost before = self.writers@;
                self.writers.remove(i);
                proof {
                    let after = self.writers@;
                    assert(after =~= before.remove(i as int));
                    assert forall|k: int| 0 <= k < after.len() implies after[k].id
                        != guard.id by {
                        if k < i {
                            assert(after[k] == before[k]);
                        } else {
                            assert(after[k] == before[k + 1]);
                        }
                    }
                    let c = choose|c: int| 0 <= c < before.len() && before[c].id == guard.id;
                    assert(before[i as int].id == guard.id);
                    assert(c == i);
                    assert forall|a: int, b: int| 0 <= a < b < after.len() implies after[a].id
                        != after[b].id by {
                        let oa = if a < i { a } else { a + 1 };
                        let ob = if b < i { b } else { b + 1 };
                        assert(after[a] == before[oa]);
                        assert(after[b] == before[ob]);
                    }
                    assert forall|k: int| 0 <= k < after.len() implies (#[trigger] after[k]).id
                        < self.next_guard by {
                        let ok = if k < i { k } else { k + 1 };
                        assert(after[k] == before[ok]);
                    }
                }
                return ;
            }
            i += 1;
        }
    }

    /// Takes the process lock exclusively, without waiting.
    ///
    /// Fails with `LockContended` if the lock is held exclusively already.
    pub fn try_exclusive_lock(&mut self) -> (r: Result<ProcessLockExclusiveGuard, Error>)
        requires
            old(self).wf(),
        ensures
            final(self).wf(),
            final(self).pool() == old(self).pool(),
            final(self).writers() == old(self).writers(),
            final(self).name_spec() == old(self).name_spec(),
            final(self).base_spec() == old(self).base_spec(),
            final(self).next_ino() == old(self).next_ino(),
            final(self).next_guard() == old(self).next_guard(),
            final(self).exclusive(),
            r is Ok <==> !old(self).exclusive(),
            r matches Err(e) ==> e == Error::LockContended(LockReason::ChunkStore),
    {
        if self.exclusive {
            return Err(Error::LockContended(LockReason::ChunkStore));
        }
        self.exclusive = true;
        Ok(ProcessLockExclusiveGuard { token: 0 })
    }

    /// Gives the exclusive hold of the process lock back.
    pub fn unlock_exclusive(&mut self, guard: ProcessLockExclusiveGuard)
        requires
            old(self).wf(),
        ensures
            final(self).wf(),
            final(self).pool() == old(self).pool(),
            final(self).writers() == old(self).writers(),
            final(self).name_spec() == old(self).name_spec(),
            final(self).base_spec() == old(self).base_spec(),
            final(self).next_ino() == old(self).next_ino(),
            final(self).next_guard() == old(self).next_guard(),
            !final(self).exclusive(),
    {
        self.exclusive = false;
    }
}


/// Taking a file out of a pool leaves a pool.
pub proof fn lemma_remove_keeps_wf(pool: Seq<FileView>, i: int)
    requires
        pool_wf(pool),
        0 <= i < pool.len(),
    ensures
        pool_wf(pool.remove(i)),
{
    let after = pool.remove(i);
    assert forall|a: int, b: int|
        0 <= a < after.len() && 0 <= b < after.len() && a != b implies !(after[a].digest
        == after[b].digest && after[a].bad_slot == after[b].bad_slot) by {
        let oa = if a < i { a } else { a + 1 };
        let ob = if b < i { b } else { b + 1 };
        assert(after[a] == pool[oa]);
        assert(after[b] == pool[ob]);
    }
    assert forall|a: int, b: int| 0 <= a <= b < after.len() implies shard_of(after[a])
        <= shard_of(after[b]) by {
        let oa = if a < i { a } else { a + 1 };
        let ob = if b < i { b } else { b + 1 };
        assert(after[a] == pool[oa]);
        assert(after[b] == pool[ob]);
    }
    assert forall|k: int| 0 <= k < after.len() implies (#[trigger] after[k]).digest.len() == 32 && (
    after[k].bad_slot matches Some(n) ==> n <= MAX_BAD_SLOT) by {
        let ok = if k < i { k } else { k + 1 };
        assert(after[k] == pool[ok]);
    }
}

/// Every file that a sweep leaves was in the pool, and the sweep keeps the
/// order of the files.
pub proof fn lemma_sweep_subsequence(pool: Seq<FileView>, oldest_writer: int, phase1_start: int)
    ensures
        pool_sweep(pool, oldest_writer, phase1_start).len() <= pool.len(),
        forall|k: int|
            0 <= k < pool_sweep(pool, oldest_writer, phase1_start).len() ==> pool.contains(
                #[trigger] pool_sweep(pool, oldest_writer, phase1_start)[k],
            ),
    decreases pool.len(),
{
    if pool.len() > 0 {
        let init = pool.drop_last();
        lemma_sweep_subsequence(init, oldest_writer, phase1_start);
        let swept_init = pool_sweep(init, oldest_writer, phase1_start);
        let swept = pool_sweep(pool, oldest_writer, phase1_start);
        assert forall|k: int| 0 <= k < swept.len() implies pool.contains(#[trigger] swept[k]) by {
            if k < swept_init.len() {
                assert(swept[k] == swept_init[k]);
                let w = choose|w: int| 0 <= w < init.len() && init[w] == swept_init[k];
                assert(pool[w] == swept[k]);
            } else {
                assert(swept[k] == pool.last());
                assert(pool[pool.len() - 1] == swept[k]);
            }
        }
    }
}

/// Liveness of the sweep: a file whose access time lies before the cutoff
/// is gone when the sweep is done.
pub proof fn law_sweep_removes_old_files(
    pool: Seq<FileView>,
    oldest_writer: int,
    phase1_start: int,
    i: int,
)
    requires
        names_distinct(pool),
        0 <= i < pool.len(),
        pool[i].atime < atime_cutoff(oldest_writer, phase1_start),
    ensures
        !pool_has(
            pool_sweep(pool, oldest_writer, phase1_start),
            pool[i].digest,
            pool[i].bad_slot,
        ),
    decreases pool.len(),
{
    let swept = pool_sweep(pool, oldest_writer, phase1_start);
    let init = pool.drop_last();
    let swept_init = pool_sweep(init, oldest_writer, phase1_start);
    lemma_sweep_subsequence(init, oldest_writer, phase1_start);
    assert forall|k: int| 0 <= k < swept.len() implies !(swept[k].digest == pool[i].digest
        && swept[k].bad_slot == pool[i].bad_slot) by {
        if k < swept_init.len() {
            assert(swept[k] == swept_init[k]);
            if i < pool.len() - 1 {
                assert(names_distinct(init)) by {
                    assert forall|a: int, b: int|
                        0 <= a < init.len() && 0 <= b < init.len() && a != b implies !(
                    init[a].digest == init[b].digest && init[a].bad_slot == init[b].bad_slot) by {
                        assert(init[a] == pool[a]);
                        assert(init[b] == pool[b]);
                    }
                }
                assert(init[i] == pool[i]);
                law_sweep_removes_old_files(init, oldest_writer, phase1_start, i);
            } else {
                let w = choose|w: int| 0 <= w < init.len() && init[w] == swept_init[k];
                assert(pool[w] == swept[k]);
            }
        } else {
            assert(swept[k] == pool.last());
        }
    }
}

/// Safety of the sweep: a file whose access time does not lie before the
/// cutoff is still there, unchanged, when the sweep is done.
pub proof fn law_sweep_keeps_fresh_files(
    pool: Seq<FileView>,
    oldest_writer: int,
    phase1_start: int,
    i: int,
)
    requires
        0 <= i < pool.len(),
        pool[i].atime >= atime_cutoff(oldest_writer, phase1_start),
    ensures
        pool_sweep(pool, oldest_writer, phase1_start).contains(pool[i]),
        pool_has(pool_sweep(pool, oldest_writer, phase1_start), pool[i].digest, pool[i].bad_slot),
    decreases pool.len(),
{
    let swept = pool_sweep(pool, oldest_writer, phase1_start);
    let init = pool.drop_last();
    let swept_init = pool_sweep(init, oldest_writer, phase1_start);
    if i < pool.len() - 1 {
        assert(init[i] == pool[i]);
        law_sweep_keeps_fresh_files(init, oldest_writer, phase1_start, i);
        let w = choose|w: int| 0 <= w < swept_init.len() && swept_init[w] == pool[i];
        assert(swept[w] == pool[i]);
    } else {
        assert(swept[swept.len() - 1] == pool[i]);
    }
}

/// In a pool, the files of shards up to `shard` stand before the insert
/// position and the others behind it.
pub proof fn lemma_insert_position_splits(pool: Seq<FileView>, shard: int)
    requires
        shard_sorted(pool),
    ensures
        0 <= insert_position(pool, shard) <= pool.len(),
        forall|i: int| 0 <= i < insert_position(pool, shard) ==> shard_of(pool[i]) <= shard,
        forall|i: int| insert_position(pool, shard) <= i < pool.len() ==> shard_of(pool[i]) > shard,
    decreases pool.len(),
{
    if pool.len() > 0 {
        let init = pool.drop_last();
        assert(shard_sorted(init)) by {
            assert forall|a: int, b: int| 0 <= a <= b < init.len() implies shard_of(init[a])
                <= shard_of(init[b]) by {
                assert(init[a] == pool[a]);
                assert(init[b] == pool[b]);
            }
        }
        lemma_insert_position_splits(init, shard);
        let k = insert_position(init, shard);
        if shard_of(pool.last()) <= shard {
            assert forall|i: int| 0 <= i < pool.len() implies shard_of(pool[i]) <= shard by {
                assert(shard_of(pool[i]) <= shard_of(pool[pool.len() - 1]));
            }
            assert(k == init.len()) by {
                if k < init.len() {
                    assert(init[k] == pool[k]);
                    assert(shard_of(pool[k]) > shard);
                }
            }
        } else {
            assert forall|i: int| k <= i < pool.len() implies shard_of(pool[i]) > shard by {
                if i < init.len() {
                    assert(init[i] == pool[i]);
                }
            }
            assert forall|i: int| 0 <= i < k implies shard_of(pool[i]) <= shard by {
                assert(init[i] == pool[i]);
            }
        }
    }
}

/// What inserting does to a pool: the pool stays well-formed, it holds the
/// chunk, and every other file is as it was.
pub proof fn lemma_pool_insert(
    pool: Seq<FileView>,
    digest: Seq<u8>,
    data: Seq<u8>,
    now: i64,
    ino: u64,
)
    requires
        pool_wf(pool),
        digest.len() == 32,
    ensures
        pool_wf(pool_insert(pool, digest, data, now, ino)),
        has_chunk(pool_insert(pool, digest, data, now, ino), digest),
        chunk_of(pool_insert(pool, digest, data, now, ino), digest).atime == now,
        chunk_of(pool_insert(pool, digest, data, now, ino), digest).data == if has_chunk(
            pool,
            digest,
        ) {
            chunk_of(pool, digest).data
        } else {
            data
        },
        pool_insert(pool, digest, data, now, ino).len() == if has_chunk(pool, digest) {
            pool.len()
        } else {
            pool.len() + 1
        },
        forall|d: Seq<u8>, s: Option<u8>|
            !(d == digest && s is None) ==> (pool_has(pool, d, s) <==> #[trigger] pool_has(
                pool_insert(pool, digest, data, now, ino),
                d,
                s,
            )),
        forall|d: Seq<u8>, s: Option<u8>|
            !(d == digest && s is None) && pool_has(pool, d, s) ==> pool_insert(
                pool,
                digest,
                data,
                now,
                ino,
            )[#[trigger] pool_index(pool_insert(pool, digest, data, now, ino), d, s)]
                == pool[pool_index(pool, d, s)],
{
    let after = pool_insert(pool, digest, data, now, ino);
    if has_chunk(pool, digest) {
        lemma_pool_touch(pool, digest, None, now);
    } else {
        let k = insert_position(pool, digest[0] as int);
        lemma_insert_position_splits(pool, digest[0] as int);
        let fv = FileView { digest, bad_slot: None, data, atime: now, ino };
        assert(after[k] == fv);
        assert forall|a: int, b: int|
            0 <= a < after.len() && 0 <= b < after.len() && a != b implies !(after[a].digest
            == after[b].digest && after[a].bad_slot == after[b].bad_slot) by {
            let oa = if a < k { a } else { a - 1 };
            let ob = if b < k { b } else { b - 1 };
            if a != k && b != k {
                assert(after[a] == pool[oa]);
                assert(after[b] == pool[ob]);
            } else if a == k {
                assert(after[b] == pool[ob]);
            } else {
                assert(after[a] == pool[oa]);
            }
        }
        assert forall|a: int, b: int| 0 <= a <= b < after.len() implies shard_of(after[a])
            <= shard_of(after[b]) by {
            let oa = if a < k { a } else { a - 1 };
            let ob = if b < k { b } else { b - 1 };
            if a != k && b != k {
                assert(after[a] == pool[oa]);
                assert(after[b] == pool[ob]);
            } else if a == k && b != k {
                assert(after[b] == pool[ob]);
            } else if b == k && a != k {
                assert(after[a] == pool[oa]);
            }
        }
        assert forall|i: int| 0 <= i < after.len() implies (#[trigger] after[i]).digest.len() == 32
            && (after[i].bad_slot matches Some(n) ==> n <= MAX_BAD_SLOT) by {
            let oi = if i < k { i } else { i - 1 };
            if i != k {
                assert(after[i] == pool[oi]);
            }
        }
        lemma_pool_index(after, k);
        assert forall|d: Seq<u8>, s: Option<u8>| !(d == digest && s is None) implies (pool_has(
            pool,
            d,
            s,
        ) <==> #[trigger] pool_has(after, d, s)) by {
            if pool_has(pool, d, s) {
                let i = pool_index(pool, d, s);
                let ni = if i < k { i } else { i + 1 };
                assert(after[ni] == pool[i]);
            }
            if pool_has(after, d, s) {
                let i = pool_index(after, d, s);
                let oi = if i < k { i } else { i - 1 };
                assert(i != k);
                assert(after[i] == pool[oi]);
            }
        }
        assert forall|d: Seq<u8>, s: Option<u8>|
            !(d == digest && s is None) && pool_has(pool, d, s) implies after[#[trigger] pool_index(
            after,
            d,
            s,
        )] == pool[pool_index(pool, d, s)] by {
            let i = pool_index(pool, d, s);
            let ni = if i < k { i } else { i + 1 };
            assert(after[ni] == pool[i]);
            lemma_pool_index(after, ni);
        }
    }
}

/// What touching does to a pool: the pool stays well-formed and holds the
/// same files with the same bytes; only the access time of the touched file
/// changes.
pub proof fn lemma_pool_touch(pool: Seq<FileView>, digest: Seq<u8>, slot: Option<u8>, now: i64)
    requires
        pool_wf(pool),
    ensures
        pool_wf(pool_touch(pool, digest, slot, now)),
        pool_touch(pool, digest, slot, now).len() == pool.len(),
        forall|i: int|
            0 <= i < pool.len() ==> {
                let before = pool[i];
                let after = #[trigger] pool_touch(pool, digest, slot, now)[i];
                &&& after.digest == before.digest
                &&& after.bad_slot == before.bad_slot
                &&& after.data == before.data
                &&& after.ino == before.ino
                &&& after.atime == if before.digest == digest && before.bad_slot == slot {
                    now
                } else {
                    before.atime
                }
            },
        forall|d: Seq<u8>, s: Option<u8>|
            pool_has(pool, d, s) <==> #[trigger] pool_has(pool_touch(pool, digest, slot, now), d, s),
        forall|d: Seq<u8>, s: Option<u8>|
            pool_has(pool, d, s) ==> #[trigger] pool_index(pool_touch(pool, digest, slot, now), d, s)
                == pool_index(pool, d, s),
{
    let after = pool_touch(pool, digest, slot, now);
    if pool_has(pool, digest, slot) {
        let t = pool_index(pool, digest, slot);
        assert forall|i: int| 0 <= i < pool.len() implies {
            let b = pool[i];
            let a = #[trigger] after[i];
            &&& a.digest == b.digest
            &&& a.bad_slot == b.bad_slot
            &&& a.data == b.data
            &&& a.ino == b.ino
            &&& a.atime == if b.digest == digest && b.bad_slot == slot {
                now
            } else {
                b.atime
            }
        } by {
            if i != t && pool[i].digest == digest && pool[i].bad_slot == slot {
                assert(false);
            }
        }
        assert forall|a: int, b: int|
            0 <= a < after.len() && 0 <= b < after.len() && a != b implies !(after[a].digest
            == after[b].digest && after[a].bad_slot == after[b].bad_slot) by {
            assert(after[a].digest == pool[a].digest);
            assert(after[b].digest == pool[b].digest);
        }
        assert forall|a: int, b: int| 0 <= a <= b < after.len() implies shard_of(after[a])
            <= shard_of(after[b]) by {
            assert(after[a].digest == pool[a].digest);
            assert(after[b].digest == pool[b].digest);
        }
        assert forall|i: int| 0 <= i < after.len() implies (#[trigger] after[i]).digest.len() == 32
            && (after[i].bad_slot matches Some(n) ==> n <= MAX_BAD_SLOT) by {
            assert(after[i].digest == pool[i].digest);
        }
        assert forall|d: Seq<u8>, s: Option<u8>| pool_has(pool, d, s) <==> #[trigger] pool_has(
            after,
            d,
            s,
        ) by {
            if pool_has(pool, d, s) {
                let i = pool_index(pool, d, s);
                assert(after[i].digest == d && after[i].bad_slot == s);
            }
            if pool_has(after, d, s) {
                let i = pool_index(after, d, s);
                assert(pool[i].digest == d && pool[i].bad_slot == s);
            }
        }
        assert forall|d: Seq<u8>, s: Option<u8>| pool_has(pool, d, s) implies #[trigger] pool_index(
            after,
            d,
            s,
        ) == pool_index(pool, d, s) by {
            let i = pool_index(pool, d, s);
            assert(after[i].digest == d && after[i].bad_slot == s);
            lemma_pool_index(after, i);
        }
    }
}

/// Content addressing: a chunk that was inserted under its digest is what
/// loading that digest gives back. Where the pool held a chunk of that
/// digest before, that is the chunk that stays; so the bytes that were
/// inserted come back where the digest was new, or where it named the same
/// bytes before.
pub proof fn law_content_addressing(
    pool: Seq<FileView>,
    digest: Seq<u8>,
    data: Seq<u8>,
    now: i64,
    ino: u64,
)
    requires
        pool_wf(pool),
        digest.len() == 32,
        has_chunk(pool, digest) ==> chunk_of(pool, digest).data == data,
    ensures
        pool_load(pool_insert(pool, digest, data, now, ino), digest) == Some(data),
{
    lemma_pool_insert(pool, digest, data, now, ino);
}

/// The pool after the same chunk was inserted once for each of the given
/// times, the first time with the first inode number.
pub open spec fn pool_insert_repeated(
    pool: Seq<FileView>,
    digest: Seq<u8>,
    data: Seq<u8>,
    times: Seq<i64>,
    ino: u64,
) -> Seq<FileView>
    decreases times.len(),
{
    if times.len() == 0 {
        pool
    } else {
        pool_insert(
            pool_insert_repeated(pool, digest, data, times.drop_last(), ino),
            digest,
            data,
            times.last(),
            ino,
        )
    }
}

/// Insertion is idempotent: however often a chunk is inserted, the pool
/// holds it once, with the bytes of the first insertion, and every
/// insertion after the first finds it there.
pub proof fn law_insertion_idempotent(
    pool: Seq<FileView>,
    digest: Seq<u8>,
    data: Seq<u8>,
    times: Seq<i64>,
    ino: u64,
)
    requires
        pool_wf(pool),
        digest.len() == 32,
        !has_chunk(pool, digest),
        times.len() >= 1,
    ensures
        pool_wf(pool_insert_repeated(pool, digest, data, times, ino)),
        has_chunk(pool_insert_repeated(pool, digest, data, times, ino), digest),
        pool_insert_repeated(pool, digest, data, times, ino).len() == pool.len() + 1,
        pool_load(pool_insert_repeated(pool, digest, data, times, ino), digest) == Some(data),
        chunk_of(pool_insert_repeated(pool, digest, data, times, ino), digest).atime
            == times.last(),
    decreases times.len(),
{
    let before = pool_insert_repeated(pool, digest, data, times.drop_last(), ino);
    if times.len() == 1 {
        assert(times.drop_last().len() == 0);
        assert(before == pool);
    } else {
        law_insertion_idempotent(pool, digest, data, times.drop_last(), ino);
    }
    lemma_pool_insert(before, digest, data, times.last(), ino);
}

impl ChunkStore {
    /// The path of the chunk `digest`, and the digest's hexadecimal name.
    pub fn chunk_path(&self, digest: &[u8; 32]) -> (r: (String, String))
        ensures
            r.0@ == self.base_spec() + "/"@ + crate::digest::chunk_rel_path(digest@),
            r.1@ == hex_text(digest@),
    {
        let (rel, hex) = crate::digest::chunk_rel_path_of(digest);
        let mut path = self.base.clone();
        path.append("/");
        path.append(rel.as_str());
        (path, hex)
    }

    /// Removes every file whose access time lies more than the safety
    /// window before both `oldest_writer` and `phase1_start_time`, and
    /// counts in `status` what goes and what stays.
    ///
    /// The worker is polled before every file. Where it asks to stop, the
    /// files that were looked at by then are swept and the others are as
    /// they were.
    pub fn sweep_unused_chunks<W: WorkerTaskContext>(
        &mut self,
        oldest_writer: i64,
        phase1_start_time: i64,
        status: &mut GarbageCollectionStatus,
        worker: &W,
    ) -> (r: Result<(), Error>)
        requires
            old(self).wf(),
        ensures
            final(self).wf(),
            final(self).writers() == old(self).writers(),
            final(self).exclusive() == old(self).exclusive(),
            final(self).name_spec() == old(self).name_spec(),
            final(self).base_spec() == old(self).base_spec(),
            final(self).next_ino() == old(self).next_ino(),
            final(self).next_guard() == old(self).next_guard(),
            exists|k: int|
                0 <= k <= old(self).pool().len() && final(self).pool() == pool_sweep(
                    #[trigger] old(self).pool().take(k),
                    oldest_writer as int,
                    phase1_start_time as int,
                ) + old(self).pool().skip(k) && status_after_sweep(
                    *old(status),
                    *final(status),
                    old(self).pool().take(k),
                    oldest_writer as int,
                    phase1_start_time as int,
                ),
            r is Ok ==> final(self).pool() == pool_sweep(
                old(self).pool(),
                oldest_writer as int,
                phase1_start_time as int,
            ) && status_after_sweep(
                *old(status),
                *final(status),
                old(self).pool(),
                oldest_writer as int,
                phase1_start_time as int,
            ),
            r matches Err(e) ==> stops_with(worker, e),
            never_stops(worker) ==> r is Ok,
    {
        let ghost old_pool = self.pool();
        let ghost start = *status;
        let ghost ow = oldest_writer as int;
        let ghost p1 = phase1_start_time as int;
        let mut i: usize = 0;
        let ghost mut j: int = 0;
        proof {
            assert(old_pool.take(0) =~= Seq::<FileView>::empty());
            assert(old_pool.skip(0) =~= old_pool);
            assert(pool_sweep(old_pool.take(0), ow, p1) + old_pool.skip(0) =~= old_pool);
        }
        while i < self.files.len()
            invariant
                0 <= j <= old_pool.len(),
                i <= self.files.len(),
                self.wf(),
                old_pool == old(self).pool(),
                start == *old(status),
                self.pool() == pool_sweep(old_pool.take(j), ow, p1) + old_pool.skip(j),
                i == pool_sweep(old_pool.take(j), ow, p1).len(),
                status_after_sweep(start, *status, old_pool.take(j), ow, p1),
                self.writers == old(self).writers,
                self.exclusive == old(self).exclusive,
                self.name == old(self).name,
                self.base == old(self).base,
                self.next_ino == old(self).next_ino,
                self.next_guard == old(self).next_guard,
                ow == oldest_writer as int,
                p1 == phase1_start_time as int,
            decreases self.files.len() - i,
        {
            match poll(worker) {
                Err(e) => {
                    proof {
                        let witness = old(self).pool().take(j);
                        assert(self.pool() == pool_sweep(witness, ow, p1) + old(self).pool().skip(
                            j,
                        ));
                    }
                    return Err(e);
                },
                Ok(_) => {},
            }
            let ghost cur_pool = self.pool();
            let ghost swept_so_far = pool_sweep(old_pool.take(j), ow, p1);
            assert(j < old_pool.len());
            assert(cur_pool[i as int] == old_pool.skip(j)[0]);
            let ghost file = old_pool[j];
            assert(self.files[i as int]@ == file);
            let action = sweep_action(self.files[i].atime, oldest_writer, phase1_start_time);
            let bad: bool = self.files[i].bad_slot.is_some();
            let size: u64 = self.files[i].data.len() as u64;
            proof {
                let t = old_pool.take(j + 1);
                assert(t.drop_last() =~= old_pool.take(j));
                assert(t.last() == file);
                lemma_tally_nonnegative(old_pool.take(j), ow, p1, Counter::RemovedChunks);
                lemma_tally_nonnegative(old_pool.take(j), ow, p1, Counter::RemovedBad);
                lemma_tally_nonnegative(old_pool.take(j), ow, p1, Counter::RemovedBytes);
                lemma_tally_nonnegative(old_pool.take(j), ow, p1, Counter::PendingChunks);
                lemma_tally_nonnegative(old_pool.take(j), ow, p1, Counter::PendingBytes);
                lemma_tally_nonnegative(old_pool.take(j), ow, p1, Counter::StillBad);
                lemma_tally_nonnegative(old_pool.take(j), ow, p1, Counter::DiskChunks);
                lemma_tally_nonnegative(old_pool.take(j), ow, p1, Counter::DiskBytes);
            }
            count_swept(status, action, bad, size);
            match action {
                SweepAction::Remove => {
                    proof {
                        lemma_remove_keeps_wf(cur_pool, i as int);
                    }
                    self.files.remove(i);
                    proof {
                        assert(self.pool() =~= cur_pool.remove(i as int));
                        assert(cur_pool.remove(i as int) =~= swept_so_far + old_pool.skip(j + 1));
                    }
                },
                SweepAction::Pending => {
                    proof {
                        assert(cur_pool =~= swept_so_far.push(file) + old_pool.skip(j + 1));
                    }
                    i += 1;
                },
                SweepAction::Keep => {
                    proof {
                        assert(cur_pool =~= swept_so_far.push(file) + old_pool.skip(j + 1));
                    }
                    i += 1;
                },
            }
            proof {
                j = j + 1;
            }
        }
        proof {
            lemma_sweep_subsequence(old_pool.take(j), ow, p1);
            assert(j == old_pool.len()) by {
                if j < old_pool.len() {
                    assert(self.pool().len() == i + old_pool.len() - j);
                }
            }
            assert(old_pool.take(j) =~= old_pool);
            assert(old_pool.skip(j) =~= Seq::<FileView>::empty());
            assert(self.pool() =~= pool_sweep(old_pool, ow, p1));
            let witness = old(self).pool().take(j);
            assert(self.pool() == pool_sweep(witness, ow, p1) + old(self).pool().skip(j));
        }
        Ok(())
    }
}


/// The number under which a chunk that failed verification is set aside:
/// the first from `n` on that no sidecar of the chunk has yet, or the last
/// number where all are taken.
pub open spec fn first_free_slot(pool: Seq<FileView>, digest: Seq<u8>, n: u8) -> u8
    decreases 9 - n,
{
    if n < MAX_BAD_SLOT && pool_has(pool, digest, Some(n)) {
        first_free_slot(pool, digest, (n + 1) as u8)
    } else {
        n
    }
}

/// The pool without the file named by `digest` and `slot`.
pub open spec fn pool_without(pool: Seq<FileView>, digest: Seq<u8>, slot: Option<u8>) -> Seq<FileView> {
    if pool_has(pool, digest, slot) {
        pool.remove(pool_index(pool, digest, slot))
    } else {
        pool
    }
}

/// The pool after a chunk that failed verification was set aside: the
/// chunk file is renamed to the sidecar of the first free number, in
/// place of the last sidecar where all numbers are taken. Nothing happens
/// where the pool does not hold the chunk.
pub open spec fn pool_rename_bad(pool: Seq<FileView>, digest: Seq<u8>) -> Seq<FileView> {
    if !has_chunk(pool, digest) {
        pool
    } else {
        let slot = first_free_slot(pool, digest, 0);
        let cleared = pool_without(pool, digest, Some(slot));
        let i = pool_index(cleared, digest, None);
        cleared.update(i, FileView { bad_slot: Some(slot), ..cleared[i] })
    }
}

impl ChunkStore {
    /// Takes the file at place `i` out of the pool.
    fn remove_at(&mut self, i: usize)
        requires
            old(self).wf(),
            i < old(self).pool().len(),
        ensures
            final(self).wf(),
            final(self).pool() == old(self).pool().remove(i as int),
            final(self).writers() == old(self).writers(),
            final(self).exclusive() == old(self).exclusive(),
            final(self).name_spec() == old(self).name_spec(),
            final(self).base_spec() == old(self).base_spec(),
            final(self).next_ino() == old(self).next_ino(),
            final(self).next_guard() == old(self).next_guard(),
    {
        proof {
            lemma_remove_keeps_wf(self.pool(), i as int);
        }
        let ghost before = self.pool();
        self.files.remove(i);
        assert(self.pool() =~= before.remove(i as int));
    }

    /// Sets a chunk that failed verification aside: renames its file to a
    /// `.bad` sidecar. The answer is the number of the sidecar; `None`
    /// where the pool does not hold the chunk.
    pub fn rename_corrupted_chunk(&mut self, digest: &[u8; 32]) -> (r: Option<u8>)
        requires
            old(self).wf(),
        ensures
            final(self).wf(),
            final(self).pool() == pool_rename_bad(old(self).pool(), digest@),
            final(self).writers() == old(self).writers(),
            final(self).exclusive() == old(self).exclusive(),
            final(self).name_spec() == old(self).name_spec(),
            final(self).base_spec() == old(self).base_spec(),
            final(self).next_ino() == old(self).next_ino(),
            final(self).next_guard() == old(self).next_guard(),
            r == if has_chunk(old(self).pool(), digest@) {
                Some(first_free_slot(old(self).pool(), digest@, 0))
            } else {
                None
            },
    {
        let ghost start = self.pool();
        if self.find(digest, None).is_none() {
            return None;
        }
        let mut slot: u8 = 0;
        while slot < MAX_BAD_SLOT && self.find(digest, Some(slot)).is_some()
            invariant
                slot <= MAX_BAD_SLOT,
                self.wf(),
                self.pool() == start,
                first_free_slot(start, digest@, 0) == first_free_slot(start, digest@, slot),
            decreases MAX_BAD_SLOT - slot,
        {
            slot += 1;
        }
        match self.find(digest, Some(slot)) {
            Some(j) => {
                self.remove_at(j);
            },
            None => {},
        }
        let ghost cleared = self.pool();
        proof {
            assert(cleared == pool_without(start, digest@, Some(slot)));
            assert(!pool_has(cleared, digest@, Some(slot))) by {
                if pool_has(start, digest@, Some(slot)) {
                    let j = pool_index(start, digest@, Some(slot));
                    if pool_has(cleared, digest@, Some(slot)) {
                        let w = pool_index(cleared, digest@, Some(slot));
                        let ow = if w < j { w } else { w + 1 };
                        assert(cleared[w] == start[ow]);
                        assert(ow != j);
                    }
                }
            }
            assert(has_chunk(cleared, digest@)) by {
                let c = pool_index(start, digest@, None);
                if pool_has(start, digest@, Some(slot)) {
                    let j = pool_index(start, digest@, Some(slot));
                    let nc = if c < j { c } else { c - 1 };
                    assert(c != j);
                    assert(cleared[nc] == start[c]);
                }
            }
        }
        let i: usize = match self.find(digest, None) {
            Some(i) => i,
            None => {
                assert(false);
                return None;
            },
        };
        let mut file = self.files.remove(i);
        file.bad_slot = Some(slot);
        self.files.insert(i, file);
        proof {
            let after = self.pool();
            let want = cleared.update(i as int, FileView { bad_slot: Some(slot), ..cleared[i as int] });
            assert(after.len() == cleared.len());
            assert forall|k: int| 0 <= k < after.len() implies after[k] == want[k] by {
                if k != i {
                    assert(after[k].digest == cleared[k].digest);
                }
            }
            assert(after =~= want);
            assert forall|a: int, b: int|
                0 <= a < after.len() && 0 <= b < after.len() && a != b implies !(after[a].digest
                == after[b].digest && after[a].bad_slot == after[b].bad_slot) by {
                if a != i && b != i {
                    assert(after[a] == cleared[a] && after[b] == cleared[b]);
                } else if a == i {
                    assert(after[b] == cleared[b]);
                    if cleared[b].digest == digest@ && cleared[b].bad_slot == Some(slot) {
                        assert(pool_has(cleared, digest@, Some(slot)));
                    }
                } else {
                    assert(after[a] == cleared[a]);
                    if cleared[a].digest == digest@ && cleared[a].bad_slot == Some(slot) {
                        assert(pool_has(cleared, digest@, Some(slot)));
                    }
                }
            }
            assert forall|a: int, b: int| 0 <= a <= b < after.len() implies shard_of(after[a])
                <= shard_of(after[b]) by {
                assert(after[a].digest == cleared[a].digest);
                assert(after[b].digest == cleared[b].digest);
            }
            assert forall|k: int| 0 <= k < after.len() implies (#[trigger] after[k]).digest.len()
                == 32 && (after[k].bad_slot matches Some(n) ==> n <= MAX_BAD_SLOT) by {
                assert(after[k].digest == cleared[k].digest);
                if k != i {
                    assert(after[k] == cleared[k]);
                }
            }
        }
        Some(slot)
    }
}

} // verus!
