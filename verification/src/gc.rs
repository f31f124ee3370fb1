//! Garbage collection of the chunk pool: the mark phase, which touches
//! every chunk that an index lists, and the sweep phase, which removes the
//! chunk files that nobody touched for long enough.

use vstd::prelude::*;
use crate::api_types::{sat_u64, sat_usize, GarbageCollectionStatus};
use crate::chunk_store::{
    atime_cutoff, chunk_of, has_chunk, law_sweep_keeps_fresh_files, law_sweep_removes_old_files,
    lemma_pool_index, lemma_pool_touch, min_time, names_distinct, oldest_writer_spec, pool_has,
    pool_index, pool_sweep, pool_touch, pool_wf, tally, Counter, ChunkStore, FileView, Writer,
    status_after_sweep,
};
use crate::error::Error;
use crate::index::{IndexFile, IndexView};
use crate::namespace::{is_strange_path, strange_path, ImageFile, ImageView};
use crate::text::to_chars;
use vstd::string::StringExecFns;
use crate::worker::{never_stops, poll, stops_with, WorkerTaskContext};

verus! {

/// Whether `after` is `before` with some files touched at time `now`: the
/// same files with the same bytes in the same places, each with the access
/// time it had or with `now`.
pub open spec fn only_touched(before: Seq<FileView>, after: Seq<FileView>, now: i64) -> bool {
    &&& after.len() == before.len()
    &&& forall|i: int|
        0 <= i < before.len() ==> {
            let a = #[trigger] after[i];
            let b = before[i];
            &&& a.digest == b.digest
            &&& a.bad_slot == b.bad_slot
            &&& a.data == b.data
            &&& a.ino == b.ino
            &&& (a.atime == b.atime || a.atime == now)
        }
}

/// The pool after the sidecars of `digest` with numbers below `n` were
/// touched.
pub open spec fn touch_bad_slots(pool: Seq<FileView>, digest: Seq<u8>, now: i64, n: int) -> Seq<
    FileView,
>
    decreases n,
{
    if n <= 0 {
        pool
    } else {
        pool_touch(touch_bad_slots(pool, digest, now, n - 1), digest, Some((n - 1) as u8), now)
    }
}

/// The pool after one digest of an index was marked: the chunk is touched;
/// where the pool does not hold the chunk, its sidecars are touched
/// instead, so that they stay while an index still asks for the chunk.
pub open spec fn mark_digest(pool: Seq<FileView>, digest: Seq<u8>, now: i64) -> Seq<FileView> {
    if has_chunk(pool, digest) {
        pool_touch(pool, digest, None, now)
    } else {
        touch_bad_slots(pool, digest, now, 10)
    }
}

/// The pool after the digests of an index were marked, one after the
/// other.
pub open spec fn mark_digests(pool: Seq<FileView>, digests: Seq<Seq<u8>>, now: i64) -> Seq<
    FileView,
>
    decreases digests.len(),
{
    if digests.len() == 0 {
        pool
    } else {
        mark_digest(mark_digests(pool, digests.drop_last(), now), digests.last(), now)
    }
}

/// The pool after the index files were marked, one after the other.
pub open spec fn mark_images(pool: Seq<FileView>, images: Seq<ImageView>, now: i64) -> Seq<
    FileView,
>
    decreases images.len(),
{
    if images.len() == 0 {
        pool
    } else {
        let init = mark_images(pool, images.drop_last(), now);
        match images.last().index {
            Some(index) => mark_digests(init, index.digests, now),
            None => init,
        }
    }
}

/// Whether one of the index files lists the digest.
pub open spec fn referenced(images: Seq<ImageView>, digest: Seq<u8>) -> bool {
    exists|k: int, p: int|
        0 <= k < images.len() && (#[trigger] images[k]).index is Some && 0 <= p
            < images[k].index->0.digests.len() && #[trigger] images[k].index->0.digests[p]
            == digest
}

/// Whether every index file can be read.
pub open spec fn images_readable(images: Seq<ImageView>) -> bool {
    forall|k: int| 0 <= k < images.len() ==> (#[trigger] images[k]).index is Some
}

/// Touching is transitive.
pub proof fn lemma_only_touched_trans(a: Seq<FileView>, b: Seq<FileView>, c: Seq<FileView>, now: i64)
    requires
        only_touched(a, b, now),
        only_touched(b, c, now),
    ensures
        only_touched(a, c, now),
{
    assert forall|i: int| 0 <= i < a.len() implies {
        let x = #[trigger] c[i];
        let y = a[i];
        &&& x.digest == y.digest
        &&& x.bad_slot == y.bad_slot
        &&& x.data == y.data
        &&& x.ino == y.ino
        &&& (x.atime == y.atime || x.atime == now)
    } by {
        let m = b[i];
    }
}

/// A pool with some files touched is a pool and holds what it held, in the
/// same places.
pub proof fn lemma_only_touched_pool(before: Seq<FileView>, after: Seq<FileView>, now: i64)
    requires
        pool_wf(before),
        only_touched(before, after, now),
    ensures
        pool_wf(after),
        forall|d: Seq<u8>, s: Option<u8>| pool_has(before, d, s) <==> #[trigger] pool_has(after, d, s),
        forall|d: Seq<u8>, s: Option<u8>|
            pool_has(before, d, s) ==> #[trigger] pool_index(after, d, s) == pool_index(
                before,
                d,
                s,
            ),
{
    assert forall|a: int, b: int|
        0 <= a < after.len() && 0 <= b < after.len() && a != b implies !(after[a].digest
        == after[b].digest && after[a].bad_slot == after[b].bad_slot) by {
        assert(after[a].digest == before[a].digest);
        assert(after[b].digest == before[b].digest);
    }
    assert forall|a: int, b: int| 0 <= a <= b < after.len() implies crate::chunk_store::shard_of(
        after[a],
    ) <= crate::chunk_store::shard_of(after[b]) by {
        assert(after[a].digest == before[a].digest);
        assert(after[b].digest == before[b].digest);
    }
    assert forall|i: int| 0 <= i < after.len() implies (#[trigger] after[i]).digest.len() == 32 && (
    after[i].bad_slot matches Some(n) ==> n <= crate::digest::MAX_BAD_SLOT) by {
        assert(after[i].digest == before[i].digest);
    }
    assert forall|d: Seq<u8>, s: Option<u8>| pool_has(before, d, s) <==> #[trigger] pool_has(
        after,
        d,
        s,
    ) by {
        if pool_has(before, d, s) {
            let i = pool_index(before, d, s);
            assert(after[i].digest == d && after[i].bad_slot == s);
        }
        if pool_has(after, d, s) {
            let i = pool_index(after, d, s);
            assert(before[i].digest == d && before[i].bad_slot == s);
        }
    }
    assert forall|d: Seq<u8>, s: Option<u8>| pool_has(before, d, s) implies #[trigger] pool_index(
        after,
        d,
        s,
    ) == pool_index(before, d, s) by {
        let i = pool_index(before, d, s);
        assert(after[i].digest == d && after[i].bad_slot == s);
        lemma_pool_index(after, i);
    }
}

/// What touching one file does, place by place.
pub proof fn lemma_touch_places(pool: Seq<FileView>, digest: Seq<u8>, slot: Option<u8>, now: i64)
    requires
        pool_wf(pool),
    ensures
        only_touched(pool, pool_touch(pool, digest, slot, now), now),
        pool_wf(pool_touch(pool, digest, slot, now)),
        forall|i: int|
            0 <= i < pool.len() ==> (#[trigger] pool_touch(pool, digest, slot, now)[i]).atime
                == if pool[i].digest == digest && pool[i].bad_slot == slot {
                now
            } else {
                pool[i].atime
            },
{
    lemma_pool_touch(pool, digest, slot, now);
    let after = pool_touch(pool, digest, slot, now);
    assert forall|i: int| 0 <= i < pool.len() implies {
        let a = #[trigger] after[i];
        let b = pool[i];
        &&& a.digest == b.digest
        &&& a.bad_slot == b.bad_slot
        &&& a.data == b.data
        &&& a.ino == b.ino
        &&& (a.atime == b.atime || a.atime == now)
    } by {}
}

/// What touching the sidecars of a digest does, place by place: only
/// sidecars of that digest change, and only in their access time.
pub proof fn lemma_touch_bad_slots(pool: Seq<FileView>, digest: Seq<u8>, now: i64, n: int)
    requires
        pool_wf(pool),
    ensures
        only_touched(pool, touch_bad_slots(pool, digest, now, n), now),
        pool_wf(touch_bad_slots(pool, digest, now, n)),
        forall|i: int|
            0 <= i < pool.len() && !(pool[i].digest == digest && pool[i].bad_slot is Some) ==> (
            #[trigger] touch_bad_slots(pool, digest, now, n)[i]) == pool[i],
    decreases n,
{
    if n > 0 {
        let mid = touch_bad_slots(pool, digest, now, n - 1);
        lemma_touch_bad_slots(pool, digest, now, n - 1);
        lemma_touch_places(mid, digest, Some((n - 1) as u8), now);
        let after = touch_bad_slots(pool, digest, now, n);
        lemma_only_touched_trans(pool, mid, after, now);
        assert forall|i: int|
            0 <= i < pool.len() && !(pool[i].digest == digest && pool[i].bad_slot is Some) implies (
        #[trigger] after[i]) == pool[i] by {
            assert(mid[i] == pool[i]);
            assert(after[i].atime == mid[i].atime);
        }
    }
}

/// What marking one digest does, place by place: the chunk of that digest
/// is fresh, and no other chunk changes.
pub proof fn lemma_mark_digest(pool: Seq<FileView>, digest: Seq<u8>, now: i64)
    requires
        pool_wf(pool),
    ensures
        only_touched(pool, mark_digest(pool, digest, now), now),
        pool_wf(mark_digest(pool, digest, now)),
        forall|i: int|
            0 <= i < pool.len() && pool[i].digest == digest && pool[i].bad_slot is None ==> (
            #[trigger] mark_digest(pool, digest, now)[i]).atime == now,
        forall|i: int|
            0 <= i < pool.len() && pool[i].digest != digest ==> (#[trigger] mark_digest(
                pool,
                digest,
                now,
            )[i]) == pool[i],
{
    let after = mark_digest(pool, digest, now);
    if has_chunk(pool, digest) {
        lemma_touch_places(pool, digest, None, now);
        assert forall|i: int| 0 <= i < pool.len() && pool[i].digest != digest implies (
        #[trigger] after[i]) == pool[i] by {
            assert(after[i].atime == pool[i].atime);
        }
    } else {
        lemma_touch_bad_slots(pool, digest, now, 10);
    }
}

/// What marking the digests of an index does, place by place: the chunks
/// that the index lists are fresh, and the files of other digests are as
/// they were.
pub proof fn lemma_mark_digests(pool: Seq<FileView>, digests: Seq<Seq<u8>>, now: i64)
    requires
        pool_wf(pool),
    ensures
        only_touched(pool, mark_digests(pool, digests, now), now),
        pool_wf(mark_digests(pool, digests, now)),
        forall|i: int, p: int|
            0 <= i < pool.len() && pool[i].bad_slot is None && 0 <= p < digests.len()
                && #[trigger] digests[p] == pool[i].digest ==> (#[trigger] mark_digests(
                pool,
                digests,
                now,
            )[i]).atime == now,
        forall|i: int|
            0 <= i < pool.len() && (forall|p: int|
                0 <= p < digests.len() ==> #[trigger] digests[p] != pool[i].digest) ==> (
            #[trigger] mark_digests(pool, digests, now)[i]) == pool[i],
        forall|i: int|
            0 <= i < pool.len() && pool[i].atime == now ==> (#[trigger] mark_digests(
                pool,
                digests,
                now,
            )[i]).atime == now,
    decreases digests.len(),
{
    let after = mark_digests(pool, digests, now);
    if digests.len() > 0 {
        let init = digests.drop_last();
        let mid = mark_digests(pool, init, now);
        lemma_mark_digests(pool, init, now);
        lemma_mark_digest(mid, digests.last(), now);
        lemma_only_touched_trans(pool, mid, after, now);
        assert forall|i: int, p: int|
            0 <= i < pool.len() && pool[i].bad_slot is None && 0 <= p < digests.len()
                && #[trigger] digests[p] == pool[i].digest implies (#[trigger] after[i]).atime
            == now by {
            assert(mid[i].digest == pool[i].digest && mid[i].bad_slot == pool[i].bad_slot);
            if p < init.len() {
                assert(init[p] == digests[p]);
                assert(mid[i].atime == now);
                assert(after[i].atime == mid[i].atime || after[i].atime == now);
            }
        }
        assert forall|i: int|
            0 <= i < pool.len() && (forall|p: int|
                0 <= p < digests.len() ==> #[trigger] digests[p] != pool[i].digest) implies (
        #[trigger] after[i]) == pool[i] by {
            assert forall|p: int| 0 <= p < init.len() implies #[trigger] init[p]
                != pool[i].digest by {
                assert(init[p] == digests[p]);
            }
            assert(mid[i] == pool[i]);
            assert(digests[digests.len() - 1] != pool[i].digest);
        }
        assert forall|i: int| 0 <= i < pool.len() && pool[i].atime == now implies (
        #[trigger] after[i]).atime == now by {
            assert(mid[i].atime == now);
            assert(after[i].atime == mid[i].atime || after[i].atime == now);
        }
    }
}

/// What the mark phase does, place by place: every chunk that an index
/// lists is fresh, and every chunk that no index lists is as it was.
pub proof fn lemma_mark_images(pool: Seq<FileView>, images: Seq<ImageView>, now: i64)
    requires
        pool_wf(pool),
    ensures
        only_touched(pool, mark_images(pool, images, now), now),
        pool_wf(mark_images(pool, images, now)),
        forall|i: int|
            0 <= i < pool.len() && pool[i].bad_slot is None && referenced(images, pool[i].digest)
                ==> (#[trigger] mark_images(pool, images, now)[i]).atime == now,
        forall|i: int|
            0 <= i < pool.len() && !referenced(images, pool[i].digest) ==> (#[trigger] mark_images(
                pool,
                images,
                now,
            )[i]) == pool[i],
    decreases images.len(),
{
    let after = mark_images(pool, images, now);
    if images.len() > 0 {
        let init = images.drop_last();
        let mid = mark_images(pool, init, now);
        lemma_mark_images(pool, init, now);
        match images.last().index {
            Some(index) => {
                lemma_mark_digests(mid, index.digests, now);
                lemma_only_touched_trans(pool, mid, after, now);
            },
            None => {},
        }
        assert forall|i: int|
            0 <= i < pool.len() && pool[i].bad_slot is None && referenced(
                images,
                pool[i].digest,
            ) implies (#[trigger] after[i]).atime == now by {
            let (k, p) = choose|k: int, p: int|
                0 <= k < images.len() && (#[trigger] images[k]).index is Some && 0 <= p
                    < images[k].index->0.digests.len() && #[trigger] images[k].index->0.digests[p]
                    == pool[i].digest;
            assert(mid[i].digest == pool[i].digest && mid[i].bad_slot == pool[i].bad_slot);
            if k < init.len() {
                assert(init[k] == images[k]);
                assert(referenced(init, pool[i].digest));
                assert(mid[i].atime == now);
                match images.last().index {
                    Some(index) => {
                        assert(after[i].atime == now);
                    },
                    None => {},
                }
            } else {
                let index = images.last().index->0;
                assert(index.digests[p] == mid[i].digest);
                assert(after[i].atime == now);
            }
        }
        assert forall|i: int|
            0 <= i < pool.len() && !referenced(images, pool[i].digest) implies (#[trigger] after[i])
            == pool[i] by {
            if referenced(init, pool[i].digest) {
                let (k, p) = choose|k: int, p: int|
                    0 <= k < init.len() && (#[trigger] init[k]).index is Some && 0 <= p
                        < init[k].index->0.digests.len() && #[trigger] init[k].index->0.digests[p]
                        == pool[i].digest;
                assert(images[k] == init[k]);
                assert(images[k].index->0.digests[p] == pool[i].digest);
                assert(false);
            }
            assert(mid[i] == pool[i]);
            match images.last().index {
                Some(index) => {
                    assert forall|p: int| 0 <= p < index.digests.len() implies #[trigger]
                        index.digests[p] != mid[i].digest by {
                        if index.digests[p] == pool[i].digest {
                            let k = images.len() - 1;
                            assert(images[k].index->0.digests[p] == pool[i].digest);
                            assert(false);
                        }
                    }
                    assert(after[i] == mid[i]);
                },
                None => {},
            }
        }
    }
}

/// A sweep that stopped on the way keeps every file that a whole sweep
/// would keep.
pub proof fn lemma_partial_sweep_keeps(
    pool: Seq<FileView>,
    k: int,
    oldest_writer: int,
    phase1_start: int,
    i: int,
)
    requires
        0 <= k <= pool.len(),
        0 <= i < pool.len(),
        pool[i].atime >= atime_cutoff(oldest_writer, phase1_start),
    ensures
        (pool_sweep(pool.take(k), oldest_writer, phase1_start) + pool.skip(k)).contains(pool[i]),
{
    let swept = pool_sweep(pool.take(k), oldest_writer, phase1_start);
    let all = swept + pool.skip(k);
    if i < k {
        assert(pool.take(k)[i] == pool[i]);
        law_sweep_keeps_fresh_files(pool.take(k), oldest_writer, phase1_start, i);
        let w = choose|w: int| 0 <= w < swept.len() && swept[w] == pool[i];
        assert(all[w] == pool[i]);
    } else {
        assert(all[swept.len() + (i - k)] == pool[i]);
    }
}

/// Every file that a sweep, whole or stopped on the way, leaves was in the
/// pool.
pub proof fn lemma_partial_sweep_subset(
    pool: Seq<FileView>,
    k: int,
    oldest_writer: int,
    phase1_start: int,
)
    requires
        0 <= k <= pool.len(),
    ensures
        forall|w: int|
            0 <= w < (pool_sweep(pool.take(k), oldest_writer, phase1_start) + pool.skip(k)).len()
                ==> pool.contains(
                #[trigger] (pool_sweep(pool.take(k), oldest_writer, phase1_start) + pool.skip(
                    k,
                ))[w],
            ),
{
    let swept = pool_sweep(pool.take(k), oldest_writer, phase1_start);
    let all = swept + pool.skip(k);
    crate::chunk_store::lemma_sweep_subsequence(pool.take(k), oldest_writer, phase1_start);
    assert forall|w: int| 0 <= w < all.len() implies pool.contains(#[trigger] all[w]) by {
        if w < swept.len() {
            let v = choose|v: int| 0 <= v < pool.take(k).len() && pool.take(k)[v] == swept[w];
            assert(pool[v] == all[w]);
        } else {
            assert(pool[k + (w - swept.len())] == all[w]);
        }
    }
}


/// What the mark phase reports.
#[derive(Debug)]
pub enum GcEvent {
    /// An index lists a chunk that the pool does not hold.
    MissingChunk { digest: [u8; 32], index: String },
    /// The share of index files that are marked has reached a new whole
    /// percent.
    MarkProgress { percentage: usize, done: usize, total: usize },
    /// Index files were found, and marked, outside the scheme
    /// `<type>/<id>/<timestamp>/`.
    StrangePaths { count: u64 },
}

/// What the mark phase reports, as contracts see it.
pub enum GcEventView {
    MissingChunk { digest: Seq<u8>, index: Seq<char> },
    MarkProgress { percentage: int, done: int, total: int },
    StrangePaths { count: int },
}

impl View for GcEvent {
    type V = GcEventView;

    open spec fn view(&self) -> GcEventView {
        match self {
            GcEvent::MissingChunk { digest, index } => GcEventView::MissingChunk {
                digest: digest@,
                index: index@,
            },
            GcEvent::MarkProgress { percentage, done, total } => GcEventView::MarkProgress {
                percentage: *percentage as int,
                done: *done as int,
                total: *total as int,
            },
            GcEvent::StrangePaths { count } => GcEventView::StrangePaths { count: *count as int },
        }
    }
}

/// The views of a list of events.
pub open spec fn event_views(events: Seq<GcEvent>) -> Seq<GcEventView> {
    Seq::new(events.len(), |i: int| events[i]@)
}

/// The warnings for the chunks that an index lists and the pool does not
/// hold, in the order of the index.
pub open spec fn missing_events(pool: Seq<FileView>, digests: Seq<Seq<u8>>, index: Seq<char>) -> Seq<
    GcEventView,
>
    decreases digests.len(),
{
    if digests.len() == 0 {
        Seq::<GcEventView>::empty()
    } else {
        let init = missing_events(pool, digests.drop_last(), index);
        if has_chunk(pool, digests.last()) {
            init
        } else {
            init.push(GcEventView::MissingChunk { digest: digests.last(), index })
        }
    }
}

/// How much of the work is done, in whole percent.
pub open spec fn percentage(done: int, total: int) -> int {
    if total > 0 {
        done * 100 / total
    } else {
        0
    }
}

/// What the mark phase reports for the first `k` index files: for each
/// file the warnings for its missing chunks, and the progress wherever the
/// whole percentage has grown.
pub open spec fn image_events(pool: Seq<FileView>, images: Seq<ImageView>, k: int) -> Seq<
    GcEventView,
>
    decreases k,
{
    if k <= 0 {
        Seq::<GcEventView>::empty()
    } else {
        let image = images[k - 1];
        let total = images.len() as int;
        let warnings = match image.index {
            Some(index) => missing_events(pool, index.digests, image.path),
            None => Seq::<GcEventView>::empty(),
        };
        let progress = if percentage(k, total) > percentage(k - 1, total) {
            seq![GcEventView::MarkProgress { percentage: percentage(k, total), done: k, total }]
        } else {
            Seq::<GcEventView>::empty()
        };
        image_events(pool, images, k - 1) + warnings + progress
    }
}

/// How many of the first `k` index files lie outside the scheme.
pub open spec fn strange_count(images: Seq<ImageView>, k: int) -> int
    decreases k,
{
    if k <= 0 {
        0
    } else {
        strange_count(images, k - 1) + if is_strange_path(images[k - 1].path) {
            1int
        } else {
            0int
        }
    }
}

/// What the mark phase reports: the events of the index files, and at the
/// end the number of index files outside the scheme, if there are any.
pub open spec fn mark_events(pool: Seq<FileView>, images: Seq<ImageView>) -> Seq<GcEventView> {
    let n = images.len() as int;
    image_events(pool, images, n) + if strange_count(images, n) > 0 {
        seq![GcEventView::StrangePaths { count: strange_count(images, n) }]
    } else {
        Seq::<GcEventView>::empty()
    }
}

/// The bytes that an index stands for.
pub open spec fn index_view_bytes(index: IndexView) -> int {
    if index.ends.len() == 0 {
        0
    } else {
        index.ends.last()
    }
}

/// The bytes that the first `k` index files stand for.
pub open spec fn image_bytes(images: Seq<ImageView>, k: int) -> int
    decreases k,
{
    if k <= 0 {
        0
    } else {
        image_bytes(images, k - 1) + match images[k - 1].index {
            Some(index) => if index_view_bytes(index) >= 0 {
                index_view_bytes(index)
            } else {
                0
            },
            None => 0,
        }
    }
}

/// The bytes of index files are never negative.
pub proof fn lemma_image_bytes_nonnegative(images: Seq<ImageView>, k: int)
    ensures
        image_bytes(images, k) >= 0,
    decreases k,
{
    if k > 0 {
        lemma_image_bytes_nonnegative(images, k - 1);
    }
}

/// The number of strange paths among the first `k` index files is at most
/// `k`.
pub proof fn lemma_strange_count_bound(images: Seq<ImageView>, k: int)
    requires
        k >= 0,
    ensures
        0 <= strange_count(images, k) <= k,
    decreases k,
{
    if k > 0 {
        lemma_strange_count_bound(images, k - 1);
    }
}

/// What marking `k` index files leaves of a status: the number of index
/// files and the bytes they stand for have grown, up to the largest number
/// that the counter holds; nothing else has changed.
pub open spec fn status_after_mark(
    before: GarbageCollectionStatus,
    after: GarbageCollectionStatus,
    images: Seq<ImageView>,
    k: int,
) -> bool {
    &&& after.upid == before.upid
    &&& after.index_file_count == sat_usize(before.index_file_count + k)
    &&& after.index_data_bytes == sat_u64(before.index_data_bytes + image_bytes(images, k))
    &&& after.disk_bytes == before.disk_bytes
    &&& after.disk_chunks == before.disk_chunks
    &&& after.removed_bytes == before.removed_bytes
    &&& after.removed_chunks == before.removed_chunks
    &&& after.pending_bytes == before.pending_bytes
    &&& after.pending_chunks == before.pending_chunks
    &&& after.removed_bad == before.removed_bad
    &&& after.still_bad == before.still_bad
}

/// Pools that hold the same chunks give the same warnings.
pub proof fn lemma_missing_events_same(
    a: Seq<FileView>,
    b: Seq<FileView>,
    digests: Seq<Seq<u8>>,
    index: Seq<char>,
)
    requires
        forall|d: Seq<u8>, s: Option<u8>| pool_has(a, d, s) <==> #[trigger] pool_has(b, d, s),
    ensures
        missing_events(a, digests, index) == missing_events(b, digests, index),
    decreases digests.len(),
{
    if digests.len() > 0 {
        lemma_missing_events_same(a, b, digests.drop_last(), index);
        assert(pool_has(a, digests.last(), None) <==> pool_has(b, digests.last(), None));
    }
}

/// What marking one index leaves of a status.
pub open spec fn status_after_index(
    before: GarbageCollectionStatus,
    after: GarbageCollectionStatus,
    bytes: int,
) -> bool {
    &&& after.upid == before.upid
    &&& after.index_file_count == sat_usize(before.index_file_count + 1)
    &&& after.index_data_bytes == sat_u64(before.index_data_bytes + bytes)
    &&& after.disk_bytes == before.disk_bytes
    &&& after.disk_chunks == before.disk_chunks
    &&& after.removed_bytes == before.removed_bytes
    &&& after.removed_chunks == before.removed_chunks
    &&& after.pending_bytes == before.pending_bytes
    &&& after.pending_chunks == before.pending_chunks
    &&& after.removed_bad == before.removed_bad
    &&& after.still_bad == before.still_bad
}

/// Marks the chunks that one index lists: touches each of them at time
/// `now`, and where the pool does not hold a chunk, warns and touches the
/// chunk's sidecars instead.
///
/// The worker is polled before every chunk. Where it asks to stop, some
/// chunks are touched and nothing else has happened to the pool.
pub fn index_mark_used_chunks<I: IndexFile, W: WorkerTaskContext>(
    chunk_store: &mut ChunkStore,
    index: &I,
    file_name: &str,
    status: &mut GarbageCollectionStatus,
    worker: &W,
    now: i64,
    events: &mut Vec<GcEvent>,
) -> (r: Result<(), Error>)
    requires
        old(chunk_store).wf(),
    ensures
        final(chunk_store).wf(),
        final(chunk_store).writers() == old(chunk_store).writers(),
        final(chunk_store).exclusive() == old(chunk_store).exclusive(),
        final(chunk_store).name_spec() == old(chunk_store).name_spec(),
        final(chunk_store).base_spec() == old(chunk_store).base_spec(),
        final(chunk_store).next_ino() == old(chunk_store).next_ino(),
        final(chunk_store).next_guard() == old(chunk_store).next_guard(),
        only_touched(old(chunk_store).pool(), final(chunk_store).pool(), now),
        r is Ok ==> {
            &&& final(chunk_store).pool() == mark_digests(
                old(chunk_store).pool(),
                index.digests(),
                now,
            )
            &&& event_views(final(events)@) == event_views(old(events)@) + missing_events(
                old(chunk_store).pool(),
                index.digests(),
                file_name@,
            )
        },
        final(status).upid == old(status).upid,
        final(status).index_file_count == sat_usize(old(status).index_file_count + 1),
        final(status).index_data_bytes == sat_u64(
            old(status).index_data_bytes + crate::index::index_bytes_spec(
                index.digests().len() as int,
                |p: int| index.chunk_end(p),
            ),
        ),
        final(status).disk_bytes == old(status).disk_bytes,
        final(status).disk_chunks == old(status).disk_chunks,
        final(status).removed_bytes == old(status).removed_bytes,
        final(status).removed_chunks == old(status).removed_chunks,
        final(status).pending_bytes == old(status).pending_bytes,
        final(status).pending_chunks == old(status).pending_chunks,
        final(status).removed_bad == old(status).removed_bad,
        final(status).still_bad == old(status).still_bad,
        crate::index::index_bytes_spec(index.digests().len() as int, |p: int| index.chunk_end(p))
            >= 0,
        r matches Err(e) ==> stops_with(worker, e),
        never_stops(worker) ==> r is Ok,
{
    status.index_file_count = status.index_file_count.saturating_add(1);
    status.index_data_bytes = status.index_data_bytes.saturating_add(index.index_bytes());
    let ghost counted = *status;
    proof {
        chunk_store.lemma_wf();
    }
    let ghost old_pool = chunk_store.pool();
    let ghost old_events = event_views(events@);
    let ghost digests = index.digests();
    let count: usize = index.index_count();
    let mut pos: usize = 0;
    proof {
        assert(digests.take(0) =~= Seq::<Seq<u8>>::empty());
        assert(old_events + missing_events(old_pool, digests.take(0), file_name@) =~= old_events);
    }
    while pos < count
        invariant
            pos <= count,
            count == digests.len(),
            digests == index.digests(),
            old_pool == old(chunk_store).pool(),
            pool_wf(old_pool),
            old_events == event_views(old(events)@),
            *status == counted,
            status_after_index(
                *old(status),
                counted,
                crate::index::index_bytes_spec(
                    index.digests().len() as int,
                    |p: int| index.chunk_end(p),
                ),
            ),
            crate::index::index_bytes_spec(
                index.digests().len() as int,
                |p: int| index.chunk_end(p),
            ) >= 0,
            chunk_store.wf(),
            chunk_store.writers() == old(chunk_store).writers(),
            chunk_store.exclusive() == old(chunk_store).exclusive(),
            chunk_store.name_spec() == old(chunk_store).name_spec(),
            chunk_store.base_spec() == old(chunk_store).base_spec(),
            chunk_store.next_ino() == old(chunk_store).next_ino(),
            chunk_store.next_guard() == old(chunk_store).next_guard(),
            chunk_store.pool() == mark_digests(old_pool, digests.take(pos as int), now),
            event_views(events@) == old_events + missing_events(
                old_pool,
                digests.take(pos as int),
                file_name@,
            ),
        decreases count - pos,
    {
        proof {
            lemma_mark_digests(old_pool, digests.take(pos as int), now);
            lemma_only_touched_pool(old_pool, chunk_store.pool(), now);
        }
        match poll(worker) {
            Err(e) => {
                return Err(e);
            },
            Ok(_) => {},
        }
        let digest: [u8; 32] = match index.index_digest(pos) {
            Some(d) => *d,
            None => {
                assert(false);
                return Ok(());
            },
        };
        let ghost cur = chunk_store.pool();
        proof {
            chunk_store.lemma_wf();
            let t = digests.take(pos + 1);
            assert(t.drop_last() =~= digests.take(pos as int));
            assert(t.last() == digest@);
            assert(has_chunk(cur, digest@) == has_chunk(old_pool, digest@));
        }
        let touched: bool = match chunk_store.cond_touch_chunk(&digest, false, now) {
            Ok(t) => t,
            Err(e) => {
                assert(false);
                return Ok(());
            },
        };
        if !touched {
            let ghost before_events = event_views(events@);
            let event = GcEvent::MissingChunk { digest, index: String::from_str(file_name) };
            let ghost ev = event@;
            events.push(event);
            proof {
                assert(event_views(events@) =~= before_events.push(ev));
                assert(old_events + missing_events(
                    old_pool,
                    digests.take(pos as int),
                    file_name@,
                ).push(ev) =~= (old_events + missing_events(
                    old_pool,
                    digests.take(pos as int),
                    file_name@,
                )).push(ev));
            }
            let mut slot: u8 = 0;
            while slot < 10
                invariant
                    slot <= 10,
                    cur == mark_digests(old_pool, digests.take(pos as int), now),
                    pool_wf(cur),
                    chunk_store.wf(),
                    chunk_store.writers() == old(chunk_store).writers(),
                    chunk_store.exclusive() == old(chunk_store).exclusive(),
                    chunk_store.name_spec() == old(chunk_store).name_spec(),
                    chunk_store.base_spec() == old(chunk_store).base_spec(),
                    chunk_store.next_ino() == old(chunk_store).next_ino(),
                    chunk_store.next_guard() == old(chunk_store).next_guard(),
                    chunk_store.pool() == touch_bad_slots(cur, digest@, now, slot as int),
                decreases 10 - slot,
            {
                match chunk_store.cond_touch_file(&digest, Some(slot), false, now) {
                    Ok(_) => {},
                    Err(e) => {
                        assert(false);
                    },
                }
                slot += 1;
            }
        }
        pos += 1;
    }
    proof {
        assert(digests.take(count as int) =~= digests);
        lemma_mark_digests(old_pool, digests, now);
    }
    Ok(())
}

/// The mark phase: marks the chunks of every index file, one file after
/// the other, and reports warnings and progress.
///
/// The worker is polled before every index file and before every chunk.
/// Fails with `Corrupt` at the first file that does not hold an index of
/// the kind that its name promises. Whatever happens, the pool holds the
/// files it held, some of them touched.
pub fn mark_used_chunks<W: WorkerTaskContext>(
    chunk_store: &mut ChunkStore,
    images: &Vec<ImageFile>,
    status: &mut GarbageCollectionStatus,
    worker: &W,
    now: i64,
    events: &mut Vec<GcEvent>,
) -> (r: Result<(), Error>)
    requires
        old(chunk_store).wf(),
    ensures
        final(chunk_store).wf(),
        final(chunk_store).writers() == old(chunk_store).writers(),
        final(chunk_store).exclusive() == old(chunk_store).exclusive(),
        final(chunk_store).name_spec() == old(chunk_store).name_spec(),
        final(chunk_store).base_spec() == old(chunk_store).base_spec(),
        final(chunk_store).next_ino() == old(chunk_store).next_ino(),
        final(chunk_store).next_guard() == old(chunk_store).next_guard(),
        only_touched(old(chunk_store).pool(), final(chunk_store).pool(), now),
        r is Ok ==> {
            let views = crate::namespace::image_views(images@);
            &&& images_readable(views)
            &&& final(chunk_store).pool() == mark_images(old(chunk_store).pool(), views, now)
            &&& event_views(final(events)@) == event_views(old(events)@) + mark_events(
                old(chunk_store).pool(),
                views,
            )
            &&& status_after_mark(*old(status), *final(status), views, views.len() as int)
        },
        r matches Err(e) ==> stops_with(worker, e) || (e == Error::Corrupt && !images_readable(
            crate::namespace::image_views(images@),
        )),
        never_stops(worker) && images_readable(crate::namespace::image_views(images@)) ==> r is Ok,
{
    proof {
        chunk_store.lemma_wf();
    }
    let ghost old_pool = chunk_store.pool();
    let ghost old_events = event_views(events@);
    let ghost start = *status;
    let ghost views = crate::namespace::image_views(images@);
    let image_count: usize = images.len();
    let mut last_percentage: usize = 0;
    let mut strange_paths_count: u64 = 0;
    let mut i: usize = 0;
    proof {
        assert(views.take(0) =~= Seq::<ImageView>::empty());
        assert(old_events + image_events(old_pool, views, 0) =~= old_events);
    }
    while i < image_count
        invariant
            i <= image_count,
            image_count == images.len(),
            views == crate::namespace::image_views(images@),
            old_pool == old(chunk_store).pool(),
            pool_wf(old_pool),
            old_events == event_views(old(events)@),
            start == *old(status),
            chunk_store.wf(),
            chunk_store.writers() == old(chunk_store).writers(),
            chunk_store.exclusive() == old(chunk_store).exclusive(),
            chunk_store.name_spec() == old(chunk_store).name_spec(),
            chunk_store.base_spec() == old(chunk_store).base_spec(),
            chunk_store.next_ino() == old(chunk_store).next_ino(),
            chunk_store.next_guard() == old(chunk_store).next_guard(),
            chunk_store.pool() == mark_images(old_pool, views.take(i as int), now),
            forall|k: int| 0 <= k < i ==> (#[trigger] views[k]).index is Some,
            event_views(events@) == old_events + image_events(old_pool, views, i as int),
            status_after_mark(start, *status, views, i as int),
            last_percentage == percentage(i as int, image_count as int),
            strange_paths_count == strange_count(views, i as int),
        decreases image_count - i,
    {
        proof {
            lemma_mark_images(old_pool, views.take(i as int), now);
            lemma_only_touched_pool(old_pool, chunk_store.pool(), now);
            lemma_strange_count_bound(views, i as int);
            lemma_image_bytes_nonnegative(views, i as int);
        }
        match poll(worker) {
            Err(e) => {
                return Err(e);
            },
            Ok(_) => {},
        }
        let image = &images[i];
        let ghost iv = views[i as int];
        assert(iv == image@);
        let ghost cur = chunk_store.pool();
        let ghost cur_events = event_views(events@);
        proof {
            let t = views.take(i + 1);
            assert(t.drop_last() =~= views.take(i as int));
            assert(t.last() == iv);
        }
        let chars = to_chars(image.path.as_str());
        if strange_path(&chars) {
            strange_paths_count += 1;
        }
        match &image.index {
            None => {
                return Err(Error::Corrupt);
            },
            Some(index) => {
                let done = index_mark_used_chunks(
                    chunk_store,
                    index,
                    image.path.as_str(),
                    status,
                    worker,
                    now,
                    events,
                );
                proof {
                    lemma_only_touched_trans(old_pool, cur, chunk_store.pool(), now);
                }
                match done {
                    Err(e) => {
                        return Err(e);
                    },
                    Ok(_) => {},
                }
                proof {
                    lemma_missing_events_same(cur, old_pool, index@.digests, image.path@);
                    assert(index@.ends.len() == index.digests().len());
                    if index@.ends.len() > 0 {
                        assert(index@.ends.last() == index.chunk_end(index.digests().len() - 1));
                    }
                }
            },
        }
        let ghost warned = event_views(events@);
        let total: u128 = image_count as u128;
        let done_count: u128 = i as u128 + 1;
        proof {
            let d = done_count as int;
            let t = total as int;
            assert(d * 100 / t <= 100 && (d - 1) * 100 / t <= d * 100 / t && 0 <= d * 100 / t)
                by (nonlinear_arith)
                requires
                    0 < d <= t,
            ;
        }
        let percent: usize = (done_count * 100 / total) as usize;
        if percent > last_percentage {
            let event = GcEvent::MarkProgress { percentage: percent, done: i + 1, total: image_count };
            let ghost ev = event@;
            events.push(event);
            last_percentage = percent;
            proof {
                assert(event_views(events@) =~= warned.push(ev));
                assert(event_views(events@) =~= old_events + image_events(old_pool, views, i + 1));
            }
        } else {
            proof {
                assert(warned =~= old_events + image_events(old_pool, views, i + 1));
            }
        }
        i += 1;
    }
    proof {
        assert(views.take(image_count as int) =~= views);
        lemma_mark_images(old_pool, views, now);
    }
    if strange_paths_count > 0 {
        let ghost before_events = event_views(events@);
        let event = GcEvent::StrangePaths { count: strange_paths_count };
        let ghost ev = event@;
        events.push(event);
        proof {
            assert(event_views(events@) =~= before_events.push(ev));
            assert(event_views(events@) =~= old_events + mark_events(old_pool, views));
        }
    } else {
        proof {
            assert(event_views(events@) =~= old_events + mark_events(old_pool, views));
        }
    }
    Ok(())
}


/// Whether two files are the same file with the same bytes; the access
/// time may differ.
pub open spec fn same_file(a: FileView, b: FileView) -> bool {
    a.digest == b.digest && a.bad_slot == b.bad_slot && a.data == b.data && a.ino == b.ino
}

/// Whether every file of `after` is a file of `before`, with the same
/// bytes: garbage collection makes no file and changes none.
pub open spec fn nothing_new(before: Seq<FileView>, after: Seq<FileView>) -> bool {
    forall|w: int| 0 <= w < after.len() ==> holds_file(before, #[trigger] after[w])
}

/// Whether the pool holds the file, with the same bytes.
pub open spec fn holds_file(pool: Seq<FileView>, file: FileView) -> bool {
    exists|j: int| 0 <= j < pool.len() && same_file(file, #[trigger] pool[j])
}

/// The time that garbage collection takes for the registration of the
/// oldest writer: that of the writer that registered first, or the start
/// of the collection where no writer is registered.
pub open spec fn oldest_writer_or(writers: Seq<Writer>, now: i64) -> i64 {
    match oldest_writer_spec(writers) {
        Some(t) => t,
        None => now,
    }
}

/// The status of a run of garbage collection that came to its end: the
/// task, what the mark phase counted, and what the sweep counted on the
/// pool as the mark phase left it.
pub open spec fn status_of_run(
    status: GarbageCollectionStatus,
    upid: Seq<char>,
    images: Seq<ImageView>,
    marked: Seq<FileView>,
    oldest_writer: int,
    phase1_start: int,
) -> bool {
    let n = images.len() as int;
    &&& status.upid is Some
    &&& status.upid->0@ == upid
    &&& status.index_file_count == sat_usize(n)
    &&& status.index_data_bytes == sat_u64(image_bytes(images, n))
    &&& status.removed_chunks == sat_usize(
        tally(marked, oldest_writer, phase1_start, Counter::RemovedChunks),
    )
    &&& status.removed_bad == sat_usize(
        tally(marked, oldest_writer, phase1_start, Counter::RemovedBad),
    )
    &&& status.removed_bytes == sat_u64(
        tally(marked, oldest_writer, phase1_start, Counter::RemovedBytes),
    )
    &&& status.pending_chunks == sat_usize(
        tally(marked, oldest_writer, phase1_start, Counter::PendingChunks),
    )
    &&& status.pending_bytes == sat_u64(
        tally(marked, oldest_writer, phase1_start, Counter::PendingBytes),
    )
    &&& status.still_bad == sat_usize(tally(marked, oldest_writer, phase1_start, Counter::StillBad))
    &&& status.disk_chunks == sat_usize(
        tally(marked, oldest_writer, phase1_start, Counter::DiskChunks),
    )
    &&& status.disk_bytes == sat_u64(tally(marked, oldest_writer, phase1_start, Counter::DiskBytes))
}

/// Safety of garbage collection: a chunk that an index lists and that the
/// pool holds when the collection starts is in the pool, with its bytes,
/// whatever the collection does and wherever it stops.
pub open spec fn gc_safe(before: Seq<FileView>, after: Seq<FileView>, images: Seq<ImageView>) -> bool {
    forall|d: Seq<u8>|
        referenced(images, d) && has_chunk(before, d) ==> #[trigger] has_chunk(after, d)
            && chunk_of(after, d).data == chunk_of(before, d).data
}

/// Liveness of garbage collection: a chunk that no index lists and whose
/// access time lies before the cutoff is gone when the collection is done.
pub open spec fn gc_live(
    before: Seq<FileView>,
    after: Seq<FileView>,
    images: Seq<ImageView>,
    oldest_writer: int,
    phase1_start: int,
) -> bool {
    forall|d: Seq<u8>|
        #[trigger] has_chunk(before, d) && !referenced(images, d) && chunk_of(before, d).atime
            < atime_cutoff(oldest_writer, phase1_start) ==> !has_chunk(after, d)
}

/// A pool of which some files were touched and some swept is safe.
pub proof fn lemma_gc_safe(
    before: Seq<FileView>,
    marked: Seq<FileView>,
    after: Seq<FileView>,
    images: Seq<ImageView>,
    now: i64,
    oldest_writer: int,
    k: int,
    mark_done: bool,
)
    requires
        pool_wf(before),
        pool_wf(after),
        only_touched(before, marked, now),
        mark_done ==> marked == mark_images(before, images, now),
        !mark_done ==> after == marked,
        0 <= k <= marked.len(),
        mark_done ==> after == pool_sweep(marked.take(k), oldest_writer, now as int) + marked.skip(k),
    ensures
        gc_safe(before, after, images),
        nothing_new(before, after),
{
    lemma_only_touched_pool(before, marked, now);
    if mark_done {
        lemma_mark_images(before, images, now);
        lemma_partial_sweep_subset(marked, k, oldest_writer, now as int);
    }
    assert forall|w: int| 0 <= w < after.len() implies holds_file(before, #[trigger] after[w]) by {
        if mark_done {
            let j = choose|j: int| 0 <= j < marked.len() && marked[j] == after[w];
            assert(same_file(after[w], before[j]));
        } else {
            assert(same_file(after[w], before[w]));
        }
    }
    assert forall|d: Seq<u8>| referenced(images, d) && has_chunk(before, d) implies #[trigger]
        has_chunk(after, d) && chunk_of(after, d).data == chunk_of(before, d).data by {
        let i = pool_index(before, d, None);
        assert(marked[i].digest == d && marked[i].bad_slot is None);
        if mark_done {
            assert(marked[i].atime == now);
            assert(marked[i].atime >= atime_cutoff(oldest_writer, now as int));
            lemma_partial_sweep_keeps(marked, k, oldest_writer, now as int, i);
            let w = choose|w: int| 0 <= w < after.len() && after[w] == marked[i];
            lemma_pool_index(after, w);
        } else {
            assert(pool_index(after, d, None) == i);
        }
    }
}

/// A pool that was marked and swept to the end is live.
pub proof fn lemma_gc_live(
    before: Seq<FileView>,
    images: Seq<ImageView>,
    now: i64,
    oldest_writer: int,
)
    requires
        pool_wf(before),
    ensures
        gc_live(
            before,
            pool_sweep(mark_images(before, images, now), oldest_writer, now as int),
            images,
            oldest_writer,
            now as int,
        ),
{
    let marked = mark_images(before, images, now);
    let after = pool_sweep(marked, oldest_writer, now as int);
    lemma_mark_images(before, images, now);
    assert forall|d: Seq<u8>|
        #[trigger] has_chunk(before, d) && !referenced(images, d) && chunk_of(before, d).atime
            < atime_cutoff(oldest_writer, now as int) implies !has_chunk(after, d) by {
        let i = pool_index(before, d, None);
        assert(marked[i] == before[i]);
        law_sweep_removes_old_files(marked, oldest_writer, now as int, i);
    }
}

/// The two phases of garbage collection on a pool: marks the chunks of the
/// given index files at time `now`, then sweeps with `now` as the start of
/// the mark phase and the registration of the oldest writer, or `now`
/// where there is none.
///
/// The answer is the status of the run and what the mark phase reported.
/// The worker is polled before every index file and before every chunk of
/// both phases; where it asks to stop, the call fails with its request.
/// It fails with `Corrupt` at an index file that cannot be read, before
/// anything is swept. With a worker that never stops and index files that
/// can all be read, it succeeds.
pub fn collect_garbage<W: WorkerTaskContext>(
    chunk_store: &mut ChunkStore,
    images: &Vec<ImageFile>,
    upid: &str,
    worker: &W,
    now: i64,
) -> (r: Result<(GarbageCollectionStatus, Vec<GcEvent>), Error>)
    requires
        old(chunk_store).wf(),
    ensures
        final(chunk_store).wf(),
        final(chunk_store).writers() == old(chunk_store).writers(),
        final(chunk_store).exclusive() == old(chunk_store).exclusive(),
        final(chunk_store).name_spec() == old(chunk_store).name_spec(),
        final(chunk_store).base_spec() == old(chunk_store).base_spec(),
        final(chunk_store).next_ino() == old(chunk_store).next_ino(),
        final(chunk_store).next_guard() == old(chunk_store).next_guard(),
        nothing_new(old(chunk_store).pool(), final(chunk_store).pool()),
        gc_safe(
            old(chunk_store).pool(),
            final(chunk_store).pool(),
            crate::namespace::image_views(images@),
        ),
        r matches Ok(done) ==> {
            let views = crate::namespace::image_views(images@);
            let ow = oldest_writer_or(old(chunk_store).writers(), now) as int;
            let marked = mark_images(old(chunk_store).pool(), views, now);
            &&& images_readable(views)
            &&& final(chunk_store).pool() == pool_sweep(marked, ow, now as int)
            &&& status_of_run(done.0, upid@, views, marked, ow, now as int)
            &&& event_views(done.1@) == mark_events(old(chunk_store).pool(), views)
            &&& gc_live(
                old(chunk_store).pool(),
                final(chunk_store).pool(),
                views,
                ow,
                now as int,
            )
        },
        r matches Err(e) ==> stops_with(worker, e) || (e == Error::Corrupt && !images_readable(
            crate::namespace::image_views(images@),
        )),
        never_stops(worker) && images_readable(crate::namespace::image_views(images@)) ==> r is Ok,
{
    proof {
        chunk_store.lemma_wf();
    }
    let ghost before = chunk_store.pool();
    let ghost views = crate::namespace::image_views(images@);
    let phase1_start_time: i64 = now;
    let oldest_writer: i64 = match chunk_store.oldest_writer() {
        Some(t) => t,
        None => phase1_start_time,
    };
    let mut status = GarbageCollectionStatus::default();
    status.upid = Some(String::from_str(upid));
    let mut events: Vec<GcEvent> = Vec::new();
    let ghost started = status;
    proof {
        assert(event_views(events@) =~= Seq::<GcEventView>::empty());
    }
    let marked_ok = mark_used_chunks(chunk_store, images, &mut status, worker, now, &mut events);
    let ghost marked = chunk_store.pool();
    proof {
        chunk_store.lemma_wf();
    }
    match marked_ok {
        Err(e) => {
            proof {
                lemma_gc_safe(before, marked, marked, views, now, oldest_writer as int, 0, false);
            }
            return Err(e);
        },
        Ok(_) => {},
    }
    let ghost mid = status;
    proof {
        assert(Seq::<GcEventView>::empty() + mark_events(before, views) =~= mark_events(
            before,
            views,
        ));
        lemma_image_bytes_nonnegative(views, views.len() as int);
    }
    let swept = chunk_store.sweep_unused_chunks(oldest_writer, phase1_start_time, &mut status, worker);
    proof {
        chunk_store.lemma_wf();
        let after = chunk_store.pool();
        let k = choose|k: int|
            0 <= k <= marked.len() && after == pool_sweep(
                #[trigger] marked.take(k),
                oldest_writer as int,
                now as int,
            ) + marked.skip(k);
        lemma_gc_safe(before, marked, after, views, now, oldest_writer as int, k, true);
    }
    match swept {
        Err(e) => {
            return Err(e);
        },
        Ok(_) => {},
    }
    proof {
        lemma_gc_live(before, views, now, oldest_writer as int);
        crate::chunk_store::lemma_tally_nonnegative(marked, oldest_writer as int, now as int, Counter::RemovedChunks);
        crate::chunk_store::lemma_tally_nonnegative(marked, oldest_writer as int, now as int, Counter::RemovedBad);
        crate::chunk_store::lemma_tally_nonnegative(marked, oldest_writer as int, now as int, Counter::RemovedBytes);
        crate::chunk_store::lemma_tally_nonnegative(marked, oldest_writer as int, now as int, Counter::PendingChunks);
        crate::chunk_store::lemma_tally_nonnegative(marked, oldest_writer as int, now as int, Counter::PendingBytes);
        crate::chunk_store::lemma_tally_nonnegative(marked, oldest_writer as int, now as int, Counter::StillBad);
        crate::chunk_store::lemma_tally_nonnegative(marked, oldest_writer as int, now as int, Counter::DiskChunks);
        crate::chunk_store::lemma_tally_nonnegative(marked, oldest_writer as int, now as int, Counter::DiskBytes);
    }
    Ok((status, events))
}

} // verus!
