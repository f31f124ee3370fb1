//! The datastore: a chunk pool and a snapshot namespace below one base
//! directory, with garbage collection that is serialized for each store.

use vstd::prelude::*;
use vstd::string::StringExecFns;
use crate::api_types::{
    group_path_text, parse_tuning, parse_tuning_spec, snapshot_path_text, BackupDir, BackupGroup,
    BackupType, ChunkOrder, DataStoreConfig, GarbageCollectionStatus, Operation,
};
use crate::auth::{is_backup_owner, Authid};
use crate::chunk_store::{
    chunk_of, has_chunk, pool_has, pool_insert, pool_load, pool_touch, pool_wf, pool_file_name,
    is_walk, shard_of, shard_percentage, ChunkDirEntry, ChunkStat, ChunkStore, DataBlob, FileView,
    ProcessLockSharedGuard, Writer,
};
use crate::digest::{chunk_rel_path, hex_text, same_digest};
use crate::error::{Error, LockReason};
use crate::gc::{
    collect_garbage, event_views, gc_live, gc_safe, images_readable, mark_events, mark_images,
    nothing_new, oldest_writer_or, status_of_run, GcEvent,
};
use crate::index::{IndexData, IndexFile};
use crate::manifest::{
    archive_type_chars, archive_type_spec, file_name_chars, file_name_of, parent_chars, parent_of,
    ArchiveType, BackupManifest, MANIFEST_BLOB_NAME,
};
use crate::namespace::{
    cleanup_state, file_index, get_owner_result, group_index, images_of, image_views,
    last_successful_backup_result, load_file_result, load_manifest_result, locate,
    lock_group_result, lock_group_state, lock_snapshot_result, lock_snapshot_state, ns_wf,
    remove_group_result, remove_group_state, remove_snapshot_result, remove_snapshot_state,
    set_owner_result, set_owner_state, store_file_state, unlock_state, update_manifest_check,
    update_protection_result, update_protection_state, with_file, ContentView, DirLockGuard,
    FileContent, Namespace, NamespaceView,
};
use crate::api_types::{BackupDirView, BackupGroupView, parse_snapshot_chars, parse_snapshot_spec};
use crate::rfc3339::{parse_rfc3339, parse_rfc3339_spec};
use crate::text::{string_of, to_chars};
use crate::worker::{never_stops, stops_with, WorkerTaskContext};

verus! {

/// A datastore, as contracts see it.
pub struct StoreView {
    /// The files of the chunk pool, shard by shard.
    pub pool: Seq<FileView>,
    /// The writers that hold the pool's process lock shared.
    pub writers: Seq<Writer>,
    /// Whether the pool's process lock is held exclusively.
    pub exclusive: bool,
    pub name: Seq<char>,
    pub base: Seq<char>,
    pub next_ino: u64,
    pub next_guard: u64,
    pub namespace: NamespaceView,
    /// Whether garbage collection is running.
    pub gc_running: bool,
    pub last_gc_status: GarbageCollectionStatus,
    pub verify_new: bool,
    pub chunk_order: ChunkOrder,
    /// The generation of the configuration that the store was opened for.
    pub last_generation: usize,
    /// When the store was opened.
    pub last_update: i64,
}

/// The state of a datastore.
pub struct DataStoreImpl {
    chunk_store: ChunkStore,
    namespace: Namespace,
    gc_running: bool,
    last_gc_status: GarbageCollectionStatus,
    verify_new: bool,
    chunk_order: ChunkOrder,
    last_generation: usize,
    last_update: i64,
}

impl View for DataStoreImpl {
    type V = StoreView;

    closed spec fn view(&self) -> StoreView {
        StoreView {
            pool: self.chunk_store.pool(),
            writers: self.chunk_store.writers(),
            exclusive: self.chunk_store.exclusive(),
            name: self.chunk_store.name_spec(),
            base: self.chunk_store.base_spec(),
            next_ino: self.chunk_store.next_ino(),
            next_guard: self.chunk_store.next_guard(),
            namespace: self.namespace@,
            gc_running: self.gc_running,
            last_gc_status: self.last_gc_status,
            verify_new: self.verify_new,
            chunk_order: self.chunk_order,
            last_generation: self.last_generation,
            last_update: self.last_update,
        }
    }
}

/// The tuning options that a configuration asks for.
pub open spec fn tuning_text(config: DataStoreConfig) -> Seq<char> {
    match config.tuning {
        Some(t) => t@,
        None => Seq::<char>::empty(),
    }
}

/// The order in which the chunks of an index are read, as a configuration
/// has it: by inode, unless the tuning options say otherwise.
pub open spec fn configured_chunk_order(config: DataStoreConfig) -> ChunkOrder {
    match parse_tuning_spec(tuning_text(config)) {
        Some(tuning) => match tuning.chunk_order {
            Some(order) => order,
            None => ChunkOrder::Inode,
        },
        None => ChunkOrder::Inode,
    }
}

impl DataStoreImpl {
    /// What holds of every datastore.
    pub closed spec fn wf(&self) -> bool {
        self.chunk_store.wf() && self.namespace.wf()
    }

    /// The pool and the namespace of a datastore are as they have to be.
    pub proof fn lemma_wf(&self)
        requires
            self.wf(),
        ensures
            pool_wf(self@.pool),
            ns_wf(self@.namespace),
    {
        self.chunk_store.lemma_wf();
    }
}

/// A handle on a datastore, opened for an operation.
pub struct DataStore {
    inner: DataStoreImpl,
    operation: Option<Operation>,
}

impl View for DataStore {
    type V = StoreView;

    closed spec fn view(&self) -> StoreView {
        self.inner@
    }
}

impl DataStore {
    /// What holds of every datastore.
    pub closed spec fn wf(&self) -> bool {
        self.inner.wf()
    }

    /// The operation that the handle was opened for.
    pub closed spec fn operation_spec(&self) -> Option<Operation> {
        self.operation
    }

    /// The pool and the namespace of a datastore are as they have to be.
    pub proof fn lemma_wf(&self)
        requires
            self.wf(),
        ensures
            pool_wf(self@.pool),
            ns_wf(self@.namespace),
    {
        self.inner.lemma_wf();
    }

    /// The state of a datastore on the given chunk store, set up as its
    /// configuration says.
    ///
    /// The chunks are read by inode unless the tuning options say
    /// otherwise; new snapshots are verified only if the configuration
    /// says so. The status of the last garbage collection is the given
    /// one, or empty. Fails with `InvalidInput` where the tuning options
    /// cannot be read.
    pub fn with_store_and_config(
        chunk_store: ChunkStore,
        config: &DataStoreConfig,
        last_generation: usize,
        last_update: i64,
        gc_status: Option<GarbageCollectionStatus>,
    ) -> (r: Result<DataStoreImpl, Error>)
        requires
            chunk_store.wf(),
        ensures
            match parse_tuning_spec(tuning_text(*config)) {
                None => r matches Err(e) && e == Error::InvalidInput,
                Some(tuning) => r is Ok && r->Ok_0.wf() && r->Ok_0@ == (StoreView {
                    pool: chunk_store.pool(),
                    writers: chunk_store.writers(),
                    exclusive: chunk_store.exclusive(),
                    name: chunk_store.name_spec(),
                    base: chunk_store.base_spec(),
                    next_ino: chunk_store.next_ino(),
                    next_guard: chunk_store.next_guard(),
                    namespace: r->Ok_0@.namespace,
                    gc_running: false,
                    last_gc_status: r->Ok_0@.last_gc_status,
                    verify_new: match config.verify_new {
                        Some(v) => v,
                        None => false,
                    },
                    chunk_order: match tuning.chunk_order {
                        Some(o) => o,
                        None => ChunkOrder::Inode,
                    },
                    last_generation,
                    last_update,
                }) && r->Ok_0@.namespace.groups.len() == 0 && r->Ok_0@.namespace.strays.len() == 0
                    && match gc_status {
                    Some(s) => r->Ok_0@.last_gc_status == s,
                    None => r->Ok_0@.last_gc_status.is_empty(),
                },
            },
    {
        let gc_status = match gc_status {
            Some(s) => s,
            None => GarbageCollectionStatus::default(),
        };
        let tuning = match &config.tuning {
            Some(t) => parse_tuning(t.as_str())?,
            None => parse_tuning(String::new().as_str())?,
        };
        let chunk_order = match tuning.chunk_order {
            Some(o) => o,
            None => ChunkOrder::Inode,
        };
        Ok(
            DataStoreImpl {
                chunk_store,
                namespace: Namespace::new(),
                gc_running: false,
                last_gc_status: gc_status,
                verify_new: match config.verify_new {
                    Some(v) => v,
                    None => false,
                },
                chunk_order,
                last_generation,
                last_update,
            },
        )
    }

    /// A new, empty datastore as the configuration describes it, opened for
    /// `operation`. Fails with `InvalidInput` where the tuning options
    /// cannot be read.
    pub fn open_from_config(config: DataStoreConfig, operation: Option<Operation>) -> (r: Result<
        DataStore,
        Error,
    >)
        ensures
            r is Ok <==> parse_tuning_spec(tuning_text(config)) is Some,
            r matches Err(e) ==> e == Error::InvalidInput,
            r matches Ok(store) ==> {
                &&& store.wf()
                &&& store.operation_spec() == operation
                &&& store@.name == config.name@
                &&& store@.base == config.path@
                &&& store@.pool.len() == 0
                &&& store@.writers.len() == 0
                &&& !store@.exclusive
                &&& !store@.gc_running
                &&& store@.namespace.groups.len() == 0
                &&& store@.namespace.strays.len() == 0
                &&& store@.last_gc_status.is_empty()
                &&& store@.last_generation == 0
                &&& store@.last_update == 0
                &&& store@.next_ino == 1
                &&& store@.next_guard == 0
                &&& store@.verify_new == match config.verify_new {
                    Some(v) => v,
                    None => false,
                }
                &&& store@.chunk_order == configured_chunk_order(config)
            },
    {
        let chunk_store = ChunkStore::create(config.name.as_str(), config.path.as_str());
        let inner = DataStore::with_store_and_config(chunk_store, &config, 0, 0, None)?;
        Ok(DataStore { inner, operation })
    }

    /// A new, empty datastore of this name below this directory, with no
    /// options set, opened for `operation`.
    pub fn open_path(name: &str, path: &str, operation: Option<Operation>) -> (r: Result<
        DataStore,
        Error,
    >)
        ensures
            r matches Ok(store) && {
                &&& store.wf()
                &&& store.operation_spec() == operation
                &&& store@.name == name@
                &&& store@.base == path@
                &&& store@.pool.len() == 0
                &&& store@.writers.len() == 0
                &&& !store@.exclusive
                &&& !store@.gc_running
                &&& store@.namespace.groups.len() == 0
                &&& store@.namespace.strays.len() == 0
                &&& store@.last_gc_status.is_empty()
                &&& store@.verify_new == false
                &&& store@.chunk_order == ChunkOrder::Inode
                &&& store@.next_ino == 1
                &&& store@.next_guard == 0
            },
    {
        let config = DataStoreConfig::new(String::from_str(name), String::from_str(path));
        proof {
            let items = crate::text::split_spec(Seq::<char>::empty(), ',');
            assert(items.drop_last().len() == 0);
            assert(crate::api_types::tuning_fold(items.drop_last()) == Some(None::<ChunkOrder>));
            assert(crate::api_types::tuning_fold(items) == Some(None::<ChunkOrder>));
            assert(parse_tuning_spec(tuning_text(config)) is Some);
        }
        DataStore::open_from_config(config, operation)
    }

    /// The name of the datastore.
    pub fn name(&self) -> (s: &str)
        ensures
            s@ == self@.name,
    {
        self.inner.chunk_store.name()
    }

    /// The base directory of the datastore.
    pub fn base_path(&self) -> (s: String)
        ensures
            s@ == self@.base,
    {
        self.inner.chunk_store.base_path()
    }

    /// Whether new snapshots are verified.
    pub fn verify_new(&self) -> (r: bool)
        ensures
            r == self@.verify_new,
    {
        self.inner.verify_new
    }

    /// The operation that the handle was opened for.
    pub fn operation(&self) -> (r: Option<Operation>)
        ensures
            r == self.operation_spec(),
    {
        self.operation
    }

    /// The absolute path of a group.
    pub fn group_path(&self, backup_group: &BackupGroup) -> (s: String)
        ensures
            s@ == self@.base + "/"@ + group_path_text(backup_group.ty, backup_group.id@),
    {
        let mut path = self.base_path();
        path.append("/");
        path.append(backup_group.to_string().as_str());
        path
    }

    /// The absolute path of a snapshot. Fails with `InvalidInput` where the
    /// time has no text.
    pub fn snapshot_path(&self, backup_dir: &BackupDir) -> (r: Result<String, Error>)
        ensures
            match snapshot_path_text(
                backup_dir.group.ty,
                backup_dir.group.id@,
                backup_dir.time as int,
            ) {
                Some(t) => r is Ok && r->Ok_0@ == self@.base + "/"@ + t,
                None => r matches Err(e) && e == Error::InvalidInput,
            },
    {
        let rel = backup_dir.to_string()?;
        let mut path = self.base_path();
        path.append("/");
        path.append(rel.as_str());
        Ok(path)
    }

    /// The group, as a group of this datastore.
    pub fn backup_group(&self, group: BackupGroup) -> (r: BackupGroup)
        ensures
            r == group,
    {
        group
    }

    /// The snapshot, as a snapshot of this datastore. Fails with
    /// `InvalidInput` where the time has no text.
    pub fn backup_dir(&self, dir: BackupDir) -> (r: Result<BackupDir, Error>)
        ensures
            match snapshot_path_text(dir.group.ty, dir.group.id@, dir.time as int) {
                Some(_) => r == Ok::<BackupDir, Error>(dir),
                None => r matches Err(e) && e == Error::InvalidInput,
            },
    {
        let _text = dir.to_string()?;
        Ok(dir)
    }

    /// The snapshot of a group whose time the text stands for. Fails with
    /// `InvalidInput` where the text is no timestamp.
    pub fn backup_dir_with_rfc3339(&self, group: BackupGroup, time_string: &str) -> (r: Result<
        BackupDir,
        Error,
    >)
        ensures
            match parse_rfc3339_spec(time_string@) {
                Some(t) => r is Ok && r->Ok_0@ == (BackupDirView { group: group@, time: t as i64 }),
                None => r matches Err(e) && e == Error::InvalidInput,
            },
    {
        let time: i64 = parse_rfc3339(time_string)?;
        Ok(BackupDir::new(group, time))
    }

    /// The group of this type and id.
    pub fn backup_group_from_parts(&self, ty: BackupType, id: &str) -> (group: BackupGroup)
        ensures
            group@ == (BackupGroupView { ty, id: id@ }),
    {
        BackupGroup::new(ty, String::from_str(id))
    }

    /// The group that a path such as `vm/100` names.
    pub fn backup_group_from_path(&self, path: &str) -> (r: Result<BackupGroup, Error>)
        ensures
            match crate::api_types::parse_group_spec(path@) {
                Some(g) => r is Ok && r->Ok_0@ == g,
                None => r matches Err(e) && e == Error::InvalidInput,
            },
    {
        BackupGroup::parse(path)
    }

    /// The snapshot of this type, id and time. Fails with `InvalidInput`
    /// where the time has no text.
    pub fn backup_dir_from_parts(&self, ty: BackupType, id: &str, time: i64) -> (r: Result<
        BackupDir,
        Error,
    >)
        ensures
            r is Ok <==> snapshot_path_text(ty, id@, time as int) is Some,
            r matches Ok(dir) ==> dir@ == (BackupDirView {
                group: BackupGroupView { ty, id: id@ },
                time,
            }),
            r matches Err(e) ==> e == Error::InvalidInput,
    {
        let dir = BackupDir::new(BackupGroup::new(ty, String::from_str(id)), time);
        let _text = dir.to_string()?;
        Ok(dir)
    }

    /// The snapshot that a path such as `vm/100/2024-01-01T00:00:00Z`
    /// names.
    pub fn backup_dir_from_path(&self, path: &str) -> (r: Result<BackupDir, Error>)
        ensures
            match parse_snapshot_spec(path@) {
                Some(d) => r is Ok && r->Ok_0@ == d,
                None => r matches Err(e) && e == Error::InvalidInput,
            },
    {
        BackupDir::parse(path)
    }

    /// Makes the group, if it is not there, with `auth_id` as its owner, and
    /// locks its directory for a backup.
    ///
    /// The answer is the owner of the group and the lock. Fails with
    /// `LockContended` while the group is locked, and with the failure of
    /// reading the owner where the group is there without a readable
    /// `owner` file; a failure leaves the datastore as it was.
    pub fn create_locked_backup_group(&mut self, backup_group: &BackupGroup, auth_id: &Authid) -> (r:
        Result<(Authid, DirLockGuard), Error>)
        requires
            old(self).wf(),
        ensures
            final(self).wf(),
            final(self).operation_spec() == old(self).operation_spec(),
            final(self)@ == (StoreView {
                namespace: lock_group_state(old(self)@.namespace, backup_group@, auth_id@),
                ..old(self)@
            }),
            match lock_group_result(old(self)@.namespace, backup_group@, auth_id@) {
                Ok(owner) => r is Ok && r->Ok_0.0@ == owner && r->Ok_0.1.group() == backup_group@
                    && r->Ok_0.1.time() is None,
                Err(e) => r matches Err(x) && x == e,
            },
    {
        self.inner.namespace.create_locked_backup_group(backup_group, auth_id)
    }

    /// Makes the snapshot directory, if it is not there, and locks it for a
    /// backup. The group has to be there.
    ///
    /// The answer is the path of the snapshot below the base directory,
    /// whether the snapshot is new, and the lock. Fails with `InvalidInput`
    /// where the time has no text, with `NotFound` without the group, and
    /// with `LockContended` while the snapshot is locked; a failure leaves
    /// the datastore as it was.
    pub fn create_locked_backup_dir(&mut self, backup_dir: &BackupDir) -> (r: Result<
        (String, bool, DirLockGuard),
        Error,
    >)
        requires
            old(self).wf(),
        ensures
            final(self).wf(),
            final(self).operation_spec() == old(self).operation_spec(),
            final(self)@ == (StoreView {
                namespace: lock_snapshot_state(old(self)@.namespace, backup_dir@),
                ..old(self)@
            }),
            match lock_snapshot_result(old(self)@.namespace, backup_dir@) {
                Ok(is_new) => r is Ok && r->Ok_0.1 == is_new && Some(r->Ok_0.0@)
                    == snapshot_path_text(
                    backup_dir@.group.ty,
                    backup_dir@.group.id,
                    backup_dir@.time as int,
                ) && r->Ok_0.2.group() == backup_dir@.group && r->Ok_0.2.time() == Some(
                    backup_dir@.time,
                ),
                Err(e) => r matches Err(x) && x == e,
            },
    {
        self.inner.namespace.create_locked_backup_dir(backup_dir)
    }

    /// Gives a directory lock back.
    pub fn unlock(&mut self, guard: DirLockGuard)
        requires
            old(self).wf(),
        ensures
            final(self).wf(),
            final(self).operation_spec() == old(self).operation_spec(),
            final(self)@ == (StoreView {
                namespace: unlock_state(old(self)@.namespace, guard.group(), guard.time()),
                ..old(self)@
            }),
    {
        self.inner.namespace.unlock(guard)
    }

    /// Removes a group with all its snapshots that are not protected.
    ///
    /// The answer is whether all snapshots, and with them the group, were
    /// removed: it is `false` exactly where a snapshot of the group is
    /// protected. Fails with `NotFound` without the group, with
    /// `LockContended` while the group is locked, and with the failure of
    /// the first snapshot that is in use.
    pub fn remove_backup_group(&mut self, backup_group: &BackupGroup) -> (r: Result<bool, Error>)
        requires
            old(self).wf(),
        ensures
            final(self).wf(),
            final(self).operation_spec() == old(self).operation_spec(),
            r == remove_group_result(old(self)@.namespace, backup_group@),
            final(self)@ == (StoreView {
                namespace: remove_group_state(old(self)@.namespace, backup_group@),
                ..old(self)@
            }),
    {
        self.inner.namespace.remove_backup_group(backup_group)
    }

    /// Removes a snapshot with all its files.
    ///
    /// Without `force` the snapshot must not be in use. A protected
    /// snapshot is not removed, with `force` or without. A failure leaves
    /// the datastore as it was.
    pub fn remove_backup_dir(&mut self, backup_dir: &BackupDir, force: bool) -> (r: Result<
        (),
        Error,
    >)
        requires
            old(self).wf(),
        ensures
            final(self).wf(),
            final(self).operation_spec() == old(self).operation_spec(),
            r == remove_snapshot_result(old(self)@.namespace, backup_dir@, force),
            final(self)@ == (StoreView {
                namespace: remove_snapshot_state(old(self)@.namespace, backup_dir@, force),
                ..old(self)@
            }),
    {
        self.inner.namespace.remove_backup_dir(backup_dir, force)
    }

    /// The time of the last complete snapshot of a group; `None` where the
    /// group has none or is not there.
    pub fn last_successful_backup(&self, backup_group: &BackupGroup) -> (r: Result<
        Option<i64>,
        Error,
    >)
        requires
            self.wf(),
        ensures
            r == Ok::<Option<i64>, Error>(
                last_successful_backup_result(self@.namespace, backup_group@),
            ),
    {
        Ok(self.inner.namespace.last_successful_backup(backup_group))
    }

    /// The owner of a group: who made the group's first backup.
    pub fn get_owner(&self, backup_group: &BackupGroup) -> (r: Result<Authid, Error>)
        requires
            self.wf(),
        ensures
            match get_owner_result(self@.namespace, backup_group@) {
                Ok(a) => r is Ok && r->Ok_0@ == a,
                Err(e) => r matches Err(x) && x == e,
            },
    {
        self.inner.namespace.get_owner(backup_group)
    }

    /// Whether `auth_id` may act as the owner of the group.
    pub fn owns_backup(&self, backup_group: &BackupGroup, auth_id: &Authid) -> (r: Result<
        bool,
        Error,
    >)
        requires
            self.wf(),
        ensures
            match get_owner_result(self@.namespace, backup_group@) {
                Ok(a) => r == Ok::<bool, Error>(is_backup_owner(a, auth_id@)),
                Err(e) => r == Err::<bool, Error>(e),
            },
    {
        self.inner.namespace.owns_backup(backup_group, auth_id)
    }

    /// Writes the `owner` file of a group. Without `force` the file must
    /// not be there yet.
    pub fn set_owner(&mut self, backup_group: &BackupGroup, auth_id: &Authid, force: bool) -> (r:
        Result<(), Error>)
        requires
            old(self).wf(),
        ensures
            final(self).wf(),
            final(self).operation_spec() == old(self).operation_spec(),
            r == set_owner_result(old(self)@.namespace, backup_group@, force),
            final(self)@ == (StoreView {
                namespace: set_owner_state(old(self)@.namespace, backup_group@, auth_id@, force),
                ..old(self)@
            }),
    {
        self.inner.namespace.set_owner(backup_group, auth_id, force)
    }

    /// The groups of the datastore.
    pub fn iter_backup_groups(&self) -> (r: Result<Vec<BackupGroup>, Error>)
        ensures
            r is Ok,
            r->Ok_0.len() == self@.namespace.groups.len(),
            forall|i: int|
                0 <= i < r->Ok_0.len() ==> (#[trigger] r->Ok_0[i])@ == (BackupGroupView {
                    ty: self@.namespace.groups[i].ty,
                    id: self@.namespace.groups[i].id,
                }),
    {
        Ok(self.inner.namespace.list_backup_groups())
    }

    /// The groups of the datastore that can be listed: all of them.
    pub fn iter_backup_groups_ok(&self) -> (r: Result<Vec<BackupGroup>, Error>)
        ensures
            r is Ok,
            r->Ok_0.len() == self@.namespace.groups.len(),
            forall|i: int|
                0 <= i < r->Ok_0.len() ==> (#[trigger] r->Ok_0[i])@ == (BackupGroupView {
                    ty: self@.namespace.groups[i].ty,
                    id: self@.namespace.groups[i].id,
                }),
    {
        self.iter_backup_groups()
    }

    /// The groups of the datastore, as a list.
    pub fn list_backup_groups(&self) -> (r: Result<Vec<BackupGroup>, Error>)
        ensures
            r is Ok,
            r->Ok_0.len() == self@.namespace.groups.len(),
            forall|i: int|
                0 <= i < r->Ok_0.len() ==> (#[trigger] r->Ok_0[i])@ == (BackupGroupView {
                    ty: self@.namespace.groups[i].ty,
                    id: self@.namespace.groups[i].id,
                }),
    {
        self.iter_backup_groups()
    }

    /// The snapshots of a group, in the order in which they were made.
    /// Fails with `NotFound` without the group.
    pub fn list_snapshots(&self, backup_group: &BackupGroup) -> (r: Result<Vec<BackupDir>, Error>)
        requires
            self.wf(),
        ensures
            match group_index(self@.namespace.groups, backup_group@.ty, backup_group@.id) {
                None => r matches Err(e) && e == Error::NotFound,
                Some(gi) => r is Ok && r->Ok_0.len() == self@.namespace.groups[gi].snapshots.len()
                    && forall|i: int|
                    0 <= i < r->Ok_0.len() ==> (#[trigger] r->Ok_0[i])@ == (BackupDirView {
                        group: backup_group@,
                        time: self@.namespace.groups[gi].snapshots[i].time,
                    }),
            },
    {
        self.inner.namespace.list_snapshots(backup_group)
    }

    /// The manifest of a snapshot. It must not be written back: to change
    /// a manifest, update it.
    pub fn load_manifest(&self, backup_dir: &BackupDir) -> (r: Result<BackupManifest, Error>)
        requires
            self.wf(),
        ensures
            match load_manifest_result(self@.namespace, backup_dir@) {
                Ok(m) => r is Ok && r->Ok_0@ == m,
                Err(e) => r matches Err(x) && x == e,
            },
    {
        self.inner.namespace.load_manifest(backup_dir)
    }

    /// Updates the manifest of a snapshot under the manifest lock: loads
    /// it, applies `update_fn` and stores what comes back. Never write a
    /// manifest in another way.
    pub fn update_manifest<F: FnOnce(BackupManifest) -> BackupManifest>(
        &mut self,
        backup_dir: &BackupDir,
        update_fn: F,
    ) -> (r: Result<(), Error>)
        requires
            old(self).wf(),
            forall|m: BackupManifest| update_fn.requires((m,)),
        ensures
            final(self).wf(),
            final(self).operation_spec() == old(self).operation_spec(),
            match update_manifest_check(old(self)@.namespace, backup_dir@) {
                Err(e) => r == Err::<(), Error>(e) && final(self)@ == old(self)@,
                Ok(mv) => r is Ok && exists|m: BackupManifest, m2: BackupManifest|
                    m@ == mv && update_fn.ensures((m,), m2) && final(self)@ == (StoreView {
                        namespace: store_file_state(
                            old(self)@.namespace,
                            backup_dir@,
                            MANIFEST_BLOB_NAME@,
                            ContentView::Manifest(m2@),
                        ),
                        ..old(self)@
                    }),
            },
    {
        self.inner.namespace.update_manifest(backup_dir, update_fn)
    }

    /// Whether a snapshot is protected. Fails with `NotFound` without the
    /// snapshot.
    pub fn is_protected(&self, backup_dir: &BackupDir) -> (r: Result<bool, Error>)
        requires
            self.wf(),
        ensures
            match locate(self@.namespace, backup_dir@) {
                None => r == Err::<bool, Error>(Error::NotFound),
                Some((gi, si)) => r == Ok::<bool, Error>(
                    crate::namespace::is_protected(self@.namespace.groups[gi].snapshots[si]),
                ),
            },
    {
        self.inner.namespace.is_protected(backup_dir)
    }

    /// Takes the manifest lock of a snapshot. Fails with `NotFound`
    /// without the snapshot, and with `LockTimeout` while the lock is
    /// held; a failure leaves the datastore as it was.
    pub fn lock_manifest(&mut self, backup_dir: &BackupDir) -> (r: Result<
        crate::namespace::ManifestLockGuard,
        Error,
    >)
        requires
            old(self).wf(),
        ensures
            final(self).wf(),
            final(self).operation_spec() == old(self).operation_spec(),
            match locate(old(self)@.namespace, backup_dir@) {
                None => (r matches Err(e) && e == Error::NotFound) && final(self)@ == old(self)@,
                Some((gi, si)) => if old(self)@.namespace.groups[gi].snapshots[si].manifest_locked {
                    (r matches Err(e) && e == Error::LockTimeout) && final(self)@ == old(self)@
                } else {
                    r is Ok && r->Ok_0.dir() == backup_dir@ && final(self)@ == (StoreView {
                        namespace: crate::namespace::manifest_lock_state(
                            old(self)@.namespace,
                            backup_dir@,
                            true,
                        ),
                        ..old(self)@
                    })
                },
            },
    {
        self.inner.namespace.lock_manifest(backup_dir)
    }

    /// Gives the manifest lock of a snapshot back.
    pub fn unlock_manifest(&mut self, guard: crate::namespace::ManifestLockGuard)
        requires
            old(self).wf(),
        ensures
            final(self).wf(),
            final(self).operation_spec() == old(self).operation_spec(),
            final(self)@ == (StoreView {
                namespace: crate::namespace::manifest_lock_state(
                    old(self)@.namespace,
                    guard.dir(),
                    false,
                ),
                ..old(self)@
            }),
    {
        self.inner.namespace.unlock_manifest(guard)
    }

    /// Sets or takes away the protection of a snapshot.
    pub fn update_protection(&mut self, backup_dir: &BackupDir, protection: bool) -> (r: Result<
        (),
        Error,
    >)
        requires
            old(self).wf(),
        ensures
            final(self).wf(),
            final(self).operation_spec() == old(self).operation_spec(),
            r == update_protection_result(old(self)@.namespace, backup_dir@),
            final(self)@ == (StoreView {
                namespace: update_protection_state(old(self)@.namespace, backup_dir@, protection),
                ..old(self)@
            }),
    {
        self.inner.namespace.update_protection(backup_dir, protection)
    }

    /// Removes from a snapshot directory every file that the manifest does
    /// not want. Fails with `NotFound` without the snapshot.
    pub fn cleanup_backup_dir(&mut self, backup_dir: &BackupDir, manifest: &BackupManifest) -> (r:
        Result<(), Error>)
        requires
            old(self).wf(),
        ensures
            final(self).wf(),
            final(self).operation_spec() == old(self).operation_spec(),
            r is Ok <==> locate(old(self)@.namespace, backup_dir@) is Some,
            r matches Err(e) ==> e == Error::NotFound,
            final(self)@ == (StoreView {
                namespace: cleanup_state(old(self)@.namespace, backup_dir@, manifest@),
                ..old(self)@
            }),
    {
        self.inner.namespace.cleanup_backup_dir(backup_dir, manifest)
    }

    /// Stores a file in a snapshot, in place of the file of that name if
    /// there is one. Fails with `NotFound` without the snapshot.
    pub fn store_file(&mut self, backup_dir: &BackupDir, name: &str, content: FileContent) -> (r:
        Result<(), Error>)
        requires
            old(self).wf(),
        ensures
            final(self).wf(),
            final(self).operation_spec() == old(self).operation_spec(),
            r is Ok <==> locate(old(self)@.namespace, backup_dir@) is Some,
            r matches Err(e) ==> e == Error::NotFound,
            final(self)@ == (StoreView {
                namespace: store_file_state(old(self)@.namespace, backup_dir@, name@, content@),
                ..old(self)@
            }),
    {
        self.inner.namespace.store_file(backup_dir, name, content)
    }

    /// A file of a snapshot. Fails with `NotFound` without the snapshot or
    /// the file.
    pub fn load_file(&self, backup_dir: &BackupDir, name: &str) -> (r: Result<FileContent, Error>)
        requires
            self.wf(),
        ensures
            match load_file_result(self@.namespace, backup_dir@, name@) {
                Ok(c) => r is Ok && r->Ok_0@ == c,
                Err(e) => r matches Err(x) && x == e,
            },
    {
        self.inner.namespace.load_file(backup_dir, name)
    }

    /// Stores an index file outside the scheme `<type>/<id>/<timestamp>/`,
    /// under its path below the base directory.
    pub fn store_stray_index(&mut self, path: &str, index: IndexData)
        requires
            old(self).wf(),
        ensures
            final(self).wf(),
            final(self).operation_spec() == old(self).operation_spec(),
            final(self)@ == (StoreView {
                namespace: NamespaceView {
                    strays: with_file(
                        old(self)@.namespace.strays,
                        path@,
                        ContentView::Index(index@),
                    ),
                    ..old(self)@.namespace
                },
                ..old(self)@
            }),
    {
        self.inner.namespace.store_stray(path, index)
    }

    /// The path of the chunk `digest`, and the digest's hexadecimal name.
    pub fn chunk_path(&self, digest: &[u8; 32]) -> (r: (String, String))
        ensures
            r.0@ == self@.base + "/"@ + chunk_rel_path(digest@),
            r.1@ == hex_text(digest@),
    {
        self.inner.chunk_store.chunk_path(digest)
    }

    /// Touches the chunk `digest` at time `now`.
    ///
    /// The result is whether the chunk is there. Where it is not, the call
    /// fails with `NotFound` if `assert_exists` is set.
    pub fn cond_touch_chunk(&mut self, digest: &[u8; 32], assert_exists: bool, now: i64) -> (r:
        Result<bool, Error>)
        requires
            old(self).wf(),
        ensures
            final(self).wf(),
            final(self).operation_spec() == old(self).operation_spec(),
            final(self)@ == (StoreView {
                pool: pool_touch(old(self)@.pool, digest@, None, now),
                ..old(self)@
            }),
            has_chunk(old(self)@.pool, digest@) ==> r == Ok::<bool, Error>(true),
            !has_chunk(old(self)@.pool, digest@) ==> r == if assert_exists {
                Err::<bool, Error>(Error::NotFound)
            } else {
                Ok::<bool, Error>(false)
            },
    {
        self.inner.chunk_store.cond_touch_chunk(digest, assert_exists, now)
    }

    /// Stores a chunk under its digest at time `now`.
    ///
    /// Where the pool holds a chunk of this digest already, that chunk is
    /// touched and keeps its bytes, and the result is `true` and the size
    /// of the chunk that is there. Otherwise the blob is filed in its
    /// shard and the result is `false` and the blob's size. Fails with
    /// `IoError` only when a new chunk is due and the pool has no inode
    /// number left; the datastore is then unchanged.
    pub fn insert_chunk(&mut self, chunk: &DataBlob, digest: &[u8; 32], now: i64) -> (r: Result<
        (bool, u64),
        Error,
    >)
        requires
            old(self).wf(),
        ensures
            final(self).wf(),
            final(self).operation_spec() == old(self).operation_spec(),
            r is Err <==> !has_chunk(old(self)@.pool, digest@) && old(self)@.next_ino == u64::MAX,
            r matches Err(e) ==> e == Error::IoError && final(self)@ == old(self)@,
            r matches Ok(done) ==> {
                &&& final(self)@ == (StoreView {
                    pool: pool_insert(
                        old(self)@.pool,
                        digest@,
                        chunk@,
                        now,
                        old(self)@.next_ino,
                    ),
                    next_ino: if done.0 {
                        old(self)@.next_ino
                    } else {
                        (old(self)@.next_ino + 1) as u64
                    },
                    ..old(self)@
                })
                &&& done.0 == has_chunk(old(self)@.pool, digest@)
                &&& done.0 ==> done.1 == chunk_of(old(self)@.pool, digest@).data.len()
                &&& !done.0 ==> done.1 == chunk@.len()
            },
    {
        self.inner.chunk_store.insert_chunk(chunk, digest, now)
    }

    /// Sets a chunk that failed verification aside: renames its file to a
    /// `.bad` sidecar. The answer is the number of the sidecar; `None`
    /// where the pool does not hold the chunk.
    pub fn rename_corrupted_chunk(&mut self, digest: &[u8; 32]) -> (r: Option<u8>)
        requires
            old(self).wf(),
        ensures
            final(self).wf(),
            final(self).operation_spec() == old(self).operation_spec(),
            final(self)@ == (StoreView {
                pool: crate::chunk_store::pool_rename_bad(old(self)@.pool, digest@),
                ..old(self)@
            }),
            r == if has_chunk(old(self)@.pool, digest@) {
                Some(crate::chunk_store::first_free_slot(old(self)@.pool, digest@, 0))
            } else {
                None
            },
    {
        self.inner.chunk_store.rename_corrupted_chunk(digest)
    }

    /// What `stat` tells of the chunk `digest`. Succeeds exactly where the
    /// pool holds the chunk, and fails with `NotFound` otherwise.
    pub fn stat_chunk(&self, digest: &[u8; 32]) -> (r: Result<ChunkStat, Error>)
        requires
            self.wf(),
        ensures
            r is Ok <==> has_chunk(self@.pool, digest@),
            r matches Ok(stat) ==> {
                let file = chunk_of(self@.pool, digest@);
                stat.size == file.data.len() && stat.atime == file.atime && stat.ino == file.ino
            },
            r matches Err(e) ==> e == Error::NotFound,
    {
        self.inner.chunk_store.stat_chunk(digest)
    }

    /// The blob of the chunk `digest`. Fails with `NotFound` if the pool
    /// does not hold the chunk.
    pub fn load_chunk(&self, digest: &[u8; 32]) -> (r: Result<DataBlob, Error>)
        requires
            self.wf(),
        ensures
            match pool_load(self@.pool, digest@) {
                Some(data) => r is Ok && r->Ok_0@ == data,
                None => r matches Err(e) && e == Error::NotFound,
            },
    {
        self.inner.chunk_store.load_chunk(digest)
    }

    /// Walks the pool shard by shard. Each item holds a file, the index of
    /// the file's shard, and the mark that the walk is done: it is set
    /// on the last item. The shard indices lie below 256 and never fall
    /// from one item to the next.
    pub fn get_chunk_iterator(&self) -> (r: Result<Vec<(ChunkDirEntry, usize, bool)>, Error>)
        requires
            self.wf(),
        ensures
            r matches Ok(items) && {
                &&& is_walk(self@.pool, items@)
                &&& forall|k: int| 0 <= k < items.len() ==> (#[trigger] items[k]).1 < 256
                &&& forall|j: int, k: int| 0 <= j <= k < items.len() ==> items[j].1 <= items[k].1
            },
    {
        Ok(self.inner.chunk_store.get_chunk_iterator())
    }

    /// Registers a writer at time `now`: takes the pool's process lock
    /// shared.
    pub fn try_shared_chunk_store_lock(&mut self, now: i64) -> (r: Result<
        ProcessLockSharedGuard,
        Error,
    >)
        requires
            old(self).wf(),
        ensures
            final(self).wf(),
            final(self).operation_spec() == old(self).operation_spec(),
            r is Ok <==> !old(self)@.exclusive && old(self)@.next_guard < u64::MAX,
            r is Err ==> final(self)@ == old(self)@,
            r matches Err(e) ==> e == if old(self)@.exclusive {
                Error::LockContended(LockReason::ChunkStore)
            } else {
                Error::IoError
            },
            r matches Ok(guard) ==> final(self)@ == (StoreView {
                writers: old(self)@.writers.push(Writer { id: guard.id(), start: now }),
                next_guard: (old(self)@.next_guard + 1) as u64,
                ..old(self)@
            }) && guard.id() == old(self)@.next_guard,
    {
        self.inner.chunk_store.try_shared_lock(now)
    }

    /// Takes the pool's process lock exclusively, without waiting. Fails
    /// with `LockContended` if the lock is held exclusively already.
    pub fn try_exclusive_chunk_store_lock(&mut self) -> (r: Result<
        crate::chunk_store::ProcessLockExclusiveGuard,
        Error,
    >)
        requires
            old(self).wf(),
        ensures
            final(self).wf(),
            final(self).operation_spec() == old(self).operation_spec(),
            r is Ok <==> !old(self)@.exclusive,
            r matches Err(e) ==> e == Error::LockContended(LockReason::ChunkStore),
            final(self)@ == (StoreView { exclusive: true, ..old(self)@ }),
    {
        self.inner.chunk_store.try_exclusive_lock()
    }

    /// Gives the exclusive hold of the pool's process lock back.
    pub fn unlock_exclusive_chunk_store_lock(
        &mut self,
        guard: crate::chunk_store::ProcessLockExclusiveGuard,
    )
        requires
            old(self).wf(),
        ensures
            final(self).wf(),
            final(self).operation_spec() == old(self).operation_spec(),
            final(self)@ == (StoreView { exclusive: false, ..old(self)@ }),
    {
        self.inner.chunk_store.unlock_exclusive(guard)
    }

    /// Gives a shared hold of the pool's process lock back.
    pub fn unlock_shared_chunk_store_lock(&mut self, guard: ProcessLockSharedGuard)
        requires
            old(self).wf(),
        ensures
            final(self).wf(),
            final(self).operation_spec() == old(self).operation_spec(),
            final(self)@ == (StoreView {
                writers: crate::chunk_store::writers_without(old(self)@.writers, guard.id()),
                ..old(self)@
            }),
    {
        self.inner.chunk_store.unlock_shared(guard)
    }

    /// The index files of the datastore, by their absolute paths, in the
    /// order of the walk.
    pub fn list_images(&self) -> (r: Result<Vec<String>, Error>)
        ensures
            r is Ok,
            r->Ok_0.len() == images_of(self@.namespace).len(),
            forall|i: int|
                0 <= i < r->Ok_0.len() ==> (#[trigger] r->Ok_0[i])@ == self@.base + "/"@
                    + images_of(self@.namespace)[i].path,
    {
        let images = self.inner.namespace.list_image_files();
        let ghost views = image_views(images@);
        let mut list: Vec<String> = Vec::new();
        let mut i: usize = 0;
        while i < images.len()
            invariant
                i <= images.len(),
                list.len() == i,
                views == image_views(images@),
                forall|k: int|
                    0 <= k < i ==> (#[trigger] list[k])@ == self@.base + "/"@ + views[k].path,
            decreases images.len() - i,
        {
            assert(views[i as int] == images@[i as int]@);
            let mut path = self.base_path();
            path.append("/");
            path.append(images[i].path.as_str());
            list.push(path);
            i += 1;
        }
        Ok(list)
    }

    /// The status of the last garbage collection that came to its end.
    pub fn last_gc_status(&self) -> (s: GarbageCollectionStatus)
        ensures
            s == self@.last_gc_status,
    {
        self.inner.last_gc_status.clone()
    }

    /// Whether garbage collection is running.
    pub fn garbage_collection_running(&self) -> (r: bool)
        ensures
            r == self@.gc_running,
    {
        self.inner.gc_running
    }

    /// Takes the lock that serializes garbage collection, without waiting.
    /// Fails with `AlreadyRunning` while the lock is held.
    pub fn try_lock_garbage_collection(&mut self) -> (r: Result<(), Error>)
        requires
            old(self).wf(),
        ensures
            final(self).wf(),
            final(self).operation_spec() == old(self).operation_spec(),
            r == if old(self)@.gc_running {
                Err::<(), Error>(Error::AlreadyRunning)
            } else {
                Ok::<(), Error>(())
            },
            final(self)@ == (StoreView { gc_running: true, ..old(self)@ }),
    {
        if self.inner.gc_running {
            return Err(Error::AlreadyRunning);
        }
        self.inner.gc_running = true;
        Ok(())
    }

    /// Gives the lock that serializes garbage collection back.
    pub fn unlock_garbage_collection(&mut self)
        requires
            old(self).wf(),
        ensures
            final(self).wf(),
            final(self).operation_spec() == old(self).operation_spec(),
            final(self)@ == (StoreView { gc_running: false, ..old(self)@ }),
    {
        self.inner.gc_running = false;
    }

    /// Runs garbage collection at time `now` for the task `upid`.
    ///
    /// Fails with `AlreadyRunning` while a collection is running, and with
    /// `LockContended` while the pool's process lock is held exclusively;
    /// the datastore is then unchanged. Otherwise the chunks of every index
    /// file are marked and the pool is swept, with `now` as the start of
    /// the mark phase. The worker is polled before every index file and
    /// every chunk; the call fails with its request to stop, and with
    /// `Corrupt` at an index file that cannot be read. With a worker that
    /// never stops and index files that can all be read, it succeeds.
    ///
    /// Wherever the collection stops, no chunk that an index lists is
    /// lost, and no file of the pool is new or changed but in its access
    /// time. When it comes to its end, every chunk that no index lists and
    /// that is older than the cutoff is gone, the status of the run is the
    /// status of the last garbage collection, and the answer is what the
    /// mark phase reported.
    pub fn garbage_collection<W: WorkerTaskContext>(&mut self, worker: &W, upid: &str, now: i64) -> (r:
        Result<Vec<GcEvent>, Error>)
        requires
            old(self).wf(),
        ensures
            final(self).wf(),
            final(self).operation_spec() == old(self).operation_spec(),
            old(self)@.gc_running ==> (r matches Err(e) && e == Error::AlreadyRunning) && final(self)@ == old(self)@,
            !old(self)@.gc_running && old(self)@.exclusive ==> (r matches Err(e) && e
                == Error::LockContended(LockReason::ChunkStore)) && final(self)@ == old(self)@,
            !old(self)@.gc_running && !old(self)@.exclusive ==> {
                let images = images_of(old(self)@.namespace);
                let ow = oldest_writer_or(old(self)@.writers, now) as int;
                let marked = mark_images(old(self)@.pool, images, now);
                &&& final(self)@ == (StoreView {
                    pool: final(self)@.pool,
                    last_gc_status: final(self)@.last_gc_status,
                    ..old(self)@
                })
                &&& nothing_new(old(self)@.pool, final(self)@.pool)
                &&& gc_safe(old(self)@.pool, final(self)@.pool, images)
                &&& r matches Ok(events) ==> {
                    &&& images_readable(images)
                    &&& final(self)@.pool == crate::chunk_store::pool_sweep(marked, ow, now as int)
                    &&& status_of_run(final(self)@.last_gc_status, upid@, images, marked, ow, now as int)
                    &&& event_views(events@) == mark_events(old(self)@.pool, images)
                    &&& gc_live(old(self)@.pool, final(self)@.pool, images, ow, now as int)
                }
                &&& r matches Err(e) ==> final(self)@.last_gc_status == old(self)@.last_gc_status
                    && (stops_with(worker, e) || (e == Error::Corrupt && !images_readable(images)))
                &&& never_stops(worker) && images_readable(images) ==> r is Ok
            },
    {
        if self.inner.gc_running {
            return Err(Error::AlreadyRunning);
        }
        match self.inner.chunk_store.try_exclusive_lock() {
            Err(e) => {
                return Err(e);
            },
            Ok(guard) => {
                self.inner.chunk_store.unlock_exclusive(guard);
            },
        }
        self.inner.gc_running = true;
        let images = self.inner.namespace.list_image_files();
        let done = collect_garbage(&mut self.inner.chunk_store, &images, upid, worker, now);
        self.inner.gc_running = false;
        match done {
            Err(e) => Err(e),
            Ok((status, events)) => {
                self.inner.last_gc_status = status;
                Ok(events)
            },
        }
    }
}


/// The key by which a chunk is ordered for reading: its inode number where
/// chunks are read by inode, and the largest number for a chunk that the
/// pool does not hold, so that it comes last; zero where the order of the
/// index is kept.
pub open spec fn chunk_sort_key(pool: Seq<FileView>, order: ChunkOrder, digest: Seq<u8>) -> u64 {
    match order {
        ChunkOrder::Inode => if has_chunk(pool, digest) {
            chunk_of(pool, digest).ino
        } else {
            u64::MAX
        },
        ChunkOrder::Unordered => 0,
    }
}

/// Whether a position is skipped: the list of flags has a flag for it, and
/// the flag is set.
pub open spec fn is_skipped(skip: Seq<bool>, pos: int) -> bool {
    0 <= pos < skip.len() && skip[pos]
}

/// The positions of an index that are not skipped, each with its key, in
/// the order of the index.
pub open spec fn chunk_list(
    pool: Seq<FileView>,
    order: ChunkOrder,
    digests: Seq<Seq<u8>>,
    skip: Seq<bool>,
) -> Seq<(usize, u64)>
    decreases digests.len(),
{
    if digests.len() == 0 {
        Seq::<(usize, u64)>::empty()
    } else {
        let init = chunk_list(pool, order, digests.drop_last(), skip);
        if is_skipped(skip, digests.len() - 1) {
            init
        } else {
            init.push(
                ((digests.len() - 1) as usize, chunk_sort_key(pool, order, digests.last())),
            )
        }
    }
}

/// Whether the keys of a list ascend.
pub open spec fn sorted_by_key(list: Seq<(usize, u64)>) -> bool {
    forall|i: int, j: int| 0 <= i <= j < list.len() ==> list[i].1 <= list[j].1
}

/// Whether two lists hold the same items, however ordered.
pub open spec fn same_items(a: Seq<(usize, u64)>, b: Seq<(usize, u64)>) -> bool {
    &&& a.len() == b.len()
    &&& forall|x: (usize, u64)| a.contains(x) <==> b.contains(x)
}

/// Whether `result` is the chunks of an index in the order in which they
/// are to be read: in the order of the index, or sorted by inode where
/// chunks are read by inode. Chunks of one key may come in any order.
pub open spec fn is_chunk_order(
    pool: Seq<FileView>,
    order: ChunkOrder,
    digests: Seq<Seq<u8>>,
    skip: Seq<bool>,
    result: Seq<(usize, u64)>,
) -> bool {
    match order {
        ChunkOrder::Unordered => result == chunk_list(pool, order, digests, skip),
        ChunkOrder::Inode => sorted_by_key(result) && same_items(
            result,
            chunk_list(pool, order, digests, skip),
        ),
    }
}

/// Whether `answer` is what `skip_chunk` said of the digest.
pub open spec fn is_skip_answer<F: Fn(&[u8; 32]) -> bool>(
    skip_chunk: F,
    digest: Seq<u8>,
    answer: bool,
) -> bool {
    exists|d: [u8; 32]| d@ == digest && skip_chunk.ensures((&d,), answer)
}

/// Whether the flags are what `skip_chunk` said of the digests, one by
/// one.
pub open spec fn are_skip_answers<F: Fn(&[u8; 32]) -> bool>(
    skip_chunk: F,
    digests: Seq<Seq<u8>>,
    skip: Seq<bool>,
) -> bool {
    &&& skip.len() == digests.len()
    &&& forall|i: int|
        0 <= i < digests.len() ==> is_skip_answer(skip_chunk, #[trigger] digests[i], skip[i])
}

/// Whether `result` is the chunks of an index in the order in which they
/// are to be read, those left out that `skip_chunk` said to skip.
pub open spec fn is_chunk_order_with<F: Fn(&[u8; 32]) -> bool>(
    skip_chunk: F,
    pool: Seq<FileView>,
    order: ChunkOrder,
    digests: Seq<Seq<u8>>,
    result: Seq<(usize, u64)>,
) -> bool {
    exists|skip: Seq<bool>|
        are_skip_answers(skip_chunk, digests, skip) && #[trigger] is_chunk_order(
            pool,
            order,
            digests,
            skip,
            result,
        )
}

/// Whether the check answers with no error, whatever the position.
pub open spec fn never_fails<A: Fn(usize) -> Result<(), Error>>(check_abort: A) -> bool {
    forall|p: usize, e: Error| !check_abort.ensures((p,), Err::<(), Error>(e))
}

/// Whether the check of one of the first `count` positions answered with
/// the error.
pub open spec fn stopped_by<A: Fn(usize) -> Result<(), Error>>(
    check_abort: A,
    count: int,
    e: Error,
) -> bool {
    exists|p: usize| p < count && #[trigger] check_abort.ensures((p,), Err::<(), Error>(e))
}

/// Sorts a list by its keys.
pub fn sort_by_key(list: &Vec<(usize, u64)>) -> (sorted: Vec<(usize, u64)>)
    ensures
        sorted_by_key(sorted@),
        same_items(sorted@, list@),
{
    let mut sorted: Vec<(usize, u64)> = Vec::new();
    let mut i: usize = 0;
    assert(list@.take(0) =~= Seq::<(usize, u64)>::empty());
    while i < list.len()
        invariant
            i <= list.len(),
            sorted.len() == i,
            sorted_by_key(sorted@),
            forall|x: (usize, u64)| sorted@.contains(x) <==> list@.take(i as int).contains(x),
        decreases list.len() - i,
    {
        let item = list[i];
        let mut k: usize = 0;
        while k < sorted.len() && sorted[k].1 <= item.1
            invariant
                k <= sorted.len(),
                forall|j: int| 0 <= j < k ==> sorted@[j].1 <= item.1,
            decreases sorted.len() - k,
        {
            k += 1;
        }
        let ghost before = sorted@;
        assert(forall|x: (usize, u64)| before.contains(x) <==> list@.take(i as int).contains(x));
        sorted.insert(k, item);
        proof {
            let after = sorted@;
            assert(after =~= before.insert(k as int, item));
            assert forall|a: int, b: int| 0 <= a <= b < after.len() implies after[a].1
                <= after[b].1 by {
                let oa = if a < k { a } else { a - 1 };
                let ob = if b < k { b } else { b - 1 };
                if a != k {
                    assert(after[a] == before[oa]);
                }
                if b != k {
                    assert(after[b] == before[ob]);
                }
                if a == k && b != k {
                    assert(before[k as int].1 <= before[ob].1);
                }
            }
            let t = list@.take(i + 1);
            assert(t =~= list@.take(i as int).push(item));
            assert forall|x: (usize, u64)| after.contains(x) <==> t.contains(x) by {
                assert(before.contains(x) <==> list@.take(i as int).contains(x));
                if after.contains(x) {
                    let w = choose|w: int| 0 <= w < after.len() && after[w] == x;
                    if w == k {
                        assert(t[i as int] == x);
                    } else {
                        let ow = if w < k { w } else { w - 1 };
                        assert(before[ow] == x);
                        assert(before.contains(x));
                        let v = choose|v: int|
                            0 <= v < list@.take(i as int).len() && list@.take(i as int)[v] == x;
                        assert(t[v] == x);
                    }
                }
                if t.contains(x) {
                    let v = choose|v: int| 0 <= v < t.len() && t[v] == x;
                    if v == i {
                        assert(after[k as int] == x);
                    } else {
                        assert(list@.take(i as int)[v] == x);
                        assert(list@.take(i as int).contains(x));
                        let w = choose|w: int| 0 <= w < before.len() && before[w] == x;
                        let nw = if w < k { w } else { w + 1 };
                        assert(after[nw] == x);
                    }
                }
            }
        }
        i += 1;
    }
    assert(list@.take(list.len() as int) =~= list@);
    sorted
}

/// A chunk that an index lists and that is not in the pool.
#[derive(Clone, Copy, Debug, PartialEq, Eq)]
pub struct MissingChunk {
    pub digest: [u8; 32],
}

impl MissingChunk {
    /// What to tell of the chunk: its name in hexadecimal.
    pub fn message(&self) -> (text: String)
        ensures
            text@ == "chunk "@ + hex_text(self.digest@) + " not found"@,
    {
        let mut text = String::from_str("chunk ");
        let name = crate::digest::digest_to_hex(&self.digest);
        text.append(name.as_str());
        text.append(" not found");
        text
    }
}

/// Whether a chunk is missing: it is neither known to be there nor in the
/// pool.
pub open spec fn is_missing(pool: Seq<FileView>, known: Seq<[u8; 32]>, digest: Seq<u8>) -> bool {
    !holds_digest(known, digest) && !has_chunk(pool, digest)
}

/// The first place of a list of digests whose chunk is missing.
pub open spec fn first_missing(pool: Seq<FileView>, known: Seq<[u8; 32]>, digests: Seq<Seq<u8>>)
    -> Option<int>
    decreases digests.len(),
{
    if digests.len() == 0 {
        None
    } else {
        match first_missing(pool, known, digests.drop_last()) {
            Some(p) => Some(p),
            None => if is_missing(pool, known, digests.last()) {
                Some(digests.len() - 1)
            } else {
                None
            },
        }
    }
}

/// The digests that a check looks at: those before the first one whose
/// chunk is missing, or all.
pub open spec fn looked_at(pool: Seq<FileView>, known: Seq<[u8; 32]>, digests: Seq<Seq<u8>>) -> Seq<
    Seq<u8>,
> {
    match first_missing(pool, known, digests) {
        Some(p) => digests.take(p),
        None => digests,
    }
}

/// Where no chunk is missing, none is.
pub proof fn lemma_none_missing(
    pool: Seq<FileView>,
    known: Seq<[u8; 32]>,
    digests: Seq<Seq<u8>>,
    q: int,
)
    requires
        first_missing(pool, known, digests) is None,
        0 <= q < digests.len(),
    ensures
        !is_missing(pool, known, digests[q]),
    decreases digests.len(),
{
    if q < digests.len() - 1 {
        lemma_none_missing(pool, known, digests.drop_last(), q);
    }
}

/// The first missing chunk of the first digests of a list is the first
/// missing chunk of the list.
pub proof fn lemma_first_missing_stays(
    pool: Seq<FileView>,
    known: Seq<[u8; 32]>,
    digests: Seq<Seq<u8>>,
    k: int,
    p: int,
)
    requires
        0 <= k <= digests.len(),
        first_missing(pool, known, digests.take(k)) == Some(p),
    ensures
        first_missing(pool, known, digests) == Some(p),
    decreases digests.len() - k,
{
    if k < digests.len() {
        assert(digests.take(k + 1).drop_last() =~= digests.take(k));
        lemma_first_missing_stays(pool, known, digests, k + 1, p);
    } else {
        assert(digests.take(k) =~= digests);
    }
}

/// Whether a list of digests holds the digest.
pub open spec fn holds_digest(list: Seq<[u8; 32]>, digest: Seq<u8>) -> bool {
    exists|i: int| 0 <= i < list.len() && (#[trigger] list[i])@ == digest
}

/// Whether a list of digests holds the digest.
pub fn contains_digest(list: &Vec<[u8; 32]>, digest: &[u8; 32]) -> (r: bool)
    ensures
        r == holds_digest(list@, digest@),
{
    let mut i: usize = 0;
    while i < list.len()
        invariant
            i <= list.len(),
            forall|k: int| 0 <= k < i ==> (#[trigger] list@[k])@ != digest@,
        decreases list.len() - i,
    {
        if same_digest(&list[i], digest) {
            return true;
        }
        i += 1;
    }
    false
}

/// What opening an index file by its path answers.
pub open spec fn open_index_result(ns: NamespaceView, path: Seq<char>) -> Result<
    crate::index::IndexView,
    Error,
> {
    if !crate::manifest::is_index_path(path) {
        Err(Error::InvalidInput)
    } else {
        match file_at(ns, path) {
            None => Err(Error::NotFound),
            Some(content) => match crate::namespace::image_index_of(path, content) {
                Some(index) => Ok(index),
                None => Err(Error::Corrupt),
            },
        }
    }
}

/// The file at a path below the base directory: a file of the snapshot
/// that the path's directory names, or else a file outside the scheme
/// `<type>/<id>/<timestamp>/`.
pub open spec fn file_at(ns: NamespaceView, path: Seq<char>) -> Option<ContentView> {
    let parent = match parent_of(path) {
        Some(p) => p,
        None => Seq::<char>::empty(),
    };
    let in_snapshot = match parse_snapshot_spec(parent) {
        Some(dir) => match load_file_result(ns, dir, file_name_of(path)) {
            Ok(c) => Some(c),
            Err(_) => None,
        },
        None => None,
    };
    match in_snapshot {
        Some(c) => Some(c),
        None => match file_index(ns.strays, path) {
            Some(i) => Some(ns.strays[i].content),
            None => None,
        },
    }
}

impl DataStore {
    /// The positions of the given digests that are not skipped, each with
    /// its key, in the order in which the chunks are to be read. A
    /// position is skipped where `skip` has a flag for it that is set.
    pub fn chunks_in_order(&self, digests: &Vec<[u8; 32]>, skip: &Vec<bool>) -> (list: Vec<
        (usize, u64),
    >)
        requires
            self.wf(),
        ensures
            is_chunk_order(
                self@.pool,
                self@.chunk_order,
                crate::index::digest_views(digests@),
                skip@,
                list@,
            ),
    {
        let ghost dv = crate::index::digest_views(digests@);
        let ghost pool = self@.pool;
        let order = self.inner.chunk_order;
        let mut chunk_list: Vec<(usize, u64)> = Vec::new();
        let mut pos: usize = 0;
        proof {
            assert(dv.take(0) =~= Seq::<Seq<u8>>::empty());
        }
        while pos < digests.len()
            invariant
                pos <= digests.len(),
                self.wf(),
                dv == crate::index::digest_views(digests@),
                pool == self@.pool,
                order == self@.chunk_order,
                chunk_list@ == crate::datastore::chunk_list(pool, order, dv.take(pos as int), skip@),
            decreases digests.len() - pos,
        {
            proof {
                let t = dv.take(pos + 1);
                assert(t.drop_last() =~= dv.take(pos as int));
                assert(t.last() == digests@[pos as int]@);
            }
            let skipped: bool = pos < skip.len() && skip[pos];
            if !skipped {
                let ino: u64 = match order {
                    ChunkOrder::Inode => match self.stat_chunk(&digests[pos]) {
                        Err(_) => u64::MAX,
                        Ok(stat) => stat.ino,
                    },
                    ChunkOrder::Unordered => 0,
                };
                chunk_list.push((pos, ino));
            }
            pos += 1;
        }
        proof {
            assert(dv.take(digests.len() as int) =~= dv);
        }
        match order {
            ChunkOrder::Inode => sort_by_key(&chunk_list),
            ChunkOrder::Unordered => chunk_list,
        }
    }

    /// The positions of an index, each with its key, in the order in which
    /// the chunks are to be read: sorted by inode where chunks are read by
    /// inode, chunks that cannot be found last.
    ///
    /// `check_abort` is asked before each position and ends the work with
    /// its error, and nothing else does; `skip_chunk` says which chunks to
    /// leave out.
    pub fn get_chunks_in_order<
        I: IndexFile,
        F: Fn(&[u8; 32]) -> bool,
        A: Fn(usize) -> Result<(), Error>,
    >(&self, index: &I, skip_chunk: F, check_abort: A) -> (r: Result<Vec<(usize, u64)>, Error>)
        requires
            self.wf(),
            forall|d: &[u8; 32]| skip_chunk.requires((d,)),
            forall|p: usize| check_abort.requires((p,)),
        ensures
            r matches Ok(list) ==> is_chunk_order_with(
                skip_chunk,
                self@.pool,
                self@.chunk_order,
                index.digests(),
                list@,
            ),
            r matches Err(e) ==> stopped_by(check_abort, index.digests().len() as int, e),
            never_fails(check_abort) ==> r is Ok,
    {
        let index_count: usize = index.index_count();
        let mut digests: Vec<[u8; 32]> = Vec::new();
        let mut skip: Vec<bool> = Vec::new();
        let mut pos: usize = 0;
        while pos < index_count
            invariant
                pos <= index_count,
                index_count == index.digests().len(),
                digests.len() == pos,
                skip.len() == pos,
                forall|d: &[u8; 32]| skip_chunk.requires((d,)),
                forall|p: usize| check_abort.requires((p,)),
                forall|k: int| 0 <= k < pos ==> (#[trigger] digests@[k])@ == index.digests()[k],
                forall|k: int|
                    0 <= k < pos ==> is_skip_answer(
                        skip_chunk,
                        #[trigger] index.digests()[k],
                        skip@[k],
                    ),
            decreases index_count - pos,
        {
            match check_abort(pos) {
                Err(e) => {
                    assert(check_abort.ensures((pos,), Err::<(), Error>(e)));
                    return Err(e);
                },
                Ok(_) => {},
            }
            let info = match index.chunk_info(pos) {
                Some(info) => info,
                None => {
                    assert(false);
                    return Ok(Vec::new());
                },
            };
            let skipped: bool = skip_chunk(&info.digest);
            proof {
                assert(skip_chunk.ensures((&info.digest,), skipped));
                assert(is_skip_answer(skip_chunk, index.digests()[pos as int], skipped));
            }
            digests.push(info.digest);
            skip.push(skipped);
            pos += 1;
        }
        proof {
            assert(crate::index::digest_views(digests@) =~= index.digests());
        }
        let list = self.chunks_in_order(&digests, &skip);
        proof {
            let flags = skip@;
            assert(are_skip_answers(skip_chunk, index.digests(), flags));
            assert(is_chunk_order(
                self@.pool,
                self@.chunk_order,
                index.digests(),
                flags,
                list@,
            ));
        }
        Ok(list)
    }

    /// Checks that the pool holds every chunk of an index, looking at each
    /// digest once: `checked` holds the digests that are known to be
    /// there, and takes up those of the index that are found.
    ///
    /// Fails at the first chunk that is neither known nor found, and names
    /// it. `checked` then holds what it held, and the digests that the
    /// index lists before that chunk.
    pub fn fast_index_verification<I: IndexFile>(&self, index: &I, checked: &mut Vec<[u8; 32]>) -> (r:
        Result<(), MissingChunk>)
        requires
            self.wf(),
        ensures
            match first_missing(self@.pool, old(checked)@, index.digests()) {
                None => r is Ok,
                Some(p) => r matches Err(missing) && 0 <= p < index.digests().len()
                    && missing.digest@ == index.digests()[p],
            },
            r is Ok <==> forall|p: int|
                0 <= p < index.digests().len() ==> holds_digest(
                    old(checked)@,
                    #[trigger] index.digests()[p],
                ) || has_chunk(self@.pool, index.digests()[p]),
            old(checked)@.is_prefix_of(final(checked)@),
            forall|d: Seq<u8>| #[trigger]
                holds_digest(final(checked)@, d) <==> holds_digest(old(checked)@, d) || looked_at(
                    self@.pool,
                    old(checked)@,
                    index.digests(),
                ).contains(d),
            forall|k: int|
                old(checked)@.len() <= k < final(checked)@.len() ==> has_chunk(
                    self@.pool,
                    (#[trigger] final(checked)@[k])@,
                ),
    {
        let count: usize = index.index_count();
        let ghost start = checked@;
        let ghost ds = index.digests();
        let ghost pool = self@.pool;
        let mut pos: usize = 0;
        proof {
            assert(ds.take(0) =~= Seq::<Seq<u8>>::empty());
        }
        while pos < count
            invariant
                pos <= count,
                count == ds.len(),
                ds == index.digests(),
                pool == self@.pool,
                self.wf(),
                start == old(checked)@,
                start.is_prefix_of(checked@),
                first_missing(pool, start, ds.take(pos as int)) is None,
                forall|d: Seq<u8>| #[trigger]
                    holds_digest(checked@, d) <==> holds_digest(start, d) || ds.take(
                        pos as int,
                    ).contains(d),
                forall|k: int|
                    start.len() <= k < checked@.len() ==> has_chunk(pool, (#[trigger] checked@[k])@),
            decreases count - pos,
        {
            let info = match index.chunk_info(pos) {
                Some(info) => info,
                None => {
                    assert(false);
                    return Ok(());
                },
            };
            let ghost d = ds[pos as int];
            let ghost seen = ds.take(pos as int);
            let ghost next = ds.take(pos + 1);
            proof {
                assert(next.drop_last() =~= seen);
                assert(next.last() == d);
                assert forall|x: Seq<u8>| next.contains(x) <==> seen.contains(x) || x == d by {
                    if next.contains(x) {
                        let i = choose|i: int| 0 <= i < next.len() && next[i] == x;
                        if i < pos {
                            assert(seen[i] == x);
                        }
                    }
                    if seen.contains(x) {
                        let i = choose|i: int| 0 <= i < seen.len() && seen[i] == x;
                        assert(next[i] == x);
                    }
                    if x == d {
                        assert(next[pos as int] == x);
                    }
                }
            }
            if !contains_digest(checked, &info.digest) {
                match self.stat_chunk(&info.digest) {
                    Err(_) => {
                        proof {
                            assert(is_missing(pool, start, d));
                            assert(first_missing(pool, start, next) == Some(pos as int));
                            lemma_first_missing_stays(pool, start, ds, pos + 1, pos as int);
                            assert(!(holds_digest(start, d) || has_chunk(pool, d)));
                        }
                        return Err(MissingChunk { digest: info.digest });
                    },
                    Ok(_) => {},
                }
                let ghost before = checked@;
                checked.push(info.digest);
                proof {
                    assert(start =~= checked@.subrange(0, start.len() as int)) by {
                        assert(start =~= before.subrange(0, start.len() as int));
                    }
                    assert forall|x: Seq<u8>| #[trigger]
                        holds_digest(checked@, x) <==> holds_digest(start, x) || next.contains(
                            x,
                        ) by {
                        if holds_digest(checked@, x) {
                            let w = choose|w: int|
                                0 <= w < checked@.len() && (#[trigger] checked@[w])@ == x;
                            if w < before.len() {
                                assert(before[w]@ == x);
                                assert(holds_digest(before, x));
                            }
                        }
                        if holds_digest(before, x) {
                            let w = choose|w: int|
                                0 <= w < before.len() && (#[trigger] before[w])@ == x;
                            assert(checked@[w]@ == x);
                        }
                        if x == d {
                            assert(checked@[before.len() as int]@ == x);
                        }
                    }
                    assert forall|k: int| start.len() <= k < checked@.len() implies has_chunk(
                        pool,
                        (#[trigger] checked@[k])@,
                    ) by {
                        if k < before.len() {
                            assert(checked@[k] == before[k]);
                        }
                    }
                }
            } else {
                proof {
                    if !holds_digest(start, d) {
                        let q = choose|q: int| 0 <= q < seen.len() && seen[q] == d;
                        lemma_none_missing(pool, start, seen, q);
                    }
                    assert(!is_missing(pool, start, d));
                }
            }
            pos += 1;
        }
        proof {
            assert(ds.take(count as int) =~= ds);
            assert forall|p: int| 0 <= p < ds.len() implies holds_digest(start, #[trigger] ds[p])
                || has_chunk(pool, ds[p]) by {
                lemma_none_missing(pool, start, ds, p);
            }
        }
        Ok(())
    }

    /// The file at a path below the base directory.
    fn file_by_path(&self, path: &Vec<char>) -> (r: Option<FileContent>)
        requires
            self.wf(),
        ensures
            match file_at(self@.namespace, path@) {
                Some(c) => r is Some && r->0@ == c,
                None => r is None,
            },
    {
        let parent: Vec<char> = match parent_chars(path) {
            Some(p) => p,
            None => Vec::new(),
        };
        let name = string_of(&file_name_chars(path));
        match parse_snapshot_chars(&parent) {
            Ok(dir) => match self.inner.namespace.load_file(&dir, name.as_str()) {
                Ok(content) => {
                    return Some(content);
                },
                Err(_) => {},
            },
            Err(_) => {},
        }
        self.inner.namespace.load_stray(string_of(path).as_str())
    }

    /// Opens the index file at a path below the base directory.
    ///
    /// Fails with `InvalidInput` where the name is not that of an index
    /// file, with `NotFound` without the file, and with `Corrupt` where the
    /// file does not hold an index of the kind that its name promises.
    pub fn open_index(&self, filename: &str) -> (r: Result<IndexData, Error>)
        requires
            self.wf(),
        ensures
            match open_index_result(self@.namespace, filename@) {
                Ok(index) => r is Ok && r->Ok_0@ == index,
                Err(e) => r matches Err(x) && x == e,
            },
    {
        let chars = to_chars(filename);
        let kind = match archive_type_chars(&chars) {
            Ok(ArchiveType::FixedIndex) => ArchiveType::FixedIndex,
            Ok(ArchiveType::DynamicIndex) => ArchiveType::DynamicIndex,
            _ => {
                return Err(Error::InvalidInput);
            },
        };
        match self.file_by_path(&chars) {
            None => Err(Error::NotFound),
            Some(FileContent::Index(index)) => {
                let fixed: bool = match &index {
                    IndexData::Fixed(_) => true,
                    IndexData::Dynamic(_) => false,
                };
                let wants_fixed: bool = match kind {
                    ArchiveType::FixedIndex => true,
                    _ => false,
                };
                if fixed == wants_fixed {
                    Ok(index)
                } else {
                    Err(Error::Corrupt)
                }
            },
            Some(_) => Err(Error::Corrupt),
        }
    }

    /// Opens the fixed index at a path below the base directory. Fails with
    /// `NotFound` without the file and with `Corrupt` where the file does
    /// not hold a fixed index.
    pub fn open_fixed_reader(&self, filename: &str) -> (r: Result<
        crate::index::FixedIndexReader,
        Error,
    >)
        requires
            self.wf(),
        ensures
            match file_at(self@.namespace, filename@) {
                None => r matches Err(e) && e == Error::NotFound,
                Some(ContentView::Index(index)) => if index.fixed {
                    r is Ok && r->Ok_0.digests() == index.digests
                } else {
                    r matches Err(e) && e == Error::Corrupt
                },
                Some(_) => r matches Err(e) && e == Error::Corrupt,
            },
    {
        let chars = to_chars(filename);
        match self.file_by_path(&chars) {
            None => Err(Error::NotFound),
            Some(FileContent::Index(IndexData::Fixed(index))) => Ok(index),
            Some(_) => Err(Error::Corrupt),
        }
    }

    /// Opens the dynamic index at a path below the base directory. Fails
    /// with `NotFound` without the file and with `Corrupt` where the file
    /// does not hold a dynamic index.
    pub fn open_dynamic_reader(&self, filename: &str) -> (r: Result<
        crate::index::DynamicIndexReader,
        Error,
    >)
        requires
            self.wf(),
        ensures
            match file_at(self@.namespace, filename@) {
                None => r matches Err(e) && e == Error::NotFound,
                Some(ContentView::Index(index)) => if !index.fixed {
                    r is Ok && r->Ok_0.digests() == index.digests
                } else {
                    r matches Err(e) && e == Error::Corrupt
                },
                Some(_) => r matches Err(e) && e == Error::Corrupt,
            },
    {
        let chars = to_chars(filename);
        match self.file_by_path(&chars) {
            None => Err(Error::NotFound),
            Some(FileContent::Index(IndexData::Dynamic(index))) => Ok(index),
            Some(_) => Err(Error::Corrupt),
        }
    }
}

} // verus!
