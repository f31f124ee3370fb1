//! What can go wrong in the datastore.

use vstd::prelude::*;

verus! {

/// Why a lock that does not wait could not be had.
#[derive(Clone, Copy, Debug, PartialEq, Eq, Structural)]
pub enum LockReason {
    /// A backup group is locked by a backup that is still running.
    BackupRunning,
    /// A snapshot that was to be created is already in use.
    SnapshotInUse,
    /// A snapshot is locked by someone who may be running or using it.
    PossiblyInUse,
    /// A group that was to be destroyed may have a running backup.
    PossiblyRunningBackup,
    /// The chunk store's process lock is held in a way that excludes the
    /// wanted one.
    ChunkStore,
}

/// The kinds of failure of the datastore.
#[derive(Clone, Copy, Debug, PartialEq, Eq, Structural)]
pub enum Error {
    /// No datastore of that name is configured.
    ConfigMissing,
    /// The maintenance mode of the datastore forbids the operation.
    MaintenanceMode,
    /// A lock that does not wait is held by another operation.
    LockContended(LockReason),
    /// The manifest lock was not released in time.
    LockTimeout,
    /// A chunk, group, snapshot or file is absent.
    NotFound,
    /// A manifest or an index cannot be read as what it should be.
    Corrupt,
    /// The file system refused an operation.
    IoError,
    /// A protected snapshot was to be deleted.
    ProtectedSnapshot,
    /// Garbage collection is already running on this datastore.
    AlreadyRunning,
    /// The task was asked to abort.
    AbortRequested,
    /// The server is shutting down.
    ShuttingDown,
    /// A name, a path or a setting is not of the form it must have.
    InvalidInput,
    /// The backup belongs to someone else.
    OwnerCheckFailed,
    /// A configuration file was changed by someone else in the meantime.
    ConfigModified,
}

/// The words that go with a lock reason.
pub open spec fn lock_reason_text(reason: LockReason) -> Seq<char> {
    match reason {
        LockReason::BackupRunning => "another backup is already running"@,
        LockReason::SnapshotInUse =>
            "internal error - tried creating snapshot that's already in use"@,
        LockReason::PossiblyInUse => "possibly running or in use"@,
        LockReason::PossiblyRunningBackup => "possible running backup"@,
        LockReason::ChunkStore => "chunk store is locked"@,
    }
}

impl LockReason {
    /// The human-readable reason.
    pub fn message(&self) -> (s: &'static str)
        ensures
            s@ == lock_reason_text(*self),
    {
        match self {
            LockReason::BackupRunning => "another backup is already running",
            LockReason::SnapshotInUse =>
                "internal error - tried creating snapshot that's already in use",
            LockReason::PossiblyInUse => "possibly running or in use",
            LockReason::PossiblyRunningBackup => "possible running backup",
            LockReason::ChunkStore => "chunk store is locked",
        }
    }
}

} // verus!
