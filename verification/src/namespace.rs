//! The snapshot namespace: backup groups, their owners, their snapshots and
//! the files of each snapshot, with the locks on groups and snapshots.
//!
//! Every operation is described by two functions on the namespace as
//! contracts see it: what the operation answers, and what it leaves.

use vstd::prelude::*;
use vstd::string::StringExecFns;
use crate::api_types::{
    group_path_text, parse_snapshot_chars, parse_snapshot_spec, snapshot_path_text, BackupDir,
    BackupDirView, BackupGroup, BackupGroupView, BackupType,
};
use crate::manifest::{archive_type_chars, archive_type_spec, is_index_path, parent_chars, parent_of, ArchiveType};
use crate::rfc3339::{epoch_to_rfc3339_utc, format_rfc3339_spec};
use crate::text::{split, split_spec, views};
use crate::auth::{
    authid_text, lemma_authid_round_trip, lemma_id_chars, parse_authid_spec, valid_authid, Authid,
    AuthidView, is_name_char,
};
use crate::chunk_store::DataBlob;
use crate::error::{Error, LockReason};
use crate::index::{IndexData, IndexView};
use crate::manifest::{
    BackupManifest, ManifestView, CLIENT_LOG_BLOB_NAME, MANIFEST_BLOB_NAME, PROTECTED_MARKER_NAME,
};
use crate::text::{
    is_space, is_whitespace, last_index_of, lemma_last_index_of, push_char, string_of, sub_chars,
    to_chars, trim_end_spec,
};

verus! {

/// What a file of a snapshot holds.
pub enum FileContent {
    Blob(DataBlob),
    Manifest(BackupManifest),
    Index(IndexData),
}

/// What a file of a snapshot holds, as contracts see it.
pub enum ContentView {
    Blob(Seq<u8>),
    Manifest(ManifestView),
    Index(IndexView),
}

impl View for FileContent {
    type V = ContentView;

    open spec fn view(&self) -> ContentView {
        match self {
            FileContent::Blob(b) => ContentView::Blob(b@),
            FileContent::Manifest(m) => ContentView::Manifest(m@),
            FileContent::Index(i) => ContentView::Index(i@),
        }
    }
}

impl FileContent {
    /// A copy of the content.
    pub fn duplicate(&self) -> (c: FileContent)
        ensures
            c@ == self@,
    {
        match self {
            FileContent::Blob(b) => FileContent::Blob(DataBlob::from_raw(b.raw_data().clone())),
            FileContent::Manifest(m) => FileContent::Manifest(m.duplicate()),
            FileContent::Index(i) => FileContent::Index(i.duplicate()),
        }
    }
}

/// A file of a snapshot.
pub struct SnapshotFile {
    pub name: String,
    pub content: FileContent,
}

/// A file of a snapshot, as contracts see it.
pub struct SnapshotFileView {
    pub name: Seq<char>,
    pub content: ContentView,
}

impl View for SnapshotFile {
    type V = SnapshotFileView;

    open spec fn view(&self) -> SnapshotFileView {
        SnapshotFileView { name: self.name@, content: self.content@ }
    }
}

/// A snapshot directory.
pub struct Snapshot {
    pub time: i64,
    pub files: Vec<SnapshotFile>,
    /// Whether the directory lock is held.
    pub locked: bool,
    /// Whether the manifest lock is held.
    pub manifest_locked: bool,
}

/// A snapshot directory, as contracts see it.
pub struct SnapshotView {
    pub time: i64,
    pub files: Seq<SnapshotFileView>,
    pub locked: bool,
    pub manifest_locked: bool,
}

/// The views of a list of files.
pub open spec fn snapshot_file_views(files: Seq<SnapshotFile>) -> Seq<SnapshotFileView> {
    Seq::new(files.len(), |i: int| files[i]@)
}

impl View for Snapshot {
    type V = SnapshotView;

    open spec fn view(&self) -> SnapshotView {
        SnapshotView {
            time: self.time,
            files: snapshot_file_views(self.files@),
            locked: self.locked,
            manifest_locked: self.manifest_locked,
        }
    }
}

/// A group directory.
pub struct Group {
    pub ty: BackupType,
    pub id: String,
    /// What the `owner` file holds, if there is one.
    pub owner: Option<String>,
    /// Whether the directory lock is held.
    pub locked: bool,
    pub snapshots: Vec<Snapshot>,
}

/// A group directory, as contracts see it.
pub struct GroupView {
    pub ty: BackupType,
    pub id: Seq<char>,
    pub owner: Option<Seq<char>>,
    pub locked: bool,
    pub snapshots: Seq<SnapshotView>,
}

/// The views of a list of snapshots.
pub open spec fn snapshot_views(snapshots: Seq<Snapshot>) -> Seq<SnapshotView> {
    Seq::new(snapshots.len(), |i: int| snapshots[i]@)
}

impl View for Group {
    type V = GroupView;

    open spec fn view(&self) -> GroupView {
        GroupView {
            ty: self.ty,
            id: self.id@,
            owner: match self.owner {
                Some(o) => Some(o@),
                None => None,
            },
            locked: self.locked,
            snapshots: snapshot_views(self.snapshots@),
        }
    }
}

/// The views of a list of groups.
pub open spec fn group_views(groups: Seq<Group>) -> Seq<GroupView> {
    Seq::new(groups.len(), |i: int| groups[i]@)
}

/// The namespace, as contracts see it: the groups in the order in which
/// they were made, and the index files that lie outside the scheme
/// `<type>/<id>/<timestamp>/`, each under its path.
pub struct NamespaceView {
    pub groups: Seq<GroupView>,
    pub strays: Seq<SnapshotFileView>,
}

/// The place of the file `name`, if there is one.
pub open spec fn file_index(files: Seq<SnapshotFileView>, name: Seq<char>) -> Option<int> {
    if exists|i: int| 0 <= i < files.len() && files[i].name == name {
        Some(choose|i: int| 0 <= i < files.len() && files[i].name == name)
    } else {
        None
    }
}

/// The place of the snapshot of `time`, if there is one.
pub open spec fn snapshot_index(snapshots: Seq<SnapshotView>, time: i64) -> Option<int> {
    if exists|i: int| 0 <= i < snapshots.len() && snapshots[i].time == time {
        Some(choose|i: int| 0 <= i < snapshots.len() && snapshots[i].time == time)
    } else {
        None
    }
}

/// The place of the group of this type and id, if there is one.
pub open spec fn group_index(groups: Seq<GroupView>, ty: BackupType, id: Seq<char>) -> Option<int> {
    if exists|i: int| 0 <= i < groups.len() && groups[i].ty == ty && groups[i].id == id {
        Some(choose|i: int| 0 <= i < groups.len() && groups[i].ty == ty && groups[i].id == id)
    } else {
        None
    }
}

/// No two files have the same name.
pub open spec fn files_distinct(files: Seq<SnapshotFileView>) -> bool {
    forall|i: int, j: int|
        0 <= i < files.len() && 0 <= j < files.len() && i != j ==> files[i].name != files[j].name
}

/// No two snapshots have the same time.
pub open spec fn snapshots_distinct(snapshots: Seq<SnapshotView>) -> bool {
    forall|i: int, j: int|
        0 <= i < snapshots.len() && 0 <= j < snapshots.len() && i != j ==> snapshots[i].time
            != snapshots[j].time
}

/// No two groups have the same type and id.
pub open spec fn groups_distinct(groups: Seq<GroupView>) -> bool {
    forall|i: int, j: int|
        0 <= i < groups.len() && 0 <= j < groups.len() && i != j ==> !(groups[i].ty
            == groups[j].ty && groups[i].id == groups[j].id)
}

/// What has to hold of a group: no two snapshots of one time, no two files
/// of one name in a snapshot.
pub open spec fn group_wf(g: GroupView) -> bool {
    &&& snapshots_distinct(g.snapshots)
    &&& forall|i: int| 0 <= i < g.snapshots.len() ==> files_distinct((#[trigger] g.snapshots[i]).files)
}

/// What has to hold of a namespace: no two groups of one name, and every
/// group as it has to be.
pub open spec fn ns_wf(ns: NamespaceView) -> bool {
    &&& groups_distinct(ns.groups)
    &&& forall|i: int| 0 <= i < ns.groups.len() ==> group_wf(#[trigger] ns.groups[i])
    &&& files_distinct(ns.strays)
}

/// In a list without double names, a file's name tells its place.
pub proof fn lemma_file_index(files: Seq<SnapshotFileView>, i: int)
    requires
        files_distinct(files),
        0 <= i < files.len(),
    ensures
        file_index(files, files[i].name) == Some(i),
{
}

/// In a list without double times, a snapshot's time tells its place.
pub proof fn lemma_snapshot_index(snapshots: Seq<SnapshotView>, i: int)
    requires
        snapshots_distinct(snapshots),
        0 <= i < snapshots.len(),
    ensures
        snapshot_index(snapshots, snapshots[i].time) == Some(i),
{
}

/// In a list without double names, a group's name tells its place.
pub proof fn lemma_group_index(groups: Seq<GroupView>, i: int)
    requires
        groups_distinct(groups),
        0 <= i < groups.len(),
    ensures
        group_index(groups, groups[i].ty, groups[i].id) == Some(i),
{
}

/// A namespace with one group exchanged for a group of the same name is a
/// namespace.
pub proof fn lemma_update_group(ns: NamespaceView, i: int, g: GroupView)
    requires
        ns_wf(ns),
        0 <= i < ns.groups.len(),
        g.ty == ns.groups[i].ty,
        g.id == ns.groups[i].id,
        group_wf(g),
    ensures
        ns_wf(NamespaceView { groups: ns.groups.update(i, g), ..ns }),
        forall|ty: BackupType, id: Seq<char>|
            #[trigger] group_index(ns.groups.update(i, g), ty, id) == group_index(ns.groups, ty, id),
{
    let after = ns.groups.update(i, g);
    assert forall|a: int, b: int|
        0 <= a < after.len() && 0 <= b < after.len() && a != b implies !(after[a].ty == after[b].ty
        && after[a].id == after[b].id) by {
        assert(after[a].ty == ns.groups[a].ty && after[a].id == ns.groups[a].id);
        assert(after[b].ty == ns.groups[b].ty && after[b].id == ns.groups[b].id);
    }
    assert forall|k: int| 0 <= k < after.len() implies group_wf(#[trigger] after[k]) by {
        if k != i {
            assert(after[k] == ns.groups[k]);
        }
    }
    assert forall|ty: BackupType, id: Seq<char>| #[trigger]
        group_index(after, ty, id) == group_index(ns.groups, ty, id) by {
        if group_index(ns.groups, ty, id) is Some {
            let k = group_index(ns.groups, ty, id)->0;
            assert(after[k].ty == ty && after[k].id == id);
            lemma_group_index(after, k);
        }
        if group_index(after, ty, id) is Some {
            let k = group_index(after, ty, id)->0;
            assert(ns.groups[k].ty == ty && ns.groups[k].id == id);
            lemma_group_index(ns.groups, k);
        }
    }
}

/// A group with one snapshot exchanged for a snapshot of the same time is
/// a group.
pub proof fn lemma_update_snapshot(g: GroupView, i: int, s: SnapshotView)
    requires
        group_wf(g),
        0 <= i < g.snapshots.len(),
        s.time == g.snapshots[i].time,
        files_distinct(s.files),
    ensures
        group_wf(GroupView { snapshots: g.snapshots.update(i, s), ..g }),
{
    let after = g.snapshots.update(i, s);
    assert forall|a: int, b: int|
        0 <= a < after.len() && 0 <= b < after.len() && a != b implies after[a].time
        != after[b].time by {
        assert(after[a].time == g.snapshots[a].time);
        assert(after[b].time == g.snapshots[b].time);
    }
    assert forall|k: int| 0 <= k < after.len() implies files_distinct((#[trigger] after[k]).files) by {
        if k != i {
            assert(after[k] == g.snapshots[k]);
        }
    }
}

/// A group without one of its snapshots is a group.
pub proof fn lemma_remove_snapshot(g: GroupView, i: int)
    requires
        group_wf(g),
        0 <= i < g.snapshots.len(),
    ensures
        group_wf(GroupView { snapshots: g.snapshots.remove(i), ..g }),
        snapshot_index(g.snapshots.remove(i), g.snapshots[i].time) is None,
{
    let after = g.snapshots.remove(i);
    assert forall|a: int, b: int|
        0 <= a < after.len() && 0 <= b < after.len() && a != b implies after[a].time
        != after[b].time by {
        let oa = if a < i { a } else { a + 1 };
        let ob = if b < i { b } else { b + 1 };
        assert(after[a] == g.snapshots[oa]);
        assert(after[b] == g.snapshots[ob]);
    }
    assert forall|k: int| 0 <= k < after.len() implies files_distinct((#[trigger] after[k]).files) by {
        let ok = if k < i { k } else { k + 1 };
        assert(after[k] == g.snapshots[ok]);
    }
    assert forall|k: int| 0 <= k < after.len() implies after[k].time != g.snapshots[i].time by {
        let ok = if k < i { k } else { k + 1 };
        assert(after[k] == g.snapshots[ok]);
    }
}

/// A namespace without one of its groups is a namespace.
pub proof fn lemma_remove_group(ns: NamespaceView, i: int)
    requires
        ns_wf(ns),
        0 <= i < ns.groups.len(),
    ensures
        ns_wf(NamespaceView { groups: ns.groups.remove(i), ..ns }),
        group_index(ns.groups.remove(i), ns.groups[i].ty, ns.groups[i].id) is None,
{
    let after = ns.groups.remove(i);
    assert forall|a: int, b: int|
        0 <= a < after.len() && 0 <= b < after.len() && a != b implies !(after[a].ty == after[b].ty
        && after[a].id == after[b].id) by {
        let oa = if a < i { a } else { a + 1 };
        let ob = if b < i { b } else { b + 1 };
        assert(after[a] == ns.groups[oa]);
        assert(after[b] == ns.groups[ob]);
    }
    assert forall|k: int| 0 <= k < after.len() implies group_wf(#[trigger] after[k]) by {
        let ok = if k < i { k } else { k + 1 };
        assert(after[k] == ns.groups[ok]);
    }
    assert forall|k: int| 0 <= k < after.len() implies !(after[k].ty == ns.groups[i].ty
        && after[k].id == ns.groups[i].id) by {
        let ok = if k < i { k } else { k + 1 };
        assert(after[k] == ns.groups[ok]);
    }
}

/// The first line of a text, without the line feed.
pub open spec fn first_line_spec(s: Seq<char>) -> Seq<char>
    decreases s.len(),
{
    if s.len() == 0 || s[0] == '\n' {
        Seq::<char>::empty()
    } else {
        seq![s[0]] + first_line_spec(s.drop_first())
    }
}

/// What the `owner` file of a group holds for an owner: the owner's text
/// and a line feed.
pub open spec fn owner_file_text(a: AuthidView) -> Seq<char> {
    authid_text(a).push('\n')
}

/// The identity that the text of an `owner` file stands for: what its
/// first line, without white space at the end, stands for.
pub open spec fn owner_of_text(text: Seq<char>) -> Option<AuthidView> {
    parse_authid_spec(trim_end_spec(first_line_spec(text)))
}

/// The owner of a group: `NotFound` without an `owner` file, `InvalidInput`
/// where the file does not hold an identity.
pub open spec fn owner_of(g: GroupView) -> Result<AuthidView, Error> {
    match g.owner {
        None => Err(Error::NotFound),
        Some(text) => match owner_of_text(text) {
            Some(a) => Ok(a),
            None => Err(Error::InvalidInput),
        },
    }
}

/// The first line of a text that has no line feed before its end is the
/// text.
pub proof fn lemma_first_line(t: Seq<char>)
    requires
        forall|i: int| 0 <= i < t.len() ==> t[i] != '\n',
    ensures
        first_line_spec(t.push('\n')) == t,
    decreases t.len(),
{
    let s = t.push('\n');
    if t.len() == 0 {
        assert(s[0] == '\n');
        assert(first_line_spec(s) =~= t);
    } else {
        assert(s[0] == t[0]);
        assert(s.drop_first() =~= t.drop_first().push('\n'));
        assert forall|i: int| 0 <= i < t.drop_first().len() implies t.drop_first()[i] != '\n' by {
            assert(t.drop_first()[i] == t[i + 1]);
        }
        lemma_first_line(t.drop_first());
        assert(seq![t[0]] + t.drop_first() =~= t);
    }
}

/// No character of the text of an identity is a line feed, and the text
/// does not end in white space.
pub proof fn lemma_authid_text_chars(a: AuthidView)
    requires
        valid_authid(a),
    ensures
        forall|i: int| 0 <= i < authid_text(a).len() ==> authid_text(a)[i] != '\n',
        authid_text(a).len() > 0,
        !is_space(authid_text(a).last()),
{
    let u = a.user;
    lemma_last_index_of(u, '@');
    let p = last_index_of(u, '@')->0;
    let realm = u.skip(p + 1);
    assert forall|i: int| 0 <= i < u.len() implies u[i] != '\n' && (i > p ==> !is_space(u[i])) by {
        if i < p {
            assert(is_name_char(u[i]));
        } else if i > p {
            assert(realm[i - p - 1] == u[i]);
            crate::api_types::lemma_id_char_code(realm, i - p - 1);
        }
    }
    assert(realm.len() >= 1);
    match a.tokenname {
        None => {},
        Some(t) => {
            let s = authid_text(a);
            let n = u.len() as int;
            assert forall|i: int| 0 <= i < s.len() implies s[i] != '\n' by {
                if i < n {
                    assert(s[i] == u[i]);
                } else if i > n {
                    assert(s[i] == t[i - n - 1]);
                    crate::api_types::lemma_id_char_code(t, i - n - 1);
                }
            }
            assert(s.last() == t[t.len() - 1]);
            crate::api_types::lemma_id_char_code(t, t.len() - 1);
        },
    }
}

/// The `owner` file that is written for an owner stands for that owner.
pub proof fn lemma_owner_round_trip(a: AuthidView)
    requires
        valid_authid(a),
    ensures
        owner_of_text(owner_file_text(a)) == Some(a),
{
    lemma_authid_text_chars(a);
    lemma_first_line(authid_text(a));
    lemma_authid_round_trip(a);
}


/// The proof of holding the lock of a group or snapshot directory.
#[derive(Debug)]
pub struct DirLockGuard {
    ty: BackupType,
    id: String,
    time: Option<i64>,
}

impl DirLockGuard {
    /// The group whose directory is locked, or whose snapshot is.
    pub closed spec fn group(&self) -> BackupGroupView {
        BackupGroupView { ty: self.ty, id: self.id@ }
    }

    /// The time of the snapshot whose directory is locked; `None` where the
    /// lock is that of the group directory.
    pub closed spec fn time(&self) -> Option<i64> {
        self.time
    }
}

/// What locking a group for a backup answers: the owner. A group that is
/// not there is made, with `auth` as its owner.
pub open spec fn lock_group_result(ns: NamespaceView, group: BackupGroupView, auth: AuthidView) -> Result<
    AuthidView,
    Error,
> {
    match group_index(ns.groups, group.ty, group.id) {
        None => Ok(auth),
        Some(i) => if ns.groups[i].locked {
            Err(Error::LockContended(LockReason::BackupRunning))
        } else {
            owner_of(ns.groups[i])
        },
    }
}

/// What locking a group for a backup leaves.
pub open spec fn lock_group_state(ns: NamespaceView, group: BackupGroupView, auth: AuthidView) -> NamespaceView {
    match group_index(ns.groups, group.ty, group.id) {
        None => NamespaceView {
            groups: ns.groups.push(
                GroupView {
                    ty: group.ty,
                    id: group.id,
                    owner: Some(owner_file_text(auth)),
                    locked: true,
                    snapshots: Seq::empty(),
                },
            ),
            ..ns
        },
        Some(i) => if lock_group_result(ns, group, auth) is Ok {
            NamespaceView {
                groups: ns.groups.update(i, GroupView { locked: true, ..ns.groups[i] }),
                ..ns
            }
        } else {
            ns
        },
    }
}

/// What locking a snapshot for a backup answers: whether the snapshot is
/// new. The group has to be there; the time has to have a text.
pub open spec fn lock_snapshot_result(ns: NamespaceView, dir: BackupDirView) -> Result<bool, Error> {
    if snapshot_path_text(dir.group.ty, dir.group.id, dir.time as int) is None {
        Err(Error::InvalidInput)
    } else {
        match group_index(ns.groups, dir.group.ty, dir.group.id) {
            None => Err(Error::NotFound),
            Some(gi) => match snapshot_index(ns.groups[gi].snapshots, dir.time) {
                None => Ok(true),
                Some(si) => if ns.groups[gi].snapshots[si].locked {
                    Err(Error::LockContended(LockReason::SnapshotInUse))
                } else {
                    Ok(false)
                },
            },
        }
    }
}

/// What locking a snapshot for a backup leaves.
pub open spec fn lock_snapshot_state(ns: NamespaceView, dir: BackupDirView) -> NamespaceView {
    match lock_snapshot_result(ns, dir) {
        Err(_) => ns,
        Ok(is_new) => {
            let gi = group_index(ns.groups, dir.group.ty, dir.group.id)->0;
            let g = ns.groups[gi];
            let snapshots = if is_new {
                g.snapshots.push(
                    SnapshotView {
                        time: dir.time,
                        files: Seq::empty(),
                        locked: true,
                        manifest_locked: false,
                    },
                )
            } else {
                let si = snapshot_index(g.snapshots, dir.time)->0;
                g.snapshots.update(si, SnapshotView { locked: true, ..g.snapshots[si] })
            };
            NamespaceView { groups: ns.groups.update(gi, GroupView { snapshots, ..g }), ..ns }
        },
    }
}

/// What giving a directory lock back leaves: the group or the snapshot, if
/// it is still there, is no longer locked.
pub open spec fn unlock_state(ns: NamespaceView, group: BackupGroupView, time: Option<i64>) -> NamespaceView {
    match group_index(ns.groups, group.ty, group.id) {
        None => ns,
        Some(gi) => {
            let g = ns.groups[gi];
            match time {
                None => NamespaceView {
                    groups: ns.groups.update(gi, GroupView { locked: false, ..g }),
                    ..ns
                },
                Some(t) => match snapshot_index(g.snapshots, t) {
                    None => ns,
                    Some(si) => NamespaceView {
                        groups: ns.groups.update(
                            gi,
                            GroupView {
                                snapshots: g.snapshots.update(
                                    si,
                                    SnapshotView { locked: false, ..g.snapshots[si] },
                                ),
                                ..g
                            },
                        ),
                        ..ns
                    },
                },
            }
        },
    }
}

/// What setting the owner of a group answers: `NotFound` without the
/// group, `IoError` where an `owner` file is there and `force` is not set.
pub open spec fn set_owner_result(ns: NamespaceView, group: BackupGroupView, force: bool) -> Result<
    (),
    Error,
> {
    match group_index(ns.groups, group.ty, group.id) {
        None => Err(Error::NotFound),
        Some(gi) => if !force && ns.groups[gi].owner is Some {
            Err(Error::IoError)
        } else {
            Ok(())
        },
    }
}

/// What setting the owner of a group leaves.
pub open spec fn set_owner_state(
    ns: NamespaceView,
    group: BackupGroupView,
    auth: AuthidView,
    force: bool,
) -> NamespaceView {
    match set_owner_result(ns, group, force) {
        Err(_) => ns,
        Ok(_) => {
            let gi = group_index(ns.groups, group.ty, group.id)->0;
            NamespaceView {
                groups: ns.groups.update(
                    gi,
                    GroupView { owner: Some(owner_file_text(auth)), ..ns.groups[gi] },
                ),
                ..ns
            }
        },
    }
}

/// What asking for the owner of a group answers.
pub open spec fn get_owner_result(ns: NamespaceView, group: BackupGroupView) -> Result<
    AuthidView,
    Error,
> {
    match group_index(ns.groups, group.ty, group.id) {
        None => Err(Error::NotFound),
        Some(gi) => owner_of(ns.groups[gi]),
    }
}

/// Owner persistence: after the owner of a group was set, asking for the
/// owner gives that owner. With `force` the owner can always be set on a
/// group that is there; without it, setting fails where an `owner` file is
/// there, and changes nothing.
pub proof fn law_owner_persistence(
    ns: NamespaceView,
    group: BackupGroupView,
    auth: AuthidView,
    force: bool,
)
    requires
        ns_wf(ns),
        valid_authid(auth),
    ensures
        set_owner_result(ns, group, force) is Ok ==> get_owner_result(
            set_owner_state(ns, group, auth, force),
            group,
        ) == Ok::<AuthidView, Error>(auth),
        force && group_index(ns.groups, group.ty, group.id) is Some ==> set_owner_result(
            ns,
            group,
            force,
        ) is Ok,
        !force && get_owner_result(ns, group) is Ok ==> set_owner_result(ns, group, force) is Err
            && set_owner_state(ns, group, auth, force) == ns,
{
    if set_owner_result(ns, group, force) is Ok {
        let gi = group_index(ns.groups, group.ty, group.id)->0;
        let g = GroupView { owner: Some(owner_file_text(auth)), ..ns.groups[gi] };
        lemma_update_group(ns, gi, g);
        lemma_owner_round_trip(auth);
        lemma_group_index(ns.groups, gi);
    }
}

/// Lock exclusion: from the moment a snapshot was locked for a backup,
/// locking it again fails with `LockContended`; once the lock was given
/// back, the snapshot, which is no longer new, can be locked again.
pub proof fn law_lock_exclusion(ns: NamespaceView, dir: BackupDirView)
    requires
        ns_wf(ns),
        lock_snapshot_result(ns, dir) is Ok,
    ensures
        lock_snapshot_result(lock_snapshot_state(ns, dir), dir) == Err::<bool, Error>(
            Error::LockContended(LockReason::SnapshotInUse),
        ),
        lock_snapshot_result(
            unlock_state(lock_snapshot_state(ns, dir), dir.group, Some(dir.time)),
            dir,
        ) == Ok::<bool, Error>(false),
{
    lemma_lock_snapshot(ns, dir);
    let locked = lock_snapshot_state(ns, dir);
    let gi = group_index(ns.groups, dir.group.ty, dir.group.id)->0;
    let g = locked.groups[gi];
    let si = snapshot_index(g.snapshots, dir.time)->0;
    let s = SnapshotView { locked: false, ..g.snapshots[si] };
    lemma_wf_parts(locked, gi, si);
    lemma_update_snapshot(g, si, s);
    let g2 = GroupView { snapshots: g.snapshots.update(si, s), ..g };
    lemma_update_group(locked, gi, g2);
    lemma_snapshot_index(g2.snapshots, si);
}

/// While a snapshot is locked, whatever else was done to the namespace,
/// locking it fails with `LockContended`.
pub proof fn law_locked_snapshot_refuses(ns: NamespaceView, dir: BackupDirView)
    requires
        ns_wf(ns),
        snapshot_path_text(dir.group.ty, dir.group.id, dir.time as int) is Some,
        locate(ns, dir) matches Some(at) && ns.groups[at.0].snapshots[at.1].locked,
    ensures
        lock_snapshot_result(ns, dir) == Err::<bool, Error>(
            Error::LockContended(LockReason::SnapshotInUse),
        ),
{
}

/// The parts of a namespace are as they have to be.
pub proof fn lemma_wf_parts(ns: NamespaceView, gi: int, si: int)
    requires
        ns_wf(ns),
        0 <= gi < ns.groups.len(),
        0 <= si < ns.groups[gi].snapshots.len(),
    ensures
        group_wf(ns.groups[gi]),
        files_distinct(ns.groups[gi].snapshots[si].files),
{
}

/// What locking a snapshot does: the namespace stays well-formed, and the
/// snapshot is there and locked.
pub proof fn lemma_lock_snapshot(ns: NamespaceView, dir: BackupDirView)
    requires
        ns_wf(ns),
        lock_snapshot_result(ns, dir) is Ok,
    ensures
        ns_wf(lock_snapshot_state(ns, dir)),
        group_index(lock_snapshot_state(ns, dir).groups, dir.group.ty, dir.group.id)
            == group_index(ns.groups, dir.group.ty, dir.group.id),
        ({
            let after = lock_snapshot_state(ns, dir);
            let gi = group_index(ns.groups, dir.group.ty, dir.group.id)->0;
            let si = snapshot_index(after.groups[gi].snapshots, dir.time);
            si is Some && after.groups[gi].snapshots[si->0].locked
        }),
{
    let gi = group_index(ns.groups, dir.group.ty, dir.group.id)->0;
    let g = ns.groups[gi];
    let after = lock_snapshot_state(ns, dir);
    let g2 = after.groups[gi];
    match snapshot_index(g.snapshots, dir.time) {
        None => {
            let k = g.snapshots.len() as int;
            assert(g2.snapshots[k].time == dir.time);
            assert forall|a: int, b: int|
                0 <= a < g2.snapshots.len() && 0 <= b < g2.snapshots.len() && a
                != b implies g2.snapshots[a].time != g2.snapshots[b].time by {
                if a < k {
                    assert(g2.snapshots[a] == g.snapshots[a]);
                }
                if b < k {
                    assert(g2.snapshots[b] == g.snapshots[b]);
                }
            }
            assert forall|i: int| 0 <= i < g2.snapshots.len() implies files_distinct(
                (#[trigger] g2.snapshots[i]).files,
            ) by {
                if i < k {
                    assert(g2.snapshots[i] == g.snapshots[i]);
                }
            }
            lemma_snapshot_index(g2.snapshots, k);
        },
        Some(si) => {
            lemma_update_snapshot(g, si, SnapshotView { locked: true, ..g.snapshots[si] });
            lemma_snapshot_index(g2.snapshots, si);
        },
    }
    lemma_update_group(ns, gi, g2);
}

/// The snapshot namespace of a datastore.
pub struct Namespace {
    groups: Vec<Group>,
    strays: Vec<SnapshotFile>,
}

impl View for Namespace {
    type V = NamespaceView;

    closed spec fn view(&self) -> NamespaceView {
        NamespaceView { groups: group_views(self.groups@), strays: snapshot_file_views(self.strays@) }
    }
}

/// The place of the file `name` in a list of files.
fn find_file(files: &Vec<SnapshotFile>, name: &str) -> (r: Option<usize>)
    requires
        files_distinct(snapshot_file_views(files@)),
    ensures
        r is Some <==> file_index(snapshot_file_views(files@), name@) is Some,
        r matches Some(i) ==> file_index(snapshot_file_views(files@), name@) == Some(i as int) && i
            < files.len() && files@[i as int].name@ == name@,
{
    let wanted = String::from_str(name);
    let ghost views = snapshot_file_views(files@);
    let mut i: usize = 0;
    while i < files.len()
        invariant
            i <= files.len(),
            wanted@ == name@,
            views == snapshot_file_views(files@),
            files_distinct(views),
            forall|k: int| 0 <= k < i ==> views[k].name != name@,
        decreases files.len() - i,
    {
        if files[i].name == wanted {
            proof {
                assert(views[i as int].name == name@);
                lemma_file_index(views, i as int);
            }
            return Some(i);
        }
        i += 1;
    }
    None
}

/// The place of the snapshot of `time` in a list of snapshots.
fn find_snapshot(snapshots: &Vec<Snapshot>, time: i64) -> (r: Option<usize>)
    requires
        snapshots_distinct(snapshot_views(snapshots@)),
    ensures
        r is Some <==> snapshot_index(snapshot_views(snapshots@), time) is Some,
        r matches Some(i) ==> snapshot_index(snapshot_views(snapshots@), time) == Some(i as int)
            && i < snapshots.len() && snapshots@[i as int].time == time,
{
    let ghost views = snapshot_views(snapshots@);
    let mut i: usize = 0;
    while i < snapshots.len()
        invariant
            i <= snapshots.len(),
            views == snapshot_views(snapshots@),
            snapshots_distinct(views),
            forall|k: int| 0 <= k < i ==> views[k].time != time,
        decreases snapshots.len() - i,
    {
        if snapshots[i].time == time {
            proof {
                assert(views[i as int].time == time);
                lemma_snapshot_index(views, i as int);
            }
            return Some(i);
        }
        i += 1;
    }
    None
}

/// The first line of a text, without the line feed.
pub fn first_line(s: &Vec<char>) -> (line: Vec<char>)
    ensures
        line@ == first_line_spec(s@),
{
    let mut i: usize = 0;
    proof {
        assert(s@.take(0) + first_line_spec(s@.skip(0)) =~= first_line_spec(s@)) by {
            assert(s@.skip(0) =~= s@);
        }
    }
    while i < s.len() && s[i] != '\n'
        invariant
            i <= s.len(),
            first_line_spec(s@) == s@.take(i as int) + first_line_spec(s@.skip(i as int)),
        decreases s.len() - i,
    {
        proof {
            let rest = s@.skip(i as int);
            assert(rest[0] == s@[i as int]);
            assert(rest.drop_first() =~= s@.skip(i + 1));
            assert(s@.take(i + 1) =~= s@.take(i as int) + seq![s@[i as int]]);
            assert(s@.take(i as int) + (seq![s@[i as int]] + first_line_spec(s@.skip(i + 1)))
                =~= s@.take(i + 1) + first_line_spec(s@.skip(i + 1)));
        }
        i += 1;
    }
    proof {
        let rest = s@.skip(i as int);
        if i < s.len() {
            assert(rest[0] == s@[i as int]);
        }
        assert(first_line_spec(rest) =~= Seq::<char>::empty());
        assert(s@.take(i as int) + Seq::<char>::empty() =~= s@.take(i as int));
    }
    let line = sub_chars(s, 0, i);
    assert(line@ =~= s@.take(i as int));
    line
}

/// `s` without its trailing white space.
pub fn trim_end(s: &Vec<char>) -> (t: Vec<char>)
    ensures
        t@ == trim_end_spec(s@),
{
    let mut j: usize = s.len();
    proof {
        assert(s@.take(j as int) =~= s@);
    }
    while j > 0 && is_whitespace(s[j - 1])
        invariant
            j <= s.len(),
            trim_end_spec(s@) == trim_end_spec(s@.take(j as int)),
        decreases j,
    {
        proof {
            let t = s@.take(j as int);
            assert(t.last() == s@[j - 1]);
            assert(t.drop_last() =~= s@.take(j - 1));
        }
        j -= 1;
    }
    proof {
        let t = s@.take(j as int);
        if j > 0 {
            assert(t.last() == s@[j - 1]);
        }
    }
    let t = sub_chars(s, 0, j);
    assert(t@ =~= s@.take(j as int));
    t
}

/// The owner that the `owner` file of a group names.
fn read_owner(group: &Group) -> (r: Result<Authid, Error>)
    ensures
        match owner_of(group@) {
            Ok(a) => r is Ok && r->Ok_0@ == a,
            Err(e) => r matches Err(x) && x == e,
        },
{
    match &group.owner {
        None => Err(Error::NotFound),
        Some(text) => read_owner_text(text.as_str()),
    }
}

/// The owner that the text of an `owner` file names: what its first line,
/// without white space at the end, stands for. Fails with `InvalidInput`
/// where that is no identity.
pub fn read_owner_text(text: &str) -> (r: Result<Authid, Error>)
    ensures
        match owner_of_text(text@) {
            Some(a) => r is Ok && r->Ok_0@ == a,
            None => r matches Err(e) && e == Error::InvalidInput,
        },
{
    let chars = to_chars(text);
    let line = first_line(&chars);
    let trimmed = trim_end(&line);
    Authid::parse_chars(&trimmed)
}

/// What is written into the `owner` file for an owner.
pub fn owner_file_content(auth_id: &Authid) -> (text: String)
    ensures
        text@ == owner_file_text(auth_id@),
{
    let mut text = auth_id.to_string();
    push_char(&mut text, '\n');
    text
}

impl Namespace {
    /// What holds of every namespace.
    pub open spec fn wf(&self) -> bool {
        ns_wf(self@)
    }

    /// A namespace without groups.
    pub fn new() -> (ns: Namespace)
        ensures
            ns.wf(),
            ns@.groups == Seq::<GroupView>::empty(),
            ns@.strays == Seq::<SnapshotFileView>::empty(),
    {
        let ns = Namespace { groups: Vec::new(), strays: Vec::new() };
        assert(ns@.groups =~= Seq::<GroupView>::empty());
        assert(ns@.strays =~= Seq::<SnapshotFileView>::empty());
        ns
    }

    /// The place of a group.
    fn find_group(&self, ty: BackupType, id: &String) -> (r: Option<usize>)
        requires
            self.wf(),
        ensures
            r is Some <==> group_index(self@.groups, ty, id@) is Some,
            r matches Some(i) ==> group_index(self@.groups, ty, id@) == Some(i as int) && i
                < self.groups.len() && self.groups@[i as int]@ == self@.groups[i as int],
    {
        let mut i: usize = 0;
        while i < self.groups.len()
            invariant
                i <= self.groups.len(),
                self.wf(),
                forall|k: int| 0 <= k < i ==> !(self@.groups[k].ty == ty && self@.groups[k].id == id@),
            decreases self.groups.len() - i,
        {
            if self.groups[i].ty == ty && self.groups[i].id == *id {
                proof {
                    assert(self@.groups[i as int].ty == ty && self@.groups[i as int].id == id@);
                    lemma_group_index(self@.groups, i as int);
                }
                return Some(i);
            }
            i += 1;
        }
        None
    }

    /// Puts `group` in the place `i`, from which a group of the same name
    /// was taken.
    fn put_group(&mut self, i: usize, group: Group, Ghost(before): Ghost<NamespaceView>)
        requires
            ns_wf(before),
            i < before.groups.len(),
            old(self)@.groups == before.groups.remove(i as int),
            old(self)@.strays == before.strays,
            group@.ty == before.groups[i as int].ty,
            group@.id == before.groups[i as int].id,
            group_wf(group@),
        ensures
            final(self)@ == (NamespaceView {
                groups: before.groups.update(i as int, group@),
                ..before
            }),
            final(self).wf(),
    {
        let ghost taken = self@.groups;
        proof {
            assert(taken.len() == self.groups@.len());
            assert(taken.len() == before.groups.len() - 1);
        }
        let ghost gv = group@;
        self.groups.insert(i, group);
        proof {
            let after = self@.groups;
            let want = before.groups.update(i as int, gv);
            assert(after.len() == want.len());
            assert forall|k: int| 0 <= k < after.len() implies after[k] == want[k] by {
                if k < i {
                    assert(after[k] == taken[k]);
                    assert(taken[k] == before.groups[k]);
                } else if k > i {
                    assert(after[k] == taken[k - 1]);
                    assert(taken[k - 1] == before.groups[k]);
                }
            }
            assert(after =~= want);
            lemma_update_group(before, i as int, gv);
        }
    }

    /// Makes the group, if it is not there, with `auth_id` as its owner, and
    /// locks its directory for a backup.
    ///
    /// The answer is the owner of the group and the lock. Fails with
    /// `LockContended` while the group is locked, and with the failure of
    /// reading the owner where the group is there without a readable
    /// `owner` file; a failure leaves the namespace as it was.
    pub fn create_locked_backup_group(&mut self, backup_group: &BackupGroup, auth_id: &Authid) -> (r:
        Result<(Authid, DirLockGuard), Error>)
        requires
            old(self).wf(),
        ensures
            final(self).wf(),
            final(self)@ == lock_group_state(old(self)@, backup_group@, auth_id@),
            match lock_group_result(old(self)@, backup_group@, auth_id@) {
                Ok(owner) => r is Ok && r->Ok_0.0@ == owner && r->Ok_0.1.group() == backup_group@
                    && r->Ok_0.1.time() is None,
                Err(e) => r matches Err(x) && x == e,
            },
    {
        let ghost before = self@;
        match self.find_group(backup_group.ty, &backup_group.id) {
            None => {
                let group = Group {
                    ty: backup_group.ty,
                    id: backup_group.id.clone(),
                    owner: Some(owner_file_content(auth_id)),
                    locked: true,
                    snapshots: Vec::new(),
                };
                proof {
                    assert(group@.snapshots =~= Seq::<SnapshotView>::empty());
                }
                let ghost gv = group@;
                self.groups.push(group);
                proof {
                    let after = self@;
                    assert(after.groups =~= before.groups.push(gv));
                    assert forall|a: int, b: int|
                        0 <= a < after.groups.len() && 0 <= b < after.groups.len() && a
                        != b implies !(after.groups[a].ty == after.groups[b].ty
                        && after.groups[a].id == after.groups[b].id) by {
                        if a < before.groups.len() {
                            assert(after.groups[a] == before.groups[a]);
                        }
                        if b < before.groups.len() {
                            assert(after.groups[b] == before.groups[b]);
                        }
                    }
                    assert forall|k: int| 0 <= k < after.groups.len() implies group_wf(
                        #[trigger] after.groups[k],
                    ) by {
                        if k < before.groups.len() {
                            assert(after.groups[k] == before.groups[k]);
                        }
                    }
                }
                let guard = DirLockGuard {
                    ty: backup_group.ty,
                    id: backup_group.id.clone(),
                    time: None,
                };
                Ok((auth_id.duplicate(), guard))
            },
            Some(i) => {
                if self.groups[i].locked {
                    return Err(Error::LockContended(LockReason::BackupRunning));
                }
                let owner = read_owner(&self.groups[i])?;
                let mut group = self.groups.remove(i);
                proof {
                    assert(self@.groups =~= before.groups.remove(i as int));
                }
                group.locked = true;
                self.put_group(i, group, Ghost(before));
                let guard = DirLockGuard {
                    ty: backup_group.ty,
                    id: backup_group.id.clone(),
                    time: None,
                };
                Ok((owner, guard))
            },
        }
    }

    /// Makes the snapshot directory, if it is not there, and locks it for a
    /// backup. The group has to be there.
    ///
    /// The answer is the path of the snapshot below the base directory,
    /// whether the snapshot is new, and the lock. Fails with `InvalidInput`
    /// where the time has no text, with `NotFound` without the group, and
    /// with `LockContended` while the snapshot is locked; a failure leaves
    /// the namespace as it was.
    pub fn create_locked_backup_dir(&mut self, backup_dir: &BackupDir) -> (r: Result<
        (String, bool, DirLockGuard),
        Error,
    >)
        requires
            old(self).wf(),
        ensures
            final(self).wf(),
            final(self)@ == lock_snapshot_state(old(self)@, backup_dir@),
            match lock_snapshot_result(old(self)@, backup_dir@) {
                Ok(is_new) => r is Ok && r->Ok_0.1 == is_new && Some(r->Ok_0.0@)
                    == snapshot_path_text(
                    backup_dir@.group.ty,
                    backup_dir@.group.id,
                    backup_dir@.time as int,
                ) && r->Ok_0.2.group() == backup_dir@.group && r->Ok_0.2.time() == Some(
                    backup_dir@.time,
                ),
                Err(e) => r matches Err(x) && x == e,
            },
    {
        let ghost before = self@;
        let relative_path = backup_dir.to_string()?;
        let gi: usize = match self.find_group(backup_dir.group.ty, &backup_dir.group.id) {
            None => {
                return Err(Error::NotFound);
            },
            Some(gi) => gi,
        };
        proof {
            assert(group_wf(before.groups[gi as int]));
        }
        let found = find_snapshot(&self.groups[gi].snapshots, backup_dir.time);
        if let Some(si) = found {
            if self.groups[gi].snapshots[si].locked {
                assert(before.groups[gi as int].snapshots[si as int].locked);
                return Err(Error::LockContended(LockReason::SnapshotInUse));
            }
        }
        proof {
            lemma_lock_snapshot(before, backup_dir@);
        }
        let mut group = self.groups.remove(gi);
        proof {
            assert(self@.groups =~= before.groups.remove(gi as int));
        }
        let ghost old_snaps = snapshot_views(group.snapshots@);
        let is_new: bool = match found {
            None => {
                group.snapshots.push(
                    Snapshot {
                        time: backup_dir.time,
                        files: Vec::new(),
                        locked: true,
                        manifest_locked: false,
                    },
                );
                proof {
                    let fresh = SnapshotView {
                        time: backup_dir@.time,
                        files: Seq::empty(),
                        locked: true,
                        manifest_locked: false,
                    };
                    assert(group.snapshots@.last()@.files =~= Seq::<SnapshotFileView>::empty());
                    assert(snapshot_views(group.snapshots@) =~= old_snaps.push(fresh));
                }
                true
            },
            Some(si) => {
                let mut snapshot = group.snapshots.remove(si);
                snapshot.locked = true;
                group.snapshots.insert(si, snapshot);
                proof {
                    assert(snapshot_views(group.snapshots@) =~= old_snaps.update(
                        si as int,
                        SnapshotView { locked: true, ..old_snaps[si as int] },
                    ));
                }
                false
            },
        };
        proof {
            let want = lock_snapshot_state(before, backup_dir@);
            assert(group@ == want.groups[gi as int]);
            assert(group_wf(want.groups[gi as int]));
        }
        self.put_group(gi, group, Ghost(before));
        let guard = DirLockGuard {
            ty: backup_dir.group.ty,
            id: backup_dir.group.id.clone(),
            time: Some(backup_dir.time),
        };
        Ok((relative_path, is_new, guard))
    }

    /// Gives a directory lock back.
    pub fn unlock(&mut self, guard: DirLockGuard)
        requires
            old(self).wf(),
        ensures
            final(self).wf(),
            final(self)@ == unlock_state(old(self)@, guard.group(), guard.time()),
    {
        let ghost before = self@;
        let gi: usize = match self.find_group(guard.ty, &guard.id) {
            None => {
                return ;
            },
            Some(gi) => gi,
        };
        proof {
            assert(group_wf(before.groups[gi as int]));
        }
        match guard.time {
            None => {
                let mut group = self.groups.remove(gi);
                proof {
                    assert(self@.groups =~= before.groups.remove(gi as int));
                }
                group.locked = false;
                self.put_group(gi, group, Ghost(before));
            },
            Some(t) => {
                let si: usize = match find_snapshot(&self.groups[gi].snapshots, t) {
                    None => {
                        return ;
                    },
                    Some(si) => si,
                };
                let mut group = self.groups.remove(gi);
                proof {
                    assert(self@.groups =~= before.groups.remove(gi as int));
                }
                let ghost old_snaps = snapshot_views(group.snapshots@);
                let mut snapshot = group.snapshots.remove(si);
                snapshot.locked = false;
                group.snapshots.insert(si, snapshot);
                proof {
                    let s2 = SnapshotView { locked: false, ..old_snaps[si as int] };
                    assert(snapshot_views(group.snapshots@) =~= old_snaps.update(si as int, s2));
                    lemma_update_snapshot(before.groups[gi as int], si as int, s2);
                }
                self.put_group(gi, group, Ghost(before));
            },
        }
    }

    /// The owner of a group: who made the group's first backup.
    pub fn get_owner(&self, backup_group: &BackupGroup) -> (r: Result<Authid, Error>)
        requires
            self.wf(),
        ensures
            match get_owner_result(self@, backup_group@) {
                Ok(a) => r is Ok && r->Ok_0@ == a,
                Err(e) => r matches Err(x) && x == e,
            },
    {
        match self.find_group(backup_group.ty, &backup_group.id) {
            None => Err(Error::NotFound),
            Some(gi) => read_owner(&self.groups[gi]),
        }
    }

    /// Whether `auth_id` may act as the owner of the group.
    pub fn owns_backup(&self, backup_group: &BackupGroup, auth_id: &Authid) -> (r: Result<
        bool,
        Error,
    >)
        requires
            self.wf(),
        ensures
            match get_owner_result(self@, backup_group@) {
                Ok(a) => r == Ok::<bool, Error>(crate::auth::is_backup_owner(a, auth_id@)),
                Err(e) => r == Err::<bool, Error>(e),
            },
    {
        let owner = self.get_owner(backup_group)?;
        Ok(crate::auth::check_backup_owner(&owner, auth_id).is_ok())
    }

    /// Writes the `owner` file of a group. Without `force` the file must
    /// not be there yet.
    pub fn set_owner(&mut self, backup_group: &BackupGroup, auth_id: &Authid, force: bool) -> (r:
        Result<(), Error>)
        requires
            old(self).wf(),
        ensures
            final(self).wf(),
            r == set_owner_result(old(self)@, backup_group@, force),
            final(self)@ == set_owner_state(old(self)@, backup_group@, auth_id@, force),
    {
        let ghost before = self@;
        let gi: usize = match self.find_group(backup_group.ty, &backup_group.id) {
            None => {
                return Err(Error::NotFound);
            },
            Some(gi) => gi,
        };
        if !force && self.groups[gi].owner.is_some() {
            return Err(Error::IoError);
        }
        proof {
            assert(group_wf(before.groups[gi as int]));
        }
        let mut group = self.groups.remove(gi);
        proof {
            assert(self@.groups =~= before.groups.remove(gi as int));
        }
        group.owner = Some(owner_file_content(auth_id));
        self.put_group(gi, group, Ghost(before));
        Ok(())
    }
}


/// Whether a snapshot is protected: its directory holds the marker.
pub open spec fn is_protected(s: SnapshotView) -> bool {
    file_index(s.files, PROTECTED_MARKER_NAME@) is Some
}

/// Whether a snapshot may be destroyed. Without `force` its directory lock
/// and its manifest lock have to be free; a protected snapshot is never
/// destroyed.
pub open spec fn destroy_check(s: SnapshotView, force: bool) -> Result<(), Error> {
    destroy_decision_spec(s.locked, s.manifest_locked, is_protected(s), force)
}

/// Whether a snapshot may be destroyed, given whether its directory lock
/// and its manifest lock are held and whether it is protected.
pub open spec fn destroy_decision_spec(
    locked: bool,
    manifest_locked: bool,
    protected: bool,
    force: bool,
) -> Result<(), Error> {
    if !force && locked {
        Err(Error::LockContended(LockReason::PossiblyInUse))
    } else if !force && manifest_locked {
        Err(Error::LockTimeout)
    } else if protected {
        Err(Error::ProtectedSnapshot)
    } else {
        Ok(())
    }
}

/// Decides whether a snapshot may be destroyed. Without `force` its
/// directory lock and its manifest lock have to be free; a protected
/// snapshot is never destroyed.
pub fn destroy_decision(locked: bool, manifest_locked: bool, protected: bool, force: bool) -> (r:
    Result<(), Error>)
    ensures
        r == destroy_decision_spec(locked, manifest_locked, protected, force),
{
    if !force && locked {
        Err(Error::LockContended(LockReason::PossiblyInUse))
    } else if !force && manifest_locked {
        Err(Error::LockTimeout)
    } else if protected {
        Err(Error::ProtectedSnapshot)
    } else {
        Ok(())
    }
}

/// Where a snapshot stands: the place of its group and its own place in
/// the group.
pub open spec fn locate(ns: NamespaceView, dir: BackupDirView) -> Option<(int, int)> {
    match group_index(ns.groups, dir.group.ty, dir.group.id) {
        None => None,
        Some(gi) => match snapshot_index(ns.groups[gi].snapshots, dir.time) {
            None => None,
            Some(si) => Some((gi, si)),
        },
    }
}

/// The namespace with one snapshot exchanged.
pub open spec fn with_snapshot(ns: NamespaceView, gi: int, si: int, s: SnapshotView) -> NamespaceView {
    NamespaceView {
        groups: ns.groups.update(
            gi,
            GroupView { snapshots: ns.groups[gi].snapshots.update(si, s), ..ns.groups[gi] },
        ),
        ..ns
    }
}

/// The namespace without one snapshot.
pub open spec fn without_snapshot(ns: NamespaceView, gi: int, si: int) -> NamespaceView {
    NamespaceView {
        groups: ns.groups.update(
            gi,
            GroupView { snapshots: ns.groups[gi].snapshots.remove(si), ..ns.groups[gi] },
        ),
        ..ns
    }
}

/// What removing a snapshot answers.
pub open spec fn remove_snapshot_result(ns: NamespaceView, dir: BackupDirView, force: bool) -> Result<
    (),
    Error,
> {
    if snapshot_path_text(dir.group.ty, dir.group.id, dir.time as int) is None {
        Err(Error::InvalidInput)
    } else {
        match locate(ns, dir) {
            None => Err(Error::NotFound),
            Some((gi, si)) => destroy_check(ns.groups[gi].snapshots[si], force),
        }
    }
}

/// What removing a snapshot leaves.
pub open spec fn remove_snapshot_state(ns: NamespaceView, dir: BackupDirView, force: bool) -> NamespaceView {
    match remove_snapshot_result(ns, dir, force) {
        Err(_) => ns,
        Ok(_) => {
            let (gi, si) = locate(ns, dir)->0;
            without_snapshot(ns, gi, si)
        },
    }
}

/// What destroying the snapshots of a group one after the other leaves, and
/// the failure that stopped it, if one did. A protected snapshot is passed
/// over; the first snapshot that is in use stops the work.
pub open spec fn destroy_all(snapshots: Seq<SnapshotView>) -> (Seq<SnapshotView>, Option<Error>)
    decreases snapshots.len(),
{
    if snapshots.len() == 0 {
        (snapshots, None)
    } else {
        let first = snapshots[0];
        if is_protected(first) {
            let rest = destroy_all(snapshots.drop_first());
            (seq![first] + rest.0, rest.1)
        } else {
            match destroy_check(first, false) {
                Ok(_) => destroy_all(snapshots.drop_first()),
                Err(e) => (snapshots, Some(e)),
            }
        }
    }
}

/// What removing a group answers: whether all its snapshots, and so the
/// group itself, were removed.
pub open spec fn remove_group_result(ns: NamespaceView, group: BackupGroupView) -> Result<
    bool,
    Error,
> {
    match group_index(ns.groups, group.ty, group.id) {
        None => Err(Error::NotFound),
        Some(gi) => if ns.groups[gi].locked {
            Err(Error::LockContended(LockReason::PossiblyRunningBackup))
        } else {
            let done = destroy_all(ns.groups[gi].snapshots);
            match done.1 {
                Some(e) => Err(e),
                None => Ok(done.0.len() == 0),
            }
        },
    }
}

/// What removing a group leaves.
pub open spec fn remove_group_state(ns: NamespaceView, group: BackupGroupView) -> NamespaceView {
    match group_index(ns.groups, group.ty, group.id) {
        None => ns,
        Some(gi) => if ns.groups[gi].locked {
            ns
        } else {
            let done = destroy_all(ns.groups[gi].snapshots);
            if done.1 is None && done.0.len() == 0 {
                NamespaceView { groups: ns.groups.remove(gi), ..ns }
            } else {
                NamespaceView {
                    groups: ns.groups.update(gi, GroupView { snapshots: done.0, ..ns.groups[gi] }),
                    ..ns
                }
            }
        },
    }
}

/// What destroying the snapshots of a group leaves when nothing stopped
/// it: the protected snapshots, and no others.
pub proof fn lemma_destroy_all(snapshots: Seq<SnapshotView>)
    requires
        destroy_all(snapshots).1 is None,
    ensures
        forall|k: int|
            0 <= k < destroy_all(snapshots).0.len() ==> is_protected(
                #[trigger] destroy_all(snapshots).0[k],
            ) && snapshots.contains(destroy_all(snapshots).0[k]),
        forall|i: int|
            0 <= i < snapshots.len() && is_protected(#[trigger] snapshots[i]) ==> destroy_all(
                snapshots,
            ).0.contains(snapshots[i]),
    decreases snapshots.len(),
{
    if snapshots.len() > 0 {
        let first = snapshots[0];
        let tail = snapshots.drop_first();
        let left = destroy_all(snapshots).0;
        lemma_destroy_all(tail);
        let tail_left = destroy_all(tail).0;
        if is_protected(first) {
            assert forall|k: int| 0 <= k < left.len() implies is_protected(#[trigger] left[k])
                && snapshots.contains(left[k]) by {
                if k == 0 {
                    assert(left[0] == first);
                } else {
                    assert(left[k] == tail_left[k - 1]);
                    let w = choose|w: int| 0 <= w < tail.len() && tail[w] == tail_left[k - 1];
                    assert(snapshots[w + 1] == left[k]);
                }
            }
            assert forall|i: int|
                0 <= i < snapshots.len() && is_protected(
                    #[trigger] snapshots[i],
                ) implies left.contains(snapshots[i]) by {
                if i == 0 {
                    assert(left[0] == snapshots[0]);
                } else {
                    assert(tail[i - 1] == snapshots[i]);
                    let w = choose|w: int|
                        0 <= w < tail_left.len() && tail_left[w] == tail[i - 1];
                    assert(left[w + 1] == snapshots[i]);
                }
            }
        } else {
            assert forall|k: int| 0 <= k < left.len() implies is_protected(#[trigger] left[k])
                && snapshots.contains(left[k]) by {
                let w = choose|w: int| 0 <= w < tail.len() && tail[w] == tail_left[k];
                assert(snapshots[w + 1] == left[k]);
            }
            assert forall|i: int|
                0 <= i < snapshots.len() && is_protected(
                    #[trigger] snapshots[i],
                ) implies left.contains(snapshots[i]) by {
                assert(tail[i - 1] == snapshots[i]);
            }
        }
    }
}

/// Protection is honoured. A protected snapshot that is there cannot be
/// removed, with `force` or without. Removing a group answers that not all
/// was removed exactly where one of its snapshots is protected; the
/// protected snapshots, and the group with them, are then still there.
pub proof fn law_protection_honored(
    ns: NamespaceView,
    dir: BackupDirView,
    group: BackupGroupView,
    force: bool,
)
    requires
        ns_wf(ns),
    ensures
        locate(ns, dir) matches Some(at) && is_protected(ns.groups[at.0].snapshots[at.1])
            ==> remove_snapshot_result(ns, dir, force) is Err && remove_snapshot_state(
            ns,
            dir,
            force,
        ) == ns,
        remove_group_result(ns, group) matches Ok(all) ==> {
            let gi = group_index(ns.groups, group.ty, group.id)->0;
            &&& all == !(exists|i: int|
                0 <= i < ns.groups[gi].snapshots.len() && is_protected(
                    #[trigger] ns.groups[gi].snapshots[i],
                ))
            &&& !all ==> {
                let after = remove_group_state(ns, group);
                &&& group_index(after.groups, group.ty, group.id) == Some(gi)
                &&& forall|i: int|
                    0 <= i < ns.groups[gi].snapshots.len() && is_protected(
                        #[trigger] ns.groups[gi].snapshots[i],
                    ) ==> after.groups[gi].snapshots.contains(ns.groups[gi].snapshots[i])
            }
        },
{
    if remove_group_result(ns, group) is Ok {
        let gi = group_index(ns.groups, group.ty, group.id)->0;
        let snapshots = ns.groups[gi].snapshots;
        let left = destroy_all(snapshots).0;
        lemma_destroy_all(snapshots);
        if left.len() > 0 {
            let w = choose|w: int| 0 <= w < snapshots.len() && snapshots[w] == left[0];
            assert(is_protected(snapshots[w]));
            let after = remove_group_state(ns, group);
            assert(after.groups[gi].ty == group.ty && after.groups[gi].id == group.id);
            assert(group_wf(ns.groups[gi]));
            lemma_remove_group_keeps_names(ns, gi, left);
        } else {
            assert forall|i: int| 0 <= i < snapshots.len() implies !is_protected(
                #[trigger] snapshots[i],
            ) by {
                if is_protected(snapshots[i]) {
                    assert(left.contains(snapshots[i]));
                }
            }
        }
    }
}

/// A namespace in which the snapshots of one group were exchanged has its
/// groups where they were.
pub proof fn lemma_remove_group_keeps_names(ns: NamespaceView, gi: int, snapshots: Seq<SnapshotView>)
    requires
        ns_wf(ns),
        0 <= gi < ns.groups.len(),
    ensures
        group_index(
            ns.groups.update(gi, GroupView { snapshots, ..ns.groups[gi] }),
            ns.groups[gi].ty,
            ns.groups[gi].id,
        ) == Some(gi),
{
    let after = ns.groups.update(gi, GroupView { snapshots, ..ns.groups[gi] });
    assert forall|a: int, b: int|
        0 <= a < after.len() && 0 <= b < after.len() && a != b implies !(after[a].ty == after[b].ty
        && after[a].id == after[b].id) by {
        assert(after[a].ty == ns.groups[a].ty && after[a].id == ns.groups[a].id);
        assert(after[b].ty == ns.groups[b].ty && after[b].id == ns.groups[b].id);
    }
    lemma_group_index(after, gi);
}

/// The files of a snapshot with the protection marker set or taken away.
pub open spec fn with_protection(files: Seq<SnapshotFileView>, protection: bool) -> Seq<
    SnapshotFileView,
> {
    let marker = SnapshotFileView {
        name: PROTECTED_MARKER_NAME@,
        content: ContentView::Blob(Seq::empty()),
    };
    match file_index(files, PROTECTED_MARKER_NAME@) {
        Some(i) => if protection {
            files.update(i, marker)
        } else {
            files.remove(i)
        },
        None => if protection {
            files.push(marker)
        } else {
            files
        },
    }
}

/// What changing the protection of a snapshot answers.
pub open spec fn update_protection_result(ns: NamespaceView, dir: BackupDirView) -> Result<(), Error> {
    match locate(ns, dir) {
        None => Err(Error::NotFound),
        Some((gi, si)) => if ns.groups[gi].snapshots[si].locked {
            Err(Error::LockContended(LockReason::PossiblyInUse))
        } else {
            Ok(())
        },
    }
}

/// What changing the protection of a snapshot leaves.
pub open spec fn update_protection_state(
    ns: NamespaceView,
    dir: BackupDirView,
    protection: bool,
) -> NamespaceView {
    match update_protection_result(ns, dir) {
        Err(_) => ns,
        Ok(_) => {
            let (gi, si) = locate(ns, dir)->0;
            let s = ns.groups[gi].snapshots[si];
            with_snapshot(
                ns,
                gi,
                si,
                SnapshotView { files: with_protection(s.files, protection), ..s },
            )
        },
    }
}

/// The files of a snapshot with the file `name` set to `content`.
pub open spec fn with_file(files: Seq<SnapshotFileView>, name: Seq<char>, content: ContentView) -> Seq<
    SnapshotFileView,
> {
    match file_index(files, name) {
        Some(i) => files.update(i, SnapshotFileView { name, content }),
        None => files.push(SnapshotFileView { name, content }),
    }
}

/// Setting a file keeps the names distinct, and the file is then there
/// with the given content.
pub proof fn lemma_with_file(files: Seq<SnapshotFileView>, name: Seq<char>, content: ContentView)
    requires
        files_distinct(files),
    ensures
        files_distinct(with_file(files, name, content)),
        file_index(with_file(files, name, content), name) is Some,
        with_file(files, name, content)[file_index(with_file(files, name, content), name)->0].content
            == content,
{
    let after = with_file(files, name, content);
    match file_index(files, name) {
        Some(i) => {
            assert forall|a: int, b: int|
                0 <= a < after.len() && 0 <= b < after.len() && a != b implies after[a].name
                != after[b].name by {
                assert(after[a].name == files[a].name);
                assert(after[b].name == files[b].name);
            }
            lemma_file_index(after, i);
        },
        None => {
            let k = files.len() as int;
            assert forall|a: int, b: int|
                0 <= a < after.len() && 0 <= b < after.len() && a != b implies after[a].name
                != after[b].name by {
                if a < k {
                    assert(after[a] == files[a]);
                }
                if b < k {
                    assert(after[b] == files[b]);
                }
            }
            lemma_file_index(after, k);
        },
    }
}

/// Taking a file away keeps the names distinct, and the file is then gone.
pub proof fn lemma_remove_file(files: Seq<SnapshotFileView>, i: int)
    requires
        files_distinct(files),
        0 <= i < files.len(),
    ensures
        files_distinct(files.remove(i)),
        file_index(files.remove(i), files[i].name) is None,
{
    let after = files.remove(i);
    assert forall|a: int, b: int|
        0 <= a < after.len() && 0 <= b < after.len() && a != b implies after[a].name
        != after[b].name by {
        let oa = if a < i { a } else { a + 1 };
        let ob = if b < i { b } else { b + 1 };
        assert(after[a] == files[oa]);
        assert(after[b] == files[ob]);
    }
    assert forall|k: int| 0 <= k < after.len() implies after[k].name != files[i].name by {
        let ok = if k < i { k } else { k + 1 };
        assert(after[k] == files[ok]);
    }
}

/// The manifest of a snapshot: `NotFound` without the manifest file,
/// `Corrupt` where the file does not hold a manifest.
pub open spec fn manifest_of(s: SnapshotView) -> Result<ManifestView, Error> {
    match file_index(s.files, MANIFEST_BLOB_NAME@) {
        None => Err(Error::NotFound),
        Some(i) => match s.files[i].content {
            ContentView::Manifest(m) => Ok(m),
            _ => Err(Error::Corrupt),
        },
    }
}

/// What loading the manifest of a snapshot answers.
pub open spec fn load_manifest_result(ns: NamespaceView, dir: BackupDirView) -> Result<
    ManifestView,
    Error,
> {
    match locate(ns, dir) {
        None => Err(Error::NotFound),
        Some((gi, si)) => manifest_of(ns.groups[gi].snapshots[si]),
    }
}

/// What loading a file of a snapshot answers.
pub open spec fn load_file_result(ns: NamespaceView, dir: BackupDirView, name: Seq<char>) -> Result<
    ContentView,
    Error,
> {
    match locate(ns, dir) {
        None => Err(Error::NotFound),
        Some((gi, si)) => match file_index(ns.groups[gi].snapshots[si].files, name) {
            None => Err(Error::NotFound),
            Some(fi) => Ok(ns.groups[gi].snapshots[si].files[fi].content),
        },
    }
}

/// What storing a file in a snapshot leaves.
pub open spec fn store_file_state(
    ns: NamespaceView,
    dir: BackupDirView,
    name: Seq<char>,
    content: ContentView,
) -> NamespaceView {
    match locate(ns, dir) {
        None => ns,
        Some((gi, si)) => {
            let s = ns.groups[gi].snapshots[si];
            with_snapshot(ns, gi, si, SnapshotView { files: with_file(s.files, name, content), ..s })
        },
    }
}

/// What updating the manifest of a snapshot answers before the update is
/// applied: the manifest that is there. The manifest lock has to be free.
pub open spec fn update_manifest_check(ns: NamespaceView, dir: BackupDirView) -> Result<
    ManifestView,
    Error,
> {
    match locate(ns, dir) {
        None => Err(Error::NotFound),
        Some((gi, si)) => if ns.groups[gi].snapshots[si].manifest_locked {
            Err(Error::LockTimeout)
        } else {
            manifest_of(ns.groups[gi].snapshots[si])
        },
    }
}

/// Whether a manifest wants a file of the snapshot directory: the manifest
/// itself, the client's log, and the archives that the manifest lists.
pub open spec fn is_wanted(name: Seq<char>, manifest: ManifestView) -> bool {
    ||| name == MANIFEST_BLOB_NAME@
    ||| name == CLIENT_LOG_BLOB_NAME@
    ||| exists|i: int| 0 <= i < manifest.files.len() && manifest.files[i].filename == name
}

/// The files that a manifest wants, in their order.
pub open spec fn wanted_files(files: Seq<SnapshotFileView>, manifest: ManifestView) -> Seq<
    SnapshotFileView,
>
    decreases files.len(),
{
    if files.len() == 0 {
        files
    } else {
        let init = wanted_files(files.drop_last(), manifest);
        if is_wanted(files.last().name, manifest) {
            init.push(files.last())
        } else {
            init
        }
    }
}

/// What cleaning a snapshot directory up leaves: the files that the
/// manifest wants.
pub open spec fn cleanup_state(ns: NamespaceView, dir: BackupDirView, manifest: ManifestView) -> NamespaceView {
    match locate(ns, dir) {
        None => ns,
        Some((gi, si)) => {
            let s = ns.groups[gi].snapshots[si];
            with_snapshot(ns, gi, si, SnapshotView { files: wanted_files(s.files, manifest), ..s })
        },
    }
}

/// The time of the last snapshot that is complete: whose manifest is there
/// and can be read.
pub open spec fn last_successful(snapshots: Seq<SnapshotView>) -> Option<i64>
    decreases snapshots.len(),
{
    if snapshots.len() == 0 {
        None
    } else {
        let init = last_successful(snapshots.drop_last());
        let s = snapshots.last();
        if manifest_of(s) is Ok {
            match init {
                Some(t) => if t >= s.time {
                    Some(t)
                } else {
                    Some(s.time)
                },
                None => Some(s.time),
            }
        } else {
            init
        }
    }
}

/// What asking for the last successful backup of a group answers.
pub open spec fn last_successful_backup_result(ns: NamespaceView, group: BackupGroupView) -> Option<
    i64,
> {
    match group_index(ns.groups, group.ty, group.id) {
        None => None,
        Some(gi) => last_successful(ns.groups[gi].snapshots),
    }
}

/// Whether a snapshot is complete.
fn has_manifest(snapshot: &Snapshot) -> (r: bool)
    requires
        files_distinct(snapshot@.files),
    ensures
        r == (manifest_of(snapshot@) is Ok),
{
    match find_file(&snapshot.files, MANIFEST_BLOB_NAME) {
        None => false,
        Some(i) => {
            assert(snapshot@.files[i as int] == snapshot.files@[i as int]@);
            match &snapshot.files[i].content {
                FileContent::Manifest(m) => true,
                _ => false,
            }
        },
    }
}

/// Whether a snapshot may be destroyed.
fn check_destroy(snapshot: &Snapshot, force: bool) -> (r: Result<(), Error>)
    requires
        files_distinct(snapshot@.files),
    ensures
        r == destroy_check(snapshot@, force),
{
    let protected: bool = find_file(&snapshot.files, PROTECTED_MARKER_NAME).is_some();
    destroy_decision(snapshot.locked, snapshot.manifest_locked, protected, force)
}


/// Whether a manifest wants a file of the snapshot directory.
pub fn wants_file(name: &String, manifest: &BackupManifest) -> (r: bool)
    ensures
        r == is_wanted(name@, manifest@),
{
    if *name == String::from_str(MANIFEST_BLOB_NAME) || *name == String::from_str(
        CLIENT_LOG_BLOB_NAME,
    ) {
        return true;
    }
    let mut i: usize = 0;
    while i < manifest.files.len()
        invariant
            i <= manifest.files.len(),
            forall|k: int| 0 <= k < i ==> manifest@.files[k].filename != name@,
        decreases manifest.files.len() - i,
    {
        if manifest.files[i].filename == *name {
            assert(manifest@.files[i as int].filename == name@);
            return true;
        }
        i += 1;
    }
    false
}

/// Removes the files that a manifest does not want.
fn retain_wanted(files: &mut Vec<SnapshotFile>, manifest: &BackupManifest)
    requires
        files_distinct(snapshot_file_views(old(files)@)),
    ensures
        snapshot_file_views(final(files)@) == wanted_files(
            snapshot_file_views(old(files)@),
            manifest@,
        ),
        files_distinct(snapshot_file_views(final(files)@)),
{
    let ghost before = snapshot_file_views(files@);
    let mut i: usize = 0;
    let ghost mut j: int = 0;
    proof {
        assert(before.take(0) =~= Seq::<SnapshotFileView>::empty());
        assert(wanted_files(before.take(0), manifest@) + before.skip(0) =~= before);
    }
    while i < files.len()
        invariant
            0 <= j <= before.len(),
            i <= files.len(),
            before == snapshot_file_views(old(files)@),
            snapshot_file_views(files@) == wanted_files(before.take(j), manifest@) + before.skip(j),
            i == wanted_files(before.take(j), manifest@).len(),
            files_distinct(snapshot_file_views(files@)),
        decreases files.len() - i,
    {
        let ghost cur = snapshot_file_views(files@);
        let ghost kept = wanted_files(before.take(j), manifest@);
        assert(j < before.len());
        assert(cur[i as int] == before.skip(j)[0]);
        assert(files@[i as int]@ == before[j]);
        proof {
            let t = before.take(j + 1);
            assert(t.drop_last() =~= before.take(j));
            assert(t.last() == before[j]);
        }
        if wants_file(&files[i].name, manifest) {
            proof {
                assert(cur =~= kept.push(before[j]) + before.skip(j + 1));
            }
            i += 1;
        } else {
            proof {
                lemma_remove_file(cur, i as int);
            }
            files.remove(i);
            proof {
                assert(snapshot_file_views(files@) =~= cur.remove(i as int));
                assert(cur.remove(i as int) =~= kept + before.skip(j + 1));
            }
        }
        proof {
            j = j + 1;
        }
    }
    proof {
        assert(j == before.len()) by {
            if j < before.len() {
                assert(snapshot_file_views(files@).len() == i + before.len() - j);
            }
        }
        assert(before.take(j) =~= before);
        assert(before.skip(j) =~= Seq::<SnapshotFileView>::empty());
        assert(snapshot_file_views(files@) =~= wanted_files(before, manifest@));
    }
}

impl Namespace {
    /// Where a snapshot stands.
    fn find_dir(&self, dir: &BackupDir) -> (r: Option<(usize, usize)>)
        requires
            self.wf(),
        ensures
            r is Some <==> locate(self@, dir@) is Some,
            r matches Some(at) ==> {
                &&& locate(self@, dir@) == Some((at.0 as int, at.1 as int))
                &&& at.0 < self.groups.len()
                &&& at.1 < self.groups@[at.0 as int].snapshots.len()
                &&& self.groups@[at.0 as int]@ == self@.groups[at.0 as int]
                &&& self.groups@[at.0 as int].snapshots@[at.1 as int]@
                    == self@.groups[at.0 as int].snapshots[at.1 as int]
                &&& group_wf(self@.groups[at.0 as int])
                &&& files_distinct(self@.groups[at.0 as int].snapshots[at.1 as int].files)
            },
    {
        let gi: usize = match self.find_group(dir.group.ty, &dir.group.id) {
            None => {
                return None;
            },
            Some(gi) => gi,
        };
        assert(group_wf(self@.groups[gi as int]));
        match find_snapshot(&self.groups[gi].snapshots, dir.time) {
            None => None,
            Some(si) => {
                assert(self@.groups[gi as int].snapshots[si as int]
                    == self.groups@[gi as int].snapshots@[si as int]@);
                Some((gi, si))
            },
        }
    }

    /// Takes a snapshot out of the namespace, together with its group.
    fn take_snapshot(&mut self, gi: usize, si: usize) -> (r: (Group, Snapshot))
        requires
            old(self).wf(),
            gi < old(self)@.groups.len(),
            si < old(self)@.groups[gi as int].snapshots.len(),
        ensures
            final(self)@.groups == old(self)@.groups.remove(gi as int),
            final(self)@.strays == old(self)@.strays,
            r.0@ == (GroupView {
                snapshots: old(self)@.groups[gi as int].snapshots.remove(si as int),
                ..old(self)@.groups[gi as int]
            }),
            r.1@ == old(self)@.groups[gi as int].snapshots[si as int],
    {
        let ghost before = self@;
        assert(before.groups.len() == self.groups@.len());
        assert(before.groups[gi as int] == self.groups@[gi as int]@);
        let mut group = self.groups.remove(gi);
        proof {
            assert(self@.groups =~= before.groups.remove(gi as int));
            assert(group@ == before.groups[gi as int]);
            assert(group@.snapshots.len() == group.snapshots@.len());
            assert(group@.snapshots[si as int] == group.snapshots@[si as int]@);
        }
        let snapshot = group.snapshots.remove(si);
        proof {
            assert(group@.snapshots =~= before.groups[gi as int].snapshots.remove(si as int));
        }
        (group, snapshot)
    }

    /// Puts a snapshot back into the place from which one of the same time
    /// was taken.
    fn put_snapshot(
        &mut self,
        gi: usize,
        si: usize,
        group: Group,
        snapshot: Snapshot,
        Ghost(before): Ghost<NamespaceView>,
    )
        requires
            ns_wf(before),
            gi < before.groups.len(),
            si < before.groups[gi as int].snapshots.len(),
            old(self)@.groups == before.groups.remove(gi as int),
            old(self)@.strays == before.strays,
            group@ == (GroupView {
                snapshots: before.groups[gi as int].snapshots.remove(si as int),
                ..before.groups[gi as int]
            }),
            snapshot@.time == before.groups[gi as int].snapshots[si as int].time,
            files_distinct(snapshot@.files),
        ensures
            final(self)@ == with_snapshot(before, gi as int, si as int, snapshot@),
            final(self).wf(),
    {
        let mut group = group;
        let ghost taken = group@.snapshots;
        let ghost sv = snapshot@;
        proof {
            assert(taken.len() == group.snapshots@.len());
        }
        group.snapshots.insert(si, snapshot);
        proof {
            let after = group@.snapshots;
            let old_snaps = before.groups[gi as int].snapshots;
            let want = old_snaps.update(si as int, sv);
            assert(after.len() == want.len());
            assert forall|k: int| 0 <= k < after.len() implies after[k] == want[k] by {
                if k < si {
                    assert(after[k] == taken[k]);
                    assert(taken[k] == old_snaps[k]);
                } else if k > si {
                    assert(after[k] == taken[k - 1]);
                    assert(taken[k - 1] == old_snaps[k]);
                }
            }
            assert(after =~= want);
            assert(group_wf(before.groups[gi as int]));
            lemma_update_snapshot(before.groups[gi as int], si as int, sv);
        }
        self.put_group(gi, group, Ghost(before));
    }

    /// Removes a snapshot with all its files.
    ///
    /// Without `force` the snapshot must not be in use: the call fails with
    /// `LockContended` while its directory is locked and with `LockTimeout`
    /// while its manifest is. A protected snapshot is not removed, with
    /// `force` or without: the call fails with `ProtectedSnapshot`. Fails
    /// with `InvalidInput` where the time has no text and with `NotFound`
    /// without the snapshot. A failure leaves the namespace as it was.
    pub fn remove_backup_dir(&mut self, backup_dir: &BackupDir, force: bool) -> (r: Result<
        (),
        Error,
    >)
        requires
            old(self).wf(),
        ensures
            final(self).wf(),
            r == remove_snapshot_result(old(self)@, backup_dir@, force),
            final(self)@ == remove_snapshot_state(old(self)@, backup_dir@, force),
    {
        let ghost before = self@;
        let _path = backup_dir.to_string()?;
        let (gi, si) = match self.find_dir(backup_dir) {
            None => {
                return Err(Error::NotFound);
            },
            Some(at) => at,
        };
        check_destroy(&self.groups[gi].snapshots[si], force)?;
        let (group, _snapshot) = self.take_snapshot(gi, si);
        proof {
            lemma_remove_snapshot(before.groups[gi as int], si as int);
        }
        self.put_group(gi, group, Ghost(before));
        Ok(())
    }

    /// Removes a group with all its snapshots that are not protected.
    ///
    /// The answer is whether all snapshots, and with them the group, were
    /// removed: it is `false` exactly where a snapshot of the group is
    /// protected. Fails with `NotFound` without the group, with
    /// `LockContended` while the group is locked, and with the failure of
    /// the first snapshot that is in use; the snapshots before that one are
    /// then removed and the others are as they were.
    pub fn remove_backup_group(&mut self, backup_group: &BackupGroup) -> (r: Result<bool, Error>)
        requires
            old(self).wf(),
        ensures
            final(self).wf(),
            r == remove_group_result(old(self)@, backup_group@),
            final(self)@ == remove_group_state(old(self)@, backup_group@),
    {
        let ghost before = self@;
        let gi: usize = match self.find_group(backup_group.ty, &backup_group.id) {
            None => {
                return Err(Error::NotFound);
            },
            Some(gi) => gi,
        };
        if self.groups[gi].locked {
            return Err(Error::LockContended(LockReason::PossiblyRunningBackup));
        }
        let ghost old_group = before.groups[gi as int];
        let ghost old_snaps = old_group.snapshots;
        assert(group_wf(old_group));
        let mut group = self.groups.remove(gi);
        proof {
            assert(self@.groups =~= before.groups.remove(gi as int));
            assert(group@ == old_group);
            assert(old_snaps.skip(0) =~= old_snaps);
            assert(old_snaps.take(0) + destroy_all(old_snaps.skip(0)).0 =~= destroy_all(
                old_snaps,
            ).0);
        }
        let mut i: usize = 0;
        while i < group.snapshots.len()
            invariant
                i <= group.snapshots.len(),
                before == old(self)@,
                ns_wf(before),
                gi < before.groups.len(),
                group_index(before.groups, backup_group@.ty, backup_group@.id) == Some(gi as int),
                old_group == before.groups[gi as int],
                old_snaps == old_group.snapshots,
                !old_group.locked,
                self@.groups == before.groups.remove(gi as int),
                self@.strays == before.strays,
                group_wf(group@),
                group@.ty == old_group.ty,
                group@.id == old_group.id,
                group@.owner == old_group.owner,
                group@.locked == old_group.locked,
                destroy_all(old_snaps).0 == group@.snapshots.take(i as int) + destroy_all(
                    group@.snapshots.skip(i as int),
                ).0,
                destroy_all(old_snaps).1 == destroy_all(group@.snapshots.skip(i as int)).1,
            decreases group.snapshots.len() - i,
        {
            let ghost cur = group@.snapshots;
            let ghost rest = cur.skip(i as int);
            proof {
                assert(cur.len() == group.snapshots@.len());
                assert(rest[0] == cur[i as int]);
                assert(cur[i as int] == group.snapshots@[i as int]@);
                assert(rest.drop_first() =~= cur.skip(i + 1));
                assert(files_distinct(cur[i as int].files));
            }
            if find_file(&group.snapshots[i].files, PROTECTED_MARKER_NAME).is_some() {
                proof {
                    assert(cur.take(i + 1) =~= cur.take(i as int).push(cur[i as int]));
                    assert(cur.take(i as int) + (seq![cur[i as int]] + destroy_all(
                        cur.skip(i + 1),
                    ).0) =~= cur.take(i + 1) + destroy_all(cur.skip(i + 1)).0);
                }
                i += 1;
            } else {
                match check_destroy(&group.snapshots[i], false) {
                    Err(e) => {
                        proof {
                            assert(cur.take(i as int) + rest =~= cur);
                            assert(group@ == (GroupView { snapshots: cur, ..old_group }));
                        }
                        self.put_group(gi, group, Ghost(before));
                        return Err(e);
                    },
                    Ok(_) => {
                        proof {
                            lemma_remove_snapshot(group@, i as int);
                        }
                        group.snapshots.remove(i);
                        proof {
                            let after = group@.snapshots;
                            assert(after =~= cur.remove(i as int));
                            assert(after.take(i as int) =~= cur.take(i as int));
                            assert(after.skip(i as int) =~= cur.skip(i + 1));
                        }
                    },
                }
            }
        }
        proof {
            let cur = group@.snapshots;
            assert(cur.len() == group.snapshots@.len());
            assert(cur.skip(i as int) =~= Seq::<SnapshotView>::empty());
            assert(cur.take(i as int) =~= cur);
            assert(cur + Seq::<SnapshotView>::empty() =~= cur);
            assert(group@ == (GroupView { snapshots: cur, ..old_group }));
        }
        if group.snapshots.len() == 0 {
            proof {
                lemma_remove_group(before, gi as int);
            }
            Ok(true)
        } else {
            self.put_group(gi, group, Ghost(before));
            Ok(false)
        }
    }

    /// Sets or takes away the protection of a snapshot.
    ///
    /// Fails with `NotFound` without the snapshot and with `LockContended`
    /// while its directory is locked; a failure leaves the namespace as it
    /// was.
    pub fn update_protection(&mut self, backup_dir: &BackupDir, protection: bool) -> (r: Result<
        (),
        Error,
    >)
        requires
            old(self).wf(),
        ensures
            final(self).wf(),
            r == update_protection_result(old(self)@, backup_dir@),
            final(self)@ == update_protection_state(old(self)@, backup_dir@, protection),
    {
        let ghost before = self@;
        let (gi, si) = match self.find_dir(backup_dir) {
            None => {
                return Err(Error::NotFound);
            },
            Some(at) => at,
        };
        if self.groups[gi].snapshots[si].locked {
            return Err(Error::LockContended(LockReason::PossiblyInUse));
        }
        let (group, mut snapshot) = self.take_snapshot(gi, si);
        let ghost old_files = snapshot@.files;
        let found = find_file(&snapshot.files, PROTECTED_MARKER_NAME);
        let ghost marker = SnapshotFileView {
            name: PROTECTED_MARKER_NAME@,
            content: ContentView::Blob(Seq::empty()),
        };
        match found {
            Some(fi) => {
                snapshot.files.remove(fi);
                if protection {
                    snapshot.files.insert(
                        fi,
                        SnapshotFile {
                            name: String::from_str(PROTECTED_MARKER_NAME),
                            content: FileContent::Blob(DataBlob::from_raw(Vec::new())),
                        },
                    );
                    proof {
                        assert(snapshot@.files =~= old_files.update(fi as int, marker));
                        lemma_with_file(old_files, marker.name, marker.content);
                    }
                } else {
                    proof {
                        assert(snapshot@.files =~= old_files.remove(fi as int));
                        lemma_remove_file(old_files, fi as int);
                    }
                }
            },
            None => {
                if protection {
                    snapshot.files.push(
                        SnapshotFile {
                            name: String::from_str(PROTECTED_MARKER_NAME),
                            content: FileContent::Blob(DataBlob::from_raw(Vec::new())),
                        },
                    );
                    proof {
                        assert(snapshot@.files =~= old_files.push(marker));
                        lemma_with_file(old_files, marker.name, marker.content);
                    }
                } else {
                    proof {
                        assert(snapshot@.files =~= old_files);
                    }
                }
            },
        }
        self.put_snapshot(gi, si, group, snapshot, Ghost(before));
        Ok(())
    }

    /// A file of a snapshot. Fails with `NotFound` without the snapshot or
    /// the file.
    pub fn load_file(&self, backup_dir: &BackupDir, name: &str) -> (r: Result<FileContent, Error>)
        requires
            self.wf(),
        ensures
            match load_file_result(self@, backup_dir@, name@) {
                Ok(c) => r is Ok && r->Ok_0@ == c,
                Err(e) => r matches Err(x) && x == e,
            },
    {
        let (gi, si) = match self.find_dir(backup_dir) {
            None => {
                return Err(Error::NotFound);
            },
            Some(at) => at,
        };
        let snapshot = &self.groups[gi].snapshots[si];
        match find_file(&snapshot.files, name) {
            None => Err(Error::NotFound),
            Some(fi) => {
                assert(snapshot@.files[fi as int] == snapshot.files@[fi as int]@);
                Ok(snapshot.files[fi].content.duplicate())
            },
        }
    }

    /// The manifest of a snapshot. It must not be written back: to change
    /// a manifest, update it.
    ///
    /// Fails with `NotFound` without the snapshot or its manifest file, and
    /// with `Corrupt` where the file does not hold a manifest.
    pub fn load_manifest(&self, backup_dir: &BackupDir) -> (r: Result<BackupManifest, Error>)
        requires
            self.wf(),
        ensures
            match load_manifest_result(self@, backup_dir@) {
                Ok(m) => r is Ok && r->Ok_0@ == m,
                Err(e) => r matches Err(x) && x == e,
            },
    {
        match self.load_file(backup_dir, MANIFEST_BLOB_NAME) {
            Err(e) => Err(e),
            Ok(content) => match content {
                FileContent::Manifest(m) => Ok(m),
                _ => Err(Error::Corrupt),
            },
        }
    }

    /// Stores a file in a snapshot, in place of the file of that name if
    /// there is one. Fails with `NotFound` without the snapshot.
    pub fn store_file(&mut self, backup_dir: &BackupDir, name: &str, content: FileContent) -> (r:
        Result<(), Error>)
        requires
            old(self).wf(),
        ensures
            final(self).wf(),
            r is Ok <==> locate(old(self)@, backup_dir@) is Some,
            r matches Err(e) ==> e == Error::NotFound,
            final(self)@ == store_file_state(old(self)@, backup_dir@, name@, content@),
    {
        let ghost before = self@;
        let (gi, si) = match self.find_dir(backup_dir) {
            None => {
                return Err(Error::NotFound);
            },
            Some(at) => at,
        };
        let (group, mut snapshot) = self.take_snapshot(gi, si);
        let ghost old_files = snapshot@.files;
        let ghost fv = SnapshotFileView { name: name@, content: content@ };
        let file = SnapshotFile { name: String::from_str(name), content };
        match find_file(&snapshot.files, name) {
            Some(fi) => {
                snapshot.files.remove(fi);
                snapshot.files.insert(fi, file);
                proof {
                    assert(snapshot@.files =~= old_files.update(fi as int, fv));
                }
            },
            None => {
                snapshot.files.push(file);
                proof {
                    assert(snapshot@.files =~= old_files.push(fv));
                }
            },
        }
        proof {
            lemma_with_file(old_files, name@, content@);
        }
        self.put_snapshot(gi, si, group, snapshot, Ghost(before));
        Ok(())
    }

    /// Updates the manifest of a snapshot under the manifest lock: loads
    /// it, applies `update_fn` and stores what comes back.
    ///
    /// Fails with `NotFound` without the snapshot or its manifest, with
    /// `LockTimeout` while the manifest lock is held, and with `Corrupt`
    /// where the manifest file does not hold a manifest; a failure leaves
    /// the namespace as it was and `update_fn` uncalled.
    pub fn update_manifest<F: FnOnce(BackupManifest) -> BackupManifest>(
        &mut self,
        backup_dir: &BackupDir,
        update_fn: F,
    ) -> (r: Result<(), Error>)
        requires
            old(self).wf(),
            forall|m: BackupManifest| update_fn.requires((m,)),
        ensures
            final(self).wf(),
            match update_manifest_check(old(self)@, backup_dir@) {
                Err(e) => r == Err::<(), Error>(e) && final(self)@ == old(self)@,
                Ok(mv) => r is Ok && exists|m: BackupManifest, m2: BackupManifest|
                    m@ == mv && update_fn.ensures((m,), m2) && final(self)@ == store_file_state(
                        old(self)@,
                        backup_dir@,
                        MANIFEST_BLOB_NAME@,
                        ContentView::Manifest(m2@),
                    ),
            },
    {
        let (gi, si) = match self.find_dir(backup_dir) {
            None => {
                return Err(Error::NotFound);
            },
            Some(at) => at,
        };
        if self.groups[gi].snapshots[si].manifest_locked {
            return Err(Error::LockTimeout);
        }
        let manifest = self.load_manifest(backup_dir)?;
        let ghost m = manifest;
        let updated = update_fn(manifest);
        let ghost m2 = updated;
        let stored = self.store_file(backup_dir, MANIFEST_BLOB_NAME, FileContent::Manifest(updated));
        proof {
            assert(m@ == update_manifest_check(old(self)@, backup_dir@)->Ok_0);
            assert(update_fn.ensures((m,), m2));
        }
        stored
    }

    /// Removes from a snapshot directory every file that the manifest does
    /// not want. Fails with `NotFound` without the snapshot.
    pub fn cleanup_backup_dir(&mut self, backup_dir: &BackupDir, manifest: &BackupManifest) -> (r:
        Result<(), Error>)
        requires
            old(self).wf(),
        ensures
            final(self).wf(),
            r is Ok <==> locate(old(self)@, backup_dir@) is Some,
            r matches Err(e) ==> e == Error::NotFound,
            final(self)@ == cleanup_state(old(self)@, backup_dir@, manifest@),
    {
        let ghost before = self@;
        let (gi, si) = match self.find_dir(backup_dir) {
            None => {
                return Err(Error::NotFound);
            },
            Some(at) => at,
        };
        let (group, mut snapshot) = self.take_snapshot(gi, si);
        retain_wanted(&mut snapshot.files, manifest);
        self.put_snapshot(gi, si, group, snapshot, Ghost(before));
        Ok(())
    }

    /// The time of the last complete snapshot of a group; `None` where the
    /// group has none or is not there.
    pub fn last_successful_backup(&self, backup_group: &BackupGroup) -> (r: Option<i64>)
        requires
            self.wf(),
        ensures
            r == last_successful_backup_result(self@, backup_group@),
    {
        let gi: usize = match self.find_group(backup_group.ty, &backup_group.id) {
            None => {
                return None;
            },
            Some(gi) => gi,
        };
        let group = &self.groups[gi];
        let ghost snaps = self@.groups[gi as int].snapshots;
        assert(group_wf(self@.groups[gi as int]));
        let mut last: Option<i64> = None;
        let mut i: usize = 0;
        assert(snaps.take(0) =~= Seq::<SnapshotView>::empty());
        while i < group.snapshots.len()
            invariant
                i <= group.snapshots.len(),
                snaps == snapshot_views(group.snapshots@),
                group_wf(self@.groups[gi as int]),
                snaps == self@.groups[gi as int].snapshots,
                last == last_successful(snaps.take(i as int)),
            decreases group.snapshots.len() - i,
        {
            proof {
                let t = snaps.take(i + 1);
                assert(t.drop_last() =~= snaps.take(i as int));
                assert(t.last() == snaps[i as int]);
                assert(snaps[i as int] == group.snapshots@[i as int]@);
                assert(files_distinct(snaps[i as int].files));
            }
            if has_manifest(&group.snapshots[i]) {
                let time: i64 = group.snapshots[i].time;
                last = match last {
                    Some(t) => if t >= time {
                        Some(t)
                    } else {
                        Some(time)
                    },
                    None => Some(time),
                };
            }
            i += 1;
        }
        assert(snaps.take(group.snapshots.len() as int) =~= snaps);
        last
    }

    /// The groups of the namespace, in the order in which they were made.
    pub fn list_backup_groups(&self) -> (list: Vec<BackupGroup>)
        ensures
            list.len() == self@.groups.len(),
            forall|i: int|
                0 <= i < list.len() ==> (#[trigger] list[i])@ == (BackupGroupView {
                    ty: self@.groups[i].ty,
                    id: self@.groups[i].id,
                }),
    {
        let mut list: Vec<BackupGroup> = Vec::new();
        let mut i: usize = 0;
        while i < self.groups.len()
            invariant
                i <= self.groups.len(),
                list.len() == i,
                forall|k: int|
                    0 <= k < i ==> (#[trigger] list[k])@ == (BackupGroupView {
                        ty: self@.groups[k].ty,
                        id: self@.groups[k].id,
                    }),
            decreases self.groups.len() - i,
        {
            list.push(BackupGroup::new(self.groups[i].ty, self.groups[i].id.clone()));
            i += 1;
        }
        list
    }

    /// The snapshots of a group, in the order in which they were made.
    /// Fails with `NotFound` without the group.
    pub fn list_snapshots(&self, backup_group: &BackupGroup) -> (r: Result<Vec<BackupDir>, Error>)
        requires
            self.wf(),
        ensures
            match group_index(self@.groups, backup_group@.ty, backup_group@.id) {
                None => r matches Err(e) && e == Error::NotFound,
                Some(gi) => r is Ok && r->Ok_0.len() == self@.groups[gi].snapshots.len()
                    && forall|i: int|
                    0 <= i < r->Ok_0.len() ==> (#[trigger] r->Ok_0[i])@ == (BackupDirView {
                        group: backup_group@,
                        time: self@.groups[gi].snapshots[i].time,
                    }),
            },
    {
        let gi: usize = match self.find_group(backup_group.ty, &backup_group.id) {
            None => {
                return Err(Error::NotFound);
            },
            Some(gi) => gi,
        };
        let group = &self.groups[gi];
        let mut list: Vec<BackupDir> = Vec::new();
        let mut i: usize = 0;
        while i < group.snapshots.len()
            invariant
                i <= group.snapshots.len(),
                list.len() == i,
                group@ == self@.groups[gi as int],
                forall|k: int|
                    0 <= k < i ==> (#[trigger] list[k])@ == (BackupDirView {
                        group: backup_group@,
                        time: group@.snapshots[k].time,
                    }),
            decreases group.snapshots.len() - i,
        {
            assert(group@.snapshots[i as int] == group.snapshots@[i as int]@);
            list.push(BackupDir::new(backup_group.duplicate(), group.snapshots[i].time));
            i += 1;
        }
        Ok(list)
    }
}


/// An index file as the mark phase of garbage collection meets it.
pub struct ImageFile {
    /// The path of the file below the base directory.
    pub path: String,
    /// The index that the file holds; `None` where it does not hold an
    /// index of the kind that its name promises.
    pub index: Option<IndexData>,
}

/// An index file of the namespace, as contracts see it.
pub struct ImageView {
    pub path: Seq<char>,
    pub index: Option<IndexView>,
}

impl View for ImageFile {
    type V = ImageView;

    open spec fn view(&self) -> ImageView {
        ImageView {
            path: self.path@,
            index: match self.index {
                Some(i) => Some(i@),
                None => None,
            },
        }
    }
}

/// The views of a list of index files.
pub open spec fn image_views(images: Seq<ImageFile>) -> Seq<ImageView> {
    Seq::new(images.len(), |i: int| images[i]@)
}

/// Whether a name is hidden: it begins with `.`.
pub open spec fn is_hidden_name(name: Seq<char>) -> bool {
    name.len() > 0 && name[0] == '.'
}

/// Whether a walk that leaves hidden entries out misses a path: one of its
/// components is hidden.
pub open spec fn has_hidden_component(path: Seq<char>) -> bool {
    exists|i: int|
        0 <= i < split_spec(path, '/').len() && is_hidden_name(#[trigger] split_spec(path, '/')[i])
}

/// Whether the mark phase reads the file at a path: the walk reaches it,
/// and its name is that of an index.
pub open spec fn is_image_path(path: Seq<char>) -> bool {
    !has_hidden_component(path) && is_index_path(path)
}

/// Whether a path lies outside the scheme `<type>/<id>/<timestamp>/`: its
/// directory is not the path of a snapshot.
pub open spec fn is_strange_path(path: Seq<char>) -> bool {
    parse_snapshot_spec(
        match parent_of(path) {
            Some(p) => p,
            None => Seq::<char>::empty(),
        },
    ) is None
}

/// The index that a file at `path` gives to the mark phase.
pub open spec fn image_index_of(path: Seq<char>, content: ContentView) -> Option<IndexView> {
    match content {
        ContentView::Index(index) => if index.fixed == (archive_type_spec(path) == Some(
            ArchiveType::FixedIndex,
        )) {
            Some(index)
        } else {
            None
        },
        _ => None,
    }
}

/// The path of a file in a directory; without a directory, the name is the
/// path.
pub open spec fn child_path(dir: Option<Seq<char>>, name: Seq<char>) -> Seq<char> {
    match dir {
        Some(d) => d + "/"@ + name,
        None => name,
    }
}

/// The index files among the files of one directory.
pub open spec fn file_images(dir: Option<Seq<char>>, files: Seq<SnapshotFileView>) -> Seq<
    ImageView,
>
    decreases files.len(),
{
    if files.len() == 0 {
        Seq::<ImageView>::empty()
    } else {
        let init = file_images(dir, files.drop_last());
        let path = child_path(dir, files.last().name);
        if is_image_path(path) {
            init.push(ImageView { path, index: image_index_of(path, files.last().content) })
        } else {
            init
        }
    }
}

/// The index files of the snapshots of one group.
pub open spec fn snapshot_images(ty: BackupType, id: Seq<char>, snapshots: Seq<SnapshotView>) -> Seq<
    ImageView,
>
    decreases snapshots.len(),
{
    if snapshots.len() == 0 {
        Seq::<ImageView>::empty()
    } else {
        let init = snapshot_images(ty, id, snapshots.drop_last());
        match snapshot_path_text(ty, id, snapshots.last().time as int) {
            Some(path) => init + file_images(Some(path), snapshots.last().files),
            None => init,
        }
    }
}

/// The index files of the snapshots of all groups.
pub open spec fn group_images(groups: Seq<GroupView>) -> Seq<ImageView>
    decreases groups.len(),
{
    if groups.len() == 0 {
        Seq::<ImageView>::empty()
    } else {
        group_images(groups.drop_last()) + snapshot_images(
            groups.last().ty,
            groups.last().id,
            groups.last().snapshots,
        )
    }
}

/// The index files of the namespace, in the order of the walk: those of
/// the snapshots, group by group, and then those outside the scheme.
pub open spec fn images_of(ns: NamespaceView) -> Seq<ImageView> {
    group_images(ns.groups) + file_images(None, ns.strays)
}

/// Whether a component of the path is hidden.
pub fn has_hidden(path: &Vec<char>) -> (r: bool)
    ensures
        r == has_hidden_component(path@),
{
    let pieces = split(path, '/');
    let mut i: usize = 0;
    while i < pieces.len()
        invariant
            i <= pieces.len(),
            views(pieces@) == split_spec(path@, '/'),
            forall|k: int| 0 <= k < i ==> !is_hidden_name(#[trigger] split_spec(path@, '/')[k]),
        decreases pieces.len() - i,
    {
        assert(views(pieces@)[i as int] == pieces@[i as int]@);
        if pieces[i].len() > 0 && pieces[i][0] == '.' {
            assert(is_hidden_name(split_spec(path@, '/')[i as int]));
            return true;
        }
        i += 1;
    }
    false
}

/// Whether a path lies outside the scheme `<type>/<id>/<timestamp>/`.
pub fn strange_path(path: &Vec<char>) -> (r: bool)
    ensures
        r == is_strange_path(path@),
{
    let parent: Vec<char> = match parent_chars(path) {
        Some(p) => p,
        None => Vec::new(),
    };
    parse_snapshot_chars(&parent).is_err()
}

/// Adds the index files among the files of one directory to a list.
fn push_file_images(out: &mut Vec<ImageFile>, dir: Option<&String>, files: &Vec<SnapshotFile>)
    ensures
        image_views(final(out)@) == image_views(old(out)@) + file_images(
            match dir {
                Some(d) => Some(d@),
                None => None,
            },
            snapshot_file_views(files@),
        ),
{
    let ghost start = image_views(out@);
    let ghost dv: Option<Seq<char>> = match dir {
        Some(d) => Some(d@),
        None => None,
    };
    let ghost fv = snapshot_file_views(files@);
    let mut i: usize = 0;
    proof {
        assert(fv.take(0) =~= Seq::<SnapshotFileView>::empty());
        assert(start + file_images(dv, fv.take(0)) =~= start);
    }
    while i < files.len()
        invariant
            i <= files.len(),
            fv == snapshot_file_views(files@),
            dv == match dir {
                Some(d) => Some(d@),
                None => None,
            },
            image_views(out@) == start + file_images(dv, fv.take(i as int)),
        decreases files.len() - i,
    {
        proof {
            let t = fv.take(i + 1);
            assert(t.drop_last() =~= fv.take(i as int));
            assert(t.last() == fv[i as int]);
            assert(fv[i as int] == files@[i as int]@);
        }
        let file = &files[i];
        let path: String = match dir {
            Some(d) => {
                let mut p = d.clone();
                p.append("/");
                p.append(file.name.as_str());
                p
            },
            None => file.name.clone(),
        };
        assert(path@ == child_path(dv, fv[i as int].name));
        let chars = to_chars(path.as_str());
        let kind = archive_type_chars(&chars);
        let is_index: bool = match kind {
            Ok(ArchiveType::FixedIndex) => true,
            Ok(ArchiveType::DynamicIndex) => true,
            _ => false,
        };
        if is_index && !has_hidden(&chars) {
            let fixed: bool = match kind {
                Ok(ArchiveType::FixedIndex) => true,
                _ => false,
            };
            let index: Option<IndexData> = match &file.content {
                FileContent::Index(ix) => {
                    let ix_fixed: bool = match ix {
                        IndexData::Fixed(_) => true,
                        IndexData::Dynamic(_) => false,
                    };
                    if ix_fixed == fixed {
                        Some(ix.duplicate())
                    } else {
                        None
                    }
                },
                _ => None,
            };
            let ghost before = image_views(out@);
            let image = ImageFile { path, index };
            let ghost iv = image@;
            out.push(image);
            proof {
                assert(image_views(out@) =~= before.push(iv));
                assert(start + file_images(dv, fv.take(i as int)).push(iv) =~= (start + file_images(
                    dv,
                    fv.take(i as int),
                )).push(iv));
            }
        }
        i += 1;
    }
    assert(fv.take(files.len() as int) =~= fv);
}

impl Namespace {
    /// The index files of the namespace with their contents, in the order
    /// of the walk.
    pub fn list_image_files(&self) -> (images: Vec<ImageFile>)
        ensures
            image_views(images@) == images_of(self@),
    {
        let mut out: Vec<ImageFile> = Vec::new();
        let ghost groups = self@.groups;
        let mut gi: usize = 0;
        proof {
            assert(image_views(out@) =~= Seq::<ImageView>::empty());
            assert(groups.take(0) =~= Seq::<GroupView>::empty());
        }
        while gi < self.groups.len()
            invariant
                gi <= self.groups.len(),
                groups == self@.groups,
                image_views(out@) == group_images(groups.take(gi as int)),
            decreases self.groups.len() - gi,
        {
            let group = &self.groups[gi];
            let ghost snaps = group@.snapshots;
            proof {
                let t = groups.take(gi + 1);
                assert(t.drop_last() =~= groups.take(gi as int));
                assert(t.last() == groups[gi as int]);
                assert(groups[gi as int] == group@);
                assert(snaps.take(0) =~= Seq::<SnapshotView>::empty());
            }
            let ghost start = image_views(out@);
            let mut si: usize = 0;
            proof {
                assert(start + snapshot_images(group@.ty, group@.id, snaps.take(0)) =~= start);
            }
            while si < group.snapshots.len()
                invariant
                    si <= group.snapshots.len(),
                    snaps == group@.snapshots,
                    image_views(out@) == start + snapshot_images(
                        group@.ty,
                        group@.id,
                        snaps.take(si as int),
                    ),
                decreases group.snapshots.len() - si,
            {
                let snapshot = &group.snapshots[si];
                proof {
                    let t = snaps.take(si + 1);
                    assert(t.drop_last() =~= snaps.take(si as int));
                    assert(t.last() == snaps[si as int]);
                    assert(snaps[si as int] == snapshot@);
                }
                let dir = BackupDir::new(
                    BackupGroup::new(group.ty, group.id.clone()),
                    snapshot.time,
                );
                match dir.to_string() {
                    Ok(path) => {
                        let ghost before = image_views(out@);
                        push_file_images(&mut out, Some(&path), &snapshot.files);
                        proof {
                            let init = snapshot_images(group@.ty, group@.id, snaps.take(si as int));
                            let add = file_images(Some(path@), snapshot@.files);
                            assert((start + init) + add =~= start + (init + add));
                        }
                    },
                    Err(_) => {},
                }
                si += 1;
            }
            proof {
                assert(snaps.take(group.snapshots.len() as int) =~= snaps);
            }
            gi += 1;
        }
        proof {
            assert(groups.take(self.groups.len() as int) =~= groups);
        }
        push_file_images(&mut out, None, &self.strays);
        out
    }

    /// The file outside the scheme `<type>/<id>/<timestamp>/` at a path
    /// below the base directory, if there is one.
    pub fn load_stray(&self, path: &str) -> (r: Option<FileContent>)
        requires
            self.wf(),
        ensures
            match file_index(self@.strays, path@) {
                Some(i) => r is Some && r->0@ == self@.strays[i].content,
                None => r is None,
            },
    {
        match find_file(&self.strays, path) {
            Some(i) => {
                assert(self@.strays[i as int] == self.strays@[i as int]@);
                Some(self.strays[i].content.duplicate())
            },
            None => None,
        }
    }

    /// Stores an index file outside the scheme `<type>/<id>/<timestamp>/`,
    /// under its path below the base directory, in place of the file at
    /// that path if there is one.
    pub fn store_stray(&mut self, path: &str, index: IndexData)
        requires
            old(self).wf(),
        ensures
            final(self).wf(),
            final(self)@ == (NamespaceView {
                strays: with_file(old(self)@.strays, path@, ContentView::Index(index@)),
                ..old(self)@
            }),
    {
        let ghost old_files = self@.strays;
        let ghost fv = SnapshotFileView { name: path@, content: ContentView::Index(index@) };
        let file = SnapshotFile { name: String::from_str(path), content: FileContent::Index(index) };
        match find_file(&self.strays, path) {
            Some(fi) => {
                self.strays.remove(fi);
                self.strays.insert(fi, file);
                proof {
                    assert(self@.strays =~= old_files.update(fi as int, fv));
                }
            },
            None => {
                self.strays.push(file);
                proof {
                    assert(self@.strays =~= old_files.push(fv));
                }
            },
        }
        proof {
            lemma_with_file(old_files, path@, ContentView::Index(index@));
        }
    }
}


/// The proof of holding the manifest lock of a snapshot.
#[derive(Debug)]
pub struct ManifestLockGuard {
    ty: BackupType,
    id: String,
    time: i64,
}

impl ManifestLockGuard {
    /// The snapshot whose manifest is locked.
    pub closed spec fn dir(&self) -> BackupDirView {
        BackupDirView { group: BackupGroupView { ty: self.ty, id: self.id@ }, time: self.time }
    }
}

/// The path of the manifest lock of a snapshot: it lies below the run
/// directory, not in the snapshot, so that exchanging the manifest file
/// does not touch it.
pub open spec fn manifest_lock_path_spec(
    run_dir: Seq<char>,
    store: Seq<char>,
    dir: BackupDirView,
) -> Option<Seq<char>> {
    match snapshot_path_text(dir.group.ty, dir.group.id, dir.time as int) {
        Some(path) => Some(run_dir + "/locks/"@ + store + "/"@ + path + ".index.json.lck"@),
        None => None,
    }
}

/// The path of the manifest lock of a snapshot of the datastore `store`.
/// Fails with `InvalidInput` where the time has no text.
pub fn manifest_lock_path(run_dir: &str, store: &str, backup_dir: &BackupDir) -> (r: Result<
    String,
    Error,
>)
    ensures
        match manifest_lock_path_spec(run_dir@, store@, backup_dir@) {
            Some(p) => r is Ok && r->Ok_0@ == p,
            None => r matches Err(e) && e == Error::InvalidInput,
        },
{
    let rel = backup_dir.to_string()?;
    let mut path = String::from_str(run_dir);
    path.append("/locks/");
    path.append(store);
    path.append("/");
    path.append(rel.as_str());
    path.append(".index.json.lck");
    Ok(path)
}

/// What taking or giving back the manifest lock of a snapshot leaves.
pub open spec fn manifest_lock_state(ns: NamespaceView, dir: BackupDirView, locked: bool) -> NamespaceView {
    match locate(ns, dir) {
        None => ns,
        Some((gi, si)) => {
            let s = ns.groups[gi].snapshots[si];
            with_snapshot(ns, gi, si, SnapshotView { manifest_locked: locked, ..s })
        },
    }
}

impl Namespace {
    /// Whether a snapshot is protected. Fails with `NotFound` without the
    /// snapshot.
    pub fn is_protected(&self, backup_dir: &BackupDir) -> (r: Result<bool, Error>)
        requires
            self.wf(),
        ensures
            match locate(self@, backup_dir@) {
                None => r == Err::<bool, Error>(Error::NotFound),
                Some((gi, si)) => r == Ok::<bool, Error>(
                    is_protected(self@.groups[gi].snapshots[si]),
                ),
            },
    {
        let (gi, si) = match self.find_dir(backup_dir) {
            None => {
                return Err(Error::NotFound);
            },
            Some(at) => at,
        };
        Ok(find_file(&self.groups[gi].snapshots[si].files, PROTECTED_MARKER_NAME).is_some())
    }

    /// Takes the manifest lock of a snapshot. Fails with `NotFound`
    /// without the snapshot, and with `LockTimeout` while the lock is
    /// held; a failure leaves the namespace as it was.
    pub fn lock_manifest(&mut self, backup_dir: &BackupDir) -> (r: Result<ManifestLockGuard, Error>)
        requires
            old(self).wf(),
        ensures
            final(self).wf(),
            match locate(old(self)@, backup_dir@) {
                None => (r matches Err(e) && e == Error::NotFound) && final(self)@ == old(self)@,
                Some((gi, si)) => if old(self)@.groups[gi].snapshots[si].manifest_locked {
                    (r matches Err(e) && e == Error::LockTimeout) && final(self)@ == old(self)@
                } else {
                    r is Ok && r->Ok_0.dir() == backup_dir@ && final(self)@ == manifest_lock_state(
                        old(self)@,
                        backup_dir@,
                        true,
                    )
                },
            },
    {
        let ghost before = self@;
        let (gi, si) = match self.find_dir(backup_dir) {
            None => {
                return Err(Error::NotFound);
            },
            Some(at) => at,
        };
        if self.groups[gi].snapshots[si].manifest_locked {
            return Err(Error::LockTimeout);
        }
        let (group, mut snapshot) = self.take_snapshot(gi, si);
        snapshot.manifest_locked = true;
        self.put_snapshot(gi, si, group, snapshot, Ghost(before));
        Ok(
            ManifestLockGuard {
                ty: backup_dir.group.ty,
                id: backup_dir.group.id.clone(),
                time: backup_dir.time,
            },
        )
    }

    /// Gives the manifest lock of a snapshot back.
    pub fn unlock_manifest(&mut self, guard: ManifestLockGuard)
        requires
            old(self).wf(),
        ensures
            final(self).wf(),
            final(self)@ == manifest_lock_state(old(self)@, guard.dir(), false),
    {
        let ghost before = self@;
        let dir = BackupDir::new(BackupGroup::new(guard.ty, guard.id), guard.time);
        let (gi, si) = match self.find_dir(&dir) {
            None => {
                return ;
            },
            Some(at) => at,
        };
        let (group, mut snapshot) = self.take_snapshot(gi, si);
        snapshot.manifest_locked = false;
        self.put_snapshot(gi, si, group, snapshot, Ghost(before));
    }
}

} // verus!
