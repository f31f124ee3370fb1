//! What a directory listing means to the datastore: which entries are
//! backup groups, which are snapshots, which files of a walk are index
//! files, and which failures of a walk end it.
//!
//! The functions take what was read from the file system as plain values.

use vstd::prelude::*;
use vstd::string::StringExecFns;
use crate::api_types::{
    backup_type_of_chars, backup_type_of_name, is_backup_id, matches_backup_id, BackupGroup,
    BackupGroupView, BackupType,
};
use crate::error::Error;
use crate::manifest::{
    archive_type_chars, file_name_chars, file_name_of, is_index_path, ArchiveType, BackupManifest,
};
use crate::namespace::{is_hidden_name, is_wanted, wants_file};
use crate::rfc3339::{is_backup_date, matches_backup_date, parse_rfc3339_chars, parse_rfc3339_spec};
use crate::text::{same_chars, string_of, to_chars};

verus! {

/// What kind of file a directory entry is.
#[derive(Clone, Copy, Debug, PartialEq, Eq, Structural)]
pub enum EntryKind {
    Directory,
    File,
    Other,
}

/// An entry of a directory.
#[derive(Debug)]
pub struct DirEntryInfo {
    /// The name of the entry; `None` where the name is not UTF-8.
    pub name: Option<String>,
    /// The kind of the entry; `None` where the file system does not tell.
    pub kind: Option<EntryKind>,
}

/// What reading a directory yields, item by item: an entry, or the failure
/// of reading one.
#[derive(Debug)]
pub enum ReadItem {
    Entry(DirEntryInfo),
    Failed(Error),
}

/// The name of an entry, as contracts see it.
pub open spec fn entry_name(entry: DirEntryInfo) -> Option<Seq<char>> {
    match entry.name {
        Some(n) => Some(n@),
        None => None,
    }
}

/// What an entry of a group directory means: nothing, unless it is a
/// directory whose name has the strict shape of a timestamp; then the time
/// that the name stands for, or `InvalidInput` where it stands for none.
pub open spec fn snapshot_entry_spec(name: Option<Seq<char>>, kind: Option<EntryKind>) -> Option<
    Result<i64, Error>,
> {
    match name {
        Some(n) => if kind == Some(EntryKind::Directory) && is_backup_date(n) {
            match parse_rfc3339_spec(n) {
                Some(t) => Some(Ok(t as i64)),
                None => Some(Err(Error::InvalidInput)),
            }
        } else {
            None
        },
        None => None,
    }
}

/// What an entry of a group directory means.
pub fn snapshot_of_entry(entry: &DirEntryInfo) -> (r: Option<Result<i64, Error>>)
    ensures
        r == snapshot_entry_spec(entry_name(*entry), entry.kind),
{
    match entry.kind {
        Some(EntryKind::Directory) => {},
        _ => {
            return None;
        },
    }
    let name = match &entry.name {
        Some(n) => to_chars(n.as_str()),
        None => {
            return None;
        },
    };
    if !matches_backup_date(&name) {
        return None;
    }
    Some(parse_rfc3339_chars(&name))
}

/// What the items of a group directory mean: the snapshot times and the
/// failures, in the order of the items. Entries that are no snapshots are
/// passed over.
pub open spec fn snapshot_list_spec(items: Seq<ReadItem>) -> Seq<Result<i64, Error>>
    decreases items.len(),
{
    if items.len() == 0 {
        Seq::empty()
    } else {
        let init = snapshot_list_spec(items.drop_last());
        match items.last() {
            ReadItem::Failed(e) => init.push(Err(e)),
            ReadItem::Entry(entry) => match snapshot_entry_spec(entry_name(entry), entry.kind) {
                Some(r) => init.push(r),
                None => init,
            },
        }
    }
}

/// Lists the snapshots of a group from what reading its directory gave.
pub fn list_snapshots(items: &Vec<ReadItem>) -> (list: Vec<Result<i64, Error>>)
    ensures
        list@ == snapshot_list_spec(items@),
{
    let mut list: Vec<Result<i64, Error>> = Vec::new();
    let mut i: usize = 0;
    assert(items@.take(0) =~= Seq::<ReadItem>::empty());
    while i < items.len()
        invariant
            i <= items.len(),
            list@ == snapshot_list_spec(items@.take(i as int)),
        decreases items.len() - i,
    {
        proof {
            let t = items@.take(i + 1);
            assert(t.drop_last() =~= items@.take(i as int));
            assert(t.last() == items@[i as int]);
        }
        match &items[i] {
            ReadItem::Failed(e) => {
                list.push(Err(*e));
            },
            ReadItem::Entry(entry) => match snapshot_of_entry(entry) {
                Some(r) => {
                    list.push(r);
                },
                None => {},
            },
        }
        i += 1;
    }
    assert(items@.take(items.len() as int) =~= items@);
    list
}

/// The backup type that an entry of the base directory stands for: the
/// entry is a directory and has the name of a backup type.
pub open spec fn group_type_spec(name: Option<Seq<char>>, kind: Option<EntryKind>) -> Option<
    BackupType,
> {
    match name {
        Some(n) => if kind == Some(EntryKind::Directory) {
            backup_type_of_name(n)
        } else {
            None
        },
        None => None,
    }
}

/// The backup type that an entry of the base directory stands for.
pub fn group_type_of_entry(entry: &DirEntryInfo) -> (r: Option<BackupType>)
    ensures
        r == group_type_spec(entry_name(*entry), entry.kind),
{
    match entry.kind {
        Some(EntryKind::Directory) => {},
        _ => {
            return None;
        },
    }
    match &entry.name {
        Some(n) => match backup_type_of_chars(&to_chars(n.as_str())) {
            Ok(ty) => Some(ty),
            Err(_) => None,
        },
        None => None,
    }
}

/// The group id that an entry of a type directory stands for: the entry is
/// a directory and its name has the shape of an id.
pub open spec fn group_id_spec(name: Option<Seq<char>>, kind: Option<EntryKind>) -> Option<
    Seq<char>,
> {
    match name {
        Some(n) => if kind == Some(EntryKind::Directory) && is_backup_id(n) {
            Some(n)
        } else {
            None
        },
        None => None,
    }
}

/// The group id that an entry of a type directory stands for.
pub fn group_id_of_entry(entry: &DirEntryInfo) -> (r: Option<String>)
    ensures
        match group_id_spec(entry_name(*entry), entry.kind) {
            Some(id) => r is Some && r->0@ == id,
            None => r is None,
        },
{
    match entry.kind {
        Some(EntryKind::Directory) => {},
        _ => {
            return None;
        },
    }
    match &entry.name {
        Some(n) => if matches_backup_id(&to_chars(n.as_str())) {
            Some(n.clone())
        } else {
            None
        },
        None => None,
    }
}

/// One item of the base directory, with what reading it as a type
/// directory gave, if it was read.
#[derive(Debug)]
pub struct TypeDirItem {
    pub item: ReadItem,
    /// The items of the directory, or the failure of opening it; `None`
    /// where the directory was not read.
    pub ids: Option<Result<Vec<ReadItem>, Error>>,
}

/// A listed group or a failure, as contracts see it.
pub enum GroupItemView {
    Group(BackupGroupView),
    Failed(Error),
}

/// The view of a listed group or failure.
pub open spec fn group_item_view(item: Result<BackupGroup, Error>) -> GroupItemView {
    match item {
        Ok(g) => GroupItemView::Group(g@),
        Err(e) => GroupItemView::Failed(e),
    }
}

/// The views of a list of groups and failures.
pub open spec fn group_item_views(list: Seq<Result<BackupGroup, Error>>) -> Seq<GroupItemView> {
    Seq::new(list.len(), |i: int| group_item_view(list[i]))
}

/// What the items of one type directory mean: the groups and the
/// failures, in the order of the items.
pub open spec fn id_list_spec(ty: BackupType, items: Seq<ReadItem>) -> Seq<GroupItemView>
    decreases items.len(),
{
    if items.len() == 0 {
        Seq::empty()
    } else {
        let init = id_list_spec(ty, items.drop_last());
        match items.last() {
            ReadItem::Failed(e) => init.push(GroupItemView::Failed(e)),
            ReadItem::Entry(entry) => match group_id_spec(entry_name(entry), entry.kind) {
                Some(id) => init.push(GroupItemView::Group(BackupGroupView { ty, id })),
                None => init,
            },
        }
    }
}

/// What one item of the base directory means: a failure for a failed
/// item; nothing for an entry that is no type directory; else the groups
/// of the type directory, or the failure of opening it.
pub open spec fn type_item_spec(item: TypeDirItem) -> Seq<GroupItemView> {
    match item.item {
        ReadItem::Failed(e) => seq![GroupItemView::Failed(e)],
        ReadItem::Entry(entry) => match group_type_spec(entry_name(entry), entry.kind) {
            None => Seq::empty(),
            Some(ty) => match item.ids {
                None => Seq::empty(),
                Some(Err(e)) => seq![GroupItemView::Failed(e)],
                Some(Ok(ids)) => id_list_spec(ty, ids@),
            },
        },
    }
}

/// What the items of the base directory mean.
pub open spec fn group_list_spec(items: Seq<TypeDirItem>) -> Seq<GroupItemView>
    decreases items.len(),
{
    if items.len() == 0 {
        Seq::empty()
    } else {
        group_list_spec(items.drop_last()) + type_item_spec(items.last())
    }
}

/// Adds the groups of one type directory to a list.
fn push_ids(list: &mut Vec<Result<BackupGroup, Error>>, ty: BackupType, items: &Vec<ReadItem>)
    ensures
        group_item_views(final(list)@) == group_item_views(old(list)@) + id_list_spec(ty, items@),
{
    let ghost start = group_item_views(list@);
    let mut i: usize = 0;
    proof {
        assert(items@.take(0) =~= Seq::<ReadItem>::empty());
        assert(start + id_list_spec(ty, items@.take(0)) =~= start);
    }
    while i < items.len()
        invariant
            i <= items.len(),
            group_item_views(list@) == start + id_list_spec(ty, items@.take(i as int)),
        decreases items.len() - i,
    {
        proof {
            let t = items@.take(i + 1);
            assert(t.drop_last() =~= items@.take(i as int));
            assert(t.last() == items@[i as int]);
        }
        let ghost before = group_item_views(list@);
        match &items[i] {
            ReadItem::Failed(e) => {
                list.push(Err(*e));
                proof {
                    assert(group_item_views(list@) =~= before.push(GroupItemView::Failed(*e)));
                    assert(group_item_views(list@) =~= start + id_list_spec(
                        ty,
                        items@.take(i + 1),
                    ));
                }
            },
            ReadItem::Entry(entry) => match group_id_of_entry(entry) {
                Some(id) => {
                    let group = BackupGroup::new(ty, id);
                    let ghost gv = group@;
                    list.push(Ok(group));
                    proof {
                        assert(group_item_views(list@) =~= before.push(GroupItemView::Group(gv)));
                        assert(group_item_views(list@) =~= start + id_list_spec(
                            ty,
                            items@.take(i + 1),
                        ));
                    }
                },
                None => {},
            },
        }
        i += 1;
    }
    assert(items@.take(items.len() as int) =~= items@);
}

/// Lists the groups of a datastore from what reading its base directory
/// and its type directories gave. A failure is listed where it happened,
/// and the listing goes on behind it.
pub fn list_groups(items: &Vec<TypeDirItem>) -> (list: Vec<Result<BackupGroup, Error>>)
    ensures
        group_item_views(list@) == group_list_spec(items@),
{
    let mut list: Vec<Result<BackupGroup, Error>> = Vec::new();
    let mut i: usize = 0;
    proof {
        assert(items@.take(0) =~= Seq::<TypeDirItem>::empty());
        assert(group_item_views(list@) =~= Seq::<GroupItemView>::empty());
    }
    while i < items.len()
        invariant
            i <= items.len(),
            group_item_views(list@) == group_list_spec(items@.take(i as int)),
        decreases items.len() - i,
    {
        proof {
            let t = items@.take(i + 1);
            assert(t.drop_last() =~= items@.take(i as int));
            assert(t.last() == items@[i as int]);
        }
        let ghost before = group_item_views(list@);
        match &items[i].item {
            ReadItem::Failed(e) => {
                list.push(Err(*e));
                proof {
                    assert(group_item_views(list@) =~= before + seq![GroupItemView::Failed(*e)]);
                }
            },
            ReadItem::Entry(entry) => match group_type_of_entry(entry) {
                None => {
                    proof {
                        assert(before + Seq::<GroupItemView>::empty() =~= before);
                    }
                },
                Some(ty) => match &items[i].ids {
                    None => {
                        proof {
                            assert(before + Seq::<GroupItemView>::empty() =~= before);
                        }
                    },
                    Some(Err(e)) => {
                        list.push(Err(*e));
                        proof {
                            assert(group_item_views(list@) =~= before + seq![
                                GroupItemView::Failed(*e),
                            ]);
                        }
                    },
                    Some(Ok(ids)) => {
                        push_ids(&mut list, ty, ids);
                    },
                },
            },
        }
        i += 1;
    }
    assert(items@.take(items.len() as int) =~= items@);
    list
}

/// The kinds of failure of the file system that the datastore tells
/// apart.
#[derive(Clone, Copy, Debug, PartialEq, Eq, Structural)]
pub enum IoErrorKind {
    NotFound,
    PermissionDenied,
    AlreadyExists,
    Other,
}

/// One item of a walk through the datastore's directory tree.
#[derive(Debug)]
#[allow(inconsistent_fields)]
pub enum WalkItem {
    /// A file or a directory, by its path.
    Entry { path: String },
    /// A failure: the error of the file system behind it, if there is one,
    /// the path at which it happened, if it is known, and how deep below
    /// the base directory that is.
    Failure { io_error: Option<IoErrorKind>, path: Option<String>, depth: usize },
}

/// Whether a failure of the walk ends garbage collection. A failure
/// without an error of the file system does not. Of the others only a
/// denied permission on a `lost+found` directly below the base directory
/// is passed over: going on behind any other could lose chunks.
pub open spec fn walk_failure_is_fatal(
    io_error: Option<IoErrorKind>,
    path: Option<Seq<char>>,
    depth: usize,
) -> bool {
    match io_error {
        None => false,
        Some(kind) => match path {
            None => true,
            Some(p) => if kind == IoErrorKind::PermissionDenied {
                depth > 1 || file_name_of(p) != "lost+found"@
            } else {
                true
            },
        },
    }
}

/// Decides whether a failure of the walk ends garbage collection: fails
/// with `IoError` if it does.
pub fn handle_entry_err(io_error: Option<IoErrorKind>, path: Option<&str>, depth: usize) -> (r:
    Result<(), Error>)
    ensures
        r == if walk_failure_is_fatal(
            io_error,
            match path {
                Some(p) => Some(p@),
                None => None,
            },
            depth,
        ) {
            Err::<(), Error>(Error::IoError)
        } else {
            Ok::<(), Error>(())
        },
{
    let kind = match io_error {
        None => {
            return Ok(());
        },
        Some(kind) => kind,
    };
    let path = match path {
        None => {
            return Err(Error::IoError);
        },
        Some(p) => p,
    };
    match kind {
        IoErrorKind::PermissionDenied => {
            if depth > 1 {
                return Err(Error::IoError);
            }
            let name = file_name_chars(&to_chars(path));
            if same_chars(&name, &to_chars("lost+found")) {
                Ok(())
            } else {
                Err(Error::IoError)
            }
        },
        _ => Err(Error::IoError),
    }
}

/// Whether the walk leaves an entry of this name out: the name begins
/// with `.`.
pub fn is_hidden(file_name: &str) -> (r: bool)
    ensures
        r == is_hidden_name(file_name@),
{
    let chars = to_chars(file_name);
    chars.len() > 0 && chars[0] == '.'
}

/// The failure that ends the walk, if one does: the place of the first
/// fatal failure among the first `k` items.
pub open spec fn first_fatal(items: Seq<WalkItem>, k: int) -> Option<int>
    decreases k,
{
    if k <= 0 {
        None
    } else {
        match first_fatal(items, k - 1) {
            Some(i) => Some(i),
            None => match items[k - 1] {
                WalkItem::Failure { io_error, path, depth } => if walk_failure_is_fatal(
                    io_error,
                    match path {
                        Some(p) => Some(p@),
                        None => None,
                    },
                    depth,
                ) {
                    Some(k - 1)
                } else {
                    None
                },
                WalkItem::Entry { .. } => None,
            },
        }
    }
}

/// The paths of the index files among the first `k` items of a walk.
pub open spec fn walk_images(items: Seq<WalkItem>, k: int) -> Seq<Seq<char>>
    decreases k,
{
    if k <= 0 {
        Seq::empty()
    } else {
        let init = walk_images(items, k - 1);
        match items[k - 1] {
            WalkItem::Entry { path } => if is_index_path(path@) {
                init.push(path@)
            } else {
                init
            },
            WalkItem::Failure { .. } => init,
        }
    }
}

/// The views of a list of strings.
pub open spec fn path_views(v: Seq<String>) -> Seq<Seq<char>> {
    Seq::new(v.len(), |i: int| v[i]@)
}

/// Lists the index files that a walk found: the entries whose names are
/// those of index files.
///
/// Fails with `IoError` where a failure of the walk is fatal.
pub fn list_images_from_walk(items: &Vec<WalkItem>) -> (r: Result<Vec<String>, Error>)
    ensures
        match first_fatal(items@, items@.len() as int) {
            Some(_) => r matches Err(e) && e == Error::IoError,
            None => r is Ok && path_views(r->Ok_0@) == walk_images(items@, items@.len() as int),
        },
{
    let mut list: Vec<String> = Vec::new();
    let mut i: usize = 0;
    assert(path_views(list@) =~= Seq::<Seq<char>>::empty());
    while i < items.len()
        invariant
            i <= items.len(),
            first_fatal(items@, i as int) is None,
            path_views(list@) == walk_images(items@, i as int),
        decreases items.len() - i,
    {
        match &items[i] {
            WalkItem::Failure { io_error, path, depth } => {
                let path_ref: Option<&str> = match path {
                    Some(p) => Some(p.as_str()),
                    None => None,
                };
                match handle_entry_err(*io_error, path_ref, *depth) {
                    Err(e) => {
                        proof {
                            lemma_first_fatal_stays(items@, i + 1, items@.len() as int);
                        }
                        return Err(e);
                    },
                    Ok(_) => {},
                }
            },
            WalkItem::Entry { path } => {
                let is_index: bool = match archive_type_chars(&to_chars(path.as_str())) {
                    Ok(ArchiveType::FixedIndex) => true,
                    Ok(ArchiveType::DynamicIndex) => true,
                    _ => false,
                };
                if is_index {
                    let ghost before = path_views(list@);
                    list.push(path.clone());
                    proof {
                        assert(path_views(list@) =~= before.push(path@));
                    }
                }
            },
        }
        i += 1;
    }
    Ok(list)
}

/// Once a failure ends the walk, the items behind it do not matter.
pub proof fn lemma_first_fatal_stays(items: Seq<WalkItem>, k: int, j: int)
    requires
        0 <= k <= j,
        first_fatal(items, k) is Some,
    ensures
        first_fatal(items, j) is Some,
    decreases j - k,
{
    if k < j {
        lemma_first_fatal_stays(items, k, j - 1);
    }
}

/// Whether cleaning a snapshot directory up removes an entry: the entry is
/// a file, or of unknown kind; it is neither `.` nor `..`; and its name is
/// not UTF-8 or not one that the manifest wants.
pub open spec fn cleanup_removes_spec(
    name: Option<Seq<char>>,
    kind: Option<EntryKind>,
    manifest: crate::manifest::ManifestView,
) -> bool {
    &&& kind is None || kind == Some(EntryKind::File)
    &&& match name {
        None => true,
        Some(n) => n != "."@ && n != ".."@ && !is_wanted(n, manifest),
    }
}

/// Decides whether cleaning a snapshot directory up removes an entry.
pub fn cleanup_removes(entry: &DirEntryInfo, manifest: &BackupManifest) -> (r: bool)
    ensures
        r == cleanup_removes_spec(entry_name(*entry), entry.kind, manifest@),
{
    match entry.kind {
        Some(EntryKind::File) => {},
        None => {},
        _ => {
            return false;
        },
    }
    match &entry.name {
        None => true,
        Some(n) => {
            if *n == String::from_str(".") || *n == String::from_str("..") {
                return false;
            }
            !wants_file(n, manifest)
        },
    }
}

} // verus!
