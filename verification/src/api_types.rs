//! The plain values that the datastore exchanges with its callers.

use vstd::prelude::*;
use vstd::string::StringExecFns;
use crate::error::Error;
use crate::rfc3339::{epoch_to_rfc3339_utc, format_rfc3339_spec, parse_rfc3339_chars, parse_rfc3339_spec};
use crate::text::{
    same_chars, split, split_spec, string_of, to_chars, trim_start, trim_start_spec, views,
};

verus! {

/// The kind of operation that a datastore handle was opened for.
#[derive(Clone, Copy, Debug, PartialEq, Eq, Structural)]
pub enum Operation {
    Read,
    Write,
}

/// In which order the chunks of an index are read.
#[derive(Clone, Copy, Debug, PartialEq, Eq, Structural)]
pub enum ChunkOrder {
    /// As the index lists them.
    Unordered,
    /// By the inode number of the chunk file.
    Inode,
}

/// `n`, or the largest `u64` where `n` is beyond it.
pub open spec fn sat_u64(n: int) -> u64 {
    if n > u64::MAX {
        u64::MAX
    } else if n < 0 {
        0
    } else {
        n as u64
    }
}

/// `n`, or the largest `usize` where `n` is beyond it.
pub open spec fn sat_usize(n: int) -> usize {
    if n > usize::MAX {
        usize::MAX
    } else if n < 0 {
        0
    } else {
        n as usize
    }
}

/// What a run of garbage collection found and did.
#[derive(Debug)]
pub struct GarbageCollectionStatus {
    /// The task that ran the collection.
    pub upid: Option<String>,
    /// Number of index files that were marked.
    pub index_file_count: usize,
    /// Sum of the bytes that the marked index files stand for.
    pub index_data_bytes: u64,
    /// Bytes of the chunks that stay on disk.
    pub disk_bytes: u64,
    /// Number of chunks that stay on disk.
    pub disk_chunks: usize,
    /// Bytes of the chunk files that were removed.
    pub removed_bytes: u64,
    /// Number of chunks that were removed.
    pub removed_chunks: usize,
    /// Bytes of the chunk files that are old enough to go but lie inside the
    /// safety window.
    pub pending_bytes: u64,
    /// Number of chunks that are old enough to go but lie inside the safety
    /// window.
    pub pending_chunks: usize,
    /// Number of `.bad` sidecars that were removed.
    pub removed_bad: usize,
    /// Number of `.bad` sidecars that stay.
    pub still_bad: usize,
}

impl GarbageCollectionStatus {
    /// The status before anything was counted.
    pub open spec fn is_empty(&self) -> bool {
        &&& self.upid is None
        &&& self.index_file_count == 0
        &&& self.index_data_bytes == 0
        &&& self.disk_bytes == 0
        &&& self.disk_chunks == 0
        &&& self.removed_bytes == 0
        &&& self.removed_chunks == 0
        &&& self.pending_bytes == 0
        &&& self.pending_chunks == 0
        &&& self.removed_bad == 0
        &&& self.still_bad == 0
    }

    /// The average size of the chunks on disk, if there are any.
    pub fn average_chunk_size(&self) -> (r: Option<u64>)
        ensures
            self.disk_chunks == 0 ==> r is None,
            self.disk_chunks > 0 ==> r == Some((self.disk_bytes as int / self.disk_chunks as int) as u64),
    {
        if self.disk_chunks > 0 {
            Some(self.disk_bytes / (self.disk_chunks as u64))
        } else {
            None
        }
    }
}

impl Default for GarbageCollectionStatus {
    fn default() -> (s: Self)
        ensures
            s.is_empty(),
    {
        GarbageCollectionStatus {
            upid: None,
            index_file_count: 0,
            index_data_bytes: 0,
            disk_bytes: 0,
            disk_chunks: 0,
            removed_bytes: 0,
            removed_chunks: 0,
            pending_bytes: 0,
            pending_chunks: 0,
            removed_bad: 0,
            still_bad: 0,
        }
    }
}

impl Clone for GarbageCollectionStatus {
    fn clone(&self) -> (s: Self)
        ensures
            s == *self,
    {
        GarbageCollectionStatus {
            upid: match &self.upid {
                Some(u) => Some(u.clone()),
                None => None,
            },
            index_file_count: self.index_file_count,
            index_data_bytes: self.index_data_bytes,
            disk_bytes: self.disk_bytes,
            disk_chunks: self.disk_chunks,
            removed_bytes: self.removed_bytes,
            removed_chunks: self.removed_chunks,
            pending_bytes: self.pending_bytes,
            pending_chunks: self.pending_chunks,
            removed_bad: self.removed_bad,
            still_bad: self.still_bad,
        }
    }
}


/// What kind of source a backup group holds.
#[derive(Clone, Copy, Debug, PartialEq, Eq, Structural)]
pub enum BackupType {
    /// Virtual machines.
    Vm,
    /// Containers.
    Ct,
    /// Hosts.
    Host,
}

/// The directory name of a backup type.
pub open spec fn backup_type_name(ty: BackupType) -> Seq<char> {
    match ty {
        BackupType::Vm => "vm"@,
        BackupType::Ct => "ct"@,
        BackupType::Host => "host"@,
    }
}

/// The backup type that a directory name stands for.
pub open spec fn backup_type_of_name(name: Seq<char>) -> Option<BackupType> {
    if name == "vm"@ {
        Some(BackupType::Vm)
    } else if name == "ct"@ {
        Some(BackupType::Ct)
    } else if name == "host"@ {
        Some(BackupType::Host)
    } else {
        None
    }
}

impl BackupType {
    /// The directory name of the type.
    pub fn as_str(&self) -> (s: &'static str)
        ensures
            s@ == backup_type_name(*self),
    {
        match self {
            BackupType::Vm => "vm",
            BackupType::Ct => "ct",
            BackupType::Host => "host",
        }
    }

    /// The type that `name` stands for. Fails with `InvalidInput` on every
    /// other name.
    pub fn from_str(name: &str) -> (r: Result<BackupType, Error>)
        ensures
            match backup_type_of_name(name@) {
                Some(ty) => r == Ok::<BackupType, Error>(ty),
                None => r == Err::<BackupType, Error>(Error::InvalidInput),
            },
    {
        let chars = to_chars(name);
        backup_type_of_chars(&chars)
    }
}

/// The type that the characters of a name stand for.
pub fn backup_type_of_chars(name: &Vec<char>) -> (r: Result<BackupType, Error>)
    ensures
        match backup_type_of_name(name@) {
            Some(ty) => r == Ok::<BackupType, Error>(ty),
            None => r == Err::<BackupType, Error>(Error::InvalidInput),
        },
{
    if same_chars(name, &to_chars("vm")) {
        Ok(BackupType::Vm)
    } else if same_chars(name, &to_chars("ct")) {
        Ok(BackupType::Ct)
    } else if same_chars(name, &to_chars("host")) {
        Ok(BackupType::Host)
    } else {
        Err(Error::InvalidInput)
    }
}

/// Whether `c` may begin an id: a letter, a digit or `_`.
pub open spec fn is_id_start(c: char) -> bool {
    let u = c as u32;
    (65 <= u <= 90) || (97 <= u <= 122) || (48 <= u <= 57) || u == 95
}

/// Whether `c` may stand in an id: what may begin it, `.` or `-`.
pub open spec fn is_id_char(c: char) -> bool {
    let u = c as u32;
    is_id_start(c) || u == 46 || u == 45
}

/// The shape of the id of a backup group: it begins with a letter, a digit
/// or `_`, and goes on with these, `.` and `-`.
pub open spec fn is_backup_id(s: Seq<char>) -> bool {
    &&& s.len() >= 1
    &&& is_id_start(s[0])
    &&& forall|i: int| 1 <= i < s.len() ==> is_id_char(#[trigger] s[i])
}

/// A character of an id is a letter, a digit, `_`, `.` or `-`: no white
/// space and no line feed.
pub proof fn lemma_id_char_code(s: Seq<char>, i: int)
    requires
        is_backup_id(s),
        0 <= i < s.len(),
    ensures
        is_id_char(s[i]),
        s[i] != '\n',
        !crate::text::is_space(s[i]),
{
    if i == 0 {
        assert(is_id_start(s[0]));
    }
}

/// Whether `s` has the shape of the id of a backup group.
pub fn matches_backup_id(s: &Vec<char>) -> (r: bool)
    ensures
        r == is_backup_id(s@),
{
    if s.len() == 0 {
        return false;
    }
    let u: u32 = s[0] as u32;
    if !((65 <= u && u <= 90) || (97 <= u && u <= 122) || (48 <= u && u <= 57) || u == 95) {
        return false;
    }
    let mut i: usize = 1;
    while i < s.len()
        invariant
            1 <= i <= s.len(),
            forall|k: int| 1 <= k < i ==> is_id_char(#[trigger] s@[k]),
        decreases s.len() - i,
    {
        let v: u32 = s[i] as u32;
        if !((65 <= v && v <= 90) || (97 <= v && v <= 122) || (48 <= v && v <= 57) || v == 95 || v
            == 46 || v == 45) {
            return false;
        }
        i += 1;
    }
    true
}

/// A backup group: the snapshots of one source.
#[derive(Debug)]
pub struct BackupGroup {
    pub ty: BackupType,
    pub id: String,
}

/// A backup group, as contracts see it.
pub struct BackupGroupView {
    pub ty: BackupType,
    pub id: Seq<char>,
}

impl View for BackupGroup {
    type V = BackupGroupView;

    open spec fn view(&self) -> BackupGroupView {
        BackupGroupView { ty: self.ty, id: self.id@ }
    }
}

/// The path of a group below the base directory: `<type>/<id>`.
pub open spec fn group_path_text(ty: BackupType, id: Seq<char>) -> Seq<char> {
    backup_type_name(ty) + "/"@ + id
}

/// The group that a path stands for: two pieces, a backup type and an id.
pub open spec fn parse_group_spec(path: Seq<char>) -> Option<BackupGroupView> {
    let pieces = split_spec(path, '/');
    if pieces.len() == 2 && backup_type_of_name(pieces[0]) is Some && is_backup_id(pieces[1]) {
        Some(BackupGroupView { ty: backup_type_of_name(pieces[0])->0, id: pieces[1] })
    } else {
        None
    }
}

impl BackupGroup {
    /// The group of this type and id.
    pub fn new(ty: BackupType, id: String) -> (group: BackupGroup)
        ensures
            group@ == (BackupGroupView { ty, id: id@ }),
    {
        BackupGroup { ty, id }
    }

    /// A copy of the group.
    pub fn duplicate(&self) -> (group: BackupGroup)
        ensures
            group@ == self@,
    {
        BackupGroup { ty: self.ty, id: self.id.clone() }
    }

    /// The path of the group below the base directory.
    pub fn to_string(&self) -> (s: String)
        ensures
            s@ == group_path_text(self.ty, self.id@),
    {
        let mut s = String::from_str(self.ty.as_str());
        s.append("/");
        s.append(self.id.as_str());
        s
    }

    /// The group that `path` stands for. Fails with `InvalidInput` on what
    /// is not the path of a group.
    pub fn parse(path: &str) -> (r: Result<BackupGroup, Error>)
        ensures
            match parse_group_spec(path@) {
                Some(g) => r is Ok && r->Ok_0@ == g,
                None => r matches Err(e) && e == Error::InvalidInput,
            },
    {
        let chars = to_chars(path);
        let pieces = split(&chars, '/');
        if pieces.len() != 2 {
            return Err(Error::InvalidInput);
        }
        assert(views(pieces@)[0] == pieces@[0]@);
        assert(views(pieces@)[1] == pieces@[1]@);
        let ty = match backup_type_of_chars(&pieces[0]) {
            Ok(ty) => ty,
            Err(e) => {
                return Err(Error::InvalidInput);
            },
        };
        if !matches_backup_id(&pieces[1]) {
            return Err(Error::InvalidInput);
        }
        Ok(BackupGroup { ty, id: string_of(&pieces[1]) })
    }
}

/// A snapshot: a backup group and the time of the backup.
#[derive(Debug)]
pub struct BackupDir {
    pub group: BackupGroup,
    /// Seconds since the epoch.
    pub time: i64,
}

/// A snapshot, as contracts see it.
pub struct BackupDirView {
    pub group: BackupGroupView,
    pub time: i64,
}

impl View for BackupDir {
    type V = BackupDirView;

    open spec fn view(&self) -> BackupDirView {
        BackupDirView { group: self.group@, time: self.time }
    }
}

/// The path of a snapshot below the base directory:
/// `<type>/<id>/<timestamp>`, for a time that has a text.
pub open spec fn snapshot_path_text(ty: BackupType, id: Seq<char>, time: int) -> Option<
    Seq<char>,
> {
    match format_rfc3339_spec(time) {
        Some(t) => Some(group_path_text(ty, id) + "/"@ + t),
        None => None,
    }
}

/// The snapshot that a path stands for: three pieces, a backup type, an id
/// and a timestamp.
pub open spec fn parse_snapshot_spec(path: Seq<char>) -> Option<BackupDirView> {
    let pieces = split_spec(path, '/');
    if pieces.len() == 3 && backup_type_of_name(pieces[0]) is Some && is_backup_id(pieces[1])
        && parse_rfc3339_spec(pieces[2]) is Some {
        Some(
            BackupDirView {
                group: BackupGroupView { ty: backup_type_of_name(pieces[0])->0, id: pieces[1] },
                time: parse_rfc3339_spec(pieces[2])->0 as i64,
            },
        )
    } else {
        None
    }
}

impl BackupDir {
    /// The snapshot of this group and time.
    pub fn new(group: BackupGroup, time: i64) -> (dir: BackupDir)
        ensures
            dir@ == (BackupDirView { group: group@, time }),
    {
        BackupDir { group, time }
    }

    /// A copy of the snapshot.
    pub fn duplicate(&self) -> (dir: BackupDir)
        ensures
            dir@ == self@,
    {
        BackupDir { group: self.group.duplicate(), time: self.time }
    }

    /// The path of the snapshot below the base directory. Fails with
    /// `InvalidInput` if the time has no text.
    pub fn to_string(&self) -> (r: Result<String, Error>)
        ensures
            match snapshot_path_text(self.group.ty, self.group.id@, self.time as int) {
                Some(t) => r is Ok && r->Ok_0@ == t,
                None => r matches Err(e) && e == Error::InvalidInput,
            },
    {
        let time = match epoch_to_rfc3339_utc(self.time) {
            Ok(t) => t,
            Err(e) => {
                return Err(Error::InvalidInput);
            },
        };
        let mut s = self.group.to_string();
        s.append("/");
        s.append(time.as_str());
        Ok(s)
    }

    /// The snapshot that `path` stands for. Fails with `InvalidInput` on
    /// what is not the path of a snapshot.
    pub fn parse(path: &str) -> (r: Result<BackupDir, Error>)
        ensures
            match parse_snapshot_spec(path@) {
                Some(d) => r is Ok && r->Ok_0@ == d,
                None => r matches Err(e) && e == Error::InvalidInput,
            },
    {
        let chars = to_chars(path);
        parse_snapshot_chars(&chars)
    }
}

/// The snapshot that the characters of a path stand for.
pub fn parse_snapshot_chars(path: &Vec<char>) -> (r: Result<BackupDir, Error>)
    ensures
        match parse_snapshot_spec(path@) {
            Some(d) => r is Ok && r->Ok_0@ == d,
            None => r matches Err(e) && e == Error::InvalidInput,
        },
{
    let pieces = split(path, '/');
    if pieces.len() != 3 {
        return Err(Error::InvalidInput);
    }
    assert(views(pieces@)[0] == pieces@[0]@);
    assert(views(pieces@)[1] == pieces@[1]@);
    assert(views(pieces@)[2] == pieces@[2]@);
    let ty = match backup_type_of_chars(&pieces[0]) {
        Ok(ty) => ty,
        Err(e) => {
            return Err(Error::InvalidInput);
        },
    };
    if !matches_backup_id(&pieces[1]) {
        return Err(Error::InvalidInput);
    }
    let time = match parse_rfc3339_chars(&pieces[2]) {
        Ok(t) => t,
        Err(e) => {
            return Err(Error::InvalidInput);
        },
    };
    Ok(BackupDir { group: BackupGroup { ty, id: string_of(&pieces[1]) }, time })
}

/// How a datastore is taken out of service.
#[derive(Clone, Copy, Debug, PartialEq, Eq, Structural)]
pub enum MaintenanceType {
    /// Nothing may be written.
    ReadOnly,
    /// Nothing may be done at all.
    Offline,
}

/// Whether a maintenance mode lets an operation begin: off-line lets none
/// begin, read-only all but writes.
pub open spec fn maintenance_allows(ty: MaintenanceType, operation: Option<Operation>) -> bool {
    match ty {
        MaintenanceType::Offline => false,
        MaintenanceType::ReadOnly => operation != Some(Operation::Write),
    }
}

impl MaintenanceType {
    /// Fails with `MaintenanceMode` if the mode forbids the operation.
    pub fn check(&self, operation: Option<Operation>) -> (r: Result<(), Error>)
        ensures
            r == if maintenance_allows(*self, operation) {
                Ok::<(), Error>(())
            } else {
                Err::<(), Error>(Error::MaintenanceMode)
            },
    {
        match self {
            MaintenanceType::Offline => Err(Error::MaintenanceMode),
            MaintenanceType::ReadOnly => match operation {
                Some(Operation::Write) => Err(Error::MaintenanceMode),
                _ => Ok(()),
            },
        }
    }
}

/// The settings of a datastore that its configuration holds.
#[derive(Debug)]
pub struct DataStoreConfig {
    pub name: String,
    pub path: String,
    /// The tuning options, as a property string.
    pub tuning: Option<String>,
    pub verify_new: Option<bool>,
    pub maintenance_mode: Option<MaintenanceType>,
}

impl DataStoreConfig {
    /// The configuration of a datastore with no options set.
    pub fn new(name: String, path: String) -> (config: DataStoreConfig)
        ensures
            config.name == name,
            config.path == path,
            config.tuning is None,
            config.verify_new is None,
            config.maintenance_mode is None,
    {
        DataStoreConfig { name, path, tuning: None, verify_new: None, maintenance_mode: None }
    }
}


/// The tuning options of a datastore.
#[derive(Clone, Copy, Debug, PartialEq, Eq, Structural)]
pub struct DatastoreTuning {
    pub chunk_order: Option<ChunkOrder>,
}

/// The chunk order that a value of the option `chunk-order` names.
pub open spec fn chunk_order_of_name(v: Seq<char>) -> Option<ChunkOrder> {
    if v == "none"@ {
        Some(ChunkOrder::Unordered)
    } else if v == "inode"@ {
        Some(ChunkOrder::Inode)
    } else {
        None
    }
}

/// The chunk order that one item of a tuning string sets: the item is
/// `chunk-order=` and a value, after white space if any.
pub open spec fn tuning_item_spec(item: Seq<char>) -> Option<ChunkOrder> {
    let pieces = split_spec(trim_start_spec(item), '=');
    if pieces.len() == 2 && pieces[0] == "chunk-order"@ {
        chunk_order_of_name(pieces[1])
    } else {
        None
    }
}

/// The chunk order that the items of a tuning string set, if they are all
/// in order: empty items are passed over, every other item has to set the
/// chunk order, and no two may.
pub open spec fn tuning_fold(items: Seq<Seq<char>>) -> Option<Option<ChunkOrder>>
    decreases items.len(),
{
    if items.len() == 0 {
        Some(None)
    } else {
        match tuning_fold(items.drop_last()) {
            None => None,
            Some(so_far) => if items.last().len() == 0 {
                Some(so_far)
            } else {
                match tuning_item_spec(items.last()) {
                    None => None,
                    Some(order) => if so_far is Some {
                        None
                    } else {
                        Some(Some(order))
                    },
                }
            },
        }
    }
}

/// The tuning options that a property string stands for: its items stand
/// between commas.
pub open spec fn parse_tuning_spec(s: Seq<char>) -> Option<DatastoreTuning> {
    match tuning_fold(split_spec(s, ',')) {
        Some(chunk_order) => Some(DatastoreTuning { chunk_order }),
        None => None,
    }
}

/// Reads one item of a tuning string.
fn parse_tuning_item(item: &Vec<char>) -> (r: Option<ChunkOrder>)
    ensures
        r == tuning_item_spec(item@),
{
    let trimmed = trim_start(item);
    let pieces = split(&trimmed, '=');
    if pieces.len() != 2 {
        return None;
    }
    assert(views(pieces@)[0] == pieces@[0]@);
    assert(views(pieces@)[1] == pieces@[1]@);
    if !same_chars(&pieces[0], &to_chars("chunk-order")) {
        return None;
    }
    if same_chars(&pieces[1], &to_chars("none")) {
        Some(ChunkOrder::Unordered)
    } else if same_chars(&pieces[1], &to_chars("inode")) {
        Some(ChunkOrder::Inode)
    } else {
        None
    }
}

/// Reads the tuning options of a datastore from their property string.
/// Fails with `InvalidInput` on an item that is not `chunk-order=none` or
/// `chunk-order=inode`, and where the chunk order is set twice.
pub fn parse_tuning(text: &str) -> (r: Result<DatastoreTuning, Error>)
    ensures
        match parse_tuning_spec(text@) {
            Some(t) => r == Ok::<DatastoreTuning, Error>(t),
            None => r == Err::<DatastoreTuning, Error>(Error::InvalidInput),
        },
{
    let chars = to_chars(text);
    let items = split(&chars, ',');
    let ghost all = views(items@);
    let mut chunk_order: Option<ChunkOrder> = None;
    let mut i: usize = 0;
    assert(all.take(0) =~= Seq::<Seq<char>>::empty());
    while i < items.len()
        invariant
            i <= items.len(),
            all == views(items@),
            all == split_spec(text@, ','),
            tuning_fold(all.take(i as int)) == Some(chunk_order),
        decreases items.len() - i,
    {
        proof {
            let t = all.take(i + 1);
            assert(t.drop_last() =~= all.take(i as int));
            assert(t.last() == items@[i as int]@);
        }
        if items[i].len() > 0 {
            match parse_tuning_item(&items[i]) {
                None => {
                    proof {
                        lemma_tuning_fold_fails(all, i + 1);
                    }
                    return Err(Error::InvalidInput);
                },
                Some(order) => {
                    if chunk_order.is_some() {
                        proof {
                            lemma_tuning_fold_fails(all, i + 1);
                        }
                        return Err(Error::InvalidInput);
                    }
                    chunk_order = Some(order);
                },
            }
        }
        i += 1;
    }
    assert(all.take(items.len() as int) =~= all);
    Ok(DatastoreTuning { chunk_order })
}

/// Once the items of a tuning string are out of order, more items do not
/// mend them.
pub proof fn lemma_tuning_fold_fails(items: Seq<Seq<char>>, k: int)
    requires
        0 <= k <= items.len(),
        tuning_fold(items.take(k)) is None,
    ensures
        tuning_fold(items) is None,
    decreases items.len() - k,
{
    if k < items.len() {
        let t = items.take(k + 1);
        assert(t.drop_last() =~= items.take(k));
        lemma_tuning_fold_fails(items, k + 1);
    } else {
        assert(items.take(k) =~= items);
    }
}

} // verus!
