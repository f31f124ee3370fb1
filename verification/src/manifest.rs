//! The manifest of a snapshot, and the kinds of files that a snapshot
//! holds.

use vstd::prelude::*;
use crate::api_types::BackupType;
use crate::error::Error;
use crate::text::{find_last, last_index_of, same_chars, sub_chars, to_chars};

verus! {

/// The name of a snapshot's manifest.
pub const MANIFEST_BLOB_NAME: &'static str = "index.json.blob";

/// The name of the log that the client uploads.
pub const CLIENT_LOG_BLOB_NAME: &'static str = "client.log.blob";

/// The name of the marker that protects a snapshot.
pub const PROTECTED_MARKER_NAME: &'static str = ".protected";

/// What kind of archive a file of a snapshot is.
#[derive(Clone, Copy, Debug, PartialEq, Eq, Structural)]
pub enum ArchiveType {
    FixedIndex,
    DynamicIndex,
    Blob,
}

/// The name of the file that a path ends in: what follows its last `/`.
pub open spec fn file_name_of(path: Seq<char>) -> Seq<char> {
    match last_index_of(path, '/') {
        Some(p) => path.skip(p + 1),
        None => path,
    }
}

/// The directory of a path: what stands before its last `/`.
pub open spec fn parent_of(path: Seq<char>) -> Option<Seq<char>> {
    match last_index_of(path, '/') {
        Some(p) => Some(path.take(p)),
        None => None,
    }
}

/// The extension of a path: what follows the last `.` of its file name,
/// unless the file name begins with that `.`.
pub open spec fn extension_of(path: Seq<char>) -> Option<Seq<char>> {
    let name = file_name_of(path);
    match last_index_of(name, '.') {
        Some(p) => if p > 0 {
            Some(name.skip(p + 1))
        } else {
            None
        },
        None => None,
    }
}

/// The kind of archive that a path names, by its extension.
pub open spec fn archive_type_spec(path: Seq<char>) -> Option<ArchiveType> {
    match extension_of(path) {
        Some(ext) => if ext == "didx"@ {
            Some(ArchiveType::DynamicIndex)
        } else if ext == "fidx"@ {
            Some(ArchiveType::FixedIndex)
        } else if ext == "blob"@ {
            Some(ArchiveType::Blob)
        } else {
            None
        },
        None => None,
    }
}

/// Whether a path names an index file.
pub open spec fn is_index_path(path: Seq<char>) -> bool {
    archive_type_spec(path) == Some(ArchiveType::DynamicIndex) || archive_type_spec(path) == Some(
        ArchiveType::FixedIndex,
    )
}

/// The name of the file that the characters of a path end in.
pub fn file_name_chars(path: &Vec<char>) -> (name: Vec<char>)
    ensures
        name@ == file_name_of(path@),
{
    match find_last(path, '/') {
        Some(p) => {
            let name = sub_chars(path, p + 1, path.len());
            assert(name@ =~= path@.skip(p + 1));
            name
        },
        None => {
            let name = sub_chars(path, 0, path.len());
            assert(name@ =~= path@);
            name
        },
    }
}

/// The directory of the characters of a path.
pub fn parent_chars(path: &Vec<char>) -> (parent: Option<Vec<char>>)
    ensures
        match parent_of(path@) {
            Some(p) => parent is Some && parent->0@ == p,
            None => parent is None,
        },
{
    match find_last(path, '/') {
        Some(p) => {
            let parent = sub_chars(path, 0, p);
            assert(parent@ =~= path@.take(p as int));
            Some(parent)
        },
        None => None,
    }
}

/// The kind of archive that the characters of a path name.
pub fn archive_type_chars(path: &Vec<char>) -> (r: Result<ArchiveType, Error>)
    ensures
        match archive_type_spec(path@) {
            Some(ty) => r == Ok::<ArchiveType, Error>(ty),
            None => r == Err::<ArchiveType, Error>(Error::InvalidInput),
        },
{
    let name = file_name_chars(path);
    let dot: usize = match find_last(&name, '.') {
        Some(p) => p,
        None => {
            return Err(Error::InvalidInput);
        },
    };
    if dot == 0 {
        return Err(Error::InvalidInput);
    }
    let ext = sub_chars(&name, dot + 1, name.len());
    assert(ext@ =~= name@.skip(dot + 1));
    if same_chars(&ext, &to_chars("didx")) {
        Ok(ArchiveType::DynamicIndex)
    } else if same_chars(&ext, &to_chars("fidx")) {
        Ok(ArchiveType::FixedIndex)
    } else if same_chars(&ext, &to_chars("blob")) {
        Ok(ArchiveType::Blob)
    } else {
        Err(Error::InvalidInput)
    }
}

/// The kind of archive that a path names, by its extension. Fails with
/// `InvalidInput` on a path without one of the known extensions.
pub fn archive_type(path: &str) -> (r: Result<ArchiveType, Error>)
    ensures
        match archive_type_spec(path@) {
            Some(ty) => r == Ok::<ArchiveType, Error>(ty),
            None => r == Err::<ArchiveType, Error>(Error::InvalidInput),
        },
{
    let chars = to_chars(path);
    archive_type_chars(&chars)
}

/// One archive of a snapshot, as its manifest lists it.
#[derive(Debug)]
pub struct FileInfo {
    pub filename: String,
    pub size: u64,
    pub csum: [u8; 32],
}

/// One archive of a manifest, as contracts see it.
pub struct FileInfoView {
    pub filename: Seq<char>,
    pub size: u64,
    pub csum: Seq<u8>,
}

impl View for FileInfo {
    type V = FileInfoView;

    open spec fn view(&self) -> FileInfoView {
        FileInfoView { filename: self.filename@, size: self.size, csum: self.csum@ }
    }
}

impl FileInfo {
    /// A copy of the entry.
    pub fn duplicate(&self) -> (info: FileInfo)
        ensures
            info@ == self@,
    {
        FileInfo { filename: self.filename.clone(), size: self.size, csum: self.csum }
    }
}

/// The manifest of a snapshot: which archives it holds, and notes that are
/// not covered by the signature.
#[derive(Debug)]
pub struct BackupManifest {
    pub backup_type: BackupType,
    pub backup_id: String,
    pub backup_time: i64,
    pub files: Vec<FileInfo>,
    pub unprotected: String,
}

/// A manifest, as contracts see it.
pub struct ManifestView {
    pub backup_type: BackupType,
    pub backup_id: Seq<char>,
    pub backup_time: i64,
    pub files: Seq<FileInfoView>,
    pub unprotected: Seq<char>,
}

impl View for BackupManifest {
    type V = ManifestView;

    open spec fn view(&self) -> ManifestView {
        ManifestView {
            backup_type: self.backup_type,
            backup_id: self.backup_id@,
            backup_time: self.backup_time,
            files: Seq::new(self.files@.len(), |i: int| self.files@[i]@),
            unprotected: self.unprotected@,
        }
    }
}

impl BackupManifest {
    /// The manifest of a snapshot without archives.
    pub fn new(backup_type: BackupType, backup_id: String, backup_time: i64) -> (m: BackupManifest)
        ensures
            m@.backup_type == backup_type,
            m@.backup_id == backup_id@,
            m@.backup_time == backup_time,
            m@.files == Seq::<FileInfoView>::empty(),
            m@.unprotected == Seq::<char>::empty(),
    {
        let m = BackupManifest {
            backup_type,
            backup_id,
            backup_time,
            files: Vec::new(),
            unprotected: String::new(),
        };
        assert(m@.files =~= Seq::<FileInfoView>::empty());
        m
    }

    /// The archives of the snapshot.
    pub fn files(&self) -> (files: &Vec<FileInfo>)
        ensures
            files == self.files,
    {
        &self.files
    }

    /// Lists one more archive.
    pub fn add_file(&mut self, filename: String, size: u64, csum: [u8; 32])
        ensures
            final(self)@ == (ManifestView {
                files: old(self)@.files.push(FileInfoView { filename: filename@, size, csum: csum@ }),
                ..old(self)@
            }),
    {
        self.files.push(FileInfo { filename, size, csum });
        assert(self@.files =~= old(self)@.files.push(
            FileInfoView { filename: filename@, size, csum: csum@ },
        ));
    }

    /// A copy of the manifest.
    pub fn duplicate(&self) -> (m: BackupManifest)
        ensures
            m@ == self@,
    {
        let mut files: Vec<FileInfo> = Vec::new();
        let mut i: usize = 0;
        while i < self.files.len()
            invariant
                i <= self.files.len(),
                files.len() == i,
                forall|k: int| 0 <= k < i ==> files@[k]@ == self.files@[k]@,
            decreases self.files.len() - i,
        {
            files.push(self.files[i].duplicate());
            i += 1;
        }
        let m = BackupManifest {
            backup_type: self.backup_type,
            backup_id: self.backup_id.clone(),
            backup_time: self.backup_time,
            files,
            unprotected: self.unprotected.clone(),
        };
        assert(m@.files =~= self@.files);
        m
    }
}

} // verus!
