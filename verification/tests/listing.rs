use pbs_datastore::api_types::BackupType;
use pbs_datastore::error::Error;
use pbs_datastore::listing::{
    cleanup_removes, handle_entry_err, is_hidden, list_groups, list_images_from_walk,
    list_snapshots, DirEntryInfo, EntryKind, IoErrorKind, ReadItem, TypeDirItem, WalkItem,
};
use pbs_datastore::manifest::BackupManifest;

fn entry(name: &str, kind: EntryKind) -> ReadItem {
    ReadItem::Entry(DirEntryInfo { name: Some(name.to_string()), kind: Some(kind) })
}

fn dir(name: &str) -> ReadItem {
    entry(name, EntryKind::Directory)
}

#[test]
fn snapshots_are_directories_named_by_timestamps() {
    let items = vec![
        dir("2024-01-01T00:00:00Z"),
        entry("2024-01-02T00:00:00Z", EntryKind::File),
        dir("owner"),
        dir("2024-01-01T00:00:00"),
        ReadItem::Failed(Error::IoError),
        dir("2024-02-30T00:00:00Z"),
        ReadItem::Entry(DirEntryInfo { name: None, kind: Some(EntryKind::Directory) }),
        ReadItem::Entry(DirEntryInfo { name: Some("1970-01-01T00:00:01Z".into()), kind: None }),
        dir("1970-01-01T00:00:01Z"),
    ];
    assert_eq!(
        list_snapshots(&items),
        vec![Ok(1_704_067_200), Err(Error::IoError), Err(Error::InvalidInput), Ok(1)]
    );
}

#[test]
fn groups_are_listed_type_by_type() {
    let items = vec![
        TypeDirItem { item: dir(".chunks"), ids: None },
        TypeDirItem {
            item: dir("vm"),
            ids: Some(Ok(vec![
                dir("100"),
                entry("101", EntryKind::File),
                dir(".hidden"),
                ReadItem::Failed(Error::IoError),
                dir("web_01.example-2"),
            ])),
        },
        TypeDirItem { item: entry("ct", EntryKind::File), ids: None },
        TypeDirItem { item: ReadItem::Failed(Error::NotFound), ids: None },
        TypeDirItem { item: dir("host"), ids: Some(Err(Error::IoError)) },
        TypeDirItem { item: dir("ct"), ids: Some(Ok(vec![dir("7")])) },
        TypeDirItem { item: dir("lost+found"), ids: Some(Ok(vec![dir("1")])) },
    ];
    let listed: Vec<Result<(BackupType, String), Error>> = list_groups(&items)
        .into_iter()
        .map(|r| r.map(|g| (g.ty, g.id)))
        .collect();
    assert_eq!(
        listed,
        vec![
            Ok((BackupType::Vm, "100".to_string())),
            Err(Error::IoError),
            Ok((BackupType::Vm, "web_01.example-2".to_string())),
            Err(Error::NotFound),
            Err(Error::IoError),
            Ok((BackupType::Ct, "7".to_string())),
        ]
    );
}

#[test]
fn only_lost_and_found_may_deny_access() {
    let denied = Some(IoErrorKind::PermissionDenied);
    assert_eq!(handle_entry_err(denied, Some("/data/store1/lost+found"), 1), Ok(()));
    assert_eq!(
        handle_entry_err(denied, Some("/data/store1/vm/lost+found"), 2),
        Err(Error::IoError)
    );
    assert_eq!(
        handle_entry_err(denied, Some("/data/store1/vm"), 1),
        Err(Error::IoError)
    );
    assert_eq!(handle_entry_err(denied, None, 1), Err(Error::IoError));
    assert_eq!(
        handle_entry_err(Some(IoErrorKind::NotFound), Some("/data/store1/lost+found"), 1),
        Err(Error::IoError)
    );
    assert_eq!(handle_entry_err(None, Some("/data/store1/loop"), 5), Ok(()));
    assert!(is_hidden(".chunks"));
    assert!(!is_hidden("vm"));
    assert!(!is_hidden(""));
}

#[test]
fn walk_lists_index_files_until_a_fatal_failure() {
    let entry = |p: &str| WalkItem::Entry { path: p.to_string() };
    let items = vec![
        entry("/d/vm"),
        entry("/d/vm/100/2024-01-01T00:00:00Z/root.pxar.didx"),
        entry("/d/vm/100/2024-01-01T00:00:00Z/index.json.blob"),
        WalkItem::Failure {
            io_error: Some(IoErrorKind::PermissionDenied),
            path: Some("/d/lost+found".to_string()),
            depth: 1,
        },
        entry("/d/odd/disk.fidx"),
    ];
    assert_eq!(
        list_images_from_walk(&items),
        Ok(vec![
            "/d/vm/100/2024-01-01T00:00:00Z/root.pxar.didx".to_string(),
            "/d/odd/disk.fidx".to_string(),
        ])
    );
    let mut broken = items;
    broken.insert(
        1,
        WalkItem::Failure {
            io_error: Some(IoErrorKind::Other),
            path: Some("/d/vm/100".to_string()),
            depth: 2,
        },
    );
    assert_eq!(list_images_from_walk(&broken), Err(Error::IoError));
}

#[test]
fn cleanup_removes_unwanted_files_only() {
    let mut manifest = BackupManifest::new(BackupType::Vm, "100".to_string(), 0);
    manifest.add_file("root.pxar.didx".to_string(), 1, [0u8; 32]);
    let info = |name: Option<&str>, kind: Option<EntryKind>| DirEntryInfo {
        name: name.map(|n| n.to_string()),
        kind,
    };
    let file = Some(EntryKind::File);
    assert!(cleanup_removes(&info(Some("stale.tmp"), file), &manifest));
    assert!(cleanup_removes(&info(Some("stale.tmp"), None), &manifest));
    assert!(cleanup_removes(&info(None, file), &manifest));
    assert!(!cleanup_removes(&info(Some("root.pxar.didx"), file), &manifest));
    assert!(!cleanup_removes(&info(Some("index.json.blob"), file), &manifest));
    assert!(!cleanup_removes(&info(Some("client.log.blob"), file), &manifest));
    assert!(!cleanup_removes(&info(Some("."), None), &manifest));
    assert!(!cleanup_removes(&info(Some(".."), None), &manifest));
    assert!(!cleanup_removes(&info(Some("stale"), Some(EntryKind::Directory)), &manifest));
    assert!(!cleanup_removes(&info(Some("stale"), Some(EntryKind::Other)), &manifest));
}
