use hestia::events::{
    check_same_object, classify_change, observes_file, observes_folder, parent_lookup,
    plan_event_write, previous_key, ChangeKind, ChangeTarget, CreateKind, EventError,
    EventWrite, FSEvent, FileEvent, FileUpsert, FolderEvent, FolderUpsert, ModifyKind,
    RemoveKind, RowTarget, WatchRequest, WatchStep, WatchedPaths, row_target,
};
use hestia::identity::{ContentDigest, FilesystemObjectId, StoredObservationError};
use hestia::paths::CanonPath;

fn id(inode: u64) -> FilesystemObjectId {
    FilesystemObjectId { device: 1, inode }
}

fn file_event(paths: &[&[u8]], kind: ChangeKind) -> FileEvent {
    FileEvent {
        paths: paths.iter().map(|p| p.to_vec()).collect(),
        kind,
        content_digest: Some(ContentDigest::from_bytes([3; 32])),
        filesystem_object_id: Some(id(7)),
    }
}

#[test]
fn changes_are_classified_by_target() {
    assert_eq!(classify_change(true, ChangeKind::Modify(ModifyKind::Other)), ChangeTarget::Folder);
    assert_eq!(classify_change(false, ChangeKind::Create(CreateKind::Folder)), ChangeTarget::Folder);
    assert_eq!(classify_change(false, ChangeKind::Remove(RemoveKind::Folder)), ChangeTarget::Folder);
    assert_eq!(classify_change(false, ChangeKind::Access), ChangeTarget::Ignore);
    assert_eq!(classify_change(false, ChangeKind::Remove(RemoveKind::File)), ChangeTarget::File);
    assert!(observes_file(ChangeKind::Create(CreateKind::File)));
    assert!(!observes_file(ChangeKind::Remove(RemoveKind::Any)));
    assert!(observes_folder(ChangeKind::Remove(RemoveKind::Any)));
    assert!(!observes_folder(ChangeKind::Remove(RemoveKind::Folder)));
    assert_eq!(check_same_object(id(1), id(2)), Err(EventError::ReplacedWhileObserving));
    assert_eq!(check_same_object(id(1), id(1)), Ok(()));
}

#[test]
fn events_ask_for_one_database_write() {
    let create = FSEvent::from_file(file_event(&[b"/r/a.txt"], ChangeKind::Create(CreateKind::File)));
    assert_eq!(plan_event_write(&create), Ok(EventWrite::UpsertFile));
    let removal = FSEvent::from_file(file_event(&[b"/r/a.txt"], ChangeKind::Remove(RemoveKind::File)));
    assert_eq!(plan_event_write(&removal), Ok(EventWrite::DeleteFiles));
    let access = FSEvent::from_file(file_event(&[b"/r/a.txt"], ChangeKind::Access));
    assert_eq!(plan_event_write(&access), Ok(EventWrite::Ignore));
    let folder = FSEvent::from_folder(FolderEvent {
        paths: vec![b"/r/d".to_vec()],
        kind: ChangeKind::Remove(RemoveKind::Folder),
        filesystem_object_id: None,
    });
    assert_eq!(plan_event_write(&folder), Ok(EventWrite::DeleteFolders));
    let empty = FSEvent { file_event: None, folder_event: None };
    assert_eq!(plan_event_write(&empty), Err(EventError::Empty));
}

#[test]
fn file_events_become_rows() {
    let event = file_event(&[b"/r/old.md", b"/r/new.md"], ChangeKind::Modify(ModifyKind::RenameBoth));
    let row = FileUpsert::from_event(&event, false, b"/").unwrap();
    assert_eq!(row.path, "/r/new.md");
    assert_eq!(row.name, "new.md");
    assert_eq!(row.file_type_name, "markdown");
    assert_eq!((row.device_id, row.inode), (1, 7));
    assert_eq!(row.previous_path, Some(b"/r/old.md".to_vec()));
    assert_eq!(previous_key(&row.previous_path, b"/"), Ok(Some("/r/old.md".to_string())));
    assert_eq!(previous_key(&None, b"/"), Ok(None));
    assert_eq!(
        previous_key(&Some(b"/bad\xff".to_vec()), b"/"),
        Err(EventError::PreviousNotUtf8)
    );
    assert_eq!(
        previous_key(&Some(b"old/../older.md".to_vec()), b"/r"),
        Ok(Some("/r/older.md".to_string()))
    );

    let alias = file_event(
        &[b"/root/unused/../alias/./entry.txt"],
        ChangeKind::Create(CreateKind::File),
    );
    let row = FileUpsert::from_event(&alias, false, b"/").unwrap();
    assert_eq!(row.path, "/root/alias/entry.txt");
    assert_eq!(row.name, "entry.txt");

    let plain = file_event(&[b"/r/a.txt"], ChangeKind::Modify(ModifyKind::Other));
    assert_eq!(FileUpsert::from_event(&plain, false, b"/").unwrap().previous_path, None);

    let mut missing = file_event(&[b"/r/a.txt"], ChangeKind::Create(CreateKind::File));
    missing.content_digest = None;
    assert_eq!(FileUpsert::from_event(&missing, false, b"/").err(), Some(EventError::MissingDigest));
    missing.paths.clear();
    assert_eq!(FileUpsert::from_event(&missing, false, b"/").err(), Some(EventError::MissingPath));
    let mut huge = file_event(&[b"/r/a.txt"], ChangeKind::Create(CreateKind::File));
    huge.filesystem_object_id = Some(FilesystemObjectId { device: u64::MAX, inode: 1 });
    assert_eq!(
        FileUpsert::from_event(&huge, false, b"/").err(),
        Some(EventError::Stored(StoredObservationError::DeviceOutOfRange))
    );
    let bad = file_event(&[b"/r/\xff"], ChangeKind::Create(CreateKind::File));
    assert_eq!(FileUpsert::from_event(&bad, false, b"/").err(), Some(EventError::NoName));
    let bad_dir = file_event(&[b"/r\xff/ok.txt"], ChangeKind::Create(CreateKind::File));
    assert_eq!(FileUpsert::from_event(&bad_dir, false, b"/").err(), Some(EventError::NotUtf8));
    let relative = file_event(&[b"ok.txt"], ChangeKind::Create(CreateKind::File));
    assert_eq!(
        FileUpsert::from_event(&relative, false, b"/cwd\xff").err(),
        Some(EventError::NotUtf8)
    );
}

#[test]
fn folder_events_become_rows_under_their_parent() {
    let event = FolderEvent {
        paths: vec![b"/r/docs".to_vec()],
        kind: ChangeKind::Create(CreateKind::Folder),
        filesystem_object_id: Some(id(9)),
    };
    let row = FolderUpsert::from_event(&event, b"/").unwrap();
    assert_eq!((row.path.as_str(), row.name.as_str(), row.inode), ("/r/docs", "docs", 9));
    let roots = vec!["/r".to_string()];
    assert_eq!(parent_lookup("/r", &roots), Ok(None));
    assert_eq!(parent_lookup("/r/docs", &roots), Ok(Some("/r".to_string())));
    assert_eq!(parent_lookup("/", &roots), Err(EventError::NoParent));
    let no_id = FolderEvent { filesystem_object_id: None, ..event };
    assert_eq!(FolderUpsert::from_event(&no_id, b"/").err(), Some(EventError::MissingObjectId));
}

#[test]
fn watching_then_unwatching_restores_the_roots() {
    let mut watched = WatchedPaths::new();
    let root = CanonPath::from_canonical(b"/r", b"/").unwrap();
    let other = CanonPath::from_canonical(b"/s", b"/").unwrap();
    assert!(!watched.contains(&root));
    watched.insert(root.clone());
    watched.insert(root.clone());
    watched.insert(other.clone());
    assert!(watched.contains(&root));
    watched.remove(&root);
    assert!(!watched.contains(&root));
    assert!(watched.contains(&other));
}

#[test]
fn watch_requests_decide_the_watcher_calls() {
    let mut watched = WatchedPaths::new();
    let root = CanonPath::from_canonical(b"/r", b"/").unwrap();
    let step = watched.step(WatchRequest::Watch(root.clone()));
    assert!(matches!(&step, WatchStep::StartWatching(p) if p == &root));
    assert!(!watched.contains(&root));
    watched.complete(step);
    assert!(watched.contains(&root));
    assert!(matches!(watched.step(WatchRequest::Watch(root.clone())), WatchStep::Nothing));
    match watched.step(WatchRequest::List) {
        WatchStep::Report(roots) => assert_eq!(roots, vec![root.clone()]),
        _ => panic!("the roots are reported"),
    }
    let other = CanonPath::from_canonical(b"/s", b"/").unwrap();
    assert!(matches!(watched.step(WatchRequest::Unwatch(other)), WatchStep::Nothing));
    let step = watched.step(WatchRequest::Unwatch(root.clone()));
    assert!(matches!(&step, WatchStep::StopWatching(p) if p == &root));
    watched.complete(step);
    assert!(!watched.contains(&root));
    assert!(watched.roots().is_empty());
}

#[test]
fn event_rows_go_to_the_key_then_the_previous_key() {
    assert!(matches!(row_target(Some(7), Some("/old".to_string())), RowTarget::Update(7)));
    assert!(matches!(row_target(None, Some("/old".to_string())), RowTarget::LookUp(p) if p == "/old"));
    assert!(matches!(row_target(None, None), RowTarget::Insert));
    assert!(matches!(row_target(Some(3), None), RowTarget::Update(3)));
}
