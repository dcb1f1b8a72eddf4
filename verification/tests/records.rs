use hestia::identity::{
    database_object_id, digest_from_database, object_id_from_database, ContentDigest,
    FilesystemObjectId, StoredObservationError,
};
use hestia::records::{
    detect_file_type, entry_name, FileMetadata, FileRow, FileSystemFile, FileSystemFolder,
    FolderInfo, FolderMetadata, FolderRow, PersistedFile, RecordError,
};

fn database_file(content_digest: Vec<u8>, device_id: i64) -> FileRow {
    FileRow {
        id: 1,
        name: "file".to_string(),
        path: "/file".to_string(),
        content_digest,
        device_id,
        inode: 2,
        updated_at: 0,
    }
}

#[test]
fn database_observation_rejects_invalid_digest_and_object_id() {
    assert!(FileSystemFile::from_row(database_file(vec![0; 31], 1)).is_err());
    assert!(FileSystemFile::from_row(database_file(vec![0; 32], -1)).is_err());
}

#[test]
fn stored_rows_read_back_with_their_observations() {
    let file = FileSystemFile::from_row(database_file(vec![7; 32], 3)).unwrap();
    assert_eq!(file.id, Some(1));
    assert_eq!(file.path, "/file");
    assert_eq!(file.content_digest.as_bytes(), &[7u8; 32]);
    assert_eq!(file.filesystem_object_id, FilesystemObjectId { device: 3, inode: 2 });
    assert_eq!(file.file_type_name, "unknown");

    let mut row = database_file(vec![1; 32], 3);
    row.path = "/photos/a.JPG".to_string();
    assert_eq!(FileSystemFile::from_row(row).unwrap().file_type_name, "JPG");

    let persisted = PersistedFile::from_row(database_file(vec![1; 32], 4)).unwrap();
    assert_eq!(persisted.id, 1);
    assert_eq!(persisted.filesystem_object_id.device, 4);

    let mut row = database_file(vec![1; 32], 4);
    row.updated_at = 1_700_000_000;
    let metadata = FileMetadata::from_row(row).unwrap();
    assert_eq!(metadata.updated_at, 1_700_000_000);
    assert_eq!(metadata.path, "/file");
}

#[test]
fn stored_observation_errors_name_the_failing_column() {
    assert_eq!(
        digest_from_database(vec![0; 31]).err(),
        Some(StoredObservationError::DigestLength(31))
    );
    assert_eq!(
        object_id_from_database(-1, 2).err(),
        Some(StoredObservationError::NegativeDevice)
    );
    assert_eq!(
        object_id_from_database(1, -2).err(),
        Some(StoredObservationError::NegativeInode)
    );
    assert_eq!(
        database_object_id(FilesystemObjectId { device: u64::MAX, inode: 1 }).err(),
        Some(StoredObservationError::DeviceOutOfRange)
    );
    assert_eq!(
        database_object_id(FilesystemObjectId { device: 1, inode: u64::MAX }).err(),
        Some(StoredObservationError::InodeOutOfRange)
    );
    let folder = FolderRow {
        id: 5,
        name: "photos".to_string(),
        path: "/photos".to_string(),
        device_id: -3,
        inode: 4,
        parent_folder_id: None,
    };
    assert!(FolderMetadata::from_row(folder).is_err());
}

#[test]
fn object_ids_round_trip_through_the_database_columns() {
    let id = FilesystemObjectId { device: 42, inode: 9_000_000_000 };
    let (device, inode) = database_object_id(id).unwrap();
    assert_eq!((device, inode), (42, 9_000_000_000));
    assert_eq!(object_id_from_database(device, inode).unwrap(), id);
    let digest = ContentDigest::from_bytes([9; 32]);
    let back = digest_from_database(digest.to_vec()).unwrap();
    assert!(back.same_as(&digest));
}

#[test]
fn folder_rows_become_display_folders() {
    let row = FolderRow {
        id: 5,
        name: "photos".to_string(),
        path: "/photos".to_string(),
        device_id: 3,
        inode: 4,
        parent_folder_id: Some(1),
    };
    let info = FolderInfo::from_row(row, "then".to_string(), "now".to_string()).unwrap();
    assert_eq!(info.id, 5);
    assert_eq!(info.parent_folder_id, Some(1));
    assert_eq!((info.device_id, info.inode), (3, 4));
    assert_eq!(info.created_at, "then");
    assert_eq!(info.updated_at, "now");
}

#[test]
fn entries_need_utf8_paths_and_names() {
    assert_eq!(
        entry_name(b"/photos/a.png", b"/").unwrap(),
        ("/photos/a.png".to_string(), "a.png".to_string())
    );
    assert_eq!(entry_name(b"/bad\xff", b"/").err(), Some(RecordError::NotUtf8));
    assert_eq!(entry_name(b"/", b"/").err(), Some(RecordError::NoFileName));
    assert_eq!(entry_name(b"/photos/..", b"/").err(), Some(RecordError::NoFileName));
    assert_eq!(entry_name(b"a.png", b"/bad\xff").err(), Some(RecordError::NotUtf8));
    assert_eq!(
        entry_name(b"a.png", b"/work").unwrap(),
        ("/work/a.png".to_string(), "a.png".to_string())
    );
}

#[test]
fn entries_are_keyed_by_their_lexical_location() {
    let (key, name) = entry_name(b"/root/unused/../alias/./entry.txt", b"/").unwrap();
    assert_eq!(key, "/root/alias/entry.txt");
    assert_eq!(name, "entry.txt");
    let (original, _) = entry_name(b"/root/original.txt", b"/").unwrap();
    let (copy, _) = entry_name(b"/root/copy.txt", b"/").unwrap();
    assert_ne!(original, copy);
}

#[test]
fn observed_files_take_their_type_from_content_sniffing() {
    let id = FilesystemObjectId { device: 1, inode: 2 };
    let digest = ContentDigest::from_bytes([0; 32]);
    let png_header = [0x89u8, 0x50, 0x4E, 0x47, 0x0D, 0x0A, 0x1A, 0x0A, 0, 0, 0, 0];
    let file = FileSystemFile::from_observation(
        "/a.png".to_string(),
        "a.png".to_string(),
        id,
        digest,
        id,
        &png_header,
    )
    .unwrap();
    assert_eq!(file.file_type_name, "image/png");
    assert_eq!(file.id, None);
    let text = FileSystemFile::from_observation(
        "/a.txt".to_string(),
        "a.txt".to_string(),
        id,
        digest,
        id,
        b"plain words",
    )
    .unwrap();
    assert_eq!(text.file_type_name, "unknown");
    let moved = FilesystemObjectId { device: 1, inode: 3 };
    assert_eq!(
        FileSystemFile::from_observation(
            "/a.txt".to_string(),
            "a.txt".to_string(),
            id,
            digest,
            moved,
            b"plain words",
        )
        .err(),
        Some(RecordError::ReplacedWhileObserving)
    );
    let folder = FileSystemFolder::from_observation("/d".to_string(), "d".to_string(), id);
    assert_eq!(folder.parent_folder_id, None);
}

#[test]
fn file_types_follow_the_extension() {
    assert_eq!(detect_file_type(b"/notes/Read.MD", false), "markdown");
    assert_eq!(detect_file_type(b"/a/b.jpeg", false), "image_jpeg");
    assert_eq!(detect_file_type(b"/a/b.tar", false), "archive");
    assert_eq!(detect_file_type(b"/a/b.Weird", false), "ext_weird");
    assert_eq!(detect_file_type(b"/a/folder", true), "directory");
    assert_eq!(detect_file_type(b"/a/folder", false), "unknown");
}
