use hestia::identity::{ContentDigest, FilesystemObjectId};
use hestia::records::{FileRow, FileSystemFile, FileSystemFolder, FolderRow, UpsertFileBatchReport};
use hestia::sync::{
    calculate_file_sync_operations, calculate_folder_sync_operations, file_state, folder_state,
    folders_removed_by, schedule_batches, DirectoryScanner, ScanConfig, SyncBatch, SyncOperation,
    SyncReport,
};
use std::sync::Arc;

fn row(id: i32, path: &str, digest: u8, inode: i64) -> FileRow {
    FileRow {
        id,
        name: path.rsplit('/').next().unwrap().to_string(),
        path: path.to_string(),
        content_digest: vec![digest; 32],
        device_id: 1,
        inode,
        updated_at: 0,
    }
}

fn scanned(path: &str, digest: u8, inode: u64) -> FileSystemFile {
    FileSystemFile {
        id: None,
        path: path.to_string(),
        name: path.rsplit('/').next().unwrap().to_string(),
        content_digest: ContentDigest::from_bytes([digest; 32]),
        filesystem_object_id: FilesystemObjectId { device: 1, inode },
        file_type_name: "unknown".to_string(),
    }
}

fn folder_row(id: i32, path: &str, name: &str, inode: i64) -> FolderRow {
    FolderRow {
        id,
        name: name.to_string(),
        path: path.to_string(),
        device_id: 1,
        inode,
        parent_folder_id: None,
    }
}

fn scanned_folder(path: &str, inode: u64) -> FileSystemFolder {
    FileSystemFolder::from_observation(
        path.to_string(),
        path.rsplit('/').next().unwrap().to_string(),
        FilesystemObjectId { device: 1, inode },
    )
}

fn kinds(operations: &[SyncOperation]) -> Vec<&'static str> {
    operations
        .iter()
        .map(|op| match op {
            SyncOperation::InsertFile(_) => "insert file",
            SyncOperation::UpdateFile(_) => "update file",
            SyncOperation::InsertFolder(_) => "insert folder",
            SyncOperation::UpdateFolder(_) => "update folder",
            SyncOperation::DeleteFile(_) => "delete file",
            SyncOperation::DeleteFolder(_) => "delete folder",
        })
        .collect()
}

#[test]
fn root_snapshots_preserve_files_and_scope_deletions() {
    let base = "/tmp/scan";
    let mut file_rows = Vec::new();
    let mut folder_rows = Vec::new();
    for (n, name) in ["photos_%-backup", "photos_other"].into_iter().enumerate() {
        let id = n as i32 * 10;
        folder_rows.push(folder_row(id + 1, &format!("{base}/{name}"), name, id as i64 + 1));
        folder_rows.push(folder_row(id + 2, &format!("{base}/{name}/nested"), "nested", id as i64 + 2));
        folder_rows.push(folder_row(id + 3, &format!("{base}/{name}/nested/deep"), "deep", id as i64 + 3));
        file_rows.push(row(id + 4, &format!("{base}/{name}/nested/deep/image.txt"), 1, id as i64 + 4));
    }
    let root = format!("{base}/photos_%");
    folder_rows.push(folder_row(100, &root, "photos_%", 100));
    let image = format!("{root}/nested/deep/image.txt");
    let scanned_files = vec![scanned(&image, 1, 104)];
    let scanned_folders = vec![
        scanned_folder(&format!("{root}/nested"), 102),
        scanned_folder(&format!("{root}/nested/deep"), 103),
    ];

    let files = file_state(&root, file_rows.clone()).unwrap();
    let folders = folder_state(&root, folder_rows.clone()).unwrap();
    assert_eq!((files.len(), folders.len()), (0, 0));
    let first = calculate_file_sync_operations(&files, scanned_files.clone());
    let first_folders = calculate_folder_sync_operations(&folders, scanned_folders.clone());
    assert_eq!(kinds(&first), vec!["insert file"]);
    assert_eq!(kinds(&first_folders), vec!["insert folder", "insert folder"]);

    file_rows.push(row(104, &image, 1, 104));
    folder_rows.push(folder_row(102, &format!("{root}/nested"), "nested", 102));
    folder_rows.push(folder_row(103, &format!("{root}/nested/deep"), "deep", 103));
    let files = file_state(&root, file_rows.clone()).unwrap();
    let folders = folder_state(&root, folder_rows.clone()).unwrap();
    assert_eq!(files.len(), 1);
    assert!(calculate_file_sync_operations(&files, scanned_files.clone()).is_empty());
    assert!(calculate_folder_sync_operations(&folders, scanned_folders.clone()).is_empty());

    let changed = calculate_file_sync_operations(&files, vec![scanned(&image, 2, 104)]);
    assert_eq!(kinds(&changed), vec!["update file"]);

    let deleted = calculate_file_sync_operations(&files, Vec::new());
    let deleted_folders = calculate_folder_sync_operations(&folders, Vec::new());
    assert_eq!(kinds(&deleted), vec!["delete file"]);
    assert_eq!(kinds(&deleted_folders), vec!["delete folder", "delete folder"]);
    for op in deleted.iter().chain(deleted_folders.iter()) {
        match op {
            SyncOperation::DeleteFile(p) | SyncOperation::DeleteFolder(p) => {
                assert!(p.starts_with(&format!("{root}/")), "{p}")
            }
            _ => unreachable!(),
        }
    }
}

#[test]
fn folder_batches_count_updates_and_cascaded_deletions() {
    let root = "/tmp/scan/literal[*?]_%";
    let rows = vec![
        folder_row(1, root, "literal[*?]_%", 1),
        folder_row(2, &format!("{root}/nested"), "stale name", 2),
        folder_row(3, &format!("{root}/nested/deep"), "deep", 3),
        folder_row(4, &format!("{root}/nested-other"), "nested-other", 4),
    ];
    let state = folder_state(root, rows.clone()).unwrap();
    let report = calculate_folder_sync_operations(
        &state,
        vec![
            scanned_folder(&format!("{root}/nested"), 2),
            scanned_folder(&format!("{root}/nested/deep"), 3),
            scanned_folder(&format!("{root}/nested-other"), 4),
        ],
    );
    assert_eq!(kinds(&report), vec!["update folder"]);
    assert_eq!(
        folders_removed_by(&vec![format!("{root}/nested")], &rows),
        vec![2, 3]
    );
    assert_eq!(folders_removed_by(&vec![root.to_string()], &rows), vec![1, 2, 3, 4]);
    assert!(folders_removed_by(&vec!["/tmp/scan/literal".to_string()], &rows).is_empty());
}

#[test]
fn root_snapshots_hold_only_keys_below_the_root() {
    let rows = vec![
        row(1, "/photos_%/a.txt", 1, 10),
        row(2, "/photos_%-backup/b.txt", 1, 11),
        row(3, "/photos_other/c.txt", 1, 12),
        row(4, "/photos_%/nested/deep/image.txt", 2, 13),
    ];
    let state = file_state("/photos_%", rows).unwrap();
    assert_eq!(state.len(), 2);
    assert!(state.get("/photos_%/a.txt").is_some());
    assert!(state.get("/photos_%-backup/b.txt").is_none());
    let operations = calculate_file_sync_operations(&state, vec![scanned("/photos_%/a.txt", 1, 10)]);
    assert_eq!(operations.len(), 1);
    assert!(matches!(&operations[0], SyncOperation::DeleteFile(p) if p == "/photos_%/nested/deep/image.txt"));
}

#[test]
fn file_operations_insert_update_and_keep() {
    let rows = vec![row(1, "/r/same.txt", 1, 10), row(2, "/r/changed.txt", 1, 11), row(3, "/r/moved.txt", 1, 12)];
    let state = file_state("/r", rows).unwrap();
    let operations = calculate_file_sync_operations(
        &state,
        vec![
            scanned("/r/same.txt", 1, 10),
            scanned("/r/changed.txt", 2, 11),
            scanned("/r/moved.txt", 1, 99),
            scanned("/r/new.txt", 3, 13),
        ],
    );
    assert_eq!(operations.len(), 3);
    assert!(matches!(&operations[0], SyncOperation::UpdateFile(f) if f.path == "/r/changed.txt"));
    assert!(matches!(&operations[1], SyncOperation::UpdateFile(f) if f.path == "/r/moved.txt"));
    assert!(matches!(&operations[2], SyncOperation::InsertFile(f) if f.path == "/r/new.txt"));
}

#[test]
fn folder_operations_follow_names_objects_and_removals() {
    let rows = vec![
        folder_row(1, "/r", "r", 1),
        folder_row(2, "/r/nested", "stale name", 2),
        folder_row(3, "/r/nested/deep", "deep", 3),
        folder_row(4, "/r/gone", "gone", 4),
        folder_row(5, "/other", "other", 5),
    ];
    let state = folder_state("/r", rows).unwrap();
    assert_eq!(state.len(), 3);
    assert!(state.get("/r").is_none());
    let operations = calculate_folder_sync_operations(
        &state,
        vec![scanned_folder("/r/nested", 2), scanned_folder("/r/nested/deep", 3), scanned_folder("/r/new", 6)],
    );
    assert_eq!(operations.len(), 3);
    assert!(matches!(&operations[0], SyncOperation::UpdateFolder(f) if f.name == "nested"));
    assert!(matches!(&operations[1], SyncOperation::InsertFolder(f) if f.path == "/r/new"));
    assert!(matches!(&operations[2], SyncOperation::DeleteFolder(p) if p == "/r/gone"));
}

#[test]
fn invalid_stored_rows_fail_the_snapshot() {
    let mut bad = row(1, "/r/a.txt", 1, 10);
    bad.content_digest = vec![0; 31];
    assert!(file_state("/r", vec![bad.clone()]).is_err());
    assert!(file_state("/elsewhere", vec![bad]).is_ok());
    assert!(folder_state("/r", vec![folder_row(2, "/r/x", "x", -1)]).is_err());
}

#[test]
fn batches_group_each_kind_by_the_batch_size() {
    let operations = vec![
        SyncOperation::InsertFile(scanned("/r/a", 1, 1)),
        SyncOperation::DeleteFile("/r/x".to_string()),
        SyncOperation::UpdateFile(scanned("/r/b", 1, 2)),
        SyncOperation::InsertFile(scanned("/r/c", 1, 3)),
        SyncOperation::DeleteFolder("/r/d".to_string()),
    ];
    let batches = schedule_batches(operations, 2);
    let shapes: Vec<(char, usize)> = batches
        .iter()
        .map(|b| match b {
            SyncBatch::UpsertFiles(v) => ('f', v.len()),
            SyncBatch::UpsertFolders(v) => ('d', v.len()),
            SyncBatch::DeleteFiles(v) => ('x', v.len()),
            SyncBatch::DeleteFolders(v) => ('y', v.len()),
        })
        .collect();
    assert_eq!(shapes, vec![('f', 2), ('f', 1), ('x', 1), ('y', 1)]);
}

#[test]
fn scanner_plans_files_before_folders() {
    let scanner = DirectoryScanner::new(Arc::new(()));
    assert_eq!(scanner.config().batch_size, ScanConfig::default().batch_size);
    let files = file_state("/r", vec![row(1, "/r/old.txt", 1, 1)]).unwrap();
    let folders = folder_state("/r", vec![folder_row(2, "/r/old", "old", 2)]).unwrap();
    let batches = scanner.plan_sync(&files, &folders, vec![scanned("/r/new.txt", 1, 3)], vec![]);
    assert_eq!(batches.len(), 3);
    assert!(matches!(&batches[0], SyncBatch::UpsertFiles(v) if v.len() == 1));
    assert!(matches!(&batches[1], SyncBatch::DeleteFiles(v) if v == &vec!["/r/old.txt".to_string()]));
    assert!(matches!(&batches[2], SyncBatch::DeleteFolders(v) if v == &vec!["/r/old".to_string()]));
}

#[test]
fn scan_configuration_skips_listed_names() {
    let config = ScanConfig {
        batch_size: 10,
        recursive: true,
        ignore_extensions: vec![".tmp".to_string()],
        ignore_directories: vec![".git".to_string()],
        max_file_size: Some(100),
    };
    let scanner = DirectoryScanner::new_with_config(Arc::new(()), config);
    assert!(scanner.skips_extension(Some("tmp")));
    assert!(!scanner.skips_extension(Some("TMP")));
    assert!(!scanner.skips_extension(None));
    assert!(scanner.skips_directory(Some(".git")));
    assert!(!scanner.skips_directory(None));
    assert!(scanner.exceeds_size_limit(Some(101)));
    assert!(!scanner.exceeds_size_limit(Some(100)));
    assert!(!scanner.exceeds_size_limit(None));
    let defaults = ScanConfig::default();
    assert!(defaults.recursive);
    assert!(defaults.ignore_directories.contains(&".git".to_string()));
}

#[test]
fn reports_count_what_batches_did() {
    let mut report = SyncReport::new();
    assert_eq!(report.total_operations(), 0);
    report.record_scan(5, 2);
    report.record_file_upserts(UpsertFileBatchReport { file_inserted: 2, file_updated: 1 });
    report.record_file_deletions(3);
    report.record_folder_deletions(1);
    report.record_error("batch failed".to_string());
    assert_eq!(report.files_scanned, 5);
    assert_eq!(report.folders_scanned, 2);
    assert_eq!(report.total_operations(), 6);
    assert_eq!(report.folders_deleted, 1);
    assert_eq!(report.errors, vec!["batch failed".to_string()]);
    let fresh = SyncReport::default();
    assert_eq!(fresh.total_operations(), 0);
    assert!(fresh.errors.is_empty());
    assert_eq!(fresh.duration, std::time::Duration::ZERO);
    let mut timed = report.clone();
    timed.duration = std::time::Duration::from_millis(1500);
    assert_eq!(timed.clone().duration, std::time::Duration::from_millis(1500));
    assert_eq!(timed.clone().errors, report.errors);
}
