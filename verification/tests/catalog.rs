use hestia::catalog::{
    file_kind, file_location, filter_after_delete, find_tag_named, forget_tag, has_id, is_blank,
    keep_selection, push_id, str_contains, visible_files, visible_in_folder, watched_folder_map,
    sub_tag_choices, tag_editor_view, CatalogFile, CatalogTag, TagPurpose,
};
use hestia::records::{FolderInfo, FolderRow};

const LEARNING: i32 = 1;
const NOTES: i32 = 2;
const REFERENCE: i32 = 3;
const TO_REVIEW: i32 = 4;

fn file(id: i32, name: &str, folder: &str, tags: &[i32]) -> CatalogFile {
    let path = if folder.is_empty() {
        format!("/tmp/demo/Learning library/{name}")
    } else {
        format!("/tmp/demo/Learning library/{folder}/{name}")
    };
    CatalogFile { id, name: name.to_string(), path, tags: tags.to_vec() }
}

fn sample_files() -> Vec<CatalogFile> {
    vec![
        file(1, "Video sample.mp4", "", &[]),
        file(2, "Data encapsulation.png", "Images", &[LEARNING, REFERENCE]),
        file(3, "Class composition.png", "Images", &[LEARNING, REFERENCE]),
        file(4, "Learning notes.md", "Documents/Notes", &[LEARNING, NOTES]),
        file(5, "Project checklist.md", "Documents", &[NOTES, TO_REVIEW]),
        file(6, "Reading list.txt", "Documents", &[REFERENCE, TO_REVIEW]),
        file(7, "Ideas.md", "Documents/Notes", &[NOTES]),
    ]
}

fn sample_tags() -> Vec<CatalogTag> {
    [(LEARNING, "Learning"), (NOTES, "Notes"), (REFERENCE, "Reference"), (TO_REVIEW, "To review")]
        .into_iter()
        .map(|(id, name)| CatalogTag { id, name: name.to_string() })
        .collect()
}

fn folder(id: i32, parent: Option<i32>, path: &str) -> FolderInfo {
    FolderInfo {
        id,
        name: path.rsplit('/').next().unwrap_or_default().to_string(),
        path: path.to_string(),
        parent_folder_id: parent,
        device_id: 1,
        inode: id as u64,
        created_at: String::new(),
        updated_at: String::new(),
    }
}

fn sample_folders() -> Vec<FolderInfo> {
    vec![
        folder(10, None, "/tmp/demo/Learning library"),
        folder(11, Some(10), "/tmp/demo/Learning library/Images"),
        folder(12, Some(10), "/tmp/demo/Learning library/Documents"),
        folder(13, Some(12), "/tmp/demo/Learning library/Documents/Notes"),
        folder(14, Some(10), "/tmp/demo/Learning library/Archive"),
    ]
}

#[test]
fn demo_files_filter_by_name_and_tag() {
    let files = sample_files();
    let tags = sample_tags();
    assert_eq!(visible_files(&files, &tags, Some(NOTES), "").len(), 3);
    assert_eq!(visible_files(&files, &tags, None, "  LEARNING  ").len(), 3);
    assert_eq!(visible_files(&files, &tags, Some(NOTES), "PROJECT").len(), 1);
    assert!(visible_files(&files, &tags, Some(NOTES), "png").is_empty());
    assert!(visible_files(&files, &tags, None, "no such file").is_empty());
    assert_eq!(visible_files(&files, &tags, None, ""), vec![0, 1, 2, 3, 4, 5, 6]);
    assert_eq!(visible_files(&files, &tags, None, "review"), vec![4, 5]);
}

#[test]
fn demo_files_are_located_below_the_library_folder() {
    let folders = sample_folders();
    for f in sample_files() {
        let (folder, name) = f.path.rsplit_once('/').unwrap();
        let relative = folder.trim_start_matches("/tmp/demo/");
        assert_eq!(file_location(&folders, &f.path), format!("{relative}/{name}"));
    }
    assert_eq!(file_location(&folders, "/elsewhere/a.txt"), "/elsewhere/a.txt");
    assert_eq!(
        file_location(&folders, "/tmp/demo/Learning library"),
        "Learning library"
    );
}

#[test]
fn folder_filters_intersect_with_tags_and_search() {
    let files = sample_files();
    let tags = sample_tags();
    let folders = sample_folders();
    assert_eq!(
        visible_in_folder(&files, &tags, &folders, None, "", Some(12)),
        vec![3, 4, 5, 6]
    );
    assert_eq!(
        visible_in_folder(&files, &tags, &folders, None, "", Some(13)),
        vec![3, 6]
    );
    assert_eq!(
        visible_in_folder(&files, &tags, &folders, Some(LEARNING), "", Some(12)),
        vec![3]
    );
    assert!(visible_in_folder(&files, &tags, &folders, None, "", Some(14)).is_empty());
    assert_eq!(
        visible_in_folder(&files, &tags, &folders, None, "project", Some(13)),
        Vec::<usize>::new()
    );
    assert_eq!(
        visible_in_folder(&files, &tags, &folders, None, "", Some(99)).len(),
        files.len()
    );
}

#[test]
fn file_kinds_read_the_extension_as_written() {
    assert_eq!(file_kind("/a/b.png"), "PNG image");
    assert_eq!(file_kind("/a/b.md"), "Markdown");
    assert_eq!(file_kind("/a/b.mp4"), "MP4 video");
    assert_eq!(file_kind("/a/b.PNG"), "Plain text");
    assert_eq!(file_kind("/a/b"), "Plain text");
}

#[test]
fn tag_changes_are_mirrored_in_memory() {
    let mut files = sample_files();
    files[0].add_tag_id(NOTES);
    files[0].add_tag_id(NOTES);
    assert_eq!(files[0].tags, vec![NOTES]);
    files[0].remove_tag_id(NOTES);
    assert!(files[0].tags.is_empty());
    forget_tag(&mut files, REFERENCE);
    assert!(files.iter().all(|f| !has_id(&f.tags, REFERENCE)));
    assert_eq!(files[1].tags, vec![LEARNING]);
    assert_eq!(filter_after_delete(Some(REFERENCE), REFERENCE), None);
    assert_eq!(filter_after_delete(Some(NOTES), REFERENCE), Some(NOTES));
    assert_eq!(keep_selection(Some(4), &vec![1, 4]), Some(4));
    assert_eq!(keep_selection(Some(2), &vec![1, 4]), Some(1));
    assert_eq!(keep_selection(Some(2), &vec![]), None);
    assert_eq!(keep_selection(None, &vec![3]), Some(3));
}

#[test]
fn new_tags_are_found_by_their_trimmed_name() {
    let mut tags = sample_tags();
    tags.push(CatalogTag { id: 5, name: "Personal".to_string() });
    assert_eq!(find_tag_named(&tags, "  Personal  "), Some(5));
    assert_eq!(find_tag_named(&tags, "Notes"), Some(NOTES));
    assert_eq!(find_tag_named(&tags, "notes"), None);
    assert!(is_blank("  \t"));
    assert!(!is_blank(" a "));
}

#[test]
fn substrings_are_found_character_by_character() {
    assert!(str_contains("héllo wörld", "ö"));
    assert!(str_contains("abc", ""));
    assert!(str_contains("", ""));
    assert!(!str_contains("", "a"));
    assert!(!str_contains("abc", "abcd"));
    assert!(str_contains("aaab", "aab"));
}

fn row(id: i32, parent: Option<i32>, name: &str) -> FolderRow {
    FolderRow {
        id,
        name: name.to_string(),
        path: format!("/lib/{name}"),
        device_id: 1,
        inode: id as i64,
        parent_folder_id: parent,
    }
}

#[test]
fn watched_folders_form_a_tree_by_id() {
    let rows = vec![
        row(1, None, "root"),
        row(2, Some(1), "docs"),
        row(3, Some(2), "notes"),
        row(4, Some(1), "images"),
        row(5, None, "other"),
    ];
    let entries = watched_folder_map(&rows);
    let keys: Vec<&str> = entries.iter().map(|(key, _)| key.as_str()).collect();
    assert_eq!(keys, vec!["0", "2", "3", "4"]);
    let root = &entries[0].1;
    assert_eq!((root.name.as_str(), root.path.as_str()), ("", ""));
    assert_eq!(root.children, Some(vec!["1".to_string(), "5".to_string()]));
    assert_eq!(entries[1].1.children, Some(vec!["3".to_string()]));
    assert_eq!(entries[1].1.path, "/lib/docs");
    assert_eq!(entries[2].1.children, None);
    assert_eq!(entries[3].1.name, "images");
    let empty = watched_folder_map(&Vec::new());
    assert_eq!(empty.len(), 1);
    assert_eq!(empty[0].1.children, Some(Vec::new()));
}

#[test]
fn ids_are_spelled_in_decimal() {
    for id in [0, 7, -7, 42, i32::MAX, i32::MIN] {
        let mut out = String::new();
        push_id(&mut out, id);
        assert_eq!(out, id.to_string());
    }
}

#[test]
fn sub_tags_are_searched_once_there_are_many() {
    let tags = sample_tags();
    let few = sub_tag_choices(&tags, Some(NOTES), "zzz");
    assert!(!few.searchable);
    assert_eq!(few.listed, vec![0, 2, 3]);
    let mut many = sample_tags();
    for (id, name) in [(5, "Archive"), (6, "Drafts"), (7, "Reviewed")] {
        many.push(CatalogTag { id, name: name.to_string() });
    }
    let searched = sub_tag_choices(&many, Some(LEARNING), "  REV ");
    assert!(searched.searchable);
    assert_eq!(searched.listed, vec![3, 6]);
    assert!(sub_tag_choices(&many, Some(LEARNING), "nothing").listed.is_empty());
    assert_eq!(sub_tag_choices(&many, None, "").listed.len(), 7);
}

#[test]
fn tag_editor_follows_what_is_edited() {
    let tags = sample_tags();
    let files = sample_files();
    let adding = tag_editor_view(&tags, Some(&files[6]), None, false, false, "Notes", "");
    assert_eq!(adding.purpose, TagPurpose::Assign);
    assert!(adding.submit_enabled);
    assert_eq!(adding.assignable, vec![0, 2, 3]);
    assert_eq!(adding.purpose.label(false), "Add");
    assert_eq!(adding.purpose.description(), "Add tag to selected file");
    let nothing = tag_editor_view(&tags, None, None, false, false, "Notes", "");
    assert!(!nothing.submit_enabled);
    assert!(nothing.assignable.is_empty());
    let blank = tag_editor_view(&tags, Some(&files[6]), None, false, false, "   ", "");
    assert!(!blank.submit_enabled);
    let creating = tag_editor_view(&tags, None, None, true, false, "New", "");
    assert_eq!(creating.purpose, TagPurpose::Create);
    assert!(creating.submit_enabled);
    assert_eq!(creating.purpose.label(false), "Create");
    let editing = tag_editor_view(&tags, Some(&files[6]), Some(NOTES), false, false, "Notes", "#12");
    assert_eq!(editing.purpose, TagPurpose::Edit);
    assert!(!editing.submit_enabled);
    assert!(editing.assignable.is_empty());
    assert_eq!(editing.purpose.label(true), "Saving…");
    assert_eq!(editing.purpose.description(), "Save tag changes");
    let fixed = tag_editor_view(&tags, Some(&files[6]), Some(NOTES), false, false, "Notes", "#123");
    assert!(fixed.submit_enabled);
    let saving = tag_editor_view(&tags, Some(&files[6]), Some(NOTES), false, true, "Notes", "#123");
    assert!(!saving.submit_enabled);
    let missing = tag_editor_view(&tags, Some(&files[6]), Some(99), false, false, "Notes", "#12");
    assert_eq!(missing.purpose, TagPurpose::Assign);
    assert!(missing.submit_enabled);
}
