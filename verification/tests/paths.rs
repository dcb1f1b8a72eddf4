use hestia::paths::{
    extension_str, file_name_str, indexed_path, parent_bytes, path_is_within, CanonPath,
    IndexedPathError,
};

const CWD: &[u8] = b"/work/library";

#[test]
fn entry_keys_are_absolute_lexical_and_do_not_require_existence() {
    assert_eq!(
        indexed_path(b"./missing/../entry", CWD).unwrap(),
        "/work/library/entry"
    );
    assert_eq!(indexed_path(b"/../../entry/./", CWD).unwrap(), "/entry");
    assert!(indexed_path(b"", CWD).is_err());
}

#[test]
fn entry_keys_reject_non_utf8() {
    assert!(indexed_path(b"/bad\xff", CWD).is_err());
}

#[test]
fn entry_key_errors_tell_empty_from_non_utf8() {
    assert_eq!(indexed_path(b"", CWD), Err(IndexedPathError::Empty));
    assert_eq!(indexed_path(b"/bad\xff", CWD), Err(IndexedPathError::NotUtf8));
    assert_eq!(
        indexed_path(b"entry", b"/bad\xff"),
        Err(IndexedPathError::NotUtf8)
    );
}

#[test]
fn entry_keys_are_fixed_points_and_ignore_the_directory_when_absolute() {
    let key = indexed_path(b"a//b/./c/../d/", CWD).unwrap();
    assert_eq!(key, "/work/library/a/b/d");
    assert_eq!(indexed_path(key.as_bytes(), b"/elsewhere").unwrap(), key);
    assert_eq!(indexed_path(b"/x/../y", b"/one").unwrap(), "/y");
    assert_eq!(indexed_path(b"/x/../y", b"/two").unwrap(), "/y");
    assert_eq!(indexed_path(b"/", CWD).unwrap(), "/");
    assert_eq!(indexed_path(b"..", b"/").unwrap(), "/");
}

#[test]
fn canonical_roots_keep_their_key() {
    let root = CanonPath::from_canonical(b"/work/photos", CWD).unwrap();
    assert_eq!(root.as_str(), Some("/work/photos"));
    assert!(CanonPath::from_canonical(b"", CWD).is_err());
}

#[test]
fn names_and_extensions_follow_path_components() {
    assert_eq!(file_name_str(b"/a/b.tar.gz"), Some("b.tar.gz"));
    assert_eq!(extension_str(b"/a/b.tar.gz"), Some("gz"));
    assert_eq!(extension_str(b"/a/.hidden"), None);
    assert_eq!(extension_str(b"/a/b."), Some(""));
    assert_eq!(file_name_str(b"/a/b/.."), None);
    assert_eq!(file_name_str(b"/a/b/."), Some("b"));
    assert_eq!(file_name_str(b"/"), None);
    assert_eq!(file_name_str(b"/a/\xff"), None);
}

#[test]
fn containment_is_by_whole_components() {
    assert!(path_is_within("/photos", "/photos"));
    assert!(path_is_within("/photos", "/photos/a.png"));
    assert!(!path_is_within("/photos", "/photos-backup/a.png"));
    assert!(!path_is_within("/photos_%", "/photos_%-backup"));
    assert!(path_is_within("/", "/anything"));
    assert!(!path_is_within("/photos/a", "/photos"));
}

#[test]
fn parents_drop_the_last_segment() {
    assert_eq!(parent_bytes(b"/a/b"), Some(b"/a".to_vec()));
    assert_eq!(parent_bytes(b"/a"), Some(b"/".to_vec()));
    assert_eq!(parent_bytes(b"/"), None);
    assert_eq!(parent_bytes(b"a"), Some(Vec::new()));
}

#[test]
fn keys_are_rooted_even_below_a_relative_directory() {
    assert_eq!(indexed_path(b"a/./b", b"work/../lib").unwrap(), "/lib/a/b");
    assert_eq!(indexed_path(b"..", b"").unwrap(), "/");
    let key = indexed_path(b"x/y", b"relative").unwrap();
    assert!(key.starts_with('/'));
    assert_eq!(indexed_path(key.as_bytes(), b"elsewhere").unwrap(), key);
    let root = CanonPath::from_canonical(b"photos/./2024", b"").unwrap();
    assert_eq!(root.as_str(), Some("/photos/2024"));
    assert_eq!(root.clone().as_str(), Some("/photos/2024"));
}
