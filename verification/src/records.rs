//! File entries and folders as observed on disk and as stored in the database,
//! and the conversions between the two.
use vstd::prelude::*;
use vstd::string::*;
use vstd::utf8::*;

use crate::identity::{
    digest_from_database, object_id_from_database, stored_digest, stored_object_id, ContentDigest,
    FilesystemObjectId, StoredObservationError,
};
use crate::paths::{
    extension_of, extension_str, file_name_of, file_name_str, indexed_path, is_rooted,
    normalized_key, utf8_str,
};
use crate::text::{str_eq, to_lowercase, unicode_lowercase};

verus! {

broadcast use encode_utf8_decode_utf8;

/// Why an observation or a stored row cannot become a record.
#[derive(Clone, Copy, Debug, PartialEq, Eq, Structural)]
pub enum RecordError {
    /// The path is not valid UTF-8.
    NotUtf8,
    /// The path has no final component, or it is not valid UTF-8.
    NoFileName,
    /// The path named another filesystem object after its content was read.
    ReplacedWhileObserving,
}

/// The text of a piece of a path, when it is valid UTF-8.
pub open spec fn text_of(bytes: Option<Seq<u8>>) -> Option<Seq<char>> {
    match bytes {
        Some(b) => if valid_utf8(b) {
            Some(decode_utf8(b))
        } else {
            None
        },
        None => None,
    }
}

/// The entry key and file name of an entry about to be observed at `path`: the path
/// must be UTF-8 and have a UTF-8 final component; the key is the path's entry key
/// (relative paths are taken below `current_dir`), which must be UTF-8 as well.
pub fn entry_name(path: &[u8], current_dir: &[u8]) -> (result: Result<(String, String), RecordError>)
    ensures
        !valid_utf8(path@) ==> result == Err::<(String, String), _>(RecordError::NotUtf8),
        valid_utf8(path@) && text_of(file_name_of(path@)) is None ==> result == Err::<
            (String, String),
            _,
        >(RecordError::NoFileName),
        valid_utf8(path@) && text_of(file_name_of(path@)) is Some && !valid_utf8(
            normalized_key(path@, current_dir@),
        ) ==> result == Err::<(String, String), _>(RecordError::NotUtf8),
        valid_utf8(path@) && text_of(file_name_of(path@)) is Some && valid_utf8(
            normalized_key(path@, current_dir@),
        ) ==> result is Ok && encode_utf8(result->Ok_0.0@) == normalized_key(path@, current_dir@)
            && result->Ok_0.1@ == text_of(file_name_of(path@))->0,
        valid_utf8(path@) && text_of(file_name_of(path@)) is Some && (is_rooted(path@)
            || valid_utf8(current_dir@)) ==> result is Ok,
{
    if utf8_str(path).is_none() {
        return Err(RecordError::NotUtf8);
    }
    let name = match file_name_str(path) {
        Some(name) => name.to_owned(),
        None => {
            return Err(RecordError::NoFileName);
        },
    };
    match indexed_path(path, current_dir) {
        Ok(key) => Ok((key, name)),
        Err(_) => Err(RecordError::NotUtf8),
    }
}

/// A regular file as observed at one path inside a watched root.
#[derive(Clone, Debug)]
pub struct FileSystemFile {
    pub id: Option<i32>,
    pub path: String,
    pub name: String,
    pub content_digest: ContentDigest,
    pub filesystem_object_id: FilesystemObjectId,
    pub file_type_name: String,
}

/// A folder as observed at one path inside a watched root.
#[derive(Clone, Debug)]
pub struct FileSystemFolder {
    pub id: Option<i32>,
    pub path: String,
    pub name: String,
    pub filesystem_object_id: FilesystemObjectId,
    pub parent_folder_id: Option<i32>,
}

/// The MIME type that content sniffing assigns to a file whose first bytes are `header`.
pub uninterp spec fn inferred_mime_type(header: Seq<u8>) -> Option<Seq<char>>;

/// `infer::get` followed by `Type::mime_type`: the MIME type that the file's
/// leading bytes announce, if any matcher recognizes them.
#[verifier::external_body]
fn infer_mime_type(header: &[u8]) -> (mime: Option<String>)
    ensures
        match mime {
            Some(m) => inferred_mime_type(header@) == Some(m@),
            None => inferred_mime_type(header@) is None,
        },
{
    match infer::get(header) {
        Some(kind) => Some(kind.mime_type().to_string()),
        None => None,
    }
}

/// The file type name recorded for an observed file: its sniffed MIME type, or `unknown`.
pub open spec fn observed_file_type(header: Seq<u8>) -> Seq<char> {
    match inferred_mime_type(header) {
        Some(mime) => mime,
        None => "unknown"@,
    }
}

impl FileSystemFile {
    /// The record of a file observed at `path` (named `name`), whose object ID was
    /// `before` when its content was read and `after` once it had been read, and whose
    /// first bytes (at most 8 KiB) are `header`.
    pub fn from_observation(
        path: String,
        name: String,
        before: FilesystemObjectId,
        content_digest: ContentDigest,
        after: FilesystemObjectId,
        header: &[u8],
    ) -> (result: Result<FileSystemFile, RecordError>)
        ensures
            before != after ==> result == Err::<FileSystemFile, _>(
                RecordError::ReplacedWhileObserving,
            ),
            before == after ==> result is Ok && result->Ok_0.id is None && result->Ok_0.path
                == path && result->Ok_0.name == name && result->Ok_0.content_digest
                == content_digest && result->Ok_0.filesystem_object_id == after
                && result->Ok_0.file_type_name@ == observed_file_type(header@),
    {
        if before != after {
            return Err(RecordError::ReplacedWhileObserving);
        }
        let file_type_name = match infer_mime_type(header) {
            Some(mime) => mime,
            None => "unknown".to_owned(),
        };
        Ok(FileSystemFile {
            id: None,
            path,
            name,
            content_digest,
            filesystem_object_id: after,
            file_type_name,
        })
    }
}

impl FileSystemFolder {
    /// The record of a folder observed at `path` (named `name`) with object ID `object_id`.
    pub fn from_observation(path: String, name: String, object_id: FilesystemObjectId) -> (folder:
        FileSystemFolder)
        ensures
            folder.id is None,
            folder.path == path,
            folder.name == name,
            folder.filesystem_object_id == object_id,
            folder.parent_folder_id is None,
    {
        FileSystemFolder {
            id: None,
            path,
            name,
            filesystem_object_id: object_id,
            parent_folder_id: None,
        }
    }
}

/// The columns of a stored file row that the library reads.
#[derive(Clone, Debug)]
pub struct FileRow {
    pub id: i32,
    pub name: String,
    pub path: String,
    pub content_digest: Vec<u8>,
    pub device_id: i64,
    pub inode: i64,
    /// Seconds since the Unix epoch (UTC).
    pub updated_at: i64,
}

/// The columns of a stored folder row that the library reads.
#[derive(Clone, Debug)]
pub struct FolderRow {
    pub id: i32,
    pub name: String,
    pub path: String,
    pub device_id: i64,
    pub inode: i64,
    pub parent_folder_id: Option<i32>,
}

/// A file entry as stored in the database.
#[derive(Clone, Debug)]
pub struct PersistedFile {
    pub id: i32,
    pub path: String,
    pub name: String,
    pub content_digest: ContentDigest,
    pub filesystem_object_id: FilesystemObjectId,
}

/// The extension of a key, as text.
pub open spec fn extension_text(path: Seq<char>) -> Option<Seq<char>> {
    text_of(extension_of(encode_utf8(path)))
}

/// Whether a stored row's digest and object ID read back; the first failure otherwise.
pub open spec fn row_observation_error(digest: Seq<u8>, device_id: i64, inode: i64) -> Option<
    StoredObservationError,
> {
    match stored_digest(digest) {
        Err(e) => Some(e),
        Ok(_) => match stored_object_id(device_id, inode) {
            Err(e) => Some(e),
            Ok(_) => None,
        },
    }
}

fn read_row_observation(digest: Vec<u8>, device_id: i64, inode: i64) -> (result: Result<
    (ContentDigest, FilesystemObjectId),
    StoredObservationError,
>)
    ensures
        match row_observation_error(digest@, device_id, inode) {
            Some(e) => result == Err::<(ContentDigest, FilesystemObjectId), _>(e),
            None => result is Ok && result->Ok_0.0@ == digest@ && Ok::<
                _,
                StoredObservationError,
            >(result->Ok_0.1) == stored_object_id(device_id, inode),
        },
{
    let digest = match digest_from_database(digest) {
        Ok(d) => d,
        Err(e) => {
            return Err(e);
        },
    };
    match object_id_from_database(device_id, inode) {
        Ok(id) => Ok((digest, id)),
        Err(e) => Err(e),
    }
}

fn extension_or_unknown(path: &str) -> (name: String)
    ensures
        name@ == (match extension_text(path@) {
            Some(e) => e,
            None => "unknown"@,
        }),
{
    match extension_str(path.as_bytes()) {
        Some(ext) => ext.to_owned(),
        None => "unknown".to_owned(),
    }
}

impl FileSystemFile {
    /// A stored file row read back as an observed file; its type name is the path's
    /// extension, or `unknown`.
    pub fn from_row(row: FileRow) -> (result: Result<FileSystemFile, StoredObservationError>)
        ensures
            match row_observation_error(row.content_digest@, row.device_id, row.inode) {
                Some(e) => result == Err::<FileSystemFile, _>(e),
                None => result is Ok && result->Ok_0.id == Some(row.id) && result->Ok_0.path
                    == row.path && result->Ok_0.name == row.name
                    && result->Ok_0.content_digest@ == row.content_digest@ && Ok::<
                    _,
                    StoredObservationError,
                >(result->Ok_0.filesystem_object_id) == stored_object_id(
                    row.device_id,
                    row.inode,
                ) && result->Ok_0.file_type_name@ == (match extension_text(row.path@) {
                    Some(e) => e,
                    None => "unknown"@,
                }),
            },
    {
        let file_type_name = extension_or_unknown(row.path.as_str());
        let (content_digest, filesystem_object_id) = match read_row_observation(
            row.content_digest,
            row.device_id,
            row.inode,
        ) {
            Ok(pair) => pair,
            Err(e) => {
                return Err(e);
            },
        };
        Ok(FileSystemFile {
            id: Some(row.id),
            path: row.path,
            name: row.name,
            content_digest,
            filesystem_object_id,
            file_type_name,
        })
    }
}

impl PersistedFile {
    /// A stored file row read back as a persisted file.
    pub fn from_row(row: FileRow) -> (result: Result<PersistedFile, StoredObservationError>)
        ensures
            match row_observation_error(row.content_digest@, row.device_id, row.inode) {
                Some(e) => result == Err::<PersistedFile, _>(e),
                None => result is Ok && result->Ok_0.id == row.id && result->Ok_0.path == row.path
                    && result->Ok_0.name == row.name && result->Ok_0.content_digest@
                    == row.content_digest@ && Ok::<_, StoredObservationError>(
                    result->Ok_0.filesystem_object_id,
                ) == stored_object_id(row.device_id, row.inode),
            },
    {
        let (content_digest, filesystem_object_id) = match read_row_observation(
            row.content_digest,
            row.device_id,
            row.inode,
        ) {
            Ok(pair) => pair,
            Err(e) => {
                return Err(e);
            },
        };
        Ok(PersistedFile {
            id: row.id,
            path: row.path,
            name: row.name,
            content_digest,
            filesystem_object_id,
        })
    }
}

/// A stored file entry's key and the facts a scan compares against.
#[derive(Clone, Debug)]
pub struct FileMetadata {
    pub id: i32,
    pub path: String,
    pub content_digest: ContentDigest,
    pub filesystem_object_id: FilesystemObjectId,
    /// Seconds since the Unix epoch (UTC).
    pub updated_at: i64,
}

/// A stored folder's key and the facts a scan compares against.
#[derive(Clone, Debug)]
pub struct FolderMetadata {
    pub id: i32,
    pub path: String,
    pub name: String,
    pub filesystem_object_id: FilesystemObjectId,
}

impl FileMetadata {
    /// The comparison facts of a stored file row.
    pub fn from_row(row: FileRow) -> (result: Result<FileMetadata, StoredObservationError>)
        ensures
            match row_observation_error(row.content_digest@, row.device_id, row.inode) {
                Some(e) => result == Err::<FileMetadata, _>(e),
                None => result is Ok && result->Ok_0.id == row.id && result->Ok_0.path == row.path
                    && result->Ok_0.content_digest@ == row.content_digest@ && Ok::<
                    _,
                    StoredObservationError,
                >(result->Ok_0.filesystem_object_id) == stored_object_id(
                    row.device_id,
                    row.inode,
                ) && result->Ok_0.updated_at == row.updated_at,
            },
    {
        let updated_at = row.updated_at;
        match PersistedFile::from_row(row) {
            Ok(file) => Ok(
                FileMetadata {
                    id: file.id,
                    path: file.path,
                    content_digest: file.content_digest,
                    filesystem_object_id: file.filesystem_object_id,
                    updated_at,
                },
            ),
            Err(e) => Err(e),
        }
    }
}

impl FolderMetadata {
    /// The comparison facts of a stored folder row.
    pub fn from_row(row: FolderRow) -> (result: Result<FolderMetadata, StoredObservationError>)
        ensures
            match stored_object_id(row.device_id, row.inode) {
                Err(e) => result == Err::<FolderMetadata, _>(e),
                Ok(object_id) => result is Ok && result->Ok_0.id == row.id && result->Ok_0.path
                    == row.path && result->Ok_0.name == row.name
                    && result->Ok_0.filesystem_object_id == object_id,
            },
    {
        match object_id_from_database(row.device_id, row.inode) {
            Ok(filesystem_object_id) => Ok(
                FolderMetadata { id: row.id, path: row.path, name: row.name, filesystem_object_id },
            ),
            Err(e) => Err(e),
        }
    }
}

/// Counts of one batch of file upserts.
#[derive(Clone, Copy, Debug, PartialEq, Eq, Structural)]
pub struct UpsertFileBatchReport {
    pub file_inserted: usize,
    pub file_updated: usize,
}

/// Counts of one batch of folder upserts.
#[derive(Clone, Copy, Debug, PartialEq, Eq, Structural)]
pub struct UpsertFolderBatchReport {
    pub folder_inserted: usize,
    pub folder_updated: usize,
}

/// Folder information for display.
#[derive(Clone, Debug)]
pub struct FolderInfo {
    pub id: i32,
    pub name: String,
    pub path: String,
    pub parent_folder_id: Option<i32>,
    pub device_id: u64,
    pub inode: u64,
    pub created_at: String,
    pub updated_at: String,
}

impl FolderInfo {
    /// The display form of a stored folder row whose timestamps were rendered as
    /// `created_at` and `updated_at`.
    pub fn from_row(row: FolderRow, created_at: String, updated_at: String) -> (result: Result<
        FolderInfo,
        StoredObservationError,
    >)
        ensures
            match stored_object_id(row.device_id, row.inode) {
                Err(e) => result == Err::<FolderInfo, _>(e),
                Ok(object_id) => result == Ok::<_, StoredObservationError>(
                    FolderInfo {
                        id: row.id,
                        name: row.name,
                        path: row.path,
                        parent_folder_id: row.parent_folder_id,
                        device_id: object_id.device,
                        inode: object_id.inode,
                        created_at,
                        updated_at,
                    },
                ),
            },
    {
        match object_id_from_database(row.device_id, row.inode) {
            Ok(object_id) => Ok(
                FolderInfo {
                    id: row.id,
                    name: row.name,
                    path: row.path,
                    parent_folder_id: row.parent_folder_id,
                    device_id: object_id.device,
                    inode: object_id.inode,
                    created_at,
                    updated_at,
                },
            ),
            Err(e) => Err(e),
        }
    }
}

/// The file type name for a lowercase extension: known extensions map to their
/// family, any other extension `e` to `ext_e`.
pub open spec fn file_type_for_extension(e: Seq<char>) -> Seq<char> {
    if e == "md"@ || e == "markdown"@ {
        "markdown"@
    } else if e == "txt"@ {
        "text"@
    } else if e == "pdf"@ {
        "pdf"@
    } else if e == "doc"@ || e == "docx"@ {
        "document"@
    } else if e == "xls"@ || e == "xlsx"@ {
        "spreadsheet"@
    } else if e == "ppt"@ || e == "pptx"@ {
        "presentation"@
    } else if e == "jpg"@ || e == "jpeg"@ {
        "image_jpeg"@
    } else if e == "png"@ {
        "image_png"@
    } else if e == "gif"@ {
        "image_gif"@
    } else if e == "svg"@ {
        "image_svg"@
    } else if e == "webp"@ {
        "image_webp"@
    } else if e == "bmp"@ {
        "image_bmp"@
    } else if e == "mp4"@ || e == "avi"@ || e == "mkv"@ || e == "mov"@ || e == "wmv"@ || e == "flv"@ {
        "video"@
    } else if e == "mp3"@ || e == "wav"@ || e == "flac"@ || e == "ogg"@ || e == "aac"@ {
        "audio"@
    } else if e == "rs"@ {
        "rust"@
    } else if e == "js"@ || e == "ts"@ {
        "javascript"@
    } else if e == "py"@ {
        "python"@
    } else if e == "java"@ {
        "java"@
    } else if e == "cpp"@ || e == "cc"@ || e == "cxx"@ {
        "cpp"@
    } else if e == "c"@ {
        "c"@
    } else if e == "h"@ || e == "hpp"@ {
        "header"@
    } else if e == "html"@ || e == "htm"@ {
        "html"@
    } else if e == "css"@ {
        "css"@
    } else if e == "json"@ {
        "json"@
    } else if e == "xml"@ {
        "xml"@
    } else if e == "yaml"@ || e == "yml"@ {
        "yaml"@
    } else if e == "toml"@ {
        "toml"@
    } else if e == "zip"@ || e == "rar"@ || e == "7z"@ || e == "tar"@ || e == "gz"@ || e == "bz2"@ {
        "archive"@
    } else {
        "ext_"@ + e
    }
}

fn type_for_extension(e: &str) -> (name: String)
    ensures
        name@ == file_type_for_extension(e@),
{
    if str_eq(e, "md") || str_eq(e, "markdown") {
        "markdown".to_owned()
    } else if str_eq(e, "txt") {
        "text".to_owned()
    } else if str_eq(e, "pdf") {
        "pdf".to_owned()
    } else if str_eq(e, "doc") || str_eq(e, "docx") {
        "document".to_owned()
    } else if str_eq(e, "xls") || str_eq(e, "xlsx") {
        "spreadsheet".to_owned()
    } else if str_eq(e, "ppt") || str_eq(e, "pptx") {
        "presentation".to_owned()
    } else if str_eq(e, "jpg") || str_eq(e, "jpeg") {
        "image_jpeg".to_owned()
    } else if str_eq(e, "png") {
        "image_png".to_owned()
    } else if str_eq(e, "gif") {
        "image_gif".to_owned()
    } else if str_eq(e, "svg") {
        "image_svg".to_owned()
    } else if str_eq(e, "webp") {
        "image_webp".to_owned()
    } else if str_eq(e, "bmp") {
        "image_bmp".to_owned()
    } else if str_eq(e, "mp4") || str_eq(e, "avi") || str_eq(e, "mkv") || str_eq(e, "mov") || str_eq(e, "wmv") || str_eq(e, "flv") {
        "video".to_owned()
    } else if str_eq(e, "mp3") || str_eq(e, "wav") || str_eq(e, "flac") || str_eq(e, "ogg") || str_eq(e, "aac") {
        "audio".to_owned()
    } else if str_eq(e, "rs") {
        "rust".to_owned()
    } else if str_eq(e, "js") || str_eq(e, "ts") {
        "javascript".to_owned()
    } else if str_eq(e, "py") {
        "python".to_owned()
    } else if str_eq(e, "java") {
        "java".to_owned()
    } else if str_eq(e, "cpp") || str_eq(e, "cc") || str_eq(e, "cxx") {
        "cpp".to_owned()
    } else if str_eq(e, "c") {
        "c".to_owned()
    } else if str_eq(e, "h") || str_eq(e, "hpp") {
        "header".to_owned()
    } else if str_eq(e, "html") || str_eq(e, "htm") {
        "html".to_owned()
    } else if str_eq(e, "css") {
        "css".to_owned()
    } else if str_eq(e, "json") {
        "json".to_owned()
    } else if str_eq(e, "xml") {
        "xml".to_owned()
    } else if str_eq(e, "yaml") || str_eq(e, "yml") {
        "yaml".to_owned()
    } else if str_eq(e, "toml") {
        "toml".to_owned()
    } else if str_eq(e, "zip") || str_eq(e, "rar") || str_eq(e, "7z") || str_eq(e, "tar") || str_eq(e, "gz") || str_eq(e, "bz2") {
        "archive".to_owned()
    } else {
        let mut name = "ext_".to_owned();
        name.append(e);
        name
    }
}

/// The file type name detected from a path: its lowercased extension's family, or
/// `directory` or `unknown` for a path without a UTF-8 extension.
pub open spec fn detected_file_type(path: Seq<u8>, is_dir: bool) -> Seq<char> {
    match text_of(extension_of(path)) {
        Some(ext) => file_type_for_extension(unicode_lowercase(ext)),
        None => if is_dir {
            "directory"@
        } else {
            "unknown"@
        },
    }
}

/// Detects a file type name from the extension of `file_path`; `is_dir` tells
/// whether the path names a directory, which is consulted only when there is no
/// extension.
pub fn detect_file_type(file_path: &[u8], is_dir: bool) -> (name: String)
    ensures
        name@ == detected_file_type(file_path@, is_dir),
{
    match extension_str(file_path) {
        Some(ext) => {
            let lower = to_lowercase(ext);
            type_for_extension(lower.as_str())
        },
        None => if is_dir {
            "directory".to_owned()
        } else {
            "unknown".to_owned()
        },
    }
}

} // verus!
