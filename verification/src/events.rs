//! Filesystem change events: which changes concern files or folders, what must be
//! observed for them, what they ask of the database, and which roots are watched.
use vstd::prelude::*;
use vstd::string::*;
use vstd::utf8::*;

use crate::identity::{
    database_object_id, storable_object_id, ContentDigest, FilesystemObjectId,
    StoredObservationError,
};
use crate::paths::{
    file_name_of, file_name_str, indexed_path, is_rooted, lemma_parent_key_utf8,
    normalized_key, path_segments, render_key, utf8_str, CanonPath,
};
use crate::records::{detect_file_type, detected_file_type, text_of};
use crate::text::str_eq;

verus! {

broadcast use encode_utf8_decode_utf8;

/// How an entry was created.
#[derive(Clone, Copy, Debug, PartialEq, Eq, Structural)]
pub enum CreateKind {
    Any,
    File,
    Folder,
    Other,
}

/// How an entry was modified; a rename that reports both of its paths is told apart.
#[derive(Clone, Copy, Debug, PartialEq, Eq, Structural)]
pub enum ModifyKind {
    RenameBoth,
    Other,
}

/// How an entry was removed.
#[derive(Clone, Copy, Debug, PartialEq, Eq, Structural)]
pub enum RemoveKind {
    Any,
    File,
    Folder,
    Other,
}

/// The kind of a filesystem change, as far as the library tells kinds apart.
#[derive(Clone, Copy, Debug, PartialEq, Eq, Structural)]
pub enum ChangeKind {
    Any,
    Access,
    Create(CreateKind),
    Modify(ModifyKind),
    Remove(RemoveKind),
    Other,
}

/// Whether a change concerns a file, a folder, or nothing the library indexes.
#[derive(Clone, Copy, Debug, PartialEq, Eq, Structural)]
pub enum ChangeTarget {
    File,
    Folder,
    Ignore,
}

/// The target of a change to an entry whose last path is a directory when `is_dir`:
/// directories, and folder creations and removals, are folder changes; accesses are
/// ignored; everything else is a file change.
pub open spec fn change_target(is_dir: bool, kind: ChangeKind) -> ChangeTarget {
    if is_dir || kind == ChangeKind::Create(CreateKind::Folder) || kind == ChangeKind::Remove(
        RemoveKind::Folder,
    ) {
        ChangeTarget::Folder
    } else if kind == ChangeKind::Access {
        ChangeTarget::Ignore
    } else {
        ChangeTarget::File
    }
}

/// Classifies a change (see `change_target`).
pub fn classify_change(is_dir: bool, kind: ChangeKind) -> (target: ChangeTarget)
    ensures
        target == change_target(is_dir, kind),
{
    if is_dir || kind == ChangeKind::Create(CreateKind::Folder) || kind == ChangeKind::Remove(
        RemoveKind::Folder,
    ) {
        ChangeTarget::Folder
    } else if kind == ChangeKind::Access {
        ChangeTarget::Ignore
    } else {
        ChangeTarget::File
    }
}

/// Whether a file change needs the file's digest and object ID: every change but a removal.
pub fn observes_file(kind: ChangeKind) -> (observe: bool)
    ensures
        observe == !(kind is Remove),
{
    match kind {
        ChangeKind::Remove(_) => false,
        _ => true,
    }
}

/// Whether a folder change needs the folder's object ID: every change but a folder removal.
pub fn observes_folder(kind: ChangeKind) -> (observe: bool)
    ensures
        observe == (kind != ChangeKind::Remove(RemoveKind::Folder)),
{
    kind != ChangeKind::Remove(RemoveKind::Folder)
}

/// Why an event's observation or database write cannot proceed.
#[derive(Clone, Copy, Debug, PartialEq, Eq, Structural)]
pub enum EventError {
    /// The event carries no path.
    MissingPath,
    /// The event's path has no UTF-8 final component.
    NoName,
    /// The event's path is not UTF-8.
    NotUtf8,
    /// A file event lacks its content digest.
    MissingDigest,
    /// An event lacks its filesystem object ID.
    MissingObjectId,
    /// The object ID does not fit the database columns.
    Stored(StoredObservationError),
    /// The object ID changed while the entry was observed.
    ReplacedWhileObserving,
    /// A rename's old path is empty or has no UTF-8 entry key.
    PreviousNotUtf8,
    /// A non-root folder has no parent path.
    NoParent,
    /// The event holds neither a file nor a folder change.
    Empty,
}

/// The object IDs observed before and after reading a file must agree.
pub fn check_same_object(before: FilesystemObjectId, after: FilesystemObjectId) -> (result: Result<
    (),
    EventError,
>)
    ensures
        before == after <==> result is Ok,
        result is Err ==> result->Err_0 == EventError::ReplacedWhileObserving,
{
    if before == after {
        Ok(())
    } else {
        Err(EventError::ReplacedWhileObserving)
    }
}

/// A change to a file, with what was observed of it.
#[derive(Debug)]
pub struct FileEvent {
    pub paths: Vec<Vec<u8>>,
    pub kind: ChangeKind,
    pub content_digest: Option<ContentDigest>,
    pub filesystem_object_id: Option<FilesystemObjectId>,
}

/// A change to a folder, with what was observed of it.
#[derive(Debug)]
pub struct FolderEvent {
    pub paths: Vec<Vec<u8>>,
    pub kind: ChangeKind,
    pub filesystem_object_id: Option<FilesystemObjectId>,
}

/// A processed watcher event: a file change or a folder change.
#[derive(Debug)]
pub struct FSEvent {
    pub file_event: Option<FileEvent>,
    pub folder_event: Option<FolderEvent>,
}

impl FSEvent {
    /// The event of a file change.
    pub fn from_file(file_event: FileEvent) -> (event: FSEvent)
        ensures
            event.file_event == Some(file_event),
            event.folder_event is None,
    {
        FSEvent { file_event: Some(file_event), folder_event: None }
    }

    /// The event of a folder change.
    pub fn from_folder(folder_event: FolderEvent) -> (event: FSEvent)
        ensures
            event.file_event is None,
            event.folder_event == Some(folder_event),
    {
        FSEvent { file_event: None, folder_event: Some(folder_event) }
    }
}

/// What an event asks of the database.
#[derive(Clone, Copy, Debug, PartialEq, Eq, Structural)]
pub enum EventWrite {
    /// Insert or update the file at the event's last path.
    UpsertFile,
    /// Delete the file at each of the event's paths.
    DeleteFiles,
    /// Insert or update the folder at the event's last path.
    UpsertFolder,
    /// Delete the folder at each of the event's paths.
    DeleteFolders,
    /// Nothing (an access or an unclassified change).
    Ignore,
}

/// The database write an event asks for: creations and modifications upsert, removals
/// delete every path; a file change is read before a folder change.
pub open spec fn event_write(
    file_kind: Option<ChangeKind>,
    folder_kind: Option<ChangeKind>,
) -> Result<EventWrite, EventError> {
    match file_kind {
        Some(kind) => Ok(
            match kind {
                ChangeKind::Create(_) => EventWrite::UpsertFile,
                ChangeKind::Modify(_) => EventWrite::UpsertFile,
                ChangeKind::Remove(_) => EventWrite::DeleteFiles,
                _ => EventWrite::Ignore,
            },
        ),
        None => match folder_kind {
            Some(kind) => Ok(
                match kind {
                    ChangeKind::Create(_) => EventWrite::UpsertFolder,
                    ChangeKind::Modify(_) => EventWrite::UpsertFolder,
                    ChangeKind::Remove(_) => EventWrite::DeleteFolders,
                    _ => EventWrite::Ignore,
                },
            ),
            None => Err(EventError::Empty),
        },
    }
}

/// Decides the database write of an event (see `event_write`).
pub fn plan_event_write(event: &FSEvent) -> (write: Result<EventWrite, EventError>)
    ensures
        write == event_write(
            match event.file_event {
                Some(e) => Some(e.kind),
                None => None,
            },
            match event.folder_event {
                Some(e) => Some(e.kind),
                None => None,
            },
        ),
{
    match &event.file_event {
        Some(file_event) => Ok(
            match file_event.kind {
                ChangeKind::Create(_) => EventWrite::UpsertFile,
                ChangeKind::Modify(_) => EventWrite::UpsertFile,
                ChangeKind::Remove(_) => EventWrite::DeleteFiles,
                _ => EventWrite::Ignore,
            },
        ),
        None => match &event.folder_event {
            Some(folder_event) => Ok(
                match folder_event.kind {
                    ChangeKind::Create(_) => EventWrite::UpsertFolder,
                    ChangeKind::Modify(_) => EventWrite::UpsertFolder,
                    ChangeKind::Remove(_) => EventWrite::DeleteFolders,
                    _ => EventWrite::Ignore,
                },
            ),
            None => Err(EventError::Empty),
        },
    }
}

/// What a change is about: a change whose last path is a directory is a folder change;
/// otherwise only the creation or the removal of a folder is, an access concerns nothing,
/// and every other change (any creation, modification or removal of a file, or a change
/// of unknown kind) is a file change.
pub proof fn lemma_change_targets(is_dir: bool, kind: ChangeKind)
    ensures
        is_dir ==> change_target(is_dir, kind) == ChangeTarget::Folder,
        kind == ChangeKind::Create(CreateKind::Folder) ==> change_target(is_dir, kind)
            == ChangeTarget::Folder,
        kind == ChangeKind::Remove(RemoveKind::Folder) ==> change_target(is_dir, kind)
            == ChangeTarget::Folder,
        !is_dir && kind == ChangeKind::Access ==> change_target(is_dir, kind)
            == ChangeTarget::Ignore,
        !is_dir && kind != ChangeKind::Access && kind != ChangeKind::Create(CreateKind::Folder)
            && kind != ChangeKind::Remove(RemoveKind::Folder) ==> change_target(is_dir, kind)
            == ChangeTarget::File,
        change_target(false, ChangeKind::Create(CreateKind::File)) == ChangeTarget::File,
        change_target(false, ChangeKind::Create(CreateKind::Any)) == ChangeTarget::File,
        change_target(false, ChangeKind::Modify(ModifyKind::Other)) == ChangeTarget::File,
        change_target(false, ChangeKind::Remove(RemoveKind::File)) == ChangeTarget::File,
{
}

/// What an event asks of the database: for a file change, a creation or a modification of
/// any kind upserts the file and a removal deletes it, so a modification asks for the
/// same write as a creation; the same holds of folder changes; a file change is read
/// before a folder change, and an event without either is refused.
pub proof fn lemma_event_writes(
    kind: ChangeKind,
    other: Option<ChangeKind>,
    created: CreateKind,
    modified: ModifyKind,
)
    ensures
        (kind is Create || kind is Modify) ==> event_write(Some(kind), other) == Ok::<
            EventWrite,
            EventError,
        >(EventWrite::UpsertFile),
        kind is Remove ==> event_write(Some(kind), other) == Ok::<EventWrite, EventError>(
            EventWrite::DeleteFiles,
        ),
        (kind is Create || kind is Modify) ==> event_write(None, Some(kind)) == Ok::<
            EventWrite,
            EventError,
        >(EventWrite::UpsertFolder),
        kind is Remove ==> event_write(None, Some(kind)) == Ok::<EventWrite, EventError>(
            EventWrite::DeleteFolders,
        ),
        (kind == ChangeKind::Access || kind == ChangeKind::Any || kind == ChangeKind::Other)
            ==> event_write(Some(kind), other) == Ok::<EventWrite, EventError>(
            EventWrite::Ignore,
        ) && event_write(None, Some(kind)) == Ok::<EventWrite, EventError>(EventWrite::Ignore),
        event_write(Some(ChangeKind::Modify(modified)), other) == event_write(
            Some(ChangeKind::Create(created)),
            other,
        ),
        event_write(None, Some(ChangeKind::Modify(modified))) == event_write(
            None,
            Some(ChangeKind::Create(created)),
        ),
        event_write(None, None) == Err::<EventWrite, EventError>(EventError::Empty),
{
}

/// Whether an event is a rename that reports its old path first and its new path last.
pub open spec fn is_two_path_rename(paths: Seq<Vec<u8>>, kind: ChangeKind) -> bool {
    paths.len() == 2 && kind == ChangeKind::Modify(ModifyKind::RenameBoth)
}

/// The row an event writes for a file.
#[derive(Debug)]
pub struct FileUpsert {
    /// The entry key, which the row is looked up and stored under.
    pub path: String,
    pub name: String,
    pub content_digest: ContentDigest,
    pub device_id: i64,
    pub inode: i64,
    pub file_type_name: String,
    /// For a rename reporting both paths, the old path, where the row may still be stored.
    pub previous_path: Option<Vec<u8>>,
}

/// The row an event writes for a folder.
#[derive(Debug)]
pub struct FolderUpsert {
    /// The entry key, which the row is looked up and stored under.
    pub path: String,
    pub name: String,
    pub device_id: i64,
    pub inode: i64,
    /// For a rename reporting both paths, the old path, where the row may still be stored.
    pub previous_path: Option<Vec<u8>>,
}

/// Whether the last path of an event, or its entry key, is not UTF-8.
pub open spec fn key_not_utf8(last: Seq<u8>, current_dir: Seq<u8>) -> bool {
    !valid_utf8(last) || !valid_utf8(normalized_key(last, current_dir))
}

/// The first failure in reading a row from a file event, in the order the checks run.
pub open spec fn file_upsert_error(
    paths: Seq<Vec<u8>>,
    current_dir: Seq<u8>,
    digest: Option<ContentDigest>,
    object_id: Option<FilesystemObjectId>,
) -> Option<EventError> {
    if paths.len() == 0 {
        Some(EventError::MissingPath)
    } else if text_of(file_name_of(paths.last()@)) is None {
        Some(EventError::NoName)
    } else if key_not_utf8(paths.last()@, current_dir) {
        Some(EventError::NotUtf8)
    } else if digest is None {
        Some(EventError::MissingDigest)
    } else if object_id is None {
        Some(EventError::MissingObjectId)
    } else {
        match storable_object_id(object_id->0) {
            Err(e) => Some(EventError::Stored(e)),
            Ok(_) => None,
        }
    }
}

/// The first failure in reading a row from a folder event, in the order the checks run.
pub open spec fn folder_upsert_error(
    paths: Seq<Vec<u8>>,
    current_dir: Seq<u8>,
    object_id: Option<FilesystemObjectId>,
) -> Option<EventError> {
    if paths.len() == 0 {
        Some(EventError::MissingPath)
    } else if text_of(file_name_of(paths.last()@)) is None {
        Some(EventError::NoName)
    } else if key_not_utf8(paths.last()@, current_dir) {
        Some(EventError::NotUtf8)
    } else if object_id is None {
        Some(EventError::MissingObjectId)
    } else {
        match storable_object_id(object_id->0) {
            Err(e) => Some(EventError::Stored(e)),
            Ok(_) => None,
        }
    }
}

fn last_path_name(paths: &Vec<Vec<u8>>, current_dir: &[u8]) -> (result: Result<
    (String, String),
    EventError,
>)
    ensures
        paths@.len() == 0 ==> result == Err::<(String, String), _>(EventError::MissingPath),
        paths@.len() > 0 && text_of(file_name_of(paths@.last()@)) is None ==> result == Err::<
            (String, String),
            _,
        >(EventError::NoName),
        paths@.len() > 0 && text_of(file_name_of(paths@.last()@)) is Some && key_not_utf8(
            paths@.last()@,
            current_dir@,
        ) ==> result == Err::<(String, String), _>(EventError::NotUtf8),
        paths@.len() > 0 && text_of(file_name_of(paths@.last()@)) is Some && !key_not_utf8(
            paths@.last()@,
            current_dir@,
        ) ==> result is Ok && encode_utf8(result->Ok_0.0@) == normalized_key(
            paths@.last()@,
            current_dir@,
        ) && result->Ok_0.1@ == text_of(file_name_of(paths@.last()@))->0,
{
    if paths.len() == 0 {
        return Err(EventError::MissingPath);
    }
    let last = &paths[paths.len() - 1];
    assert(paths@[paths@.len() - 1] == paths@.last());
    let name = match file_name_str(last.as_slice()) {
        Some(name) => name.to_owned(),
        None => {
            return Err(EventError::NoName);
        },
    };
    match indexed_path(last.as_slice(), current_dir) {
        Ok(key) => Ok((key, name)),
        Err(_) => Err(EventError::NotUtf8),
    }
}

fn previous_of(paths: &Vec<Vec<u8>>, kind: ChangeKind) -> (previous: Option<Vec<u8>>)
    ensures
        is_two_path_rename(paths@, kind) ==> previous is Some && previous->0@ == paths@[0]@,
        !is_two_path_rename(paths@, kind) ==> previous is None,
{
    if paths.len() == 2 && kind == ChangeKind::Modify(ModifyKind::RenameBoth) {
        Some(paths[0].clone())
    } else {
        None
    }
}

impl FileUpsert {
    /// The row that a file event writes, stored under the entry key of the event's last
    /// path (a relative path is taken below `current_dir`); `is_dir` tells whether that
    /// path names a directory, which matters only for a path without extension.
    pub fn from_event(event: &FileEvent, is_dir: bool, current_dir: &[u8]) -> (result: Result<
        FileUpsert,
        EventError,
    >)
        ensures
            match file_upsert_error(
                event.paths@,
                current_dir@,
                event.content_digest,
                event.filesystem_object_id,
            ) {
                Some(e) => result == Err::<FileUpsert, _>(e),
                None => result is Ok && {
                    let row = result->Ok_0;
                    let last = event.paths@.last()@;
                    let id = event.filesystem_object_id->0;
                    &&& encode_utf8(row.path@) == normalized_key(last, current_dir@)
                    &&& row.name@ == text_of(file_name_of(last))->0
                    &&& row.content_digest == event.content_digest->0
                    &&& storable_object_id(id) == Ok::<_, StoredObservationError>(
                        (row.device_id, row.inode),
                    )
                    &&& row.file_type_name@ == detected_file_type(last, is_dir)
                    &&& (is_two_path_rename(event.paths@, event.kind) ==> row.previous_path
                        is Some && row.previous_path->0@ == event.paths@[0]@)
                    &&& (!is_two_path_rename(event.paths@, event.kind)
                        ==> row.previous_path is None)
                },
            },
    {
        let (path, name) = match last_path_name(&event.paths, current_dir) {
            Ok(pair) => pair,
            Err(e) => {
                return Err(e);
            },
        };
        let last = &event.paths[event.paths.len() - 1];
        assert(event.paths@[event.paths@.len() - 1] == event.paths@.last());
        let file_type_name = detect_file_type(last.as_slice(), is_dir);
        let content_digest = match event.content_digest {
            Some(d) => d,
            None => {
                return Err(EventError::MissingDigest);
            },
        };
        let object_id = match event.filesystem_object_id {
            Some(id) => id,
            None => {
                return Err(EventError::MissingObjectId);
            },
        };
        let (device_id, inode) = match database_object_id(object_id) {
            Ok(pair) => pair,
            Err(e) => {
                return Err(EventError::Stored(e));
            },
        };
        Ok(FileUpsert {
            path,
            name,
            content_digest,
            device_id,
            inode,
            file_type_name,
            previous_path: previous_of(&event.paths, event.kind),
        })
    }
}

impl FolderUpsert {
    /// The row that a folder event writes, stored under the entry key of the event's last
    /// path (a relative path is taken below `current_dir`).
    pub fn from_event(event: &FolderEvent, current_dir: &[u8]) -> (result: Result<
        FolderUpsert,
        EventError,
    >)
        ensures
            match folder_upsert_error(event.paths@, current_dir@, event.filesystem_object_id) {
                Some(e) => result == Err::<FolderUpsert, _>(e),
                None => result is Ok && {
                    let row = result->Ok_0;
                    let last = event.paths@.last()@;
                    let id = event.filesystem_object_id->0;
                    &&& encode_utf8(row.path@) == normalized_key(last, current_dir@)
                    &&& row.name@ == text_of(file_name_of(last))->0
                    &&& storable_object_id(id) == Ok::<_, StoredObservationError>(
                        (row.device_id, row.inode),
                    )
                    &&& (is_two_path_rename(event.paths@, event.kind) ==> row.previous_path
                        is Some && row.previous_path->0@ == event.paths@[0]@)
                    &&& (!is_two_path_rename(event.paths@, event.kind)
                        ==> row.previous_path is None)
                },
            },
    {
        let (path, name) = match last_path_name(&event.paths, current_dir) {
            Ok(pair) => pair,
            Err(e) => {
                return Err(e);
            },
        };
        let object_id = match event.filesystem_object_id {
            Some(id) => id,
            None => {
                return Err(EventError::MissingObjectId);
            },
        };
        let (device_id, inode) = match database_object_id(object_id) {
            Ok(pair) => pair,
            Err(e) => {
                return Err(EventError::Stored(e));
            },
        };
        Ok(FolderUpsert {
            path,
            name,
            device_id,
            inode,
            previous_path: previous_of(&event.paths, event.kind),
        })
    }
}

/// The entry key of the old path of a rename (a relative path is taken below
/// `current_dir`), read only when the row is not stored under its new key; an old path
/// that is empty or has no UTF-8 key is refused.
pub fn previous_key(previous_path: &Option<Vec<u8>>, current_dir: &[u8]) -> (key: Result<
    Option<String>,
    EventError,
>)
    ensures
        match previous_path {
            None => key == Ok::<Option<String>, EventError>(None),
            Some(p) => if p@.len() > 0 && valid_utf8(p@) && valid_utf8(
                normalized_key(p@, current_dir@),
            ) {
                (key matches Ok(Some(k)) && encode_utf8(k@) == normalized_key(p@, current_dir@))
            } else {
                key == Err::<Option<String>, _>(EventError::PreviousNotUtf8)
            },
        },
{
    match previous_path {
        None => Ok(None),
        Some(p) => match indexed_path(p.as_slice(), current_dir) {
            Ok(key) => Ok(Some(key)),
            Err(_) => Err(EventError::PreviousNotUtf8),
        },
    }
}

/// The key of the parent of an entry key: the key without its last segment.
pub open spec fn parent_key_of(key: Seq<u8>) -> Option<Seq<u8>> {
    if path_segments(key).len() == 0 {
        None
    } else {
        Some(render_key(is_rooted(key), path_segments(key).drop_last()))
    }
}

/// Where a folder hangs: `None` for a watched root, otherwise the key of its parent,
/// whose stored row the database supplies.
pub fn parent_lookup(folder_key: &str, root_keys: &Vec<String>) -> (result: Result<
    Option<String>,
    EventError,
>)
    ensures
        (exists|i: int| 0 <= i < root_keys@.len() && (#[trigger] root_keys@[i])@ == folder_key@)
            ==> result == Ok::<Option<String>, EventError>(None),
        !(exists|i: int| 0 <= i < root_keys@.len() && (#[trigger] root_keys@[i])@ == folder_key@)
            ==> match parent_key_of(folder_key.spec_bytes()) {
            None => result == Err::<Option<String>, _>(EventError::NoParent),
            Some(parent) => (result matches Ok(Some(key)) && encode_utf8(key@) == parent),
        },
{
    if crate::text::list_contains(root_keys, folder_key) {
        return Ok(None);
    }
    proof {
        encode_utf8_valid_utf8(folder_key@);
        if path_segments(folder_key.spec_bytes()).len() > 0 {
            lemma_parent_key_utf8(folder_key.spec_bytes());
        }
    }
    match crate::paths::parent_bytes(folder_key.as_bytes()) {
        None => Err(EventError::NoParent),
        Some(parent) => match utf8_str(parent.as_slice()) {
            Some(text) => Ok(Some(text.to_owned())),
            None => Err(EventError::NoParent),
        },
    }
}

/// Where the row written for an event goes.
#[derive(Debug)]
pub enum RowTarget {
    /// Update the stored row with this ID.
    Update(i32),
    /// Look for a row stored under this previous key, then decide again with what was found.
    LookUp(String),
    /// Insert a new row.
    Insert,
}

/// Decides where an event's row goes: the row stored under its key, else, when the event
/// reported a previous key, the row stored there, else a new row. `at_path` is the row
/// found under the key; after a lookup, pass what was found there and no previous key.
pub fn row_target(at_path: Option<i32>, previous: Option<String>) -> (target: RowTarget)
    ensures
        match at_path {
            Some(id) => target == RowTarget::Update(id),
            None => match previous {
                Some(p) => target matches RowTarget::LookUp(q) && q@ == p@,
                None => target == RowTarget::Insert,
            },
        },
{
    match at_path {
        Some(id) => RowTarget::Update(id),
        None => match previous {
            Some(p) => RowTarget::LookUp(p),
            None => RowTarget::Insert,
        },
    }
}

/// The watched roots, each once.
pub struct WatchedPaths {
    paths: Vec<CanonPath>,
}

impl View for WatchedPaths {
    type V = Set<Seq<char>>;

    closed spec fn view(&self) -> Set<Seq<char>> {
        self.paths@.map_values(|p: CanonPath| p@).to_set()
    }
}

impl WatchedPaths {
    pub closed spec fn wf(&self) -> bool {
        forall|i: int, j: int|
            0 <= i < self.paths@.len() && 0 <= j < self.paths@.len() && i != j ==> (
            #[trigger] self.paths@[i])@ != (#[trigger] self.paths@[j])@
    }

    /// No watched roots.
    pub fn new() -> (watched: WatchedPaths)
        ensures
            watched.wf(),
            watched@ == Set::<Seq<char>>::empty(),
    {
        let watched = WatchedPaths { paths: Vec::new() };
        assert(watched.paths@.map_values(|p: CanonPath| p@) =~= Seq::<Seq<char>>::empty());
        assert(watched@ =~= Set::<Seq<char>>::empty());
        watched
    }

    fn position(&self, path: &CanonPath) -> (index: Option<usize>)
        ensures
            match index {
                Some(i) => i < self.paths@.len() && self.paths@[i as int]@ == path@,
                None => forall|j: int| 0 <= j < self.paths@.len() ==> (#[trigger] self.paths@[j])@ != path@,
            },
    {
        let mut i: usize = 0;
        while i < self.paths.len()
            invariant
                i <= self.paths@.len(),
                forall|j: int| 0 <= j < i ==> (#[trigger] self.paths@[j])@ != path@,
            decreases self.paths@.len() - i,
        {
            let same = match (self.paths[i].as_str(), path.as_str()) {
                (Some(a), Some(b)) => str_eq(a, b),
                _ => false,
            };
            if same {
                return Some(i);
            }
            i = i + 1;
        }
        None
    }

    proof fn lemma_view_contains(&self, key: Seq<char>)
        ensures
            self@.contains(key) <==> exists|j: int| 0 <= j < self.paths@.len() && (
            #[trigger] self.paths@[j])@ == key,
    {
        let s = self.paths@.map_values(|p: CanonPath| p@);
        if self@.contains(key) {
            let j = choose|j: int| 0 <= j < s.len() && s[j] == key;
            assert(self.paths@[j]@ == key);
        }
        if exists|j: int| 0 <= j < self.paths@.len() && (#[trigger] self.paths@[j])@ == key {
            let j = choose|j: int| 0 <= j < self.paths@.len() && (#[trigger] self.paths@[j])@ == key;
            assert(s[j] == key);
        }
    }

    /// Whether `path` is watched.
    pub fn contains(&self, path: &CanonPath) -> (watched: bool)
        ensures
            watched == self@.contains(path@),
    {
        proof {
            self.lemma_view_contains(path@);
        }
        self.position(path).is_some()
    }

    /// Records that `path` is now watched.
    pub fn insert(&mut self, path: CanonPath)
        requires
            old(self).wf(),
        ensures
            final(self).wf(),
            final(self)@ == old(self)@.insert(path@),
    {
        proof {
            self.lemma_view_contains(path@);
        }
        if self.position(&path).is_none() {
            let ghost key = path@;
            self.paths.push(path);
            proof {
                let s0 = old(self).paths@.map_values(|p: CanonPath| p@);
                let s1 = self.paths@.map_values(|p: CanonPath| p@);
                assert(s1 =~= s0.push(key));
                assert(self@ =~= old(self)@.insert(key)) by {
                    assert forall|k: Seq<char>| self@.contains(k) <==> old(self)@.insert(key).contains(
                        k,
                    ) by {
                        self.lemma_view_contains(k);
                        old(self).lemma_view_contains(k);
                        if k != key && self@.contains(k) {
                            let j = choose|j: int| 0 <= j < self.paths@.len() && (
                            #[trigger] self.paths@[j])@ == k;
                            assert(old(self).paths@[j] == self.paths@[j]);
                        }
                        if old(self)@.contains(k) {
                            let j = choose|j: int| 0 <= j < old(self).paths@.len() && (
                            #[trigger] old(self).paths@[j])@ == k;
                            assert(old(self).paths@[j] == self.paths@[j]);
                        }
                        if k == key {
                            assert(self.paths@[self.paths@.len() - 1]@ == key);
                        }
                    }
                }
            }
        } else {
            assert(old(self)@.insert(path@) =~= old(self)@);
        }
    }

    /// Records that `path` is no longer watched.
    pub fn remove(&mut self, path: &CanonPath)
        requires
            old(self).wf(),
        ensures
            final(self).wf(),
            final(self)@ == old(self)@.remove(path@),
    {
        match self.position(path) {
            Some(i) => {
                self.paths.remove(i);
                proof {
                    assert forall|k: Seq<char>| self@.contains(k) <==> old(self)@.remove(path@).contains(
                        k,
                    ) by {
                        self.lemma_view_contains(k);
                        old(self).lemma_view_contains(k);
                        if self@.contains(k) {
                            let j = choose|j: int| 0 <= j < self.paths@.len() && (
                            #[trigger] self.paths@[j])@ == k;
                            if j < i {
                                assert(self.paths@[j] == old(self).paths@[j]);
                                assert(j != i);
                            } else {
                                assert(self.paths@[j] == old(self).paths@[j + 1]);
                            }
                        }
                        if old(self)@.remove(path@).contains(k) {
                            let j = choose|j: int| 0 <= j < old(self).paths@.len() && (
                            #[trigger] old(self).paths@[j])@ == k;
                            if j < i {
                                assert(self.paths@[j] == old(self).paths@[j]);
                            } else if j > i {
                                assert(self.paths@[j - 1] == old(self).paths@[j]);
                            }
                        }
                    }
                    assert(self@ =~= old(self)@.remove(path@));
                    assert forall|a: int, b: int|
                        0 <= a < self.paths@.len() && 0 <= b < self.paths@.len() && a != b implies (
                    #[trigger] self.paths@[a])@ != (#[trigger] self.paths@[b])@ by {
                        let oa = if a < i {
                            a
                        } else {
                            a + 1
                        };
                        let ob = if b < i {
                            b
                        } else {
                            b + 1
                        };
                        assert(self.paths@[a] == old(self).paths@[oa]);
                        assert(self.paths@[b] == old(self).paths@[ob]);
                    }
                }
            },
            None => {
                proof {
                    old(self).lemma_view_contains(path@);
                    assert(old(self)@.remove(path@) =~= old(self)@);
                }
            },
        }
    }
}

/// A request to the running watcher (a request for the watched roots carries its reply
/// channel outside the library).
#[derive(Debug)]
pub enum WatchRequest {
    /// Start watching a root.
    Watch(CanonPath),
    /// Stop watching a root.
    Unwatch(CanonPath),
    /// Report the watched roots.
    List,
}

/// What the watcher does for one request.
#[derive(Debug)]
pub enum WatchStep {
    /// Ask the filesystem watcher to watch this root recursively; record it once that worked.
    StartWatching(CanonPath),
    /// Ask the filesystem watcher to stop watching this root; forget it once that worked.
    StopWatching(CanonPath),
    /// Answer with these roots.
    Report(Vec<CanonPath>),
    /// Nothing to do: the root is already watched, or was not watched.
    Nothing,
}

/// The watched roots after a request has been carried out.
pub open spec fn watched_after_request(watched: Set<Seq<char>>, request: WatchRequest) -> Set<
    Seq<char>,
> {
    match request {
        WatchRequest::Watch(root) => watched.insert(root@),
        WatchRequest::Unwatch(root) => watched.remove(root@),
        WatchRequest::List => watched,
    }
}

/// The watched roots after a step has been carried out.
pub open spec fn watched_after_step(watched: Set<Seq<char>>, step: WatchStep) -> Set<Seq<char>> {
    match step {
        WatchStep::StartWatching(root) => watched.insert(root@),
        WatchStep::StopWatching(root) => watched.remove(root@),
        _ => watched,
    }
}

impl WatchedPaths {
    /// The watched roots, each once.
    pub fn roots(&self) -> (roots: Vec<CanonPath>)
        requires
            self.wf(),
        ensures
            roots@.map_values(|p: CanonPath| p@).to_set() == self@,
            roots@.map_values(|p: CanonPath| p@).no_duplicates(),
    {
        let mut roots: Vec<CanonPath> = Vec::new();
        let mut i: usize = 0;
        while i < self.paths.len()
            invariant
                i <= self.paths@.len(),
                roots@.len() == i,
                forall|j: int| 0 <= j < i ==> (#[trigger] roots@[j])@ == self.paths@[j]@,
            decreases self.paths@.len() - i,
        {
            roots.push(self.paths[i].clone());
            i = i + 1;
        }
        proof {
            let views = roots@.map_values(|p: CanonPath| p@);
            assert(views =~= self.paths@.map_values(|p: CanonPath| p@));
            assert forall|a: int, b: int| 0 <= a < views.len() && 0 <= b < views.len() && a != b
                implies views[a] != views[b] by {
                assert(views[a] == self.paths@[a]@);
                assert(views[b] == self.paths@[b]@);
            }
        }
        roots
    }

    /// Decides what a request asks of the filesystem watcher: watching a root that is
    /// not watched yet, unwatching one that is, or reporting the watched roots. The
    /// watched roots change only once the step has been carried out (see `complete`).
    pub fn step(&self, request: WatchRequest) -> (step: WatchStep)
        requires
            self.wf(),
        ensures
            watched_after_step(self@, step) == watched_after_request(self@, request),
            match request {
                WatchRequest::Watch(root) => if self@.contains(root@) {
                    step is Nothing
                } else {
                    step matches WatchStep::StartWatching(r) && r@ == root@
                },
                WatchRequest::Unwatch(root) => if self@.contains(root@) {
                    step matches WatchStep::StopWatching(r) && r@ == root@
                } else {
                    step is Nothing
                },
                WatchRequest::List => step matches WatchStep::Report(roots) && roots@.map_values(
                    |p: CanonPath| p@,
                ).to_set() == self@ && roots@.map_values(|p: CanonPath| p@).no_duplicates(),
            },
    {
        match request {
            WatchRequest::Watch(root) => {
                if self.contains(&root) {
                    assert(self@.insert(root@) =~= self@);
                    WatchStep::Nothing
                } else {
                    WatchStep::StartWatching(root)
                }
            },
            WatchRequest::Unwatch(root) => {
                if self.contains(&root) {
                    WatchStep::StopWatching(root)
                } else {
                    assert(self@.remove(root@) =~= self@);
                    WatchStep::Nothing
                }
            },
            WatchRequest::List => WatchStep::Report(self.roots()),
        }
    }

    /// Records a step once the filesystem watcher has carried it out.
    pub fn complete(&mut self, step: WatchStep)
        requires
            old(self).wf(),
        ensures
            final(self).wf(),
            final(self)@ == watched_after_step(old(self)@, step),
    {
        match step {
            WatchStep::StartWatching(root) => self.insert(root),
            WatchStep::StopWatching(root) => self.remove(&root),
            _ => {},
        }
    }
}

/// Watching a root and unwatching it again leaves the watched roots as they were, when
/// the root was not watched before.
pub proof fn lemma_watch_then_unwatch(watched: Set<Seq<char>>, root: Seq<char>)
    requires
        !watched.contains(root),
    ensures
        watched.insert(root).remove(root) == watched,
{
    assert(watched.insert(root).remove(root) =~= watched);
}

} // verus!
