//! Synchronizing a watched root with the database: which stored entries belong
//! to the root, which operations bring the database to the scanned state, how
//! those operations are batched, and what the report counts.
use vstd::prelude::*;
use vstd::hash_map::StringHashMap;
use vstd::string::*;
use vstd::utf8::*;

use crate::identity::{stored_object_id, StoredObservationError};
use crate::paths::{is_within, path_is_within};
use crate::records::{
    row_observation_error, FileMetadata, FileRow, FileSystemFile, FileSystemFolder, FolderMetadata,
    FolderRow, UpsertFileBatchReport, UpsertFolderBatchReport,
};
use crate::text::str_eq;

verus! {

/// A stored record that is found by its entry key.
pub trait Keyed {
    spec fn key_view(&self) -> Seq<char>;

    fn key(&self) -> (k: &str)
        ensures
            k@ == self.key_view(),
    ;
}

impl Keyed for FileMetadata {
    open spec fn key_view(&self) -> Seq<char> {
        self.path@
    }

    fn key(&self) -> (k: &str) {
        self.path.as_str()
    }
}

impl Keyed for FolderMetadata {
    open spec fn key_view(&self) -> Seq<char> {
        self.path@
    }

    fn key(&self) -> (k: &str) {
        self.path.as_str()
    }
}

/// The entry of `entries` stored under `key` (the last one, should keys repeat).
pub open spec fn entry_for<T: Keyed>(entries: Seq<T>, key: Seq<char>) -> Option<T>
    decreases entries.len(),
{
    if entries.len() == 0 {
        None
    } else if entries.last().key_view() == key {
        Some(entries.last())
    } else {
        entry_for(entries.drop_last(), key)
    }
}

/// Whether no two entries share a key.
pub open spec fn keys_distinct<T: Keyed>(entries: Seq<T>) -> bool {
    forall|i: int, j: int|
        0 <= i < entries.len() && 0 <= j < entries.len() && i != j ==> (#[trigger] entries[i]).key_view()
            != (#[trigger] entries[j]).key_view()
}

/// The index of the entry stored under `key`, when there is one.
pub open spec fn has_key_at<T: Keyed>(entries: Seq<T>, key: Seq<char>, i: int) -> bool {
    0 <= i < entries.len() && entries[i].key_view() == key
}

proof fn lemma_entry_for_at<T: Keyed>(entries: Seq<T>, key: Seq<char>, i: int)
    requires
        keys_distinct(entries),
        has_key_at(entries, key, i),
    ensures
        entry_for(entries, key) == Some(entries[i]),
    decreases entries.len(),
{
    if i != entries.len() - 1 {
        assert(entries.last() == entries[entries.len() - 1]);
        let rest = entries.drop_last();
        assert(keys_distinct(rest)) by {
            assert forall|a: int, b: int|
                0 <= a < rest.len() && 0 <= b < rest.len() && a != b implies (#[trigger] rest[a]).key_view()
                != (#[trigger] rest[b]).key_view() by {
                assert(rest[a] == entries[a]);
                assert(rest[b] == entries[b]);
            }
        }
        assert(rest[i] == entries[i]);
        lemma_entry_for_at(rest, key, i);
    }
}

proof fn lemma_entry_for_none<T: Keyed>(entries: Seq<T>, key: Seq<char>)
    requires
        forall|i: int| 0 <= i < entries.len() ==> (#[trigger] entries[i]).key_view() != key,
    ensures
        entry_for(entries, key) is None,
    decreases entries.len(),
{
    if entries.len() > 0 {
        assert(entries[entries.len() - 1] == entries.last());
        let rest = entries.drop_last();
        assert forall|i: int| 0 <= i < rest.len() implies (#[trigger] rest[i]).key_view() != key by {
            assert(rest[i] == entries[i]);
        }
        lemma_entry_for_none(rest, key);
    }
}

/// Stored records below one watched root, each key once, in the order they were read.
pub struct DirectoryState<T> {
    entries: Vec<T>,
    index: StringHashMap<usize>,
}

impl<T: Keyed> DirectoryState<T> {
    /// The records, in the order they were read.
    pub closed spec fn entries(&self) -> Seq<T> {
        self.entries@
    }

    pub closed spec fn wf(&self) -> bool {
        &&& forall|k: Seq<char>|
            #[trigger] self.index@.contains_key(k) ==> has_key_at(
                self.entries@,
                k,
                self.index@[k] as int,
            )
        &&& forall|i: int|
            0 <= i < self.entries@.len() ==> #[trigger] self.index@.contains_key(
                self.entries@[i].key_view(),
            ) && self.index@[self.entries@[i].key_view()] == i
    }

    pub proof fn lemma_wf_distinct(&self)
        requires
            self.wf(),
        ensures
            keys_distinct(self.entries()),
    {
        assert forall|i: int, j: int|
            0 <= i < self.entries@.len() && 0 <= j < self.entries@.len() && i != j implies (
            #[trigger] self.entries@[i]).key_view() != (#[trigger] self.entries@[j]).key_view() by {
            assert(self.index@.contains_key(self.entries@[i].key_view()));
            assert(self.index@.contains_key(self.entries@[j].key_view()));
        }
    }

    /// No records.
    pub fn new() -> (state: DirectoryState<T>)
        ensures
            state.wf(),
            state.entries() == Seq::<T>::empty(),
    {
        DirectoryState { entries: Vec::new(), index: StringHashMap::new() }
    }

    /// The number of records.
    pub fn len(&self) -> (n: usize)
        ensures
            n == self.entries().len(),
    {
        self.entries.len()
    }

    /// The record stored under `key`.
    pub fn get(&self, key: &str) -> (entry: Option<&T>)
        requires
            self.wf(),
        ensures
            match entry {
                Some(e) => entry_for(self.entries(), key@) == Some(*e),
                None => entry_for(self.entries(), key@) is None,
            },
    {
        proof {
            self.lemma_wf_distinct();
        }
        match self.index.get(key) {
            Some(i) => {
                let i = *i;
                proof {
                    lemma_entry_for_at(self.entries@, key@, i as int);
                }
                Some(&self.entries[i])
            },
            None => {
                proof {
                    assert forall|i: int| 0 <= i < self.entries@.len() implies (
                    #[trigger] self.entries@[i]).key_view() != key@ by {
                        assert(self.index@.contains_key(self.entries@[i].key_view()));
                    }
                    lemma_entry_for_none(self.entries@, key@);
                }
                None
            },
        }
    }

    /// Stores `entry` under its key: it replaces the record with the same key in
    /// place, or is appended.
    pub fn insert(&mut self, entry: T)
        requires
            old(self).wf(),
        ensures
            final(self).wf(),
            final(self).entries() == inserted(old(self).entries(), entry),
    {
        proof {
            self.lemma_wf_distinct();
        }
        let key = entry.key();
        match self.index.get(key) {
            Some(i) => {
                let i = *i;
                proof {
                    assert(has_key_at(self.entries@, entry.key_view(), i as int));
                    assert(exists|j: int| has_key_at(self.entries@, entry.key_view(), j));
                    let j = choose|j: int| has_key_at(self.entries@, entry.key_view(), j);
                    assert(j == i) by {
                        if j != i {
                            assert(self.entries@[i as int].key_view() != self.entries@[j].key_view());
                        }
                    }
                }
                self.entries.set(i, entry);
                proof {
                    assert forall|j: int| 0 <= j < self.entries@.len() implies #[trigger] self.index@.contains_key(
                        self.entries@[j].key_view(),
                    ) && self.index@[self.entries@[j].key_view()] == j by {
                        if j != i {
                            assert(self.entries@[j] == old(self).entries@[j]);
                        }
                    }
                }
            },
            None => {
                let owned = key.to_owned();
                let n = self.entries.len();
                proof {
                    assert(!exists|j: int| has_key_at(self.entries@, entry.key_view(), j)) by {
                        if exists|j: int| has_key_at(self.entries@, entry.key_view(), j) {
                            let j = choose|j: int| has_key_at(self.entries@, entry.key_view(), j);
                            assert(self.index@.contains_key(self.entries@[j].key_view()));
                        }
                    }
                }
                self.index.insert(owned, n);
                self.entries.push(entry);
                proof {
                    assert forall|j: int| 0 <= j < self.entries@.len() implies #[trigger] self.index@.contains_key(
                        self.entries@[j].key_view(),
                    ) && self.index@[self.entries@[j].key_view()] == j by {
                        if j < n {
                            assert(self.entries@[j] == old(self).entries@[j]);
                            assert(old(self).index@.contains_key(old(self).entries@[j].key_view()));
                        }
                    }
                    assert forall|k: Seq<char>| #[trigger] self.index@.contains_key(k) implies has_key_at(
                        self.entries@,
                        k,
                        self.index@[k] as int,
                    ) by {
                        if k != entry.key_view() {
                            assert(old(self).index@.contains_key(k));
                            let j = old(self).index@[k] as int;
                            assert(self.entries@[j] == old(self).entries@[j]);
                        }
                    }
                }
            },
        }
    }
}

/// The records after storing `entry`: it replaces the record with its key, or is appended.
pub open spec fn inserted<T: Keyed>(entries: Seq<T>, entry: T) -> Seq<T> {
    if exists|i: int| has_key_at(entries, entry.key_view(), i) {
        entries.update(choose|i: int| has_key_at(entries, entry.key_view(), i), entry)
    } else {
        entries.push(entry)
    }
}


proof fn lemma_inserted_lookup<T: Keyed>(entries: Seq<T>, entry: T, key: Seq<char>)
    requires
        keys_distinct(entries),
        keys_distinct(inserted(entries, entry)),
    ensures
        entry_for(inserted(entries, entry), key) == (if key == entry.key_view() {
            Some(entry)
        } else {
            entry_for(entries, key)
        }),
{
    let next = inserted(entries, entry);
    if exists|i: int| has_key_at(entries, entry.key_view(), i) {
        let i = choose|i: int| has_key_at(entries, entry.key_view(), i);
        if key == entry.key_view() {
            lemma_entry_for_at(next, key, i);
        } else if exists|j: int| has_key_at(entries, key, j) {
            let j = choose|j: int| has_key_at(entries, key, j);
            lemma_entry_for_at(entries, key, j);
            assert(next[j] == entries[j]);
            lemma_entry_for_at(next, key, j);
        } else {
            assert forall|j: int| 0 <= j < entries.len() implies (#[trigger] entries[j]).key_view()
                != key by {
                assert(!has_key_at(entries, key, j));
            }
            lemma_entry_for_none(entries, key);
            assert forall|j: int| 0 <= j < next.len() implies (#[trigger] next[j]).key_view() != key by {
                if j != i {
                    assert(next[j] == entries[j]);
                }
            }
            lemma_entry_for_none(next, key);
        }
    } else {
        let n = entries.len() as int;
        if key == entry.key_view() {
            assert(next[n] == entry);
            lemma_entry_for_at(next, key, n);
        } else if exists|j: int| has_key_at(entries, key, j) {
            let j = choose|j: int| has_key_at(entries, key, j);
            lemma_entry_for_at(entries, key, j);
            assert(next[j] == entries[j]);
            lemma_entry_for_at(next, key, j);
        } else {
            assert forall|j: int| 0 <= j < entries.len() implies (#[trigger] entries[j]).key_view()
                != key by {
                assert(!has_key_at(entries, key, j));
            }
            lemma_entry_for_none(entries, key);
            assert forall|j: int| 0 <= j < next.len() implies (#[trigger] next[j]).key_view() != key by {
                if j < n {
                    assert(next[j] == entries[j]);
                }
            }
            lemma_entry_for_none(next, key);
        }
    }
}

impl Keyed for FileRow {
    open spec fn key_view(&self) -> Seq<char> {
        self.path@
    }

    fn key(&self) -> (k: &str) {
        self.path.as_str()
    }
}

impl Keyed for FolderRow {
    open spec fn key_view(&self) -> Seq<char> {
        self.path@
    }

    fn key(&self) -> (k: &str) {
        self.path.as_str()
    }
}

/// Whether a stored key belongs to the snapshot of `root`: it lies at or below the root,
/// and is not the root itself when `include_root` is false.
pub open spec fn belongs_to_root(root: Seq<char>, key: Seq<char>, include_root: bool) -> bool {
    is_within(encode_utf8(root), encode_utf8(key)) && (include_root || key != root)
}

/// The rows whose keys belong to the snapshot of `root`, in order.
pub open spec fn rows_below<R: Keyed>(rows: Seq<R>, root: Seq<char>, include_root: bool) -> Seq<R>
    decreases rows.len(),
{
    if rows.len() == 0 {
        Seq::empty()
    } else if belongs_to_root(root, rows.last().key_view(), include_root) {
        rows_below(rows.drop_last(), root, include_root).push(rows.last())
    } else {
        rows_below(rows.drop_last(), root, include_root)
    }
}

/// The error of the first row below `root` whose digest or object ID does not read back.
pub open spec fn first_file_row_error(rows: Seq<FileRow>) -> Option<StoredObservationError>
    decreases rows.len(),
{
    if rows.len() == 0 {
        None
    } else {
        match first_file_row_error(rows.drop_last()) {
            Some(e) => Some(e),
            None => row_observation_error(
                rows.last().content_digest@,
                rows.last().device_id,
                rows.last().inode,
            ),
        }
    }
}

/// The error of the first folder row whose object ID does not read back.
pub open spec fn first_folder_row_error(rows: Seq<FolderRow>) -> Option<StoredObservationError>
    decreases rows.len(),
{
    if rows.len() == 0 {
        None
    } else {
        match first_folder_row_error(rows.drop_last()) {
            Some(e) => Some(e),
            None => match stored_object_id(rows.last().device_id, rows.last().inode) {
                Err(e) => Some(e),
                Ok(_) => None,
            },
        }
    }
}

/// Whether stored file facts are those of a row.
pub open spec fn file_metadata_of_row(m: FileMetadata, row: FileRow) -> bool {
    &&& m.id == row.id
    &&& m.path == row.path
    &&& m.content_digest@ == row.content_digest@
    &&& Ok::<_, StoredObservationError>(m.filesystem_object_id) == stored_object_id(
        row.device_id,
        row.inode,
    )
    &&& m.updated_at == row.updated_at
}

/// Whether stored folder facts are those of a row.
pub open spec fn folder_metadata_of_row(m: FolderMetadata, row: FolderRow) -> bool {
    &&& m.id == row.id
    &&& m.path == row.path
    &&& m.name == row.name
    &&& Ok::<_, StoredObservationError>(m.filesystem_object_id) == stored_object_id(
        row.device_id,
        row.inode,
    )
}

/// Whether every key of a snapshot holds the facts of the last row stored under it.
pub open spec fn file_state_matches(entries: Seq<FileMetadata>, rows: Seq<FileRow>) -> bool {
    forall|key: Seq<char>|
        match (#[trigger] entry_for(entries, key), entry_for(rows, key)) {
            (Some(m), Some(r)) => file_metadata_of_row(m, r),
            (None, None) => true,
            _ => false,
        }
}

/// Whether every key of a snapshot holds the facts of the last row stored under it.
pub open spec fn folder_state_matches(entries: Seq<FolderMetadata>, rows: Seq<FolderRow>) -> bool {
    forall|key: Seq<char>|
        match (#[trigger] entry_for(entries, key), entry_for(rows, key)) {
            (Some(m), Some(r)) => folder_metadata_of_row(m, r),
            (None, None) => true,
            _ => false,
        }
}

/// The stored files of the snapshot of `root`: the rows at or below the root, read
/// back, one record per key (the last row read under it).
pub fn file_state(root: &str, rows: Vec<FileRow>) -> (result: Result<
    DirectoryState<FileMetadata>,
    StoredObservationError,
>)
    ensures
        match first_file_row_error(rows_below(rows@, root@, true)) {
            Some(e) => result is Err && result->Err_0 == e,
            None => result is Ok && result->Ok_0.wf() && file_state_matches(
                result->Ok_0.entries(),
                rows_below(rows@, root@, true),
            ),
        },
{
    let ghost all = rows@;
    let mut state: DirectoryState<FileMetadata> = DirectoryState::new();
    assert(all.take(0) =~= Seq::<FileRow>::empty());
    for row in it: rows.into_iter()
        invariant
            it.seq() == all,
            state.wf(),
            first_file_row_error(rows_below(all.take(it.index() as int), root@, true)) is None,
            file_state_matches(
                state.entries(),
                rows_below(all.take(it.index() as int), root@, true),
            ),
    {
        let ghost k = it.index() as int;
        let ghost below = rows_below(all.take(k), root@, true);
        assert(all.take(k + 1).drop_last() =~= all.take(k));
        assert(row == all[k]);
        if path_is_within(root, row.path.as_str()) {
            match FileMetadata::from_row(row) {
                Ok(m) => {
                    proof {
                        state.lemma_wf_distinct();
                    }
                    let ghost before = state.entries();
                    state.insert(m);
                    proof {
                        state.lemma_wf_distinct();
                        let next = below.push(all[k]);
                        assert(next.drop_last() =~= below);
                        assert forall|key: Seq<char>|
                            match (#[trigger] entry_for(state.entries(), key), entry_for(next, key)) {
                                (Some(m2), Some(r)) => file_metadata_of_row(m2, r),
                                (None, None) => true,
                                _ => false,
                            } by {
                            lemma_inserted_lookup(before, m, key);
                        }
                    }
                },
                Err(e) => {
                    proof {
                        let next = below.push(all[k]);
                        assert(next.drop_last() =~= below);
                        lemma_first_file_error_extends(all, k + 1, root@);
                    }
                    return Err(e);
                },
            }
        }
    }
    assert(all.take(all.len() as int) =~= all);
    Ok(state)
}

proof fn lemma_first_file_error_extends(all: Seq<FileRow>, k: int, root: Seq<char>)
    requires
        0 <= k <= all.len(),
        first_file_row_error(rows_below(all.take(k), root, true)) is Some,
    ensures
        first_file_row_error(rows_below(all, root, true)) == first_file_row_error(
            rows_below(all.take(k), root, true),
        ),
    decreases all.len() - k,
{
    if k == all.len() {
        assert(all.take(k) =~= all);
    } else {
        assert(all.take(k + 1).drop_last() =~= all.take(k));
        let below = rows_below(all.take(k), root, true);
        if belongs_to_root(root, all[k].key_view(), true) {
            assert(below.push(all[k]).drop_last() =~= below);
        }
        lemma_first_file_error_extends(all, k + 1, root);
    }
}

/// The stored folders of the snapshot of `root`: the rows strictly below the root (the
/// root itself is kept by the watched-root list), read back, one record per key.
pub fn folder_state(root: &str, rows: Vec<FolderRow>) -> (result: Result<
    DirectoryState<FolderMetadata>,
    StoredObservationError,
>)
    ensures
        match first_folder_row_error(rows_below(rows@, root@, false)) {
            Some(e) => result is Err && result->Err_0 == e,
            None => result is Ok && result->Ok_0.wf() && folder_state_matches(
                result->Ok_0.entries(),
                rows_below(rows@, root@, false),
            ),
        },
{
    let ghost all = rows@;
    let mut state: DirectoryState<FolderMetadata> = DirectoryState::new();
    assert(all.take(0) =~= Seq::<FolderRow>::empty());
    for row in it: rows.into_iter()
        invariant
            it.seq() == all,
            state.wf(),
            first_folder_row_error(rows_below(all.take(it.index() as int), root@, false)) is None,
            folder_state_matches(
                state.entries(),
                rows_below(all.take(it.index() as int), root@, false),
            ),
    {
        let ghost k = it.index() as int;
        let ghost below = rows_below(all.take(k), root@, false);
        assert(all.take(k + 1).drop_last() =~= all.take(k));
        assert(row == all[k]);
        if path_is_within(root, row.path.as_str()) && !str_eq(row.path.as_str(), root) {
            match FolderMetadata::from_row(row) {
                Ok(m) => {
                    proof {
                        state.lemma_wf_distinct();
                    }
                    let ghost before = state.entries();
                    state.insert(m);
                    proof {
                        state.lemma_wf_distinct();
                        let next = below.push(all[k]);
                        assert(next.drop_last() =~= below);
                        assert forall|key: Seq<char>|
                            match (#[trigger] entry_for(state.entries(), key), entry_for(next, key)) {
                                (Some(m2), Some(r)) => folder_metadata_of_row(m2, r),
                                (None, None) => true,
                                _ => false,
                            } by {
                            lemma_inserted_lookup(before, m, key);
                        }
                    }
                },
                Err(e) => {
                    proof {
                        let next = below.push(all[k]);
                        assert(next.drop_last() =~= below);
                        lemma_first_folder_error_extends(all, k + 1, root@);
                    }
                    return Err(e);
                },
            }
        }
    }
    assert(all.take(all.len() as int) =~= all);
    Ok(state)
}

proof fn lemma_first_folder_error_extends(all: Seq<FolderRow>, k: int, root: Seq<char>)
    requires
        0 <= k <= all.len(),
        first_folder_row_error(rows_below(all.take(k), root, false)) is Some,
    ensures
        first_folder_row_error(rows_below(all, root, false)) == first_folder_row_error(
            rows_below(all.take(k), root, false),
        ),
    decreases all.len() - k,
{
    if k == all.len() {
        assert(all.take(k) =~= all);
    } else {
        assert(all.take(k + 1).drop_last() =~= all.take(k));
        let below = rows_below(all.take(k), root, false);
        if belongs_to_root(root, all[k].key_view(), false) {
            assert(below.push(all[k]).drop_last() =~= below);
        }
        lemma_first_folder_error_extends(all, k + 1, root);
    }
}


/// Whether the key `path` lies at or below one of `keys`.
pub open spec fn under_any(keys: Seq<String>, path: Seq<char>) -> bool {
    exists|i: int|
        0 <= i < keys.len() && is_within(encode_utf8((#[trigger] keys[i])@), encode_utf8(path))
}

/// The IDs of the stored folders that deleting the folders at `keys` removes: each of
/// them and every folder stored below it, in the order of `rows`.
pub open spec fn removed_folder_ids(keys: Seq<String>, rows: Seq<FolderRow>) -> Seq<i32>
    decreases rows.len(),
{
    if rows.len() == 0 {
        Seq::empty()
    } else {
        removed_folder_ids(keys, rows.drop_last()) + if under_any(keys, rows.last().path@) {
            seq![rows.last().id]
        } else {
            Seq::empty()
        }
    }
}

fn under_any_key(keys: &Vec<String>, path: &str) -> (found: bool)
    ensures
        found == under_any(keys@, path@),
{
    let mut i: usize = 0;
    while i < keys.len()
        invariant
            i <= keys@.len(),
            forall|j: int|
                0 <= j < i ==> !is_within(encode_utf8((#[trigger] keys@[j])@), encode_utf8(path@)),
        decreases keys@.len() - i,
    {
        if path_is_within(keys[i].as_str(), path) {
            return true;
        }
        i = i + 1;
    }
    false
}

/// The folders that deleting the folders at `keys` removes (see `removed_folder_ids`).
pub fn folders_removed_by(keys: &Vec<String>, rows: &Vec<FolderRow>) -> (ids: Vec<i32>)
    ensures
        ids@ == removed_folder_ids(keys@, rows@),
{
    let mut ids: Vec<i32> = Vec::new();
    let mut i: usize = 0;
    assert(rows@.take(0) =~= Seq::<FolderRow>::empty());
    while i < rows.len()
        invariant
            i <= rows@.len(),
            ids@ == removed_folder_ids(keys@, rows@.take(i as int)),
        decreases rows@.len() - i,
    {
        assert(rows@.take(i + 1).drop_last() =~= rows@.take(i as int));
        assert(rows@.take(i + 1).last() == rows@[i as int]);
        if under_any_key(keys, rows[i].path.as_str()) {
            ids.push(rows[i].id);
        }
        assert(ids@ =~= removed_folder_ids(keys@, rows@.take(i + 1)));
        i = i + 1;
    }
    assert(rows@.take(rows@.len() as int) =~= rows@);
    ids
}

/// A change that brings the database closer to the scanned state of a root.
#[derive(Debug, Clone)]
pub enum SyncOperation {
    /// Insert a new file into the database.
    InsertFile(FileSystemFile),
    /// Insert a new folder into the database.
    InsertFolder(FileSystemFolder),
    /// Update an existing file in the database.
    UpdateFile(FileSystemFile),
    /// Update an existing folder in the database.
    UpdateFolder(FileSystemFolder),
    /// Delete a file from the database (the file no longer exists).
    DeleteFile(String),
    /// Delete a folder from the database (the folder no longer exists).
    DeleteFolder(String),
}

/// Whether a scanned file differs from its stored record: other content or another object.
pub open spec fn file_changed(stored: FileMetadata, scanned: FileSystemFile) -> bool {
    stored.content_digest@ != scanned.content_digest@ || stored.filesystem_object_id
        != scanned.filesystem_object_id
}

/// Whether a scanned folder differs from its stored record: another name or another object.
pub open spec fn folder_changed(stored: FolderMetadata, scanned: FileSystemFolder) -> bool {
    stored.name@ != scanned.name@ || stored.filesystem_object_id != scanned.filesystem_object_id
}

pub open spec fn file_paths(files: Seq<FileSystemFile>) -> Seq<Seq<char>> {
    files.map_values(|f: FileSystemFile| f.path@)
}

pub open spec fn folder_paths(folders: Seq<FileSystemFolder>) -> Seq<Seq<char>> {
    folders.map_values(|f: FileSystemFolder| f.path@)
}

/// One operation per scanned file, in scan order: insert when nothing is stored under
/// its key, update when the stored record differs, nothing when it is unchanged.
pub open spec fn file_upserts(stored: Seq<FileMetadata>, files: Seq<FileSystemFile>) -> Seq<
    SyncOperation,
>
    decreases files.len(),
{
    if files.len() == 0 {
        Seq::empty()
    } else {
        let f = files.last();
        file_upserts(stored, files.drop_last()) + match entry_for(stored, f.path@) {
            Some(m) => if file_changed(m, f) {
                seq![SyncOperation::UpdateFile(f)]
            } else {
                Seq::empty()
            },
            None => seq![SyncOperation::InsertFile(f)],
        }
    }
}

/// One deletion per stored record, in stored order, whose key no scanned file has.
pub open spec fn file_deletions(stored: Seq<FileMetadata>, files: Seq<FileSystemFile>) -> Seq<
    SyncOperation,
>
    decreases stored.len(),
{
    if stored.len() == 0 {
        Seq::empty()
    } else {
        file_deletions(stored.drop_last(), files) + if file_paths(files).contains(
            stored.last().path@,
        ) {
            Seq::empty()
        } else {
            seq![SyncOperation::DeleteFile(stored.last().path)]
        }
    }
}

/// The file operations of a sync: upserts for the scanned files, then deletions.
pub open spec fn file_sync_operations(stored: Seq<FileMetadata>, files: Seq<FileSystemFile>) -> Seq<
    SyncOperation,
> {
    file_upserts(stored, files) + file_deletions(stored, files)
}

/// One operation per scanned folder, in scan order: insert when nothing is stored under
/// its key, update when the stored record differs, nothing when it is unchanged.
pub open spec fn folder_upserts(stored: Seq<FolderMetadata>, folders: Seq<FileSystemFolder>) -> Seq<
    SyncOperation,
>
    decreases folders.len(),
{
    if folders.len() == 0 {
        Seq::empty()
    } else {
        let f = folders.last();
        folder_upserts(stored, folders.drop_last()) + match entry_for(stored, f.path@) {
            Some(m) => if folder_changed(m, f) {
                seq![SyncOperation::UpdateFolder(f)]
            } else {
                Seq::empty()
            },
            None => seq![SyncOperation::InsertFolder(f)],
        }
    }
}

/// One deletion per stored folder, in stored order, whose key no scanned folder has.
pub open spec fn folder_deletions(stored: Seq<FolderMetadata>, folders: Seq<FileSystemFolder>) -> Seq<
    SyncOperation,
>
    decreases stored.len(),
{
    if stored.len() == 0 {
        Seq::empty()
    } else {
        folder_deletions(stored.drop_last(), folders) + if folder_paths(folders).contains(
            stored.last().path@,
        ) {
            Seq::empty()
        } else {
            seq![SyncOperation::DeleteFolder(stored.last().path)]
        }
    }
}

/// The folder operations of a sync: upserts for the scanned folders, then deletions.
pub open spec fn folder_sync_operations(
    stored: Seq<FolderMetadata>,
    folders: Seq<FileSystemFolder>,
) -> Seq<SyncOperation> {
    folder_upserts(stored, folders) + folder_deletions(stored, folders)
}

proof fn lemma_paths_push(files: Seq<FileSystemFile>, f: FileSystemFile)
    ensures
        file_paths(files.push(f)) == file_paths(files).push(f.path@),
{
    assert(file_paths(files.push(f)) =~= file_paths(files).push(f.path@));
}

proof fn lemma_folder_paths_push(folders: Seq<FileSystemFolder>, f: FileSystemFolder)
    ensures
        folder_paths(folders.push(f)) == folder_paths(folders).push(f.path@),
{
    assert(folder_paths(folders.push(f)) =~= folder_paths(folders).push(f.path@));
}

/// The operations that bring the stored files of a root to the scanned files.
pub fn calculate_file_sync_operations(
    db_state: &DirectoryState<FileMetadata>,
    fs_files: Vec<FileSystemFile>,
) -> (operations: Vec<SyncOperation>)
    requires
        db_state.wf(),
    ensures
        operations@ == file_sync_operations(db_state.entries(), fs_files@),
{
    let ghost files = fs_files@;
    let ghost stored = db_state.entries();
    let mut operations: Vec<SyncOperation> = Vec::new();
    let mut processed: StringHashMap<()> = StringHashMap::new();
    assert(files.take(0) =~= Seq::<FileSystemFile>::empty());
    assert(file_paths(Seq::<FileSystemFile>::empty()) =~= Seq::<Seq<char>>::empty());
    for fs_file in it: fs_files.into_iter()
        invariant
            it.seq() == files,
            db_state.wf(),
            stored == db_state.entries(),
            operations@ == file_upserts(stored, files.take(it.index() as int)),
            forall|p: Seq<char>|
                #[trigger] processed@.contains_key(p) <==> file_paths(
                    files.take(it.index() as int),
                ).contains(p),
    {
        let ghost k = it.index() as int;
        assert(files.take(k + 1).drop_last() =~= files.take(k));
        assert(fs_file == files[k]);
        proof {
            lemma_paths_push(files.take(k), fs_file);
            assert(files.take(k).push(fs_file) =~= files.take(k + 1));
        }
        let ghost old_processed = processed@;
        processed.insert(fs_file.path.clone(), ());
        proof {
            assert(processed@ == old_processed.insert(fs_file.path@, ()));
            let before = file_paths(files.take(k));
            let after = before.push(fs_file.path@);
            assert forall|p: Seq<char>| #[trigger] processed@.contains_key(p) <==> after.contains(p) by {
                assert(old_processed.contains_key(p) <==> before.contains(p));
                assert(after[before.len() as int] == after.last());
                if before.contains(p) {
                    let j = choose|j: int| 0 <= j < before.len() && before[j] == p;
                    assert(after[j] == p);
                }
                if after.contains(p) {
                    let j = choose|j: int| 0 <= j < after.len() && after[j] == p;
                    if j < before.len() {
                        assert(before[j] == p);
                    }
                }
            }
        }
        match db_state.get(fs_file.path.as_str()) {
            Some(db_metadata) => {
                if !db_metadata.content_digest.same_as(&fs_file.content_digest)
                    || db_metadata.filesystem_object_id != fs_file.filesystem_object_id {
                    operations.push(SyncOperation::UpdateFile(fs_file));
                } else {
                    assert(operations@ =~= operations@ + Seq::<SyncOperation>::empty());
                }
            },
            None => {
                operations.push(SyncOperation::InsertFile(fs_file));
            },
        }
    }
    assert(files.take(files.len() as int) =~= files);
    let ghost upserts = operations@;
    let n = db_state.len();
    let mut i: usize = 0;
    assert(stored.take(0) =~= Seq::<FileMetadata>::empty());
    assert(upserts + Seq::<SyncOperation>::empty() =~= upserts);
    while i < n
        invariant
            i <= n == stored.len(),
            stored == db_state.entries(),
            upserts == file_upserts(stored, files),
            operations@ == upserts + file_deletions(stored.take(i as int), files),
            forall|p: Seq<char>| #[trigger] processed@.contains_key(p) <==> file_paths(files).contains(p),
        decreases n - i,
    {
        assert(stored.take(i + 1).drop_last() =~= stored.take(i as int));
        let entry = &db_state.entries[i];
        assert(*entry == stored[i as int]);
        if !processed.contains_key(entry.path.as_str()) {
            operations.push(SyncOperation::DeleteFile(entry.path.clone()));
            assert(operations@ =~= upserts + file_deletions(stored.take(i + 1), files));
        } else {
            assert(operations@ =~= upserts + file_deletions(stored.take(i + 1), files));
        }
        i = i + 1;
    }
    assert(stored.take(n as int) =~= stored);
    operations
}

/// The operations that bring the stored folders of a root to the scanned folders.
pub fn calculate_folder_sync_operations(
    db_state: &DirectoryState<FolderMetadata>,
    fs_folders: Vec<FileSystemFolder>,
) -> (operations: Vec<SyncOperation>)
    requires
        db_state.wf(),
    ensures
        operations@ == folder_sync_operations(db_state.entries(), fs_folders@),
{
    let ghost folders = fs_folders@;
    let ghost stored = db_state.entries();
    let mut operations: Vec<SyncOperation> = Vec::new();
    let mut processed: StringHashMap<()> = StringHashMap::new();
    assert(folders.take(0) =~= Seq::<FileSystemFolder>::empty());
    assert(folder_paths(Seq::<FileSystemFolder>::empty()) =~= Seq::<Seq<char>>::empty());
    for fs_folder in it: fs_folders.into_iter()
        invariant
            it.seq() == folders,
            db_state.wf(),
            stored == db_state.entries(),
            operations@ == folder_upserts(stored, folders.take(it.index() as int)),
            forall|p: Seq<char>|
                #[trigger] processed@.contains_key(p) <==> folder_paths(
                    folders.take(it.index() as int),
                ).contains(p),
    {
        let ghost k = it.index() as int;
        assert(folders.take(k + 1).drop_last() =~= folders.take(k));
        assert(fs_folder == folders[k]);
        proof {
            lemma_folder_paths_push(folders.take(k), fs_folder);
            assert(folders.take(k).push(fs_folder) =~= folders.take(k + 1));
        }
        let ghost old_processed = processed@;
        processed.insert(fs_folder.path.clone(), ());
        proof {
            assert(processed@ == old_processed.insert(fs_folder.path@, ()));
            let before = folder_paths(folders.take(k));
            let after = before.push(fs_folder.path@);
            assert forall|p: Seq<char>| #[trigger] processed@.contains_key(p) <==> after.contains(p) by {
                assert(old_processed.contains_key(p) <==> before.contains(p));
                assert(after[before.len() as int] == after.last());
                if before.contains(p) {
                    let j = choose|j: int| 0 <= j < before.len() && before[j] == p;
                    assert(after[j] == p);
                }
                if after.contains(p) {
                    let j = choose|j: int| 0 <= j < after.len() && after[j] == p;
                    if j < before.len() {
                        assert(before[j] == p);
                    }
                }
            }
        }
        match db_state.get(fs_folder.path.as_str()) {
            Some(db_metadata) => {
                if !str_eq(db_metadata.name.as_str(), fs_folder.name.as_str())
                    || db_metadata.filesystem_object_id != fs_folder.filesystem_object_id {
                    operations.push(SyncOperation::UpdateFolder(fs_folder));
                } else {
                    assert(operations@ =~= operations@ + Seq::<SyncOperation>::empty());
                }
            },
            None => {
                operations.push(SyncOperation::InsertFolder(fs_folder));
            },
        }
    }
    assert(folders.take(folders.len() as int) =~= folders);
    let ghost upserts = operations@;
    let n = db_state.len();
    let mut i: usize = 0;
    assert(stored.take(0) =~= Seq::<FolderMetadata>::empty());
    assert(upserts + Seq::<SyncOperation>::empty() =~= upserts);
    while i < n
        invariant
            i <= n == stored.len(),
            stored == db_state.entries(),
            upserts == folder_upserts(stored, folders),
            operations@ == upserts + folder_deletions(stored.take(i as int), folders),
            forall|p: Seq<char>| #[trigger] processed@.contains_key(p) <==> folder_paths(folders).contains(p),
        decreases n - i,
    {
        assert(stored.take(i + 1).drop_last() =~= stored.take(i as int));
        let entry = &db_state.entries[i];
        assert(*entry == stored[i as int]);
        if !processed.contains_key(entry.path.as_str()) {
            operations.push(SyncOperation::DeleteFolder(entry.path.clone()));
            assert(operations@ =~= upserts + folder_deletions(stored.take(i + 1), folders));
        } else {
            assert(operations@ =~= upserts + folder_deletions(stored.take(i + 1), folders));
        }
        i = i + 1;
    }
    assert(stored.take(n as int) =~= stored);
    operations
}


/// A batch of operations of one kind, executed in one database round.
#[derive(Debug)]
pub enum SyncBatch {
    UpsertFiles(Vec<FileSystemFile>),
    UpsertFolders(Vec<FileSystemFolder>),
    DeleteFiles(Vec<String>),
    DeleteFolders(Vec<String>),
}

/// The contents of a batch.
pub enum BatchView {
    UpsertFiles(Seq<FileSystemFile>),
    UpsertFolders(Seq<FileSystemFolder>),
    DeleteFiles(Seq<String>),
    DeleteFolders(Seq<String>),
}

impl View for SyncBatch {
    type V = BatchView;

    open spec fn view(&self) -> BatchView {
        match self {
            SyncBatch::UpsertFiles(v) => BatchView::UpsertFiles(v@),
            SyncBatch::UpsertFolders(v) => BatchView::UpsertFolders(v@),
            SyncBatch::DeleteFiles(v) => BatchView::DeleteFiles(v@),
            SyncBatch::DeleteFolders(v) => BatchView::DeleteFolders(v@),
        }
    }
}

/// The operations collected for each kind of batch and not yet executed.
pub struct Pending {
    pub files: Seq<FileSystemFile>,
    pub folders: Seq<FileSystemFolder>,
    pub deleted_files: Seq<String>,
    pub deleted_folders: Seq<String>,
}

pub open spec fn no_pending() -> Pending {
    Pending {
        files: Seq::empty(),
        folders: Seq::empty(),
        deleted_files: Seq::empty(),
        deleted_folders: Seq::empty(),
    }
}

/// Adds one operation to the batch of its kind; a batch that reaches `batch_size`
/// operations is executed at once.
pub open spec fn schedule_step(
    pending: Pending,
    executed: Seq<BatchView>,
    op: SyncOperation,
    batch_size: usize,
) -> (Pending, Seq<BatchView>) {
    match op {
        SyncOperation::InsertFile(f) => schedule_file(pending, executed, f, batch_size),
        SyncOperation::UpdateFile(f) => schedule_file(pending, executed, f, batch_size),
        SyncOperation::InsertFolder(f) => schedule_folder(pending, executed, f, batch_size),
        SyncOperation::UpdateFolder(f) => schedule_folder(pending, executed, f, batch_size),
        SyncOperation::DeleteFile(p) => {
            let deleted = pending.deleted_files.push(p);
            if deleted.len() >= batch_size {
                (
                    Pending { deleted_files: Seq::empty(), ..pending },
                    executed.push(BatchView::DeleteFiles(deleted)),
                )
            } else {
                (Pending { deleted_files: deleted, ..pending }, executed)
            }
        },
        SyncOperation::DeleteFolder(p) => {
            let deleted = pending.deleted_folders.push(p);
            if deleted.len() >= batch_size {
                (
                    Pending { deleted_folders: Seq::empty(), ..pending },
                    executed.push(BatchView::DeleteFolders(deleted)),
                )
            } else {
                (Pending { deleted_folders: deleted, ..pending }, executed)
            }
        },
    }
}

pub open spec fn schedule_file(
    pending: Pending,
    executed: Seq<BatchView>,
    f: FileSystemFile,
    batch_size: usize,
) -> (Pending, Seq<BatchView>) {
    let files = pending.files.push(f);
    if files.len() >= batch_size {
        (Pending { files: Seq::empty(), ..pending }, executed.push(BatchView::UpsertFiles(files)))
    } else {
        (Pending { files, ..pending }, executed)
    }
}

pub open spec fn schedule_folder(
    pending: Pending,
    executed: Seq<BatchView>,
    f: FileSystemFolder,
    batch_size: usize,
) -> (Pending, Seq<BatchView>) {
    let folders = pending.folders.push(f);
    if folders.len() >= batch_size {
        (
            Pending { folders: Seq::empty(), ..pending },
            executed.push(BatchView::UpsertFolders(folders)),
        )
    } else {
        (Pending { folders, ..pending }, executed)
    }
}

/// The pending batches and the executed batches after scheduling `ops` in order.
pub open spec fn schedule(ops: Seq<SyncOperation>, batch_size: usize) -> (Pending, Seq<BatchView>)
    decreases ops.len(),
{
    if ops.len() == 0 {
        (no_pending(), Seq::empty())
    } else {
        let previous = schedule(ops.drop_last(), batch_size);
        schedule_step(previous.0, previous.1, ops.last(), batch_size)
    }
}

/// The batches still pending at the end, in the order file upserts, folder upserts,
/// file deletions, folder deletions; empty ones are skipped.
pub open spec fn remaining_batches(pending: Pending) -> Seq<BatchView> {
    (if pending.files.len() > 0 {
        seq![BatchView::UpsertFiles(pending.files)]
    } else {
        Seq::empty()
    }) + (if pending.folders.len() > 0 {
        seq![BatchView::UpsertFolders(pending.folders)]
    } else {
        Seq::empty()
    }) + (if pending.deleted_files.len() > 0 {
        seq![BatchView::DeleteFiles(pending.deleted_files)]
    } else {
        Seq::empty()
    }) + (if pending.deleted_folders.len() > 0 {
        seq![BatchView::DeleteFolders(pending.deleted_folders)]
    } else {
        Seq::empty()
    })
}

/// All batches of a sync, in execution order.
pub open spec fn scheduled_batches(ops: Seq<SyncOperation>, batch_size: usize) -> Seq<BatchView> {
    schedule(ops, batch_size).1 + remaining_batches(schedule(ops, batch_size).0)
}

pub open spec fn batch_views(batches: Seq<SyncBatch>) -> Seq<BatchView> {
    batches.map_values(|b: SyncBatch| b@)
}

proof fn lemma_batch_views_push(batches: Seq<SyncBatch>, b: SyncBatch)
    ensures
        batch_views(batches.push(b)) == batch_views(batches).push(b@),
{
    assert(batch_views(batches.push(b)) =~= batch_views(batches).push(b@));
}

/// Groups operations into batches: each kind collects its own batch, which is
/// executed as soon as it holds `batch_size` operations; what remains is executed
/// at the end.
pub fn schedule_batches(operations: Vec<SyncOperation>, batch_size: usize) -> (batches: Vec<
    SyncBatch,
>)
    ensures
        batch_views(batches@) == scheduled_batches(operations@, batch_size),
{
    let ghost ops = operations@;
    let mut batches: Vec<SyncBatch> = Vec::new();
    let mut files: Vec<FileSystemFile> = Vec::new();
    let mut folders: Vec<FileSystemFolder> = Vec::new();
    let mut deleted_files: Vec<String> = Vec::new();
    let mut deleted_folders: Vec<String> = Vec::new();
    assert(ops.take(0) =~= Seq::<SyncOperation>::empty());
    assert(batch_views(batches@) =~= Seq::<BatchView>::empty());
    for op in it: operations.into_iter()
        invariant
            it.seq() == ops,
            schedule(ops.take(it.index() as int), batch_size) == (
                Pending {
                    files: files@,
                    folders: folders@,
                    deleted_files: deleted_files@,
                    deleted_folders: deleted_folders@,
                },
                batch_views(batches@),
            ),
    {
        let ghost k = it.index() as int;
        assert(ops.take(k + 1).drop_last() =~= ops.take(k));
        assert(op == ops[k]);
        match op {
            SyncOperation::InsertFile(f) | SyncOperation::UpdateFile(f) => {
                files.push(f);
                if files.len() >= batch_size {
                    let full = files;
                    files = Vec::new();
                    proof {
                        lemma_batch_views_push(batches@, SyncBatch::UpsertFiles(full));
                    }
                    batches.push(SyncBatch::UpsertFiles(full));
                }
            },
            SyncOperation::InsertFolder(f) | SyncOperation::UpdateFolder(f) => {
                folders.push(f);
                if folders.len() >= batch_size {
                    let full = folders;
                    folders = Vec::new();
                    proof {
                        lemma_batch_views_push(batches@, SyncBatch::UpsertFolders(full));
                    }
                    batches.push(SyncBatch::UpsertFolders(full));
                }
            },
            SyncOperation::DeleteFile(path) => {
                deleted_files.push(path);
                if deleted_files.len() >= batch_size {
                    let full = deleted_files;
                    deleted_files = Vec::new();
                    proof {
                        lemma_batch_views_push(batches@, SyncBatch::DeleteFiles(full));
                    }
                    batches.push(SyncBatch::DeleteFiles(full));
                }
            },
            SyncOperation::DeleteFolder(path) => {
                deleted_folders.push(path);
                if deleted_folders.len() >= batch_size {
                    let full = deleted_folders;
                    deleted_folders = Vec::new();
                    proof {
                        lemma_batch_views_push(batches@, SyncBatch::DeleteFolders(full));
                    }
                    batches.push(SyncBatch::DeleteFolders(full));
                }
            },
        }
    }
    assert(ops.take(ops.len() as int) =~= ops);
    let ghost executed = batch_views(batches@);
    let ghost pending = schedule(ops, batch_size).0;
    let ghost tail0 = if pending.files.len() > 0 {
        seq![BatchView::UpsertFiles(pending.files)]
    } else {
        Seq::empty()
    };
    let ghost tail1 = if pending.folders.len() > 0 {
        seq![BatchView::UpsertFolders(pending.folders)]
    } else {
        Seq::empty()
    };
    let ghost tail2 = if pending.deleted_files.len() > 0 {
        seq![BatchView::DeleteFiles(pending.deleted_files)]
    } else {
        Seq::empty()
    };
    let ghost tail3 = if pending.deleted_folders.len() > 0 {
        seq![BatchView::DeleteFolders(pending.deleted_folders)]
    } else {
        Seq::empty()
    };
    if files.len() > 0 {
        proof {
            lemma_batch_views_push(batches@, SyncBatch::UpsertFiles(files));
        }
        batches.push(SyncBatch::UpsertFiles(files));
    }
    assert(batch_views(batches@) =~= executed + tail0);
    if folders.len() > 0 {
        proof {
            lemma_batch_views_push(batches@, SyncBatch::UpsertFolders(folders));
        }
        batches.push(SyncBatch::UpsertFolders(folders));
    }
    assert(batch_views(batches@) =~= executed + tail0 + tail1);
    if deleted_files.len() > 0 {
        proof {
            lemma_batch_views_push(batches@, SyncBatch::DeleteFiles(deleted_files));
        }
        batches.push(SyncBatch::DeleteFiles(deleted_files));
    }
    assert(batch_views(batches@) =~= executed + tail0 + tail1 + tail2);
    if deleted_folders.len() > 0 {
        proof {
            lemma_batch_views_push(batches@, SyncBatch::DeleteFolders(deleted_folders));
        }
        batches.push(SyncBatch::DeleteFolders(deleted_folders));
    }
    assert(batch_views(batches@) =~= executed + tail0 + tail1 + tail2 + tail3);
    assert(remaining_batches(pending) =~= tail0 + tail1 + tail2 + tail3);
    batches
}


/// The `Duration` that `Duration::from_secs` builds from a whole number of seconds.
pub uninterp spec fn duration_of_secs(secs: u64) -> std::time::Duration;

/// `Duration::from_secs`: the duration of `secs` whole seconds.
#[verifier::external_body]
fn duration_from_secs(secs: u64) -> (duration: std::time::Duration)
    ensures
        duration == duration_of_secs(secs),
{
    std::time::Duration::from_secs(secs)
}

/// `Duration::clone`: `Duration` is `Copy`, so a clone is the same duration.
pub assume_specification[ <std::time::Duration as Clone>::clone ](
    duration: &std::time::Duration,
) -> (copy: std::time::Duration)
    ensures
        copy == *duration,
;

/// Report of synchronization operations.
#[derive(Debug, Clone)]
pub struct SyncReport {
    pub files_scanned: usize,
    pub files_inserted: usize,
    pub files_updated: usize,
    pub files_deleted: usize,
    pub files_skipped: usize,
    pub folders_scanned: usize,
    pub folders_inserted: usize,
    pub folders_updated: usize,
    pub folders_deleted: usize,
    pub folders_skipped: usize,
    pub errors: Vec<String>,
    pub duration: std::time::Duration,
}

/// Whether every count of a report is zero and it holds no error.
pub open spec fn report_is_empty(r: SyncReport) -> bool {
    &&& r.files_scanned == 0
    &&& r.files_inserted == 0
    &&& r.files_updated == 0
    &&& r.files_deleted == 0
    &&& r.files_skipped == 0
    &&& r.folders_scanned == 0
    &&& r.folders_inserted == 0
    &&& r.folders_updated == 0
    &&& r.folders_deleted == 0
    &&& r.folders_skipped == 0
    &&& r.errors@.len() == 0
}

/// Whether two reports have the same counts and errors.
pub open spec fn same_counts(a: SyncReport, b: SyncReport) -> bool {
    &&& a.files_scanned == b.files_scanned
    &&& a.files_inserted == b.files_inserted
    &&& a.files_updated == b.files_updated
    &&& a.files_deleted == b.files_deleted
    &&& a.files_skipped == b.files_skipped
    &&& a.folders_scanned == b.folders_scanned
    &&& a.folders_inserted == b.folders_inserted
    &&& a.folders_updated == b.folders_updated
    &&& a.folders_deleted == b.folders_deleted
    &&& a.folders_skipped == b.folders_skipped
    &&& a.errors@ == b.errors@
}

impl SyncReport {
    /// An empty report: all counts zero, no errors, no elapsed time.
    pub fn new() -> (report: SyncReport)
        ensures
            report_is_empty(report),
            report.duration == duration_of_secs(0),
    {
        SyncReport {
            files_scanned: 0,
            files_inserted: 0,
            files_updated: 0,
            files_deleted: 0,
            files_skipped: 0,
            folders_scanned: 0,
            folders_inserted: 0,
            folders_updated: 0,
            folders_deleted: 0,
            folders_skipped: 0,
            errors: Vec::new(),
            duration: duration_from_secs(0),
        }
    }

    /// The number of file insertions, updates and deletions.
    pub fn total_operations(&self) -> (total: usize)
        requires
            self.files_inserted + self.files_updated + self.files_deleted <= usize::MAX,
        ensures
            total == self.files_inserted + self.files_updated + self.files_deleted,
    {
        self.files_inserted + self.files_updated + self.files_deleted
    }

    /// Records how many files and folders a scan found.
    pub fn record_scan(&mut self, files: usize, folders: usize)
        ensures
            final(self).files_scanned == files,
            final(self).folders_scanned == folders,
            same_counts(*final(self), SyncReport {
                files_scanned: files,
                folders_scanned: folders,
                ..*old(self)
            }),
    {
        self.files_scanned = files;
        self.folders_scanned = folders;
    }

    /// Adds the counts of one executed batch of file upserts.
    pub fn record_file_upserts(&mut self, batch: UpsertFileBatchReport)
        requires
            old(self).files_inserted + batch.file_inserted <= usize::MAX,
            old(self).files_updated + batch.file_updated <= usize::MAX,
        ensures
            final(self).files_inserted == old(self).files_inserted + batch.file_inserted,
            final(self).files_updated == old(self).files_updated + batch.file_updated,
            same_counts(*final(self), SyncReport {
                files_inserted: final(self).files_inserted,
                files_updated: final(self).files_updated,
                ..*old(self)
            }),
    {
        self.files_inserted = self.files_inserted + batch.file_inserted;
        self.files_updated = self.files_updated + batch.file_updated;
    }

    /// Adds the counts of one executed batch of folder upserts.
    pub fn record_folder_upserts(&mut self, batch: UpsertFolderBatchReport)
        requires
            old(self).folders_inserted + batch.folder_inserted <= usize::MAX,
            old(self).folders_updated + batch.folder_updated <= usize::MAX,
        ensures
            final(self).folders_inserted == old(self).folders_inserted + batch.folder_inserted,
            final(self).folders_updated == old(self).folders_updated + batch.folder_updated,
            same_counts(*final(self), SyncReport {
                folders_inserted: final(self).folders_inserted,
                folders_updated: final(self).folders_updated,
                ..*old(self)
            }),
    {
        self.folders_inserted = self.folders_inserted + batch.folder_inserted;
        self.folders_updated = self.folders_updated + batch.folder_updated;
    }

    /// Adds the number of files one executed batch deleted.
    pub fn record_file_deletions(&mut self, count: usize)
        requires
            old(self).files_deleted + count <= usize::MAX,
        ensures
            final(self).files_deleted == old(self).files_deleted + count,
            same_counts(*final(self), SyncReport {
                files_deleted: final(self).files_deleted,
                ..*old(self)
            }),
    {
        self.files_deleted = self.files_deleted + count;
    }

    /// Adds the number of folders one executed batch deleted.
    pub fn record_folder_deletions(&mut self, count: usize)
        requires
            old(self).folders_deleted + count <= usize::MAX,
        ensures
            final(self).folders_deleted == old(self).folders_deleted + count,
            same_counts(*final(self), SyncReport {
                folders_deleted: final(self).folders_deleted,
                ..*old(self)
            }),
    {
        self.folders_deleted = self.folders_deleted + count;
    }

    /// Records the message of a failed step.
    pub fn record_error(&mut self, message: String)
        ensures
            final(self).errors@ == old(self).errors@.push(message),
            same_counts(*final(self), SyncReport {
                errors: final(self).errors,
                ..*old(self)
            }),
    {
        self.errors.push(message);
    }
}

impl Default for SyncReport {
    fn default() -> (report: SyncReport)
        ensures
            report_is_empty(report),
            report.duration == duration_of_secs(0),
    {
        SyncReport::new()
    }
}

/// Configuration for directory scanning.
#[derive(Debug, Clone)]
pub struct ScanConfig {
    /// Maximum number of operations to execute in a single batch.
    pub batch_size: usize,
    /// Whether to scan subdirectories recursively.
    pub recursive: bool,
    /// File extensions to ignore, with their dot (e.g. `.tmp` and `.log`).
    pub ignore_extensions: Vec<String>,
    /// Directory names to ignore (e.g. `.git` and `node_modules`).
    pub ignore_directories: Vec<String>,
    /// Maximum file size to process, in bytes.
    pub max_file_size: Option<u64>,
}

/// The default configuration: batches of 100, recursive, temporary, log, backup and
/// swap files ignored, version-control, dependency and build directories ignored,
/// files over 100 MiB skipped.
pub open spec fn is_default_config(c: ScanConfig) -> bool {
    &&& c.batch_size == 100
    &&& c.recursive
    &&& c.ignore_extensions@.len() == 4
    &&& c.ignore_extensions@[0]@ == ".tmp"@
    &&& c.ignore_extensions@[1]@ == ".log"@
    &&& c.ignore_extensions@[2]@ == ".bak"@
    &&& c.ignore_extensions@[3]@ == ".swp"@
    &&& c.ignore_directories@.len() == 5
    &&& c.ignore_directories@[0]@ == ".git"@
    &&& c.ignore_directories@[1]@ == ".svn"@
    &&& c.ignore_directories@[2]@ == "node_modules"@
    &&& c.ignore_directories@[3]@ == "target"@
    &&& c.ignore_directories@[4]@ == ".DS_Store"@
    &&& c.max_file_size == Some(104857600u64)
}

impl Default for ScanConfig {
    fn default() -> (config: ScanConfig)
        ensures
            is_default_config(config),
    {
        let mut ignore_extensions: Vec<String> = Vec::new();
        ignore_extensions.push(".tmp".to_owned());
        ignore_extensions.push(".log".to_owned());
        ignore_extensions.push(".bak".to_owned());
        ignore_extensions.push(".swp".to_owned());
        let mut ignore_directories: Vec<String> = Vec::new();
        ignore_directories.push(".git".to_owned());
        ignore_directories.push(".svn".to_owned());
        ignore_directories.push("node_modules".to_owned());
        ignore_directories.push("target".to_owned());
        ignore_directories.push(".DS_Store".to_owned());
        ScanConfig {
            batch_size: 100,
            recursive: true,
            ignore_extensions,
            ignore_directories,
            max_file_size: Some(100 * 1024 * 1024),
        }
    }
}

/// Directory scanner that synchronizes filesystem state with the database held by
/// `file_operations`.
#[derive(Debug)]
pub struct DirectoryScanner<R> {
    file_operations: std::sync::Arc<R>,
    config: ScanConfig,
}

/// Whether the extension list names `.ext`.
pub open spec fn lists_extension(list: Seq<String>, ext: Seq<char>) -> bool {
    exists|i: int| 0 <= i < list.len() && (#[trigger] list[i])@ == seq!['.'] + ext
}

/// Whether the name list holds `name`.
pub open spec fn lists_name(list: Seq<String>, name: Seq<char>) -> bool {
    exists|i: int| 0 <= i < list.len() && (#[trigger] list[i])@ == name
}

/// Every listed directory name is skipped, whatever its position in the list, and a name
/// that equals no listed one is not; the default configuration skips `.git`, `.svn`,
/// `node_modules`, `target` and `.DS_Store`.
pub proof fn lemma_listed_directories_are_skipped(config: ScanConfig, name: Seq<char>, i: int)
    ensures
        0 <= i < config.ignore_directories@.len() ==> lists_name(
            config.ignore_directories@,
            config.ignore_directories@[i]@,
        ),
        (forall|j: int|
            0 <= j < config.ignore_directories@.len() ==> (
            #[trigger] config.ignore_directories@[j])@ != name) ==> !lists_name(
            config.ignore_directories@,
            name,
        ),
        is_default_config(config) ==> {
            &&& lists_name(config.ignore_directories@, ".git"@)
            &&& lists_name(config.ignore_directories@, ".svn"@)
            &&& lists_name(config.ignore_directories@, "node_modules"@)
            &&& lists_name(config.ignore_directories@, "target"@)
            &&& lists_name(config.ignore_directories@, ".DS_Store"@)
        },
{
    let list = config.ignore_directories@;
    if 0 <= i < list.len() {
        assert(list[i]@ == list[i]@);
    }
    if is_default_config(config) {
        assert(list[0]@ == ".git"@);
        assert(list[1]@ == ".svn"@);
        assert(list[2]@ == "node_modules"@);
        assert(list[3]@ == "target"@);
        assert(list[4]@ == ".DS_Store"@);
    }
}

/// Every listed extension is skipped, whatever its position in the list: a file whose
/// extension, with a dot before it, is listed is skipped; the default configuration skips
/// `tmp`, `log`, `bak` and `swp` files.
pub proof fn lemma_listed_extensions_are_skipped(config: ScanConfig, ext: Seq<char>, i: int)
    ensures
        0 <= i < config.ignore_extensions@.len() && config.ignore_extensions@[i]@ == seq!['.']
            + ext ==> lists_extension(config.ignore_extensions@, ext),
        (forall|j: int|
            0 <= j < config.ignore_extensions@.len() ==> (#[trigger] config.ignore_extensions@[j])@
                != seq!['.'] + ext) ==> !lists_extension(config.ignore_extensions@, ext),
{
    let list = config.ignore_extensions@;
    if 0 <= i < list.len() && list[i]@ == seq!['.'] + ext {
        assert(list[i]@ == seq!['.'] + ext);
    }
}

impl<R> DirectoryScanner<R> {
    pub closed spec fn spec_config(&self) -> ScanConfig {
        self.config
    }

    pub closed spec fn spec_file_operations(&self) -> std::sync::Arc<R> {
        self.file_operations
    }

    /// A scanner with the default configuration.
    pub fn new(file_operations: std::sync::Arc<R>) -> (scanner: DirectoryScanner<R>)
        ensures
            scanner.spec_file_operations() == file_operations,
            is_default_config(scanner.spec_config()),
    {
        DirectoryScanner { file_operations, config: ScanConfig::default() }
    }

    /// A scanner with a custom configuration.
    pub fn new_with_config(file_operations: std::sync::Arc<R>, config: ScanConfig) -> (scanner:
        DirectoryScanner<R>)
        ensures
            scanner.spec_file_operations() == file_operations,
            scanner.spec_config() == config,
    {
        DirectoryScanner { file_operations, config }
    }

    /// The database the scanner synchronizes with.
    pub fn file_operations(&self) -> (ops: &std::sync::Arc<R>)
        ensures
            *ops == self.spec_file_operations(),
    {
        &self.file_operations
    }

    /// The configuration.
    pub fn config(&self) -> (config: &ScanConfig)
        ensures
            *config == self.spec_config(),
    {
        &self.config
    }

    /// Whether a directory entry is skipped because its UTF-8 name is ignored.
    pub fn skips_directory(&self, name: Option<&str>) -> (skip: bool)
        ensures
            skip == (name is Some && lists_name(
                self.spec_config().ignore_directories@,
                name->0@,
            )),
    {
        match name {
            Some(n) => crate::text::list_contains(&self.config.ignore_directories, n),
            None => false,
        }
    }

    /// Whether a file is skipped because its UTF-8 extension is ignored.
    pub fn skips_extension(&self, extension: Option<&str>) -> (skip: bool)
        ensures
            skip == (extension is Some && lists_extension(
                self.spec_config().ignore_extensions@,
                extension->0@,
            )),
    {
        match extension {
            Some(ext) => {
                let mut dotted = ".".to_owned();
                proof {
                    reveal_strlit(".");
                }
                dotted.append(ext);
                let found = crate::text::list_contains(&self.config.ignore_extensions, dotted.as_str());
                proof {
                    assert(dotted@ == seq!['.'] + ext@);
                }
                found
            },
            None => false,
        }
    }

    /// Whether a file is skipped for its size: a limit is set and the file's length,
    /// when its metadata could be read, exceeds it.
    pub fn exceeds_size_limit(&self, file_len: Option<u64>) -> (skip: bool)
        ensures
            skip == (self.spec_config().max_file_size is Some && file_len is Some && file_len->0
                > self.spec_config().max_file_size->0),
    {
        match (self.config.max_file_size, file_len) {
            (Some(max), Some(len)) => len > max,
            _ => false,
        }
    }

    /// The batches that synchronize the root whose stored files and folders are
    /// `files_state` and `folders_state` with the scanned `files` and `folders`: file
    /// operations then folder operations, grouped by the configured batch size.
    pub fn plan_sync(
        &self,
        files_state: &DirectoryState<FileMetadata>,
        folders_state: &DirectoryState<FolderMetadata>,
        files: Vec<FileSystemFile>,
        folders: Vec<FileSystemFolder>,
    ) -> (batches: Vec<SyncBatch>)
        requires
            files_state.wf(),
            folders_state.wf(),
        ensures
            batch_views(batches@) == scheduled_batches(
                file_sync_operations(files_state.entries(), files@) + folder_sync_operations(
                    folders_state.entries(),
                    folders@,
                ),
                self.spec_config().batch_size,
            ),
    {
        let mut operations = calculate_file_sync_operations(files_state, files);
        let mut folder_operations = calculate_folder_sync_operations(folders_state, folders);
        operations.append(&mut folder_operations);
        schedule_batches(operations, self.config.batch_size)
    }
}

} // verus!
