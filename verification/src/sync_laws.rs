//! What a sync achieves: applying its operations makes the stored state equal the
//! scanned state, an unchanged tree needs no operation, deletions stay below the root
//! being synced, and batching neither loses, duplicates nor reorders an operation.
use vstd::prelude::*;

use crate::identity::FilesystemObjectId;
use crate::records::{FileMetadata, FileRow, FileSystemFile, FileSystemFolder, FolderMetadata, FolderRow};
use crate::sync::{
    belongs_to_root, entry_for, file_deletions, file_paths, file_state_matches,
    file_sync_operations, file_upserts, folder_deletions, folder_paths, folder_state_matches,
    folder_changed, folder_sync_operations, folder_upserts, no_pending, remaining_batches, rows_below, schedule,
    scheduled_batches, BatchView,
    Keyed, SyncOperation,
};

verus! {

/// What the database holds for one file entry.
pub struct FileFacts {
    pub digest: Seq<u8>,
    pub object_id: FilesystemObjectId,
}

/// What the database holds for one folder.
pub struct FolderFacts {
    pub name: Seq<char>,
    pub object_id: FilesystemObjectId,
}

pub open spec fn stored_file_facts(m: FileMetadata) -> FileFacts {
    FileFacts { digest: m.content_digest@, object_id: m.filesystem_object_id }
}

pub open spec fn scanned_file_facts(f: FileSystemFile) -> FileFacts {
    FileFacts { digest: f.content_digest@, object_id: f.filesystem_object_id }
}

pub open spec fn stored_folder_facts(m: FolderMetadata) -> FolderFacts {
    FolderFacts { name: m.name@, object_id: m.filesystem_object_id }
}

pub open spec fn scanned_folder_facts(f: FileSystemFolder) -> FolderFacts {
    FolderFacts { name: f.name@, object_id: f.filesystem_object_id }
}

/// The stored files of a root, by key.
pub open spec fn stored_file_map(entries: Seq<FileMetadata>) -> Map<Seq<char>, FileFacts>
    decreases entries.len(),
{
    if entries.len() == 0 {
        Map::empty()
    } else {
        stored_file_map(entries.drop_last()).insert(
            entries.last().path@,
            stored_file_facts(entries.last()),
        )
    }
}

/// The scanned files of a root, by key.
pub open spec fn scanned_file_map(files: Seq<FileSystemFile>) -> Map<Seq<char>, FileFacts>
    decreases files.len(),
{
    if files.len() == 0 {
        Map::empty()
    } else {
        scanned_file_map(files.drop_last()).insert(
            files.last().path@,
            scanned_file_facts(files.last()),
        )
    }
}

/// The stored folders of a root, by key.
pub open spec fn stored_folder_map(entries: Seq<FolderMetadata>) -> Map<Seq<char>, FolderFacts>
    decreases entries.len(),
{
    if entries.len() == 0 {
        Map::empty()
    } else {
        stored_folder_map(entries.drop_last()).insert(
            entries.last().path@,
            stored_folder_facts(entries.last()),
        )
    }
}

/// The scanned folders of a root, by key.
pub open spec fn scanned_folder_map(folders: Seq<FileSystemFolder>) -> Map<
    Seq<char>,
    FolderFacts,
>
    decreases folders.len(),
{
    if folders.len() == 0 {
        Map::empty()
    } else {
        scanned_folder_map(folders.drop_last()).insert(
            folders.last().path@,
            scanned_folder_facts(folders.last()),
        )
    }
}

/// The stored files after executing `ops` in order (folder operations leave them alone).
pub open spec fn apply_file_operations(
    files: Map<Seq<char>, FileFacts>,
    ops: Seq<SyncOperation>,
) -> Map<Seq<char>, FileFacts>
    decreases ops.len(),
{
    if ops.len() == 0 {
        files
    } else {
        let before = apply_file_operations(files, ops.drop_last());
        match ops.last() {
            SyncOperation::InsertFile(f) => before.insert(f.path@, scanned_file_facts(f)),
            SyncOperation::UpdateFile(f) => before.insert(f.path@, scanned_file_facts(f)),
            SyncOperation::DeleteFile(p) => before.remove(p@),
            _ => before,
        }
    }
}

/// The stored folders after executing `ops` in order (file operations leave them alone).
pub open spec fn apply_folder_operations(
    folders: Map<Seq<char>, FolderFacts>,
    ops: Seq<SyncOperation>,
) -> Map<Seq<char>, FolderFacts>
    decreases ops.len(),
{
    if ops.len() == 0 {
        folders
    } else {
        let before = apply_folder_operations(folders, ops.drop_last());
        match ops.last() {
            SyncOperation::InsertFolder(f) => before.insert(f.path@, scanned_folder_facts(f)),
            SyncOperation::UpdateFolder(f) => before.insert(f.path@, scanned_folder_facts(f)),
            SyncOperation::DeleteFolder(p) => before.remove(p@),
            _ => before,
        }
    }
}

proof fn lemma_apply_files_concat(
    m: Map<Seq<char>, FileFacts>,
    a: Seq<SyncOperation>,
    b: Seq<SyncOperation>,
)
    ensures
        apply_file_operations(m, a + b) == apply_file_operations(apply_file_operations(m, a), b),
    decreases b.len(),
{
    if b.len() == 0 {
        assert(a + b =~= a);
    } else {
        lemma_apply_files_concat(m, a, b.drop_last());
        assert((a + b).drop_last() =~= a + b.drop_last());
        assert((a + b).last() == b.last());
    }
}

proof fn lemma_apply_folders_concat(
    m: Map<Seq<char>, FolderFacts>,
    a: Seq<SyncOperation>,
    b: Seq<SyncOperation>,
)
    ensures
        apply_folder_operations(m, a + b) == apply_folder_operations(
            apply_folder_operations(m, a),
            b,
        ),
    decreases b.len(),
{
    if b.len() == 0 {
        assert(a + b =~= a);
    } else {
        lemma_apply_folders_concat(m, a, b.drop_last());
        assert((a + b).drop_last() =~= a + b.drop_last());
        assert((a + b).last() == b.last());
    }
}

proof fn lemma_apply_one_file(m: Map<Seq<char>, FileFacts>, op: SyncOperation)
    ensures
        apply_file_operations(m, seq![op]) == match op {
            SyncOperation::InsertFile(f) => m.insert(f.path@, scanned_file_facts(f)),
            SyncOperation::UpdateFile(f) => m.insert(f.path@, scanned_file_facts(f)),
            SyncOperation::DeleteFile(p) => m.remove(p@),
            _ => m,
        },
{
    assert(seq![op].drop_last() =~= Seq::<SyncOperation>::empty());
    assert(seq![op].last() == op);
    assert(apply_file_operations(m, seq![op].drop_last()) == m);
}

proof fn lemma_apply_one_folder(m: Map<Seq<char>, FolderFacts>, op: SyncOperation)
    ensures
        apply_folder_operations(m, seq![op]) == match op {
            SyncOperation::InsertFolder(f) => m.insert(f.path@, scanned_folder_facts(f)),
            SyncOperation::UpdateFolder(f) => m.insert(f.path@, scanned_folder_facts(f)),
            SyncOperation::DeleteFolder(p) => m.remove(p@),
            _ => m,
        },
{
    assert(seq![op].drop_last() =~= Seq::<SyncOperation>::empty());
    assert(seq![op].last() == op);
    assert(apply_folder_operations(m, seq![op].drop_last()) == m);
}

proof fn lemma_stored_file_map(entries: Seq<FileMetadata>, key: Seq<char>)
    ensures
        stored_file_map(entries).contains_key(key) <==> entry_for(entries, key) is Some,
        entry_for(entries, key) is Some ==> stored_file_map(entries)[key] == stored_file_facts(
            entry_for(entries, key)->0,
        ),
    decreases entries.len(),
{
    if entries.len() > 0 {
        lemma_stored_file_map(entries.drop_last(), key);
    }
}

proof fn lemma_stored_folder_map(entries: Seq<FolderMetadata>, key: Seq<char>)
    ensures
        stored_folder_map(entries).contains_key(key) <==> entry_for(entries, key) is Some,
        entry_for(entries, key) is Some ==> stored_folder_map(entries)[key]
            == stored_folder_facts(entry_for(entries, key)->0),
    decreases entries.len(),
{
    if entries.len() > 0 {
        lemma_stored_folder_map(entries.drop_last(), key);
    }
}

proof fn lemma_scanned_file_map(files: Seq<FileSystemFile>, key: Seq<char>)
    ensures
        scanned_file_map(files).contains_key(key) <==> file_paths(files).contains(key),
    decreases files.len(),
{
    if files.len() > 0 {
        let rest = files.drop_last();
        lemma_scanned_file_map(rest, key);
        assert(file_paths(files) =~= file_paths(rest).push(files.last().path@));
        let ps = file_paths(rest);
        assert(file_paths(files)[ps.len() as int] == files.last().path@);
        if ps.contains(key) {
            let j = choose|j: int| 0 <= j < ps.len() && ps[j] == key;
            assert(file_paths(files)[j] == key);
        }
        if file_paths(files).contains(key) {
            let j = choose|j: int|
                0 <= j < file_paths(files).len() && file_paths(files)[j] == key;
            if j < ps.len() {
                assert(ps[j] == key);
            }
        }
    }
}

proof fn lemma_scanned_folder_map(folders: Seq<FileSystemFolder>, key: Seq<char>)
    ensures
        scanned_folder_map(folders).contains_key(key) <==> folder_paths(folders).contains(key),
    decreases folders.len(),
{
    if folders.len() > 0 {
        let rest = folders.drop_last();
        lemma_scanned_folder_map(rest, key);
        assert(folder_paths(folders) =~= folder_paths(rest).push(folders.last().path@));
        let ps = folder_paths(rest);
        assert(folder_paths(folders)[ps.len() as int] == folders.last().path@);
        if ps.contains(key) {
            let j = choose|j: int| 0 <= j < ps.len() && ps[j] == key;
            assert(folder_paths(folders)[j] == key);
        }
        if folder_paths(folders).contains(key) {
            let j = choose|j: int|
                0 <= j < folder_paths(folders).len() && folder_paths(folders)[j] == key;
            if j < ps.len() {
                assert(ps[j] == key);
            }
        }
    }
}

/// The scanned files hold each key at most once.
pub open spec fn distinct_file_paths(files: Seq<FileSystemFile>) -> bool {
    file_paths(files).no_duplicates()
}

/// The scanned folders hold each key at most once.
pub open spec fn distinct_folder_paths(folders: Seq<FileSystemFolder>) -> bool {
    folder_paths(folders).no_duplicates()
}

proof fn lemma_distinct_prefix_files(files: Seq<FileSystemFile>)
    requires
        files.len() > 0,
        distinct_file_paths(files),
    ensures
        distinct_file_paths(files.drop_last()),
        !file_paths(files.drop_last()).contains(files.last().path@),
{
    let all = file_paths(files);
    let rest = file_paths(files.drop_last());
    assert(all =~= rest.push(files.last().path@));
    assert forall|i: int, j: int|
        0 <= i < rest.len() && 0 <= j < rest.len() && i != j implies rest[i] != rest[j] by {
        assert(rest[i] == all[i]);
        assert(rest[j] == all[j]);
    }
    if rest.contains(files.last().path@) {
        let j = choose|j: int| 0 <= j < rest.len() && rest[j] == files.last().path@;
        assert(all[j] == all[all.len() - 1]);
    }
}

proof fn lemma_distinct_prefix_folders(folders: Seq<FileSystemFolder>)
    requires
        folders.len() > 0,
        distinct_folder_paths(folders),
    ensures
        distinct_folder_paths(folders.drop_last()),
        !folder_paths(folders.drop_last()).contains(folders.last().path@),
{
    let all = folder_paths(folders);
    let rest = folder_paths(folders.drop_last());
    assert(all =~= rest.push(folders.last().path@));
    assert forall|i: int, j: int|
        0 <= i < rest.len() && 0 <= j < rest.len() && i != j implies rest[i] != rest[j] by {
        assert(rest[i] == all[i]);
        assert(rest[j] == all[j]);
    }
    if rest.contains(folders.last().path@) {
        let j = choose|j: int| 0 <= j < rest.len() && rest[j] == folders.last().path@;
        assert(all[j] == all[all.len() - 1]);
    }
}

proof fn lemma_file_upserts_apply(stored: Seq<FileMetadata>, files: Seq<FileSystemFile>)
    requires
        distinct_file_paths(files),
    ensures
        apply_file_operations(stored_file_map(stored), file_upserts(stored, files))
            == stored_file_map(stored).union_prefer_right(scanned_file_map(files)),
    decreases files.len(),
{
    let s = stored_file_map(stored);
    if files.len() == 0 {
        assert(s.union_prefer_right(Map::empty()) =~= s);
    } else {
        let rest = files.drop_last();
        let f = files.last();
        lemma_distinct_prefix_files(files);
        lemma_file_upserts_apply(stored, rest);
        let ops = match entry_for(stored, f.path@) {
            Some(m) => if crate::sync::file_changed(m, f) {
                seq![SyncOperation::UpdateFile(f)]
            } else {
                Seq::empty()
            },
            None => seq![SyncOperation::InsertFile(f)],
        };
        assert(file_upserts(stored, files) == file_upserts(stored, rest) + ops);
        lemma_apply_files_concat(s, file_upserts(stored, rest), ops);
        let before = s.union_prefer_right(scanned_file_map(rest));
        let target = s.union_prefer_right(scanned_file_map(files));
        if ops.len() == 1 {
            lemma_apply_one_file(before, ops[0]);
            assert(before.insert(f.path@, scanned_file_facts(f)) =~= target);
        } else {
            assert(ops =~= Seq::<SyncOperation>::empty());
            assert(apply_file_operations(before, ops) == before);
            lemma_stored_file_map(stored, f.path@);
            lemma_scanned_file_map(rest, f.path@);
            assert(before =~= target);
        }
    }
}

proof fn lemma_folder_upserts_apply(stored: Seq<FolderMetadata>, folders: Seq<FileSystemFolder>)
    requires
        distinct_folder_paths(folders),
    ensures
        apply_folder_operations(stored_folder_map(stored), folder_upserts(stored, folders))
            == stored_folder_map(stored).union_prefer_right(scanned_folder_map(folders)),
    decreases folders.len(),
{
    let s = stored_folder_map(stored);
    if folders.len() == 0 {
        assert(s.union_prefer_right(Map::empty()) =~= s);
    } else {
        let rest = folders.drop_last();
        let f = folders.last();
        lemma_distinct_prefix_folders(folders);
        lemma_folder_upserts_apply(stored, rest);
        let ops = match entry_for(stored, f.path@) {
            Some(m) => if crate::sync::folder_changed(m, f) {
                seq![SyncOperation::UpdateFolder(f)]
            } else {
                Seq::empty()
            },
            None => seq![SyncOperation::InsertFolder(f)],
        };
        assert(folder_upserts(stored, folders) == folder_upserts(stored, rest) + ops);
        lemma_apply_folders_concat(s, folder_upserts(stored, rest), ops);
        let before = s.union_prefer_right(scanned_folder_map(rest));
        let target = s.union_prefer_right(scanned_folder_map(folders));
        if ops.len() == 1 {
            lemma_apply_one_folder(before, ops[0]);
            assert(before.insert(f.path@, scanned_folder_facts(f)) =~= target);
        } else {
            assert(ops =~= Seq::<SyncOperation>::empty());
            assert(apply_folder_operations(before, ops) == before);
            lemma_stored_folder_map(stored, f.path@);
            lemma_scanned_folder_map(rest, f.path@);
            assert(before =~= target);
        }
    }
}

/// The keys of stored files that no scanned file has.
pub open spec fn vanished_files(stored: Seq<FileMetadata>, files: Seq<FileSystemFile>) -> Set<
    Seq<char>,
>
    decreases stored.len(),
{
    if stored.len() == 0 {
        Set::empty()
    } else if file_paths(files).contains(stored.last().path@) {
        vanished_files(stored.drop_last(), files)
    } else {
        vanished_files(stored.drop_last(), files).insert(stored.last().path@)
    }
}

/// The keys of stored folders that no scanned folder has.
pub open spec fn vanished_folders(stored: Seq<FolderMetadata>, folders: Seq<FileSystemFolder>) -> Set<
    Seq<char>,
>
    decreases stored.len(),
{
    if stored.len() == 0 {
        Set::empty()
    } else if folder_paths(folders).contains(stored.last().path@) {
        vanished_folders(stored.drop_last(), folders)
    } else {
        vanished_folders(stored.drop_last(), folders).insert(stored.last().path@)
    }
}

proof fn lemma_file_deletions_apply(
    m: Map<Seq<char>, FileFacts>,
    stored: Seq<FileMetadata>,
    files: Seq<FileSystemFile>,
)
    ensures
        apply_file_operations(m, file_deletions(stored, files)) == m.remove_keys(
            vanished_files(stored, files),
        ),
        forall|k: Seq<char>|
            #[trigger] vanished_files(stored, files).contains(k) <==> (entry_for(stored, k) is Some
                && !file_paths(files).contains(k)),
    decreases stored.len(),
{
    if stored.len() == 0 {
        assert(m.remove_keys(Set::empty()) =~= m);
    } else {
        let rest = stored.drop_last();
        let e = stored.last();
        lemma_file_deletions_apply(m, rest, files);
        let ops = if file_paths(files).contains(e.path@) {
            Seq::empty()
        } else {
            seq![SyncOperation::DeleteFile(e.path)]
        };
        assert(file_deletions(stored, files) == file_deletions(rest, files) + ops);
        lemma_apply_files_concat(m, file_deletions(rest, files), ops);
        let before = m.remove_keys(vanished_files(rest, files));
        if ops.len() == 1 {
            lemma_apply_one_file(before, ops[0]);
            assert(before.remove(e.path@) =~= m.remove_keys(vanished_files(stored, files)));
        } else {
            assert(ops =~= Seq::<SyncOperation>::empty());
            assert(apply_file_operations(before, ops) == before);
        }
    }
}

proof fn lemma_folder_deletions_apply(
    m: Map<Seq<char>, FolderFacts>,
    stored: Seq<FolderMetadata>,
    folders: Seq<FileSystemFolder>,
)
    ensures
        apply_folder_operations(m, folder_deletions(stored, folders)) == m.remove_keys(
            vanished_folders(stored, folders),
        ),
        forall|k: Seq<char>|
            #[trigger] vanished_folders(stored, folders).contains(k) <==> (entry_for(stored, k) is Some
                && !folder_paths(folders).contains(k)),
    decreases stored.len(),
{
    if stored.len() == 0 {
        assert(m.remove_keys(Set::empty()) =~= m);
    } else {
        let rest = stored.drop_last();
        let e = stored.last();
        lemma_folder_deletions_apply(m, rest, folders);
        let ops = if folder_paths(folders).contains(e.path@) {
            Seq::empty()
        } else {
            seq![SyncOperation::DeleteFolder(e.path)]
        };
        assert(folder_deletions(stored, folders) == folder_deletions(rest, folders) + ops);
        lemma_apply_folders_concat(m, folder_deletions(rest, folders), ops);
        let before = m.remove_keys(vanished_folders(rest, folders));
        if ops.len() == 1 {
            lemma_apply_one_folder(before, ops[0]);
            assert(before.remove(e.path@) =~= m.remove_keys(vanished_folders(stored, folders)));
        } else {
            assert(ops =~= Seq::<SyncOperation>::empty());
            assert(apply_folder_operations(before, ops) == before);
        }
    }
}

/// Sync reconciles files: executing the planned file operations on the stored files
/// of a root leaves exactly the scanned files, each with its scanned content digest and
/// object ID.
pub proof fn lemma_file_sync_reconciles(stored: Seq<FileMetadata>, files: Seq<FileSystemFile>)
    requires
        distinct_file_paths(files),
    ensures
        apply_file_operations(stored_file_map(stored), file_sync_operations(stored, files))
            == scanned_file_map(files),
{
    let s = stored_file_map(stored);
    lemma_file_upserts_apply(stored, files);
    lemma_apply_files_concat(s, file_upserts(stored, files), file_deletions(stored, files));
    let merged = s.union_prefer_right(scanned_file_map(files));
    lemma_file_deletions_apply(merged, stored, files);
    let result = merged.remove_keys(vanished_files(stored, files));
    assert forall|k: Seq<char>| #[trigger] result.contains_key(k) <==> scanned_file_map(
        files,
    ).contains_key(k) by {
        lemma_stored_file_map(stored, k);
        lemma_scanned_file_map(files, k);
    }
    assert(result =~= scanned_file_map(files));
}

/// Sync reconciles folders: executing the planned folder operations on the stored
/// folders of a root leaves exactly the scanned folders, each with its scanned name and
/// object ID.
pub proof fn lemma_folder_sync_reconciles(
    stored: Seq<FolderMetadata>,
    folders: Seq<FileSystemFolder>,
)
    requires
        distinct_folder_paths(folders),
    ensures
        apply_folder_operations(
            stored_folder_map(stored),
            folder_sync_operations(stored, folders),
        ) == scanned_folder_map(folders),
{
    let s = stored_folder_map(stored);
    lemma_folder_upserts_apply(stored, folders);
    lemma_apply_folders_concat(
        s,
        folder_upserts(stored, folders),
        folder_deletions(stored, folders),
    );
    let merged = s.union_prefer_right(scanned_folder_map(folders));
    lemma_folder_deletions_apply(merged, stored, folders);
    let result = merged.remove_keys(vanished_folders(stored, folders));
    assert forall|k: Seq<char>| #[trigger] result.contains_key(k) <==> scanned_folder_map(
        folders,
    ).contains_key(k) by {
        lemma_stored_folder_map(stored, k);
        lemma_scanned_folder_map(folders, k);
    }
    assert(result =~= scanned_folder_map(folders));
}


proof fn lemma_entry_for_own_key<T: Keyed>(entries: Seq<T>, i: int)
    requires
        0 <= i < entries.len(),
    ensures
        entry_for(entries, entries[i].key_view()) is Some,
    decreases entries.len(),
{
    if i != entries.len() - 1 {
        assert(entries.drop_last()[i] == entries[i]);
        lemma_entry_for_own_key(entries.drop_last(), i);
    }
}

proof fn lemma_scanned_file_value(files: Seq<FileSystemFile>, i: int)
    requires
        distinct_file_paths(files),
        0 <= i < files.len(),
    ensures
        scanned_file_map(files)[files[i].path@] == scanned_file_facts(files[i]),
    decreases files.len(),
{
    if i != files.len() - 1 {
        lemma_distinct_prefix_files(files);
        assert(files.drop_last()[i] == files[i]);
        assert(file_paths(files)[i] == files[i].path@);
        assert(file_paths(files)[files.len() - 1] == files.last().path@);
        lemma_scanned_file_value(files.drop_last(), i);
    }
}

proof fn lemma_scanned_folder_value(folders: Seq<FileSystemFolder>, i: int)
    requires
        distinct_folder_paths(folders),
        0 <= i < folders.len(),
    ensures
        scanned_folder_map(folders)[folders[i].path@] == scanned_folder_facts(folders[i]),
    decreases folders.len(),
{
    if i != folders.len() - 1 {
        lemma_distinct_prefix_folders(folders);
        assert(folders.drop_last()[i] == folders[i]);
        assert(folder_paths(folders)[i] == folders[i].path@);
        assert(folder_paths(folders)[folders.len() - 1] == folders.last().path@);
        lemma_scanned_folder_value(folders.drop_last(), i);
    }
}

proof fn lemma_file_upserts_empty(stored: Seq<FileMetadata>, files: Seq<FileSystemFile>)
    requires
        forall|i: int|
            0 <= i < files.len() ==> #[trigger] entry_for(stored, files[i].path@) is Some
                && stored_file_facts(entry_for(stored, files[i].path@)->0) == scanned_file_facts(
                files[i],
            ),
    ensures
        file_upserts(stored, files) == Seq::<SyncOperation>::empty(),
    decreases files.len(),
{
    if files.len() > 0 {
        let rest = files.drop_last();
        assert forall|i: int| 0 <= i < rest.len() implies #[trigger] entry_for(
            stored,
            rest[i].path@,
        ) is Some && stored_file_facts(entry_for(stored, rest[i].path@)->0) == scanned_file_facts(
            rest[i],
        ) by {
            assert(rest[i] == files[i]);
        }
        lemma_file_upserts_empty(stored, rest);
        assert(files[files.len() - 1] == files.last());
        assert(entry_for(stored, files[files.len() - 1].path@) is Some);
        assert(Seq::<SyncOperation>::empty() + Seq::<SyncOperation>::empty() =~= Seq::<
            SyncOperation,
        >::empty());
    }
}

proof fn lemma_folder_upserts_empty(stored: Seq<FolderMetadata>, folders: Seq<FileSystemFolder>)
    requires
        forall|i: int|
            0 <= i < folders.len() ==> #[trigger] entry_for(stored, folders[i].path@) is Some
                && stored_folder_facts(entry_for(stored, folders[i].path@)->0)
                == scanned_folder_facts(folders[i]),
    ensures
        folder_upserts(stored, folders) == Seq::<SyncOperation>::empty(),
    decreases folders.len(),
{
    if folders.len() > 0 {
        let rest = folders.drop_last();
        assert forall|i: int| 0 <= i < rest.len() implies #[trigger] entry_for(
            stored,
            rest[i].path@,
        ) is Some && stored_folder_facts(entry_for(stored, rest[i].path@)->0)
            == scanned_folder_facts(rest[i]) by {
            assert(rest[i] == folders[i]);
        }
        lemma_folder_upserts_empty(stored, rest);
        assert(folders[folders.len() - 1] == folders.last());
        assert(entry_for(stored, folders[folders.len() - 1].path@) is Some);
        assert(Seq::<SyncOperation>::empty() + Seq::<SyncOperation>::empty() =~= Seq::<
            SyncOperation,
        >::empty());
    }
}

proof fn lemma_file_deletions_empty(stored: Seq<FileMetadata>, files: Seq<FileSystemFile>)
    requires
        forall|i: int| 0 <= i < stored.len() ==> file_paths(files).contains(#[trigger] stored[i].path@),
    ensures
        file_deletions(stored, files) == Seq::<SyncOperation>::empty(),
    decreases stored.len(),
{
    if stored.len() > 0 {
        let rest = stored.drop_last();
        assert forall|i: int| 0 <= i < rest.len() implies file_paths(files).contains(
            #[trigger] rest[i].path@,
        ) by {
            assert(rest[i] == stored[i]);
        }
        lemma_file_deletions_empty(rest, files);
        assert(stored[stored.len() - 1] == stored.last());
        assert(Seq::<SyncOperation>::empty() + Seq::<SyncOperation>::empty() =~= Seq::<
            SyncOperation,
        >::empty());
    }
}

proof fn lemma_folder_deletions_empty(stored: Seq<FolderMetadata>, folders: Seq<FileSystemFolder>)
    requires
        forall|i: int|
            0 <= i < stored.len() ==> folder_paths(folders).contains(#[trigger] stored[i].path@),
    ensures
        folder_deletions(stored, folders) == Seq::<SyncOperation>::empty(),
    decreases stored.len(),
{
    if stored.len() > 0 {
        let rest = stored.drop_last();
        assert forall|i: int| 0 <= i < rest.len() implies folder_paths(folders).contains(
            #[trigger] rest[i].path@,
        ) by {
            assert(rest[i] == stored[i]);
        }
        lemma_folder_deletions_empty(rest, folders);
        assert(stored[stored.len() - 1] == stored.last());
        assert(Seq::<SyncOperation>::empty() + Seq::<SyncOperation>::empty() =~= Seq::<
            SyncOperation,
        >::empty());
    }
}

/// A tree whose files are already stored as scanned needs no file operation: a second
/// sync of an unchanged root changes nothing.
pub proof fn lemma_file_sync_of_synced_root_is_empty(
    stored: Seq<FileMetadata>,
    files: Seq<FileSystemFile>,
)
    requires
        distinct_file_paths(files),
        stored_file_map(stored) == scanned_file_map(files),
    ensures
        file_sync_operations(stored, files) == Seq::<SyncOperation>::empty(),
{
    assert forall|i: int| 0 <= i < files.len() implies #[trigger] entry_for(
        stored,
        files[i].path@,
    ) is Some && stored_file_facts(entry_for(stored, files[i].path@)->0) == scanned_file_facts(
        files[i],
    ) by {
        let k = files[i].path@;
        assert(file_paths(files)[i] == k);
        lemma_scanned_file_map(files, k);
        lemma_stored_file_map(stored, k);
        lemma_scanned_file_value(files, i);
    }
    lemma_file_upserts_empty(stored, files);
    assert forall|i: int| 0 <= i < stored.len() implies file_paths(files).contains(
        #[trigger] stored[i].path@,
    ) by {
        let k = stored[i].path@;
        lemma_entry_for_own_key(stored, i);
        lemma_stored_file_map(stored, k);
        lemma_scanned_file_map(files, k);
    }
    lemma_file_deletions_empty(stored, files);
    assert(Seq::<SyncOperation>::empty() + Seq::<SyncOperation>::empty() =~= Seq::<
        SyncOperation,
    >::empty());
}

/// A tree whose folders are already stored as scanned needs no folder operation.
pub proof fn lemma_folder_sync_of_synced_root_is_empty(
    stored: Seq<FolderMetadata>,
    folders: Seq<FileSystemFolder>,
)
    requires
        distinct_folder_paths(folders),
        stored_folder_map(stored) == scanned_folder_map(folders),
    ensures
        folder_sync_operations(stored, folders) == Seq::<SyncOperation>::empty(),
{
    assert forall|i: int| 0 <= i < folders.len() implies #[trigger] entry_for(
        stored,
        folders[i].path@,
    ) is Some && stored_folder_facts(entry_for(stored, folders[i].path@)->0)
        == scanned_folder_facts(folders[i]) by {
        let k = folders[i].path@;
        assert(folder_paths(folders)[i] == k);
        lemma_scanned_folder_map(folders, k);
        lemma_stored_folder_map(stored, k);
        lemma_scanned_folder_value(folders, i);
    }
    lemma_folder_upserts_empty(stored, folders);
    assert forall|i: int| 0 <= i < stored.len() implies folder_paths(folders).contains(
        #[trigger] stored[i].path@,
    ) by {
        let k = stored[i].path@;
        lemma_entry_for_own_key(stored, i);
        lemma_stored_folder_map(stored, k);
        lemma_scanned_folder_map(folders, k);
    }
    lemma_folder_deletions_empty(stored, folders);
    assert(Seq::<SyncOperation>::empty() + Seq::<SyncOperation>::empty() =~= Seq::<
        SyncOperation,
    >::empty());
}


/// A second sync of an unchanged tree plans nothing: once the operations of a sync have
/// been executed on the stored files and folders of a root, planning against the same
/// scan again gives no operation and so no batch.
pub proof fn lemma_resync_plans_nothing(
    stored_files: Seq<FileMetadata>,
    files: Seq<FileSystemFile>,
    stored_folders: Seq<FolderMetadata>,
    folders: Seq<FileSystemFolder>,
    after_files: Seq<FileMetadata>,
    after_folders: Seq<FolderMetadata>,
    batch_size: usize,
)
    requires
        distinct_file_paths(files),
        distinct_folder_paths(folders),
        stored_file_map(after_files) == apply_file_operations(
            stored_file_map(stored_files),
            file_sync_operations(stored_files, files),
        ),
        stored_folder_map(after_folders) == apply_folder_operations(
            stored_folder_map(stored_folders),
            folder_sync_operations(stored_folders, folders),
        ),
    ensures
        file_sync_operations(after_files, files) == Seq::<SyncOperation>::empty(),
        folder_sync_operations(after_folders, folders) == Seq::<SyncOperation>::empty(),
        scheduled_batches(
            file_sync_operations(after_files, files) + folder_sync_operations(
                after_folders,
                folders,
            ),
            batch_size,
        ) == Seq::<BatchView>::empty(),
{
    lemma_file_sync_reconciles(stored_files, files);
    lemma_folder_sync_reconciles(stored_folders, folders);
    lemma_file_sync_of_synced_root_is_empty(after_files, files);
    lemma_folder_sync_of_synced_root_is_empty(after_folders, folders);
    let none = Seq::<SyncOperation>::empty();
    assert(none + none =~= none);
    assert(remaining_batches(no_pending()) =~= Seq::<BatchView>::empty());
    assert(Seq::<BatchView>::empty() + Seq::<BatchView>::empty() =~= Seq::<BatchView>::empty());
}

proof fn lemma_one_stale_folder_upserts(
    stored: Seq<FolderMetadata>,
    folders: Seq<FileSystemFolder>,
    i: int,
    j: int,
)
    requires
        0 <= i < folders.len(),
        0 <= j <= folders.len(),
        forall|l: int|
            0 <= l < folders.len() ==> #[trigger] entry_for(stored, folders[l].path@) is Some
                && (stored_folder_facts(entry_for(stored, folders[l].path@)->0)
                == scanned_folder_facts(folders[l]) <==> l != i),
    ensures
        folder_upserts(stored, folders.take(j)) == (if j > i {
            seq![SyncOperation::UpdateFolder(folders[i])]
        } else {
            Seq::<SyncOperation>::empty()
        }),
    decreases j,
{
    if j > 0 {
        lemma_one_stale_folder_upserts(stored, folders, i, j - 1);
        let prefix = folders.take(j);
        assert(prefix.drop_last() =~= folders.take(j - 1));
        assert(prefix.last() == folders[j - 1]);
        assert(entry_for(stored, folders[j - 1].path@) is Some);
        let m = entry_for(stored, folders[j - 1].path@)->0;
        if j - 1 == i {
            assert(folder_changed(m, folders[i]));
            assert(Seq::<SyncOperation>::empty() + seq![SyncOperation::UpdateFolder(folders[i])]
                =~= seq![SyncOperation::UpdateFolder(folders[i])]);
        } else {
            assert(stored_folder_facts(m) == scanned_folder_facts(folders[j - 1]));
            assert(!folder_changed(m, folders[j - 1]));
            let before = folder_upserts(stored, folders.take(j - 1));
            assert(before + Seq::<SyncOperation>::empty() =~= before);
        }
    } else {
        assert(folders.take(0) =~= Seq::<FileSystemFolder>::empty());
    }
}

/// A folder whose stored name went stale is updated and nothing else happens: when the
/// stored folders of a root are the scanned ones but for another name under the key of
/// the scanned folder at `i`, the plan is that one update.
pub proof fn lemma_stale_folder_name_is_one_update(
    stored: Seq<FolderMetadata>,
    folders: Seq<FileSystemFolder>,
    i: int,
    stale_name: Seq<char>,
)
    requires
        distinct_folder_paths(folders),
        0 <= i < folders.len(),
        stale_name != folders[i].name@,
        stored_folder_map(stored) == scanned_folder_map(folders).insert(
            folders[i].path@,
            FolderFacts { name: stale_name, object_id: folders[i].filesystem_object_id },
        ),
    ensures
        folder_sync_operations(stored, folders) == seq![SyncOperation::UpdateFolder(folders[i])],
{
    assert forall|l: int| 0 <= l < folders.len() implies #[trigger] entry_for(
        stored,
        folders[l].path@,
    ) is Some && (stored_folder_facts(entry_for(stored, folders[l].path@)->0)
        == scanned_folder_facts(folders[l]) <==> l != i) by {
        let k = folders[l].path@;
        assert(folder_paths(folders)[l] == k);
        lemma_scanned_folder_map(folders, k);
        lemma_stored_folder_map(stored, k);
        lemma_scanned_folder_value(folders, l);
        if l != i {
            assert(folder_paths(folders)[i] == folders[i].path@);
            assert(k != folders[i].path@);
        }
    }
    lemma_one_stale_folder_upserts(stored, folders, i, folders.len() as int);
    assert(folders.take(folders.len() as int) =~= folders);
    assert forall|l: int| 0 <= l < stored.len() implies folder_paths(folders).contains(
        #[trigger] stored[l].path@,
    ) by {
        let k = stored[l].path@;
        lemma_entry_for_own_key(stored, l);
        lemma_stored_folder_map(stored, k);
        lemma_scanned_folder_map(folders, k);
        if k == folders[i].path@ {
            assert(folder_paths(folders)[i] == k);
        }
    }
    lemma_folder_deletions_empty(stored, folders);
    assert(seq![SyncOperation::UpdateFolder(folders[i])] + Seq::<SyncOperation>::empty()
        =~= seq![SyncOperation::UpdateFolder(folders[i])]);
}


/// The items of the upserts of files among `ops`, in order.
pub open spec fn operation_files(ops: Seq<SyncOperation>) -> Seq<FileSystemFile>
    decreases ops.len(),
{
    if ops.len() == 0 {
        Seq::empty()
    } else {
        operation_files(ops.drop_last()) + match ops.last() {
            SyncOperation::InsertFile(x) => seq![x],
            SyncOperation::UpdateFile(x) => seq![x],
            _ => Seq::empty(),
        }
    }
}

/// The items of the batches of upserts of files, in execution order.
pub open spec fn batched_files(batches: Seq<BatchView>) -> Seq<FileSystemFile>
    decreases batches.len(),
{
    if batches.len() == 0 {
        Seq::empty()
    } else {
        batched_files(batches.drop_last()) + match batches.last() {
            BatchView::UpsertFiles(x) => x,
            _ => Seq::empty(),
        }
    }
}

proof fn lemma_batched_files_concat(a: Seq<BatchView>, b: Seq<BatchView>)
    ensures
        batched_files(a + b) == batched_files(a) + batched_files(b),
    decreases b.len(),
{
    if b.len() == 0 {
        assert(a + b =~= a);
        assert(batched_files(a) + Seq::<FileSystemFile>::empty() =~= batched_files(a));
    } else {
        lemma_batched_files_concat(a, b.drop_last());
        assert((a + b).drop_last() =~= a + b.drop_last());
        assert((a + b).last() == b.last());
        let tail = match b.last() {
            BatchView::UpsertFiles(x) => x,
            _ => Seq::<FileSystemFile>::empty(),
        };
        assert(batched_files(a) + batched_files(b.drop_last()) + tail =~= batched_files(a) + (
        batched_files(b.drop_last()) + tail));
    }
}

proof fn lemma_batched_files_single(b: BatchView)
    ensures
        batched_files(seq![b]) == match b {
            BatchView::UpsertFiles(x) => x,
            _ => Seq::<FileSystemFile>::empty(),
        },
{
    assert(seq![b].drop_last() =~= Seq::<BatchView>::empty());
    assert(seq![b].last() == b);
    assert(batched_files(seq![b].drop_last()) == batched_files(Seq::<BatchView>::empty()));
    let x = match b {
        BatchView::UpsertFiles(x) => x,
        _ => Seq::<FileSystemFile>::empty(),
    };
    assert(Seq::<FileSystemFile>::empty() + x =~= x);
}

proof fn lemma_schedule_files(ops: Seq<SyncOperation>, batch_size: usize)
    ensures
        batched_files(schedule(ops, batch_size).1) + schedule(ops, batch_size).0.files
            == operation_files(ops),
    decreases ops.len(),
{
    if ops.len() == 0 {
        assert(Seq::<FileSystemFile>::empty() + Seq::<FileSystemFile>::empty() =~= Seq::<FileSystemFile>::empty());
    } else {
        let rest = ops.drop_last();
        lemma_schedule_files(rest, batch_size);
        let before = schedule(rest, batch_size);
        let op = ops.last();
        let after = schedule(ops, batch_size);
        let added = match op {
            SyncOperation::InsertFile(x) => seq![x],
            SyncOperation::UpdateFile(x) => seq![x],
            _ => Seq::<FileSystemFile>::empty(),
        };
        assert(operation_files(ops) == operation_files(rest) + added);
        if after.1.len() > before.1.len() {
            assert(after.1 =~= before.1.push(after.1.last()));
            assert(after.1.drop_last() =~= before.1);
        } else {
            assert(after.1 == before.1);
        }
        assert(batched_files(after.1) + after.0.files =~= batched_files(before.1)
            + before.0.files + added);
    }
}

/// Batching keeps the upserts of files: the batches of that kind hold exactly those items,
/// each once, in the order of the operations.
pub proof fn lemma_batches_keep_files(ops: Seq<SyncOperation>, batch_size: usize)
    ensures
        batched_files(scheduled_batches(ops, batch_size)) == operation_files(ops),
{
    let sched = schedule(ops, batch_size);
    lemma_schedule_files(ops, batch_size);
    let p = sched.0;
    let t0 = if p.files.len() > 0 {
        seq![BatchView::UpsertFiles(p.files)]
    } else {
        Seq::empty()
    };
    let t1 = if p.folders.len() > 0 {
        seq![BatchView::UpsertFolders(p.folders)]
    } else {
        Seq::empty()
    };
    let t2 = if p.deleted_files.len() > 0 {
        seq![BatchView::DeleteFiles(p.deleted_files)]
    } else {
        Seq::empty()
    };
    let t3 = if p.deleted_folders.len() > 0 {
        seq![BatchView::DeleteFolders(p.deleted_folders)]
    } else {
        Seq::empty()
    };
    assert(crate::sync::remaining_batches(p) == t0 + t1 + t2 + t3);
    lemma_batched_files_concat(sched.1, t0 + t1 + t2 + t3);
    lemma_batched_files_concat(t0 + t1 + t2, t3);
    lemma_batched_files_concat(t0 + t1, t2);
    lemma_batched_files_concat(t0, t1);
    if p.files.len() > 0 {
        lemma_batched_files_single(BatchView::UpsertFiles(p.files));
    }
    if p.folders.len() > 0 {
        lemma_batched_files_single(BatchView::UpsertFolders(p.folders));
    }
    if p.deleted_files.len() > 0 {
        lemma_batched_files_single(BatchView::DeleteFiles(p.deleted_files));
    }
    if p.deleted_folders.len() > 0 {
        lemma_batched_files_single(BatchView::DeleteFolders(p.deleted_folders));
    }
    assert(batched_files(Seq::<BatchView>::empty()) == Seq::<FileSystemFile>::empty());
    assert(batched_files(t0 + t1 + t2 + t3) =~= p.files);
}

/// The items of the upserts of folders among `ops`, in order.
pub open spec fn operation_folders(ops: Seq<SyncOperation>) -> Seq<FileSystemFolder>
    decreases ops.len(),
{
    if ops.len() == 0 {
        Seq::empty()
    } else {
        operation_folders(ops.drop_last()) + match ops.last() {
            SyncOperation::InsertFolder(x) => seq![x],
            SyncOperation::UpdateFolder(x) => seq![x],
            _ => Seq::empty(),
        }
    }
}

/// The items of the batches of upserts of folders, in execution order.
pub open spec fn batched_folders(batches: Seq<BatchView>) -> Seq<FileSystemFolder>
    decreases batches.len(),
{
    if batches.len() == 0 {
        Seq::empty()
    } else {
        batched_folders(batches.drop_last()) + match batches.last() {
            BatchView::UpsertFolders(x) => x,
            _ => Seq::empty(),
        }
    }
}

proof fn lemma_batched_folders_concat(a: Seq<BatchView>, b: Seq<BatchView>)
    ensures
        batched_folders(a + b) == batched_folders(a) + batched_folders(b),
    decreases b.len(),
{
    if b.len() == 0 {
        assert(a + b =~= a);
        assert(batched_folders(a) + Seq::<FileSystemFolder>::empty() =~= batched_folders(a));
    } else {
        lemma_batched_folders_concat(a, b.drop_last());
        assert((a + b).drop_last() =~= a + b.drop_last());
        assert((a + b).last() == b.last());
        let tail = match b.last() {
            BatchView::UpsertFolders(x) => x,
            _ => Seq::<FileSystemFolder>::empty(),
        };
        assert(batched_folders(a) + batched_folders(b.drop_last()) + tail =~= batched_folders(a) + (
        batched_folders(b.drop_last()) + tail));
    }
}

proof fn lemma_batched_folders_single(b: BatchView)
    ensures
        batched_folders(seq![b]) == match b {
            BatchView::UpsertFolders(x) => x,
            _ => Seq::<FileSystemFolder>::empty(),
        },
{
    assert(seq![b].drop_last() =~= Seq::<BatchView>::empty());
    assert(seq![b].last() == b);
    assert(batched_folders(seq![b].drop_last()) == batched_folders(Seq::<BatchView>::empty()));
    let x = match b {
        BatchView::UpsertFolders(x) => x,
        _ => Seq::<FileSystemFolder>::empty(),
    };
    assert(Seq::<FileSystemFolder>::empty() + x =~= x);
}

proof fn lemma_schedule_folders(ops: Seq<SyncOperation>, batch_size: usize)
    ensures
        batched_folders(schedule(ops, batch_size).1) + schedule(ops, batch_size).0.folders
            == operation_folders(ops),
    decreases ops.len(),
{
    if ops.len() == 0 {
        assert(Seq::<FileSystemFolder>::empty() + Seq::<FileSystemFolder>::empty() =~= Seq::<FileSystemFolder>::empty());
    } else {
        let rest = ops.drop_last();
        lemma_schedule_folders(rest, batch_size);
        let before = schedule(rest, batch_size);
        let op = ops.last();
        let after = schedule(ops, batch_size);
        let added = match op {
            SyncOperation::InsertFolder(x) => seq![x],
            SyncOperation::UpdateFolder(x) => seq![x],
            _ => Seq::<FileSystemFolder>::empty(),
        };
        assert(operation_folders(ops) == operation_folders(rest) + added);
        if after.1.len() > before.1.len() {
            assert(after.1 =~= before.1.push(after.1.last()));
            assert(after.1.drop_last() =~= before.1);
        } else {
            assert(after.1 == before.1);
        }
        assert(batched_folders(after.1) + after.0.folders =~= batched_folders(before.1)
            + before.0.folders + added);
    }
}

/// Batching keeps the upserts of folders: the batches of that kind hold exactly those items,
/// each once, in the order of the operations.
pub proof fn lemma_batches_keep_folders(ops: Seq<SyncOperation>, batch_size: usize)
    ensures
        batched_folders(scheduled_batches(ops, batch_size)) == operation_folders(ops),
{
    let sched = schedule(ops, batch_size);
    lemma_schedule_folders(ops, batch_size);
    let p = sched.0;
    let t0 = if p.files.len() > 0 {
        seq![BatchView::UpsertFiles(p.files)]
    } else {
        Seq::empty()
    };
    let t1 = if p.folders.len() > 0 {
        seq![BatchView::UpsertFolders(p.folders)]
    } else {
        Seq::empty()
    };
    let t2 = if p.deleted_files.len() > 0 {
        seq![BatchView::DeleteFiles(p.deleted_files)]
    } else {
        Seq::empty()
    };
    let t3 = if p.deleted_folders.len() > 0 {
        seq![BatchView::DeleteFolders(p.deleted_folders)]
    } else {
        Seq::empty()
    };
    assert(crate::sync::remaining_batches(p) == t0 + t1 + t2 + t3);
    lemma_batched_folders_concat(sched.1, t0 + t1 + t2 + t3);
    lemma_batched_folders_concat(t0 + t1 + t2, t3);
    lemma_batched_folders_concat(t0 + t1, t2);
    lemma_batched_folders_concat(t0, t1);
    if p.files.len() > 0 {
        lemma_batched_folders_single(BatchView::UpsertFiles(p.files));
    }
    if p.folders.len() > 0 {
        lemma_batched_folders_single(BatchView::UpsertFolders(p.folders));
    }
    if p.deleted_files.len() > 0 {
        lemma_batched_folders_single(BatchView::DeleteFiles(p.deleted_files));
    }
    if p.deleted_folders.len() > 0 {
        lemma_batched_folders_single(BatchView::DeleteFolders(p.deleted_folders));
    }
    assert(batched_folders(Seq::<BatchView>::empty()) == Seq::<FileSystemFolder>::empty());
    assert(batched_folders(t0 + t1 + t2 + t3) =~= p.folders);
}

/// The items of the file deletions among `ops`, in order.
pub open spec fn operation_deleted_files(ops: Seq<SyncOperation>) -> Seq<String>
    decreases ops.len(),
{
    if ops.len() == 0 {
        Seq::empty()
    } else {
        operation_deleted_files(ops.drop_last()) + match ops.last() {
            SyncOperation::DeleteFile(x) => seq![x],
            _ => Seq::empty(),
        }
    }
}

/// The items of the batches of file deletions, in execution order.
pub open spec fn batched_deleted_files(batches: Seq<BatchView>) -> Seq<String>
    decreases batches.len(),
{
    if batches.len() == 0 {
        Seq::empty()
    } else {
        batched_deleted_files(batches.drop_last()) + match batches.last() {
            BatchView::DeleteFiles(x) => x,
            _ => Seq::empty(),
        }
    }
}

proof fn lemma_batched_deleted_files_concat(a: Seq<BatchView>, b: Seq<BatchView>)
    ensures
        batched_deleted_files(a + b) == batched_deleted_files(a) + batched_deleted_files(b),
    decreases b.len(),
{
    if b.len() == 0 {
        assert(a + b =~= a);
        assert(batched_deleted_files(a) + Seq::<String>::empty() =~= batched_deleted_files(a));
    } else {
        lemma_batched_deleted_files_concat(a, b.drop_last());
        assert((a + b).drop_last() =~= a + b.drop_last());
        assert((a + b).last() == b.last());
        let tail = match b.last() {
            BatchView::DeleteFiles(x) => x,
            _ => Seq::<String>::empty(),
        };
        assert(batched_deleted_files(a) + batched_deleted_files(b.drop_last()) + tail =~= batched_deleted_files(a) + (
        batched_deleted_files(b.drop_last()) + tail));
    }
}

proof fn lemma_batched_deleted_files_single(b: BatchView)
    ensures
        batched_deleted_files(seq![b]) == match b {
            BatchView::DeleteFiles(x) => x,
            _ => Seq::<String>::empty(),
        },
{
    assert(seq![b].drop_last() =~= Seq::<BatchView>::empty());
    assert(seq![b].last() == b);
    assert(batched_deleted_files(seq![b].drop_last()) == batched_deleted_files(Seq::<BatchView>::empty()));
    let x = match b {
        BatchView::DeleteFiles(x) => x,
        _ => Seq::<String>::empty(),
    };
    assert(Seq::<String>::empty() + x =~= x);
}

proof fn lemma_schedule_deleted_files(ops: Seq<SyncOperation>, batch_size: usize)
    ensures
        batched_deleted_files(schedule(ops, batch_size).1) + schedule(ops, batch_size).0.deleted_files
            == operation_deleted_files(ops),
    decreases ops.len(),
{
    if ops.len() == 0 {
        assert(Seq::<String>::empty() + Seq::<String>::empty() =~= Seq::<String>::empty());
    } else {
        let rest = ops.drop_last();
        lemma_schedule_deleted_files(rest, batch_size);
        let before = schedule(rest, batch_size);
        let op = ops.last();
        let after = schedule(ops, batch_size);
        let added = match op {
            SyncOperation::DeleteFile(x) => seq![x],
            _ => Seq::<String>::empty(),
        };
        assert(operation_deleted_files(ops) == operation_deleted_files(rest) + added);
        if after.1.len() > before.1.len() {
            assert(after.1 =~= before.1.push(after.1.last()));
            assert(after.1.drop_last() =~= before.1);
        } else {
            assert(after.1 == before.1);
        }
        assert(batched_deleted_files(after.1) + after.0.deleted_files =~= batched_deleted_files(before.1)
            + before.0.deleted_files + added);
    }
}

/// Batching keeps the file deletions: the batches of that kind hold exactly those items,
/// each once, in the order of the operations.
pub proof fn lemma_batches_keep_deleted_files(ops: Seq<SyncOperation>, batch_size: usize)
    ensures
        batched_deleted_files(scheduled_batches(ops, batch_size)) == operation_deleted_files(ops),
{
    let sched = schedule(ops, batch_size);
    lemma_schedule_deleted_files(ops, batch_size);
    let p = sched.0;
    let t0 = if p.files.len() > 0 {
        seq![BatchView::UpsertFiles(p.files)]
    } else {
        Seq::empty()
    };
    let t1 = if p.folders.len() > 0 {
        seq![BatchView::UpsertFolders(p.folders)]
    } else {
        Seq::empty()
    };
    let t2 = if p.deleted_files.len() > 0 {
        seq![BatchView::DeleteFiles(p.deleted_files)]
    } else {
        Seq::empty()
    };
    let t3 = if p.deleted_folders.len() > 0 {
        seq![BatchView::DeleteFolders(p.deleted_folders)]
    } else {
        Seq::empty()
    };
    assert(crate::sync::remaining_batches(p) == t0 + t1 + t2 + t3);
    lemma_batched_deleted_files_concat(sched.1, t0 + t1 + t2 + t3);
    lemma_batched_deleted_files_concat(t0 + t1 + t2, t3);
    lemma_batched_deleted_files_concat(t0 + t1, t2);
    lemma_batched_deleted_files_concat(t0, t1);
    if p.files.len() > 0 {
        lemma_batched_deleted_files_single(BatchView::UpsertFiles(p.files));
    }
    if p.folders.len() > 0 {
        lemma_batched_deleted_files_single(BatchView::UpsertFolders(p.folders));
    }
    if p.deleted_files.len() > 0 {
        lemma_batched_deleted_files_single(BatchView::DeleteFiles(p.deleted_files));
    }
    if p.deleted_folders.len() > 0 {
        lemma_batched_deleted_files_single(BatchView::DeleteFolders(p.deleted_folders));
    }
    assert(batched_deleted_files(Seq::<BatchView>::empty()) == Seq::<String>::empty());
    assert(batched_deleted_files(t0 + t1 + t2 + t3) =~= p.deleted_files);
}

/// The items of the folder deletions among `ops`, in order.
pub open spec fn operation_deleted_folders(ops: Seq<SyncOperation>) -> Seq<String>
    decreases ops.len(),
{
    if ops.len() == 0 {
        Seq::empty()
    } else {
        operation_deleted_folders(ops.drop_last()) + match ops.last() {
            SyncOperation::DeleteFolder(x) => seq![x],
            _ => Seq::empty(),
        }
    }
}

/// The items of the batches of folder deletions, in execution order.
pub open spec fn batched_deleted_folders(batches: Seq<BatchView>) -> Seq<String>
    decreases batches.len(),
{
    if batches.len() == 0 {
        Seq::empty()
    } else {
        batched_deleted_folders(batches.drop_last()) + match batches.last() {
            BatchView::DeleteFolders(x) => x,
            _ => Seq::empty(),
        }
    }
}

proof fn lemma_batched_deleted_folders_concat(a: Seq<BatchView>, b: Seq<BatchView>)
    ensures
        batched_deleted_folders(a + b) == batched_deleted_folders(a) + batched_deleted_folders(b),
    decreases b.len(),
{
    if b.len() == 0 {
        assert(a + b =~= a);
        assert(batched_deleted_folders(a) + Seq::<String>::empty() =~= batched_deleted_folders(a));
    } else {
        lemma_batched_deleted_folders_concat(a, b.drop_last());
        assert((a + b).drop_last() =~= a + b.drop_last());
        assert((a + b).last() == b.last());
        let tail = match b.last() {
            BatchView::DeleteFolders(x) => x,
            _ => Seq::<String>::empty(),
        };
        assert(batched_deleted_folders(a) + batched_deleted_folders(b.drop_last()) + tail =~= batched_deleted_folders(a) + (
        batched_deleted_folders(b.drop_last()) + tail));
    }
}

proof fn lemma_batched_deleted_folders_single(b: BatchView)
    ensures
        batched_deleted_folders(seq![b]) == match b {
            BatchView::DeleteFolders(x) => x,
            _ => Seq::<String>::empty(),
        },
{
    assert(seq![b].drop_last() =~= Seq::<BatchView>::empty());
    assert(seq![b].last() == b);
    assert(batched_deleted_folders(seq![b].drop_last()) == batched_deleted_folders(Seq::<BatchView>::empty()));
    let x = match b {
        BatchView::DeleteFolders(x) => x,
        _ => Seq::<String>::empty(),
    };
    assert(Seq::<String>::empty() + x =~= x);
}

proof fn lemma_schedule_deleted_folders(ops: Seq<SyncOperation>, batch_size: usize)
    ensures
        batched_deleted_folders(schedule(ops, batch_size).1) + schedule(ops, batch_size).0.deleted_folders
            == operation_deleted_folders(ops),
    decreases ops.len(),
{
    if ops.len() == 0 {
        assert(Seq::<String>::empty() + Seq::<String>::empty() =~= Seq::<String>::empty());
    } else {
        let rest = ops.drop_last();
        lemma_schedule_deleted_folders(rest, batch_size);
        let before = schedule(rest, batch_size);
        let op = ops.last();
        let after = schedule(ops, batch_size);
        let added = match op {
            SyncOperation::DeleteFolder(x) => seq![x],
            _ => Seq::<String>::empty(),
        };
        assert(operation_deleted_folders(ops) == operation_deleted_folders(rest) + added);
        if after.1.len() > before.1.len() {
            assert(after.1 =~= before.1.push(after.1.last()));
            assert(after.1.drop_last() =~= before.1);
        } else {
            assert(after.1 == before.1);
        }
        assert(batched_deleted_folders(after.1) + after.0.deleted_folders =~= batched_deleted_folders(before.1)
            + before.0.deleted_folders + added);
    }
}

/// Batching keeps the folder deletions: the batches of that kind hold exactly those items,
/// each once, in the order of the operations.
pub proof fn lemma_batches_keep_deleted_folders(ops: Seq<SyncOperation>, batch_size: usize)
    ensures
        batched_deleted_folders(scheduled_batches(ops, batch_size)) == operation_deleted_folders(ops),
{
    let sched = schedule(ops, batch_size);
    lemma_schedule_deleted_folders(ops, batch_size);
    let p = sched.0;
    let t0 = if p.files.len() > 0 {
        seq![BatchView::UpsertFiles(p.files)]
    } else {
        Seq::empty()
    };
    let t1 = if p.folders.len() > 0 {
        seq![BatchView::UpsertFolders(p.folders)]
    } else {
        Seq::empty()
    };
    let t2 = if p.deleted_files.len() > 0 {
        seq![BatchView::DeleteFiles(p.deleted_files)]
    } else {
        Seq::empty()
    };
    let t3 = if p.deleted_folders.len() > 0 {
        seq![BatchView::DeleteFolders(p.deleted_folders)]
    } else {
        Seq::empty()
    };
    assert(crate::sync::remaining_batches(p) == t0 + t1 + t2 + t3);
    lemma_batched_deleted_folders_concat(sched.1, t0 + t1 + t2 + t3);
    lemma_batched_deleted_folders_concat(t0 + t1 + t2, t3);
    lemma_batched_deleted_folders_concat(t0 + t1, t2);
    lemma_batched_deleted_folders_concat(t0, t1);
    if p.files.len() > 0 {
        lemma_batched_deleted_folders_single(BatchView::UpsertFiles(p.files));
    }
    if p.folders.len() > 0 {
        lemma_batched_deleted_folders_single(BatchView::UpsertFolders(p.folders));
    }
    if p.deleted_files.len() > 0 {
        lemma_batched_deleted_folders_single(BatchView::DeleteFiles(p.deleted_files));
    }
    if p.deleted_folders.len() > 0 {
        lemma_batched_deleted_folders_single(BatchView::DeleteFolders(p.deleted_folders));
    }
    assert(batched_deleted_folders(Seq::<BatchView>::empty()) == Seq::<String>::empty());
    assert(batched_deleted_folders(t0 + t1 + t2 + t3) =~= p.deleted_folders);
}


/// The number of operations in a batch.
pub open spec fn batch_len(b: BatchView) -> nat {
    match b {
        BatchView::UpsertFiles(x) => x.len(),
        BatchView::UpsertFolders(x) => x.len(),
        BatchView::DeleteFiles(x) => x.len(),
        BatchView::DeleteFolders(x) => x.len(),
    }
}

/// The most operations a batch may hold: the batch size, and at least one.
pub open spec fn batch_limit(batch_size: usize) -> nat {
    if batch_size == 0 {
        1
    } else {
        batch_size as nat
    }
}

pub open spec fn batches_within_limit(batches: Seq<BatchView>, batch_size: usize) -> bool {
    forall|i: int|
        0 <= i < batches.len() ==> 1 <= batch_len(#[trigger] batches[i]) <= batch_limit(
            batch_size,
        )
}

proof fn lemma_schedule_sizes(ops: Seq<SyncOperation>, batch_size: usize)
    ensures
        batches_within_limit(schedule(ops, batch_size).1, batch_size),
        schedule(ops, batch_size).0.files.len() < batch_limit(batch_size),
        schedule(ops, batch_size).0.folders.len() < batch_limit(batch_size),
        schedule(ops, batch_size).0.deleted_files.len() < batch_limit(batch_size),
        schedule(ops, batch_size).0.deleted_folders.len() < batch_limit(batch_size),
    decreases ops.len(),
{
    if ops.len() > 0 {
        let rest = ops.drop_last();
        lemma_schedule_sizes(rest, batch_size);
        let before = schedule(rest, batch_size);
        let after = schedule(ops, batch_size);
        if after.1.len() > before.1.len() {
            assert(after.1 =~= before.1.push(after.1.last()));
            assert forall|i: int| 0 <= i < after.1.len() implies 1 <= batch_len(
                #[trigger] after.1[i],
            ) <= batch_limit(batch_size) by {
                if i < before.1.len() {
                    assert(after.1[i] == before.1[i]);
                }
            }
        }
    }
}

/// Every batch of a sync holds at least one operation and at most the batch size
/// (one, when the batch size is zero).
pub proof fn lemma_batches_within_limit(ops: Seq<SyncOperation>, batch_size: usize)
    ensures
        batches_within_limit(scheduled_batches(ops, batch_size), batch_size),
{
    lemma_schedule_sizes(ops, batch_size);
    let sched = schedule(ops, batch_size);
    let p = sched.0;
    let tail = crate::sync::remaining_batches(p);
    let all = sched.1 + tail;
    assert forall|i: int| 0 <= i < all.len() implies 1 <= batch_len(#[trigger] all[i])
        <= batch_limit(batch_size) by {
        if i < sched.1.len() {
            assert(all[i] == sched.1[i]);
        } else {
            assert(all[i] == tail[i - sched.1.len()]);
        }
    }
}

/// Whether every deletion among `ops` names a key of the snapshot of `root`.
pub open spec fn deletes_only_below(ops: Seq<SyncOperation>, root: Seq<char>, include_root: bool) -> bool {
    forall|k: int|
        0 <= k < ops.len() ==> match #[trigger] ops[k] {
            SyncOperation::DeleteFile(p) => belongs_to_root(root, p@, include_root),
            SyncOperation::DeleteFolder(p) => belongs_to_root(root, p@, include_root),
            _ => true,
        }
}

proof fn lemma_rows_below_keys<R: Keyed>(rows: Seq<R>, root: Seq<char>, include_root: bool, key: Seq<char>)
    ensures
        entry_for(rows_below(rows, root, include_root), key) is Some ==> belongs_to_root(
            root,
            key,
            include_root,
        ),
    decreases rows.len(),
{
    if rows.len() > 0 {
        let rest = rows_below(rows.drop_last(), root, include_root);
        lemma_rows_below_keys(rows.drop_last(), root, include_root, key);
        if belongs_to_root(root, rows.last().key_view(), include_root) {
            let below = rest.push(rows.last());
            assert(below.last() == rows.last());
            assert(below.drop_last() =~= rest);
        }
    }
}

proof fn lemma_entry_at_key<T: Keyed>(entries: Seq<T>, i: int)
    requires
        0 <= i < entries.len(),
    ensures
        entry_for(entries, entries[i].key_view()) is Some,
    decreases entries.len(),
{
    if i < entries.len() - 1 && entries.last().key_view() != entries[i].key_view() {
        assert(entries.drop_last()[i] == entries[i]);
        lemma_entry_at_key(entries.drop_last(), i);
    }
}

proof fn lemma_file_upserts_delete_nothing(stored: Seq<FileMetadata>, files: Seq<FileSystemFile>)
    ensures
        forall|k: int|
            0 <= k < file_upserts(stored, files).len() ==> !(#[trigger] file_upserts(stored, files)[k] is DeleteFile) && !(file_upserts(stored, files)[k] is DeleteFolder),
    decreases files.len(),
{
    if files.len() > 0 {
        lemma_file_upserts_delete_nothing(stored, files.drop_last());
    }
}

proof fn lemma_folder_upserts_delete_nothing(stored: Seq<FolderMetadata>, folders: Seq<FileSystemFolder>)
    ensures
        forall|k: int|
            0 <= k < folder_upserts(stored, folders).len() ==> !(#[trigger] folder_upserts(stored, folders)[k] is DeleteFile) && !(folder_upserts(stored, folders)[k] is DeleteFolder),
    decreases folders.len(),
{
    if folders.len() > 0 {
        lemma_folder_upserts_delete_nothing(stored, folders.drop_last());
    }
}

proof fn lemma_file_deletions_name_entries(stored: Seq<FileMetadata>, files: Seq<FileSystemFile>)
    ensures
        forall|k: int|
            0 <= k < file_deletions(stored, files).len() ==> (#[trigger] file_deletions(stored, files)[k] matches SyncOperation::DeleteFile(p) && entry_for(stored, p@) is Some),
    decreases stored.len(),
{
    if stored.len() > 0 {
        let rest = stored.drop_last();
        lemma_file_deletions_name_entries(rest, files);
        lemma_entry_at_key(stored, stored.len() - 1);
        assert forall|k: int| 0 <= k < file_deletions(rest, files).len() implies entry_for(stored, (file_deletions(rest, files)[k]->DeleteFile_0)@) is Some by {
            let p = file_deletions(rest, files)[k]->DeleteFile_0;
            assert(entry_for(rest, p@) is Some);
            lemma_entry_extends(stored, p@);
        }
    }
}

proof fn lemma_folder_deletions_name_entries(stored: Seq<FolderMetadata>, folders: Seq<FileSystemFolder>)
    ensures
        forall|k: int|
            0 <= k < folder_deletions(stored, folders).len() ==> (#[trigger] folder_deletions(stored, folders)[k] matches SyncOperation::DeleteFolder(p) && entry_for(stored, p@) is Some),
    decreases stored.len(),
{
    if stored.len() > 0 {
        let rest = stored.drop_last();
        lemma_folder_deletions_name_entries(rest, folders);
        lemma_entry_at_key(stored, stored.len() - 1);
        assert forall|k: int| 0 <= k < folder_deletions(rest, folders).len() implies entry_for(stored, (folder_deletions(rest, folders)[k]->DeleteFolder_0)@) is Some by {
            let p = folder_deletions(rest, folders)[k]->DeleteFolder_0;
            assert(entry_for(rest, p@) is Some);
            lemma_entry_extends(stored, p@);
        }
    }
}

proof fn lemma_entry_extends<T: Keyed>(entries: Seq<T>, key: Seq<char>)
    requires
        entries.len() > 0,
        entry_for(entries.drop_last(), key) is Some,
    ensures
        entry_for(entries, key) is Some,
{
}

/// A sync of a root deletes only files stored at or below the root: entries of sibling
/// trees, whose keys merely start with the same characters, are never touched.
pub proof fn lemma_file_deletions_stay_below_root(
    entries: Seq<FileMetadata>,
    rows: Seq<FileRow>,
    root: Seq<char>,
    files: Seq<FileSystemFile>,
)
    requires
        file_state_matches(entries, rows_below(rows, root, true)),
    ensures
        deletes_only_below(file_sync_operations(entries, files), root, true),
{
    let ups = file_upserts(entries, files);
    let dels = file_deletions(entries, files);
    let ops = file_sync_operations(entries, files);
    lemma_file_upserts_delete_nothing(entries, files);
    lemma_file_deletions_name_entries(entries, files);
    assert forall|k: int| 0 <= k < ops.len() implies match #[trigger] ops[k] {
        SyncOperation::DeleteFile(p) => belongs_to_root(root, p@, true),
        SyncOperation::DeleteFolder(p) => belongs_to_root(root, p@, true),
        _ => true,
    } by {
        if k < ups.len() {
            assert(ops[k] == ups[k]);
        } else {
            assert(ops[k] == dels[k - ups.len()]);
            let p = dels[k - ups.len()]->DeleteFile_0;
            assert(entry_for(entries, p@) is Some);
            assert(entry_for(rows_below(rows, root, true), p@) is Some);
            lemma_rows_below_keys(rows, root, true, p@);
        }
    }
}

/// A sync of a root deletes only folders stored strictly below the root; the root's own
/// row is never deleted by it.
pub proof fn lemma_folder_deletions_stay_below_root(
    entries: Seq<FolderMetadata>,
    rows: Seq<FolderRow>,
    root: Seq<char>,
    folders: Seq<FileSystemFolder>,
)
    requires
        folder_state_matches(entries, rows_below(rows, root, false)),
    ensures
        deletes_only_below(folder_sync_operations(entries, folders), root, false),
{
    let ups = folder_upserts(entries, folders);
    let dels = folder_deletions(entries, folders);
    let ops = folder_sync_operations(entries, folders);
    lemma_folder_upserts_delete_nothing(entries, folders);
    lemma_folder_deletions_name_entries(entries, folders);
    assert forall|k: int| 0 <= k < ops.len() implies match #[trigger] ops[k] {
        SyncOperation::DeleteFile(p) => belongs_to_root(root, p@, false),
        SyncOperation::DeleteFolder(p) => belongs_to_root(root, p@, false),
        _ => true,
    } by {
        if k < ups.len() {
            assert(ops[k] == ups[k]);
        } else {
            assert(ops[k] == dels[k - ups.len()]);
            let p = dels[k - ups.len()]->DeleteFolder_0;
            assert(entry_for(entries, p@) is Some);
            assert(entry_for(rows_below(rows, root, false), p@) is Some);
            lemma_rows_below_keys(rows, root, false, p@);
        }
    }
}

} // verus!
