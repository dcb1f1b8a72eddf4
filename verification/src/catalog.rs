//! The files, folders and tags that the interface lists: how a file is described, which
//! files a tag filter, a folder filter and a search show, where a file is shown to lie,
//! how tag assignments kept in memory follow the changes saved to the database, and the
//! tree of watched folders.
use vstd::prelude::*;
use vstd::string::StringSliceAdditionalSpecFns;
use vstd::utf8::*;

use crate::events::parent_key_of;
use crate::paths::{
    bytes_within, extension_of, extension_str, is_within, lemma_utf8_after_slash, parent_bytes,
    path_is_within, utf8_str,
};
use crate::display::{decimal_of, push_decimal, read_tag_color, tag_color_input, TypedColor};
use crate::records::{text_of, FolderInfo, FolderRow};
use crate::text::{str_eq, string_push, to_lowercase, trim, trimmed, unicode_lowercase};

verus! {

broadcast use encode_utf8_decode_utf8;

/// A listed file: its database ID, name, entry key and the IDs of its tags.
#[derive(Debug)]
pub struct CatalogFile {
    pub id: i32,
    pub name: String,
    pub path: String,
    pub tags: Vec<i32>,
}

/// A listed tag.
#[derive(Debug)]
pub struct CatalogTag {
    pub id: i32,
    pub name: String,
}

/// The description of a file by its extension, compared as written.
pub open spec fn kind_label(path: Seq<u8>) -> Seq<char> {
    match text_of(extension_of(path)) {
        Some(e) => if e == "png"@ {
            "PNG image"@
        } else if e == "md"@ {
            "Markdown"@
        } else if e == "mp4"@ {
            "MP4 video"@
        } else {
            "Plain text"@
        },
        None => "Plain text"@,
    }
}

/// Describes the file at `path` (see `kind_label`).
pub fn file_kind(path: &str) -> (label: &'static str)
    ensures
        label@ == kind_label(path.spec_bytes()),
{
    match extension_str(path.as_bytes()) {
        Some(e) => if str_eq(e, "png") {
            "PNG image"
        } else if str_eq(e, "md") {
            "Markdown"
        } else if str_eq(e, "mp4") {
            "MP4 video"
        } else {
            "Plain text"
        },
        None => "Plain text",
    }
}

/// Whether `needle` occurs in `hay` as a run of consecutive characters.
pub open spec fn has_substring(hay: Seq<char>, needle: Seq<char>) -> bool {
    exists|i: int|
        0 <= i && i + needle.len() <= hay.len() && #[trigger] hay.subrange(i, i + needle.len())
            == needle
}

/// `str::contains` with a string pattern (see `has_substring`).
pub fn str_contains(hay: &str, needle: &str) -> (found: bool)
    ensures
        found == has_substring(hay@, needle@),
{
    let n = hay.unicode_len();
    let m = needle.unicode_len();
    if m > n {
        return false;
    }
    let last = n - m;
    let mut i: usize = 0;
    loop
        invariant
            m <= n,
            n == hay@.len(),
            m == needle@.len(),
            last == n - m,
            i <= last,
            forall|k: int| 0 <= k < i ==> #[trigger] hay@.subrange(k, k + m) != needle@,
        decreases last - i,
    {
        let mut j: usize = 0;
        let mut same = true;
        while j < m
            invariant
                m <= n,
                n == hay@.len(),
                m == needle@.len(),
                i <= n - m,
                j <= m,
                same ==> forall|l: int| 0 <= l < j ==> hay@[i + l] == needle@[l],
                !same ==> hay@.subrange(i as int, i + m) != needle@,
            decreases m - j,
        {
            if same && hay.get_char(i + j) != needle.get_char(j) {
                assert(hay@.subrange(i as int, i + m)[j as int] == hay@[i + j]);
                same = false;
            }
            j = j + 1;
        }
        if same {
            assert(hay@.subrange(i as int, i + m) =~= needle@);
            return true;
        }
        if i == last {
            return false;
        }
        i = i + 1;
    }
}

/// Whether `id` is one of `ids`.
pub fn has_id(ids: &Vec<i32>, id: i32) -> (found: bool)
    ensures
        found == ids@.contains(id),
{
    let mut i: usize = 0;
    while i < ids.len()
        invariant
            i <= ids@.len(),
            forall|k: int| 0 <= k < i ==> ids@[k] != id,
        decreases ids@.len() - i,
    {
        if ids[i] == id {
            assert(ids@[i as int] == id);
            return true;
        }
        i = i + 1;
    }
    false
}

/// Whether a file carrying the tag IDs `file_tags` matches the search `query` (already
/// trimmed and lowercased): its lowercased name holds the query, or the lowercased name
/// of one of its tags does.
pub open spec fn matches_query(
    name: Seq<char>,
    file_tags: Seq<i32>,
    tags: Seq<CatalogTag>,
    query: Seq<char>,
) -> bool {
    has_substring(unicode_lowercase(name), query) || exists|k: int|
        0 <= k < tags.len() && file_tags.contains(tags[k].id) && has_substring(
            unicode_lowercase(#[trigger] tags[k].name@),
            query,
        )
}

/// Whether a file is shown for the tag filter `tag` and the search text `query`: it
/// carries the filtered tag, if any, and matches the trimmed, lowercased query.
pub open spec fn is_shown(file: CatalogFile, tags: Seq<CatalogTag>, tag: Option<i32>, query: Seq<
    char,
>) -> bool {
    (tag matches Some(id) ==> file.tags@.contains(id)) && matches_query(
        file.name@,
        file.tags@,
        tags,
        unicode_lowercase(trimmed(query)),
    )
}

/// Whether `indices` lists, in increasing order, exactly the indices `i` below `len` for
/// which `keep(i)` holds.
pub open spec fn lists_exactly(indices: Seq<usize>, len: nat, keep: spec_fn(int) -> bool) -> bool {
    &&& forall|a: int, b: int| 0 <= a < b < indices.len() ==> indices[a] < indices[b]
    &&& forall|a: int| 0 <= a < indices.len() ==> indices[a] < len && keep(indices[a] as int)
    &&& forall|i: int| 0 <= i < len && #[trigger] keep(i) ==> indices.contains(i as usize)
}

fn query_matches(file: &CatalogFile, tags: &Vec<CatalogTag>, query: &str) -> (found: bool)
    ensures
        found == matches_query(file.name@, file.tags@, tags@, query@),
{
    let name = to_lowercase(file.name.as_str());
    if str_contains(name.as_str(), query) {
        return true;
    }
    let mut k: usize = 0;
    while k < tags.len()
        invariant
            k <= tags@.len(),
            !has_substring(unicode_lowercase(file.name@), query@),
            forall|l: int|
                0 <= l < k ==> !(file.tags@.contains(tags@[l].id) && has_substring(
                    unicode_lowercase(#[trigger] tags@[l].name@),
                    query@,
                )),
        decreases tags@.len() - k,
    {
        let tag = &tags[k];
        if has_id(&file.tags, tag.id) {
            let tag_name = to_lowercase(tag.name.as_str());
            if str_contains(tag_name.as_str(), query) {
                return true;
            }
        }
        k = k + 1;
    }
    false
}

/// Whether a file matches the tag filter `tag` and the lowered search text `q`, and lies
/// at or below `root` when one is given.
pub open spec fn selected(
    file: CatalogFile,
    tags: Seq<CatalogTag>,
    tag: Option<i32>,
    q: Seq<char>,
    root: Option<Seq<char>>,
) -> bool {
    &&& (tag matches Some(id) ==> file.tags@.contains(id))
    &&& matches_query(file.name@, file.tags@, tags, q)
    &&& (root matches Some(r) ==> is_within(encode_utf8(r), encode_utf8(file.path@)))
}

/// The characters of an optional string.
pub open spec fn root_view(root: Option<&str>) -> Option<Seq<char>> {
    match root {
        Some(r) => Some(r@),
        None => None,
    }
}

fn select_files(
    files: &Vec<CatalogFile>,
    tags: &Vec<CatalogTag>,
    tag: Option<i32>,
    q: &str,
    root: Option<&str>,
) -> (shown: Vec<usize>)
    ensures
        lists_exactly(
            shown@,
            files@.len(),
            |i: int| selected(files@[i], tags@, tag, q@, root_view(root)),
        ),
{
    let ghost r = root_view(root);
    let ghost keep = |i: int| selected(files@[i], tags@, tag, q@, r);
    let mut shown: Vec<usize> = Vec::new();
    let mut i: usize = 0;
    while i < files.len()
        invariant
            i <= files@.len(),
            r == root_view(root),
            keep == (|i: int| selected(files@[i], tags@, tag, q@, r)),
            forall|a: int, b: int| 0 <= a < b < shown@.len() ==> shown@[a] < shown@[b],
            forall|a: int| 0 <= a < shown@.len() ==> shown@[a] < i && keep(shown@[a] as int),
            forall|k: int| 0 <= k < i && #[trigger] keep(k) ==> shown@.contains(k as usize),
        decreases files@.len() - i,
    {
        let file = &files[i];
        let tagged = match tag {
            Some(id) => has_id(&file.tags, id),
            None => true,
        };
        let within = match root {
            Some(r) => path_is_within(r, file.path.as_str()),
            None => true,
        };
        if tagged && within && query_matches(file, tags, q) {
            let ghost before = shown@;
            shown.push(i);
            proof {
                assert(keep(i as int));
                assert forall|k: int| 0 <= k < i + 1 && #[trigger] keep(k) implies shown@.contains(
                    k as usize,
                ) by {
                    if k < i {
                        let w = choose|w: int| 0 <= w < before.len() && before[w] == k as usize;
                        assert(shown@[w] == k as usize);
                    } else {
                        assert(shown@[shown@.len() - 1] == i);
                    }
                }
            }
        } else {
            proof {
                assert(!keep(i as int));
            }
        }
        i = i + 1;
    }
    proof {
        let e = |i: int| selected(files@[i], tags@, tag, q@, root_view(root));
        assert(e =~= keep);
    }
    shown
}

/// The indices of the files shown for the tag filter `tag` and the search text `query`,
/// in order (see `is_shown`).
pub fn visible_files(
    files: &Vec<CatalogFile>,
    tags: &Vec<CatalogTag>,
    tag: Option<i32>,
    query: &str,
) -> (shown: Vec<usize>)
    ensures
        lists_exactly(shown@, files@.len(), |i: int| is_shown(files@[i], tags@, tag, query@)),
{
    let trimmed_query = trim(query);
    let q = to_lowercase(trimmed_query.as_str());
    let everywhere: Option<&str> = None;
    let shown = select_files(files, tags, tag, q.as_str(), everywhere);
    proof {
        let f = |i: int| selected(files@[i], tags@, tag, q@, root_view(everywhere));
        let g = |i: int| is_shown(files@[i], tags@, tag, query@);
        assert(f =~= g);
    }
    shown
}

/// A search finds its text anywhere in a file's name: when the lowercased name holds the
/// trimmed, lowercased query starting at any position `at`, the file is shown unless a
/// tag filter excludes it; a tag filter shows exactly the files carrying the tag among
/// those the search alone shows.
pub proof fn lemma_search_finds_name_text_anywhere(
    file: CatalogFile,
    tags: Seq<CatalogTag>,
    tag: Option<i32>,
    query: Seq<char>,
    at: int,
)
    requires
        0 <= at,
        at + unicode_lowercase(trimmed(query)).len() <= unicode_lowercase(file.name@).len(),
        unicode_lowercase(file.name@).subrange(
            at,
            at + unicode_lowercase(trimmed(query)).len(),
        ) == unicode_lowercase(trimmed(query)),
    ensures
        is_shown(file, tags, None, query),
        is_shown(file, tags, tag, query) <==> (tag matches Some(id) ==> file.tags@.contains(id)),
{
    let q = unicode_lowercase(trimmed(query));
    let hay = unicode_lowercase(file.name@);
    assert(hay.subrange(at, at + q.len()) == q);
    assert(has_substring(hay, q));
}

/// A search also finds its text anywhere in the name of a tag the file carries.
pub proof fn lemma_search_finds_tag_text_anywhere(
    file: CatalogFile,
    tags: Seq<CatalogTag>,
    query: Seq<char>,
    k: int,
    at: int,
)
    requires
        0 <= k < tags.len(),
        file.tags@.contains(tags[k].id),
        0 <= at,
        at + unicode_lowercase(trimmed(query)).len() <= unicode_lowercase(tags[k].name@).len(),
        unicode_lowercase(tags[k].name@).subrange(
            at,
            at + unicode_lowercase(trimmed(query)).len(),
        ) == unicode_lowercase(trimmed(query)),
    ensures
        is_shown(file, tags, None, query),
{
    let q = unicode_lowercase(trimmed(query));
    let hay = unicode_lowercase(tags[k].name@);
    assert(hay.subrange(at, at + q.len()) == q);
    assert(has_substring(hay, q));
}

/// A file whose name and tag names hold the query nowhere is not shown.
pub proof fn lemma_search_hides_files_without_the_text(
    file: CatalogFile,
    tags: Seq<CatalogTag>,
    tag: Option<i32>,
    query: Seq<char>,
)
    requires
        forall|at: int|
            0 <= at && at + unicode_lowercase(trimmed(query)).len() <= unicode_lowercase(
                file.name@,
            ).len() ==> #[trigger] unicode_lowercase(file.name@).subrange(
                at,
                at + unicode_lowercase(trimmed(query)).len(),
            ) != unicode_lowercase(trimmed(query)),
        forall|k: int, at: int|
            0 <= k < tags.len() && file.tags@.contains(tags[k].id) && 0 <= at && at
                + unicode_lowercase(trimmed(query)).len() <= unicode_lowercase(tags[k].name@).len()
                ==> #[trigger] unicode_lowercase(tags[k].name@).subrange(
                at,
                at + unicode_lowercase(trimmed(query)).len(),
            ) != unicode_lowercase(trimmed(query)),
    ensures
        !is_shown(file, tags, tag, query),
{
}

/// The index of the first folder whose ID is `id`.
pub open spec fn first_folder_with_id(folders: Seq<FolderInfo>, id: i32) -> Option<int> {
    if exists|k: int| 0 <= k < folders.len() && folders[k].id == id && forall|l: int|
        0 <= l < k ==> folders[l].id != id {
        Some(
            choose|k: int|
                0 <= k < folders.len() && folders[k].id == id && forall|l: int|
                    0 <= l < k ==> folders[l].id != id,
        )
    } else {
        None
    }
}

fn find_folder(folders: &Vec<FolderInfo>, id: i32) -> (found: Option<usize>)
    ensures
        match found {
            Some(k) => k < folders@.len() && first_folder_with_id(folders@, id) == Some(k as int),
            None => first_folder_with_id(folders@, id) is None,
        },
{
    let mut i: usize = 0;
    while i < folders.len()
        invariant
            i <= folders@.len(),
            forall|l: int| 0 <= l < i ==> folders@[l].id != id,
        decreases folders@.len() - i,
    {
        if folders[i].id == id {
            proof {
                let w = choose|w: int|
                    0 <= w < folders@.len() && folders@[w].id == id && forall|l: int|
                        0 <= l < w ==> folders@[l].id != id;
                assert(0 <= i < folders@.len() && folders@[i as int].id == id && forall|l: int|
                    0 <= l < i ==> folders@[l].id != id);
                if w < i {
                    assert(folders@[w].id != id);
                }
                if w > i {
                    assert(folders@[i as int].id != id);
                }
            }
            return Some(i);
        }
        i = i + 1;
    }
    None
}

/// Whether a file is shown when the folder filter is `folder`: with no filter, or a
/// filter that names no listed folder, every file is; otherwise the files whose entry key
/// lies at or below that of the first folder with that ID (compared by path components,
/// as the entry keys of files and folders are).
pub open spec fn in_folder(file: CatalogFile, folders: Seq<FolderInfo>, folder: Option<i32>) -> bool {
    match folder {
        None => true,
        Some(id) => match first_folder_with_id(folders, id) {
            None => true,
            Some(k) => is_within(encode_utf8(folders[k].path@), encode_utf8(file.path@)),
        },
    }
}

/// The indices of the files shown for the tag filter `tag`, the search text `query` and
/// the folder filter `folder`, in order (see `is_shown` and `in_folder`).
pub fn visible_in_folder(
    files: &Vec<CatalogFile>,
    tags: &Vec<CatalogTag>,
    folders: &Vec<FolderInfo>,
    tag: Option<i32>,
    query: &str,
    folder: Option<i32>,
) -> (shown: Vec<usize>)
    ensures
        lists_exactly(
            shown@,
            files@.len(),
            |i: int| is_shown(files@[i], tags@, tag, query@) && in_folder(files@[i], folders@, folder),
        ),
{
    let trimmed_query = trim(query);
    let q = to_lowercase(trimmed_query.as_str());
    let chosen = match folder {
        Some(id) => find_folder(folders, id),
        None => None,
    };
    let root = match chosen {
        Some(k) => Some(folders[k].path.as_str()),
        None => None,
    };
    let shown = select_files(files, tags, tag, q.as_str(), root);
    proof {
        let f = |i: int| selected(files@[i], tags@, tag, q@, root_view(root));
        let g = |i: int| is_shown(files@[i], tags@, tag, query@) && in_folder(files@[i], folders@, folder);
        match chosen {
            Some(k) => {
                assert(root_view(root) == Some(folders@[k as int].path@));
            },
            None => {
                assert(root_view(root) is None);
            },
        }
        assert forall|i: int| #[trigger] f(i) == g(i) by {
            if folder is Some && chosen is Some {
                let k = chosen->0;
                assert(first_folder_with_id(folders@, folder->0) == Some(k as int));
            }
        }
        assert(f =~= g);
    }
    shown
}

/// The index of the first listed root folder (one without a parent) at or below which the
/// entry key `path` lies.
pub open spec fn first_root_containing(folders: Seq<FolderInfo>, path: Seq<u8>) -> Option<int> {
    if exists|k: int|
        0 <= k < folders.len() && holds_entry(folders[k], path) && forall|l: int|
            0 <= l < k ==> !holds_entry(folders[l], path) {
        Some(
            choose|k: int|
                0 <= k < folders.len() && holds_entry(folders[k], path) && forall|l: int|
                    0 <= l < k ==> !holds_entry(folders[l], path),
        )
    } else {
        None
    }
}

/// Whether `folder` is a root folder at or below which the entry key `path` lies.
pub open spec fn holds_entry(folder: FolderInfo, path: Seq<u8>) -> bool {
    folder.parent_folder_id is None && is_within(encode_utf8(folder.path@), path)
}

/// What is left of `path` once the key `root`, at or below which it lies, is taken off
/// with the slash that follows it.
pub open spec fn below(root: Seq<u8>, path: Seq<u8>) -> Seq<u8> {
    if path == root {
        Seq::empty()
    } else if root.len() > 0 && root.last() == 47u8 {
        path.skip(root.len() as int)
    } else {
        path.skip(root.len() as int + 1)
    }
}

/// Where a file at the entry key `path` is shown to lie: relative to the directory that
/// holds the first root folder containing it, so that the path starts with that root's
/// name; the whole key when no root folder contains it.
pub open spec fn location_of(folders: Seq<FolderInfo>, path: Seq<u8>) -> Seq<u8> {
    match first_root_containing(folders, path) {
        None => path,
        Some(k) => match parent_key_of(encode_utf8(folders[k].path@)) {
            None => path,
            Some(root) => if is_within(root, path) {
                below(root, path)
            } else {
                path
            },
        },
    }
}

fn find_root(folders: &Vec<FolderInfo>, path: &str) -> (found: Option<usize>)
    ensures
        match found {
            Some(k) => k < folders@.len() && first_root_containing(folders@, path.spec_bytes())
                == Some(k as int),
            None => first_root_containing(folders@, path.spec_bytes()) is None,
        },
{
    let ghost p = path.spec_bytes();
    let mut i: usize = 0;
    while i < folders.len()
        invariant
            i <= folders@.len(),
            p == path.spec_bytes(),
            forall|l: int| 0 <= l < i ==> !holds_entry(folders@[l], p),
        decreases folders@.len() - i,
    {
        let folder = &folders[i];
        if folder.parent_folder_id.is_none() && path_is_within(folder.path.as_str(), path) {
            proof {
                assert(holds_entry(folders@[i as int], p));
                let w = choose|w: int|
                    0 <= w < folders@.len() && holds_entry(folders@[w], p) && forall|l: int|
                        0 <= l < w ==> !holds_entry(folders@[l], p);
                if w < i {
                    assert(!holds_entry(folders@[w], p));
                }
                if w > i {
                    assert(!holds_entry(folders@[i as int], p));
                }
            }
            return Some(i);
        }
        i = i + 1;
    }
    None
}

/// The place where a file is shown to lie is UTF-8 text, as its key is.
proof fn lemma_location_is_utf8(folders: Seq<FolderInfo>, path: Seq<u8>)
    requires
        valid_utf8(path),
    ensures
        valid_utf8(location_of(folders, path)),
{
    match first_root_containing(folders, path) {
        None => {},
        Some(k) => match parent_key_of(encode_utf8(folders[k].path@)) {
            None => {},
            Some(root) => if is_within(root, path) {
                if path == root {
                    assert(below(root, path) =~= Seq::<u8>::empty());
                } else if root.len() > 0 && root.last() == 47u8 {
                    assert(path.subrange(0, root.len() as int)[root.len() - 1] == path[root.len() - 1]);
                    lemma_utf8_after_slash(path, root.len() as int);
                } else {
                    lemma_utf8_after_slash(path, root.len() as int + 1);
                }
            },
        },
    }
}

/// Where the file at the entry key `path` is shown to lie (see `location_of`), as text.
pub fn file_location(folders: &Vec<FolderInfo>, path: &str) -> (location: String)
    ensures
        encode_utf8(location@) == location_of(folders@, path.spec_bytes()),
{
    proof {
        encode_utf8_valid_utf8(path@);
        lemma_location_is_utf8(folders@, path.spec_bytes());
    }
    let bytes = path.as_bytes();
    let k = match find_root(folders, path) {
        Some(k) => k,
        None => {
            return path.to_owned();
        },
    };
    let root = match parent_bytes(folders[k].path.as_str().as_bytes()) {
        Some(root) => root,
        None => {
            return path.to_owned();
        },
    };
    if !bytes_within(root.as_slice(), bytes) {
        return path.to_owned();
    }
    let n = root.len();
    let start = if bytes.len() == n {
        n
    } else if n > 0 && root[n - 1] == 47u8 {
        n
    } else {
        n + 1
    };
    proof {
        if bytes@.len() == n {
            assert(bytes@ =~= root@);
        }
    }
    let rest = &bytes[start..bytes.len()];
    assert(rest@ =~= below(root@, bytes@));
    match utf8_str(rest) {
        Some(text) => text.to_owned(),
        None => path.to_owned(),
    }
}

/// Whether typed text is blank: nothing but whitespace.
pub fn is_blank(text: &str) -> (blank: bool)
    ensures
        blank == (trimmed(text@).len() == 0),
{
    trim(text).as_str().unicode_len() == 0
}

/// The ID of the first tag named `name` with surrounding whitespace removed.
pub open spec fn tag_named(tags: Seq<CatalogTag>, name: Seq<char>) -> Option<i32> {
    if exists|k: int|
        0 <= k < tags.len() && tags[k].name@ == trimmed(name) && forall|l: int|
            0 <= l < k ==> tags[l].name@ != trimmed(name) {
        Some(
            tags[choose|k: int|
                0 <= k < tags.len() && tags[k].name@ == trimmed(name) && forall|l: int|
                    0 <= l < k ==> tags[l].name@ != trimmed(name)].id,
        )
    } else {
        None
    }
}

/// Finds the tag that was just created under the typed `name` (see `tag_named`).
pub fn find_tag_named(tags: &Vec<CatalogTag>, name: &str) -> (id: Option<i32>)
    ensures
        id == tag_named(tags@, name@),
{
    let wanted = trim(name);
    let mut i: usize = 0;
    while i < tags.len()
        invariant
            i <= tags@.len(),
            wanted@ == trimmed(name@),
            forall|l: int| 0 <= l < i ==> tags@[l].name@ != trimmed(name@),
        decreases tags@.len() - i,
    {
        if str_eq(tags[i].name.as_str(), wanted.as_str()) {
            proof {
                let w = choose|w: int|
                    0 <= w < tags@.len() && tags@[w].name@ == trimmed(name@) && forall|l: int|
                        0 <= l < w ==> tags@[l].name@ != trimmed(name@);
                assert(0 <= i < tags@.len() && tags@[i as int].name@ == trimmed(name@));
                if w < i {
                    assert(tags@[w].name@ != trimmed(name@));
                }
                if w > i {
                    assert(tags@[i as int].name@ != trimmed(name@));
                }
            }
            return Some(tags[i].id);
        }
        i = i + 1;
    }
    None
}

/// Whether `tag` may be offered as a sub-tag of the tag being edited: any tag but that one.
pub open spec fn is_sub_tag_candidate(tag: CatalogTag, editing: Option<i32>) -> bool {
    editing != Some(tag.id)
}

/// The number of tags that may be offered as sub-tags.
pub open spec fn candidate_count(tags: Seq<CatalogTag>, editing: Option<i32>) -> nat
    decreases tags.len(),
{
    if tags.len() == 0 {
        0
    } else {
        candidate_count(tags.drop_last(), editing) + if is_sub_tag_candidate(
            tags.last(),
            editing,
        ) {
            1nat
        } else {
            0nat
        }
    }
}

proof fn lemma_candidate_count_bound(tags: Seq<CatalogTag>, editing: Option<i32>)
    ensures
        candidate_count(tags, editing) <= tags.len(),
    decreases tags.len(),
{
    if tags.len() > 0 {
        lemma_candidate_count_bound(tags.drop_last(), editing);
    }
}

/// Whether the sub-tag at `tag` is listed: it is a candidate and, when the candidates are
/// many enough to be searched, its lowercased name holds `query` (already trimmed and
/// lowercased).
pub open spec fn sub_tag_listed(
    tag: CatalogTag,
    editing: Option<i32>,
    searchable: bool,
    query: Seq<char>,
) -> bool {
    is_sub_tag_candidate(tag, editing) && (!searchable || has_substring(
        unicode_lowercase(tag.name@),
        query,
    ))
}

/// The sub-tags offered while a tag is edited.
pub struct SubTagChoices {
    /// Whether there are more than five candidates, so that a search field is shown.
    pub searchable: bool,
    /// The indices of the listed tags, in order.
    pub listed: Vec<usize>,
}

/// The sub-tags offered for the tag `editing`: every other tag, and once there are more
/// than five of them, only those whose lowercased name holds the trimmed, lowercased
/// `query`.
pub fn sub_tag_choices(tags: &Vec<CatalogTag>, editing: Option<i32>, query: &str) -> (choices:
    SubTagChoices)
    ensures
        choices.searchable == (candidate_count(tags@, editing) > 5),
        lists_exactly(
            choices.listed@,
            tags@.len(),
            |i: int|
                sub_tag_listed(
                    tags@[i],
                    editing,
                    choices.searchable,
                    unicode_lowercase(trimmed(query@)),
                ),
        ),
{
    let mut count: usize = 0;
    let mut i: usize = 0;
    assert(tags@.take(0) =~= Seq::<CatalogTag>::empty());
    while i < tags.len()
        invariant
            i <= tags@.len(),
            count == candidate_count(tags@.take(i as int), editing),
        decreases tags@.len() - i,
    {
        assert(tags@.take(i + 1).drop_last() =~= tags@.take(i as int));
        proof {
            lemma_candidate_count_bound(tags@.take(i as int), editing);
        }
        let candidate = match editing {
            Some(id) => tags[i].id != id,
            None => true,
        };
        if candidate {
            count = count + 1;
        }
        i = i + 1;
    }
    assert(tags@.take(tags@.len() as int) =~= tags@);
    let searchable = count > 5;
    let trimmed_query = trim(query);
    let q = to_lowercase(trimmed_query.as_str());
    let ghost keep = |i: int|
        sub_tag_listed(tags@[i], editing, searchable, unicode_lowercase(trimmed(query@)));
    let mut listed: Vec<usize> = Vec::new();
    let mut k: usize = 0;
    while k < tags.len()
        invariant
            k <= tags@.len(),
            q@ == unicode_lowercase(trimmed(query@)),
            keep == (|i: int|
                sub_tag_listed(tags@[i], editing, searchable, unicode_lowercase(trimmed(query@)))),
            forall|a: int, b: int| 0 <= a < b < listed@.len() ==> listed@[a] < listed@[b],
            forall|a: int| 0 <= a < listed@.len() ==> listed@[a] < k && keep(listed@[a] as int),
            forall|j: int| 0 <= j < k && #[trigger] keep(j) ==> listed@.contains(j as usize),
        decreases tags@.len() - k,
    {
        let tag = &tags[k];
        let candidate = match editing {
            Some(id) => tag.id != id,
            None => true,
        };
        let shown = candidate && (!searchable || str_contains(
            to_lowercase(tag.name.as_str()).as_str(),
            q.as_str(),
        ));
        if shown {
            let ghost before = listed@;
            listed.push(k);
            proof {
                assert(keep(k as int));
                assert forall|j: int| 0 <= j < k + 1 && #[trigger] keep(j) implies listed@.contains(
                    j as usize,
                ) by {
                    if j < k {
                        let w = choose|w: int| 0 <= w < before.len() && before[w] == j as usize;
                        assert(listed@[w] == j as usize);
                    } else {
                        assert(listed@[listed@.len() - 1] == k);
                    }
                }
            }
        } else {
            proof {
                assert(!keep(k as int));
            }
        }
        k = k + 1;
    }
    proof {
        let e = |i: int|
            sub_tag_listed(tags@[i], editing, searchable, unicode_lowercase(trimmed(query@)));
        assert(e =~= keep);
    }
    SubTagChoices { searchable, listed }
}

/// What the tag editor's submit button does.
#[derive(Clone, Copy, Debug, PartialEq, Eq, Structural)]
pub enum TagPurpose {
    /// Save the changes to an existing tag.
    Edit,
    /// Create a new tag.
    Create,
    /// Add a tag to the selected file.
    Assign,
}

impl TagPurpose {
    /// The button's label; `Saving…` while a change is being saved.
    pub fn label(&self, saving: bool) -> (text: &'static str)
        ensures
            text@ == (if saving {
                "Saving…"@
            } else {
                match self {
                    TagPurpose::Edit => "Save"@,
                    TagPurpose::Create => "Create"@,
                    TagPurpose::Assign => "Add"@,
                }
            }),
    {
        if saving {
            "Saving…"
        } else {
            match self {
                TagPurpose::Edit => "Save",
                TagPurpose::Create => "Create",
                TagPurpose::Assign => "Add",
            }
        }
    }

    /// What the button does, as told to assistive technology.
    pub fn description(&self) -> (text: &'static str)
        ensures
            text@ == match self {
                TagPurpose::Edit => "Save tag changes"@,
                TagPurpose::Create => "Create tag"@,
                TagPurpose::Assign => "Add tag to selected file"@,
            },
    {
        match self {
            TagPurpose::Edit => "Save tag changes",
            TagPurpose::Create => "Create tag",
            TagPurpose::Assign => "Add tag to selected file",
        }
    }
}

/// Whether the tag `editing` is one of `tags`, so that it is being edited.
pub open spec fn edits_tag(tags: Seq<CatalogTag>, editing: Option<i32>) -> bool {
    editing matches Some(id) && exists|k: int| 0 <= k < tags.len() && #[trigger] tags[k].id == id
}

/// The purpose of the tag editor: editing a tag that exists, else creating one when asked,
/// else adding a tag to the selected file.
pub open spec fn tag_purpose(tags: Seq<CatalogTag>, editing: Option<i32>, creating: bool) -> TagPurpose {
    if edits_tag(tags, editing) {
        TagPurpose::Edit
    } else if creating {
        TagPurpose::Create
    } else {
        TagPurpose::Assign
    }
}

/// Whether the tag at `i` is offered for the selected `file`: no tag is being edited and
/// the file does not carry it.
pub open spec fn offered_to_file(
    tags: Seq<CatalogTag>,
    editing: Option<i32>,
    file: Option<&CatalogFile>,
    i: int,
) -> bool {
    &&& !edits_tag(tags, editing)
    &&& match file {
        Some(f) => !f.tags@.contains(tags[i].id),
        None => false,
    }
}

/// What the tag editor shows.
pub struct TagEditorView {
    /// What the submit button does.
    pub purpose: TagPurpose,
    /// Whether the submit button can be pressed.
    pub submit_enabled: bool,
    /// The indices of the tags offered for the selected file, in order.
    pub assignable: Vec<usize>,
}

/// The tag editor for the selected `file`, the tag `editing`, whether a new tag is being
/// created or a change saved, and the typed `name` and `color`. The button is enabled
/// unless a change is being saved, there is nothing to add a tag to, the name is blank,
/// or an edited tag's color text is refused. While no tag is edited, the tags the
/// selected file does not carry are offered.
pub fn tag_editor_view(
    tags: &Vec<CatalogTag>,
    file: Option<&CatalogFile>,
    editing: Option<i32>,
    creating: bool,
    saving: bool,
    name: &str,
    color: &str,
) -> (view: TagEditorView)
    ensures
        view.purpose == tag_purpose(tags@, editing, creating),
        view.submit_enabled == !(saving || (file is None && view.purpose == TagPurpose::Assign)
            || trimmed(name@).len() == 0 || (view.purpose == TagPurpose::Edit && tag_color_input(
            color@,
        ) is Invalid)),
        lists_exactly(
            view.assignable@,
            tags@.len(),
            |i: int| offered_to_file(tags@, editing, file, i),
        ),
{
    let mut found = false;
    let mut i: usize = 0;
    while i < tags.len()
        invariant
            i <= tags@.len(),
            found == match editing {
                Some(id) => exists|k: int| 0 <= k < i && #[trigger] tags@[k].id == id,
                None => false,
            },
        decreases tags@.len() - i,
    {
        if let Some(id) = editing {
            if tags[i].id == id {
                found = true;
            }
        }
        i = i + 1;
    }
    let purpose = if found {
        TagPurpose::Edit
    } else if creating {
        TagPurpose::Create
    } else {
        TagPurpose::Assign
    };
    let color_refused = match purpose {
        TagPurpose::Edit => read_tag_color(color).is_err(),
        _ => false,
    };
    let no_target = file.is_none() && match purpose {
        TagPurpose::Assign => true,
        _ => false,
    };
    let submit_enabled = !(saving || no_target || is_blank(name) || color_refused);
    let ghost keep = |j: int| offered_to_file(tags@, editing, file, j);
    let mut assignable: Vec<usize> = Vec::new();
    let mut k: usize = 0;
    while k < tags.len()
        invariant
            k <= tags@.len(),
            found == edits_tag(tags@, editing),
            keep == (|j: int| offered_to_file(tags@, editing, file, j)),
            forall|a: int, b: int| 0 <= a < b < assignable@.len() ==> assignable@[a]
                < assignable@[b],
            forall|a: int| 0 <= a < assignable@.len() ==> assignable@[a] < k && keep(
                assignable@[a] as int,
            ),
            forall|j: int| 0 <= j < k && #[trigger] keep(j) ==> assignable@.contains(j as usize),
        decreases tags@.len() - k,
    {
        let offered = match file {
            Some(f) => !found && !has_id(&f.tags, tags[k].id),
            None => false,
        };
        if offered {
            let ghost before = assignable@;
            assignable.push(k);
            proof {
                assert(keep(k as int));
                assert forall|j: int| 0 <= j < k + 1 && #[trigger] keep(j) implies assignable@.contains(
                    j as usize,
                ) by {
                    if j < k {
                        let w = choose|w: int| 0 <= w < before.len() && before[w] == j as usize;
                        assert(assignable@[w] == j as usize);
                    } else {
                        assert(assignable@[assignable@.len() - 1] == k);
                    }
                }
            }
        } else {
            proof {
                assert(!keep(k as int));
            }
        }
        k = k + 1;
    }
    proof {
        let e = |j: int| offered_to_file(tags@, editing, file, j);
        assert(e =~= keep);
    }
    TagEditorView { purpose, submit_enabled, assignable }
}

/// The tag IDs `ids` with `id` added at the end, unless it is already there.
pub open spec fn with_tag(ids: Seq<i32>, id: i32) -> Seq<i32> {
    if ids.contains(id) {
        ids
    } else {
        ids.push(id)
    }
}

/// The tag IDs `ids` without any occurrence of `id`, in their order.
pub open spec fn without_tag(ids: Seq<i32>, id: i32) -> Seq<i32>
    decreases ids.len(),
{
    if ids.len() == 0 {
        ids
    } else if ids.last() == id {
        without_tag(ids.drop_last(), id)
    } else {
        without_tag(ids.drop_last(), id).push(ids.last())
    }
}

fn remove_id(ids: &Vec<i32>, id: i32) -> (kept: Vec<i32>)
    ensures
        kept@ == without_tag(ids@, id),
{
    let mut kept: Vec<i32> = Vec::new();
    let mut i: usize = 0;
    assert(ids@.take(0) =~= Seq::<i32>::empty());
    while i < ids.len()
        invariant
            i <= ids@.len(),
            kept@ == without_tag(ids@.take(i as int), id),
        decreases ids@.len() - i,
    {
        assert(ids@.take(i + 1).drop_last() =~= ids@.take(i as int));
        if ids[i] != id {
            kept.push(ids[i]);
        }
        i = i + 1;
    }
    assert(ids@.take(ids@.len() as int) =~= ids@);
    kept
}

impl CatalogFile {
    /// Records that the tag `id` was assigned to this file.
    pub fn add_tag_id(&mut self, id: i32)
        ensures
            final(self).tags@ == with_tag(old(self).tags@, id),
            final(self).id == old(self).id,
            final(self).name == old(self).name,
            final(self).path == old(self).path,
    {
        if !has_id(&self.tags, id) {
            self.tags.push(id);
        }
    }

    /// Records that the tag `id` was taken off this file.
    pub fn remove_tag_id(&mut self, id: i32)
        ensures
            final(self).tags@ == without_tag(old(self).tags@, id),
            final(self).id == old(self).id,
            final(self).name == old(self).name,
            final(self).path == old(self).path,
    {
        self.tags = remove_id(&self.tags, id);
    }
}

/// Records that the tag `id` was deleted: no file carries it any more.
pub fn forget_tag(files: &mut Vec<CatalogFile>, id: i32)
    ensures
        final(files)@.len() == old(files)@.len(),
        forall|i: int|
            0 <= i < final(files)@.len() ==> (#[trigger] final(files)@[i]).tags@ == without_tag(
                old(files)@[i].tags@,
                id,
            ) && final(files)@[i].id == old(files)@[i].id && final(files)@[i].name
                == old(files)@[i].name && final(files)@[i].path == old(files)@[i].path,
{
    let mut i: usize = 0;
    while i < files.len()
        invariant
            i <= files@.len() == old(files)@.len(),
            forall|j: int|
                0 <= j < i ==> (#[trigger] files@[j]).tags@ == without_tag(old(files)@[j].tags@, id)
                    && files@[j].id == old(files)@[j].id && files@[j].name == old(files)@[j].name
                    && files@[j].path == old(files)@[j].path,
            forall|j: int| i <= j < files@.len() ==> #[trigger] files@[j] == old(files)@[j],
        decreases files@.len() - i,
    {
        let kept = remove_id(&files[i].tags, id);
        files[i].tags = kept;
        i = i + 1;
    }
}

/// The tag filter after the tag `deleted` was deleted: cleared if it was that tag.
pub fn filter_after_delete(active: Option<i32>, deleted: i32) -> (filter: Option<i32>)
    ensures
        filter == (if active == Some(deleted) {
            None
        } else {
            active
        }),
{
    if active == Some(deleted) {
        None
    } else {
        active
    }
}

/// The selected file after the list of shown files changed: the selection stays while it
/// is shown, otherwise the first shown file is selected, or none.
pub fn keep_selection(selected: Option<usize>, shown: &Vec<usize>) -> (next: Option<usize>)
    ensures
        next == (if selected is Some && shown@.contains(selected->0) {
            selected
        } else if shown@.len() > 0 {
            Some(shown@[0])
        } else {
            None
        }),
{
    if let Some(index) = selected {
        let mut i: usize = 0;
        while i < shown.len()
            invariant
                i <= shown@.len(),
                selected == Some(index),
                forall|j: int| 0 <= j < i ==> shown@[j] != index,
            decreases shown@.len() - i,
        {
            if shown[i] == index {
                assert(shown@[i as int] == index);
                return selected;
            }
            i = i + 1;
        }
    }
    if shown.len() > 0 {
        Some(shown[0])
    } else {
        None
    }
}

/// Taking a tag off a file undoes assigning it, when the file did not carry it before.
pub proof fn lemma_remove_undoes_add(ids: Seq<i32>, id: i32)
    requires
        !ids.contains(id),
    ensures
        without_tag(with_tag(ids, id), id) == ids,
    decreases ids.len(),
{
    lemma_without_absent(ids, id);
    assert(ids.push(id).drop_last() =~= ids);
}

/// Removing a tag that is not there changes nothing.
pub proof fn lemma_without_absent(ids: Seq<i32>, id: i32)
    requires
        !ids.contains(id),
    ensures
        without_tag(ids, id) == ids,
    decreases ids.len(),
{
    if ids.len() > 0 {
        assert(!ids.drop_last().contains(id)) by {
            if ids.drop_last().contains(id) {
                let k = choose|k: int| 0 <= k < ids.drop_last().len() && ids.drop_last()[k] == id;
                assert(ids[k] == id);
            }
        }
        assert(ids[ids.len() - 1] != id);
        lemma_without_absent(ids.drop_last(), id);
        assert(ids.drop_last().push(ids.last()) =~= ids);
    }
}

/// After a tag is taken off, the file carries it no more; every other tag stays.
pub proof fn lemma_without_tag_contents(ids: Seq<i32>, id: i32, other: i32)
    ensures
        !without_tag(ids, id).contains(id),
        other != id ==> (without_tag(ids, id).contains(other) <==> ids.contains(other)),
    decreases ids.len(),
{
    if ids.len() > 0 {
        lemma_without_tag_contents(ids.drop_last(), id, other);
        let rest = without_tag(ids.drop_last(), id);
        if ids.last() != id {
            assert(without_tag(ids, id) == rest.push(ids.last()));
            assert(rest.push(ids.last()).last() == ids.last());
            assert forall|x: i32| rest.push(ids.last()).contains(x) <==> (rest.contains(x) || x
                == ids.last()) by {
                if rest.push(ids.last()).contains(x) {
                    let k = choose|k: int| 0 <= k < rest.push(ids.last()).len() && rest.push(
                        ids.last(),
                    )[k] == x;
                    if k < rest.len() {
                        assert(rest[k] == x);
                    }
                }
                if rest.contains(x) {
                    let k = choose|k: int| 0 <= k < rest.len() && rest[k] == x;
                    assert(rest.push(ids.last())[k] == x);
                }
                if x == ids.last() {
                    assert(rest.push(ids.last())[rest.len() as int] == x);
                }
            }
        }
        assert forall|x: i32| ids.contains(x) <==> (ids.drop_last().contains(x) || x == ids.last()) by {
            if ids.contains(x) {
                let k = choose|k: int| 0 <= k < ids.len() && ids[k] == x;
                if k < ids.len() - 1 {
                    assert(ids.drop_last()[k] == x);
                }
            }
            if ids.drop_last().contains(x) {
                let k = choose|k: int| 0 <= k < ids.drop_last().len() && ids.drop_last()[k] == x;
                assert(ids[k] == x);
            }
            if x == ids.last() {
                assert(ids[ids.len() - 1] == x);
            }
        }
    }
}

/// Assigning a tag twice is assigning it once; afterwards the file carries it.
pub proof fn lemma_add_tag_idempotent(ids: Seq<i32>, id: i32)
    ensures
        with_tag(with_tag(ids, id), id) == with_tag(ids, id),
        with_tag(ids, id).contains(id),
{
    if !ids.contains(id) {
        assert(ids.push(id)[ids.len() as int] == id);
    }
}

/// The decimal spelling of an ID, with a leading `-` when it is negative.
pub open spec fn id_text(id: i32) -> Seq<char> {
    if id < 0 {
        seq!['-'] + decimal_of((-id) as nat)
    } else {
        decimal_of(id as nat)
    }
}

/// Appends the decimal spelling of `id`.
pub fn push_id(out: &mut String, id: i32)
    ensures
        final(out)@ == old(out)@ + id_text(id),
{
    if id < 0 {
        string_push(out, '-');
        let magnitude = (0i64 - (id as i64)) as u64;
        push_decimal(out, magnitude);
        assert(old(out)@ + id_text(id) =~= old(out)@.push('-') + decimal_of(magnitude as nat));
    } else {
        push_decimal(out, id as u64);
    }
}

/// A folder of the watched-folder tree: its name, its key, and the IDs of the folders
/// directly below it, if any.
#[derive(Debug)]
pub struct WatchedFolderTree {
    pub name: String,
    pub path: String,
    pub children: Option<Vec<String>>,
}

/// A tree entry in the terms of the contracts.
pub struct TreeEntryView {
    pub name: Seq<char>,
    pub path: Seq<char>,
    pub children: Option<Seq<Seq<char>>>,
}

impl View for WatchedFolderTree {
    type V = TreeEntryView;

    open spec fn view(&self) -> TreeEntryView {
        TreeEntryView {
            name: self.name@,
            path: self.path@,
            children: match self.children {
                Some(ids) => Some(ids@.map_values(|id: String| id@)),
                None => None,
            },
        }
    }
}

/// The IDs, in order, of the folders whose parent is `parent`.
pub open spec fn ids_below(folders: Seq<FolderRow>, parent: Option<i32>) -> Seq<Seq<char>>
    decreases folders.len(),
{
    if folders.len() == 0 {
        Seq::empty()
    } else {
        ids_below(folders.drop_last(), parent) + if folders.last().parent_folder_id == parent {
            seq![id_text(folders.last().id)]
        } else {
            Seq::empty()
        }
    }
}

/// The entries of the watched-folder tree after the root entry, in order: one for each
/// folder that has a parent, under its ID.
pub open spec fn nested_entries(folders: Seq<FolderRow>, all: Seq<FolderRow>) -> Seq<
    (Seq<char>, TreeEntryView),
>
    decreases folders.len(),
{
    if folders.len() == 0 {
        Seq::empty()
    } else {
        let f = folders.last();
        let children = ids_below(all, Some(f.id));
        nested_entries(folders.drop_last(), all) + if f.parent_folder_id is Some {
            seq![
                (
                    id_text(f.id),
                    TreeEntryView {
                        name: f.name@,
                        path: f.path@,
                        children: if children.len() == 0 {
                            None
                        } else {
                            Some(children)
                        },
                    },
                ),
            ]
        } else {
            Seq::empty()
        }
    }
}

/// The watched-folder tree of the stored folders: first the entry `0`, with no name and
/// no key, whose children are the folders without a parent; then one entry for each
/// folder with a parent, under its ID, whose children are the folders directly below it.
/// Read as a map, a later entry replaces an earlier one under the same ID.
pub open spec fn watched_folder_entries(folders: Seq<FolderRow>) -> Seq<(Seq<char>, TreeEntryView)> {
    seq![
        (
            seq!['0'],
            TreeEntryView {
                name: Seq::empty(),
                path: Seq::empty(),
                children: Some(ids_below(folders, None)),
            },
        ),
    ] + nested_entries(folders, folders)
}

/// The entries of a list of (ID, tree entry) pairs, in the terms of the contracts.
pub open spec fn tree_entries_view(entries: Seq<(String, WatchedFolderTree)>) -> Seq<
    (Seq<char>, TreeEntryView),
> {
    entries.map_values(|e: (String, WatchedFolderTree)| (e.0@, e.1@))
}

fn child_ids(folders: &Vec<FolderRow>, parent: Option<i32>) -> (ids: Vec<String>)
    ensures
        ids@.map_values(|id: String| id@) == ids_below(folders@, parent),
{
    let mut ids: Vec<String> = Vec::new();
    let mut i: usize = 0;
    assert(folders@.take(0) =~= Seq::<FolderRow>::empty());
    assert(ids@.map_values(|id: String| id@) =~= Seq::<Seq<char>>::empty());
    while i < folders.len()
        invariant
            i <= folders@.len(),
            ids@.map_values(|id: String| id@) == ids_below(folders@.take(i as int), parent),
        decreases folders@.len() - i,
    {
        assert(folders@.take(i + 1).drop_last() =~= folders@.take(i as int));
        assert(folders@.take(i + 1).last() == folders@[i as int]);
        if folders[i].parent_folder_id == parent {
            let mut text = String::new();
            push_id(&mut text, folders[i].id);
            assert(text@ =~= id_text(folders@[i as int].id));
            let ghost before = ids@;
            ids.push(text);
            assert(ids@.map_values(|id: String| id@) =~= before.map_values(|id: String| id@).push(
                id_text(folders@[i as int].id),
            ));
        }
        assert(ids@.map_values(|id: String| id@) =~= ids_below(folders@.take(i + 1), parent));
        i = i + 1;
    }
    assert(folders@.take(folders@.len() as int) =~= folders@);
    ids
}

/// The watched-folder tree of the stored `folders` (see `watched_folder_entries`), as a
/// list of (ID, entry) pairs in insertion order.
pub fn watched_folder_map(folders: &Vec<FolderRow>) -> (entries: Vec<(String, WatchedFolderTree)>)
    ensures
        tree_entries_view(entries@) == watched_folder_entries(folders@),
{
    let mut entries: Vec<(String, WatchedFolderTree)> = Vec::new();
    let roots = child_ids(folders, None);
    let mut zero = String::new();
    string_push(&mut zero, '0');
    entries.push((zero, WatchedFolderTree { name: String::new(), path: String::new(), children: Some(roots) }));
    let ghost head = tree_entries_view(entries@);
    assert(head =~= seq![
        (
            seq!['0'],
            TreeEntryView {
                name: Seq::empty(),
                path: Seq::empty(),
                children: Some(ids_below(folders@, None)),
            },
        ),
    ]);
    let mut i: usize = 0;
    assert(folders@.take(0) =~= Seq::<FolderRow>::empty());
    assert(tree_entries_view(entries@) =~= head + nested_entries(folders@.take(0), folders@));
    while i < folders.len()
        invariant
            i <= folders@.len(),
            head == watched_folder_entries(folders@).take(1),
            tree_entries_view(entries@) == head + nested_entries(folders@.take(i as int), folders@),
        decreases folders@.len() - i,
    {
        assert(folders@.take(i + 1).drop_last() =~= folders@.take(i as int));
        assert(folders@.take(i + 1).last() == folders@[i as int]);
        let folder = &folders[i];
        if folder.parent_folder_id.is_some() {
            let below = child_ids(folders, Some(folder.id));
            let children = if below.len() == 0 {
                None
            } else {
                Some(below)
            };
            let mut key = String::new();
            push_id(&mut key, folder.id);
            let entry = WatchedFolderTree {
                name: folder.name.clone(),
                path: folder.path.clone(),
                children,
            };
            let ghost before = entries@;
            entries.push((key, entry));
            assert(tree_entries_view(entries@) =~= tree_entries_view(before).push(
                tree_entries_view(entries@).last(),
            ));
        }
        assert(tree_entries_view(entries@) =~= head + nested_entries(folders@.take(i + 1), folders@));
        i = i + 1;
    }
    assert(folders@.take(folders@.len() as int) =~= folders@);
    assert(watched_folder_entries(folders@) =~= head + nested_entries(folders@, folders@));
    entries
}

} // verus!
