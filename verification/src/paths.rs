//! Entry keys: the absolute, lexically normalized UTF-8 spelling under which
//! file entries and folders are stored, and the path pieces that the rest of
//! the library reads (file names, extensions, containment in a watched root).
//!
//! Paths are handled as the raw bytes of a Unix path: `/` separates
//! components, `.` is the current directory and `..` the parent.
use vstd::prelude::*;
use vstd::utf8::*;
use vstd::string::StringSliceAdditionalSpecFns;

verus! {

/// The finished segments and the bytes of the unfinished segment after reading `p`.
pub open spec fn split_state(p: Seq<u8>) -> (Seq<Seq<u8>>, Seq<u8>)
    decreases p.len(),
{
    if p.len() == 0 {
        (Seq::empty(), Seq::empty())
    } else {
        let previous = split_state(p.drop_last());
        if p.last() == 47u8 {
            (push_segment(previous.0, previous.1), Seq::empty())
        } else {
            (previous.0, previous.1.push(p.last()))
        }
    }
}

/// Appends a segment unless it is empty.
pub open spec fn push_segment(segments: Seq<Seq<u8>>, current: Seq<u8>) -> Seq<Seq<u8>> {
    if current.len() == 0 {
        segments
    } else {
        segments.push(current)
    }
}

/// The non-empty runs of bytes between slashes, in order.
pub open spec fn path_segments(p: Seq<u8>) -> Seq<Seq<u8>> {
    push_segment(split_state(p).0, split_state(p).1)
}

pub open spec fn is_dot_segment(s: Seq<u8>) -> bool {
    s == seq![46u8]
}

pub open spec fn is_dot_dot_segment(s: Seq<u8>) -> bool {
    s == seq![46u8, 46u8]
}

/// A segment that names a child: neither `.` nor `..`.
pub open spec fn is_normal_segment(s: Seq<u8>) -> bool {
    s.len() > 0 && !is_dot_segment(s) && !is_dot_dot_segment(s) && !s.contains(47u8)
}

/// Lexical resolution of one segment: `.` is dropped, `..` removes the last
/// resolved segment (nothing above the top), anything else is appended.
pub open spec fn resolve_segment(stack: Seq<Seq<u8>>, segment: Seq<u8>) -> Seq<Seq<u8>> {
    if is_dot_segment(segment) {
        stack
    } else if is_dot_dot_segment(segment) {
        if stack.len() > 0 {
            stack.drop_last()
        } else {
            stack
        }
    } else {
        stack.push(segment)
    }
}

pub open spec fn resolve_segments(stack: Seq<Seq<u8>>, segments: Seq<Seq<u8>>) -> Seq<Seq<u8>>
    decreases segments.len(),
{
    if segments.len() == 0 {
        stack
    } else {
        resolve_segment(resolve_segments(stack, segments.drop_last()), segments.last())
    }
}

pub open spec fn is_rooted(p: Seq<u8>) -> bool {
    p.len() > 0 && p[0] == 47u8
}

/// The segments separated by single slashes.
pub open spec fn join_segments(segments: Seq<Seq<u8>>) -> Seq<u8>
    decreases segments.len(),
{
    if segments.len() == 0 {
        Seq::empty()
    } else if segments.len() == 1 {
        segments[0]
    } else {
        join_segments(segments.drop_last()) + seq![47u8] + segments.last()
    }
}

pub open spec fn render_key(rooted: bool, segments: Seq<Seq<u8>>) -> Seq<u8> {
    if rooted {
        seq![47u8] + join_segments(segments)
    } else {
        join_segments(segments)
    }
}

/// The entry key of `path`: relative paths are taken below `current_dir`, which is
/// read from the root as a working directory always is, then `.` and `..` are
/// resolved lexically, without touching the filesystem.
pub open spec fn normalized_key(path: Seq<u8>, current_dir: Seq<u8>) -> Seq<u8> {
    if is_rooted(path) {
        render_key(true, resolve_segments(Seq::empty(), path_segments(path)))
    } else {
        render_key(
            true,
            resolve_segments(
                resolve_segments(Seq::empty(), path_segments(current_dir)),
                path_segments(path),
            ),
        )
    }
}

/// Whether `key` is an entry key: rooted, and its own entry key whatever the
/// current directory (no `.`, `..` or empty component).
pub open spec fn is_entry_key(key: Seq<u8>) -> bool {
    &&& is_rooted(key)
    &&& forall|dir: Seq<u8>| #[trigger] normalized_key(key, dir) == key
}

/// Why a path has no entry key.
#[derive(Clone, Copy, Debug, PartialEq, Eq, Structural)]
pub enum IndexedPathError {
    /// The path is empty.
    Empty,
    /// The path, or its normalized form, is not valid UTF-8.
    NotUtf8,
}

/// `std::str::from_utf8`: the string whose UTF-8 encoding is `bytes`, when
/// `bytes` is valid UTF-8, and nothing otherwise.
#[verifier::external_body]
pub(crate) fn utf8_str(bytes: &[u8]) -> (result: Option<&str>)
    ensures
        result is Some <==> valid_utf8(bytes@),
        result matches Some(s) ==> s.spec_bytes() == bytes@,
{
    std::str::from_utf8(bytes).ok()
}

pub open spec fn byte_views(v: Seq<Vec<u8>>) -> Seq<Seq<u8>> {
    v.map_values(|x: Vec<u8>| x@)
}

proof fn lemma_byte_views_push(v: Seq<Vec<u8>>, x: Vec<u8>)
    ensures
        byte_views(v.push(x)) == byte_views(v).push(x@),
{
    assert(byte_views(v.push(x)) =~= byte_views(v).push(x@));
}

proof fn lemma_byte_views_drop_last(v: Seq<Vec<u8>>)
    requires
        v.len() > 0,
    ensures
        byte_views(v.drop_last()) == byte_views(v).drop_last(),
{
    assert(byte_views(v.drop_last()) =~= byte_views(v).drop_last());
}

/// Resolves one segment onto the stack of resolved segments.
fn resolve_into(stack: &mut Vec<Vec<u8>>, segment: Vec<u8>)
    ensures
        byte_views(final(stack)@) == resolve_segment(byte_views(old(stack)@), segment@),
{
    let is_dot = segment.len() == 1 && segment[0] == 46u8;
    let is_dot_dot = segment.len() == 2 && segment[0] == 46u8 && segment[1] == 46u8;
    proof {
        if segment@.len() == 1 && segment@[0] == 46u8 {
            assert(segment@ =~= seq![46u8]);
        }
        if segment@.len() == 2 && segment@[0] == 46u8 && segment@[1] == 46u8 {
            assert(segment@ =~= seq![46u8, 46u8]);
        }
    }
    if is_dot {
    } else if is_dot_dot {
        if stack.len() > 0 {
            proof {
                lemma_byte_views_drop_last(stack@);
            }
            stack.pop();
        }
    } else {
        proof {
            lemma_byte_views_push(stack@, segment);
        }
        stack.push(segment);
    }
}

/// Splits `p` at its slashes and resolves every segment onto `stack`.
fn resolve_path_into(stack: &mut Vec<Vec<u8>>, p: &[u8])
    ensures
        byte_views(final(stack)@) == resolve_segments(byte_views(old(stack)@), path_segments(p@)),
{
    let ghost base = byte_views(stack@);
    let mut current: Vec<u8> = Vec::new();
    let mut i: usize = 0;
    assert(p@.take(0) =~= Seq::<u8>::empty());
    while i < p.len()
        invariant
            i <= p@.len(),
            current@ == split_state(p@.take(i as int)).1,
            byte_views(stack@) == resolve_segments(base, split_state(p@.take(i as int)).0),
        decreases p@.len() - i,
    {
        let ghost before = split_state(p@.take(i as int));
        assert(p@.take(i + 1).drop_last() =~= p@.take(i as int));
        let byte = p[i];
        if byte == 47u8 {
            if current.len() > 0 {
                let segment = current;
                current = Vec::new();
                assert(before.0.push(segment@).drop_last() =~= before.0);
                resolve_into(stack, segment);
            } else {
                current = Vec::new();
            }
        } else {
            current.push(byte);
        }
        i = i + 1;
    }
    assert(p@.take(p@.len() as int) =~= p@);
    let ghost last = split_state(p@);
    if current.len() > 0 {
        assert(last.0.push(current@).drop_last() =~= last.0);
        resolve_into(stack, current);
    }
}

/// Writes the resolved segments, separated by slashes, after an optional root slash.
fn render_into(rooted: bool, stack: &Vec<Vec<u8>>) -> (out: Vec<u8>)
    ensures
        out@ == render_key(rooted, byte_views(stack@)),
{
    let mut out: Vec<u8> = Vec::new();
    let ghost prefix: Seq<u8> = if rooted {
        seq![47u8]
    } else {
        Seq::empty()
    };
    if rooted {
        out.push(47u8);
    }
    assert(out@ =~= prefix);
    assert(byte_views(stack@).take(0) =~= Seq::<Seq<u8>>::empty());
    let mut k: usize = 0;
    while k < stack.len()
        invariant
            k <= stack@.len(),
            prefix == (if rooted {
                seq![47u8]
            } else {
                Seq::<u8>::empty()
            }),
            out@ == prefix + join_segments(byte_views(stack@).take(k as int)),
        decreases stack@.len() - k,
    {
        let ghost joined = join_segments(byte_views(stack@).take(k as int));
        let ghost segment = byte_views(stack@)[k as int];
        assert(byte_views(stack@).take(k + 1).drop_last() =~= byte_views(stack@).take(k as int));
        if k > 0 {
            out.push(47u8);
        }
        let ghost start = out@;
        let piece = &stack[k];
        let mut j: usize = 0;
        while j < piece.len()
            invariant
                j <= piece@.len(),
                out@ == start + piece@.take(j as int),
            decreases piece@.len() - j,
        {
            assert(piece@.take(j + 1) =~= piece@.take(j as int).push(piece@[j as int]));
            out.push(piece[j]);
            j = j + 1;
        }
        assert(piece@.take(piece@.len() as int) =~= piece@);
        assert(segment == piece@);
        if k == 0 {
            assert(byte_views(stack@).take(1) =~= seq![segment]);
            assert(out@ =~= prefix + join_segments(byte_views(stack@).take(1)));
        } else {
            assert(out@ =~= prefix + (joined + seq![47u8] + segment));
        }
        k = k + 1;
    }
    assert(byte_views(stack@).take(stack@.len() as int) =~= byte_views(stack@));
    out
}

/// The entry key of `path`: absolute, `.` and `..` resolved lexically, UTF-8.
///
/// Relative paths are taken below `current_dir`, which is read for them only.
/// Symbolic links are not followed and the entry need not exist, so a key can
/// still be computed after its entry was deleted.
pub fn indexed_path(path: &[u8], current_dir: &[u8]) -> (result: Result<String, IndexedPathError>)
    ensures
        path@.len() == 0 ==> result == Err::<String, _>(IndexedPathError::Empty),
        path@.len() > 0 && !valid_utf8(path@) ==> result == Err::<String, _>(
            IndexedPathError::NotUtf8,
        ),
        path@.len() > 0 && valid_utf8(path@) && !valid_utf8(normalized_key(path@, current_dir@))
            ==> result == Err::<String, _>(IndexedPathError::NotUtf8),
        path@.len() > 0 && valid_utf8(path@) && valid_utf8(normalized_key(path@, current_dir@))
            ==> result is Ok && encode_utf8(result->Ok_0@) == normalized_key(path@, current_dir@),
        path@.len() > 0 && valid_utf8(path@) && (is_rooted(path@) || valid_utf8(current_dir@))
            ==> result is Ok,
        result matches Ok(key) ==> is_entry_key(encode_utf8(key@)),
{
    proof {
        lemma_key_is_entry_key(path@, current_dir@);
        if valid_utf8(path@) && (is_rooted(path@) || valid_utf8(current_dir@)) {
            lemma_entry_keys_of_utf8_paths_are_utf8(path@, current_dir@);
        }
    }
    if path.len() == 0 {
        return Err(IndexedPathError::Empty);
    }
    if utf8_str(path).is_none() {
        return Err(IndexedPathError::NotUtf8);
    }
    let mut stack: Vec<Vec<u8>> = Vec::new();
    assert(byte_views(stack@) =~= Seq::<Seq<u8>>::empty());
    let rooted = path[0] == 47u8;
    let out = if rooted {
        resolve_path_into(&mut stack, path);
        render_into(true, &stack)
    } else {
        resolve_path_into(&mut stack, current_dir);
        resolve_path_into(&mut stack, path);
        render_into(true, &stack)
    };
    match utf8_str(out.as_slice()) {
        Some(s) => {
            let owned = s.to_owned();
            Ok(owned)
        },
        None => Err(IndexedPathError::NotUtf8),
    }
}


/// The last segment that is not `.`.
pub open spec fn last_named(segments: Seq<Seq<u8>>) -> Option<Seq<u8>>
    decreases segments.len(),
{
    if segments.len() == 0 {
        None
    } else if is_dot_segment(segments.last()) {
        last_named(segments.drop_last())
    } else {
        Some(segments.last())
    }
}

/// The final component of `p` when it names a child, as `Path::file_name` reads it:
/// nothing for a root, for `..` or for an empty path; a trailing slash or `.` is skipped.
pub open spec fn file_name_of(p: Seq<u8>) -> Option<Seq<u8>> {
    match last_named(path_segments(p)) {
        Some(name) => if is_dot_dot_segment(name) {
            None
        } else {
            Some(name)
        },
        None => None,
    }
}

/// The index of the last `.` in `s`, or -1.
pub open spec fn last_dot(s: Seq<u8>) -> int
    decreases s.len(),
{
    if s.len() == 0 {
        -1
    } else if s.last() == 46u8 {
        s.len() - 1
    } else {
        last_dot(s.drop_last())
    }
}

/// The text after the last `.` of the file name, as `Path::extension` reads it: nothing
/// when the name has no `.` or its only `.` leads the name.
pub open spec fn extension_of(p: Seq<u8>) -> Option<Seq<u8>> {
    match file_name_of(p) {
        Some(name) => if last_dot(name) <= 0 {
            None
        } else {
            Some(name.subrange(last_dot(name) + 1, name.len() as int))
        },
        None => None,
    }
}

pub open spec fn range_bytes(p: Seq<u8>, r: Option<(usize, usize)>) -> Option<Seq<u8>> {
    match r {
        Some((a, b)) => Some(p.subrange(a as int, b as int)),
        None => None,
    }
}

pub open spec fn range_in(p: Seq<u8>, r: Option<(usize, usize)>) -> bool {
    r matches Some((a, b)) ==> a <= b <= p.len()
}

fn last_named_range(p: &[u8]) -> (r: Option<(usize, usize)>)
    ensures
        range_in(p@, r),
        range_bytes(p@, r) == last_named(path_segments(p@)),
{
    let mut best: Option<(usize, usize)> = None;
    let mut start: usize = 0;
    let mut i: usize = 0;
    assert(p@.take(0) =~= Seq::<u8>::empty());
    assert(p@.subrange(0, 0) =~= Seq::<u8>::empty());
    while i < p.len()
        invariant
            start <= i <= p@.len(),
            split_state(p@.take(i as int)).1 == p@.subrange(start as int, i as int),
            range_in(p@, best),
            range_bytes(p@, best) == last_named(split_state(p@.take(i as int)).0),
        decreases p@.len() - i,
    {
        let ghost before = split_state(p@.take(i as int));
        assert(p@.take(i + 1).drop_last() =~= p@.take(i as int));
        if p[i] == 47u8 {
            if start < i {
                let ghost current = p@.subrange(start as int, i as int);
                assert(before.0.push(current).drop_last() =~= before.0);
                let is_dot = i - start == 1 && p[start] == 46u8;
                proof {
                    if current.len() == 1 && current[0] == 46u8 {
                        assert(current =~= seq![46u8]);
                    }
                }
                if !is_dot {
                    best = Some((start, i));
                }
            }
            start = i + 1;
            assert(p@.subrange(start as int, (i + 1) as int) =~= Seq::<u8>::empty());
        } else {
            assert(p@.subrange(start as int, (i + 1) as int) =~= p@.subrange(
                start as int,
                i as int,
            ).push(p@[i as int]));
        }
        i = i + 1;
    }
    assert(p@.take(p@.len() as int) =~= p@);
    let ghost last = split_state(p@);
    if start < p.len() {
        let ghost current = p@.subrange(start as int, p@.len() as int);
        assert(last.0.push(current).drop_last() =~= last.0);
        let is_dot = p.len() - start == 1 && p[start] == 46u8;
        proof {
            if current.len() == 1 && current[0] == 46u8 {
                assert(current =~= seq![46u8]);
            }
        }
        if !is_dot {
            best = Some((start, p.len()));
        }
    }
    best
}

/// The byte range of the file name of `p` (see `file_name_of`).
pub fn file_name_range(p: &[u8]) -> (r: Option<(usize, usize)>)
    ensures
        range_in(p@, r),
        range_bytes(p@, r) == file_name_of(p@),
{
    match last_named_range(p) {
        Some((a, b)) => {
            let dot_dot = b - a == 2 && p[a] == 46u8 && p[a + 1] == 46u8;
            proof {
                let name = p@.subrange(a as int, b as int);
                if name.len() == 2 && name[0] == 46u8 && name[1] == 46u8 {
                    assert(name =~= seq![46u8, 46u8]);
                }
            }
            if dot_dot {
                None
            } else {
                Some((a, b))
            }
        },
        None => None,
    }
}

proof fn lemma_last_dot(s: Seq<u8>, k: int)
    requires
        -1 <= k < s.len(),
        k >= 0 ==> s[k] == 46u8,
        forall|j: int| k < j < s.len() ==> s[j] != 46u8,
    ensures
        last_dot(s) == k,
    decreases s.len(),
{
    if s.len() > 0 && s.last() != 46u8 {
        lemma_last_dot(s.drop_last(), k);
    }
}

/// The byte range of the extension of `p` (see `extension_of`).
pub fn extension_range(p: &[u8]) -> (r: Option<(usize, usize)>)
    ensures
        range_in(p@, r),
        range_bytes(p@, r) == extension_of(p@),
{
    match file_name_range(p) {
        Some((a, b)) => {
            let ghost name = p@.subrange(a as int, b as int);
            let mut j: usize = b;
            while j > a
                invariant
                    a <= j <= b <= p@.len(),
                    name == p@.subrange(a as int, b as int),
                    file_name_of(p@) == Some(name),
                    forall|m: int| j <= m < b ==> p@[m] != 46u8,
                decreases j - a,
            {
                if p[j - 1] == 46u8 {
                    proof {
                        assert forall|m: int| (j - 1 - a) < m < name.len() implies name[m] != 46u8 by {
                            assert(name[m] == p@[a + m]);
                        }
                        lemma_last_dot(name, (j - 1 - a) as int);
                    }
                    if j - 1 == a {
                        return None;
                    }
                    assert(name.subrange(j - a, name.len() as int) =~= p@.subrange(
                        j as int,
                        b as int,
                    ));
                    return Some((j, b));
                }
                j = j - 1;
            }
            proof {
                assert forall|m: int| -1 < m < name.len() implies name[m] != 46u8 by {
                    assert(name[m] == p@[a + m]);
                }
                lemma_last_dot(name, -1);
            }
            None
        },
        None => None,
    }
}

/// `OsStr::to_str` of a piece of a path: the piece as text when it is valid UTF-8.
fn range_str(p: &[u8], r: Option<(usize, usize)>) -> (s: Option<&str>)
    requires
        range_in(p@, r),
    ensures
        match range_bytes(p@, r) {
            Some(bytes) => (s is Some <==> valid_utf8(bytes)) && (s matches Some(t)
                ==> t.spec_bytes() == bytes),
            None => s is None,
        },
{
    match r {
        Some((a, b)) => utf8_str(&p[a..b]),
        None => None,
    }
}

/// `Path::file_name` followed by `to_str`.
pub fn file_name_str(p: &[u8]) -> (s: Option<&str>)
    ensures
        match file_name_of(p@) {
            Some(name) => (s is Some <==> valid_utf8(name)) && (s matches Some(t)
                ==> t.spec_bytes() == name),
            None => s is None,
        },
{
    range_str(p, file_name_range(p))
}

/// `Path::extension` followed by `to_str`.
pub fn extension_str(p: &[u8]) -> (s: Option<&str>)
    ensures
        match extension_of(p@) {
            Some(ext) => (s is Some <==> valid_utf8(ext)) && (s matches Some(t)
                ==> t.spec_bytes() == ext),
            None => s is None,
        },
{
    range_str(p, extension_range(p))
}

/// Whether the entry key `path` lies at or below the entry key `root`: the keys are equal,
/// or `path` continues `root` with a slash (component-wise, so `/a/bc` is not below `/a/b`).
pub open spec fn is_within(root: Seq<u8>, path: Seq<u8>) -> bool {
    path == root || (path.len() > root.len() && path.subrange(0, root.len() as int) == root && ((
    root.len() > 0 && root.last() == 47u8) || path[root.len() as int] == 47u8))
}

/// Whether the path bytes `path` lie at or below the path bytes `root` (see `is_within`).
pub fn bytes_within(root_bytes: &[u8], path_bytes: &[u8]) -> (r: bool)
    ensures
        r == is_within(root_bytes@, path_bytes@),
{
    let n = root_bytes.len();
    if path_bytes.len() < n {
        proof {
            if path_bytes@ == root_bytes@ {
                assert(path_bytes@.len() == root_bytes@.len());
            }
        }
        return false;
    }
    let mut i: usize = 0;
    while i < n
        invariant
            i <= n == root_bytes@.len() <= path_bytes@.len(),
            forall|j: int| 0 <= j < i ==> path_bytes@[j] == root_bytes@[j],
        decreases n - i,
    {
        if path_bytes[i] != root_bytes[i] {
            proof {
                assert(path_bytes@.subrange(0, n as int)[i as int] != root_bytes@[i as int]);
                assert(path_bytes@.subrange(0, n as int) != root_bytes@);
                if path_bytes@ == root_bytes@ {
                    assert(path_bytes@[i as int] == root_bytes@[i as int]);
                }
            }
            return false;
        }
        i = i + 1;
    }
    assert(path_bytes@.subrange(0, n as int) =~= root_bytes@);
    if path_bytes.len() == n {
        assert(path_bytes@ =~= root_bytes@);
        return true;
    }
    (n > 0 && root_bytes[n - 1] == 47u8) || path_bytes[n] == 47u8
}

/// Whether the entry key `path` lies at or below the entry key `root` (see `is_within`).
pub fn path_is_within(root: &str, path: &str) -> (r: bool)
    ensures
        r == is_within(root.spec_bytes(), path.spec_bytes()),
{
    bytes_within(root.as_bytes(), path.as_bytes())
}

/// The segments of `p`, in order (see `path_segments`).
fn split_path(p: &[u8]) -> (segments: Vec<Vec<u8>>)
    ensures
        byte_views(segments@) == path_segments(p@),
{
    let mut segments: Vec<Vec<u8>> = Vec::new();
    let mut current: Vec<u8> = Vec::new();
    let mut i: usize = 0;
    assert(p@.take(0) =~= Seq::<u8>::empty());
    assert(byte_views(segments@) =~= Seq::<Seq<u8>>::empty());
    while i < p.len()
        invariant
            i <= p@.len(),
            current@ == split_state(p@.take(i as int)).1,
            byte_views(segments@) == split_state(p@.take(i as int)).0,
        decreases p@.len() - i,
    {
        assert(p@.take(i + 1).drop_last() =~= p@.take(i as int));
        let byte = p[i];
        if byte == 47u8 {
            if current.len() > 0 {
                let segment = current;
                current = Vec::new();
                proof {
                    lemma_byte_views_push(segments@, segment);
                }
                segments.push(segment);
            } else {
                current = Vec::new();
            }
        } else {
            current.push(byte);
        }
        i = i + 1;
    }
    assert(p@.take(p@.len() as int) =~= p@);
    if current.len() > 0 {
        proof {
            lemma_byte_views_push(segments@, current);
        }
        segments.push(current);
    }
    segments
}

/// The key of the parent of `p`: `p` without its last segment, or nothing for a path
/// without segments.
pub fn parent_bytes(p: &[u8]) -> (parent: Option<Vec<u8>>)
    ensures
        path_segments(p@).len() == 0 <==> parent is None,
        parent matches Some(q) ==> q@ == render_key(is_rooted(p@), path_segments(p@).drop_last()),
{
    let mut segments = split_path(p);
    if segments.len() == 0 {
        return None;
    }
    proof {
        lemma_byte_views_drop_last(segments@);
    }
    segments.pop();
    let rooted = p.len() > 0 && p[0] == 47u8;
    Some(render_into(rooted, &segments))
}


/// A watched root, resolved through the filesystem once and then kept as its entry key;
/// the entry may later disappear.
#[derive(Debug, PartialEq, Eq, Hash)]
pub struct CanonPath {
    path: String,
}

impl Clone for CanonPath {
    fn clone(&self) -> (copy: CanonPath)
        ensures
            copy@ == self@,
    {
        proof {
            use_type_invariant(self);
        }
        CanonPath { path: self.path.clone() }
    }
}

impl View for CanonPath {
    type V = Seq<char>;

    closed spec fn view(&self) -> Seq<char> {
        self.path@
    }
}

impl CanonPath {
    /// A watched root always holds a UTF-8 entry key.
    #[verifier::type_invariant]
    closed spec fn holds_entry_key(self) -> bool {
        is_entry_key(encode_utf8(self.path@))
    }

    /// The entry key of a path that the filesystem has already canonicalized
    /// (`current_dir` is read only when that path is relative).
    pub fn from_canonical(canonical: &[u8], current_dir: &[u8]) -> (result: Result<
        CanonPath,
        IndexedPathError,
    >)
        ensures
            canonical@.len() == 0 ==> result == Err::<CanonPath, _>(IndexedPathError::Empty),
            canonical@.len() > 0 && !valid_utf8(canonical@) ==> result == Err::<CanonPath, _>(
                IndexedPathError::NotUtf8,
            ),
            canonical@.len() > 0 && valid_utf8(canonical@) && !valid_utf8(
                normalized_key(canonical@, current_dir@),
            ) ==> result == Err::<CanonPath, _>(IndexedPathError::NotUtf8),
            canonical@.len() > 0 && valid_utf8(canonical@) && valid_utf8(
                normalized_key(canonical@, current_dir@),
            ) ==> result is Ok && encode_utf8(result->Ok_0@) == normalized_key(
                canonical@,
                current_dir@,
            ),
            result matches Ok(root) ==> is_entry_key(encode_utf8(root@)),
    {
        match indexed_path(canonical, current_dir) {
            Ok(path) => Ok(CanonPath { path }),
            Err(e) => Err(e),
        }
    }

    /// The key as text; always present, since keys are UTF-8.
    pub fn as_str(&self) -> (s: Option<&str>)
        ensures
            s is Some,
            s matches Some(t) ==> t@ == self@ && is_entry_key(encode_utf8(t@)),
    {
        proof {
            use_type_invariant(self);
        }
        Some(self.path.as_str())
    }
}

proof fn lemma_split_state_append(q: Seq<u8>, x: Seq<u8>)
    requires
        !x.contains(47u8),
    ensures
        split_state(q + x) == (split_state(q).0, split_state(q).1 + x),
    decreases x.len(),
{
    if x.len() == 0 {
        assert(q + x =~= q);
        assert(split_state(q).1 + x =~= split_state(q).1);
    } else {
        let y = x.drop_last();
        assert(!y.contains(47u8)) by {
            if y.contains(47u8) {
                let j = choose|j: int| 0 <= j < y.len() && y[j] == 47u8;
                assert(x[j] == 47u8);
            }
        }
        assert(x[x.len() - 1] != 47u8) by {
            if x[x.len() - 1] == 47u8 {
                assert(x.contains(47u8));
            }
        }
        lemma_split_state_append(q, y);
        assert((q + x).drop_last() =~= q + y);
        assert(split_state(q).1 + x =~= (split_state(q).1 + y).push(x.last()));
    }
}

/// Every segment of a resolved stack names a child.
pub open spec fn all_normal(segments: Seq<Seq<u8>>) -> bool {
    forall|k: int| 0 <= k < segments.len() ==> is_normal_segment(#[trigger] segments[k])
}

/// Every segment is non-empty and holds no slash.
pub open spec fn all_unsplit(segments: Seq<Seq<u8>>) -> bool {
    forall|k: int|
        0 <= k < segments.len() ==> (#[trigger] segments[k]).len() > 0 && !segments[k].contains(
            47u8,
        )
}

proof fn lemma_split_state_unsplit(p: Seq<u8>)
    ensures
        all_unsplit(split_state(p).0),
        !split_state(p).1.contains(47u8),
        all_unsplit(path_segments(p)),
    decreases p.len(),
{
    if p.len() > 0 {
        lemma_split_state_unsplit(p.drop_last());
        let previous = split_state(p.drop_last());
        if p.last() != 47u8 {
            assert(!previous.1.push(p.last()).contains(47u8)) by {
                if previous.1.push(p.last()).contains(47u8) {
                    let j = choose|j: int|
                        0 <= j < previous.1.push(p.last()).len() && previous.1.push(p.last())[j]
                            == 47u8;
                    if j < previous.1.len() {
                        assert(previous.1.contains(47u8));
                    }
                }
            }
        }
    }
    let state = split_state(p);
    assert(all_unsplit(push_segment(state.0, state.1)));
}

proof fn lemma_resolve_normal(stack: Seq<Seq<u8>>, segments: Seq<Seq<u8>>)
    requires
        all_normal(stack),
        all_unsplit(segments),
    ensures
        all_normal(resolve_segments(stack, segments)),
    decreases segments.len(),
{
    if segments.len() > 0 {
        assert(all_unsplit(segments.drop_last())) by {
            assert forall|k: int| 0 <= k < segments.drop_last().len() implies (
            #[trigger] segments.drop_last()[k]).len() > 0 && !segments.drop_last()[k].contains(
                47u8,
            ) by {
                assert(segments.drop_last()[k] == segments[k]);
            }
        }
        lemma_resolve_normal(stack, segments.drop_last());
        let r = resolve_segments(stack, segments.drop_last());
        let last = segments.last();
        assert(segments[segments.len() - 1] == last);
        let next = resolve_segment(r, last);
        assert forall|k: int| 0 <= k < next.len() implies is_normal_segment(#[trigger] next[k]) by {
            if !is_dot_segment(last) && !is_dot_dot_segment(last) && k == r.len() {
                assert(next[k] == last);
            } else {
                assert(next[k] == r[k]);
            }
        }
    }
}

proof fn lemma_resolve_normal_is_append(stack: Seq<Seq<u8>>, segments: Seq<Seq<u8>>)
    requires
        all_normal(segments),
    ensures
        resolve_segments(stack, segments) == stack + segments,
    decreases segments.len(),
{
    if segments.len() == 0 {
        assert(stack + segments =~= stack);
    } else {
        assert(all_normal(segments.drop_last())) by {
            assert forall|k: int| 0 <= k < segments.drop_last().len() implies is_normal_segment(
                #[trigger] segments.drop_last()[k],
            ) by {
                assert(segments.drop_last()[k] == segments[k]);
            }
        }
        lemma_resolve_normal_is_append(stack, segments.drop_last());
        assert(is_normal_segment(segments[segments.len() - 1]));
        assert((stack + segments.drop_last()).push(segments.last()) =~= stack + segments);
    }
}

proof fn lemma_segments_of_rendered(segments: Seq<Seq<u8>>)
    requires
        all_normal(segments),
    ensures
        path_segments(render_key(true, segments)) == segments,
        segments.len() > 0 ==> split_state(render_key(true, segments)) == (
            segments.drop_last(),
            segments.last(),
        ),
    decreases segments.len(),
{
    let slash = seq![47u8];
    assert(slash.drop_last() =~= Seq::<u8>::empty());
    assert(split_state(Seq::<u8>::empty()) == (Seq::<Seq<u8>>::empty(), Seq::<u8>::empty()));
    assert(slash.last() == 47u8);
    assert(push_segment(Seq::<Seq<u8>>::empty(), Seq::<u8>::empty()) == Seq::<Seq<u8>>::empty());
    assert(split_state(slash) == (Seq::<Seq<u8>>::empty(), Seq::<u8>::empty()));
    if segments.len() == 0 {
        assert(render_key(true, segments) =~= slash);
        assert(path_segments(slash) == Seq::<Seq<u8>>::empty());
        assert(segments =~= Seq::<Seq<u8>>::empty());
    } else {
        let x = segments.last();
        assert(is_normal_segment(segments[segments.len() - 1]));
        if segments.len() == 1 {
            assert(render_key(true, segments) =~= slash + x);
            lemma_split_state_append(slash, x);
            assert(Seq::<u8>::empty() + x =~= x);
            assert(segments.drop_last() =~= Seq::<Seq<u8>>::empty());
            assert(segments =~= seq![x]);
        } else {
            let t = segments.drop_last();
            assert(all_normal(t)) by {
                assert forall|k: int| 0 <= k < t.len() implies is_normal_segment(#[trigger] t[k]) by {
                    assert(t[k] == segments[k]);
                }
            }
            lemma_segments_of_rendered(t);
            let q = render_key(true, t);
            assert(render_key(true, segments) =~= q.push(47u8) + x);
            assert(q.push(47u8).drop_last() =~= q);
            assert(t[t.len() - 1] == t.last());
            assert(is_normal_segment(t[t.len() - 1]));
            assert(t.drop_last().push(t.last()) =~= t);
            assert(split_state(q.push(47u8)) == (t, Seq::<u8>::empty()));
            lemma_split_state_append(q.push(47u8), x);
            assert(Seq::<u8>::empty() + x =~= x);
        }
        assert(segments.drop_last().push(x) =~= segments);
    }
}

proof fn lemma_rooted_key_normal(path: Seq<u8>, current_dir: Seq<u8>)
    ensures
        all_normal(
            if is_rooted(path) {
                resolve_segments(Seq::empty(), path_segments(path))
            } else {
                resolve_segments(
                    resolve_segments(Seq::empty(), path_segments(current_dir)),
                    path_segments(path),
                )
            },
        ),
{
    lemma_split_state_unsplit(path);
    lemma_split_state_unsplit(current_dir);
    lemma_resolve_normal(Seq::empty(), path_segments(path));
    lemma_resolve_normal(Seq::empty(), path_segments(current_dir));
    lemma_resolve_normal(
        resolve_segments(Seq::empty(), path_segments(current_dir)),
        path_segments(path),
    );
}

/// Entry keys are fixed points: every entry key is rooted, the key of a key is that
/// key whatever the current directory, and it holds no `.`, `..` or empty component.
pub proof fn lemma_entry_key_is_fixed_point(
    path: Seq<u8>,
    current_dir: Seq<u8>,
    other_dir: Seq<u8>,
)
    ensures
        is_rooted(normalized_key(path, current_dir)),
        normalized_key(normalized_key(path, current_dir), other_dir) == normalized_key(
            path,
            current_dir,
        ),
        all_normal(path_segments(normalized_key(path, current_dir))),
{
    lemma_rooted_key_normal(path, current_dir);
    let resolved = if is_rooted(path) {
        resolve_segments(Seq::empty(), path_segments(path))
    } else {
        resolve_segments(
            resolve_segments(Seq::empty(), path_segments(current_dir)),
            path_segments(path),
        )
    };
    let key = normalized_key(path, current_dir);
    assert(key == render_key(true, resolved));
    assert(key[0] == 47u8);
    lemma_segments_of_rendered(resolved);
    lemma_resolve_normal_is_append(Seq::empty(), resolved);
    assert(Seq::<Seq<u8>>::empty() + resolved =~= resolved);
}

/// Every entry key that normalization produces is an entry key.
pub proof fn lemma_key_is_entry_key(path: Seq<u8>, current_dir: Seq<u8>)
    ensures
        is_entry_key(normalized_key(path, current_dir)),
{
    let key = normalized_key(path, current_dir);
    assert forall|dir: Seq<u8>| #[trigger] normalized_key(key, dir) == key by {
        lemma_entry_key_is_fixed_point(path, current_dir, dir);
    }
    lemma_entry_key_is_fixed_point(path, current_dir, Seq::empty());
}

/// An absolute path has the same entry key whatever the current directory.
pub proof fn lemma_absolute_key_ignores_current_dir(
    path: Seq<u8>,
    current_dir: Seq<u8>,
    other_dir: Seq<u8>,
)
    requires
        is_rooted(path),
    ensures
        normalized_key(path, current_dir) == normalized_key(path, other_dir),
{
}

/// What follows a slash in UTF-8 text is UTF-8 text.
pub proof fn lemma_utf8_after_slash(s: Seq<u8>, k: int)
    requires
        valid_utf8(s),
        1 <= k <= s.len(),
        s[k - 1] == 47u8,
    ensures
        valid_utf8(s.skip(k)),
{
    let i = k - 1;
    is_char_boundary_iff_not_is_continuation_byte(s, i);
    valid_utf8_split(s, i);
    let t = s.subrange(i, s.len() as int);
    assert(t[0] == 47u8);
    assert(pop_first_scalar(t) =~= s.skip(k));
}

/// Whether `seg` is the run of `p` from `a` to `b`, which starts at the beginning or
/// after a slash and ends at the end or before a slash.
pub open spec fn is_slash_bounded(p: Seq<u8>, seg: Seq<u8>, a: int, b: int) -> bool {
    &&& 0 <= a <= b <= p.len()
    &&& seg == p.subrange(a, b)
    &&& (a == 0 || p[a - 1] == 47u8)
    &&& (b == p.len() || p[b] == 47u8)
}

/// A run of UTF-8 text between slashes is UTF-8 text.
proof fn lemma_slash_bounded_utf8(p: Seq<u8>, seg: Seq<u8>, a: int, b: int)
    requires
        valid_utf8(p),
        is_slash_bounded(p, seg, a, b),
    ensures
        valid_utf8(seg),
{
    let u = p.skip(a);
    if a == 0 {
        assert(u =~= p);
    } else {
        lemma_utf8_after_slash(p, a);
    }
    if b == p.len() {
        assert(seg =~= u);
    } else {
        let j = b - a;
        assert(u[j] == 47u8);
        is_char_boundary_iff_not_is_continuation_byte(u, j);
        valid_utf8_split(u, j);
        assert(u.subrange(0, j) =~= seg);
    }
}

/// Whether `seg` is a run of `p` between slashes that ends before a slash.
pub open spec fn slash_terminated(p: Seq<u8>, seg: Seq<u8>) -> bool {
    exists|a: int, b: int| b < p.len() && is_slash_bounded(p, seg, a, b)
}

/// Whether `seg` is the run of `p` after its last slash.
pub open spec fn trailing_run(p: Seq<u8>, seg: Seq<u8>) -> bool {
    exists|c: int| is_slash_bounded(p, seg, c, p.len() as int)
}

proof fn lemma_split_state_bounded(q: Seq<u8>)
    ensures
        forall|k: int|
            0 <= k < split_state(q).0.len() ==> slash_terminated(q, #[trigger] split_state(q).0[k]),
        trailing_run(q, split_state(q).1),
    decreases q.len(),
{
    if q.len() == 0 {
        assert(q.subrange(0, 0) =~= split_state(q).1);
        assert(is_slash_bounded(q, split_state(q).1, 0, 0));
    } else {
        let r = q.drop_last();
        lemma_split_state_bounded(r);
        let previous = split_state(r);
        assert(trailing_run(r, previous.1));
        let c = choose|c: int| is_slash_bounded(r, previous.1, c, r.len() as int);
        assert forall|k: int| 0 <= k < previous.0.len() implies slash_terminated(
            q,
            #[trigger] previous.0[k],
        ) by {
            assert(slash_terminated(r, previous.0[k]));
            let (a, b) = choose|a: int, b: int|
                b < r.len() && is_slash_bounded(r, previous.0[k], a, b);
            assert(q.subrange(a, b) =~= r.subrange(a, b));
            assert(is_slash_bounded(q, previous.0[k], a, b));
        }
        if q.last() == 47u8 {
            let next = push_segment(previous.0, previous.1);
            assert(q.subrange(c, r.len() as int) =~= r.subrange(c, r.len() as int));
            assert forall|k: int| 0 <= k < next.len() implies slash_terminated(
                q,
                #[trigger] next[k],
            ) by {
                if k < previous.0.len() {
                    assert(next[k] == previous.0[k]);
                } else {
                    assert(next[k] == previous.1);
                    assert(is_slash_bounded(q, next[k], c, r.len() as int));
                }
            }
            assert(split_state(q).0 == next);
            assert(q.subrange(q.len() as int, q.len() as int) =~= split_state(q).1);
            assert(is_slash_bounded(q, split_state(q).1, q.len() as int, q.len() as int));
        } else {
            assert(split_state(q).0 == previous.0);
            assert(q.subrange(c, q.len() as int) =~= previous.1.push(q.last()));
            assert(is_slash_bounded(q, split_state(q).1, c, q.len() as int));
        }
    }
}

/// Whether every segment is UTF-8 text.
pub open spec fn all_utf8(segments: Seq<Seq<u8>>) -> bool {
    forall|k: int| 0 <= k < segments.len() ==> valid_utf8(#[trigger] segments[k])
}

proof fn lemma_segments_utf8(p: Seq<u8>)
    requires
        valid_utf8(p),
    ensures
        all_utf8(path_segments(p)),
{
    lemma_split_state_bounded(p);
    let state = split_state(p);
    let segments = path_segments(p);
    assert forall|k: int| 0 <= k < segments.len() implies valid_utf8(#[trigger] segments[k]) by {
        if k < state.0.len() {
            assert(segments[k] == state.0[k]);
            assert(slash_terminated(p, state.0[k]));
            let (a, b) = choose|a: int, b: int| b < p.len() && is_slash_bounded(p, state.0[k], a, b);
            lemma_slash_bounded_utf8(p, state.0[k], a, b);
        } else {
            assert(segments[k] == state.1);
            let c = choose|c: int| is_slash_bounded(p, state.1, c, p.len() as int);
            lemma_slash_bounded_utf8(p, state.1, c, p.len() as int);
        }
    }
}

proof fn lemma_resolve_utf8(stack: Seq<Seq<u8>>, segments: Seq<Seq<u8>>)
    requires
        all_utf8(stack),
        all_utf8(segments),
    ensures
        all_utf8(resolve_segments(stack, segments)),
    decreases segments.len(),
{
    if segments.len() > 0 {
        assert(all_utf8(segments.drop_last())) by {
            assert forall|k: int| 0 <= k < segments.drop_last().len() implies valid_utf8(
                #[trigger] segments.drop_last()[k],
            ) by {
                assert(segments.drop_last()[k] == segments[k]);
            }
        }
        lemma_resolve_utf8(stack, segments.drop_last());
        let r = resolve_segments(stack, segments.drop_last());
        let last = segments.last();
        assert(valid_utf8(segments[segments.len() - 1]));
        let next = resolve_segment(r, last);
        assert forall|k: int| 0 <= k < next.len() implies valid_utf8(#[trigger] next[k]) by {
            if !is_dot_segment(last) && !is_dot_dot_segment(last) && k == r.len() {
                assert(next[k] == last);
            } else {
                assert(next[k] == r[k]);
            }
        }
    }
}

proof fn lemma_slash_utf8()
    ensures
        valid_utf8(seq![47u8]),
{
    let slash = seq![47u8];
    reveal_with_fuel(valid_utf8, 2);
    assert(pop_first_scalar(slash) =~= Seq::<u8>::empty());
}

proof fn lemma_join_utf8(segments: Seq<Seq<u8>>)
    requires
        all_utf8(segments),
    ensures
        valid_utf8(join_segments(segments)),
    decreases segments.len(),
{
    if segments.len() == 1 {
        assert(valid_utf8(segments[0]));
    } else if segments.len() > 1 {
        assert(all_utf8(segments.drop_last())) by {
            assert forall|k: int| 0 <= k < segments.drop_last().len() implies valid_utf8(
                #[trigger] segments.drop_last()[k],
            ) by {
                assert(segments.drop_last()[k] == segments[k]);
            }
        }
        lemma_join_utf8(segments.drop_last());
        lemma_slash_utf8();
        assert(valid_utf8(segments[segments.len() - 1]));
        valid_utf8_concat(join_segments(segments.drop_last()), seq![47u8]);
        valid_utf8_concat(join_segments(segments.drop_last()) + seq![47u8], segments.last());
    }
}

/// The entry key of a UTF-8 path is UTF-8 text; for a relative path the current
/// directory must be UTF-8 too.
pub proof fn lemma_entry_keys_of_utf8_paths_are_utf8(path: Seq<u8>, current_dir: Seq<u8>)
    requires
        valid_utf8(path),
        is_rooted(path) || valid_utf8(current_dir),
    ensures
        valid_utf8(normalized_key(path, current_dir)),
{
    lemma_segments_utf8(path);
    let resolved = if is_rooted(path) {
        lemma_resolve_utf8(Seq::empty(), path_segments(path));
        resolve_segments(Seq::empty(), path_segments(path))
    } else {
        lemma_segments_utf8(current_dir);
        lemma_resolve_utf8(Seq::empty(), path_segments(current_dir));
        lemma_resolve_utf8(
            resolve_segments(Seq::empty(), path_segments(current_dir)),
            path_segments(path),
        );
        resolve_segments(
            resolve_segments(Seq::empty(), path_segments(current_dir)),
            path_segments(path),
        )
    };
    lemma_join_utf8(resolved);
    lemma_slash_utf8();
    valid_utf8_concat(seq![47u8], join_segments(resolved));
}
/// The key of the parent of a UTF-8 path is UTF-8 text.
pub proof fn lemma_parent_key_utf8(p: Seq<u8>)
    requires
        valid_utf8(p),
        path_segments(p).len() > 0,
    ensures
        valid_utf8(render_key(is_rooted(p), path_segments(p).drop_last())),
{
    lemma_segments_utf8(p);
    let segments = path_segments(p).drop_last();
    assert forall|k: int| 0 <= k < segments.len() implies valid_utf8(#[trigger] segments[k]) by {
        assert(segments[k] == path_segments(p)[k]);
    }
    lemma_join_utf8(segments);
    lemma_slash_utf8();
    valid_utf8_concat(seq![47u8], join_segments(segments));
}
} // verus!
