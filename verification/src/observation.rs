//! Observing a file's content digest while guarding against the file changing
//! under the reader: the reads themselves are done by the caller, chunk by
//! chunk, and every decision about them is made here.
use vstd::prelude::*;

use crate::identity::ContentDigest;

verus! {

#[verifier::external_type_specification]
#[verifier::external_body]
pub struct ExHasher(blake3::Hasher);

/// The bytes that a BLAKE3 hasher has absorbed so far, in order.
pub uninterp spec fn hasher_input(hasher: blake3::Hasher) -> Seq<u8>;

/// The BLAKE3 hash of a byte sequence.
pub uninterp spec fn blake3_digest(input: Seq<u8>) -> Seq<u8>;

/// `blake3::Hasher::new`: a hasher that has absorbed nothing.
#[verifier::external_body]
fn hasher_new() -> (hasher: blake3::Hasher)
    ensures
        hasher_input(hasher) == Seq::<u8>::empty(),
{
    blake3::Hasher::new()
}

/// `blake3::Hasher::update`: the hasher absorbs `input` after what it already holds.
#[verifier::external_body]
fn hasher_update(hasher: &mut blake3::Hasher, input: &[u8])
    ensures
        hasher_input(*final(hasher)) == hasher_input(*old(hasher)) + input@,
{
    hasher.update(input);
}

/// `blake3::Hasher::finalize`: the BLAKE3 hash of everything absorbed.
#[verifier::external_body]
fn hasher_finalize(hasher: &blake3::Hasher) -> (hash: [u8; 32])
    ensures
        hash@ == blake3_digest(hasher_input(*hasher)),
{
    hasher.finalize().into()
}

/// A file's modification time, as seconds and nanoseconds relative to the Unix epoch.
#[derive(Clone, Copy, Debug, PartialEq, Eq, Structural)]
pub struct ModifiedTime {
    pub seconds: i64,
    pub nanos: u32,
}

/// The metadata of a regular file that must not change while its digest is read.
#[derive(Clone, Copy, Debug, PartialEq, Eq, Structural)]
pub struct MetadataSnapshot {
    pub device: u64,
    pub inode: u64,
    pub length: u64,
    pub modified: ModifiedTime,
}

/// Why a content digest could not be observed.
#[derive(Clone, Copy, Debug, PartialEq, Eq, Structural)]
pub enum ObserveError {
    /// The entry is not a regular file (a directory, a symbolic link, a socket, ...).
    NotRegularFile,
    /// The filesystem does not report a modification time.
    ModifiedTimeUnavailable,
    /// The file changed between inspecting the path and opening it.
    ChangedWhileOpening,
    /// More bytes were read than a `u64` counts.
    LengthOverflow,
    /// The number of bytes read differs from the length the file had.
    LengthChanged,
    /// The reader reported more bytes than its buffer holds.
    InvalidByteCount,
    /// The open file's metadata changed while it was read.
    ChangedWhileReading,
    /// The path names another file after the read.
    PathReplaced,
}

/// The snapshot of observed metadata, which must describe a regular file with a
/// modification time.
pub fn snapshot(
    is_file: bool,
    device: u64,
    inode: u64,
    length: u64,
    modified: Option<ModifiedTime>,
) -> (result: Result<MetadataSnapshot, ObserveError>)
    ensures
        !is_file ==> result == Err::<MetadataSnapshot, _>(ObserveError::NotRegularFile),
        is_file && modified is None ==> result == Err::<MetadataSnapshot, _>(
            ObserveError::ModifiedTimeUnavailable,
        ),
        is_file && modified is Some ==> result == Ok::<_, ObserveError>(
            MetadataSnapshot { device, inode, length, modified: modified->0 },
        ),
{
    if !is_file {
        return Err(ObserveError::NotRegularFile);
    }
    match modified {
        Some(modified) => Ok(MetadataSnapshot { device, inode, length, modified }),
        None => Err(ObserveError::ModifiedTimeUnavailable),
    }
}

/// A content digest being read: the snapshot taken before opening, the bytes
/// absorbed so far, and the hasher holding them.
pub struct ContentObservation {
    initial: MetadataSnapshot,
    bytes_read: u64,
    hasher: blake3::Hasher,
    read: Ghost<Seq<u8>>,
}

impl ContentObservation {
    /// The snapshot taken before the file was opened.
    pub closed spec fn initial(&self) -> MetadataSnapshot {
        self.initial
    }

    /// The bytes absorbed so far, in order.
    pub closed spec fn absorbed(&self) -> Seq<u8> {
        self.read@
    }

    pub closed spec fn wf(&self) -> bool {
        &&& hasher_input(self.hasher) == self.read@
        &&& self.read@.len() == self.bytes_read
        &&& self.bytes_read <= self.initial.length
    }

    /// Starts reading once the snapshot of the opened file equals the one taken
    /// from its path before opening.
    pub fn start(initial: MetadataSnapshot, opened: MetadataSnapshot) -> (result: Result<
        ContentObservation,
        ObserveError,
    >)
        ensures
            initial != opened ==> result is Err && result->Err_0 == ObserveError::ChangedWhileOpening,
            initial == opened ==> result is Ok && result->Ok_0.wf() && result->Ok_0.initial()
                == initial && result->Ok_0.absorbed() == Seq::<u8>::empty(),
    {
        if initial != opened {
            return Err(ObserveError::ChangedWhileOpening);
        }
        Ok(ContentObservation {
            initial,
            bytes_read: 0,
            hasher: hasher_new(),
            read: Ghost(Seq::empty()),
        })
    }

    /// Absorbs the first `count` bytes of `buffer`, the result of one read.
    /// Returns `Ok(false)` at the end of the file (`count == 0`) and `Ok(true)` when
    /// reading goes on.
    pub fn absorb(&mut self, buffer: &[u8], count: usize) -> (result: Result<bool, ObserveError>)
        requires
            old(self).wf(),
        ensures
            final(self).wf(),
            final(self).initial() == old(self).initial(),
            count == 0 ==> result == Ok::<bool, ObserveError>(false) && final(self).absorbed()
                == old(self).absorbed(),
            count > 0 && old(self).absorbed().len() + count > u64::MAX ==> result == Err::<
                bool,
                _,
            >(ObserveError::LengthOverflow),
            count > 0 && old(self).absorbed().len() + count <= u64::MAX && old(self).absorbed().len()
                + count > old(self).initial().length ==> result == Err::<bool, _>(
                ObserveError::LengthChanged,
            ),
            count > 0 && old(self).absorbed().len() + count <= old(self).initial().length
                && count > buffer@.len() ==> result == Err::<bool, _>(
                ObserveError::InvalidByteCount,
            ),
            count > 0 && old(self).absorbed().len() + count <= old(self).initial().length
                && count <= buffer@.len() ==> result == Ok::<bool, ObserveError>(true)
                && final(self).absorbed() == old(self).absorbed() + buffer@.take(count as int),
    {
        if count == 0 {
            return Ok(false);
        }
        let count64 = count as u64;
        let total = match self.bytes_read.checked_add(count64) {
            Some(total) => total,
            None => {
                return Err(ObserveError::LengthOverflow);
            },
        };
        if total > self.initial.length {
            return Err(ObserveError::LengthChanged);
        }
        if count > buffer.len() {
            return Err(ObserveError::InvalidByteCount);
        }
        let chunk = &buffer[0..count];
        assert(chunk@ == buffer@.take(count as int));
        hasher_update(&mut self.hasher, chunk);
        self.bytes_read = total;
        self.read = Ghost(self.read@ + chunk@);
        Ok(true)
    }

    /// Ends the read: the file's metadata and its path must still describe the file
    /// that was opened, and exactly its length must have been read. The digest is
    /// the BLAKE3 hash of the bytes read.
    pub fn finish(self, finished: MetadataSnapshot, current: MetadataSnapshot) -> (result: Result<
        ContentDigest,
        ObserveError,
    >)
        requires
            self.wf(),
        ensures
            self.initial() != finished ==> result == Err::<ContentDigest, _>(
                ObserveError::ChangedWhileReading,
            ),
            self.initial() == finished && self.initial() != current ==> result == Err::<
                ContentDigest,
                _,
            >(ObserveError::PathReplaced),
            self.initial() == finished && self.initial() == current && self.absorbed().len()
                != self.initial().length ==> result == Err::<ContentDigest, _>(
                ObserveError::LengthChanged,
            ),
            self.initial() == finished && self.initial() == current && self.absorbed().len()
                == self.initial().length ==> result is Ok && result->Ok_0@ == blake3_digest(
                self.absorbed(),
            ),
    {
        if self.initial != finished {
            return Err(ObserveError::ChangedWhileReading);
        }
        if self.initial != current {
            return Err(ObserveError::PathReplaced);
        }
        if self.bytes_read != self.initial.length {
            return Err(ObserveError::LengthChanged);
        }
        Ok(ContentDigest::from_bytes(hasher_finalize(&self.hasher)))
    }
}


/// The bytes of successive reads, in order.
pub open spec fn joined_reads(reads: Seq<Seq<u8>>) -> Seq<u8>
    decreases reads.len(),
{
    if reads.len() == 0 {
        Seq::empty()
    } else {
        joined_reads(reads.drop_last()) + reads.last()
    }
}

proof fn lemma_joined_prefix_len(reads: Seq<Seq<u8>>, i: int)
    requires
        0 <= i <= reads.len(),
    ensures
        joined_reads(reads.take(i)).len() <= joined_reads(reads).len(),
    decreases reads.len() - i,
{
    if i < reads.len() {
        lemma_joined_prefix_len(reads, i + 1);
        assert(reads.take(i + 1).drop_last() =~= reads.take(i));
    } else {
        assert(reads.take(i) =~= reads);
    }
}

/// A whole file read in chunks: the observation starts from `initial` and `opened`,
/// absorbs every read in order (an empty read adds nothing), and finishes with `finished`
/// and `current`. When nothing changed and the reads hold exactly the file's length, the
/// digest is the BLAKE3 hash of all bytes read, however they were split.
pub fn observe_reads(
    initial: MetadataSnapshot,
    opened: MetadataSnapshot,
    reads: &Vec<Vec<u8>>,
    finished: MetadataSnapshot,
    current: MetadataSnapshot,
) -> (result: Result<ContentDigest, ObserveError>)
    ensures
        initial != opened ==> result == Err::<ContentDigest, _>(ObserveError::ChangedWhileOpening),
        initial == opened && joined_reads(reads@.map_values(|r: Vec<u8>| r@)).len()
            > initial.length ==> result == Err::<ContentDigest, _>(ObserveError::LengthChanged)
            || result == Err::<ContentDigest, _>(ObserveError::LengthOverflow),
        initial == opened && joined_reads(reads@.map_values(|r: Vec<u8>| r@)).len()
            <= initial.length && initial != finished ==> result == Err::<ContentDigest, _>(
            ObserveError::ChangedWhileReading,
        ),
        initial == opened && joined_reads(reads@.map_values(|r: Vec<u8>| r@)).len()
            <= initial.length && initial == finished && initial != current ==> result == Err::<
            ContentDigest,
            _,
        >(ObserveError::PathReplaced),
        initial == opened && joined_reads(reads@.map_values(|r: Vec<u8>| r@)).len()
            < initial.length && initial == finished && initial == current ==> result == Err::<
            ContentDigest,
            _,
        >(ObserveError::LengthChanged),
        initial == opened && joined_reads(reads@.map_values(|r: Vec<u8>| r@)).len()
            == initial.length && initial == finished && initial == current ==> result is Ok
            && result->Ok_0@ == blake3_digest(joined_reads(reads@.map_values(|r: Vec<u8>| r@))),
{
    let ghost all = reads@.map_values(|r: Vec<u8>| r@);
    let mut observation = match ContentObservation::start(initial, opened) {
        Ok(o) => o,
        Err(e) => {
            return Err(e);
        },
    };
    let mut i: usize = 0;
    assert(all.take(0) =~= Seq::<Seq<u8>>::empty());
    while i < reads.len()
        invariant
            i <= reads@.len(),
            all == reads@.map_values(|r: Vec<u8>| r@),
            initial == opened,
            observation.wf(),
            observation.initial() == initial,
            observation.absorbed() == joined_reads(all.take(i as int)),
        decreases reads@.len() - i,
    {
        let read = &reads[i];
        assert(all.take(i + 1).drop_last() =~= all.take(i as int));
        assert(all[i as int] == read@);
        assert(read@.take(read@.len() as int) =~= read@);
        match observation.absorb(read.as_slice(), read.len()) {
            Ok(_) => {},
            Err(e) => {
                proof {
                    lemma_joined_prefix_len(all, i + 1);
                }
                return Err(e);
            },
        }
        if read.len() == 0 {
            assert(joined_reads(all.take(i + 1)) =~= joined_reads(all.take(i as int)));
        }
        i = i + 1;
    }
    assert(all.take(reads@.len() as int) =~= all);
    observation.finish(finished, current)
}
} // verus!
