//! What identifies a file: its content digest, derived from its bytes alone, and the
//! filesystem object that holds it, and how both are stored in database columns.
use vstd::prelude::*;

verus! {

/// The device-and-inode pair identifying an underlying filesystem object.
/// Hard-linked file entries share it.
#[derive(Clone, Copy, Debug, PartialEq, Eq, Hash, Structural)]
pub struct FilesystemObjectId {
    pub device: u64,
    pub inode: u64,
}

/// Why a stored observation cannot be turned back into a library value.
#[derive(Clone, Copy, Debug, PartialEq, Eq, Structural)]
pub enum StoredObservationError {
    /// A stored content digest does not have exactly 32 bytes; the value is its length.
    DigestLength(usize),
    /// A stored device ID is negative.
    NegativeDevice,
    /// A stored inode is negative.
    NegativeInode,
    /// A device ID does not fit the SQLite INTEGER range.
    DeviceOutOfRange,
    /// An inode does not fit the SQLite INTEGER range.
    InodeOutOfRange,
}

/// What reading an object ID back from its signed database columns gives.
pub open spec fn stored_object_id(device_id: i64, inode: i64) -> Result<
    FilesystemObjectId,
    StoredObservationError,
> {
    if device_id < 0 {
        Err(StoredObservationError::NegativeDevice)
    } else if inode < 0 {
        Err(StoredObservationError::NegativeInode)
    } else {
        Ok(FilesystemObjectId { device: device_id as u64, inode: inode as u64 })
    }
}

/// The signed database columns that store an object ID, when they can hold it.
pub open spec fn storable_object_id(object_id: FilesystemObjectId) -> Result<
    (i64, i64),
    StoredObservationError,
> {
    if object_id.device > i64::MAX {
        Err(StoredObservationError::DeviceOutOfRange)
    } else if object_id.inode > i64::MAX {
        Err(StoredObservationError::InodeOutOfRange)
    } else {
        Ok((object_id.device as i64, object_id.inode as i64))
    }
}

/// Reads an object ID back from its signed database columns.
pub fn object_id_from_database(device_id: i64, inode: i64) -> (result: Result<
    FilesystemObjectId,
    StoredObservationError,
>)
    ensures
        result == stored_object_id(device_id, inode),
{
    if device_id < 0 {
        return Err(StoredObservationError::NegativeDevice);
    }
    if inode < 0 {
        return Err(StoredObservationError::NegativeInode);
    }
    Ok(FilesystemObjectId { device: device_id as u64, inode: inode as u64 })
}

/// Stores an object ID in signed database columns.
pub fn database_object_id(object_id: FilesystemObjectId) -> (result: Result<
    (i64, i64),
    StoredObservationError,
>)
    ensures
        result == storable_object_id(object_id),
{
    if object_id.device > i64::MAX as u64 {
        return Err(StoredObservationError::DeviceOutOfRange);
    }
    if object_id.inode > i64::MAX as u64 {
        return Err(StoredObservationError::InodeOutOfRange);
    }
    Ok((object_id.device as i64, object_id.inode as i64))
}

/// An object ID that can be stored reads back as itself.
pub proof fn lemma_object_id_round_trip(object_id: FilesystemObjectId)
    requires
        storable_object_id(object_id) is Ok,
    ensures
        stored_object_id(
            storable_object_id(object_id)->Ok_0.0,
            storable_object_id(object_id)->Ok_0.1,
        ) == Ok::<FilesystemObjectId, StoredObservationError>(object_id),
{
}

/// A value derived only from a file's bytes: their BLAKE3 hash. Equal digests
/// mark duplicate candidates, not the same file entry.
#[derive(Clone, Copy, Debug, PartialEq, Eq, Hash)]
pub struct ContentDigest([u8; 32]);

impl View for ContentDigest {
    type V = Seq<u8>;

    closed spec fn view(&self) -> Seq<u8> {
        self.0@
    }
}

impl ContentDigest {
    /// The digest with the given 32 bytes.
    pub fn from_bytes(bytes: [u8; 32]) -> (digest: ContentDigest)
        ensures
            digest@ == bytes@,
    {
        ContentDigest(bytes)
    }

    /// The 32 bytes of the digest.
    pub fn as_bytes(&self) -> (bytes: &[u8; 32])
        ensures
            bytes@ == self@,
    {
        &self.0
    }

    /// Whether two digests hold the same bytes.
    pub fn same_as(&self, other: &ContentDigest) -> (same: bool)
        ensures
            same == (self@ == other@),
    {
        let mut i: usize = 0;
        while i < 32
            invariant
                i <= 32,
                self.0@.len() == 32,
                other.0@.len() == 32,
                forall|j: int| 0 <= j < i ==> self.0@[j] == other.0@[j],
            decreases 32 - i,
        {
            if self.0[i] != other.0[i] {
                return false;
            }
            i = i + 1;
        }
        assert(self.0@ =~= other.0@);
        true
    }

    /// The bytes as stored in the database column.
    pub fn to_vec(&self) -> (bytes: Vec<u8>)
        ensures
            bytes@ == self@,
    {
        let mut out: Vec<u8> = Vec::new();
        let mut i: usize = 0;
        while i < 32
            invariant
                i <= 32,
                self.0@.len() == 32,
                out@ == self.0@.take(i as int),
            decreases 32 - i,
        {
            assert(self.0@.take(i + 1) =~= self.0@.take(i as int).push(self.0@[i as int]));
            out.push(self.0[i]);
            i = i + 1;
        }
        assert(self.0@.take(32) =~= self.0@);
        out
    }
}

/// What reading a digest back from the database gives for `bytes`.
pub open spec fn stored_digest(bytes: Seq<u8>) -> Result<Seq<u8>, StoredObservationError> {
    if bytes.len() == 32 {
        Ok(bytes)
    } else {
        Err(StoredObservationError::DigestLength(bytes.len() as usize))
    }
}

/// Reads a content digest back from its database column, which must hold 32 bytes.
pub fn digest_from_database(bytes: Vec<u8>) -> (result: Result<ContentDigest, StoredObservationError>)
    ensures
        match (result, stored_digest(bytes@)) {
            (Ok(digest), Ok(expected)) => digest@ == expected,
            (Err(e), Err(expected)) => e == expected,
            _ => false,
        },
{
    let length = bytes.len();
    if length != 32 {
        return Err(StoredObservationError::DigestLength(length));
    }
    let mut array: [u8; 32] = [0u8; 32];
    let mut i: usize = 0;
    while i < 32
        invariant
            i <= 32,
            bytes@.len() == 32,
            array@.len() == 32,
            forall|j: int| 0 <= j < i ==> array@[j] == bytes@[j],
        decreases 32 - i,
    {
        array[i] = bytes[i];
        i = i + 1;
    }
    assert(array@ =~= bytes@);
    Ok(ContentDigest::from_bytes(array))
}

/// A digest that is stored and read back is the same digest.
pub proof fn lemma_digest_round_trip(digest: ContentDigest)
    ensures
        stored_digest(digest@) == Ok::<Seq<u8>, StoredObservationError>(digest@),
{
    assert(digest.0@.len() == 32);
}

} // verus!
