use hestia::observation::{
    observe_reads, snapshot, ContentObservation, MetadataSnapshot, ModifiedTime, ObserveError,
};

fn metadata(length: u64) -> MetadataSnapshot {
    snapshot(true, 1, 2, length, Some(ModifiedTime { seconds: 1_700_000_000, nanos: 5 })).unwrap()
}

fn observe(content: &[u8], chunk: usize) -> Result<[u8; 32], ObserveError> {
    let before = metadata(content.len() as u64);
    let mut observation = ContentObservation::start(before, before)?;
    let mut buffer = vec![0u8; chunk];
    let mut offset = 0;
    loop {
        let count = chunk.min(content.len() - offset);
        buffer[..count].copy_from_slice(&content[offset..offset + count]);
        offset += count;
        if !observation.absorb(&buffer, count)? {
            break;
        }
    }
    Ok(*observation.finish(before, before)?.as_bytes())
}

const READ_BUFFER_SIZE: usize = 64 * 1024;

#[test]
fn observe_reads_to_eof_across_multiple_chunks() {
    let content = vec![42u8; READ_BUFFER_SIZE * 2 + 17];
    assert_eq!(
        observe(&content, READ_BUFFER_SIZE).unwrap(),
        *blake3::hash(&content).as_bytes()
    );
    assert_eq!(observe(b"", 16).unwrap(), *blake3::hash(b"").as_bytes());
}

#[test]
fn content_digest_is_blake3_of_file_bytes() {
    let first = observe(b"same bytes", READ_BUFFER_SIZE).unwrap();
    let second = observe(b"same bytes", 3).unwrap();
    let changed = observe(b"different bytes", READ_BUFFER_SIZE).unwrap();
    assert_eq!(first, second);
    assert_ne!(first, changed);
    assert_eq!(&first, blake3::hash(b"same bytes").as_bytes());
}

#[test]
fn snapshots_need_regular_files_with_times() {
    assert_eq!(snapshot(false, 1, 2, 3, None), Err(ObserveError::NotRegularFile));
    assert_eq!(snapshot(true, 1, 2, 3, None), Err(ObserveError::ModifiedTimeUnavailable));
    let taken = metadata(3);
    assert_eq!((taken.device, taken.inode, taken.length), (1, 2, 3));
}

#[test]
fn observations_notice_changes_under_the_reader() {
    let before = metadata(4);
    let mut other = before;
    other.inode = 3;
    assert_eq!(
        ContentObservation::start(before, other).err(),
        Some(ObserveError::ChangedWhileOpening)
    );

    let mut observation = ContentObservation::start(before, before).unwrap();
    assert_eq!(observation.absorb(b"abcde", 5), Err(ObserveError::LengthChanged));
    assert_eq!(observation.absorb(b"ab", 3), Err(ObserveError::InvalidByteCount));
    assert_eq!(observation.absorb(b"abcd", 4), Ok(true));
    assert_eq!(observation.absorb(b"", 0), Ok(false));
    let mut grown = before;
    grown.length = 5;
    assert_eq!(observation.finish(before, grown).err(), Some(ObserveError::PathReplaced));

    let mut observation = ContentObservation::start(before, before).unwrap();
    observation.absorb(b"abcd", 4).unwrap();
    assert_eq!(observation.finish(grown, before).err(), Some(ObserveError::ChangedWhileReading));

    let mut observation = ContentObservation::start(before, before).unwrap();
    observation.absorb(b"abc", 3).unwrap();
    assert_eq!(observation.finish(before, before).err(), Some(ObserveError::LengthChanged));
}

#[test]
fn content_digest_rejects_unsupported_entries() {
    let time = Some(ModifiedTime { seconds: 0, nanos: 0 });
    for (device, inode) in [(1, 10), (1, 11), (1, 12)] {
        assert_eq!(
            snapshot(false, device, inode, 5, time),
            Err(ObserveError::NotRegularFile)
        );
    }
}

#[test]
fn byte_counts_beyond_u64_are_refused() {
    let huge = metadata(u64::MAX);
    let mut observation = ContentObservation::start(huge, huge).unwrap();
    assert_eq!(observation.absorb(b"a", 1), Ok(true));
    assert_eq!(
        observation.absorb(b"b", usize::MAX),
        Err(ObserveError::LengthOverflow)
    );
}

#[test]
fn reads_in_any_split_give_the_digest_of_the_bytes() {
    let content = vec![42u8; 2 * 65536 + 17];
    let before = metadata(content.len() as u64);
    let reads: Vec<Vec<u8>> = content.chunks(65536).map(|c| c.to_vec()).collect();
    let digest = observe_reads(before, before, &reads, before, before).unwrap();
    assert_eq!(digest.as_bytes(), blake3::hash(&content).as_bytes());
    let uneven = vec![content[..5].to_vec(), Vec::new(), content[5..].to_vec()];
    assert_eq!(observe_reads(before, before, &uneven, before, before).unwrap(), digest);
    let short = vec![content[..5].to_vec()];
    assert_eq!(observe_reads(before, before, &short, before, before), Err(ObserveError::LengthChanged));
    let long = vec![content.clone(), vec![1]];
    assert_eq!(observe_reads(before, before, &long, before, before), Err(ObserveError::LengthChanged));
    let mut moved = before;
    moved.inode = 9;
    assert_eq!(observe_reads(before, moved, &reads, before, before), Err(ObserveError::ChangedWhileOpening));
    assert_eq!(observe_reads(before, before, &reads, moved, before), Err(ObserveError::ChangedWhileReading));
    assert_eq!(observe_reads(before, before, &reads, before, moved), Err(ObserveError::PathReplaced));
}
