use bytes::BytesMut;
use streaming::error::Error;
use streaming::index::{find_by_offset, find_by_timestamp, Index, TimeIndex, INDEX_SIZE, TIME_INDEX_SIZE};

fn offsets(values: &[u32]) -> Vec<Index> {
    values
        .iter()
        .enumerate()
        .map(|(i, v)| Index { relative_offset: *v, position: i as u32 * 100 })
        .collect()
}

fn times(values: &[u64]) -> Vec<TimeIndex> {
    values
        .iter()
        .enumerate()
        .map(|(i, v)| TimeIndex { relative_offset: i as u32, timestamp: *v })
        .collect()
}

#[test]
fn the_offset_index_finds_the_last_entry_at_or_before_an_offset() {
    let indexes = offsets(&[0, 10, 20, 35, 36, 90]);
    assert_eq!(find_by_offset(&indexes, 0), Some(0));
    assert_eq!(find_by_offset(&indexes, 9), Some(0));
    assert_eq!(find_by_offset(&indexes, 10), Some(1));
    assert_eq!(find_by_offset(&indexes, 34), Some(2));
    assert_eq!(find_by_offset(&indexes, 35), Some(3));
    assert_eq!(find_by_offset(&indexes, 36), Some(4));
    assert_eq!(find_by_offset(&indexes, 89), Some(4));
    assert_eq!(find_by_offset(&indexes, 90), Some(5));
    assert_eq!(find_by_offset(&indexes, u32::MAX), Some(5));
    assert_eq!(find_by_offset(&offsets(&[5, 6]), 4), None);
    assert_eq!(find_by_offset(&offsets(&[]), 4), None);
    assert_eq!(find_by_offset(&offsets(&[7]), 7), Some(0));
}

#[test]
fn the_time_index_finds_the_last_entry_at_or_before_a_timestamp() {
    let indexes = times(&[100, 200, 200, 300]);
    assert_eq!(find_by_timestamp(&indexes, 99), None);
    assert_eq!(find_by_timestamp(&indexes, 100), Some(0));
    assert_eq!(find_by_timestamp(&indexes, 199), Some(0));
    assert_eq!(find_by_timestamp(&indexes, 200), Some(2));
    assert_eq!(find_by_timestamp(&indexes, 299), Some(2));
    assert_eq!(find_by_timestamp(&indexes, 300), Some(3));
    assert_eq!(find_by_timestamp(&indexes, u64::MAX), Some(3));
    assert_eq!(find_by_timestamp(&times(&[]), 5), None);
}

#[test]
fn index_entries_stand_in_their_files_little_endian() {
    let entry = Index { relative_offset: 0x01020304, position: 0x0a0b0c0d };
    let mut buffer = BytesMut::new();
    entry.extend(&mut buffer);
    assert_eq!(&buffer[..], &[4, 3, 2, 1, 0x0d, 0x0c, 0x0b, 0x0a]);
    assert_eq!(buffer.len() as u32, INDEX_SIZE);
    assert_eq!(Index::try_from_bytes(&buffer[..]), Ok(entry));
    assert_eq!(Index::try_from_bytes(&buffer[..7]), Err(Error::Corruption));
    assert_eq!(Index::try_from_bytes(&[0; 9]), Err(Error::Corruption));

    let entry = TimeIndex { relative_offset: 7, timestamp: 0x0102030405060708 };
    let mut buffer = BytesMut::new();
    entry.extend(&mut buffer);
    assert_eq!(&buffer[..], &[7, 0, 0, 0, 8, 7, 6, 5, 4, 3, 2, 1]);
    assert_eq!(buffer.len() as u32, TIME_INDEX_SIZE);
    assert_eq!(TimeIndex::try_from_bytes(&buffer[..]), Ok(entry));
    assert_eq!(TimeIndex::try_from_bytes(&buffer[..8]), Err(Error::Corruption));
}
