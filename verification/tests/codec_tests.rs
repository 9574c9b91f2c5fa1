use fs_mirror::FsEntries;
use fs_mirror::FsEntry;
use fs_mirror::FsEntryKind;
use fs_mirror::decode;
use fs_mirror::encode;

fn sample_entry(name: &str, kind: FsEntryKind) -> FsEntry {
    FsEntry {
        name: name.as_bytes().to_vec(),
        owner: 1000,
        group: 100,
        mode: 0o100644,
        mtime: 1700000000,
        inode: 42,
        size: 4096,
        kind,
    }
}

#[test]
fn round_trip_entries() {
    let entries = FsEntries {
        entries: vec![
            sample_entry("docs", FsEntryKind::Directory),
            sample_entry("docs/readme.txt", FsEntryKind::File),
            sample_entry("docs/link", FsEntryKind::Symlink),
        ],
    };
    let bytes = encode(&entries);
    let decoded = decode(&bytes).unwrap();
    assert_eq!(decoded.entries.len(), 3);
    assert_eq!(decoded.entries, entries.entries);
}

#[test]
fn round_trip_extreme_values() {
    let entries = FsEntries {
        entries: vec![FsEntry {
            name: Vec::new(),
            owner: u32::MAX,
            group: 0,
            mode: u32::MAX,
            mtime: -1,
            inode: u64::MAX,
            size: 0,
            kind: FsEntryKind::File,
        }, FsEntry {
            name: b"x".to_vec(),
            owner: 0,
            group: u32::MAX,
            mode: 0,
            mtime: i64::MIN,
            inode: 0,
            size: u64::MAX,
            kind: FsEntryKind::Directory,
        }],
    };
    let bytes = encode(&entries);
    let decoded = decode(&bytes).unwrap();
    assert_eq!(decoded.entries, entries.entries);
}

#[test]
fn round_trip_empty_snapshot() {
    let entries = FsEntries { entries: Vec::new() };
    let bytes = encode(&entries);
    assert_eq!(bytes, vec![0u8; 8]);
    let decoded = decode(&bytes).unwrap();
    assert!(decoded.entries.is_empty());
}

#[test]
fn exact_layout_of_one_record() {
    let entries = FsEntries { entries: vec![sample_entry("a", FsEntryKind::File)] };
    let bytes = encode(&entries);
    // Count, record length, path length, path, three u32s, three u64s, tag.
    assert_eq!(bytes.len(), 8 + 8 + 8 + 1 + 4 + 4 + 4 + 8 + 8 + 8 + 1);
    assert_eq!(&bytes[0..8], &1u64.to_le_bytes());
    assert_eq!(&bytes[8..16], &46u64.to_le_bytes());
    assert_eq!(&bytes[16..24], &1u64.to_le_bytes());
    assert_eq!(bytes[24], b'a');
    assert_eq!(&bytes[25..29], &1000u32.to_le_bytes());
    assert_eq!(&bytes[29..33], &100u32.to_le_bytes());
    assert_eq!(&bytes[33..37], &0o100644u32.to_le_bytes());
    assert_eq!(&bytes[37..45], &1700000000u64.to_le_bytes());
    assert_eq!(&bytes[45..53], &42u64.to_le_bytes());
    assert_eq!(&bytes[53..61], &4096u64.to_le_bytes());
    assert_eq!(bytes[61], 1);
}

#[test]
fn kind_tags_are_distinct() {
    let dir = FsEntries { entries: vec![sample_entry("p", FsEntryKind::Directory)] };
    let file = FsEntries { entries: vec![sample_entry("p", FsEntryKind::File)] };
    let link = FsEntries { entries: vec![sample_entry("p", FsEntryKind::Symlink)] };
    let bd = encode(&dir);
    let bf = encode(&file);
    let bl = encode(&link);
    assert_eq!(bd[bd.len() - 1], 0);
    assert_eq!(bf[bf.len() - 1], 1);
    assert_eq!(bl[bl.len() - 1], 2);
}

#[test]
fn truncated_buffer_rejected() {
    let entries = FsEntries { entries: vec![sample_entry("abc", FsEntryKind::File)] };
    let mut bytes = encode(&entries);
    bytes.pop();
    assert!(decode(&bytes).is_err());
}

#[test]
fn truncated_count_rejected() {
    let bytes = vec![1u8, 0, 0];
    assert!(decode(&bytes).is_err());
}

#[test]
fn declared_length_beyond_buffer_rejected() {
    // A count of one and a record length far past the end of the buffer.
    let mut bytes = Vec::new();
    bytes.extend_from_slice(&1u64.to_le_bytes());
    bytes.extend_from_slice(&1000u64.to_le_bytes());
    bytes.extend_from_slice(&[0u8; 16]);
    assert!(decode(&bytes).is_err());
}

#[test]
fn trailing_bytes_rejected() {
    let entries = FsEntries { entries: vec![sample_entry("abc", FsEntryKind::File)] };
    let mut bytes = encode(&entries);
    bytes.push(0);
    assert!(decode(&bytes).is_err());
}

#[test]
fn unknown_kind_tag_rejected() {
    let entries = FsEntries { entries: vec![sample_entry("abc", FsEntryKind::File)] };
    let mut bytes = encode(&entries);
    let last = bytes.len() - 1;
    bytes[last] = 7;
    assert!(decode(&bytes).is_err());
}

#[test]
fn record_length_mismatch_rejected() {
    let entries = FsEntries { entries: vec![sample_entry("abc", FsEntryKind::File)] };
    let mut bytes = encode(&entries);
    // Shrink the declared record length below the actual body size.
    bytes[8] = bytes[8] - 1;
    assert!(decode(&bytes).is_err());
}

#[test]
fn decode_is_not_the_identity_on_its_input() {
    // The decoder reads the binary form, not the in-memory form: feeding
    // it something that is not an encoding fails.
    let bytes = b"not a snapshot".to_vec();
    assert!(decode(&bytes).is_err());
}
