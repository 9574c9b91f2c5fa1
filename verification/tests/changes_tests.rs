use fs_mirror::ChangedFsEntries;
use fs_mirror::ChangedFsEntry;
use fs_mirror::FsEntryKind;
use fs_mirror::decode_changes;
use fs_mirror::encode_changes;

fn change(name: &str, kind: FsEntryKind, deleted: bool) -> ChangedFsEntry {
    ChangedFsEntry { name: name.as_bytes().to_vec(), kind, is_deleted: deleted }
}

#[test]
fn change_set_round_trip() {
    let cs = ChangedFsEntries {
        entries: vec![
            change("a/b", FsEntryKind::File, false),
            change("c", FsEntryKind::Directory, true),
            change("d", FsEntryKind::Symlink, true),
        ],
    };
    let bytes = encode_changes(&cs);
    let decoded = decode_changes(&bytes).unwrap();
    assert_eq!(decoded.entries, cs.entries);
}

#[test]
fn change_set_round_trip_empty() {
    let cs = ChangedFsEntries { entries: Vec::new() };
    let bytes = encode_changes(&cs);
    assert_eq!(bytes, vec![0u8; 8]);
    let decoded = decode_changes(&bytes).unwrap();
    assert!(decoded.entries.is_empty());
}

#[test]
fn change_record_layout() {
    let cs = ChangedFsEntries { entries: vec![change("x", FsEntryKind::Directory, true)] };
    let bytes = encode_changes(&cs);
    // Count, record length, path length, path, kind tag, deletion mark.
    assert_eq!(bytes.len(), 8 + 8 + 8 + 1 + 1 + 1);
    assert_eq!(&bytes[0..8], &1u64.to_le_bytes());
    assert_eq!(&bytes[8..16], &11u64.to_le_bytes());
    assert_eq!(&bytes[16..24], &1u64.to_le_bytes());
    assert_eq!(bytes[24], b'x');
    assert_eq!(bytes[25], 0);
    assert_eq!(bytes[26], 1);
}

#[test]
fn truncated_change_set_rejected() {
    let cs = ChangedFsEntries { entries: vec![change("abc", FsEntryKind::File, false)] };
    let mut bytes = encode_changes(&cs);
    bytes.pop();
    assert!(decode_changes(&bytes).is_err());
}

#[test]
fn trailing_change_bytes_rejected() {
    let cs = ChangedFsEntries { entries: vec![change("abc", FsEntryKind::File, false)] };
    let mut bytes = encode_changes(&cs);
    bytes.push(9);
    assert!(decode_changes(&bytes).is_err());
}

#[test]
fn invalid_deletion_mark_rejected() {
    let cs = ChangedFsEntries { entries: vec![change("abc", FsEntryKind::File, false)] };
    let mut bytes = encode_changes(&cs);
    let last = bytes.len() - 1;
    bytes[last] = 2;
    assert!(decode_changes(&bytes).is_err());
}

#[test]
fn invalid_change_kind_tag_rejected() {
    let cs = ChangedFsEntries { entries: vec![change("abc", FsEntryKind::File, false)] };
    let mut bytes = encode_changes(&cs);
    let tag = bytes.len() - 2;
    bytes[tag] = 9;
    assert!(decode_changes(&bytes).is_err());
}
