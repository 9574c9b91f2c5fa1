use fs_mirror::FsEntries;
use fs_mirror::FsEntry;
use fs_mirror::FsEntryKind;
use fs_mirror::diff;

fn entry(name: &str, mtime: i64, kind: FsEntryKind) -> FsEntry {
    FsEntry {
        name: name.as_bytes().to_vec(),
        owner: 1000,
        group: 100,
        mode: 0o100644,
        mtime,
        inode: 7,
        size: 10,
        kind,
    }
}

fn snapshot(entries: Vec<FsEntry>) -> FsEntries {
    FsEntries { entries }
}

#[test]
fn diff_of_identical_snapshots_is_empty() {
    let a = snapshot(vec![
        entry("a", 1, FsEntryKind::File),
        entry("b", 2, FsEntryKind::Directory),
        entry("c", 3, FsEntryKind::Symlink),
    ]);
    let b = snapshot(vec![
        entry("a", 1, FsEntryKind::File),
        entry("b", 2, FsEntryKind::Directory),
        entry("c", 3, FsEntryKind::Symlink),
    ]);
    let cs = diff(&a, &b);
    assert!(cs.entries.is_empty());
}

#[test]
fn directional_example() {
    // Authoritative: a (mtime 1), b, c. Mirror: a (mtime 2), b, d.
    let auth = snapshot(vec![
        entry("a", 1, FsEntryKind::File),
        entry("b", 5, FsEntryKind::File),
        entry("c", 6, FsEntryKind::File),
    ]);
    let mirror = snapshot(vec![
        entry("a", 2, FsEntryKind::File),
        entry("b", 5, FsEntryKind::File),
        entry("d", 7, FsEntryKind::File),
    ]);
    let cs = diff(&auth, &mirror);

    let sync: Vec<String> = cs
        .entries
        .iter()
        .filter(|c| !c.is_deleted)
        .map(|c| String::from_utf8(c.name.clone()).unwrap())
        .collect();
    let delete: Vec<String> = cs
        .entries
        .iter()
        .filter(|c| c.is_deleted)
        .map(|c| String::from_utf8(c.name.clone()).unwrap())
        .collect();

    let mut sync_sorted = sync.clone();
    sync_sorted.sort();
    assert_eq!(sync_sorted, vec!["a".to_string(), "c".to_string()]);
    assert_eq!(delete, vec!["d".to_string()]);
}

#[test]
fn changed_entry_carries_authoritative_kind() {
    let auth = snapshot(vec![entry("p", 1, FsEntryKind::Directory)]);
    let mirror = snapshot(vec![entry("p", 1, FsEntryKind::File)]);
    let cs = diff(&auth, &mirror);
    assert_eq!(cs.entries.len(), 1);
    assert!(!cs.entries[0].is_deleted);
    assert_eq!(cs.entries[0].kind, FsEntryKind::Directory);
}

#[test]
fn each_metadata_field_is_compared() {
    let base = entry("p", 1, FsEntryKind::File);
    let mut variants: Vec<FsEntry> = Vec::new();
    let mut v = entry("p", 1, FsEntryKind::File);
    v.owner = 1001;
    variants.push(v);
    let mut v = entry("p", 1, FsEntryKind::File);
    v.group = 101;
    variants.push(v);
    let mut v = entry("p", 1, FsEntryKind::File);
    v.mode = 0o100600;
    variants.push(v);
    let mut v = entry("p", 2, FsEntryKind::File);
    variants.push(v);
    let mut v = entry("p", 1, FsEntryKind::File);
    v.inode = 8;
    variants.push(v);
    let mut v = entry("p", 1, FsEntryKind::File);
    v.size = 11;
    variants.push(v);
    for variant in variants {
        let auth = snapshot(vec![variant]);
        let mirror = snapshot(vec![base.clone()]);
        let cs = diff(&auth, &mirror);
        assert_eq!(cs.entries.len(), 1);
        assert!(!cs.entries[0].is_deleted);
    }
}

#[test]
fn mirror_only_path_marked_extraneous() {
    let auth = snapshot(vec![]);
    let mirror = snapshot(vec![entry("gone", 1, FsEntryKind::Symlink)]);
    let cs = diff(&auth, &mirror);
    assert_eq!(cs.entries.len(), 1);
    assert!(cs.entries[0].is_deleted);
    assert_eq!(cs.entries[0].kind, FsEntryKind::Symlink);
    assert_eq!(cs.entries[0].name, b"gone".to_vec());
}

#[test]
fn authoritative_only_path_marked_for_sync() {
    let auth = snapshot(vec![entry("fresh", 1, FsEntryKind::File)]);
    let mirror = snapshot(vec![]);
    let cs = diff(&auth, &mirror);
    assert_eq!(cs.entries.len(), 1);
    assert!(!cs.entries[0].is_deleted);
    assert_eq!(cs.entries[0].name, b"fresh".to_vec());
}
