//! One pass through the whole pipeline: walk an in-memory listing, persist
//! and reload the snapshot, compare against a mirror state, and plan the
//! batches.

use fs_mirror::FsEntries;
use fs_mirror::FsEntryKind;
use fs_mirror::FsMetadata;
use fs_mirror::FsTreeNode;
use fs_mirror::chunk_changes;
use fs_mirror::decode;
use fs_mirror::decode_changes;
use fs_mirror::diff;
use fs_mirror::encode;
use fs_mirror::encode_changes;
use fs_mirror::part_file_bytes;
use fs_mirror::resolve_chunk_size;
use fs_mirror::to_delete;
use fs_mirror::to_sync;
use fs_mirror::walk_dir;

fn meta(mtime: i64) -> FsMetadata {
    FsMetadata { owner: 1, group: 1, mode: 0o100644, mtime, inode: 1, size: 1 }
}

fn file(name: &str, mtime: i64) -> FsTreeNode {
    FsTreeNode {
        name: name.as_bytes().to_vec(),
        kind: FsEntryKind::File,
        meta: Some(meta(mtime)),
        children: Vec::new(),
    }
}

fn dir(name: &str, children: Vec<FsTreeNode>) -> FsTreeNode {
    FsTreeNode {
        name: name.as_bytes().to_vec(),
        kind: FsEntryKind::Directory,
        meta: Some(meta(0)),
        children,
    }
}

#[test]
fn walk_persist_compare_and_plan() {
    // The authoritative tree has one changed file, one new file, and lacks
    // one file the mirror still holds.
    let auth_tree = dir("", vec![dir("d", vec![file("changed", 2), file("new", 1)])]);
    let mirror_tree = dir("", vec![dir("d", vec![file("changed", 1), file("stale", 1)])]);

    let auth = FsEntries { entries: walk_dir(&auth_tree, false, false, &Vec::new()) };
    let mirror = FsEntries { entries: walk_dir(&mirror_tree, false, false, &Vec::new()) };

    // Snapshots survive persistence.
    let auth_back = decode(&encode(&auth)).unwrap();
    let mirror_back = decode(&encode(&mirror)).unwrap();
    assert_eq!(auth_back.entries, auth.entries);
    assert_eq!(mirror_back.entries, mirror.entries);

    // The change-set survives persistence too.
    let changes = diff(&auth_back, &mirror_back);
    let changes_back = decode_changes(&encode_changes(&changes)).unwrap();
    assert_eq!(changes_back.entries, changes.entries);

    let sync = to_sync(&changes_back);
    let dels = to_delete(&changes_back);
    let mut sync_names: Vec<String> =
        sync.iter().map(|c| String::from_utf8(c.name.clone()).unwrap()).collect();
    sync_names.sort();
    assert_eq!(sync_names, vec!["d/changed".to_string(), "d/new".to_string()]);
    let del_names: Vec<String> =
        dels.iter().map(|c| String::from_utf8(c.name.clone()).unwrap()).collect();
    assert_eq!(del_names, vec!["d/stale".to_string()]);

    // Plan the batches and their part files.
    let chunk_size = resolve_chunk_size(None, sync.len(), 2);
    assert_eq!(chunk_size, 1);
    let batches = chunk_changes(sync, chunk_size);
    assert_eq!(batches.len(), 2);
    let mut part_contents: Vec<Vec<u8>> = batches.iter().map(part_file_bytes).collect();
    part_contents.sort();
    assert_eq!(part_contents, vec![b"d/changed".to_vec(), b"d/new".to_vec()]);
}
