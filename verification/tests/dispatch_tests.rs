use fs_mirror::ChangedFsEntries;
use fs_mirror::FsEntries;
use fs_mirror::FsEntry;
use fs_mirror::diff;
use fs_mirror::ChangedFsEntry;
use fs_mirror::DeleteAction;
use fs_mirror::FsEntryKind;
use fs_mirror::chunk_changes;
use fs_mirror::deletion_action;
use fs_mirror::part_file_bytes;
use fs_mirror::resolve_chunk_size;
use fs_mirror::to_delete;
use fs_mirror::to_sync;

fn change(name: &str, deleted: bool) -> ChangedFsEntry {
    ChangedFsEntry { name: name.as_bytes().to_vec(), kind: FsEntryKind::File, is_deleted: deleted }
}

fn change_set(entries: Vec<ChangedFsEntry>) -> ChangedFsEntries {
    ChangedFsEntries { entries }
}

fn names(entries: &[ChangedFsEntry]) -> Vec<String> {
    entries.iter().map(|c| String::from_utf8(c.name.clone()).unwrap()).collect()
}

#[test]
fn filters_split_the_change_set() {
    let cs = change_set(vec![
        change("s1", false),
        change("d1", true),
        change("s2", false),
        change("d2", true),
    ]);
    assert_eq!(names(&to_sync(&cs)), vec!["s1", "s2"]);
    assert_eq!(names(&to_delete(&cs)), vec!["d1", "d2"]);
}

#[test]
fn chunking_is_complete_and_counted() {
    let sync: Vec<ChangedFsEntry> =
        (0..7).map(|i| change(&format!("f{}", i), false)).collect();
    let batches = chunk_changes(sync, 3);
    // ceil(7 / 3) batches, each full but the last.
    assert_eq!(batches.len(), 3);
    assert_eq!(batches[0].len(), 3);
    assert_eq!(batches[1].len(), 3);
    assert_eq!(batches[2].len(), 1);
    let mut seen: Vec<String> = Vec::new();
    for b in &batches {
        seen.extend(names(b));
    }
    let expected: Vec<String> = (0..7).map(|i| format!("f{}", i)).collect();
    assert_eq!(seen, expected);
}

#[test]
fn chunking_exact_multiple() {
    let sync: Vec<ChangedFsEntry> =
        (0..6).map(|i| change(&format!("f{}", i), false)).collect();
    let batches = chunk_changes(sync, 3);
    assert_eq!(batches.len(), 2);
    assert_eq!(batches[0].len(), 3);
    assert_eq!(batches[1].len(), 3);
}

#[test]
fn chunking_empty_set_yields_no_batches() {
    let batches = chunk_changes(Vec::new(), 4);
    assert!(batches.is_empty());
}

#[test]
fn chunk_size_one_isolates_every_entry() {
    let sync: Vec<ChangedFsEntry> =
        (0..3).map(|i| change(&format!("f{}", i), false)).collect();
    let batches = chunk_changes(sync, 1);
    assert_eq!(batches.len(), 3);
    for b in &batches {
        assert_eq!(b.len(), 1);
    }
}

#[test]
fn explicit_chunk_size_wins() {
    assert_eq!(resolve_chunk_size(Some(5), 100, 4), 5);
}

#[test]
fn derived_chunk_size_is_floor_division() {
    assert_eq!(resolve_chunk_size(None, 10, 4), 2);
}

#[test]
fn derived_chunk_size_clamped_to_one() {
    assert_eq!(resolve_chunk_size(None, 3, 8), 1);
    assert_eq!(resolve_chunk_size(None, 0, 4), 1);
}

#[test]
fn part_file_is_null_separated() {
    let batch = vec![change("a", false), change("bc", false), change("d/e", false)];
    assert_eq!(part_file_bytes(&batch), b"a\0bc\0d/e".to_vec());
}

#[test]
fn part_file_of_one_entry_has_no_separator() {
    let batch = vec![change("only", false)];
    assert_eq!(part_file_bytes(&batch), b"only".to_vec());
}

#[test]
fn part_file_of_empty_batch_is_empty() {
    let batch: Vec<ChangedFsEntry> = Vec::new();
    assert_eq!(part_file_bytes(&batch), Vec::<u8>::new());
}

#[test]
fn deletion_actions_by_kind() {
    assert_eq!(deletion_action(FsEntryKind::Directory), DeleteAction::RemoveTree);
    assert_eq!(deletion_action(FsEntryKind::File), DeleteAction::RemoveFile);
    assert_eq!(deletion_action(FsEntryKind::Symlink), DeleteAction::RemoveFile);
}

#[test]
fn no_batch_path_is_also_marked_for_deletion() {
    let mk = |name: &str, mtime: i64| FsEntry {
        name: name.as_bytes().to_vec(),
        owner: 0,
        group: 0,
        mode: 0,
        mtime,
        inode: 0,
        size: 0,
        kind: FsEntryKind::File,
    };
    let auth = FsEntries { entries: vec![mk("a", 1), mk("b", 1), mk("c", 1)] };
    let mirror = FsEntries { entries: vec![mk("a", 2), mk("b", 1), mk("d", 1), mk("e", 1)] };
    let cs = diff(&auth, &mirror);
    let sync = to_sync(&cs);
    let dels = to_delete(&cs);
    let batches = chunk_changes(sync, 2);
    for b in &batches {
        for s in b.iter() {
            for d in dels.iter() {
                assert_ne!(s.name, d.name);
            }
        }
    }
    assert_eq!(names(&dels), vec!["d", "e"]);
}
