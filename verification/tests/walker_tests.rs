use fs_mirror::FsEntryKind;
use fs_mirror::FsMetadata;
use fs_mirror::FsTreeNode;
use fs_mirror::keep_child;
use fs_mirror::make_entry;
use fs_mirror::normalize_path;
use fs_mirror::walk_dir;

fn meta(inode: u64) -> FsMetadata {
    FsMetadata { owner: 1000, group: 100, mode: 0o100644, mtime: 1700000000, inode, size: 1 }
}

fn file(name: &str, inode: u64) -> FsTreeNode {
    FsTreeNode {
        name: name.as_bytes().to_vec(),
        kind: FsEntryKind::File,
        meta: Some(meta(inode)),
        children: Vec::new(),
    }
}

fn dir(name: &str, inode: u64, children: Vec<FsTreeNode>) -> FsTreeNode {
    FsTreeNode {
        name: name.as_bytes().to_vec(),
        kind: FsEntryKind::Directory,
        meta: Some(meta(inode)),
        children,
    }
}

fn root(children: Vec<FsTreeNode>) -> FsTreeNode {
    dir("", 1, children)
}

fn paths(entries: &[fs_mirror::FsEntry]) -> Vec<String> {
    entries.iter().map(|e| String::from_utf8(e.name.clone()).unwrap()).collect()
}

#[test]
fn walk_builds_relative_paths() {
    let tree = root(vec![dir("d1", 2, vec![dir("d2", 3, vec![file("f", 4)])]), file("top", 5)]);
    let out = walk_dir(&tree, false, false, &Vec::new());
    assert_eq!(paths(&out), vec!["d1", "d1/d2", "d1/d2/f", "top"]);
}

#[test]
fn root_itself_is_excluded() {
    let tree = root(vec![file("only", 2)]);
    let out = walk_dir(&tree, false, false, &Vec::new());
    assert_eq!(paths(&out), vec!["only"]);
}

#[test]
fn pruned_directory_leaves_no_entries() {
    let tree = root(vec![
        dir("keep", 2, vec![file("inner", 3)]),
        dir("skipme", 4, vec![file("hidden_away", 5), dir("deeper", 6, vec![file("f", 7)])]),
    ]);
    let ignore = vec![b"skipme".to_vec()];
    let out = walk_dir(&tree, false, false, &ignore);
    let ps = paths(&out);
    assert_eq!(ps, vec!["keep", "keep/inner"]);
    for p in &ps {
        assert_ne!(p, "skipme");
        assert!(!p.starts_with("skipme/"));
    }
}

#[test]
fn pruning_applies_below_the_top_level() {
    let tree = root(vec![dir("a", 2, vec![dir("drop", 3, vec![file("x", 4)]), file("y", 5)])]);
    let ignore = vec![b"drop".to_vec()];
    let out = walk_dir(&tree, false, false, &ignore);
    assert_eq!(paths(&out), vec!["a", "a/y"]);
}

#[test]
fn unreadable_metadata_drops_entry_but_not_walk() {
    let mut broken = dir("broken", 3, vec![file("below", 4)]);
    broken.meta = None;
    let tree = root(vec![file("before", 2), broken, file("after", 5)]);
    let out = walk_dir(&tree, false, false, &Vec::new());
    // The failed directory's own entry is gone; its subtree and both
    // siblings are still there.
    assert_eq!(paths(&out), vec!["before", "broken/below", "after"]);
}

#[test]
fn hidden_names_skipped_when_asked() {
    let tree = root(vec![file(".secret", 2), file("plain", 3)]);
    let out = walk_dir(&tree, false, true, &Vec::new());
    assert_eq!(paths(&out), vec!["plain"]);
    let tree2 = root(vec![file(".secret", 2), file("plain", 3)]);
    let out2 = walk_dir(&tree2, false, false, &Vec::new());
    assert_eq!(paths(&out2), vec![".secret", "plain"]);
}

#[test]
fn symlinked_directory_not_traversed_unless_followed() {
    let link = FsTreeNode {
        name: b"link".to_vec(),
        kind: FsEntryKind::Symlink,
        meta: Some(meta(2)),
        children: vec![file("target_child", 3)],
    };
    let tree = root(vec![link]);
    let out = walk_dir(&tree, false, false, &Vec::new());
    assert_eq!(paths(&out), vec!["link"]);

    let link2 = FsTreeNode {
        name: b"link".to_vec(),
        kind: FsEntryKind::Symlink,
        meta: Some(meta(2)),
        children: vec![file("target_child", 3)],
    };
    let tree2 = root(vec![link2]);
    let out2 = walk_dir(&tree2, true, false, &Vec::new());
    assert_eq!(paths(&out2), vec!["link", "link/target_child"]);
}

#[test]
fn entry_fields_come_from_metadata() {
    let tree = root(vec![file("f", 9)]);
    let out = walk_dir(&tree, false, false, &Vec::new());
    assert_eq!(out.len(), 1);
    let e = &out[0];
    assert_eq!(e.owner, 1000);
    assert_eq!(e.group, 100);
    assert_eq!(e.mode, 0o100644);
    assert_eq!(e.mtime, 1700000000);
    assert_eq!(e.inode, 9);
    assert_eq!(e.size, 1);
    assert_eq!(e.kind, FsEntryKind::File);
}

#[test]
fn normalize_path_strips_root_separator_and_dot() {
    let root = b"/data/tree".to_vec();
    assert_eq!(normalize_path(&b"/data/tree/a/b".to_vec(), &root), b"a/b".to_vec());
    assert_eq!(normalize_path(&b"./x/y".to_vec(), &Vec::new()), b"x/y".to_vec());
    assert_eq!(normalize_path(&b"plain".to_vec(), &b"/elsewhere".to_vec()), b"plain".to_vec());
    assert_eq!(normalize_path(&b"/data/tree".to_vec(), &root), Vec::<u8>::new());
}

#[test]
fn make_entry_applies_partial_failure_policy() {
    assert!(make_entry(b"a".to_vec(), FsEntryKind::File, None).is_none());
    let e = make_entry(b"a".to_vec(), FsEntryKind::Symlink, Some(meta(3))).unwrap();
    assert_eq!(e.name, b"a".to_vec());
    assert_eq!(e.inode, 3);
    assert_eq!(e.kind, FsEntryKind::Symlink);
}

#[test]
fn keep_child_applies_ignore_list_and_hidden_rule() {
    let ignore = vec![b"node_modules".to_vec(), b"target".to_vec()];
    assert!(!keep_child(&b"node_modules".to_vec(), false, &ignore));
    assert!(!keep_child(&b"target".to_vec(), false, &ignore));
    assert!(keep_child(&b"src".to_vec(), false, &ignore));
    assert!(!keep_child(&b".git".to_vec(), true, &ignore));
    assert!(keep_child(&b".git".to_vec(), false, &ignore));
}
