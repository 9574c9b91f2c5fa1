//! The directory walker's logic: which children of a directory are
//! visited, what entry each one contributes, and how relative paths are
//! built. The filesystem listing is handed in as an in-memory tree; the
//! walk itself is pure.

use vstd::prelude::*;

use crate::entry::FsEntry;
use crate::entry::FsEntryKind;
use crate::entry::FsEntryView;
use crate::entry::bytes_eq;
use crate::entry::copy_bytes;
use crate::entry::entry_views;

verus! {

/// The path separator of the normalized relative paths.
pub const SLASH: u8 = 47;

/// The byte that begins a hidden file name.
pub const HIDDEN_MARK: u8 = 46;

/// The numeric metadata captured for one filesystem object.
#[derive(Clone, Copy, Debug, PartialEq, Eq, Structural)]
pub struct FsMetadata {
    pub owner: u32,
    pub group: u32,
    pub mode: u32,
    pub mtime: i64,
    pub inode: u64,
    pub size: u64,
}

/// One node of a directory listing: a file name without separators, the
/// object's kind, its metadata where reading it succeeded (`None` stands
/// for a read that failed mid-walk), and the children found under it.
#[derive(Debug)]
pub struct FsTreeNode {
    pub name: Vec<u8>,
    pub kind: FsEntryKind,
    pub meta: Option<FsMetadata>,
    pub children: Vec<FsTreeNode>,
}

/// The views of a list of ignored names.
pub open spec fn name_views(v: Seq<Vec<u8>>) -> Seq<Seq<u8>> {
    Seq::new(v.len(), |i: int| v[i]@)
}

/// Whether a file name is hidden: it begins with the hidden marker.
pub open spec fn spec_is_hidden(name: Seq<u8>) -> bool {
    name.len() > 0 && name[0] == HIDDEN_MARK
}

/// Whether a child is visited at all: pruned when its name matches an
/// ignored name, skipped when hidden names are excluded and its name is
/// hidden.
pub open spec fn spec_keep_child(name: Seq<u8>, skip_hidden: bool, ignore: Seq<Seq<u8>>) -> bool {
    !ignore.contains(name) && !(skip_hidden && spec_is_hidden(name))
}

/// Whether the walk descends into a node's children: always for a
/// directory, for a symbolic link only when links are followed.
pub open spec fn spec_descends(kind: FsEntryKind, follow_symlinks: bool) -> bool {
    kind == FsEntryKind::Directory || (kind == FsEntryKind::Symlink && follow_symlinks)
}

/// The entry recorded for one visited object.
pub open spec fn entry_view_of(path: Seq<u8>, m: FsMetadata, kind: FsEntryKind) -> FsEntryView {
    FsEntryView {
        name: path,
        owner: m.owner,
        group: m.group,
        mode: m.mode,
        mtime: m.mtime,
        inode: m.inode,
        size: m.size,
        kind,
    }
}

/// The entries contributed by the children of one directory, from child
/// `start` on: for each kept child, its own entry where its metadata was
/// readable, then its subtree's entries where the walk descends.
pub open spec fn spec_walk_children(
    children: Seq<FsTreeNode>,
    start: int,
    follow_symlinks: bool,
    skip_hidden: bool,
    ignore: Seq<Seq<u8>>,
    prefix: Seq<u8>,
) -> Seq<FsEntryView>
    decreases children, children.len() - start,
{
    if start < 0 || start >= children.len() {
        Seq::empty()
    } else {
        spec_child_contrib(children[start], follow_symlinks, skip_hidden, ignore, prefix)
            + spec_walk_children(children, start + 1, follow_symlinks, skip_hidden, ignore, prefix)
    }
}

/// What one child contributes: nothing where it is pruned or skipped;
/// otherwise its own entry (none where its metadata was unreadable)
/// followed by its subtree's entries.
pub open spec fn spec_child_contrib(
    child: FsTreeNode,
    follow_symlinks: bool,
    skip_hidden: bool,
    ignore: Seq<Seq<u8>>,
    prefix: Seq<u8>,
) -> Seq<FsEntryView>
    decreases child, child.children@.len() + 1,
{
    if !spec_keep_child(child.name@, skip_hidden, ignore) {
        Seq::empty()
    } else {
        let path = prefix + child.name@;
        let own = match child.meta {
            Some(m) => seq![entry_view_of(path, m, child.kind)],
            None => Seq::empty(),
        };
        let below = if spec_descends(child.kind, follow_symlinks) {
            spec_walk_children(
                child.children@,
                0,
                follow_symlinks,
                skip_hidden,
                ignore,
                path.push(SLASH),
            )
        } else {
            Seq::empty()
        };
        own + below
    }
}

/// Whether a child is visited at all; the walker applies this before
/// descending, so a builder of the listing may apply it to avoid reading
/// ignored subtrees in the first place.
pub fn keep_child(name: &Vec<u8>, skip_hidden: bool, ignore: &Vec<Vec<u8>>) -> (r: bool)
    ensures
        r == spec_keep_child(name@, skip_hidden, name_views(ignore@)),
{
    let n = ignore.len();
    for i in 0..n
        invariant
            n == ignore@.len(),
            forall|k: int| 0 <= k < i ==> name_views(ignore@)[k] != name@,
    {
        if bytes_eq(&ignore[i], name) {
            proof {
                assert(name_views(ignore@)[i as int] == name@);
            }
            return false;
        }
    }
    proof {
        assert(!name_views(ignore@).contains(name@)) by {
            if name_views(ignore@).contains(name@) {
                let k = choose|k: int|
                    0 <= k < name_views(ignore@).len() && name_views(ignore@)[k] == name@;
                assert(name_views(ignore@)[k] != name@);
            }
        }
    }
    if skip_hidden && name.len() > 0 && name[0] == HIDDEN_MARK {
        return false;
    }
    true
}

/// Walks the children of one directory, appending their entries to `out`.
fn walk_children(
    children: &Vec<FsTreeNode>,
    follow_symlinks: bool,
    skip_hidden: bool,
    ignore: &Vec<Vec<u8>>,
    prefix: &Vec<u8>,
    out: &mut Vec<FsEntry>,
)
    ensures
        entry_views(final(out)@) == entry_views(old(out)@) + spec_walk_children(
            children@,
            0,
            follow_symlinks,
            skip_hidden,
            name_views(ignore@),
            prefix@,
        ),
    decreases children@,
{
    let ghost ig = name_views(ignore@);
    let n = children.len();
    for i in 0..n
        invariant
            n == children@.len(),
            ig == name_views(ignore@),
            entry_views(out@) + spec_walk_children(
                children@,
                i as int,
                follow_symlinks,
                skip_hidden,
                ig,
                prefix@,
            ) == entry_views(old(out)@) + spec_walk_children(
                children@,
                0,
                follow_symlinks,
                skip_hidden,
                ig,
                prefix@,
            ),
    {
        let child = &children[i];
        let ghost mid = out@;
        if keep_child(&child.name, skip_hidden, ignore) {
            let mut path = copy_bytes(prefix);
            crate::codec::push_bytes(&mut path, &child.name);
            match &child.meta {
                Some(m) => {
                    let e = FsEntry {
                        name: copy_bytes(&path),
                        owner: m.owner,
                        group: m.group,
                        mode: m.mode,
                        mtime: m.mtime,
                        inode: m.inode,
                        size: m.size,
                        kind: child.kind,
                    };
                    proof {
                        assert(e@ == entry_view_of(prefix@ + child.name@, *m, child.kind));
                    }
                    out.push(e);
                    proof {
                        assert(entry_views(out@) =~= entry_views(mid) + seq![
                            entry_view_of(prefix@ + child.name@, *m, child.kind),
                        ]);
                    }
                },
                None => {},
            }
            let descend = match child.kind {
                FsEntryKind::Directory => true,
                FsEntryKind::Symlink => follow_symlinks,
                FsEntryKind::File => false,
            };
            if descend {
                path.push(SLASH);
                proof {
                    assert(path@ =~= (prefix@ + child.name@).push(SLASH));
                }
                walk_children(&child.children, follow_symlinks, skip_hidden, ignore, &path, out);
            }
        }
        proof {
            assert(entry_views(out@) =~= entry_views(mid) + spec_child_contrib(
                children@[i as int],
                follow_symlinks,
                skip_hidden,
                ig,
                prefix@,
            ));
            assert(entry_views(out@) + spec_walk_children(
                children@,
                i + 1,
                follow_symlinks,
                skip_hidden,
                ig,
                prefix@,
            ) =~= entry_views(mid) + spec_walk_children(
                children@,
                i as int,
                follow_symlinks,
                skip_hidden,
                ig,
                prefix@,
            ));
        }
    }
    proof {
        assert(spec_walk_children(children@, n as int, follow_symlinks, skip_hidden, ig, prefix@)
            =~= Seq::<FsEntryView>::empty());
        assert(entry_views(out@) + Seq::<FsEntryView>::empty() =~= entry_views(out@));
    }
}

/// Walks a directory listing and returns the entries of everything the
/// walk visits, in listing order: the root itself is excluded, children
/// matching an ignored name are pruned before descent, hidden names are
/// skipped where asked, symlinked directories are descended into only
/// where links are followed, and an object whose metadata was unreadable
/// is dropped while its subtree is still visited. Paths are relative to
/// the root, separator-joined. A caller that wants each directory's
/// children in lexicographic order sorts the listing it hands in; the
/// walk preserves whatever order the listing has.
pub fn walk_dir(
    root: &FsTreeNode,
    follow_links: bool,
    skip_hidden: bool,
    folder_to_ignore: &Vec<Vec<u8>>,
) -> (r: Vec<FsEntry>)
    ensures
        entry_views(r@) == spec_walk_children(
            root.children@,
            0,
            follow_links,
            skip_hidden,
            name_views(folder_to_ignore@),
            Seq::empty(),
        ),
{
    let mut out: Vec<FsEntry> = Vec::new();
    let prefix: Vec<u8> = Vec::new();
    proof {
        assert(entry_views(out@) =~= Seq::<FsEntryView>::empty());
        assert(prefix@ =~= Seq::<u8>::empty());
    }
    walk_children(&root.children, follow_links, skip_hidden, folder_to_ignore, &prefix, &mut out);
    proof {
        assert(Seq::<FsEntryView>::empty() + spec_walk_children(
            root.children@,
            0,
            follow_links,
            skip_hidden,
            name_views(folder_to_ignore@),
            prefix@,
        ) =~= spec_walk_children(
            root.children@,
            0,
            follow_links,
            skip_hidden,
            name_views(folder_to_ignore@),
            Seq::empty(),
        ));
    }
    out
}

/// The normalized form of a walked path: the scanned root's prefix
/// removed, then one leading separator, then one leading `./`.
pub open spec fn spec_normalize_path(path: Seq<u8>, root: Seq<u8>) -> Seq<u8> {
    let a = if root.len() > 0 && root.len() <= path.len() && path.take(root.len() as int)
        == root {
        path.skip(root.len() as int)
    } else {
        path
    };
    let b = if a.len() >= 1 && a[0] == SLASH {
        a.skip(1)
    } else {
        a
    };
    if b.len() >= 2 && b[0] == HIDDEN_MARK && b[1] == SLASH {
        b.skip(2)
    } else {
        b
    }
}

/// Normalizes one walked path relative to the scanned root: the root's
/// prefix is stripped, then a leading separator, then a leading `./`.
pub fn normalize_path(path: &Vec<u8>, root: &Vec<u8>) -> (r: Vec<u8>)
    ensures
        r@ == spec_normalize_path(path@, root@),
{
    let mut start: usize = 0;
    if root.len() > 0 && root.len() <= path.len() {
        let head = vstd::slice::slice_subrange(path.as_slice(), 0, root.len());
        let head_vec = vstd::slice::slice_to_vec(head);
        if bytes_eq(&head_vec, root) {
            start = root.len();
        }
    }
    proof {
        let a = if root@.len() > 0 && root@.len() <= path@.len() && path@.take(
            root@.len() as int,
        ) == root@ {
            path@.skip(root@.len() as int)
        } else {
            path@
        };
        assert(a =~= path@.skip(start as int));
    }
    if path.len() - start >= 1 && path[start] == SLASH {
        start = start + 1;
    }
    proof {
        let a = if root@.len() > 0 && root@.len() <= path@.len() && path@.take(
            root@.len() as int,
        ) == root@ {
            path@.skip(root@.len() as int)
        } else {
            path@
        };
        let b = if a.len() >= 1 && a[0] == SLASH {
            a.skip(1)
        } else {
            a
        };
        assert(b =~= path@.skip(start as int));
    }
    if path.len() - start >= 2 && path[start] == HIDDEN_MARK && path[start + 1] == SLASH {
        start = start + 2;
    }
    proof {
        assert(spec_normalize_path(path@, root@) =~= path@.skip(start as int));
    }
    let tail = vstd::slice::slice_subrange(path.as_slice(), start, path.len());
    vstd::slice::slice_to_vec(tail)
}

/// Assembles the entry recorded for one visited object, or nothing where
/// its metadata could not be read: the walker's partial-failure policy.
pub fn make_entry(path: Vec<u8>, kind: FsEntryKind, meta: Option<FsMetadata>) -> (r: Option<
    FsEntry,
>)
    ensures
        meta is None ==> r is None,
        meta is Some ==> r is Some && r->0@ == entry_view_of(path@, meta->0, kind),
{
    match meta {
        None => None,
        Some(m) => Some(
            FsEntry {
                name: path,
                owner: m.owner,
                group: m.group,
                mode: m.mode,
                mtime: m.mtime,
                inode: m.inode,
                size: m.size,
                kind,
            },
        ),
    }
}

/// Whether `p` is a prefix of `s`.
pub open spec fn spec_starts_with(s: Seq<u8>, p: Seq<u8>) -> bool {
    p.len() <= s.len() && s.take(p.len() as int) == p
}

/// A prefix of a prefix of `s` is a prefix of `s`.
proof fn lemma_starts_with_trans(s: Seq<u8>, a: Seq<u8>, b: Seq<u8>)
    requires
        spec_starts_with(s, a),
        spec_starts_with(a, b),
    ensures
        spec_starts_with(s, b),
{
    assert(s.take(b.len() as int) =~= a.take(b.len() as int));
}

/// Whether an emitted entry lies at or under a child's own path: either
/// it is the child's own entry, recorded only where the metadata was
/// readable, or its path extends the child's path by a separator.
pub open spec fn within_child(child: FsTreeNode, prefix: Seq<u8>, e: FsEntryView) -> bool {
    ||| (child.meta is Some && e.name == prefix + child.name@)
    ||| spec_starts_with(e.name, (prefix + child.name@).push(SLASH))
}

/// Whether an emitted entry lies at or under the path of some kept child
/// of the list, at position `lo` or later.
pub open spec fn within_some_child(
    children: Seq<FsTreeNode>,
    lo: int,
    skip_hidden: bool,
    ignore: Seq<Seq<u8>>,
    prefix: Seq<u8>,
    e: FsEntryView,
) -> bool {
    exists|j: int|
        lo <= j < children.len() && spec_keep_child(
            (#[trigger] children[j]).name@,
            skip_hidden,
            ignore,
        ) && within_child(children[j], prefix, e)
}

/// Everything a kept child contributes lies at or under the child's own
/// path, and its own path is recorded only where its metadata was
/// readable.
proof fn lemma_contrib_scope(
    child: FsTreeNode,
    follow_symlinks: bool,
    skip_hidden: bool,
    ignore: Seq<Seq<u8>>,
    prefix: Seq<u8>,
)
    ensures
        forall|k: int|
            0 <= k < spec_child_contrib(child, follow_symlinks, skip_hidden, ignore, prefix).len()
                ==> within_child(
                child,
                prefix,
                #[trigger] spec_child_contrib(child, follow_symlinks, skip_hidden, ignore, prefix)[k],
            ),
    decreases child, child.children@.len() + 1,
{
    if spec_keep_child(child.name@, skip_hidden, ignore) {
        let path = prefix + child.name@;
        if spec_descends(child.kind, follow_symlinks) {
            lemma_walk_scope(
                child.children@,
                0,
                follow_symlinks,
                skip_hidden,
                ignore,
                path.push(SLASH),
            );
            let below = spec_walk_children(
                child.children@,
                0,
                follow_symlinks,
                skip_hidden,
                ignore,
                path.push(SLASH),
            );
            assert forall|k: int| 0 <= k < below.len() implies spec_starts_with(
                (#[trigger] below[k]).name,
                path.push(SLASH),
            ) by {
                assert(within_some_child(
                    child.children@,
                    0,
                    skip_hidden,
                    ignore,
                    path.push(SLASH),
                    below[k],
                ));
                let j = choose|j: int|
                    0 <= j < child.children@.len() && spec_keep_child(
                        (#[trigger] child.children@[j]).name@,
                        skip_hidden,
                        ignore,
                    ) && within_child(child.children@[j], path.push(SLASH), below[k]);
                let sub = path.push(SLASH) + child.children@[j].name@;
                if child.children@[j].meta is Some && below[k].name == sub {
                    assert(sub.take(path.push(SLASH).len() as int) =~= path.push(SLASH));
                } else {
                    assert(sub.push(SLASH).take(path.push(SLASH).len() as int) =~= path.push(
                        SLASH,
                    ));
                    lemma_starts_with_trans(below[k].name, sub.push(SLASH), path.push(SLASH));
                }
            }
        }
    }
}

/// Everything the walk of a child list emits lies at or under the path of
/// some kept child of that list.
proof fn lemma_walk_scope(
    children: Seq<FsTreeNode>,
    start: int,
    follow_symlinks: bool,
    skip_hidden: bool,
    ignore: Seq<Seq<u8>>,
    prefix: Seq<u8>,
)
    ensures
        forall|k: int|
            0 <= k < spec_walk_children(
                children,
                start,
                follow_symlinks,
                skip_hidden,
                ignore,
                prefix,
            ).len() ==> within_some_child(
                children,
                start,
                skip_hidden,
                ignore,
                prefix,
                #[trigger] spec_walk_children(
                    children,
                    start,
                    follow_symlinks,
                    skip_hidden,
                    ignore,
                    prefix,
                )[k],
            ),
    decreases children, children.len() - start,
{
    if 0 <= start < children.len() {
        lemma_contrib_scope(children[start], follow_symlinks, skip_hidden, ignore, prefix);
        lemma_walk_scope(children, start + 1, follow_symlinks, skip_hidden, ignore, prefix);
        let c = spec_child_contrib(children[start], follow_symlinks, skip_hidden, ignore, prefix);
        let rest = spec_walk_children(
            children,
            start + 1,
            follow_symlinks,
            skip_hidden,
            ignore,
            prefix,
        );
        let whole = spec_walk_children(
            children,
            start,
            follow_symlinks,
            skip_hidden,
            ignore,
            prefix,
        );
        assert forall|k: int| 0 <= k < whole.len() implies within_some_child(
            children,
            start,
            skip_hidden,
            ignore,
            prefix,
            #[trigger] whole[k],
        ) by {
            if k < c.len() {
                assert(whole[k] == c[k]);
                assert(c.len() > 0);
                assert(spec_keep_child(children[start].name@, skip_hidden, ignore));
                assert(within_child(children[start], prefix, whole[k]));
            } else {
                assert(whole[k] == rest[k - c.len()]);
                assert(within_some_child(
                    children,
                    start + 1,
                    skip_hidden,
                    ignore,
                    prefix,
                    whole[k],
                ));
                let j = choose|j: int|
                    start + 1 <= j < children.len() && spec_keep_child(
                        (#[trigger] children[j]).name@,
                        skip_hidden,
                        ignore,
                    ) && within_child(children[j], prefix, whole[k]);
                assert(start <= j < children.len());
            }
        }
    }
}

/// Pruning: where a name stands in the ignore list, the walk of a tree
/// whose top-level child names are separator-free emits no entry at that
/// name nor under it.
pub proof fn lemma_pruned_subtree_absent(
    children: Seq<FsTreeNode>,
    follow_symlinks: bool,
    skip_hidden: bool,
    ignore: Seq<Seq<u8>>,
    d: Seq<u8>,
)
    requires
        ignore.contains(d),
        !d.contains(SLASH),
        forall|j: int| 0 <= j < children.len() ==> !(#[trigger] children[j].name@).contains(SLASH),
    ensures
        forall|k: int|
            0 <= k < spec_walk_children(
                children,
                0,
                follow_symlinks,
                skip_hidden,
                ignore,
                Seq::empty(),
            ).len() ==> (#[trigger] spec_walk_children(
                children,
                0,
                follow_symlinks,
                skip_hidden,
                ignore,
                Seq::empty(),
            )[k]).name != d && !spec_starts_with(
                spec_walk_children(
                    children,
                    0,
                    follow_symlinks,
                    skip_hidden,
                    ignore,
                    Seq::empty(),
                )[k].name,
                d.push(SLASH),
            ),
{
    let prefix = Seq::<u8>::empty();
    lemma_walk_scope(children, 0, follow_symlinks, skip_hidden, ignore, prefix);
    let whole = spec_walk_children(children, 0, follow_symlinks, skip_hidden, ignore, prefix);
    assert forall|k: int| 0 <= k < whole.len() implies whole[k].name != d && !spec_starts_with(
        whole[k].name,
        d.push(SLASH),
    ) by {
        let e = whole[k];
        assert(within_some_child(children, 0, skip_hidden, ignore, prefix, e));
        let j = choose|j: int|
            0 <= j < children.len() && spec_keep_child(
                (#[trigger] children[j]).name@,
                skip_hidden,
                ignore,
            ) && within_child(children[j], prefix, e);
        let cn = children[j].name@;
        assert(prefix + cn =~= cn);
        assert(cn != d);
        let lc = cn.len() as int;
        let ld = d.len() as int;
        if children[j].meta is Some && e.name == prefix + cn {
            // The child's own path: a separator-free name other than `d`.
            if spec_starts_with(e.name, d.push(SLASH)) {
                assert(e.name.take(ld + 1)[ld] == e.name[ld]);
                assert(d.push(SLASH)[ld] == SLASH);
                assert(cn[ld] == SLASH);
                assert(cn.contains(SLASH));
            }
        } else {
            assert(spec_starts_with(e.name, (prefix + cn).push(SLASH)));
            assert(e.name.take(lc + 1) == cn.push(SLASH));
            if e.name == d {
                assert(e.name.take(lc + 1)[lc] == e.name[lc]);
                assert(cn.push(SLASH)[lc] == SLASH);
                assert(d[lc] == SLASH);
                assert(d.contains(SLASH));
            }
            if spec_starts_with(e.name, d.push(SLASH)) {
                assert(e.name.take(ld + 1) == d.push(SLASH));
                if lc == ld {
                    assert forall|x: int| 0 <= x < lc implies cn[x] == d[x] by {
                        assert(e.name.take(lc + 1)[x] == e.name[x]);
                        assert(e.name.take(ld + 1)[x] == e.name[x]);
                        assert(cn.push(SLASH)[x] == cn[x]);
                        assert(d.push(SLASH)[x] == d[x]);
                    }
                    assert(cn =~= d);
                } else if lc < ld {
                    assert(e.name.take(lc + 1)[lc] == e.name[lc]);
                    assert(e.name.take(ld + 1)[lc] == e.name[lc]);
                    assert(cn.push(SLASH)[lc] == SLASH);
                    assert(d.push(SLASH)[lc] == d[lc]);
                    assert(d[lc] == SLASH);
                    assert(d.contains(SLASH));
                } else {
                    assert(e.name.take(lc + 1)[ld] == e.name[ld]);
                    assert(e.name.take(ld + 1)[ld] == e.name[ld]);
                    assert(d.push(SLASH)[ld] == SLASH);
                    assert(cn.push(SLASH)[ld] == cn[ld]);
                    assert(cn[ld] == SLASH);
                    assert(cn.contains(SLASH));
                }
            }
        }
    }
}

/// Partial-failure resilience, first half: a child whose metadata was
/// unreadable leaves no entry at its own path, provided its siblings
/// carry distinct names and its own name is separator-free.
pub proof fn lemma_unreadable_entry_absent(
    children: Seq<FsTreeNode>,
    follow_symlinks: bool,
    skip_hidden: bool,
    ignore: Seq<Seq<u8>>,
    prefix: Seq<u8>,
    j: int,
)
    requires
        0 <= j < children.len(),
        children[j].meta is None,
        !children[j].name@.contains(SLASH),
        forall|a: int, b: int|
            0 <= a < b < children.len() ==> (#[trigger] children[a].name@) != (
            #[trigger] children[b].name@),
    ensures
        forall|k: int|
            0 <= k < spec_walk_children(
                children,
                0,
                follow_symlinks,
                skip_hidden,
                ignore,
                prefix,
            ).len() ==> (#[trigger] spec_walk_children(
                children,
                0,
                follow_symlinks,
                skip_hidden,
                ignore,
                prefix,
            )[k]).name != prefix + children[j].name@,
{
    lemma_walk_scope(children, 0, follow_symlinks, skip_hidden, ignore, prefix);
    let whole = spec_walk_children(children, 0, follow_symlinks, skip_hidden, ignore, prefix);
    let p = prefix + children[j].name@;
    assert forall|k: int| 0 <= k < whole.len() implies (#[trigger] whole[k]).name != p by {
        let e = whole[k];
        assert(within_some_child(children, 0, skip_hidden, ignore, prefix, e));
        let j2 = choose|j2: int|
            0 <= j2 < children.len() && spec_keep_child(
                (#[trigger] children[j2]).name@,
                skip_hidden,
                ignore,
            ) && within_child(children[j2], prefix, e);
        let cn = children[j2].name@;
        if children[j2].meta is Some && e.name == prefix + cn {
            // Not the failed child: that one records nothing of its own.
            assert(j2 != j);
            if e.name == p {
                assert((prefix + cn).skip(prefix.len() as int) =~= cn);
                assert((prefix + children[j].name@).skip(prefix.len() as int)
                    =~= children[j].name@);
                assert(cn == children[j].name@);
                if j2 < j {
                    assert(children[j2].name@ != children[j].name@);
                } else {
                    assert(children[j].name@ != children[j2].name@);
                }
            }
        } else {
            assert(spec_starts_with(e.name, (prefix + cn).push(SLASH)));
            if e.name == p {
                let lpc = (prefix + cn).len() as int;
                assert(p.take(lpc + 1) == (prefix + cn).push(SLASH));
                assert(p.len() >= lpc + 1);
                assert(p.take(lpc + 1)[lpc] == p[lpc]);
                assert((prefix + cn).push(SLASH)[lpc] == SLASH);
                assert(p[lpc] == SLASH);
                assert(p[lpc] == children[j].name@[lpc - prefix.len()]);
                assert(children[j].name@.contains(SLASH));
            }
        }
    }
}

/// Partial-failure resilience, second half: a kept sibling whose metadata
/// was readable still has its own entry in the walk's output.
pub proof fn lemma_readable_sibling_present(
    children: Seq<FsTreeNode>,
    start: int,
    follow_symlinks: bool,
    skip_hidden: bool,
    ignore: Seq<Seq<u8>>,
    prefix: Seq<u8>,
    j: int,
)
    requires
        0 <= start <= j < children.len(),
        spec_keep_child(children[j].name@, skip_hidden, ignore),
        children[j].meta is Some,
    ensures
        spec_walk_children(children, start, follow_symlinks, skip_hidden, ignore, prefix).contains(
            entry_view_of(prefix + children[j].name@, children[j].meta->0, children[j].kind),
        ),
    decreases j - start,
{
    let whole = spec_walk_children(children, start, follow_symlinks, skip_hidden, ignore, prefix);
    let c = spec_child_contrib(children[start], follow_symlinks, skip_hidden, ignore, prefix);
    let rest = spec_walk_children(
        children,
        start + 1,
        follow_symlinks,
        skip_hidden,
        ignore,
        prefix,
    );
    let e = entry_view_of(prefix + children[j].name@, children[j].meta->0, children[j].kind);
    if j == start {
        assert(c[0] == e);
        assert(whole[0] == e);
        assert(whole.contains(e));
    } else {
        lemma_readable_sibling_present(
            children,
            start + 1,
            follow_symlinks,
            skip_hidden,
            ignore,
            prefix,
            j,
        );
        let i = choose|i: int| 0 <= i < rest.len() && rest[i] == e;
        assert(whole[c.len() + i] == e);
        assert(whole.contains(e));
    }
}

} // verus!
