//! Metadata records captured by the walker, persisted in snapshots, and
//! compared by the diff engine.

use vstd::prelude::*;

verus! {

/// The kind of filesystem object an entry records: exactly one of a
/// directory, a regular file, or a symbolic link.
#[derive(Clone, Copy, Debug, PartialEq, Eq, Structural)]
pub enum FsEntryKind {
    Directory,
    File,
    Symlink,
}

/// One filesystem object's metadata. `name` is the path relative to the
/// scanned root, forward-slash separated, held as UTF-8 bytes, with no
/// leading `./`. Within one snapshot `name` is the unique key.
#[derive(Clone, Debug)]
pub struct FsEntry {
    pub name: Vec<u8>,
    pub owner: u32,
    pub group: u32,
    pub mode: u32,
    pub mtime: i64,
    pub inode: u64,
    pub size: u64,
    pub kind: FsEntryKind,
}

/// Mathematical image of an `FsEntry`: the path as a byte sequence, the
/// numeric fields unchanged.
#[verifier::ext_equal]
pub struct FsEntryView {
    pub name: Seq<u8>,
    pub owner: u32,
    pub group: u32,
    pub mode: u32,
    pub mtime: i64,
    pub inode: u64,
    pub size: u64,
    pub kind: FsEntryKind,
}

impl View for FsEntry {
    type V = FsEntryView;

    open spec fn view(&self) -> FsEntryView {
        FsEntryView {
            name: self.name@,
            owner: self.owner,
            group: self.group,
            mode: self.mode,
            mtime: self.mtime,
            inode: self.inode,
            size: self.size,
            kind: self.kind,
        }
    }
}

/// A snapshot: the entries captured by one walk of one directory tree,
/// immutable once persisted.
#[derive(Clone, Debug)]
pub struct FsEntries {
    pub entries: Vec<FsEntry>,
}

/// The views of a sequence of entries, in order.
pub open spec fn entry_views(v: Seq<FsEntry>) -> Seq<FsEntryView> {
    Seq::new(v.len(), |i: int| v[i]@)
}

impl View for FsEntries {
    type V = Seq<FsEntryView>;

    open spec fn view(&self) -> Seq<FsEntryView> {
        entry_views(self.entries@)
    }
}

/// One element of a change-set. `is_deleted == true` means the path exists
/// only on the mirror side (candidate for deletion); `false` means the path
/// is new or modified on the authoritative side (candidate for
/// synchronization).
#[derive(Clone, Debug)]
pub struct ChangedFsEntry {
    pub name: Vec<u8>,
    pub kind: FsEntryKind,
    pub is_deleted: bool,
}

/// Mathematical image of a `ChangedFsEntry`.
#[verifier::ext_equal]
pub struct ChangedFsEntryView {
    pub name: Seq<u8>,
    pub kind: FsEntryKind,
    pub is_deleted: bool,
}

impl View for ChangedFsEntry {
    type V = ChangedFsEntryView;

    open spec fn view(&self) -> ChangedFsEntryView {
        ChangedFsEntryView { name: self.name@, kind: self.kind, is_deleted: self.is_deleted }
    }
}

/// A change-set: the output of comparing two snapshots, consumed once by
/// the dispatcher.
#[derive(Clone, Debug)]
pub struct ChangedFsEntries {
    pub entries: Vec<ChangedFsEntry>,
}

/// The views of a sequence of change records, in order.
pub open spec fn change_views(v: Seq<ChangedFsEntry>) -> Seq<ChangedFsEntryView> {
    Seq::new(v.len(), |i: int| v[i]@)
}

impl View for ChangedFsEntries {
    type V = Seq<ChangedFsEntryView>;

    open spec fn view(&self) -> Seq<ChangedFsEntryView> {
        change_views(self.entries@)
    }
}

/// The snapshot invariant: no two entries share a path.
pub open spec fn unique_names(s: Seq<FsEntryView>) -> bool {
    forall|i: int, j: int| 0 <= i < j < s.len() ==> s[i].name != s[j].name
}

/// Byte-for-byte equality of two byte vectors.
pub fn bytes_eq(a: &Vec<u8>, b: &Vec<u8>) -> (r: bool)
    ensures
        r == (a@ == b@),
{
    if a.len() != b.len() {
        return false;
    }
    let n = a.len();
    for i in 0..n
        invariant
            n == a@.len() && n == b@.len(),
            forall|k: int| 0 <= k < i ==> a@[k] == b@[k],
    {
        if a[i] != b[i] {
            return false;
        }
    }
    proof {
        assert(a@ =~= b@);
    }
    true
}

/// A fresh byte vector with the same contents.
pub fn copy_bytes(v: &Vec<u8>) -> (r: Vec<u8>)
    ensures
        r@ == v@,
{
    let mut out: Vec<u8> = Vec::new();
    let n = v.len();
    for i in 0..n
        invariant
            n == v@.len(),
            out@ == v@.take(i as int),
    {
        out.push(v[i]);
        proof {
            assert(out@ =~= v@.take(i + 1));
        }
    }
    proof {
        assert(v@.take(n as int) =~= v@);
    }
    out
}

impl FsEntry {
    /// Whether every metadata field of the two entries agrees, the path
    /// included.
    pub fn same_as(&self, other: &FsEntry) -> (r: bool)
        ensures
            r == (self@ == other@),
    {
        let fields_eq = self.owner == other.owner && self.group == other.group
            && self.mode == other.mode && self.mtime == other.mtime && self.inode == other.inode
            && self.size == other.size && self.kind == other.kind;
        let r = fields_eq && bytes_eq(&self.name, &other.name);
        proof {
            if r {
                assert(self@ =~= other@);
            }
        }
        r
    }
}

impl PartialEq for FsEntry {
    fn eq(&self, other: &FsEntry) -> (r: bool) {
        self.same_as(other)
    }
}

impl vstd::std_specs::cmp::PartialEqSpecImpl for FsEntry {
    open spec fn obeys_eq_spec() -> bool {
        true
    }

    open spec fn eq_spec(&self, other: &FsEntry) -> bool {
        self@ == other@
    }
}

impl ChangedFsEntry {
    /// Whether the two change records agree on path, kind and direction.
    pub fn same_as(&self, other: &ChangedFsEntry) -> (r: bool)
        ensures
            r == (self@ == other@),
    {
        let r = self.kind == other.kind && self.is_deleted == other.is_deleted
            && bytes_eq(&self.name, &other.name);
        proof {
            if r {
                assert(self@ =~= other@);
            }
        }
        r
    }
}

impl PartialEq for ChangedFsEntry {
    fn eq(&self, other: &ChangedFsEntry) -> (r: bool) {
        self.same_as(other)
    }
}

impl vstd::std_specs::cmp::PartialEqSpecImpl for ChangedFsEntry {
    open spec fn obeys_eq_spec() -> bool {
        true
    }

    open spec fn eq_spec(&self, other: &ChangedFsEntry) -> bool {
        self@ == other@
    }
}

} // verus!
