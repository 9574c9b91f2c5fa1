//! The change-set engine: a directional comparison of two snapshots, the
//! authoritative side first, the mirror side second.

use vstd::prelude::*;

use crate::entry::ChangedFsEntry;
use crate::entry::ChangedFsEntryView;
use crate::entry::ChangedFsEntries;
use crate::entry::FsEntry;
use crate::entry::FsEntryView;
use crate::entry::FsEntries;
use crate::entry::bytes_eq;
use crate::entry::change_views;
use crate::entry::copy_bytes;
use crate::entry::unique_names;

verus! {

/// The first entry carrying the given path, if any.
pub open spec fn spec_lookup(s: Seq<FsEntryView>, name: Seq<u8>) -> Option<FsEntryView>
    decreases s.len(),
{
    if s.len() == 0 {
        None
    } else if s[0].name == name {
        Some(s[0])
    } else {
        spec_lookup(s.skip(1), name)
    }
}

/// Whether some entry of the snapshot carries the path.
pub open spec fn spec_contains_name(s: Seq<FsEntryView>, name: Seq<u8>) -> bool {
    spec_lookup(s, name) is Some
}

/// Whether two entries agree on every metadata field other than the path:
/// owner, group, mode, modification time, inode, size and kind, all by
/// exact equality.
pub open spec fn spec_meta_eq(a: FsEntryView, b: FsEntryView) -> bool {
    a.owner == b.owner && a.group == b.group && a.mode == b.mode && a.mtime == b.mtime && a.inode
        == b.inode && a.size == b.size && a.kind == b.kind
}

/// What one mirror entry contributes to the change-set: a synchronization
/// candidate where the authoritative side holds the path with different
/// metadata (carrying the authoritative kind), a deletion candidate where
/// the authoritative side lacks the path, nothing where the two sides
/// agree.
pub open spec fn spec_mirror_change(auth: Seq<FsEntryView>, m: FsEntryView) -> Option<
    ChangedFsEntryView,
> {
    match spec_lookup(auth, m.name) {
        Some(a) => if !spec_meta_eq(a, m) {
            Some(ChangedFsEntryView { name: m.name, kind: a.kind, is_deleted: false })
        } else {
            None
        },
        None => Some(ChangedFsEntryView { name: m.name, kind: m.kind, is_deleted: true }),
    }
}

/// What one authoritative entry contributes: a synchronization candidate
/// where the mirror lacks the path, nothing otherwise.
pub open spec fn spec_new_change(mirror: Seq<FsEntryView>, a: FsEntryView) -> Option<
    ChangedFsEntryView,
> {
    if spec_contains_name(mirror, a.name) {
        None
    } else {
        Some(ChangedFsEntryView { name: a.name, kind: a.kind, is_deleted: false })
    }
}

/// An optional change as a sequence of zero or one elements.
pub open spec fn opt_change(o: Option<ChangedFsEntryView>) -> Seq<ChangedFsEntryView> {
    match o {
        None => Seq::empty(),
        Some(c) => seq![c],
    }
}

/// The first pass: every mirror entry's contribution, in mirror order.
pub open spec fn spec_mirror_pass(auth: Seq<FsEntryView>, mir: Seq<FsEntryView>) -> Seq<
    ChangedFsEntryView,
>
    decreases mir.len(),
{
    if mir.len() == 0 {
        Seq::empty()
    } else {
        spec_mirror_pass(auth, mir.drop_last()) + opt_change(spec_mirror_change(auth, mir.last()))
    }
}

/// The second pass: every authoritative entry's contribution, in
/// authoritative order.
pub open spec fn spec_new_pass(mirror: Seq<FsEntryView>, auth: Seq<FsEntryView>) -> Seq<
    ChangedFsEntryView,
>
    decreases auth.len(),
{
    if auth.len() == 0 {
        Seq::empty()
    } else {
        spec_new_pass(mirror, auth.drop_last()) + opt_change(
            spec_new_change(mirror, auth.last()),
        )
    }
}

/// The whole change-set: the mirror pass, then the authoritative pass.
pub open spec fn spec_diff(auth: Seq<FsEntryView>, mir: Seq<FsEntryView>) -> Seq<
    ChangedFsEntryView,
> {
    spec_mirror_pass(auth, mir) + spec_new_pass(mir, auth)
}

/// The index of the first entry carrying the path, if any.
fn lookup(entries: &Vec<FsEntry>, name: &Vec<u8>) -> (r: Option<usize>)
    ensures
        r is Some <==> spec_contains_name(crate::entry::entry_views(entries@), name@),
        r is Some ==> r->0 < entries@.len() && spec_lookup(
            crate::entry::entry_views(entries@),
            name@,
        ) == Some(entries@[r->0 as int]@),
{
    let views = Ghost(crate::entry::entry_views(entries@));
    let n = entries.len();
    proof {
        assert(views@.skip(0) =~= views@);
    }
    for i in 0..n
        invariant
            n == entries@.len(),
            views@ == crate::entry::entry_views(entries@),
            views@.len() == n,
            spec_lookup(views@, name@) == spec_lookup(views@.skip(i as int), name@),
    {
        if bytes_eq(&entries[i].name, name) {
            proof {
                assert(views@.skip(i as int)[0] == views@[i as int]);
                assert(views@[i as int].name == name@);
            }
            return Some(i);
        }
        proof {
            assert(views@.skip(i as int)[0] == views@[i as int]);
            assert(views@.skip(i as int).skip(1) =~= views@.skip(i + 1));
        }
    }
    proof {
        assert(views@.skip(n as int) =~= Seq::<FsEntryView>::empty());
    }
    None
}

/// Whether every metadata field of the two entries other than the path
/// agrees.
pub fn meta_eq(a: &FsEntry, b: &FsEntry) -> (r: bool)
    ensures
        r == spec_meta_eq(a@, b@),
{
    a.owner == b.owner && a.group == b.group && a.mode == b.mode && a.mtime == b.mtime && a.inode
        == b.inode && a.size == b.size && a.kind == b.kind
}

/// Compares two snapshots and returns the change-set: for every mirror
/// path, a synchronization candidate where the authoritative metadata
/// differs or a deletion candidate where the authoritative side lacks the
/// path; then, for every authoritative path absent from the mirror, a
/// synchronization candidate.
pub fn diff(auth: &FsEntries, mirror: &FsEntries) -> (r: ChangedFsEntries)
    ensures
        r@ == spec_diff(auth@, mirror@),
{
    let mut out: Vec<ChangedFsEntry> = Vec::new();
    let nm = mirror.entries.len();
    proof {
        assert(mirror@.take(0) =~= Seq::<FsEntryView>::empty());
        assert(change_views(out@) =~= spec_mirror_pass(auth@, mirror@.take(0)));
    }
    for i in 0..nm
        invariant
            nm == mirror.entries@.len(),
            mirror@.len() == nm,
            change_views(out@) == spec_mirror_pass(auth@, mirror@.take(i as int)),
    {
        let m = &mirror.entries[i];
        let ghost pre = out@;
        match lookup(&auth.entries, &m.name) {
            Some(j) => {
                if !meta_eq(&auth.entries[j], m) {
                    let c = ChangedFsEntry {
                        name: copy_bytes(&m.name),
                        kind: auth.entries[j].kind,
                        is_deleted: false,
                    };
                    proof {
                        assert(spec_mirror_change(auth@, m@) == Some(c@));
                    }
                    out.push(c);
                }
            },
            None => {
                let c = ChangedFsEntry {
                    name: copy_bytes(&m.name),
                    kind: m.kind,
                    is_deleted: true,
                };
                proof {
                    assert(spec_mirror_change(auth@, m@) == Some(c@));
                }
                out.push(c);
            },
        }
        proof {
            assert(mirror@.take(i + 1).drop_last() =~= mirror@.take(i as int));
            assert(mirror@.take(i + 1).last() == m@);
            assert(change_views(out@) =~= change_views(pre) + opt_change(
                spec_mirror_change(auth@, m@),
            ));
        }
    }
    proof {
        assert(mirror@.take(nm as int) =~= mirror@);
        assert(auth@.take(0) =~= Seq::<FsEntryView>::empty());
        assert(spec_new_pass(mirror@, auth@.take(0)) =~= Seq::<ChangedFsEntryView>::empty());
        assert(change_views(out@) =~= spec_mirror_pass(auth@, mirror@) + spec_new_pass(
            mirror@,
            auth@.take(0),
        ));
    }
    let na = auth.entries.len();
    for i in 0..na
        invariant
            na == auth.entries@.len(),
            auth@.len() == na,
            change_views(out@) == spec_mirror_pass(auth@, mirror@) + spec_new_pass(
                mirror@,
                auth@.take(i as int),
            ),
    {
        let a = &auth.entries[i];
        let ghost pre = out@;
        match lookup(&mirror.entries, &a.name) {
            Some(_) => {
                proof {
                    assert(spec_new_change(mirror@, a@) is None);
                }
            },
            None => {
                let c = ChangedFsEntry {
                    name: copy_bytes(&a.name),
                    kind: a.kind,
                    is_deleted: false,
                };
                proof {
                    assert(spec_new_change(mirror@, a@) == Some(c@));
                }
                out.push(c);
            },
        }
        proof {
            assert(auth@.take(i + 1).drop_last() =~= auth@.take(i as int));
            assert(auth@.take(i + 1).last() == a@);
            assert(change_views(out@) =~= change_views(pre) + opt_change(
                spec_new_change(mirror@, a@),
            ));
            assert(change_views(pre) + opt_change(spec_new_change(mirror@, a@))
                =~= spec_mirror_pass(auth@, mirror@) + spec_new_pass(mirror@, auth@.take(i + 1)));
        }
    }
    proof {
        assert(auth@.take(na as int) =~= auth@);
    }
    ChangedFsEntries { entries: out }
}

/// Under unique paths, looking a path up finds the entry that carries it.
proof fn lemma_lookup_found(s: Seq<FsEntryView>, i: int)
    requires
        unique_names(s),
        0 <= i < s.len(),
    ensures
        spec_lookup(s, s[i].name) == Some(s[i]),
    decreases s.len(),
{
    if i == 0 {
    } else {
        assert(s[0].name != s[i].name);
        let t = s.skip(1);
        assert(forall|a: int, b: int|
            0 <= a < b < t.len() ==> t[a] == s[a + 1] && t[b] == s[b + 1]);
        lemma_lookup_found(t, i - 1);
        assert(t[i - 1] == s[i]);
    }
}

/// A path carried by some entry is contained in the snapshot.
proof fn lemma_member_contained(s: Seq<FsEntryView>, i: int)
    requires
        0 <= i < s.len(),
    ensures
        spec_contains_name(s, s[i].name),
    decreases s.len(),
{
    if i == 0 {
    } else if s[0].name == s[i].name {
    } else {
        let t = s.skip(1);
        lemma_member_contained(t, i - 1);
        assert(t[i - 1] == s[i]);
    }
}

/// A mirror pass whose every entry contributes nothing is empty.
proof fn lemma_mirror_pass_all_none(auth: Seq<FsEntryView>, mir: Seq<FsEntryView>)
    requires
        forall|j: int|
            0 <= j < mir.len() ==> (#[trigger] spec_mirror_change(auth, mir[j])) is None,
    ensures
        spec_mirror_pass(auth, mir) == Seq::<ChangedFsEntryView>::empty(),
    decreases mir.len(),
{
    if mir.len() == 0 {
    } else {
        let d = mir.drop_last();
        assert(forall|j: int| 0 <= j < d.len() ==> d[j] == mir[j]);
        lemma_mirror_pass_all_none(auth, d);
        assert(spec_mirror_change(auth, mir.last()) is None);
        assert(spec_mirror_pass(auth, mir) =~= Seq::<ChangedFsEntryView>::empty());
    }
}

/// An authoritative pass whose every entry contributes nothing is empty.
proof fn lemma_new_pass_all_none(mirror: Seq<FsEntryView>, auth: Seq<FsEntryView>)
    requires
        forall|j: int|
            0 <= j < auth.len() ==> (#[trigger] spec_new_change(mirror, auth[j])) is None,
    ensures
        spec_new_pass(mirror, auth) == Seq::<ChangedFsEntryView>::empty(),
    decreases auth.len(),
{
    if auth.len() == 0 {
    } else {
        let d = auth.drop_last();
        assert(forall|j: int| 0 <= j < d.len() ==> d[j] == auth[j]);
        lemma_new_pass_all_none(mirror, d);
        assert(spec_new_change(mirror, auth.last()) is None);
        assert(spec_new_pass(mirror, auth) =~= Seq::<ChangedFsEntryView>::empty());
    }
}

/// Comparing a snapshot with itself yields an empty change-set.
pub proof fn lemma_diff_self_empty(s: Seq<FsEntryView>)
    requires
        unique_names(s),
    ensures
        spec_diff(s, s) == Seq::<ChangedFsEntryView>::empty(),
{
    assert forall|j: int| 0 <= j < s.len() implies (#[trigger] spec_mirror_change(
        s,
        s[j],
    )) is None by {
        lemma_lookup_found(s, j);
        assert(spec_meta_eq(s[j], s[j]));
    }
    lemma_mirror_pass_all_none(s, s);
    assert forall|j: int| 0 <= j < s.len() implies (#[trigger] spec_new_change(
        s,
        s[j],
    )) is None by {
        lemma_member_contained(s, j);
    }
    lemma_new_pass_all_none(s, s);
    assert(spec_diff(s, s) =~= Seq::<ChangedFsEntryView>::empty());
}

/// Every change of the mirror pass marked for deletion carries a path the
/// authoritative side lacks, and every other one a path it holds.
proof fn lemma_mirror_pass_members(auth: Seq<FsEntryView>, mir: Seq<FsEntryView>)
    ensures
        forall|k: int|
            0 <= k < spec_mirror_pass(auth, mir).len() ==> ((#[trigger] spec_mirror_pass(
                auth,
                mir,
            )[k]).is_deleted <==> !spec_contains_name(auth, spec_mirror_pass(auth, mir)[k].name)),
    decreases mir.len(),
{
    if mir.len() == 0 {
    } else {
        lemma_mirror_pass_members(auth, mir.drop_last());
    }
}

/// Every change of the authoritative pass is a synchronization candidate
/// whose path some authoritative entry carries.
proof fn lemma_new_pass_members(mirror: Seq<FsEntryView>, auth: Seq<FsEntryView>)
    ensures
        forall|k: int|
            0 <= k < spec_new_pass(mirror, auth).len() ==> !(#[trigger] spec_new_pass(
                mirror,
                auth,
            )[k]).is_deleted && spec_contains_name(auth, spec_new_pass(mirror, auth)[k].name),
    decreases auth.len(),
{
    if auth.len() == 0 {
    } else {
        let d = auth.drop_last();
        lemma_new_pass_members(mirror, d);
        let pass = spec_new_pass(mirror, auth);
        let prev = spec_new_pass(mirror, d);
        assert forall|k: int| 0 <= k < pass.len() implies !(#[trigger] pass[k]).is_deleted
            && spec_contains_name(auth, pass[k].name) by {
            if k < prev.len() {
                assert(pass[k] == prev[k]);
                lemma_contains_extend(auth, pass[k].name);
            } else {
                assert(pass[k].name == auth.last().name);
                lemma_member_contained(auth, auth.len() - 1);
            }
        }
    }
}

/// A path contained in a snapshot without its last entry is contained in
/// the whole snapshot.
proof fn lemma_contains_extend(s: Seq<FsEntryView>, name: Seq<u8>)
    requires
        s.len() > 0,
        spec_contains_name(s.drop_last(), name),
    ensures
        spec_contains_name(s, name),
    decreases s.len(),
{
    let d = s.drop_last();
    if d.len() == 0 {
    } else if d[0].name == name {
    } else {
        assert(d.skip(1) =~= s.skip(1).drop_last());
        lemma_contains_extend(s.skip(1), name);
    }
}

/// Deletion isolation at the change-set level: no path marked for
/// synchronization is also marked for deletion, whatever the two
/// snapshots hold.
pub proof fn lemma_sync_delete_disjoint(auth: Seq<FsEntryView>, mir: Seq<FsEntryView>)
    ensures
        forall|i: int, j: int|
            0 <= i < spec_diff(auth, mir).len() && 0 <= j < spec_diff(auth, mir).len() && !(
            #[trigger] spec_diff(auth, mir)[i]).is_deleted && (#[trigger] spec_diff(
                auth,
                mir,
            )[j]).is_deleted ==> spec_diff(auth, mir)[i].name != spec_diff(auth, mir)[j].name,
{
    let d = spec_diff(auth, mir);
    let mp = spec_mirror_pass(auth, mir);
    let np = spec_new_pass(mir, auth);
    lemma_mirror_pass_members(auth, mir);
    lemma_new_pass_members(mir, auth);
    assert forall|i: int, j: int|
        0 <= i < d.len() && 0 <= j < d.len() && !(#[trigger] d[i]).is_deleted && (
        #[trigger] d[j]).is_deleted implies d[i].name != d[j].name by {
        assert(j < mp.len() && d[j] == mp[j]);
        assert(!spec_contains_name(auth, d[j].name));
        if i < mp.len() {
            assert(d[i] == mp[i]);
            assert(spec_contains_name(auth, d[i].name));
        } else {
            assert(d[i] == np[i - mp.len()]);
            assert(spec_contains_name(auth, d[i].name));
        }
    }
}

} // verus!
