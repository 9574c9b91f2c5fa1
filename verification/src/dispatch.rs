//! The dispatcher's logic: filtering a change-set into its two directions,
//! partitioning the synchronization candidates into bounded batches, and
//! building each batch's part-file contents. Spawning the external tool
//! and touching the filesystem stay outside the library.

use vstd::prelude::*;

use crate::entry::ChangedFsEntry;
use crate::entry::ChangedFsEntryView;
use crate::entry::ChangedFsEntries;
use crate::entry::FsEntryKind;
use crate::entry::FsEntryView;
use crate::entry::change_views;
use crate::entry::copy_bytes;
use crate::diff::spec_diff;
use crate::diff::lemma_sync_delete_disjoint;

verus! {

/// The synchronization candidates of a change-set, in order.
pub open spec fn spec_sync_list(cs: Seq<ChangedFsEntryView>) -> Seq<ChangedFsEntryView>
    decreases cs.len(),
{
    if cs.len() == 0 {
        Seq::empty()
    } else {
        spec_sync_list(cs.drop_last()) + (if !cs.last().is_deleted {
            seq![cs.last()]
        } else {
            Seq::empty()
        })
    }
}

/// The deletion candidates of a change-set, in order.
pub open spec fn spec_delete_list(cs: Seq<ChangedFsEntryView>) -> Seq<ChangedFsEntryView>
    decreases cs.len(),
{
    if cs.len() == 0 {
        Seq::empty()
    } else {
        spec_delete_list(cs.drop_last()) + (if cs.last().is_deleted {
            seq![cs.last()]
        } else {
            Seq::empty()
        })
    }
}

/// The synchronization candidates of a change-set: the entries not marked
/// for deletion, in change-set order.
pub fn to_sync(cs: &ChangedFsEntries) -> (r: Vec<ChangedFsEntry>)
    ensures
        change_views(r@) == spec_sync_list(cs@),
{
    filter_changes(cs, false)
}

/// The deletion candidates of a change-set: the entries marked for
/// deletion, in change-set order.
pub fn to_delete(cs: &ChangedFsEntries) -> (r: Vec<ChangedFsEntry>)
    ensures
        change_views(r@) == spec_delete_list(cs@),
{
    filter_changes(cs, true)
}

/// The entries of the change-set whose deletion mark equals `deleted`.
fn filter_changes(cs: &ChangedFsEntries, deleted: bool) -> (r: Vec<ChangedFsEntry>)
    ensures
        deleted ==> change_views(r@) == spec_delete_list(cs@),
        !deleted ==> change_views(r@) == spec_sync_list(cs@),
{
    let mut out: Vec<ChangedFsEntry> = Vec::new();
    let n = cs.entries.len();
    proof {
        assert(cs@.take(0) =~= Seq::<ChangedFsEntryView>::empty());
        assert(change_views(out@) =~= Seq::<ChangedFsEntryView>::empty());
    }
    for i in 0..n
        invariant
            n == cs.entries@.len(),
            cs@.len() == n,
            deleted ==> change_views(out@) == spec_delete_list(cs@.take(i as int)),
            !deleted ==> change_views(out@) == spec_sync_list(cs@.take(i as int)),
    {
        let c = &cs.entries[i];
        let ghost pre = out@;
        if c.is_deleted == deleted {
            let copy = ChangedFsEntry {
                name: copy_bytes(&c.name),
                kind: c.kind,
                is_deleted: c.is_deleted,
            };
            proof {
                assert(copy@ == c@);
            }
            out.push(copy);
            proof {
                assert(change_views(out@) =~= change_views(pre) + seq![cs@[i as int]]);
            }
        }
        proof {
            assert(cs@.take(i + 1).drop_last() =~= cs@.take(i as int));
            assert(cs@.take(i + 1).last() == cs@[i as int]);
            if c.is_deleted != deleted {
                assert(change_views(out@) =~= change_views(pre) + Seq::<
                    ChangedFsEntryView,
                >::empty());
            }
        }
    }
    proof {
        assert(cs@.take(n as int) =~= cs@);
    }
    out
}

/// The partition of a sequence into consecutive batches of `c` elements,
/// the last batch holding the remainder.
pub open spec fn spec_chunks(s: Seq<ChangedFsEntryView>, c: int) -> Seq<Seq<ChangedFsEntryView>>
    recommends
        c >= 1,
    decreases s.len(),
    when c >= 1
{
    if s.len() == 0 {
        Seq::empty()
    } else if s.len() <= c {
        seq![s]
    } else {
        seq![s.take(c)] + spec_chunks(s.skip(c), c)
    }
}

/// The concatenation of a sequence of batches.
pub open spec fn spec_concat_batches(batches: Seq<Seq<ChangedFsEntryView>>) -> Seq<
    ChangedFsEntryView,
>
    decreases batches.len(),
{
    if batches.len() == 0 {
        Seq::empty()
    } else {
        batches[0] + spec_concat_batches(batches.skip(1))
    }
}

/// The views of a list of batches.
pub open spec fn batch_views(v: Seq<Vec<ChangedFsEntry>>) -> Seq<Seq<ChangedFsEntryView>> {
    Seq::new(v.len(), |i: int| change_views(v[i]@))
}

/// Chunking completeness, first half: the batches concatenate back to the
/// partitioned sequence, so their union holds every element exactly once.
pub proof fn lemma_chunks_concat(s: Seq<ChangedFsEntryView>, c: int)
    requires
        c >= 1,
    ensures
        spec_concat_batches(spec_chunks(s, c)) == s,
    decreases s.len(),
{
    if s.len() == 0 {
        assert(spec_concat_batches(spec_chunks(s, c)) =~= s);
    } else if s.len() <= c {
        assert(seq![s].skip(1) =~= Seq::<Seq<ChangedFsEntryView>>::empty());
        assert(spec_concat_batches(Seq::<Seq<ChangedFsEntryView>>::empty()) == Seq::<
            ChangedFsEntryView,
        >::empty());
        assert(spec_concat_batches(seq![s]) == s + Seq::<ChangedFsEntryView>::empty());
        assert(s + Seq::<ChangedFsEntryView>::empty() =~= s);
    } else {
        lemma_chunks_concat(s.skip(c), c);
        assert((seq![s.take(c)] + spec_chunks(s.skip(c), c)).skip(1) =~= spec_chunks(
            s.skip(c),
            c,
        ));
        assert(s.take(c) + s.skip(c) =~= s);
    }
}

/// Chunking completeness, second half: the batch count is the length
/// divided by `c`, rounded up, every batch is nonempty and holds at most
/// `c` elements, and every batch but the last holds exactly `c`.
pub proof fn lemma_chunks_count(s: Seq<ChangedFsEntryView>, c: int)
    requires
        c >= 1,
    ensures
        spec_chunks(s, c).len() == (s.len() + c - 1) / c,
        forall|b: int|
            0 <= b < spec_chunks(s, c).len() ==> 1 <= (#[trigger] spec_chunks(s, c)[b]).len()
                <= c,
        forall|b: int|
            0 <= b < spec_chunks(s, c).len() - 1 ==> (#[trigger] spec_chunks(s, c)[b]).len() == c,
    decreases s.len(),
{
    let n = s.len() as int;
    if s.len() == 0 {
        assert((0 + c - 1) / c == 0) by (nonlinear_arith)
            requires
                c >= 1,
        ;
    } else if s.len() <= c {
        assert((n + c - 1) / c == 1) by (nonlinear_arith)
            requires
                1 <= n <= c,
        ;
    } else {
        lemma_chunks_count(s.skip(c), c);
        assert(s.skip(c).len() == n - c);
        assert((n - c + c - 1) / c + 1 == (n + c - 1) / c) by (nonlinear_arith)
            requires
                c >= 1,
                n > c,
        ;
        let whole = spec_chunks(s, c);
        let rest = spec_chunks(s.skip(c), c);
        assert(whole == seq![s.take(c)] + rest);
        assert forall|b: int| 0 <= b < whole.len() implies 1 <= (#[trigger] whole[b]).len()
            <= c by {
            if b == 0 {
                assert(whole[0] == s.take(c));
            } else {
                assert(whole[b] == rest[b - 1]);
            }
        }
        assert forall|b: int| 0 <= b < whole.len() - 1 implies (#[trigger] whole[b]).len()
            == c by {
            if b == 0 {
                assert(whole[0] == s.take(c));
            } else {
                assert(whole[b] == rest[b - 1]);
            }
        }
    }
}

/// Partitions the synchronization candidates into consecutive batches of
/// `chunk_size` entries; the last batch holds the remainder.
pub fn chunk_changes(entries: Vec<ChangedFsEntry>, chunk_size: usize) -> (r: Vec<
    Vec<ChangedFsEntry>,
>)
    requires
        chunk_size >= 1,
    ensures
        batch_views(r@) == spec_chunks(change_views(entries@), chunk_size as int),
{
    let ghost orig = change_views(entries@);
    let c = chunk_size;
    let mut out: Vec<Vec<ChangedFsEntry>> = Vec::new();
    let mut cur = entries;
    proof {
        assert(batch_views(out@) =~= Seq::<Seq<ChangedFsEntryView>>::empty());
        assert(batch_views(out@) + spec_chunks(change_views(cur@), c as int) =~= spec_chunks(
            orig,
            c as int,
        ));
    }
    while cur.len() > c
        invariant
            c == chunk_size >= 1,
            batch_views(out@) + spec_chunks(change_views(cur@), c as int) == spec_chunks(
                orig,
                c as int,
            ),
        decreases cur@.len(),
    {
        let ghost curv = change_views(cur@);
        let rest = cur.split_off(c);
        proof {
            assert(change_views(cur@) =~= curv.take(c as int));
            assert(change_views(rest@) =~= curv.skip(c as int));
        }
        let ghost outpre = out@;
        out.push(cur);
        proof {
            assert(batch_views(out@) =~= batch_views(outpre) + seq![curv.take(c as int)]);
            assert(spec_chunks(curv, c as int) == seq![curv.take(c as int)] + spec_chunks(
                curv.skip(c as int),
                c as int,
            ));
            assert(batch_views(out@) + spec_chunks(curv.skip(c as int), c as int)
                =~= batch_views(outpre) + spec_chunks(curv, c as int));
        }
        cur = rest;
    }
    if cur.len() > 0 {
        let ghost curv = change_views(cur@);
        let ghost outpre = out@;
        out.push(cur);
        proof {
            assert(spec_chunks(curv, c as int) =~= seq![curv]);
            assert(batch_views(out@) =~= batch_views(outpre) + seq![curv]);
        }
    } else {
        proof {
            assert(spec_chunks(change_views(cur@), c as int) =~= Seq::<
                Seq<ChangedFsEntryView>,
            >::empty());
            assert(batch_views(out@) + Seq::<Seq<ChangedFsEntryView>>::empty() =~= batch_views(
                out@,
            ));
        }
    }
    out
}

/// The batch size used for a run: the explicit one where given, otherwise
/// the candidate count divided by the worker count, floored, and clamped
/// to at least one.
pub fn resolve_chunk_size(explicit: Option<usize>, sync_count: usize, threads: usize) -> (r:
    usize)
    requires
        threads >= 1,
        explicit is Some ==> explicit->0 >= 1,
    ensures
        r >= 1,
        explicit is Some ==> r == explicit->0,
        explicit is None ==> r == if sync_count / threads >= 1 {
            sync_count / threads
        } else {
            1
        },
{
    match explicit {
        Some(c) => c,
        None => {
            let c = sync_count / threads;
            if c == 0 {
                1
            } else {
                c
            }
        },
    }
}

/// The bytes of one batch's part file: the entries' paths joined by a
/// single null byte.
pub open spec fn spec_null_joined(cs: Seq<ChangedFsEntryView>) -> Seq<u8>
    decreases cs.len(),
{
    if cs.len() == 0 {
        Seq::empty()
    } else if cs.len() == 1 {
        cs[0].name
    } else {
        spec_null_joined(cs.drop_last()) + seq![0u8] + cs.last().name
    }
}

/// Builds one batch's part-file contents: the paths of its entries,
/// null-separated.
pub fn part_file_bytes(batch: &Vec<ChangedFsEntry>) -> (r: Vec<u8>)
    ensures
        r@ == spec_null_joined(change_views(batch@)),
{
    let mut out: Vec<u8> = Vec::new();
    let n = batch.len();
    proof {
        assert(change_views(batch@).take(0) =~= Seq::<ChangedFsEntryView>::empty());
    }
    for i in 0..n
        invariant
            n == batch@.len(),
            out@ == spec_null_joined(change_views(batch@).take(i as int)),
    {
        if i > 0 {
            out.push(0);
        }
        crate::codec::push_bytes(&mut out, &batch[i].name);
        proof {
            let cv = change_views(batch@);
            assert(cv.take(i + 1).drop_last() =~= cv.take(i as int));
            assert(cv.take(i + 1).last() == cv[i as int]);
            if i == 0 {
                assert(out@ =~= spec_null_joined(cv.take(1)));
            } else {
                assert(out@ =~= spec_null_joined(cv.take(i as int)) + seq![0u8] + cv[i as int].name);
            }
        }
    }
    proof {
        assert(change_views(batch@).take(n as int) =~= change_views(batch@));
    }
    out
}

/// What the deletion pass does with one extraneous entry: remove the
/// whole subtree for a directory, remove the single object for a file or
/// a symbolic link.
#[derive(Clone, Copy, Debug, PartialEq, Eq, Structural)]
pub enum DeleteAction {
    RemoveTree,
    RemoveFile,
}

/// Every synchronization candidate is an element of the change-set and
/// is not marked for deletion.
proof fn lemma_sync_list_members(cs: Seq<ChangedFsEntryView>)
    ensures
        forall|k: int|
            0 <= k < spec_sync_list(cs).len() ==> !(#[trigger] spec_sync_list(cs)[k]).is_deleted
                && cs.contains(spec_sync_list(cs)[k]),
    decreases cs.len(),
{
    if cs.len() == 0 {
    } else {
        let d = cs.drop_last();
        lemma_sync_list_members(d);
        let whole = spec_sync_list(cs);
        let prev = spec_sync_list(d);
        assert forall|k: int| 0 <= k < whole.len() implies !(#[trigger] whole[k]).is_deleted
            && cs.contains(whole[k]) by {
            if k < prev.len() {
                assert(whole[k] == prev[k]);
                let i = choose|i: int| 0 <= i < d.len() && d[i] == prev[k];
                assert(cs[i] == whole[k]);
            } else {
                assert(whole[k] == cs.last());
                assert(cs[cs.len() - 1] == whole[k]);
            }
        }
    }
}

/// Every deletion candidate is an element of the change-set and is
/// marked for deletion.
proof fn lemma_delete_list_members(cs: Seq<ChangedFsEntryView>)
    ensures
        forall|k: int|
            0 <= k < spec_delete_list(cs).len() ==> (#[trigger] spec_delete_list(
                cs,
            )[k]).is_deleted && cs.contains(spec_delete_list(cs)[k]),
    decreases cs.len(),
{
    if cs.len() == 0 {
    } else {
        let d = cs.drop_last();
        lemma_delete_list_members(d);
        let whole = spec_delete_list(cs);
        let prev = spec_delete_list(d);
        assert forall|k: int| 0 <= k < whole.len() implies (#[trigger] whole[k]).is_deleted
            && cs.contains(whole[k]) by {
            if k < prev.len() {
                assert(whole[k] == prev[k]);
                let i = choose|i: int| 0 <= i < d.len() && d[i] == prev[k];
                assert(cs[i] == whole[k]);
            } else {
                assert(whole[k] == cs.last());
                assert(cs[cs.len() - 1] == whole[k]);
            }
        }
    }
}

/// Every element of every batch is an element of the partitioned
/// sequence.
proof fn lemma_chunk_members(s: Seq<ChangedFsEntryView>, c: int)
    requires
        c >= 1,
    ensures
        forall|b: int, k: int|
            0 <= b < spec_chunks(s, c).len() && 0 <= k < spec_chunks(s, c)[b].len()
                ==> s.contains(#[trigger] spec_chunks(s, c)[b][k]),
    decreases s.len(),
{
    if s.len() == 0 {
    } else if s.len() <= c {
        assert forall|b: int, k: int|
            0 <= b < spec_chunks(s, c).len() && 0 <= k < spec_chunks(s, c)[b].len() implies s
            .contains(#[trigger] spec_chunks(s, c)[b][k]) by {
            assert(spec_chunks(s, c)[b] == s);
        }
    } else {
        lemma_chunk_members(s.skip(c), c);
        let whole = spec_chunks(s, c);
        let rest = spec_chunks(s.skip(c), c);
        assert forall|b: int, k: int|
            0 <= b < whole.len() && 0 <= k < whole[b].len() implies s.contains(
            #[trigger] whole[b][k],
        ) by {
            if b == 0 {
                assert(whole[0] == s.take(c));
                assert(s.take(c)[k] == s[k]);
            } else {
                assert(whole[b] == rest[b - 1]);
                assert(s.skip(c).contains(rest[b - 1][k]));
                let i = choose|i: int| 0 <= i < s.skip(c).len() && s.skip(c)[i] == rest[b - 1][k];
                assert(s[c + i] == whole[b][k]);
            }
        }
    }
}

/// Deletion isolation: no path of any synchronization batch built from a
/// change-set the diff produced also stands in that change-set's deletion
/// list.
pub proof fn lemma_deletion_isolation(auth: Seq<FsEntryView>, mir: Seq<FsEntryView>, c: int)
    requires
        c >= 1,
    ensures
        forall|b: int, k: int, j: int|
            0 <= b < spec_chunks(spec_sync_list(spec_diff(auth, mir)), c).len() && 0 <= k
                < spec_chunks(spec_sync_list(spec_diff(auth, mir)), c)[b].len() && 0 <= j
                < spec_delete_list(spec_diff(auth, mir)).len() ==> (#[trigger] spec_chunks(
                spec_sync_list(spec_diff(auth, mir)),
                c,
            )[b][k]).name != (#[trigger] spec_delete_list(spec_diff(auth, mir))[j]).name,
{
    let d = spec_diff(auth, mir);
    let sync = spec_sync_list(d);
    let dels = spec_delete_list(d);
    let chunks = spec_chunks(sync, c);
    lemma_sync_list_members(d);
    lemma_delete_list_members(d);
    lemma_chunk_members(sync, c);
    lemma_sync_delete_disjoint(auth, mir);
    assert forall|b: int, k: int, j: int|
        0 <= b < chunks.len() && 0 <= k < chunks[b].len() && 0 <= j < dels.len() implies (
    #[trigger] chunks[b][k]).name != (#[trigger] dels[j]).name by {
        let e1 = chunks[b][k];
        let e2 = dels[j];
        assert(sync.contains(e1));
        let k1 = choose|k1: int| 0 <= k1 < sync.len() && sync[k1] == e1;
        assert(d.contains(sync[k1]));
        let i1 = choose|i1: int| 0 <= i1 < d.len() && d[i1] == e1;
        assert(d.contains(dels[j]));
        let i2 = choose|i2: int| 0 <= i2 < d.len() && d[i2] == e2;
        assert(!d[i1].is_deleted && d[i2].is_deleted);
    }
}

/// The removal a deletion entry's kind calls for.
pub fn deletion_action(kind: FsEntryKind) -> (r: DeleteAction)
    ensures
        r == DeleteAction::RemoveTree <==> kind == FsEntryKind::Directory,
{
    match kind {
        FsEntryKind::Directory => DeleteAction::RemoveTree,
        FsEntryKind::File => DeleteAction::RemoveFile,
        FsEntryKind::Symlink => DeleteAction::RemoveFile,
    }
}

} // verus!
