//! Deterministic binary form of a snapshot: one length-prefixed record per
//! entry, fields in the data model's declared order, fixed-width
//! little-endian numerics, the path length-prefixed, and the record list
//! wrapped once in an outer count prefix.

use vstd::prelude::*;
use vstd::bytes::*;

use vstd::slice::slice_subrange;
use vstd::slice::slice_to_vec;

use crate::entry::ChangedFsEntry;
use crate::entry::ChangedFsEntryView;
use crate::entry::ChangedFsEntries;
use crate::entry::FsEntry;
use crate::entry::FsEntryKind;
use crate::entry::FsEntryView;
use crate::entry::FsEntries;
use crate::entry::change_views;
use crate::entry::entry_views;

verus! {

/// Decoding failed: the buffer is truncated, a field cannot be parsed, or
/// trailing bytes remain after the declared number of records.
#[derive(Clone, Copy, Debug, PartialEq, Eq, Structural)]
pub struct FormatError;

/// The byte that tags an entry's kind in the binary form.
pub open spec fn spec_kind_tag(k: FsEntryKind) -> u8 {
    match k {
        FsEntryKind::Directory => 0,
        FsEntryKind::File => 1,
        FsEntryKind::Symlink => 2,
    }
}

/// The kind a tag byte stands for, if any.
pub open spec fn spec_kind_of_tag(t: u8) -> Option<FsEntryKind> {
    if t == 0 {
        Some(FsEntryKind::Directory)
    } else if t == 1 {
        Some(FsEntryKind::File)
    } else if t == 2 {
        Some(FsEntryKind::Symlink)
    } else {
        None
    }
}

/// The body of one record: path length, path bytes, then the numeric
/// fields and the kind tag, in the data model's declared order.
pub open spec fn spec_encode_body(e: FsEntryView) -> Seq<u8> {
    spec_u64_to_le_bytes(e.name.len() as u64) + e.name + spec_u32_to_le_bytes(e.owner)
        + spec_u32_to_le_bytes(e.group) + spec_u32_to_le_bytes(e.mode) + spec_u64_to_le_bytes(
        e.mtime as u64,
    ) + spec_u64_to_le_bytes(e.inode) + spec_u64_to_le_bytes(e.size) + seq![spec_kind_tag(e.kind)]
}

/// One record: its body prefixed with the body's byte length.
pub open spec fn spec_encode_entry(e: FsEntryView) -> Seq<u8> {
    spec_u64_to_le_bytes(spec_encode_body(e).len() as u64) + spec_encode_body(e)
}

/// The concatenation of the records of a sequence of entries.
pub open spec fn spec_encode_entries(s: Seq<FsEntryView>) -> Seq<u8>
    decreases s.len(),
{
    if s.len() == 0 {
        Seq::empty()
    } else {
        spec_encode_entry(s[0]) + spec_encode_entries(s.skip(1))
    }
}

/// A whole snapshot: the entry count, then the records.
pub open spec fn spec_encode_snapshot(s: Seq<FsEntryView>) -> Seq<u8> {
    spec_u64_to_le_bytes(s.len() as u64) + spec_encode_entries(s)
}

/// The body length prefix is faithful only while it fits in a `u64`;
/// every entry held in memory satisfies this.
pub open spec fn entry_len_ok(e: FsEntryView) -> bool {
    e.name.len() + 45 <= u64::MAX
}

pub proof fn lemma_encode_body_len(e: FsEntryView)
    ensures
        spec_encode_body(e).len() == 45 + e.name.len(),
        spec_encode_entry(e).len() == 53 + e.name.len(),
{
    lemma_auto_spec_u64_to_from_le_bytes();
    lemma_auto_spec_u32_to_from_le_bytes();
}

/// Appending one entry on the right extends the record stream on the right.
pub proof fn lemma_encode_entries_snoc(s: Seq<FsEntryView>, e: FsEntryView)
    ensures
        spec_encode_entries(s.push(e)) == spec_encode_entries(s) + spec_encode_entry(e),
    decreases s.len(),
{
    let p = s.push(e);
    if s.len() == 0 {
        assert(p[0] == e);
        assert(p.skip(1) =~= Seq::<FsEntryView>::empty());
        assert(spec_encode_entries(p) == spec_encode_entry(e) + spec_encode_entries(
            Seq::<FsEntryView>::empty(),
        ));
        assert(spec_encode_entry(e) + Seq::<u8>::empty() =~= Seq::<u8>::empty()
            + spec_encode_entry(e));
    } else {
        assert(p[0] == s[0]);
        assert(p.skip(1) =~= s.skip(1).push(e));
        lemma_encode_entries_snoc(s.skip(1), e);
        assert(spec_encode_entries(p) == spec_encode_entry(s[0]) + (spec_encode_entries(s.skip(1))
            + spec_encode_entry(e)));
        assert(spec_encode_entry(s[0]) + (spec_encode_entries(s.skip(1)) + spec_encode_entry(e))
            =~= (spec_encode_entry(s[0]) + spec_encode_entries(s.skip(1))) + spec_encode_entry(e));
    }
}

/// A `u64` read little-endian at `pos`, with the position after it.
pub open spec fn spec_parse_u64(s: Seq<u8>, pos: int) -> Option<(u64, int)> {
    if 0 <= pos && pos + 8 <= s.len() {
        Some((spec_u64_from_le_bytes(s.subrange(pos, pos + 8)), pos + 8))
    } else {
        None
    }
}

/// A `u32` read little-endian at `pos`, with the position after it.
pub open spec fn spec_parse_u32(s: Seq<u8>, pos: int) -> Option<(u32, int)> {
    if 0 <= pos && pos + 4 <= s.len() {
        Some((spec_u32_from_le_bytes(s.subrange(pos, pos + 4)), pos + 4))
    } else {
        None
    }
}

/// `n` raw bytes taken at `pos`, with the position after them.
pub open spec fn spec_parse_bytes(s: Seq<u8>, pos: int, n: int) -> Option<(Seq<u8>, int)> {
    if 0 <= pos && 0 <= n && pos + n <= s.len() {
        Some((s.subrange(pos, pos + n), pos + n))
    } else {
        None
    }
}

/// One record body read at `pos`: the fields in their declared order.
pub open spec fn spec_parse_body(s: Seq<u8>, pos: int) -> Option<(FsEntryView, int)> {
    match spec_parse_u64(s, pos) {
        None => None,
        Some((nlen, p1)) => match spec_parse_bytes(s, p1, nlen as int) {
            None => None,
            Some((name, p2)) => match spec_parse_u32(s, p2) {
                None => None,
                Some((owner, p3)) => match spec_parse_u32(s, p3) {
                    None => None,
                    Some((group, p4)) => match spec_parse_u32(s, p4) {
                        None => None,
                        Some((mode, p5)) => match spec_parse_u64(s, p5) {
                            None => None,
                            Some((mtime, p6)) => match spec_parse_u64(s, p6) {
                                None => None,
                                Some((inode, p7)) => match spec_parse_u64(s, p7) {
                                    None => None,
                                    Some((size, p8)) => if p8 < s.len() {
                                        match spec_kind_of_tag(s[p8]) {
                                            None => None,
                                            Some(kind) => Some(
                                                (
                                                    FsEntryView {
                                                        name,
                                                        owner,
                                                        group,
                                                        mode,
                                                        mtime: mtime as i64,
                                                        inode,
                                                        size,
                                                        kind,
                                                    },
                                                    p8 + 1,
                                                ),
                                            ),
                                        }
                                    } else {
                                        None
                                    },
                                },
                            },
                        },
                    },
                },
            },
        },
    }
}

/// One record read at `pos`: the length prefix, then the body, whose size
/// must match the prefix exactly.
pub open spec fn spec_parse_entry(s: Seq<u8>, pos: int) -> Option<(FsEntryView, int)> {
    match spec_parse_u64(s, pos) {
        None => None,
        Some((reclen, p0)) => match spec_parse_body(s, p0) {
            None => None,
            Some((e, pend)) => if pend - p0 == reclen {
                Some((e, pend))
            } else {
                None
            },
        },
    }
}

/// `count` consecutive records read at `pos`.
pub open spec fn spec_parse_entries(s: Seq<u8>, pos: int, count: nat) -> Option<
    (Seq<FsEntryView>, int),
>
    decreases count,
{
    if count == 0 {
        Some((Seq::empty(), pos))
    } else {
        match spec_parse_entry(s, pos) {
            None => None,
            Some((e, p)) => match spec_parse_entries(s, p, (count - 1) as nat) {
                None => None,
                Some((rest, end)) => Some((seq![e] + rest, end)),
            },
        }
    }
}

/// A whole snapshot: the declared number of records and nothing after them.
pub open spec fn spec_parse_snapshot(s: Seq<u8>) -> Option<Seq<FsEntryView>> {
    match spec_parse_u64(s, 0) {
        None => None,
        Some((count, p)) => match spec_parse_entries(s, p, count as nat) {
            None => None,
            Some((entries, end)) => if end == s.len() {
                Some(entries)
            } else {
                None
            },
        },
    }
}

/// Appends the contents of `src` to `dst`.
pub fn push_bytes(dst: &mut Vec<u8>, src: &Vec<u8>)
    ensures
        final(dst)@ == old(dst)@ + src@,
{
    let n = src.len();
    for i in 0..n
        invariant
            n == src@.len(),
            dst@ == old(dst)@ + src@.take(i as int),
    {
        dst.push(src[i]);
        proof {
            assert(old(dst)@ + src@.take(i as int) + seq![src@[i as int]] =~= old(dst)@
                + src@.take(i + 1));
        }
    }
    proof {
        assert(old(dst)@ + src@.take(n as int) =~= old(dst)@ + src@);
    }
}

/// The tag byte recorded for a kind.
pub fn kind_tag(k: FsEntryKind) -> (r: u8)
    ensures
        r == spec_kind_tag(k),
{
    match k {
        FsEntryKind::Directory => 0,
        FsEntryKind::File => 1,
        FsEntryKind::Symlink => 2,
    }
}

/// The kind a tag byte stands for, or a `FormatError` for an unknown tag.
pub fn kind_of_tag(t: u8) -> (r: Result<FsEntryKind, FormatError>)
    ensures
        r is Ok <==> spec_kind_of_tag(t) is Some,
        r is Ok ==> r->Ok_0 == spec_kind_of_tag(t)->0,
{
    if t == 0 {
        Ok(FsEntryKind::Directory)
    } else if t == 1 {
        Ok(FsEntryKind::File)
    } else if t == 2 {
        Ok(FsEntryKind::Symlink)
    } else {
        Err(FormatError)
    }
}

/// Encodes one entry as its length-prefixed record.
pub fn encode_entry(e: &FsEntry) -> (r: Vec<u8>)
    ensures
        r@ == spec_encode_entry(e@),
{
    let mut body: Vec<u8> = u64_to_le_bytes(e.name.len() as u64);
    push_bytes(&mut body, &e.name);
    let mut owner_b = u32_to_le_bytes(e.owner);
    body.append(&mut owner_b);
    let mut group_b = u32_to_le_bytes(e.group);
    body.append(&mut group_b);
    let mut mode_b = u32_to_le_bytes(e.mode);
    body.append(&mut mode_b);
    let mut mtime_b = u64_to_le_bytes(e.mtime as u64);
    body.append(&mut mtime_b);
    let mut inode_b = u64_to_le_bytes(e.inode);
    body.append(&mut inode_b);
    let mut size_b = u64_to_le_bytes(e.size);
    body.append(&mut size_b);
    body.push(kind_tag(e.kind));
    proof {
        assert(body@ =~= spec_encode_body(e@));
    }
    let mut record: Vec<u8> = u64_to_le_bytes(body.len() as u64);
    record.append(&mut body);
    record
}

/// Encodes a snapshot: the entry count, then one record per entry, in order.
pub fn encode(entries: &FsEntries) -> (r: Vec<u8>)
    ensures
        r@ == spec_encode_snapshot(entries@),
{
    let n = entries.entries.len();
    let mut out: Vec<u8> = u64_to_le_bytes(n as u64);
    proof {
        assert(entries@.len() == n);
        assert(spec_encode_entries(entries@.take(0)) =~= Seq::<u8>::empty());
        assert(out@ =~= spec_u64_to_le_bytes(entries@.len() as u64) + spec_encode_entries(
            entries@.take(0),
        ));
    }
    for i in 0..n
        invariant
            n == entries.entries@.len(),
            entries@.len() == n,
            out@ == spec_u64_to_le_bytes(entries@.len() as u64) + spec_encode_entries(
                entries@.take(i as int),
            ),
    {
        let mut rec = encode_entry(&entries.entries[i]);
        proof {
            assert(entries@.take(i + 1) =~= entries@.take(i as int).push(entries@[i as int]));
            lemma_encode_entries_snoc(entries@.take(i as int), entries@[i as int]);
            assert(rec@ == spec_encode_entry(entries@[i as int]));
        }
        out.append(&mut rec);
    }
    proof {
        assert(entries@.take(n as int) =~= entries@);
    }
    out
}

/// Reads a `u64` little-endian at `pos`; `None` where fewer than eight
/// bytes remain.
fn read_u64(s: &Vec<u8>, pos: usize) -> (r: Option<(u64, usize)>)
    ensures
        r is Some <==> spec_parse_u64(s@, pos as int) is Some,
        r is Some ==> (r->0).0 == (spec_parse_u64(s@, pos as int)->0).0 && (r->0).1
            == (spec_parse_u64(s@, pos as int)->0).1,
{
    if s.len() >= 8 && pos <= s.len() - 8 {
        let sl = slice_subrange(s.as_slice(), pos, pos + 8);
        let v = u64_from_le_bytes(sl);
        Some((v, pos + 8))
    } else {
        None
    }
}

/// Reads a `u32` little-endian at `pos`; `None` where fewer than four
/// bytes remain.
fn read_u32(s: &Vec<u8>, pos: usize) -> (r: Option<(u32, usize)>)
    ensures
        r is Some <==> spec_parse_u32(s@, pos as int) is Some,
        r is Some ==> (r->0).0 == (spec_parse_u32(s@, pos as int)->0).0 && (r->0).1
            == (spec_parse_u32(s@, pos as int)->0).1,
{
    if s.len() >= 4 && pos <= s.len() - 4 {
        let sl = slice_subrange(s.as_slice(), pos, pos + 4);
        let v = u32_from_le_bytes(sl);
        Some((v, pos + 4))
    } else {
        None
    }
}

/// Decodes one record at `pos`, returning the entry and the position
/// after the record.
pub fn decode_entry(s: &Vec<u8>, pos: usize) -> (r: Result<(FsEntry, usize), FormatError>)
    ensures
        r is Ok <==> spec_parse_entry(s@, pos as int) is Some,
        r is Ok ==> (r->Ok_0).0@ == (spec_parse_entry(s@, pos as int)->0).0 && (r->Ok_0).1 as int
            == (spec_parse_entry(s@, pos as int)->0).1,
{
    let (reclen, p0) = match read_u64(s, pos) {
        Some(x) => x,
        None => {
            return Err(FormatError);
        },
    };
    let (nlen, p1) = match read_u64(s, p0) {
        Some(x) => x,
        None => {
            return Err(FormatError);
        },
    };
    if nlen > (s.len() - p1) as u64 {
        return Err(FormatError);
    }
    let nlen_us = nlen as usize;
    let name_sl = slice_subrange(s.as_slice(), p1, p1 + nlen_us);
    let name = slice_to_vec(name_sl);
    let p2 = p1 + nlen_us;
    let (owner, p3) = match read_u32(s, p2) {
        Some(x) => x,
        None => {
            return Err(FormatError);
        },
    };
    let (group, p4) = match read_u32(s, p3) {
        Some(x) => x,
        None => {
            return Err(FormatError);
        },
    };
    let (mode, p5) = match read_u32(s, p4) {
        Some(x) => x,
        None => {
            return Err(FormatError);
        },
    };
    let (mtime_u, p6) = match read_u64(s, p5) {
        Some(x) => x,
        None => {
            return Err(FormatError);
        },
    };
    let (inode, p7) = match read_u64(s, p6) {
        Some(x) => x,
        None => {
            return Err(FormatError);
        },
    };
    let (size, p8) = match read_u64(s, p7) {
        Some(x) => x,
        None => {
            return Err(FormatError);
        },
    };
    if p8 >= s.len() {
        return Err(FormatError);
    }
    let kind = match kind_of_tag(s[p8]) {
        Ok(k) => k,
        Err(e) => {
            return Err(e);
        },
    };
    let pend = p8 + 1;
    if (pend - p0) as u64 != reclen {
        return Err(FormatError);
    }
    let mtime: i64 = #[verifier::truncate] (mtime_u as i64);
    let e = FsEntry { name, owner, group, mode, mtime, inode, size, kind };
    Ok((e, pend))
}

/// Decodes a snapshot: exactly the declared number of records, with no
/// trailing bytes.
pub fn decode(s: &Vec<u8>) -> (r: Result<FsEntries, FormatError>)
    ensures
        r is Ok <==> spec_parse_snapshot(s@) is Some,
        r is Ok ==> (r->Ok_0)@ == spec_parse_snapshot(s@)->0,
{
    let (count, start) = match read_u64(s, 0) {
        Some(x) => x,
        None => {
            return Err(FormatError);
        },
    };
    let mut acc: Vec<FsEntry> = Vec::new();
    let mut pos: usize = start;
    let mut i: u64 = 0;
    proof {
        assert(entry_views(acc@) =~= Seq::<FsEntryView>::empty());
    }
    while i < count
        invariant
            i <= count,
            spec_parse_u64(s@, 0) == Some((count, start as int)),
            match spec_parse_entries(s@, pos as int, (count - i) as nat) {
                None => spec_parse_entries(s@, start as int, count as nat) is None,
                Some((rest, end)) => spec_parse_entries(s@, start as int, count as nat) == Some(
                    (entry_views(acc@) + rest, end),
                ),
            },
        decreases count - i,
    {
        match decode_entry(s, pos) {
            Err(e) => {
                return Err(e);
            },
            Ok((ent, p)) => {
                proof {
                    let n = (count - i) as nat;
                    assert(spec_parse_entry(s@, pos as int) == Some((ent@, p as int)));
                    if spec_parse_entries(s@, p as int, (n - 1) as nat) is Some {
                        let (rest2, end2) = spec_parse_entries(s@, p as int, (n - 1) as nat)->0;
                        assert(spec_parse_entries(s@, pos as int, n) == Some(
                            (seq![ent@] + rest2, end2),
                        ));
                        assert(entry_views(acc@) + (seq![ent@] + rest2) =~= entry_views(
                            acc@.push(ent),
                        ) + rest2);
                    } else {
                        assert(spec_parse_entries(s@, pos as int, n) is None);
                    }
                }
                acc.push(ent);
                pos = p;
                i = i + 1;
            },
        }
    }
    proof {
        assert(spec_parse_entries(s@, pos as int, 0) == Some(
            (Seq::<FsEntryView>::empty(), pos as int),
        ));
        assert(entry_views(acc@) + Seq::<FsEntryView>::empty() =~= entry_views(acc@));
    }
    if pos != s.len() {
        return Err(FormatError);
    }
    Ok(FsEntries { entries: acc })
}

/// A window of a window of `s` is the matching window of `s` itself.
proof fn lemma_sub_of_sub(s: Seq<u8>, pos: int, len: int, a: int, b: int)
    requires
        0 <= pos,
        pos + len <= s.len(),
        0 <= a <= b <= len,
    ensures
        s.subrange(pos + a, pos + b) == s.subrange(pos, pos + len).subrange(a, b),
{
    assert(s.subrange(pos + a, pos + b) =~= s.subrange(pos, pos + len).subrange(a, b));
}

/// Parsing recovers the entry that was encoded: where `s` holds the
/// record of `e` at `pos`, the record parses back to `e` exactly.
#[verifier::rlimit(100)]
pub proof fn lemma_parse_encode_entry(s: Seq<u8>, pos: int, e: FsEntryView)
    requires
        entry_len_ok(e),
        0 <= pos,
        pos + spec_encode_entry(e).len() <= s.len(),
        s.subrange(pos, pos + spec_encode_entry(e).len()) == spec_encode_entry(e),
    ensures
        spec_parse_entry(s, pos) == Some((e, pos + spec_encode_entry(e).len())),
{
    lemma_auto_spec_u64_to_from_le_bytes();
    lemma_auto_spec_u32_to_from_le_bytes();
    lemma_encode_body_len(e);
    let enc = spec_encode_entry(e);
    let body = spec_encode_body(e);
    let el = enc.len() as int;
    let nl = e.name.len() as int;
    let blen = body.len() as int;
    assert(blen == 45 + nl);
    // The record length prefix.
    lemma_sub_of_sub(s, pos, el, 0, 8);
    assert(enc.subrange(0, 8) =~= spec_u64_to_le_bytes(blen as u64));
    assert(spec_parse_u64(s, pos) == Some((blen as u64, pos + 8)));
    let p0 = pos + 8;
    // The path length.
    lemma_sub_of_sub(s, pos, el, 8, 16);
    assert(enc.subrange(8, 16) =~= spec_u64_to_le_bytes(nl as u64));
    assert(spec_parse_u64(s, p0) == Some((nl as u64, p0 + 8)));
    let p1 = p0 + 8;
    // The path bytes.
    lemma_sub_of_sub(s, pos, el, 16, 16 + nl);
    assert(enc.subrange(16, 16 + nl) =~= e.name);
    assert(spec_parse_bytes(s, p1, nl) == Some((e.name, p1 + nl)));
    let p2 = p1 + nl;
    // The numeric fields.
    lemma_sub_of_sub(s, pos, el, 16 + nl, 20 + nl);
    assert(enc.subrange(16 + nl, 20 + nl) =~= spec_u32_to_le_bytes(e.owner));
    assert(spec_parse_u32(s, p2) == Some((e.owner, p2 + 4)));
    let p3 = p2 + 4;
    lemma_sub_of_sub(s, pos, el, 20 + nl, 24 + nl);
    assert(enc.subrange(20 + nl, 24 + nl) =~= spec_u32_to_le_bytes(e.group));
    assert(spec_parse_u32(s, p3) == Some((e.group, p3 + 4)));
    let p4 = p3 + 4;
    lemma_sub_of_sub(s, pos, el, 24 + nl, 28 + nl);
    assert(enc.subrange(24 + nl, 28 + nl) =~= spec_u32_to_le_bytes(e.mode));
    assert(spec_parse_u32(s, p4) == Some((e.mode, p4 + 4)));
    let p5 = p4 + 4;
    lemma_sub_of_sub(s, pos, el, 28 + nl, 36 + nl);
    assert(enc.subrange(28 + nl, 36 + nl) =~= spec_u64_to_le_bytes(e.mtime as u64));
    assert(spec_parse_u64(s, p5) == Some((e.mtime as u64, p5 + 8)));
    let p6 = p5 + 8;
    lemma_sub_of_sub(s, pos, el, 36 + nl, 44 + nl);
    assert(enc.subrange(36 + nl, 44 + nl) =~= spec_u64_to_le_bytes(e.inode));
    assert(spec_parse_u64(s, p6) == Some((e.inode, p6 + 8)));
    let p7 = p6 + 8;
    lemma_sub_of_sub(s, pos, el, 44 + nl, 52 + nl);
    assert(enc.subrange(44 + nl, 52 + nl) =~= spec_u64_to_le_bytes(e.size));
    assert(spec_parse_u64(s, p7) == Some((e.size, p7 + 8)));
    let p8 = p7 + 8;
    // The kind tag.
    assert(s.subrange(pos, pos + el)[52 + nl] == s[p8]);
    assert(body[44 + nl] == spec_kind_tag(e.kind));
    assert(enc[52 + nl] == spec_kind_tag(e.kind));
    assert(s[p8] == spec_kind_tag(e.kind));
    assert(spec_kind_of_tag(spec_kind_tag(e.kind)) == Some(e.kind));
    // The signed modification time survives the unsigned form.
    let m = e.mtime;
    assert((m as u64) as i64 == m) by (bit_vector);
    let parsed = FsEntryView {
        name: e.name,
        owner: e.owner,
        group: e.group,
        mode: e.mode,
        mtime: (e.mtime as u64) as i64,
        inode: e.inode,
        size: e.size,
        kind: e.kind,
    };
    assert(parsed == e);
    assert(spec_parse_body(s, p0) == Some((parsed, p8 + 1)));
    assert(p8 + 1 - p0 == blen as u64);
    assert(spec_parse_entry(s, pos) == Some((e, p8 + 1)));
    assert(p8 + 1 == pos + enc.len());
}

/// Parsing recovers a whole record stream: where `s` holds the records of
/// `vs` at `pos`, they parse back to `vs` exactly.
pub proof fn lemma_parse_encode_entries(s: Seq<u8>, pos: int, vs: Seq<FsEntryView>)
    requires
        forall|i: int| 0 <= i < vs.len() ==> entry_len_ok(#[trigger] vs[i]),
        0 <= pos,
        pos + spec_encode_entries(vs).len() <= s.len(),
        s.subrange(pos, pos + spec_encode_entries(vs).len()) == spec_encode_entries(vs),
    ensures
        spec_parse_entries(s, pos, vs.len()) == Some((vs, pos + spec_encode_entries(vs).len())),
    decreases vs.len(),
{
    if vs.len() == 0 {
        assert(spec_parse_entries(s, pos, 0) == Some((Seq::<FsEntryView>::empty(), pos)));
        assert(vs =~= Seq::<FsEntryView>::empty());
    } else {
        let enc = spec_encode_entries(vs);
        let e0 = spec_encode_entry(vs[0]);
        let rest = spec_encode_entries(vs.skip(1));
        assert(enc == e0 + rest);
        let el = enc.len() as int;
        let e0l = e0.len() as int;
        lemma_sub_of_sub(s, pos, el, 0, e0l);
        assert(enc.subrange(0, e0l) =~= e0);
        lemma_parse_encode_entry(s, pos, vs[0]);
        let p = pos + e0l;
        lemma_sub_of_sub(s, pos, el, e0l, el);
        assert(enc.subrange(e0l, el) =~= rest);
        lemma_parse_encode_entries(s, p, vs.skip(1));
        assert(spec_parse_entries(s, p, vs.skip(1).len()) == Some((vs.skip(1), p + rest.len())));
        assert(spec_parse_entries(s, pos, vs.len()) == Some(
            (seq![vs[0]] + vs.skip(1), p + rest.len()),
        ));
        assert(seq![vs[0]] + vs.skip(1) =~= vs);
        assert(p + rest.len() == pos + enc.len());
    }
}

/// Round trip: decoding the binary form of any collection of entries
/// yields that collection back, field for field and in order. Every entry
/// held in memory satisfies the two size bounds.
pub proof fn lemma_snapshot_round_trip(vs: Seq<FsEntryView>)
    requires
        vs.len() <= u64::MAX,
        forall|i: int| 0 <= i < vs.len() ==> entry_len_ok(#[trigger] vs[i]),
    ensures
        spec_parse_snapshot(spec_encode_snapshot(vs)) == Some(vs),
{
    lemma_auto_spec_u64_to_from_le_bytes();
    let s = spec_encode_snapshot(vs);
    let pre = spec_u64_to_le_bytes(vs.len() as u64);
    let recs = spec_encode_entries(vs);
    assert(s == pre + recs);
    assert(s.subrange(0, 8) =~= pre);
    assert(spec_parse_u64(s, 0) == Some((vs.len() as u64, 8int)));
    assert(s.subrange(8, 8 + recs.len() as int) =~= recs);
    lemma_parse_encode_entries(s, 8, vs);
    assert(spec_parse_entries(s, 8, vs.len()) == Some((vs, s.len() as int)));
    assert((vs.len() as u64) as nat == vs.len());
}

/// The body of one change record: path length, path bytes, kind tag,
/// deletion mark.
pub open spec fn spec_encode_change_body(c: ChangedFsEntryView) -> Seq<u8> {
    spec_u64_to_le_bytes(c.name.len() as u64) + c.name + seq![spec_kind_tag(c.kind)] + seq![
        if c.is_deleted {
            1u8
        } else {
            0u8
        },
    ]
}

/// One change record: its body prefixed with the body's byte length.
pub open spec fn spec_encode_change(c: ChangedFsEntryView) -> Seq<u8> {
    spec_u64_to_le_bytes(spec_encode_change_body(c).len() as u64) + spec_encode_change_body(c)
}

/// The concatenation of the records of a change-set.
pub open spec fn spec_encode_change_list(s: Seq<ChangedFsEntryView>) -> Seq<u8>
    decreases s.len(),
{
    if s.len() == 0 {
        Seq::empty()
    } else {
        spec_encode_change(s[0]) + spec_encode_change_list(s.skip(1))
    }
}

/// A whole change-set: the record count, then the records.
pub open spec fn spec_encode_change_set(s: Seq<ChangedFsEntryView>) -> Seq<u8> {
    spec_u64_to_le_bytes(s.len() as u64) + spec_encode_change_list(s)
}

/// The change body length prefix is faithful only while it fits in a
/// `u64`; every record held in memory satisfies this.
pub open spec fn change_len_ok(c: ChangedFsEntryView) -> bool {
    c.name.len() + 10 <= u64::MAX
}

/// One change record body read at `pos`.
pub open spec fn spec_parse_change_body(s: Seq<u8>, pos: int) -> Option<(ChangedFsEntryView, int)> {
    match spec_parse_u64(s, pos) {
        None => None,
        Some((nlen, p1)) => match spec_parse_bytes(s, p1, nlen as int) {
            None => None,
            Some((name, p2)) => if p2 + 2 <= s.len() {
                match spec_kind_of_tag(s[p2]) {
                    None => None,
                    Some(kind) => if s[p2 + 1] == 0 || s[p2 + 1] == 1 {
                        Some(
                            (
                                ChangedFsEntryView { name, kind, is_deleted: s[p2 + 1] == 1 },
                                p2 + 2,
                            ),
                        )
                    } else {
                        None
                    },
                }
            } else {
                None
            },
        },
    }
}

/// One change record read at `pos`: the length prefix, then the body,
/// whose size must match the prefix exactly.
pub open spec fn spec_parse_change(s: Seq<u8>, pos: int) -> Option<(ChangedFsEntryView, int)> {
    match spec_parse_u64(s, pos) {
        None => None,
        Some((reclen, p0)) => match spec_parse_change_body(s, p0) {
            None => None,
            Some((c, pend)) => if pend - p0 == reclen {
                Some((c, pend))
            } else {
                None
            },
        },
    }
}

/// `count` consecutive change records read at `pos`.
pub open spec fn spec_parse_changes(s: Seq<u8>, pos: int, count: nat) -> Option<
    (Seq<ChangedFsEntryView>, int),
>
    decreases count,
{
    if count == 0 {
        Some((Seq::empty(), pos))
    } else {
        match spec_parse_change(s, pos) {
            None => None,
            Some((c, p)) => match spec_parse_changes(s, p, (count - 1) as nat) {
                None => None,
                Some((rest, end)) => Some((seq![c] + rest, end)),
            },
        }
    }
}

/// A whole change-set: the declared number of records and nothing after
/// them.
pub open spec fn spec_parse_change_set(s: Seq<u8>) -> Option<Seq<ChangedFsEntryView>> {
    match spec_parse_u64(s, 0) {
        None => None,
        Some((count, p)) => match spec_parse_changes(s, p, count as nat) {
            None => None,
            Some((changes, end)) => if end == s.len() {
                Some(changes)
            } else {
                None
            },
        },
    }
}

/// Appending one change on the right extends the record stream on the
/// right.
proof fn lemma_encode_change_list_snoc(s: Seq<ChangedFsEntryView>, c: ChangedFsEntryView)
    ensures
        spec_encode_change_list(s.push(c)) == spec_encode_change_list(s) + spec_encode_change(c),
    decreases s.len(),
{
    let p = s.push(c);
    if s.len() == 0 {
        assert(p[0] == c);
        assert(p.skip(1) =~= Seq::<ChangedFsEntryView>::empty());
        assert(spec_encode_change_list(p) == spec_encode_change(c) + spec_encode_change_list(
            Seq::<ChangedFsEntryView>::empty(),
        ));
        assert(spec_encode_change(c) + Seq::<u8>::empty() =~= Seq::<u8>::empty()
            + spec_encode_change(c));
    } else {
        assert(p[0] == s[0]);
        assert(p.skip(1) =~= s.skip(1).push(c));
        lemma_encode_change_list_snoc(s.skip(1), c);
        assert(spec_encode_change_list(p) == spec_encode_change(s[0]) + (spec_encode_change_list(
            s.skip(1),
        ) + spec_encode_change(c)));
        assert(spec_encode_change(s[0]) + (spec_encode_change_list(s.skip(1))
            + spec_encode_change(c)) =~= (spec_encode_change(s[0]) + spec_encode_change_list(
            s.skip(1),
        )) + spec_encode_change(c));
    }
}

/// Encodes one change as its length-prefixed record.
pub fn encode_change(c: &ChangedFsEntry) -> (r: Vec<u8>)
    ensures
        r@ == spec_encode_change(c@),
{
    let mut body: Vec<u8> = u64_to_le_bytes(c.name.len() as u64);
    push_bytes(&mut body, &c.name);
    body.push(kind_tag(c.kind));
    body.push(if c.is_deleted { 1 } else { 0 });
    proof {
        assert(body@ =~= spec_encode_change_body(c@));
    }
    let mut record: Vec<u8> = u64_to_le_bytes(body.len() as u64);
    record.append(&mut body);
    record
}

/// Encodes a change-set: the record count, then one record per change,
/// in order.
pub fn encode_changes(changes: &ChangedFsEntries) -> (r: Vec<u8>)
    ensures
        r@ == spec_encode_change_set(changes@),
{
    let n = changes.entries.len();
    let mut out: Vec<u8> = u64_to_le_bytes(n as u64);
    proof {
        assert(changes@.len() == n);
        assert(spec_encode_change_list(changes@.take(0)) =~= Seq::<u8>::empty());
        assert(out@ =~= spec_u64_to_le_bytes(changes@.len() as u64) + spec_encode_change_list(
            changes@.take(0),
        ));
    }
    for i in 0..n
        invariant
            n == changes.entries@.len(),
            changes@.len() == n,
            out@ == spec_u64_to_le_bytes(changes@.len() as u64) + spec_encode_change_list(
                changes@.take(i as int),
            ),
    {
        let mut rec = encode_change(&changes.entries[i]);
        proof {
            assert(changes@.take(i + 1) =~= changes@.take(i as int).push(changes@[i as int]));
            lemma_encode_change_list_snoc(changes@.take(i as int), changes@[i as int]);
            assert(rec@ == spec_encode_change(changes@[i as int]));
        }
        out.append(&mut rec);
    }
    proof {
        assert(changes@.take(n as int) =~= changes@);
    }
    out
}

/// Decodes one change record at `pos`, returning the change and the
/// position after the record.
fn decode_change(s: &Vec<u8>, pos: usize) -> (r: Result<(ChangedFsEntry, usize), FormatError>)
    ensures
        r is Ok <==> spec_parse_change(s@, pos as int) is Some,
        r is Ok ==> (r->Ok_0).0@ == (spec_parse_change(s@, pos as int)->0).0 && (r->Ok_0).1 as int
            == (spec_parse_change(s@, pos as int)->0).1,
{
    let (reclen, p0) = match read_u64(s, pos) {
        Some(x) => x,
        None => {
            return Err(FormatError);
        },
    };
    let (nlen, p1) = match read_u64(s, p0) {
        Some(x) => x,
        None => {
            return Err(FormatError);
        },
    };
    if nlen > (s.len() - p1) as u64 {
        return Err(FormatError);
    }
    let nlen_us = nlen as usize;
    let name_sl = slice_subrange(s.as_slice(), p1, p1 + nlen_us);
    let name = slice_to_vec(name_sl);
    let p2 = p1 + nlen_us;
    if s.len() - p2 < 2 {
        return Err(FormatError);
    }
    let kind = match kind_of_tag(s[p2]) {
        Ok(k) => k,
        Err(e) => {
            return Err(e);
        },
    };
    let flag = s[p2 + 1];
    if flag != 0 && flag != 1 {
        return Err(FormatError);
    }
    let pend = p2 + 2;
    if (pend - p0) as u64 != reclen {
        return Err(FormatError);
    }
    let c = ChangedFsEntry { name, kind, is_deleted: flag == 1 };
    Ok((c, pend))
}

/// Decodes a change-set: exactly the declared number of records, with no
/// trailing bytes.
pub fn decode_changes(s: &Vec<u8>) -> (r: Result<ChangedFsEntries, FormatError>)
    ensures
        r is Ok <==> spec_parse_change_set(s@) is Some,
        r is Ok ==> (r->Ok_0)@ == spec_parse_change_set(s@)->0,
{
    let (count, start) = match read_u64(s, 0) {
        Some(x) => x,
        None => {
            return Err(FormatError);
        },
    };
    let mut acc: Vec<ChangedFsEntry> = Vec::new();
    let mut pos: usize = start;
    let mut i: u64 = 0;
    proof {
        assert(change_views(acc@) =~= Seq::<ChangedFsEntryView>::empty());
    }
    while i < count
        invariant
            i <= count,
            spec_parse_u64(s@, 0) == Some((count, start as int)),
            match spec_parse_changes(s@, pos as int, (count - i) as nat) {
                None => spec_parse_changes(s@, start as int, count as nat) is None,
                Some((rest, end)) => spec_parse_changes(s@, start as int, count as nat) == Some(
                    (change_views(acc@) + rest, end),
                ),
            },
        decreases count - i,
    {
        match decode_change(s, pos) {
            Err(e) => {
                return Err(e);
            },
            Ok((c, p)) => {
                proof {
                    let n = (count - i) as nat;
                    assert(spec_parse_change(s@, pos as int) == Some((c@, p as int)));
                    if spec_parse_changes(s@, p as int, (n - 1) as nat) is Some {
                        let (rest2, end2) = spec_parse_changes(s@, p as int, (n - 1) as nat)->0;
                        assert(spec_parse_changes(s@, pos as int, n) == Some(
                            (seq![c@] + rest2, end2),
                        ));
                        assert(change_views(acc@) + (seq![c@] + rest2) =~= change_views(
                            acc@.push(c),
                        ) + rest2);
                    } else {
                        assert(spec_parse_changes(s@, pos as int, n) is None);
                    }
                }
                acc.push(c);
                pos = p;
                i = i + 1;
            },
        }
    }
    proof {
        assert(spec_parse_changes(s@, pos as int, 0) == Some(
            (Seq::<ChangedFsEntryView>::empty(), pos as int),
        ));
        assert(change_views(acc@) + Seq::<ChangedFsEntryView>::empty() =~= change_views(acc@));
    }
    if pos != s.len() {
        return Err(FormatError);
    }
    Ok(ChangedFsEntries { entries: acc })
}

/// Parsing recovers the change that was encoded.
#[verifier::rlimit(100)]
proof fn lemma_parse_encode_change(s: Seq<u8>, pos: int, c: ChangedFsEntryView)
    requires
        change_len_ok(c),
        0 <= pos,
        pos + spec_encode_change(c).len() <= s.len(),
        s.subrange(pos, pos + spec_encode_change(c).len()) == spec_encode_change(c),
    ensures
        spec_parse_change(s, pos) == Some((c, pos + spec_encode_change(c).len())),
{
    lemma_auto_spec_u64_to_from_le_bytes();
    let enc = spec_encode_change(c);
    let body = spec_encode_change_body(c);
    let el = enc.len() as int;
    let nl = c.name.len() as int;
    let blen = body.len() as int;
    assert(blen == 10 + nl);
    lemma_sub_of_sub(s, pos, el, 0, 8);
    assert(enc.subrange(0, 8) =~= spec_u64_to_le_bytes(blen as u64));
    assert(spec_parse_u64(s, pos) == Some((blen as u64, pos + 8)));
    let p0 = pos + 8;
    lemma_sub_of_sub(s, pos, el, 8, 16);
    assert(enc.subrange(8, 16) =~= spec_u64_to_le_bytes(nl as u64));
    assert(spec_parse_u64(s, p0) == Some((nl as u64, p0 + 8)));
    let p1 = p0 + 8;
    lemma_sub_of_sub(s, pos, el, 16, 16 + nl);
    assert(enc.subrange(16, 16 + nl) =~= c.name);
    assert(spec_parse_bytes(s, p1, nl) == Some((c.name, p1 + nl)));
    let p2 = p1 + nl;
    assert(s.subrange(pos, pos + el)[16 + nl] == s[p2]);
    assert(body[8 + nl] == spec_kind_tag(c.kind));
    assert(enc[16 + nl] == spec_kind_tag(c.kind));
    assert(spec_kind_of_tag(spec_kind_tag(c.kind)) == Some(c.kind));
    assert(s.subrange(pos, pos + el)[17 + nl] == s[p2 + 1]);
    assert(body[9 + nl] == (if c.is_deleted {
        1u8
    } else {
        0u8
    }));
    assert(enc[17 + nl] == (if c.is_deleted {
        1u8
    } else {
        0u8
    }));
    let parsed = ChangedFsEntryView { name: c.name, kind: c.kind, is_deleted: c.is_deleted };
    assert(parsed == c);
    assert(spec_parse_change_body(s, p0) == Some((c, p2 + 2)));
    assert(p2 + 2 - p0 == blen as u64);
    assert(p2 + 2 == pos + el);
}

/// Parsing recovers a whole change-record stream.
proof fn lemma_parse_encode_changes(s: Seq<u8>, pos: int, vs: Seq<ChangedFsEntryView>)
    requires
        forall|i: int| 0 <= i < vs.len() ==> change_len_ok(#[trigger] vs[i]),
        0 <= pos,
        pos + spec_encode_change_list(vs).len() <= s.len(),
        s.subrange(pos, pos + spec_encode_change_list(vs).len()) == spec_encode_change_list(vs),
    ensures
        spec_parse_changes(s, pos, vs.len()) == Some(
            (vs, pos + spec_encode_change_list(vs).len()),
        ),
    decreases vs.len(),
{
    if vs.len() == 0 {
        assert(spec_parse_changes(s, pos, 0) == Some((Seq::<ChangedFsEntryView>::empty(), pos)));
        assert(vs =~= Seq::<ChangedFsEntryView>::empty());
    } else {
        let enc = spec_encode_change_list(vs);
        let e0 = spec_encode_change(vs[0]);
        let rest = spec_encode_change_list(vs.skip(1));
        assert(enc == e0 + rest);
        let el = enc.len() as int;
        let e0l = e0.len() as int;
        lemma_sub_of_sub(s, pos, el, 0, e0l);
        assert(enc.subrange(0, e0l) =~= e0);
        lemma_parse_encode_change(s, pos, vs[0]);
        let p = pos + e0l;
        lemma_sub_of_sub(s, pos, el, e0l, el);
        assert(enc.subrange(e0l, el) =~= rest);
        lemma_parse_encode_changes(s, p, vs.skip(1));
        assert(spec_parse_changes(s, p, vs.skip(1).len()) == Some((vs.skip(1), p + rest.len())));
        assert(spec_parse_changes(s, pos, vs.len()) == Some(
            (seq![vs[0]] + vs.skip(1), p + rest.len()),
        ));
        assert(seq![vs[0]] + vs.skip(1) =~= vs);
        assert(p + rest.len() == pos + enc.len());
    }
}

/// Round trip for change-sets: decoding the binary form of any change
/// list yields that list back, in order.
pub proof fn lemma_change_set_round_trip(vs: Seq<ChangedFsEntryView>)
    requires
        vs.len() <= u64::MAX,
        forall|i: int| 0 <= i < vs.len() ==> change_len_ok(#[trigger] vs[i]),
    ensures
        spec_parse_change_set(spec_encode_change_set(vs)) == Some(vs),
{
    lemma_auto_spec_u64_to_from_le_bytes();
    let s = spec_encode_change_set(vs);
    let pre = spec_u64_to_le_bytes(vs.len() as u64);
    let recs = spec_encode_change_list(vs);
    assert(s == pre + recs);
    assert(s.subrange(0, 8) =~= pre);
    assert(spec_parse_u64(s, 0) == Some((vs.len() as u64, 8int)));
    assert(s.subrange(8, 8 + recs.len() as int) =~= recs);
    lemma_parse_encode_changes(s, 8, vs);
    assert(spec_parse_changes(s, 8, vs.len()) == Some((vs, s.len() as int)));
    assert((vs.len() as u64) as nat == vs.len());
}

} // verus!
