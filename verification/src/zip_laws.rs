//! What a plain zip says, told from the writer's side.

use crate::bytes::{le16, le4, lemma_le4_at, lemma_le4_len, lemma_stands_apart, stands_at};
use crate::harvest::four;
use crate::rawzip::{
    blob, directory, directory_start, end_record, entries_from, entry_at, entry_size, entry_stands,
    listing, payload_start, EntryView,
};
use crate::text::utf8_lossy;
use vstd::prelude::*;

verus! {

/// A 16-bit number, least significant byte first.
pub open spec fn le2(x: nat) -> Seq<u8> {
    seq![(x % 256) as u8, (x / 256) as u8]
}

/// A file in a zip as a writer has it.
pub struct Filed {
    pub name: Seq<u8>,
    pub flag: u16,
    pub method: u16,
    /// the bytes as they are stored, and how many they stand for
    pub data: Seq<u8>,
    pub size: u32,
    /// where its local header is
    pub at: nat,
    /// extra fields of the local header and of the directory, and a comment
    pub local_extra: Seq<u8>,
    pub extra: Seq<u8>,
    pub comment: Seq<u8>,
    /// what nothing is read from
    pub made_by: Seq<u8>,
    pub needs: Seq<u8>,
    pub time: Seq<u8>,
    pub crc: Seq<u8>,
    pub attributes: Seq<u8>,
}

/// Whether all lengths fit their fields.
pub open spec fn fileable(z: Filed) -> bool {
    &&& z.name.len() < 0x1_0000
    &&& z.local_extra.len() < 0x1_0000
    &&& z.extra.len() < 0x1_0000
    &&& z.comment.len() < 0x1_0000
    &&& z.data.len() < 0x1_0000_0000
    &&& z.at < 0x1_0000_0000
    &&& z.made_by.len() == 2
    &&& z.needs.len() == 2
    &&& z.time.len() == 4
    &&& z.crc.len() == 4
    &&& z.attributes.len() == 8
}

/// A local header with the data behind it.
pub open spec fn local_record(z: Filed) -> Seq<u8> {
    seq!['P' as u8, 'K' as u8, 3, 4] + z.needs + le2(z.flag as nat) + le2(z.method as nat) + z.time
        + z.crc + le4(z.data.len() as int) + le4(z.size as int) + le2(z.name.len()) + le2(
        z.local_extra.len(),
    ) + z.name + z.local_extra + z.data
}

/// An entry of the directory.
pub open spec fn central_record(z: Filed) -> Seq<u8> {
    seq!['P' as u8, 'K' as u8, 1, 2] + z.made_by + z.needs + le2(z.flag as nat) + le2(
        z.method as nat,
    ) + z.time + z.crc + le4(z.data.len() as int) + le4(z.size as int) + le2(z.name.len()) + le2(
        z.extra.len(),
    ) + le2(z.comment.len()) + z.attributes + le4(z.at as int) + z.name + z.extra + z.comment
}

/// The directory: one entry after the other.
pub open spec fn central(v: Seq<Filed>) -> Seq<u8>
    decreases v.len(),
{
    if v.len() == 0 {
        Seq::empty()
    } else {
        central_record(v[0]) + central(v.skip(1))
    }
}

/// The record at the very end: how many entries, how long the directory is and where
/// it begins.
pub open spec fn last_record(n: nat, size: nat, start: nat) -> Seq<u8> {
    seq!['P' as u8, 'K' as u8, 5, 6, 0, 0, 0, 0] + le2(n) + le2(n) + le4(size as int) + le4(
        start as int,
    ) + le2(0)
}

pub open spec fn filed_view(z: Filed) -> EntryView {
    EntryView {
        name: utf8_lossy(z.name),
        method: z.method,
        flag: z.flag,
        csize: z.data.len() as u64,
        usize_: z.size as u64,
        local_offset: z.at as u64,
        name_len: z.name.len() as u16,
    }
}

proof fn lemma_le2_at(b: Seq<u8>, o: int, x: nat)
    requires
        stands_at(b, o, le2(x)),
        x < 0x1_0000,
    ensures
        le16(b, o) == x,
{
    let s = b.subrange(o, o + 2);
    assert(s =~= le2(x));
    assert(b[o] == s[0] && b[o + 1] == s[1]);
}

/// The fields of a directory entry, each where it is found.
#[verifier::rlimit(60)]
#[verifier::spinoff_prover]
proof fn lemma_central_record(cd: Seq<u8>, p: int, z: Filed)
    requires
        fileable(z),
        stands_at(cd, p, central_record(z)),
    ensures
        entry_stands(cd, p),
        entry_at(cd, p) == filed_view(z),
        entry_size(cd, p) == central_record(z).len(),
{
    let size = z.data.len() as int;
    lemma_le4_len(size);
    lemma_le4_len(z.size as int);
    lemma_le4_len(z.at as int);
    let f0 = seq!['P' as u8, 'K' as u8, 1, 2];
    let f1 = f0 + z.made_by;
    let f2 = f1 + z.needs;
    let f3 = f2 + le2(z.flag as nat);
    let f4 = f3 + le2(z.method as nat);
    let f5 = f4 + z.time;
    let f6 = f5 + z.crc;
    let f7 = f6 + le4(size);
    let f8 = f7 + le4(z.size as int);
    let f9 = f8 + le2(z.name.len());
    let f10 = f9 + le2(z.extra.len());
    let f11 = f10 + le2(z.comment.len());
    let f12 = f11 + z.attributes;
    let f13 = f12 + le4(z.at as int);
    let f14 = f13 + z.name;
    let f15 = f14 + z.extra;
    lemma_stands_apart(cd, p, f15, z.comment);
    lemma_stands_apart(cd, p, f14, z.extra);
    lemma_stands_apart(cd, p, f13, z.name);
    lemma_stands_apart(cd, p, f12, le4(z.at as int));
    lemma_stands_apart(cd, p, f11, z.attributes);
    lemma_stands_apart(cd, p, f10, le2(z.comment.len()));
    lemma_stands_apart(cd, p, f9, le2(z.extra.len()));
    lemma_stands_apart(cd, p, f8, le2(z.name.len()));
    lemma_stands_apart(cd, p, f7, le4(z.size as int));
    lemma_stands_apart(cd, p, f6, le4(size));
    lemma_stands_apart(cd, p, f5, z.crc);
    lemma_stands_apart(cd, p, f4, z.time);
    lemma_stands_apart(cd, p, f3, le2(z.method as nat));
    lemma_stands_apart(cd, p, f2, le2(z.flag as nat));
    lemma_stands_apart(cd, p, f1, z.needs);
    lemma_stands_apart(cd, p, f0, z.made_by);
    lemma_mark(cd, p, 1, 2);
    lemma_le2_at(cd, p + 8, z.flag as nat);
    lemma_le2_at(cd, p + 10, z.method as nat);
    lemma_le4_at(cd, p + 20, size);
    lemma_le4_at(cd, p + 24, z.size as int);
    lemma_le2_at(cd, p + 28, z.name.len());
    lemma_le2_at(cd, p + 30, z.extra.len());
    lemma_le2_at(cd, p + 32, z.comment.len());
    lemma_le4_at(cd, p + 42, z.at as int);
}

proof fn lemma_mark(b: Seq<u8>, o: int, c: u8, d: u8)
    requires
        stands_at(b, o, seq!['P' as u8, 'K' as u8, c, d]),
    ensures
        four(b, o, 0x50, 0x4b, c, d),
{
    let s = b.subrange(o, o + 4);
    assert(s =~= seq!['P' as u8, 'K' as u8, c, d]);
    assert(b[o] == s[0] && b[o + 1] == s[1] && b[o + 2] == s[2] && b[o + 3] == s[3]);
}

proof fn lemma_central(cd: Seq<u8>, p: int, v: Seq<Filed>)
    requires
        forall|i: int| 0 <= i < v.len() ==> fileable(#[trigger] v[i]),
        stands_at(cd, p, central(v)),
        p + central(v).len() == cd.len(),
    ensures
        entries_from(cd, p) == Seq::new(v.len(), |i: int| filed_view(v[i])),
    decreases v.len(),
{
    let all = Seq::new(v.len(), |i: int| filed_view(v[i]));
    if v.len() == 0 {
        assert(entries_from(cd, p) =~= all);
    } else {
        let rest = v.skip(1);
        assert forall|i: int| 0 <= i < rest.len() implies fileable(#[trigger] rest[i]) by {
            assert(rest[i] == v[i + 1]);
        }
        let r = central_record(v[0]);
        lemma_stands_apart(cd, p, r, central(rest));
        assert(fileable(v[0]));
        lemma_central_record(cd, p, v[0]);
        lemma_central(cd, p + r.len(), rest);
        assert(seq![filed_view(v[0])] + Seq::new(rest.len(), |i: int| filed_view(rest[i])) =~= all);
    }
}

/// The data of a file is found behind its local header, name and extra field.
#[verifier::rlimit(60)]
#[verifier::spinoff_prover]
proof fn lemma_local_record(b: Seq<u8>, z: Filed)
    requires
        fileable(z),
        stands_at(b, z.at as int, local_record(z)),
    ensures
        blob(b, filed_view(z)) == Some(z.data),
{
    let o = z.at as int;
    let size = z.data.len() as int;
    lemma_le4_len(size);
    lemma_le4_len(z.size as int);
    let f0 = seq!['P' as u8, 'K' as u8, 3, 4];
    let f1 = f0 + z.needs;
    let f2 = f1 + le2(z.flag as nat);
    let f3 = f2 + le2(z.method as nat);
    let f4 = f3 + z.time;
    let f5 = f4 + z.crc;
    let f6 = f5 + le4(size);
    let f7 = f6 + le4(z.size as int);
    let f8 = f7 + le2(z.name.len());
    let f9 = f8 + le2(z.local_extra.len());
    let f10 = f9 + z.name;
    let f11 = f10 + z.local_extra;
    lemma_stands_apart(b, o, f11, z.data);
    lemma_stands_apart(b, o, f10, z.local_extra);
    lemma_stands_apart(b, o, f9, z.name);
    lemma_stands_apart(b, o, f8, le2(z.local_extra.len()));
    lemma_stands_apart(b, o, f7, le2(z.name.len()));
    lemma_stands_apart(b, o, f6, le4(z.size as int));
    lemma_stands_apart(b, o, f5, le4(size));
    lemma_stands_apart(b, o, f4, z.crc);
    lemma_stands_apart(b, o, f3, z.time);
    lemma_stands_apart(b, o, f2, le2(z.method as nat));
    lemma_stands_apart(b, o, f1, le2(z.flag as nat));
    lemma_stands_apart(b, o, f0, z.needs);
    lemma_mark(b, o, 3, 4);
    lemma_le2_at(b, o + 26, z.name.len());
    lemma_le2_at(b, o + 28, z.local_extra.len());
    assert(payload_start(b, filed_view(z)) == o + f11.len());
    if size == 0 {
        assert(z.data =~= Seq::<u8>::empty());
    }
}

/// A zip is read as it was written: the entries of its directory in order, and for
/// each the bytes that were stored behind its local header.
pub proof fn zips_are_read_as_written(b: Seq<u8>, v: Seq<Filed>, start: nat)
    requires
        forall|i: int|
            0 <= i < v.len() ==> fileable(#[trigger] v[i]) && stands_at(
                b,
                v[i].at as int,
                local_record(v[i]),
            ),
        v.len() < 0xffff,
        start < 0xffff_ffff,
        start + central(v).len() + 22 == b.len(),
        central(v).len() < 0x1_0000_0000,
        stands_at(b, start as int, central(v)),
        stands_at(
            b,
            (start + central(v).len()) as int,
            last_record(v.len(), central(v).len(), start),
        ),
    ensures
        listing(b) matches Ok(l) && {
            &&& l.entries == Seq::new(v.len(), |i: int| filed_view(v[i]))
            &&& forall|i: int|
                0 <= i < v.len() ==> blob(b, #[trigger] l.entries[i]) == Some(v[i].data)
        },
{
    let size = central(v).len() as int;
    let e = start + size;
    lemma_le4_len(size);
    lemma_le4_len(start as int);
    let sign = seq!['P' as u8, 'K' as u8, 5, 6];
    let disks = seq![0u8, 0, 0, 0];
    let f1 = sign + disks;
    assert(f1 =~= seq!['P' as u8, 'K' as u8, 5, 6, 0, 0, 0, 0]);
    let f2 = f1 + le2(v.len());
    let f3 = f2 + le2(v.len());
    let f4 = f3 + le4(size);
    let f5 = f4 + le4(start as int);
    lemma_stands_apart(b, e, f5, le2(0));
    lemma_stands_apart(b, e, f4, le4(start as int));
    lemma_stands_apart(b, e, f3, le4(size));
    lemma_stands_apart(b, e, f2, le2(v.len()));
    lemma_stands_apart(b, e, f1, le2(v.len()));
    lemma_stands_apart(b, e, sign, disks);
    lemma_mark(b, e, 5, 6);
    lemma_le2_at(b, e + 10, v.len());
    lemma_le4_at(b, e + 12, size);
    lemma_le4_at(b, e + 16, start as int);
    assert(end_record(b) == Some(e));
    assert(directory_start(b, e) == Ok::<u64, crate::hashfs::Fault>(start as u64));
    let cd = directory(b, start as u64, size as u32);
    assert(cd == central(v));
    assert(cd.subrange(0, cd.len() as int) =~= cd);
    lemma_central(cd, 0, v);
    let entries = Seq::new(v.len(), |i: int| filed_view(v[i]));
    assert forall|i: int| 0 <= i < v.len() implies blob(b, #[trigger] entries[i]) == Some(
        v[i].data,
    ) by {
        lemma_local_record(b, v[i]);
    }
}

} // verus!
