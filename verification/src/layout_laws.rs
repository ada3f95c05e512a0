//! What the smaller binary formats say, told from the writer's side.

use crate::bytes::{
    le32, le4, le8, lemma_le4_at, lemma_le4_len, lemma_le8_at, lemma_stands_apart, long_at,
    readable, stands_at,
};
use crate::fbx::{node_bytes, prop_bytes, props_bytes, props_size, NodeView, PropView};
use crate::hashfs::{entries_in, entry_at, keys_in, opened, Entry};
use crate::pmd::{described, fault, string_end};
use crate::pmg_laws::{fields, lemma_fields_at, lemma_fields_len};
use crate::text::utf8_lossy;
use vstd::prelude::*;
use vstd::utf8::encode_utf8;

verus! {

// ---------------------------------------------------------- descriptors ---

/// A model descriptor as a writer has it, and where it puts the paths of its
/// materials.
pub struct Descriptor {
    pub looks: nat,
    pub pieces: nat,
    pub variants: nat,
    pub parts: nat,
    pub materials: Seq<Seq<u8>>,
    pub table_at: nat,
    pub paths_at: Seq<nat>,
    /// what nothing is read from
    pub middle: Seq<u8>,
    pub rest: int,
}

/// How a descriptor begins: the version, the five counts, other offsets, and the one
/// of the material table.
pub open spec fn descriptor_head(d: Descriptor) -> Seq<u8> {
    fields(
        seq![
            4,
            d.materials.len() as int,
            d.looks as int,
            d.pieces as int,
            d.variants as int,
            d.parts as int,
        ],
    ) + d.middle + fields(seq![d.table_at as int, d.rest])
}

/// Whether `b` is the descriptor `d`: the head, a table of offsets, and a path with a
/// zero behind it where each offset leads.
pub open spec fn descriptor_of(b: Seq<u8>, d: Descriptor) -> bool {
    &&& d.middle.len() == 32
    &&& stands_at(b, 0, descriptor_head(d))
    &&& d.materials.len() <= 4096
    &&& d.looks <= 256
    &&& d.pieces <= 65536
    &&& d.variants < 0x1_0000_0000
    &&& d.parts <= 4096
    &&& d.table_at < 0x1_0000_0000
    &&& d.paths_at.len() == d.materials.len()
    &&& forall|i: int|
        0 <= i < d.materials.len() ==> {
            &&& stands_at(b, d.table_at + 4 * i, le4(d.paths_at[i] as int))
            &&& 0 < d.paths_at[i] < 0x1_0000_0000
            &&& stands_at(b, d.paths_at[i] as int, (#[trigger] d.materials[i]).push(0))
            &&& !d.materials[i].contains(0)
        }
}

proof fn lemma_string_end(b: Seq<u8>, o: int, s: Seq<u8>, k: int)
    requires
        stands_at(b, o, s.push(0)),
        !s.contains(0),
        0 <= k <= s.len(),
    ensures
        string_end(b, o + k) == o + s.len(),
    decreases s.len() - k,
{
    let r = b.subrange(o, o + s.push(0).len());
    assert(b[o + k] == r[k]);
    if k < s.len() {
        assert(s.contains(s[k]));
        assert(b[o + k] == s[k]);
        lemma_string_end(b, o, s, k + 1);
    }
}

/// A descriptor is read as it was written: its counts, and the path of each material
/// of the first look in its place.
pub proof fn descriptors_are_read_as_written(b: Seq<u8>, d: Descriptor)
    requires
        descriptor_of(b, d),
    ensures
        fault(b) is None,
        described(b).material_count == d.materials.len(),
        described(b).look_count == d.looks,
        described(b).piece_count == d.pieces,
        described(b).variant_count == d.variants,
        described(b).part_count == d.parts,
        described(b).materials.len() == d.materials.len(),
        forall|i: int|
            0 <= i < d.materials.len() ==> #[trigger] described(b).materials[i] == utf8_lossy(
                d.materials[i],
            ),
{
    let counts = seq![
        4,
        d.materials.len() as int,
        d.looks as int,
        d.pieces as int,
        d.variants as int,
        d.parts as int,
    ];
    let tail = seq![d.table_at as int, d.rest];
    lemma_fields_len(counts);
    lemma_fields_len(tail);
    lemma_stands_apart(b, 0, fields(counts) + d.middle, fields(tail));
    lemma_stands_apart(b, 0, fields(counts), d.middle);
    lemma_fields_at(b, 0, counts);
    lemma_fields_at(b, 56, tail);
    assert(counts[0] == 4 && counts[1] == d.materials.len() && counts[2] == d.looks && counts[3]
        == d.pieces && counts[4] == d.variants && counts[5] == d.parts);
    assert(tail[0] == d.table_at);
    assert forall|i: int| 0 <= i < d.materials.len() implies #[trigger] described(b).materials[i]
        == utf8_lossy(d.materials[i]) by {
        let s = d.materials[i];
        let o = d.paths_at[i] as int;
        lemma_le4_at(b, d.table_at + 4 * i, o);
        lemma_string_end(b, o, s, 0);
        let r = b.subrange(o, o + s.push(0).len());
        assert(b.subrange(o, o + s.len()) =~= s) by {
            assert forall|k: int| 0 <= k < s.len() implies b[o + k] == s[k] by {
                assert(r[k] == s.push(0)[k]);
            }
        }
    }
}

// ------------------------------------------------------------- archives ---

/// An archive as a writer has it: its entries, with the checksum of each, and where
/// their table is.
pub struct Packed {
    pub salt: u16,
    pub entries: Seq<Entry>,
    pub checksums: Seq<u32>,
    pub table_at: nat,
}

/// The first bytes: `SCS#`, version 1, the salt, the hash method `CITY`, how many
/// entries there are and where their table is.
pub open spec fn archive_head(a: Packed) -> Seq<u8> {
    seq![
        'S' as u8,
        'C' as u8,
        'S' as u8,
        '#' as u8,
        1,
        0,
        (a.salt % 256) as u8,
        (a.salt / 256) as u8,
        'C' as u8,
        'I' as u8,
        'T' as u8,
        'Y' as u8,
    ] + fields(seq![a.entries.len() as int, a.table_at as int])
}

/// One entry: hash, offset, flags, checksum, size, packed size.
pub open spec fn entry_record(e: Entry, checksum: u32) -> Seq<u8> {
    le8(e.hash as int) + le8(e.offset as int) + fields(
        seq![e.flags as int, checksum as int, e.size as int, e.zsize as int],
    )
}

/// Whether `b` is the archive `a`, with no hash twice.
pub open spec fn archive_of(b: Seq<u8>, a: Packed) -> bool {
    &&& stands_at(b, 0, archive_head(a))
    &&& a.entries.len() < 0x1_0000_0000
    &&& a.table_at < 0x1_0000_0000
    &&& forall|i: int|
        0 <= i < a.entries.len() ==> stands_at(
            b,
            a.table_at + 32 * i,
            entry_record(#[trigger] a.entries[i], a.checksums[i]),
        )
    &&& forall|i: int, j: int|
        0 <= i < j < a.entries.len() ==> (#[trigger] a.entries[i]).hash != (
        #[trigger] a.entries[j]).hash
}

proof fn lemma_entry(b: Seq<u8>, o: int, e: Entry, checksum: u32)
    requires
        stands_at(b, o, entry_record(e, checksum)),
    ensures
        entry_at(b, o) == e,
        readable(b, o, 32),
{
    let xs = seq![e.flags as int, checksum as int, e.size as int, e.zsize as int];
    let h = le8(e.hash as int);
    let f = le8(e.offset as int);
    lemma_le4_len(e.hash as int);
    lemma_le4_len(e.hash as int / 4294967296);
    lemma_le4_len(e.offset as int);
    lemma_le4_len(e.offset as int / 4294967296);
    lemma_fields_len(xs);
    lemma_stands_apart(b, o, h + f, fields(xs));
    lemma_stands_apart(b, o, h, f);
    lemma_le8_at(b, o, e.hash as int);
    lemma_le8_at(b, o + 8, e.offset as int);
    lemma_fields_at(b, o + 16, xs);
    assert(xs[0] == e.flags && xs[2] == e.size && xs[3] == e.zsize);
}

proof fn lemma_entries(b: Seq<u8>, a: Packed, n: nat)
    requires
        archive_of(b, a),
        n <= a.entries.len(),
    ensures
        keys_in(b, a.table_at as int, n) == Seq::new(n, |i: int| a.entries[i].hash),
        forall|h: u64| #[trigger]
            entries_in(b, a.table_at as int, n).contains_key(h) ==> exists|i: int|
                0 <= i < n && (#[trigger] a.entries[i]).hash == h,
        forall|i: int|
            0 <= i < n ==> {
                &&& entries_in(b, a.table_at as int, n).contains_key(
                    (#[trigger] a.entries[i]).hash,
                )
                &&& entries_in(b, a.table_at as int, n)[a.entries[i].hash] == a.entries[i]
            },
    decreases n,
{
    let at = a.table_at as int;
    let keys = Seq::new(n, |i: int| a.entries[i].hash);
    if n > 0 {
        let m = (n - 1) as nat;
        lemma_entries(b, a, m);
        let e = a.entries[n - 1];
        lemma_entry(b, at + 32 * (n - 1), e, a.checksums[n - 1]);
        let k = keys_in(b, at, m);
        if k.contains(e.hash) {
            let i = k.index_of(e.hash);
            assert(a.entries[i].hash == a.entries[n - 1].hash);
        }
        assert(keys_in(b, at, n) =~= keys);
        assert forall|h: u64| #[trigger] entries_in(b, at, n).contains_key(h) implies exists|i: int|
            0 <= i < n && (#[trigger] a.entries[i]).hash == h by {
            if h == e.hash {
                assert(a.entries[n - 1].hash == h);
            } else {
                assert(entries_in(b, at, m).contains_key(h));
                let i = choose|i: int| 0 <= i < m && (#[trigger] a.entries[i]).hash == h;
                assert(a.entries[i].hash == h);
            }
        }
    } else {
        assert(keys_in(b, at, n) =~= keys);
    }
}

/// An archive is read as it was written: every entry under its own hash, in the
/// order of the table, and no other.
pub proof fn archives_are_read_as_written(b: Seq<u8>, a: Packed)
    requires
        archive_of(b, a),
    ensures
        opened(b) matches Ok(t) && {
            &&& t.version == 1
            &&& t.salt == a.salt
            &&& t.bytes == b
            &&& t.order == Seq::new(a.entries.len(), |i: int| a.entries[i].hash)
            &&& forall|i: int|
                0 <= i < a.entries.len() ==> t.entries.contains_key((#[trigger] a.entries[i]).hash)
                    && t.entries[a.entries[i].hash] == a.entries[i]
            &&& forall|h: u64| #[trigger]
                t.entries.contains_key(h) ==> exists|i: int|
                    0 <= i < a.entries.len() && (#[trigger] a.entries[i]).hash == h
        },
{
    let xs = seq![a.entries.len() as int, a.table_at as int];
    let front = seq![
        'S' as u8,
        'C' as u8,
        'S' as u8,
        '#' as u8,
        1,
        0,
        (a.salt % 256) as u8,
        (a.salt / 256) as u8,
        'C' as u8,
        'I' as u8,
        'T' as u8,
        'Y' as u8,
    ];
    lemma_fields_len(xs);
    lemma_stands_apart(b, 0, front, fields(xs));
    lemma_fields_at(b, 12, xs);
    assert(xs[0] == a.entries.len() && xs[1] == a.table_at);
    let s = b.subrange(0, 12);
    assert(s =~= front);
    assert(b[0] == s[0] && b[1] == s[1] && b[2] == s[2] && b[3] == s[3] && b[4] == s[4] && b[5]
        == s[5] && b[6] == s[6] && b[7] == s[7]);
    assert(b.take(4) =~= seq![0x53u8, 0x43u8, 0x53u8, 0x23u8]);
    let n = a.entries.len();
    if n > 0 {
        lemma_entry(b, a.table_at + 32 * (n - 1), a.entries[n - 1], a.checksums[n - 1]);
    }
    lemma_entries(b, a, n);
}

// -------------------------------------------------------------- records ---

/// A property begins with the letter of its type, and what follows gives back the
/// value: `C` a truth value, `I` and `L` whole numbers of 4 and 8 bytes, `D` the bits
/// of a double, `S` a text or bytes behind their length, and an array its count,
/// its encoding, its length and its bytes.
pub proof fn properties_are_read_back(p: PropView)
    ensures
        ({
            let b = prop_bytes(p);
            match p {
                PropView::Bool(v) => b == seq!['C' as u8, v],
                PropView::I32(v) => b[0] == 'I' as u8 && b.len() == 5 && crate::bytes::int_at(b, 1)
                    == v,
                PropView::F64(v) => b[0] == 'D' as u8 && b.len() == 9 && long_at(b, 1) == v,
                PropView::I64(v) => b[0] == 'L' as u8 && b.len() == 9 && (v >= 0 ==> long_at(b, 1)
                    == v),
                PropView::Str(s) => encode_utf8(s).len() < 0x1_0000_0000 ==> b[0] == 'S' as u8
                    && le32(b, 1) == encode_utf8(s).len() && b.skip(5) == encode_utf8(s),
                PropView::Raw(r) => r.len() < 0x1_0000_0000 ==> b[0] == 'S' as u8 && le32(b, 1)
                    == r.len() && b.skip(5) == r,
                PropView::Array { code, count, encoding, payload } => payload.len()
                    < 0x1_0000_0000 ==> b[0] == code && le32(b, 1) == count && le32(b, 5)
                    == encoding && le32(b, 9) == payload.len() && b.skip(13) == payload,
            }
        }),
{
    let b = prop_bytes(p);
    match p {
        PropView::Bool(v) => {
            assert(b =~= seq!['C' as u8, v]);
        },
        PropView::I32(v) => {
            lemma_le4_len(v as int);
            assert(b.subrange(1, 5) =~= le4(v as int));
            lemma_le4_at(b, 1, v as int);
        },
        PropView::F64(v) => {
            lemma_le4_len(v as int);
            lemma_le4_len(v as int / 4294967296);
            assert(b.subrange(1, 9) =~= le8(v as int));
            lemma_le8_at(b, 1, v as int);
        },
        PropView::I64(v) => {
            lemma_le4_len(v as int);
            lemma_le4_len(v as int / 4294967296);
            assert(b.subrange(1, 9) =~= le8(v as int));
            if v >= 0 {
                lemma_le8_at(b, 1, v as int);
            }
        },
        PropView::Str(s) => {
            lemma_counted(b, 'S' as u8, encode_utf8(s));
        },
        PropView::Raw(r) => {
            lemma_counted(b, 'S' as u8, r);
        },
        PropView::Array { code, count, encoding, payload } => {
            let n = payload.len() as int;
            lemma_le4_len(count as int);
            lemma_le4_len(encoding as int);
            lemma_le4_len(n);
            assert(b.skip(13) =~= payload);
            assert(b.subrange(1, 5) =~= le4(count as int));
            assert(b.subrange(5, 9) =~= le4(encoding as int));
            assert(b.subrange(9, 13) =~= le4(n));
            lemma_le4_at(b, 1, count as int);
            lemma_le4_at(b, 5, encoding as int);
            if n < 0x1_0000_0000 {
                lemma_le4_at(b, 9, n);
            }
        },
    }
}

proof fn lemma_counted(b: Seq<u8>, c: u8, r: Seq<u8>)
    requires
        b == seq![c] + le4(r.len() as int) + r,
    ensures
        b[0] == c,
        b.skip(5) == r,
        r.len() < 0x1_0000_0000 ==> le32(b, 1) == r.len(),
{
    let n = r.len() as int;
    lemma_le4_len(n);
    assert(b.skip(5) =~= r);
    assert(b.subrange(1, 5) =~= le4(n));
    if n < 0x1_0000_0000 {
        lemma_le4_at(b, 1, n);
    }
}

/// A record says, behind the place where it ends, how many properties it has, how
/// many bytes they take and how long its name is; the name and the properties
/// follow.
pub proof fn record_heads_are_read_back(n: NodeView, at: nat)
    requires
        n.props.len() < 0x1_0000_0000,
        props_bytes(n.props).len() < 0x1_0000_0000,
        encode_utf8(n.name).len() < 256,
    ensures
        ({
            let b = node_bytes(n, at);
            let name = encode_utf8(n.name);
            &&& le32(b, 4) == n.props.len()
            &&& le32(b, 8) == props_bytes(n.props).len()
            &&& b[12] == name.len()
            &&& stands_at(b, 13, name)
            &&& stands_at(b, (13 + name.len()) as int, props_bytes(n.props))
        }),
{
    let b = node_bytes(n, at);
    let name = encode_utf8(n.name);
    let props = props_bytes(n.props);
    crate::fbx::lemma_props_size(n.props);
    let end = (at + crate::fbx::node_size(n)) as int;
    let count = n.props.len() as int;
    let size = props_size(n.props) as int;
    lemma_le4_len(end);
    lemma_le4_len(count);
    lemma_le4_len(size);
    let head = le4(end) + le4(count) + le4(size) + seq![(name.len() as int % 256) as u8] + name
        + props;
    assert(head.len() <= b.len() && b.take(head.len() as int) =~= head);
    assert forall|i: int| 0 <= i < head.len() implies b[i] == head[i] by {
        assert(b.take(head.len() as int)[i] == head[i]);
    }
    assert(b.subrange(4, 8) =~= le4(count));
    assert(b.subrange(8, 12) =~= le4(size));
    lemma_le4_at(b, 4, count);
    lemma_le4_at(b, 8, size);
    let from = (13 + name.len()) as int;
    assert(b.subrange(13, from) =~= name);
    assert(b.subrange(from, from + props.len()) =~= props);
}

} // verus!
