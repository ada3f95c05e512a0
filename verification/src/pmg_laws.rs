//! What a model file says, told from the writer's side.
//!
//! A file is laid down here field by field, in the order in which the format
//! declares them, and reading it is shown to give back what was laid down.

use crate::bytes::{
    int_at, le16, le32, le4, le8, lemma_le4_at, lemma_le4_len, lemma_le8_at, lemma_stands_apart,
    readable, stands_at,
};
use crate::pim::{Colour, LocatorView, ModelView, PartView, PieceView};
use crate::pmg::{
    bits, bits3, colours, header_at, layout, locator_at, model_of, most_material, packable, part_at,
    piece_of, placeholder, token_gives_back_the_name, token_of, triangle_count,
    twelve_characters_fit, Header,
};
use crate::text::{digits, number, numbers_are_read_back, zero_padded};
use vstd::prelude::*;

verus! {

// -------------------------------------------------------------- writing ---

/// 32-bit numbers one after the other.
pub open spec fn fields(xs: Seq<int>) -> Seq<u8>
    decreases xs.len(),
{
    if xs.len() == 0 {
        Seq::empty()
    } else {
        fields(xs.drop_last()) + le4(xs.last())
    }
}

/// A vertex as a writer has it.
pub struct Vertex {
    pub position: (u32, u32, u32),
    pub normal: (u32, u32, u32),
    pub tangent: (u32, u32, u32, u32),
    pub uvs: Seq<(u32, u32)>,
    pub rgba: (u8, u8, u8, u8),
    pub factor: u32,
    pub bones: u32,
    pub weights: u32,
}

/// A piece as a writer has it, and which streams it carries.
pub struct Drawn {
    pub material: nat,
    pub vertices: Seq<Vertex>,
    pub triangles: Seq<(u16, u16, u16)>,
    pub channels: nat,
    pub positions: bool,
    pub normals: bool,
    pub tangents: bool,
    pub uvs: bool,
    pub rgba: bool,
    pub factors: bool,
    pub bones: bool,
    /// what nothing is read from: the channel mask and the bounds
    pub mask: int,
    pub bounds: Seq<u8>,
}

/// Where a writer puts the streams of a piece.
pub struct Pools {
    pub vertices: int,
    /// the colour and UV side, where it stands apart
    pub surface: int,
    pub indices: int,
}

pub open spec fn kept(there: bool, s: Seq<u8>) -> Seq<u8> {
    if there {
        s
    } else {
        Seq::empty()
    }
}

pub open spec fn triple(t: (u32, u32, u32)) -> Seq<u8> {
    fields(seq![t.0 as int, t.1 as int, t.2 as int])
}

pub open spec fn pairs(s: Seq<(u32, u32)>) -> Seq<u8>
    decreases s.len(),
{
    if s.len() == 0 {
        Seq::empty()
    } else {
        fields(seq![s[0].0 as int, s[0].1 as int]) + pairs(s.skip(1))
    }
}

/// The position side of a vertex.
pub open spec fn shape_bytes(p: Drawn, v: Vertex) -> Seq<u8> {
    kept(p.positions, triple(v.position)) + kept(p.normals, triple(v.normal)) + kept(
        p.tangents,
        fields(
            seq![v.tangent.0 as int, v.tangent.1 as int, v.tangent.2 as int, v.tangent.3 as int],
        ),
    )
}

/// The colour and UV side of a vertex.
pub open spec fn surface_bytes(p: Drawn, v: Vertex) -> Seq<u8> {
    kept(p.uvs, pairs(v.uvs)) + kept(p.rgba, seq![v.rgba.0, v.rgba.1, v.rgba.2, v.rgba.3]) + kept(
        p.factors,
        fields(seq![v.factor as int]),
    )
}

pub open spec fn bone_bytes(p: Drawn, v: Vertex) -> Seq<u8> {
    kept(p.bones, fields(seq![v.bones as int, v.weights as int]))
}

pub open spec fn index_bytes(t: (u16, u16, u16)) -> Seq<u8> {
    seq![
        (t.0 % 256) as u8,
        (t.0 / 256) as u8,
        (t.1 % 256) as u8,
        (t.1 / 256) as u8,
        (t.2 % 256) as u8,
        (t.2 / 256) as u8,
    ]
}

pub open spec fn wide(there: bool, n: nat) -> int {
    if there {
        n as int
    } else {
        0
    }
}

/// Where a stream begins; -1 stands for none.
pub open spec fn begins(there: bool, at: int) -> int {
    if there {
        at
    } else {
        -1
    }
}

pub open spec fn shape_size(p: Drawn) -> int {
    wide(p.positions, 12) + wide(p.normals, 12) + wide(p.tangents, 16)
}

pub open spec fn surface_size(p: Drawn) -> int {
    wide(p.uvs, 8 * p.channels) + wide(p.rgba, 4) + wide(p.factors, 4)
}

pub open spec fn bone_size(p: Drawn) -> int {
    wide(p.bones, 8)
}

/// The offsets of the six streams that every version has, in order: positions,
/// normals, UVs, colours, factors, tangents.
pub open spec fn stream_offsets(p: Drawn, shape: int, surface: int) -> Seq<int> {
    seq![
        begins(p.positions, shape),
        begins(p.normals, shape + wide(p.positions, 12)),
        begins(p.uvs, surface),
        begins(p.rgba, surface + wide(p.uvs, 8 * p.channels)),
        begins(p.factors, surface + wide(p.uvs, 8 * p.channels) + wide(p.rgba, 4)),
        begins(p.tangents, shape + wide(p.positions, 12) + wide(p.normals, 12)),
    ]
}

/// A 0x14 or 0x15 piece record: counts, bounds, the six streams, the two bone
/// streams, and last the index pool.
pub open spec fn record(p: Drawn, at: Pools) -> Seq<u8> {
    let bones = at.vertices + shape_size(p) + surface_size(p);
    fields(
        seq![
            3 * p.triangles.len() as int,
            p.vertices.len() as int,
            p.mask,
            p.channels as int,
            p.material as int,
        ],
    ) + p.bounds + fields(
        stream_offsets(p, at.vertices, at.vertices + shape_size(p)) + seq![
            begins(p.bones, bones),
            begins(p.bones, bones + 4),
            at.indices,
        ],
    )
}

/// A 0x13 piece record: a bone count before the material, and the index pool
/// directly after the six streams.
pub open spec fn old_record(p: Drawn, at: Pools, bone_count: int) -> Seq<u8> {
    fields(
        seq![
            3 * p.triangles.len() as int,
            p.vertices.len() as int,
            p.mask,
            p.channels as int,
            bone_count,
            p.material as int,
        ],
    ) + p.bounds + fields(stream_offsets(p, at.vertices, at.surface).push(at.indices))
}

/// What a piece can be written from: numbers that fit their fields, and for each
/// vertex as many UVs as there are channels.
pub open spec fn writable(p: Drawn, at: Pools) -> bool {
    &&& p.material < 0x8000_0000
    &&& p.vertices.len() < 0x8000_0000
    &&& 3 * p.triangles.len() < 0x8000_0000
    &&& p.uvs ==> p.channels >= 1
    &&& 0 <= at.vertices
    &&& 0 <= at.surface
    &&& 0 <= at.indices < 0x8000_0000
    &&& at.vertices + 8 * p.channels + 64 < 0x8000_0000
    &&& at.surface + 8 * p.channels + 64 < 0x8000_0000
    &&& forall|v: int|
        0 <= v < p.vertices.len() ==> (#[trigger] p.vertices[v]).uvs.len() == p.channels
}

/// The piece, as far as a model keeps it.
pub open spec fn seen(p: Drawn) -> PieceView {
    let n = p.vertices.len();
    PieceView {
        material: p.material as usize,
        positions: Seq::new(
            if p.positions {
                n
            } else {
                0
            },
            |v: int| p.vertices[v].position,
        ),
        normals: Seq::new(
            if p.normals {
                n
            } else {
                0
            },
            |v: int| p.vertices[v].normal,
        ),
        uv0: Seq::new(
            if p.uvs {
                n
            } else {
                0
            },
            |v: int| p.vertices[v].uvs[0],
        ),
        uv1: Seq::new(
            if p.uvs && p.channels > 1 {
                n
            } else {
                0
            },
            |v: int| p.vertices[v].uvs[1],
        ),
        rgba: Seq::new(
            if p.rgba {
                n
            } else {
                0
            },
            |v: int|
                Colour::Bytes(
                    p.vertices[v].rgba.0,
                    p.vertices[v].rgba.1,
                    p.vertices[v].rgba.2,
                    p.vertices[v].rgba.3,
                ),
        ),
        tris: Seq::new(
            p.triangles.len(),
            |t: int|
                (
                    p.triangles[t].0 as u32,
                    p.triangles[t].1 as u32,
                    p.triangles[t].2 as u32,
                ),
        ),
    }
}

/// Whether `b` holds the triangles of a piece in its index pool.
pub open spec fn indexed(b: Seq<u8>, p: Drawn, at: Pools) -> bool {
    forall|t: int|
        0 <= t < p.triangles.len() ==> stands_at(
            b,
            at.indices + 6 * t,
            index_bytes(#[trigger] p.triangles[t]),
        )
}

/// Whether `b` holds a 0x14 or 0x15 piece whose record stands at `o`. All
/// streams are interleaved in one pool.
pub open spec fn written(b: Seq<u8>, o: int, p: Drawn, at: Pools) -> bool {
    &&& p.bounds.len() == 44
    &&& stands_at(b, o, record(p, at))
    &&& forall|v: int|
        0 <= v < p.vertices.len() ==> stands_at(
            b,
            at.vertices + (shape_size(p) + surface_size(p) + bone_size(p)) * v,
            shape_bytes(p, #[trigger] p.vertices[v]) + surface_bytes(p, p.vertices[v]) + bone_bytes(
                p,
                p.vertices[v],
            ),
        )
    &&& indexed(b, p, at)
}

/// Whether `b` holds a 0x13 piece whose record stands at `o`. With bones, the two
/// sides of a vertex stand in pools of their own; without, they are one.
pub open spec fn old_written(b: Seq<u8>, o: int, p: Drawn, at: Pools, bone_count: int) -> bool {
    &&& p.bounds.len() == 40
    &&& -0x8000_0000 <= bone_count < 0x8000_0000
    &&& stands_at(b, o, old_record(p, at, bone_count))
    &&& bone_count != 0 ==> forall|v: int|
        0 <= v < p.vertices.len() ==> stands_at(
            b,
            at.vertices + shape_size(p) * v,
            shape_bytes(p, #[trigger] p.vertices[v]),
        ) && stands_at(b, at.surface + surface_size(p) * v, surface_bytes(p, p.vertices[v]))
    &&& bone_count == 0 ==> at.surface == at.vertices + shape_size(p) && forall|v: int|
        0 <= v < p.vertices.len() ==> stands_at(
            b,
            at.vertices + (shape_size(p) + surface_size(p)) * v,
            shape_bytes(p, #[trigger] p.vertices[v]) + surface_bytes(p, p.vertices[v]),
        )
    &&& indexed(b, p, at)
}

// -------------------------------------------------------------- reading ---

pub proof fn lemma_fields_len(xs: Seq<int>)
    ensures
        fields(xs).len() == 4 * xs.len(),
    decreases xs.len(),
{
    if xs.len() > 0 {
        lemma_fields_len(xs.drop_last());
        lemma_le4_len(xs.last());
    }
}

/// Each of some fields, where it is found.
pub proof fn lemma_fields_at(b: Seq<u8>, o: int, xs: Seq<int>)
    requires
        stands_at(b, o, fields(xs)),
    ensures
        forall|i: int|
            0 <= i < xs.len() ==> {
                &&& stands_at(b, o + 4 * i, le4(#[trigger] xs[i]))
                &&& -0x8000_0000 <= xs[i] < 0x1_0000_0000 ==> readable(b, o + 4 * i, 4)
                &&& 0 <= xs[i] < 0x1_0000_0000 ==> le32(b, o + 4 * i) == xs[i]
                &&& -0x8000_0000 <= xs[i] < 0x8000_0000 ==> int_at(b, o + 4 * i) == xs[i]
            },
    decreases xs.len(),
{
    if xs.len() > 0 {
        lemma_stands_apart(b, o, fields(xs.drop_last()), le4(xs.last()));
        lemma_fields_len(xs.drop_last());
        lemma_fields_at(b, o, xs.drop_last());
        assert forall|i: int| 0 <= i < xs.len() implies {
            &&& stands_at(b, o + 4 * i, le4(#[trigger] xs[i]))
            &&& -0x8000_0000 <= xs[i] < 0x1_0000_0000 ==> readable(b, o + 4 * i, 4)
            &&& 0 <= xs[i] < 0x1_0000_0000 ==> le32(b, o + 4 * i) == xs[i]
            &&& -0x8000_0000 <= xs[i] < 0x8000_0000 ==> int_at(b, o + 4 * i) == xs[i]
        } by {
            if i < xs.len() - 1 {
                assert(xs.drop_last()[i] == xs[i]);
            } else if -0x8000_0000 <= xs[i] < 0x1_0000_0000 {
                lemma_le4_at(b, o + 4 * i, xs[i]);
            }
        }
    }
}

proof fn lemma_pairs_len(s: Seq<(u32, u32)>)
    ensures
        pairs(s).len() == 8 * s.len(),
    decreases s.len(),
{
    if s.len() > 0 {
        lemma_fields_len(seq![s[0].0 as int, s[0].1 as int]);
        lemma_pairs_len(s.skip(1));
    }
}

proof fn lemma_triple_at(b: Seq<u8>, o: int, t: (u32, u32, u32))
    requires
        stands_at(b, o, triple(t)),
    ensures
        bits3(b, o) == t,
{
    let xs = seq![t.0 as int, t.1 as int, t.2 as int];
    lemma_fields_at(b, o, xs);
    assert(xs[0] == t.0 && xs[1] == t.1 && xs[2] == t.2);
}

proof fn lemma_pair_at(b: Seq<u8>, o: int, s: Seq<(u32, u32)>)
    requires
        stands_at(b, o, pairs(s)),
        s.len() > 0,
    ensures
        (bits(b, o), bits(b, o + 4)) == s[0],
        stands_at(b, o + 8, pairs(s.skip(1))),
{
    let xs = seq![s[0].0 as int, s[0].1 as int];
    lemma_stands_apart(b, o, fields(xs), pairs(s.skip(1)));
    lemma_fields_len(xs);
    lemma_fields_at(b, o, xs);
    assert(xs[0] == s[0].0 && xs[1] == s[0].1);
}

proof fn lemma_kept_len(p: Drawn, v: Vertex)
    requires
        v.uvs.len() == p.channels,
    ensures
        shape_bytes(p, v).len() == shape_size(p),
        surface_bytes(p, v).len() == surface_size(p),
{
    let t = v.tangent;
    lemma_fields_len(seq![v.position.0 as int, v.position.1 as int, v.position.2 as int]);
    lemma_fields_len(seq![v.normal.0 as int, v.normal.1 as int, v.normal.2 as int]);
    lemma_fields_len(seq![t.0 as int, t.1 as int, t.2 as int, t.3 as int]);
    lemma_pairs_len(v.uvs);
    lemma_fields_len(seq![v.factor as int]);
}

/// The position side of one vertex, read back.
proof fn lemma_shape(b: Seq<u8>, o: int, p: Drawn, v: Vertex)
    requires
        stands_at(b, o, shape_bytes(p, v)),
    ensures
        p.positions ==> bits3(b, o) == v.position,
        p.normals ==> bits3(b, o + wide(p.positions, 12)) == v.normal,
{
    let a = kept(p.positions, triple(v.position));
    let c = kept(p.normals, triple(v.normal));
    let t = v.tangent;
    let d = kept(
        p.tangents,
        fields(seq![t.0 as int, t.1 as int, t.2 as int, t.3 as int]),
    );
    lemma_stands_apart(b, o, a + c, d);
    lemma_stands_apart(b, o, a, c);
    lemma_fields_len(seq![v.position.0 as int, v.position.1 as int, v.position.2 as int]);
    if p.positions {
        lemma_triple_at(b, o, v.position);
    }
    if p.normals {
        lemma_triple_at(b, o + wide(p.positions, 12), v.normal);
    }
}

/// The colour and UV side of one vertex, read back.
proof fn lemma_surface(b: Seq<u8>, o: int, p: Drawn, v: Vertex)
    requires
        stands_at(b, o, surface_bytes(p, v)),
        v.uvs.len() == p.channels,
        p.uvs ==> p.channels >= 1,
    ensures
        p.uvs ==> (bits(b, o), bits(b, o + 4)) == v.uvs[0],
        p.uvs && p.channels > 1 ==> (bits(b, o + 8), bits(b, o + 12)) == v.uvs[1],
        p.rgba ==> {
            let c = o + wide(p.uvs, 8 * p.channels);
            readable(b, c, 4) && (b[c], b[c + 1], b[c + 2], b[c + 3]) == v.rgba
        },
{
    let a = kept(p.uvs, pairs(v.uvs));
    let c = kept(p.rgba, seq![v.rgba.0, v.rgba.1, v.rgba.2, v.rgba.3]);
    let d = kept(p.factors, fields(seq![v.factor as int]));
    lemma_stands_apart(b, o, a + c, d);
    lemma_stands_apart(b, o, a, c);
    lemma_pairs_len(v.uvs);
    if p.uvs {
        lemma_pair_at(b, o, v.uvs);
        if p.channels > 1 {
            lemma_pair_at(b, o + 8, v.uvs.skip(1));
            assert(v.uvs.skip(1)[0] == v.uvs[1]);
        }
    }
    if p.rgba {
        let q = o + wide(p.uvs, 8 * p.channels);
        let s = b.subrange(q, q + 4);
        assert(s =~= c);
        assert(b[q] == s[0] && b[q + 1] == s[1] && b[q + 2] == s[2] && b[q + 3] == s[3]);
    }
}

proof fn lemma_colours(b: Seq<u8>, o: int, stride: int, n: nat, c: Seq<Colour>)
    requires
        o != -1,
        n <= c.len(),
        forall|v: int|
            0 <= v < n ==> {
                let q = o + stride * v;
                readable(b, q, 4) && Colour::Bytes(b[q], b[q + 1], b[q + 2], b[q + 3])
                    == #[trigger] c[v]
            },
    ensures
        colours(b, o, stride, n) == c.take(n as int),
    decreases n,
{
    if n > 0 {
        lemma_colours(b, o, stride, (n - 1) as nat, c);
        let q = o + stride * (n - 1);
        assert(Colour::Bytes(b[q], b[q + 1], b[q + 2], b[q + 3]) == c[n - 1]);
        assert(c.take(n as int) =~= c.take(n - 1).push(c[n - 1]));
    } else {
        assert(c.take(0) =~= Seq::<Colour>::empty());
    }
}

/// A piece whose record says where its streams are is read as it was drawn.
#[verifier::rlimit(30)]
#[verifier::spinoff_prover]
proof fn lemma_streams(b: Seq<u8>, h: Header, p: Drawn, at: Pools, shape: int, surface: int)
    requires
        writable(p, at),
        indexed(b, p, at),
        h.material == p.material,
        h.verts == p.vertices.len(),
        h.edges == 3 * p.triangles.len(),
        h.uv_channels == p.channels,
        h.triangles == at.indices,
        0 <= shape,
        0 <= surface,
        h.positions == begins(p.positions, shape),
        h.normals == begins(p.normals, shape + wide(p.positions, 12)),
        h.uvs == begins(p.uvs, surface),
        h.rgba == begins(p.rgba, surface + wide(p.uvs, 8 * p.channels)),
        forall|v: int|
            0 <= v < p.vertices.len() ==> {
                &&& stands_at(b, shape + h.stat * v, shape_bytes(p, #[trigger] p.vertices[v]))
                &&& stands_at(b, surface + h.dynm * v, surface_bytes(p, p.vertices[v]))
            },
    ensures
        piece_of(b, h) == seen(p),
{
    let n = p.vertices.len();
    let r = piece_of(b, h);
    let e = seen(p);
    let stat = h.stat as int;
    let dynm = h.dynm as int;
    assert forall|v: int| 0 <= v < n implies {
        &&& p.positions ==> bits3(b, h.positions + stat * v) == (#[trigger] p.vertices[v]).position
        &&& p.normals ==> bits3(b, h.normals + stat * v) == p.vertices[v].normal
        &&& p.uvs ==> (bits(b, h.uvs + dynm * v), bits(b, h.uvs + dynm * v + 4))
            == p.vertices[v].uvs[0]
        &&& p.uvs && p.channels > 1 ==> (
            bits(b, h.uvs + dynm * v + 8),
            bits(b, h.uvs + dynm * v + 12),
        ) == p.vertices[v].uvs[1]
        &&& p.rgba ==> {
            let c = h.rgba + dynm * v;
            readable(b, c, 4) && (b[c], b[c + 1], b[c + 2], b[c + 3]) == p.vertices[v].rgba
        }
    } by {
        lemma_shape(b, shape + stat * v, p, p.vertices[v]);
        lemma_surface(b, surface + dynm * v, p, p.vertices[v]);
        assert(shape + wide(p.positions, 12) + stat * v == shape + stat * v + wide(
            p.positions,
            12,
        ));
        let w = wide(p.uvs, 8 * p.channels);
        assert(surface + w + dynm * v == surface + dynm * v + w);
    }
    assert(r.positions =~= e.positions);
    assert(r.normals =~= e.normals);
    assert(r.uv0 =~= e.uv0);
    assert(r.uv1 =~= e.uv1);
    if p.rgba {
        assert forall|v: int| 0 <= v < n implies {
            let q = h.rgba + dynm * v;
            readable(b, q, 4) && Colour::Bytes(b[q], b[q + 1], b[q + 2], b[q + 3])
                == #[trigger] e.rgba[v]
        } by {
            assert(p.vertices[v] == p.vertices[v]);
        }
        lemma_colours(b, h.rgba as int, dynm, n, e.rgba);
        assert(e.rgba.take(n as int) =~= e.rgba);
    }
    assert(r.rgba =~= e.rgba);
    let m = p.triangles.len();
    assert(h.edges / 3 == m);
    if m > 0 {
        assert(stands_at(b, at.indices + 6 * (m - 1), index_bytes(p.triangles[m - 1])));
    }
    assert(triangle_count(b, h.triangles as int, m) == m);
    assert(r.tris =~= e.tris) by {
        assert forall|t: int| 0 <= t < m implies r.tris[t] == e.tris[t] by {
            let o = at.indices + 6 * t;
            let x = p.triangles[t];
            let s = b.subrange(o, o + 6);
            assert(s =~= index_bytes(x));
            assert(b[o] == s[0] && b[o + 1] == s[1] && b[o + 2] == s[2] && b[o + 3] == s[3] && b[o
                + 4] == s[4] && b[o + 5] == s[5]);
            assert(le16(b, o) == x.0 && le16(b, o + 2) == x.1 && le16(b, o + 4) == x.2);
        }
    }
    assert(r =~= e);
}

/// What the record of a 0x14 or 0x15 piece says.
#[verifier::rlimit(30)]
#[verifier::spinoff_prover]
proof fn lemma_record(b: Seq<u8>, o: int, p: Drawn, at: Pools)
    requires
        writable(p, at),
        p.bounds.len() == 44,
        stands_at(b, o, record(p, at)),
    ensures
        ({
            let h = header_at(b, o, false);
            let surface = at.vertices + shape_size(p);
            let size = shape_size(p) + surface_size(p) + bone_size(p);
            &&& h.material == p.material
            &&& h.verts == p.vertices.len()
            &&& h.edges == 3 * p.triangles.len()
            &&& h.uv_channels == p.channels
            &&& h.triangles == at.indices
            &&& h.positions == begins(p.positions, at.vertices)
            &&& h.normals == begins(p.normals, at.vertices + wide(p.positions, 12))
            &&& h.uvs == begins(p.uvs, surface)
            &&& h.rgba == begins(p.rgba, surface + wide(p.uvs, 8 * p.channels))
            &&& h.stat == size
            &&& h.dynm == size
        }),
{
    let bones = at.vertices + shape_size(p) + surface_size(p);
    let surface = at.vertices + shape_size(p);
    let counts = seq![
        3 * p.triangles.len() as int,
        p.vertices.len() as int,
        p.mask,
        p.channels as int,
        p.material as int,
    ];
    let offsets = stream_offsets(p, at.vertices, surface) + seq![
        begins(p.bones, bones),
        begins(p.bones, bones + 4),
        at.indices,
    ];
    lemma_stands_apart(b, o, fields(counts) + p.bounds, fields(offsets));
    lemma_stands_apart(b, o, fields(counts), p.bounds);
    lemma_fields_len(counts);
    lemma_fields_at(b, o, counts);
    lemma_fields_at(b, o + 64, offsets);
    assert(counts[0] == 3 * p.triangles.len() && counts[1] == p.vertices.len());
    assert(counts[3] == p.channels && counts[4] == p.material);
    assert(offsets[0] == begins(p.positions, at.vertices));
    assert(offsets[1] == begins(p.normals, at.vertices + wide(p.positions, 12)));
    assert(offsets[2] == begins(p.uvs, surface));
    assert(offsets[3] == begins(p.rgba, surface + wide(p.uvs, 8 * p.channels)));
    assert(offsets[4] == begins(
        p.factors,
        surface + wide(p.uvs, 8 * p.channels) + wide(p.rgba, 4),
    ));
    assert(offsets[5] == begins(
        p.tangents,
        at.vertices + wide(p.positions, 12) + wide(p.normals, 12),
    ));
    assert(offsets[6] == begins(p.bones, bones));
    assert(offsets[8] == at.indices);
}

/// A 0x14 or 0x15 piece is read as it was written, whichever streams it carries:
/// its triangles from the pool that the last field of the record leads to, its
/// vertices from the streams that the fields before lead to.
pub proof fn pieces_are_read_as_written(b: Seq<u8>, o: int, p: Drawn, at: Pools)
    requires
        writable(p, at),
        written(b, o, p, at),
    ensures
        piece_of(b, header_at(b, o, false)) == seen(p),
{
    lemma_record(b, o, p, at);
    let h = header_at(b, o, false);
    let surface = at.vertices + shape_size(p);
    let size = shape_size(p) + surface_size(p) + bone_size(p);
    assert forall|v: int| 0 <= v < p.vertices.len() implies {
        &&& stands_at(b, at.vertices + size * v, shape_bytes(p, #[trigger] p.vertices[v]))
        &&& stands_at(b, surface + size * v, surface_bytes(p, p.vertices[v]))
    } by {
        let w = p.vertices[v];
        lemma_kept_len(p, w);
        let from = at.vertices + size * v;
        lemma_stands_apart(b, from, shape_bytes(p, w) + surface_bytes(p, w), bone_bytes(p, w));
        lemma_stands_apart(b, from, shape_bytes(p, w), surface_bytes(p, w));
        assert(from + shape_size(p) == surface + size * v);
    }
    lemma_streams(b, h, p, at, at.vertices, surface);
}

/// What the record of a 0x13 piece says.
#[verifier::rlimit(30)]
#[verifier::spinoff_prover]
proof fn lemma_old_record(b: Seq<u8>, o: int, p: Drawn, at: Pools, bone_count: int)
    requires
        writable(p, at),
        p.bounds.len() == 40,
        -0x8000_0000 <= bone_count < 0x8000_0000,
        stands_at(b, o, old_record(p, at, bone_count)),
    ensures
        ({
            let h = header_at(b, o, true);
            let size = shape_size(p) + surface_size(p);
            &&& h.material == p.material
            &&& h.verts == p.vertices.len()
            &&& h.edges == 3 * p.triangles.len()
            &&& h.uv_channels == p.channels
            &&& h.triangles == at.indices
            &&& h.positions == begins(p.positions, at.vertices)
            &&& h.normals == begins(p.normals, at.vertices + wide(p.positions, 12))
            &&& h.uvs == begins(p.uvs, at.surface)
            &&& h.rgba == begins(p.rgba, at.surface + wide(p.uvs, 8 * p.channels))
            &&& bone_count == 0 ==> h.stat == size && h.dynm == size
            &&& bone_count != 0 ==> h.stat == shape_size(p) && h.dynm == surface_size(p)
        }),
{
    let counts = seq![
        3 * p.triangles.len() as int,
        p.vertices.len() as int,
        p.mask,
        p.channels as int,
        bone_count,
        p.material as int,
    ];
    let offsets = stream_offsets(p, at.vertices, at.surface).push(at.indices);
    lemma_stands_apart(b, o, fields(counts) + p.bounds, fields(offsets));
    lemma_stands_apart(b, o, fields(counts), p.bounds);
    lemma_fields_len(counts);
    lemma_fields_at(b, o, counts);
    lemma_fields_at(b, o + 64, offsets);
    assert(counts[0] == 3 * p.triangles.len() && counts[1] == p.vertices.len());
    assert(counts[3] == p.channels && counts[4] == bone_count && counts[5] == p.material);
    assert(offsets[0] == begins(p.positions, at.vertices));
    assert(offsets[1] == begins(p.normals, at.vertices + wide(p.positions, 12)));
    assert(offsets[2] == begins(p.uvs, at.surface));
    assert(offsets[3] == begins(p.rgba, at.surface + wide(p.uvs, 8 * p.channels)));
    assert(offsets[4] == begins(
        p.factors,
        at.surface + wide(p.uvs, 8 * p.channels) + wide(p.rgba, 4),
    ));
    assert(offsets[5] == begins(
        p.tangents,
        at.vertices + wide(p.positions, 12) + wide(p.normals, 12),
    ));
    assert(offsets[6] == at.indices);
}

/// A 0x13 piece is read as it was written, with bones and without.
pub proof fn old_pieces_are_read_as_written(
    b: Seq<u8>,
    o: int,
    p: Drawn,
    at: Pools,
    bone_count: int,
)
    requires
        writable(p, at),
        old_written(b, o, p, at, bone_count),
    ensures
        piece_of(b, header_at(b, o, true)) == seen(p),
{
    lemma_old_record(b, o, p, at, bone_count);
    let h = header_at(b, o, true);
    if bone_count == 0 {
        let size = shape_size(p) + surface_size(p);
        assert forall|v: int| 0 <= v < p.vertices.len() implies {
            &&& stands_at(b, at.vertices + size * v, shape_bytes(p, #[trigger] p.vertices[v]))
            &&& stands_at(b, at.surface + size * v, surface_bytes(p, p.vertices[v]))
        } by {
            let w = p.vertices[v];
            lemma_kept_len(p, w);
            let from = at.vertices + size * v;
            lemma_stands_apart(b, from, shape_bytes(p, w), surface_bytes(p, w));
            assert(from + shape_size(p) == at.surface + size * v);
        }
    }
    lemma_streams(b, h, p, at, at.vertices, at.surface);
}

// ---------------------------------------------------- parts and locators ---

/// A part as a writer has it.
pub struct Grouped {
    pub name: Seq<char>,
    pub pieces: nat,
    pub first_piece: nat,
    pub locators: nat,
    pub first_locator: nat,
}

/// A locator as a writer has it; its rotation is the quaternion w + xi + yj + zk.
pub struct Marker {
    pub name: Seq<char>,
    pub position: (u32, u32, u32),
    pub scale: u32,
    pub w: u32,
    pub x: u32,
    pub y: u32,
    pub z: u32,
    /// what nothing is read from
    pub hookup: int,
}

/// Whether a name can be packed into a token.
pub open spec fn nameable(name: Seq<char>) -> bool {
    packable(name) && name.len() <= 12
}

/// A part record: the name's token, then how many pieces and which is the first,
/// then how many locators and which is the first.
pub open spec fn part_record(p: Grouped) -> Seq<u8> {
    le8(token_of(p.name) as int) + fields(
        seq![
            p.pieces as int,
            p.first_piece as int,
            p.locators as int,
            p.first_locator as int,
        ],
    )
}

/// A locator record: the name's token, the position, one scale, the rotation with
/// its scalar part first, and a hookup.
pub open spec fn locator_record(l: Marker) -> Seq<u8> {
    le8(token_of(l.name) as int) + fields(
        seq![
            l.position.0 as int,
            l.position.1 as int,
            l.position.2 as int,
            l.scale as int,
            l.w as int,
            l.x as int,
            l.y as int,
            l.z as int,
            l.hookup,
        ],
    )
}

/// A part is read as it was written: its name, and the runs of pieces and of
/// locators that are its own.
pub proof fn parts_are_read_as_written(b: Seq<u8>, o: int, p: Grouped)
    requires
        stands_at(b, o, part_record(p)),
        nameable(p.name),
        p.pieces < 0x8000_0000,
        p.first_piece < 0x8000_0000,
        p.locators < 0x8000_0000,
        p.first_locator < 0x8000_0000,
    ensures
        part_at(b, o).name == p.name,
        part_at(b, o).pieces.len() == p.pieces,
        part_at(b, o).locators.len() == p.locators,
        forall|i: int|
            0 <= i < p.pieces ==> #[trigger] part_at(b, o).pieces[i] == p.first_piece + i,
        forall|i: int|
            0 <= i < p.locators ==> #[trigger] part_at(b, o).locators[i] == p.first_locator + i,
{
    let xs = seq![
        p.pieces as int,
        p.first_piece as int,
        p.locators as int,
        p.first_locator as int,
    ];
    twelve_characters_fit(p.name);
    token_gives_back_the_name(p.name);
    let t = token_of(p.name) as int;
    lemma_le4_len(t);
    lemma_le4_len(t / 4294967296);
    lemma_stands_apart(b, o, le8(t), fields(xs));
    lemma_le8_at(b, o, t);
    lemma_fields_at(b, o + 8, xs);
    assert(xs[0] == p.pieces && xs[1] == p.first_piece);
    assert(xs[2] == p.locators && xs[3] == p.first_locator);
}

/// A locator is read as it was written: the rotation with its scalar part first,
/// the one scale for all three axes, a scale of nothing as none.
pub proof fn locators_are_read_as_written(b: Seq<u8>, o: int, l: Marker)
    requires
        stands_at(b, o, locator_record(l)),
        nameable(l.name),
    ensures
        locator_at(b, o).name == l.name,
        locator_at(b, o).position == l.position,
        locator_at(b, o).rotation == (l.w, l.x, l.y, l.z),
        locator_at(b, o).scale.0 == locator_at(b, o).scale.1,
        locator_at(b, o).scale.1 == locator_at(b, o).scale.2,
        // 1e-9 and above, as bits, on either side of zero
        0x3089_705f <= l.scale < 0x8000_0000 || 0xb089_705f <= l.scale ==> locator_at(
            b,
            o,
        ).scale.0 == l.scale,
        l.scale < 0x3089_705f || 0x8000_0000 <= l.scale < 0xb089_705f ==> locator_at(b, o).scale.0
            == 0x3f80_0000,
{
    let xs = seq![
        l.position.0 as int,
        l.position.1 as int,
        l.position.2 as int,
        l.scale as int,
        l.w as int,
        l.x as int,
        l.y as int,
        l.z as int,
        l.hookup,
    ];
    twelve_characters_fit(l.name);
    token_gives_back_the_name(l.name);
    let t = token_of(l.name) as int;
    lemma_le4_len(t);
    lemma_le4_len(t / 4294967296);
    lemma_stands_apart(b, o, le8(t), fields(xs));
    lemma_le8_at(b, o, t);
    lemma_fields_at(b, o + 8, xs);
    assert(xs[0] == l.position.0 && xs[1] == l.position.1 && xs[2] == l.position.2);
    assert(xs[3] == l.scale && xs[4] == l.w && xs[5] == l.x && xs[6] == l.y && xs[7] == l.z);
}

// ---------------------------------------------------------------- files ---

/// A model as a writer has it, and where it puts the three tables and the streams
/// of each piece.
pub struct Written {
    pub parts: Seq<Grouped>,
    pub locators: Seq<Marker>,
    pub pieces: Seq<Drawn>,
    pub pools: Seq<Pools>,
    pub parts_at: nat,
    pub locators_at: nat,
    pub pieces_at: nat,
    /// what nothing is read from: bone count, weight width, skeleton hash, bounds
    pub bones: int,
    pub weights: int,
    pub hash: Seq<u8>,
    pub bounds: Seq<u8>,
    /// how many bones each 0x13 piece has
    pub bone_counts: Seq<int>,
}

/// The three versions.
pub enum Version {
    V13,
    V14,
    V15,
}

/// How a file begins: the version and the magic, the counts, the skeleton hash in
/// 0x15 alone, the bounds, and where the tables of parts, locators and pieces are.
pub open spec fn head(f: Written, v: Version) -> Seq<u8> {
    let tables = fields(
        seq![f.parts_at as int, f.locators_at as int, f.pieces_at as int],
    );
    match v {
        Version::V15 => seq![0x15u8, 'g' as u8, 'm' as u8, 'P' as u8] + fields(
            seq![
                f.pieces.len() as int,
                f.parts.len() as int,
                f.bones,
                f.weights,
                f.locators.len() as int,
            ],
        ) + f.hash + f.bounds + tables,
        Version::V14 => seq![0x14u8, 'g' as u8, 'm' as u8, 'P' as u8] + fields(
            seq![
                f.pieces.len() as int,
                f.parts.len() as int,
                f.bones,
                f.weights,
                f.locators.len() as int,
            ],
        ) + Seq::<u8>::empty() + f.bounds + tables,
        Version::V13 => seq![0x13u8, 'g' as u8, 'm' as u8, 'P' as u8] + fields(
            seq![
                f.pieces.len() as int,
                f.parts.len() as int,
                f.bones,
                f.locators.len() as int,
            ],
        ) + Seq::<u8>::empty() + f.bounds + tables,
    }
}

/// Whether `b` is a file that a writer made of `f`.
pub open spec fn file_of(b: Seq<u8>, f: Written, v: Version) -> bool {
    &&& b.len() >= 116
    &&& f.hash.len() == 8
    &&& f.bounds.len() == 44
    &&& stands_at(b, 0, head(f, v))
    &&& f.pieces.len() < 0x8000_0000
    &&& f.parts.len() < 0x8000_0000
    &&& f.locators.len() < 0x8000_0000
    &&& f.parts_at < 0x8000_0000
    &&& f.locators_at < 0x8000_0000
    &&& f.pieces_at < 0x8000_0000
    &&& forall|i: int|
        0 <= i < f.parts.len() ==> {
            let p = #[trigger] f.parts[i];
            &&& stands_at(b, f.parts_at + 24 * i, part_record(p))
            &&& nameable(p.name)
            &&& p.pieces < 0x8000_0000
            &&& p.first_piece < 0x8000_0000
            &&& p.locators < 0x8000_0000
            &&& p.first_locator < 0x8000_0000
        }
    &&& forall|i: int|
        0 <= i < f.locators.len() ==> {
            &&& stands_at(b, f.locators_at + 44 * i, locator_record(#[trigger] f.locators[i]))
            &&& nameable(f.locators[i].name)
        }
    &&& forall|i: int|
        0 <= i < f.pieces.len() ==> {
            &&& writable(#[trigger] f.pieces[i], f.pools[i])
            &&& match v {
                Version::V13 => old_written(
                    b,
                    f.pieces_at + 104 * i,
                    f.pieces[i],
                    f.pools[i],
                    f.bone_counts[i],
                ),
                _ => written(b, f.pieces_at + 100 * i, f.pieces[i], f.pools[i]),
            }
        }
}

/// Whether a part of a model is the one that was written.
pub open spec fn same_part(r: PartView, p: Grouped) -> bool {
    &&& r.name == p.name
    &&& r.pieces.len() == p.pieces
    &&& r.locators.len() == p.locators
    &&& forall|i: int| 0 <= i < p.pieces ==> #[trigger] r.pieces[i] == p.first_piece + i
    &&& forall|i: int| 0 <= i < p.locators ==> #[trigger] r.locators[i] == p.first_locator + i
}

/// Whether a locator of a model is the one that was written.
pub open spec fn same_locator(r: LocatorView, l: Marker) -> bool {
    &&& r.name == l.name
    &&& r.position == l.position
    &&& r.rotation == (l.w, l.x, l.y, l.z)
    &&& 0x3089_705f <= l.scale < 0x8000_0000 || 0xb089_705f <= l.scale ==> r.scale == (
        l.scale,
        l.scale,
        l.scale,
    )
    &&& l.scale < 0x3089_705f || 0x8000_0000 <= l.scale < 0xb089_705f ==> r.scale == (
        0x3f80_0000u32,
        0x3f80_0000u32,
        0x3f80_0000u32,
    )
}

/// Whether a model is the one that was written: every part, locator and piece in
/// its place, and a material for every index that a piece carries, up to the
/// largest.
pub open spec fn same_model(m: ModelView, f: Written) -> bool {
    &&& m.parts.len() == f.parts.len()
    &&& forall|i: int| 0 <= i < f.parts.len() ==> same_part(#[trigger] m.parts[i], f.parts[i])
    &&& m.locators.len() == f.locators.len()
    &&& forall|i: int|
        0 <= i < f.locators.len() ==> same_locator(#[trigger] m.locators[i], f.locators[i])
    &&& m.pieces.len() == f.pieces.len()
    &&& forall|i: int| 0 <= i < f.pieces.len() ==> #[trigger] m.pieces[i] == seen(f.pieces[i])
    &&& forall|i: int|
        0 <= i < f.pieces.len() ==> (#[trigger] f.pieces[i]).material < m.materials.len()
    &&& m.materials.len() > 1 ==> exists|i: int|
        0 <= i < f.pieces.len() && (#[trigger] f.pieces[i]).material == m.materials.len() - 1
    &&& m.materials.len() >= 1
    &&& forall|i: int| 0 <= i < m.materials.len() ==> numbered(#[trigger] m.materials[i], i)
}

/// Whether a name is `mat_` and a number of four digits at least.
pub open spec fn numbered(name: Seq<char>, i: int) -> bool {
    &&& name.len() >= 8
    &&& name.take(4) == seq!['m', 'a', 't', '_']
    &&& number(name.skip(4), 10, u32::MAX as nat) == Some(i as nat)
}

proof fn lemma_numbered(i: int)
    requires
        0 <= i <= u32::MAX,
    ensures
        numbered(placeholder(i), i),
{
    reveal_strlit("mat_");
    numbers_are_read_back(i as nat, 10, 4, u32::MAX as nat);
    let d = zero_padded(digits(i as nat, 10), 4);
    assert(placeholder(i).take(4) =~= seq!['m', 'a', 't', '_']);
    assert(placeholder(i).skip(4) =~= d);
}

proof fn lemma_head(b: Seq<u8>, f: Written, v: Version)
    requires
        file_of(b, f, v),
    ensures
        layout(b) is Ok,
        layout(b)->Ok_0.piece_count == f.pieces.len(),
        layout(b)->Ok_0.part_count == f.parts.len(),
        layout(b)->Ok_0.locator_count == f.locators.len(),
        layout(b)->Ok_0.parts_offset == f.parts_at,
        layout(b)->Ok_0.locators_offset == f.locators_at,
        layout(b)->Ok_0.pieces_offset == f.pieces_at,
        layout(b)->Ok_0.old == (v is V13),
{
    let tables = seq![f.parts_at as int, f.locators_at as int, f.pieces_at as int];
    let (magic, counts, hash) = match v {
        Version::V15 => (
            seq![0x15u8, 'g' as u8, 'm' as u8, 'P' as u8],
            seq![
                f.pieces.len() as int,
                f.parts.len() as int,
                f.bones,
                f.weights,
                f.locators.len() as int,
            ],
            f.hash,
        ),
        Version::V14 => (
            seq![0x14u8, 'g' as u8, 'm' as u8, 'P' as u8],
            seq![
                f.pieces.len() as int,
                f.parts.len() as int,
                f.bones,
                f.weights,
                f.locators.len() as int,
            ],
            Seq::<u8>::empty(),
        ),
        Version::V13 => (
            seq![0x13u8, 'g' as u8, 'm' as u8, 'P' as u8],
            seq![
                f.pieces.len() as int,
                f.parts.len() as int,
                f.bones,
                f.locators.len() as int,
            ],
            Seq::<u8>::empty(),
        ),
    };
    lemma_fields_len(counts);
    lemma_stands_apart(b, 0, magic + fields(counts) + hash + f.bounds, fields(tables));
    lemma_stands_apart(b, 0, magic + fields(counts) + hash, f.bounds);
    lemma_stands_apart(b, 0, magic + fields(counts), hash);
    lemma_stands_apart(b, 0, magic, fields(counts));
    lemma_fields_at(b, 4, counts);
    let at = (4 + 4 * counts.len() + hash.len() + 44) as int;
    lemma_fields_at(b, at, tables);
    let s = b.subrange(0, 4);
    assert(s =~= magic);
    assert(b[0] == s[0] && b[1] == s[1] && b[2] == s[2] && b[3] == s[3]);
    assert(b.subrange(1, 4) =~= seq![0x67u8, 0x6du8, 0x50u8]);
    assert(counts[0] == f.pieces.len() && counts[1] == f.parts.len());
    assert(counts.last() == f.locators.len());
    assert(tables[0] == f.parts_at && tables[1] == f.locators_at && tables[2] == f.pieces_at);
}

proof fn lemma_most(p: Seq<PieceView>)
    ensures
        forall|i: int| 0 <= i < p.len() ==> (#[trigger] p[i]).material <= most_material(p),
        most_material(p) > 0 ==> exists|i: int|
            0 <= i < p.len() && (#[trigger] p[i]).material == most_material(p),
    decreases p.len(),
{
    if p.len() > 0 {
        let q = p.drop_last();
        lemma_most(q);
        assert forall|i: int| 0 <= i < p.len() implies (#[trigger] p[i]).material <= most_material(
            p,
        ) by {
            if i < q.len() {
                assert(q[i] == p[i]);
            }
        }
        if most_material(p) > 0 {
            if p.last().material > most_material(q) {
                assert(p[p.len() - 1].material == most_material(p));
            } else {
                let j = choose|j: int|
                    0 <= j < q.len() && (#[trigger] q[j]).material == most_material(q);
                assert(p[j].material == most_material(p));
            }
        }
    }
}

/// Reading a file gives back the model that was written into it, in all three
/// versions.
pub proof fn models_are_read_as_written(b: Seq<u8>, f: Written, v: Version)
    requires
        file_of(b, f, v),
    ensures
        layout(b) is Ok,
        same_model(model_of(b, layout(b)->Ok_0), f),
{
    lemma_head(b, f, v);
    let m = model_of(b, layout(b)->Ok_0);
    assert forall|i: int| 0 <= i < f.parts.len() implies same_part(
        #[trigger] m.parts[i],
        f.parts[i],
    ) by {
        parts_are_read_as_written(b, f.parts_at + 24 * i, f.parts[i]);
    }
    assert forall|i: int| 0 <= i < f.locators.len() implies same_locator(
        #[trigger] m.locators[i],
        f.locators[i],
    ) by {
        locators_are_read_as_written(b, f.locators_at + 44 * i, f.locators[i]);
    }
    assert forall|i: int| 0 <= i < f.pieces.len() implies #[trigger] m.pieces[i] == seen(
        f.pieces[i],
    ) by {
        let p = f.pieces[i];
        match v {
            Version::V13 => {
                old_pieces_are_read_as_written(
                    b,
                    f.pieces_at + 104 * i,
                    p,
                    f.pools[i],
                    f.bone_counts[i],
                );
            },
            _ => {
                pieces_are_read_as_written(b, f.pieces_at + 100 * i, p, f.pools[i]);
            },
        }
    }
    lemma_most(m.pieces);
    assert(most_material(m.pieces) < u32::MAX) by {
        if most_material(m.pieces) > 0 {
            let j = choose|j: int|
                0 <= j < m.pieces.len() && (#[trigger] m.pieces[j]).material == most_material(
                    m.pieces,
                );
            assert(m.pieces[j] == seen(f.pieces[j]));
            assert(f.pieces[j].material < 0x8000_0000);
        }
    }
    assert forall|i: int| 0 <= i < m.materials.len() implies numbered(
        #[trigger] m.materials[i],
        i,
    ) by {
        lemma_numbered(i);
    }
    assert forall|i: int| 0 <= i < f.pieces.len() implies (#[trigger] f.pieces[i]).material
        < m.materials.len() by {
        assert(m.pieces[i].material == f.pieces[i].material);
    }
    if m.materials.len() > 1 {
        let j = choose|j: int|
            0 <= j < m.pieces.len() && (#[trigger] m.pieces[j]).material == most_material(m.pieces);
        assert(f.pieces[j].material == m.materials.len() - 1);
    }
}

} // verus!
