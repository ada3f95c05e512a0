//! What an importer makes of the geometry that is written.

use crate::bytes::{int_at, le4, le8, lemma_le4_at, lemma_le4_len, lemma_le8_at, long_at};
use crate::fbx::{array_of, double_bytes, int_bytes, NodeView, PropView};
use crate::fbxscene::{
    corners, geometry_of, layer_element, polygons, MeshView, PAINT_UV,
};
use crate::packing::zlib_fast;
use vstd::prelude::*;

verus! {

// ------------------------------------------------------------- polygons ---

/// The corners that an index list has given since the last polygon ended.
pub open spec fn unfinished(e: Seq<i32>) -> Seq<int>
    decreases e.len(),
{
    if e.len() == 0 || e.last() < 0 {
        Seq::empty()
    } else {
        unfinished(e.drop_last()).push(e.last() as int)
    }
}

/// The polygons of an index list, by the format's rule: an entry below zero ends
/// a polygon, its corner being -1 less the entry.
pub open spec fn polygons_in(e: Seq<i32>) -> Seq<Seq<int>>
    decreases e.len(),
{
    if e.len() == 0 {
        Seq::empty()
    } else if e.last() < 0 {
        polygons_in(e.drop_last()).push(unfinished(e.drop_last()).push(-1 - e.last()))
    } else {
        polygons_in(e.drop_last())
    }
}

/// The vertex of an entry, ending a polygon or not.
pub open spec fn vertex_of(e: i32) -> int {
    if e < 0 {
        -1 - e
    } else {
        e as int
    }
}

/// Whether all corners fit the list's numbers.
pub open spec fn indexable(t: Seq<(u32, u32, u32)>) -> bool {
    forall|k: int|
        0 <= k < t.len() ==> (#[trigger] t[k]).0 < 0x8000_0000 && t[k].1 < 0x8000_0000 && t[k].2
            < 0x8000_0000
}

proof fn lemma_corners(t: Seq<(u32, u32, u32)>)
    requires
        indexable(t),
    ensures
        polygons(t).len() == 3 * t.len(),
        corners(t).len() == 3 * t.len(),
        forall|k: int|
            0 <= k < t.len() ==> {
                &&& polygons(t)[3 * k] == (#[trigger] t[k]).0
                &&& polygons(t)[3 * k + 1] == t[k].1
                &&& polygons(t)[3 * k + 2] == -1 - t[k].2
                &&& corners(t)[3 * k] == t[k].0
                &&& corners(t)[3 * k + 1] == t[k].1
                &&& corners(t)[3 * k + 2] == t[k].2
            },
        unfinished(polygons(t)) == Seq::<int>::empty(),
        polygons_in(polygons(t)) == Seq::new(
            t.len(),
            |k: int| seq![t[k].0 as int, t[k].1 as int, t[k].2 as int],
        ),
    decreases t.len(),
{
    if t.len() > 0 {
        let s = t.drop_last();
        let x = t.last();
        assert forall|k: int| 0 <= k < s.len() implies (#[trigger] s[k]).0 < 0x8000_0000 && s[k].1
            < 0x8000_0000 && s[k].2 < 0x8000_0000 by {
            assert(t[k] == s[k]);
        }
        lemma_corners(s);
        assert(t[t.len() - 1] == x);
        assert forall|k: int| 0 <= k < t.len() implies {
            &&& polygons(t)[3 * k] == (#[trigger] t[k]).0
            &&& polygons(t)[3 * k + 1] == t[k].1
            &&& polygons(t)[3 * k + 2] == -1 - t[k].2
            &&& corners(t)[3 * k] == t[k].0
            &&& corners(t)[3 * k + 1] == t[k].1
            &&& corners(t)[3 * k + 2] == t[k].2
        } by {
            if k < s.len() {
                assert(s[k] == t[k]);
            }
        }
        let e = polygons(t);
        let e2 = e.drop_last();
        let e1 = e2.drop_last();
        let e0 = e1.drop_last();
        assert(e0 =~= polygons(s));
        assert(unfinished(e1) =~= seq![x.0 as int]);
        assert(unfinished(e2) =~= seq![x.0 as int, x.1 as int]);
        assert(polygons_in(e1) == polygons_in(e0));
        assert(polygons_in(e2) == polygons_in(e0));
        assert(unfinished(e2).push(-1 - e.last()) =~= seq![x.0 as int, x.1 as int, x.2 as int]);
        assert(polygons_in(e) =~= Seq::new(
            t.len(),
            |k: int| seq![t[k].0 as int, t[k].1 as int, t[k].2 as int],
        ));
    } else {
        assert(polygons_in(polygons(t)) =~= Seq::new(
            t.len(),
            |k: int| seq![t[k].0 as int, t[k].1 as int, t[k].2 as int],
        ));
    }
}

/// Every polygon that an importer finds in an index list is a triangle of the
/// mesh, and it finds them all, in order.
pub proof fn triangles_are_read_back(t: Seq<(u32, u32, u32)>)
    requires
        indexable(t),
    ensures
        polygons_in(polygons(t)).len() == t.len(),
        unfinished(polygons(t)).len() == 0,
        forall|k: int|
            0 <= k < t.len() ==> #[trigger] polygons_in(polygons(t))[k] == seq![
                t[k].0 as int,
                t[k].1 as int,
                t[k].2 as int,
            ],
        polygons(t).len() == 3 * t.len(),
        forall|k: int|
            0 <= k < t.len() ==> {
                &&& polygons(t)[3 * k] == (#[trigger] t[k]).0
                &&& polygons(t)[3 * k + 1] == t[k].1
                &&& polygons(t)[3 * k] >= 0
                &&& polygons(t)[3 * k + 1] >= 0
                &&& polygons(t)[3 * k + 2] < 0
                &&& -1 - polygons(t)[3 * k + 2] == t[k].2
            },
{
    lemma_corners(t);
}

// --------------------------------------------------------------- arrays ---

/// Whether a record is named `name` and its one property is a list of 32-bit
/// numbers: the type code `i`, how many, and their bytes, deflated or not.
pub open spec fn lists(n: NodeView, name: Seq<char>, e: Seq<i32>) -> bool {
    exists|raw: Seq<u8>|
        {
            &&& raw.len() == 4 * e.len()
            &&& forall|i: int| 0 <= i < e.len() ==> int_at(raw, 4 * i) == #[trigger] e[i]
            &&& n.name == name
            &&& n.props == seq![#[trigger] array_of('i' as u8, e.len(), raw, zlib_fast(raw))]
        }
}

/// Whether a record is named `name` and its one property is a list of doubles:
/// the type code `d`, how many, and their bytes, deflated or not.
pub open spec fn measures(n: NodeView, name: Seq<char>, v: Seq<u64>) -> bool {
    exists|raw: Seq<u8>|
        {
            &&& raw.len() == 8 * v.len()
            &&& forall|i: int|
                0 <= i < v.len() ==> long_at(raw, 8 * i) == #[trigger] v[i]
            &&& n.name == name
            &&& n.props == seq![#[trigger] array_of('d' as u8, v.len(), raw, zlib_fast(raw))]
        }
}

/// Numbers written as bytes are read back, each in its place.
pub proof fn numbers_are_read_back(e: Seq<i32>)
    ensures
        int_bytes(e).len() == 4 * e.len(),
        forall|i: int| 0 <= i < e.len() ==> int_at(int_bytes(e), 4 * i) == #[trigger] e[i],
    decreases e.len(),
{
    if e.len() > 0 {
        let f = e.drop_last();
        numbers_are_read_back(f);
        lemma_le4_len(e.last() as int);
        let b = int_bytes(e);
        assert forall|i: int| 0 <= i < e.len() implies int_at(b, 4 * i) == #[trigger] e[i] by {
            if i < f.len() {
                assert(f[i] == e[i]);
                let a = int_bytes(f);
                assert(b[4 * i] == a[4 * i] && b[4 * i + 1] == a[4 * i + 1] && b[4 * i + 2] == a[4
                    * i + 2] && b[4 * i + 3] == a[4 * i + 3]);
            } else {
                assert(b.subrange(4 * i, 4 * i + 4) =~= le4(e.last() as int));
                lemma_le4_at(b, 4 * i, e.last() as int);
            }
        }
    }
}

/// Doubles written as bytes are read back, each in its place.
pub proof fn doubles_are_read_back(v: Seq<u64>)
    ensures
        double_bytes(v).len() == 8 * v.len(),
        forall|i: int|
            0 <= i < v.len() ==> long_at(double_bytes(v), 8 * i) == #[trigger] v[i],
    decreases v.len(),
{
    if v.len() > 0 {
        let f = v.drop_last();
        doubles_are_read_back(f);
        let x = v.last() as int;
        lemma_le4_len(x);
        lemma_le4_len(x / 4294967296);
        let b = double_bytes(v);
        assert forall|i: int| 0 <= i < v.len() implies long_at(b, 8 * i)
            == #[trigger] v[i] by {
            let o = 8 * i;
            if i < f.len() {
                assert(f[i] == v[i]);
                let a = double_bytes(f);
                assert forall|j: int| 0 <= j < 8 implies b[o + j] == #[trigger] a[o + j] by {}
                assert(b[o] == a[o] && b[o + 1] == a[o + 1] && b[o + 2] == a[o + 2] && b[o + 3]
                    == a[o + 3] && b[o + 4] == a[o + 4] && b[o + 5] == a[o + 5] && b[o + 6] == a[o
                    + 6] && b[o + 7] == a[o + 7]);
            } else {
                assert(b.subrange(o, o + 8) =~= le8(x));
                lemma_le8_at(b, o, x);
            }
        }
    }
}

proof fn lemma_lists(n: NodeView, name: Seq<char>, e: Seq<i32>)
    requires
        n == NodeView::empty(name).ints(e),
    ensures
        lists(n, name, e),
{
    let raw = int_bytes(e);
    numbers_are_read_back(e);
    assert(n.props =~= seq![array_of('i' as u8, e.len(), raw, zlib_fast(raw))]);
}

proof fn lemma_measures(n: NodeView, name: Seq<char>, v: Seq<u64>)
    requires
        n == NodeView::empty(name).doubles(v),
    ensures
        measures(n, name, v),
{
    let raw = double_bytes(v);
    doubles_are_read_back(v);
    assert(n.props =~= seq![array_of('d' as u8, v.len(), raw, zlib_fast(raw))]);
}

// ------------------------------------------------------------- geometry ---

/// What an importer finds in a geometry record: the vertices as they were, and an
/// index list whose polygons are the triangles, in order.
pub proof fn geometry_holds_the_mesh(m: MeshView, id: i64)
    requires
        indexable(m.tris),
    ensures
        ({
            let g = geometry_of(m, id);
            &&& g.children.len() >= 3
            &&& measures(g.children[1], "Vertices"@, m.positions)
            &&& exists|e: Seq<i32>|
                {
                    &&& #[trigger] lists(g.children[2], "PolygonVertexIndex"@, e)
                    &&& unfinished(e).len() == 0
                    &&& polygons_in(e).len() == m.tris.len()
                    &&& forall|k: int|
                        0 <= k < m.tris.len() ==> #[trigger] polygons_in(e)[k] == seq![
                            m.tris[k].0 as int,
                            m.tris[k].1 as int,
                            m.tris[k].2 as int,
                        ]
                }
        }),
{
    let g = geometry_of(m, id);
    let e = polygons(m.tris);
    triangles_are_read_back(m.tris);
    assert(g.children[1] == NodeView::empty("Vertices"@).doubles(m.positions));
    assert(g.children[2] == NodeView::empty("PolygonVertexIndex"@).ints(e));
    lemma_measures(g.children[1], "Vertices"@, m.positions);
    lemma_lists(g.children[2], "PolygonVertexIndex"@, e);
}

/// Whether a record is a layer that gives each polygon corner the value of its
/// own vertex: values, and an index list that runs along `e`.
pub open spec fn follows(
    n: NodeView,
    kind: Seq<char>,
    number: i32,
    title: Seq<char>,
    values: Seq<char>,
    data: Seq<u64>,
    indices: Seq<char>,
    e: Seq<i32>,
) -> bool {
    &&& n.name == kind
    &&& n.props == seq![PropView::I32(number)]
    &&& n.children.len() == 6
    &&& n.children[1].name == "Name"@
    &&& n.children[1].props == seq![PropView::Str(title)]
    &&& n.children[2].name == "MappingInformationType"@
    &&& n.children[2].props == seq![PropView::Str("ByPolygonVertex"@)]
    &&& n.children[3].name == "ReferenceInformationType"@
    &&& n.children[3].props == seq![PropView::Str("IndexToDirect"@)]
    &&& measures(n.children[4], values, data)
    &&& exists|c: Seq<i32>|
        {
            &&& #[trigger] lists(n.children[5], indices, c)
            &&& c.len() == e.len()
            &&& forall|i: int| 0 <= i < e.len() ==> #[trigger] c[i] == vertex_of(e[i])
        }
}

proof fn lemma_layer(
    kind: Seq<char>,
    number: i32,
    title: Seq<char>,
    values: Seq<char>,
    data: Seq<u64>,
    indices: Seq<char>,
    t: Seq<(u32, u32, u32)>,
)
    requires
        indexable(t),
    ensures
        follows(
            layer_element(kind, number, title, values, data, indices, t),
            kind,
            number,
            title,
            values,
            data,
            indices,
            polygons(t),
        ),
{
    let n = layer_element(kind, number, title, values, data, indices, t);
    let c = corners(t);
    let e = polygons(t);
    lemma_corners(t);
    assert(n.children[4] == NodeView::empty(values).doubles(data));
    assert(n.children[5] == NodeView::empty(indices).ints(c));
    lemma_measures(n.children[4], values, data);
    lemma_lists(n.children[5], indices, c);
    assert(n.props =~= seq![PropView::I32(number)]);
    assert(n.children[1].props =~= seq![PropView::Str(title)]);
    assert(n.children[2].props =~= seq![PropView::Str("ByPolygonVertex"@)]);
    assert(n.children[3].props =~= seq![PropView::Str("IndexToDirect"@)]);
    assert forall|i: int| 0 <= i < e.len() implies #[trigger] c[i] == vertex_of(e[i]) by {
        let k = i / 3;
        assert(i == 3 * k || i == 3 * k + 1 || i == 3 * k + 2);
        assert(c[3 * k] == t[k].0);
    }
}

/// Each corner of a triangle has the UVs, the paint UVs and the colour of its own
/// vertex, where the mesh has any: the layers' index lists run along the polygons'.
pub proof fn corners_have_the_values_of_their_vertices(m: MeshView, id: i64)
    requires
        indexable(m.tris),
    ensures
        ({
            let c = geometry_of(m, id).children;
            exists|e: Seq<i32>|
                {
                    &&& #[trigger] lists(c[2], "PolygonVertexIndex"@, e)
                    &&& m.uvs.len() > 0 ==> exists|i: int|
                        0 <= i < c.len() && follows(
                            #[trigger] c[i],
                            "LayerElementUV"@,
                            0,
                            "UVMap"@,
                            "UV"@,
                            m.uvs,
                            "UVIndex"@,
                            e,
                        )
                    &&& m.uvs2.len() > 0 ==> exists|i: int|
                        0 <= i < c.len() && follows(
                            #[trigger] c[i],
                            "LayerElementUV"@,
                            1,
                            "PaintUV"@,
                            "UV"@,
                            m.uvs2,
                            "UVIndex"@,
                            e,
                        )
                    &&& m.colors.len() > 0 ==> exists|i: int|
                        0 <= i < c.len() && follows(
                            #[trigger] c[i],
                            "LayerElementColor"@,
                            0,
                            "Col"@,
                            "Colors"@,
                            m.colors,
                            "ColorIndex"@,
                            e,
                        )
                }
        }),
{
    let c = geometry_of(m, id).children;
    let e = polygons(m.tris);
    assert(c[2] == NodeView::empty("PolygonVertexIndex"@).ints(e));
    lemma_lists(c[2], "PolygonVertexIndex"@, e);
    let uv = layer_element("LayerElementUV"@, 0, "UVMap"@, "UV"@, m.uvs, "UVIndex"@, m.tris);
    let paint = layer_element("LayerElementUV"@, 1, PAINT_UV@, "UV"@, m.uvs2, "UVIndex"@, m.tris);
    let colour = layer_element(
        "LayerElementColor"@,
        0,
        "Col"@,
        "Colors"@,
        m.colors,
        "ColorIndex"@,
        m.tris,
    );
    let a: int = if m.uvs.len() > 0 {
        1
    } else {
        0
    };
    let b: int = if m.uvs2.len() > 0 {
        1
    } else {
        0
    };
    if m.uvs.len() > 0 {
        assert(c[3] == uv);
        lemma_layer("LayerElementUV"@, 0, "UVMap"@, "UV"@, m.uvs, "UVIndex"@, m.tris);
    }
    if m.uvs2.len() > 0 {
        assert(c[3 + a] == paint);
        lemma_layer("LayerElementUV"@, 1, PAINT_UV@, "UV"@, m.uvs2, "UVIndex"@, m.tris);
    }
    if m.colors.len() > 0 {
        assert(c[3 + a + b] == colour);
        lemma_layer(
            "LayerElementColor"@,
            0,
            "Col"@,
            "Colors"@,
            m.colors,
            "ColorIndex"@,
            m.tris,
        );
    }
}

} // verus!
