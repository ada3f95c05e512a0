//! Turning assembled geometry into an FBX file.
//!
//! Coordinates go out untouched: models are authored Y-up, which is also FBX's
//! convention. Lengths are in centimetres, which is what `UnitScaleFactor: 1`
//! means to an importer. All numbers here are the bits of doubles.

use crate::fbx::{
    self, all_seen, entry70, file_bytes, p70_c3, p70_d, p70_i, p70_s, Ids, Node, NodeView, PropView,
};
use crate::text::{cat, opt_text};
use vstd::prelude::*;

verus! {

/// name of the second UV layer, the one paint jobs are laid out on
pub const PAINT_UV: &'static str = "PaintUV";

/// The bits of 0.1, 1 and 20.
pub const TENTH: u64 = 0x3fb9_9999_9999_999a;
pub const UNIT: u64 = 0x3ff0_0000_0000_0000;
pub const TWENTY: u64 = 0x4034_0000_0000_0000;

pub struct Mesh {
    pub name: String,
    /// three coordinates a vertex, in centimetres
    pub positions: Vec<u64>,
    /// two coordinates a vertex, with the origin at the bottom left
    pub uvs: Vec<u64>,
    /// the paint-job UV channel, when the model carries one
    pub uvs2: Vec<u64>,
    /// red, green, blue and alpha of each vertex
    pub colors: Vec<u64>,
    pub tris: Vec<(u32, u32, u32)>,
    pub material: usize,
}

pub struct Material {
    pub name: String,
    pub diffuse: (u64, u64, u64),
    /// path relative to the .fbx, e.g. `textures/body.dds`
    pub texture: Option<String>,
    pub normal_map: Option<String>,
    /// whether this shader means the texture's alpha channel as opacity
    pub wants_alpha: bool,
    /// which UV layer the texture is sampled on
    pub uv_set: String,
}

#[verifier::ext_equal]
pub struct MeshView {
    pub name: Seq<char>,
    pub positions: Seq<u64>,
    pub uvs: Seq<u64>,
    pub uvs2: Seq<u64>,
    pub colors: Seq<u64>,
    pub tris: Seq<(u32, u32, u32)>,
    pub material: usize,
}

#[verifier::ext_equal]
pub struct MaterialView {
    pub name: Seq<char>,
    pub diffuse: (u64, u64, u64),
    pub texture: Option<Seq<char>>,
    pub normal_map: Option<Seq<char>>,
    pub wants_alpha: bool,
    pub uv_set: Seq<char>,
}

impl View for Mesh {
    type V = MeshView;

    open spec fn view(&self) -> MeshView {
        MeshView {
            name: self.name@,
            positions: self.positions@,
            uvs: self.uvs@,
            uvs2: self.uvs2@,
            colors: self.colors@,
            tris: self.tris@,
            material: self.material,
        }
    }
}

impl View for Material {
    type V = MaterialView;

    open spec fn view(&self) -> MaterialView {
        MaterialView {
            name: self.name@,
            diffuse: self.diffuse,
            texture: opt_text(self.texture),
            normal_map: opt_text(self.normal_map),
            wants_alpha: self.wants_alpha,
            uv_set: self.uv_set@,
        }
    }
}

pub open spec fn mesh_views(v: Seq<Mesh>) -> Seq<MeshView> {
    Seq::new(v.len(), |i: int| v[i]@)
}

pub open spec fn material_views(v: Seq<Material>) -> Seq<MaterialView> {
    Seq::new(v.len(), |i: int| v[i]@)
}

// ------------------------------------------------------------- geometry ---

/// The corners of the triangles in turn.
pub open spec fn corners(t: Seq<(u32, u32, u32)>) -> Seq<i32>
    decreases t.len(),
{
    if t.len() == 0 {
        Seq::empty()
    } else {
        corners(t.drop_last()) + seq![
            t.last().0 as i32,
            t.last().1 as i32,
            t.last().2 as i32,
        ]
    }
}

/// The corners of the triangles in turn. A polygon's last corner is stored with
/// its index bit-flipped; that is how the format marks where one polygon ends
/// and the next begins.
pub open spec fn polygons(t: Seq<(u32, u32, u32)>) -> Seq<i32>
    decreases t.len(),
{
    if t.len() == 0 {
        Seq::empty()
    } else {
        polygons(t.drop_last()) + seq![
            t.last().0 as i32,
            t.last().1 as i32,
            (-1 - (t.last().2 as i32)) as i32,
        ]
    }
}

fn corner_list(t: &Vec<(u32, u32, u32)>, flip: bool) -> (r: Vec<i32>)
    ensures
        r@ == (if flip {
            polygons(t@)
        } else {
            corners(t@)
        }),
{
    let mut r: Vec<i32> = Vec::new();
    let mut i: usize = 0;
    assert(t@.take(0) =~= Seq::<(u32, u32, u32)>::empty());
    while i < t.len()
        invariant
            i <= t@.len(),
            r@ =~= (if flip {
                polygons(t@.take(i as int))
            } else {
                corners(t@.take(i as int))
            }),
        decreases t@.len() - i,
    {
        assert(t@.take(i + 1).drop_last() =~= t@.take(i as int));
        let (a, b, c): (u32, u32, u32) = t[i];
        r.push(a as i32);
        r.push(b as i32);
        let last: i32 = c as i32;
        r.push(
            if flip {
                -1 - last
            } else {
                last
            },
        );
        i = i + 1;
    }
    assert(t@.take(i as int) =~= t@);
    r
}

/// A layer of values by polygon corner.
pub open spec fn layer_element(
    kind: Seq<char>,
    index: i32,
    name: Seq<char>,
    values: Seq<char>,
    data: Seq<u64>,
    indices: Seq<char>,
    t: Seq<(u32, u32, u32)>,
) -> NodeView {
    NodeView::empty(kind).number(index).with(NodeView::empty("Version"@).number(101)).with(
        NodeView::empty("Name"@).text(name),
    ).with(NodeView::empty("MappingInformationType"@).text("ByPolygonVertex"@)).with(
        NodeView::empty("ReferenceInformationType"@).text("IndexToDirect"@),
    ).with(NodeView::empty(values).doubles(data)).with(NodeView::empty(indices).ints(corners(t)))
}

fn layer_node(
    kind: &'static str,
    index: i32,
    name: &str,
    values: &'static str,
    data: &Vec<u64>,
    indices: &'static str,
    t: &Vec<(u32, u32, u32)>,
) -> (r: Node)
    ensures
        r@ == layer_element(kind@, index, name@, values@, data@, indices@, t@),
{
    Node::new(kind).i32(index).child(Node::new("Version").i32(101)).child(
        Node::new("Name").str(name),
    ).child(Node::new("MappingInformationType").str("ByPolygonVertex")).child(
        Node::new("ReferenceInformationType").str("IndexToDirect"),
    ).child(Node::new(values).arr_double(data)).child(
        Node::new(indices).arr_i32(&corner_list(t, false)),
    )
}

/// What a layer refers to.
pub open spec fn layer_use(kind: Seq<char>, index: i32) -> NodeView {
    NodeView::empty("LayerElement"@).with(NodeView::empty("Type"@).text(kind)).with(
        NodeView::empty("TypedIndex"@).number(index),
    )
}

fn use_node(kind: &str, index: i32) -> (r: Node)
    ensures
        r@ == layer_use(kind@, index),
{
    Node::new("LayerElement").child(Node::new("Type").str(kind)).child(
        Node::new("TypedIndex").i32(index),
    )
}

pub open spec fn maybe(n: NodeView, there: bool, c: NodeView) -> NodeView {
    if there {
        n.with(c)
    } else {
        n
    }
}

/// The one material of a mesh.
pub open spec fn material_layer() -> NodeView {
    NodeView::empty("LayerElementMaterial"@).number(0).with(
        NodeView::empty("Version"@).number(101),
    ).with(NodeView::empty("Name"@).text(""@)).with(
        NodeView::empty("MappingInformationType"@).text("AllSame"@),
    ).with(NodeView::empty("ReferenceInformationType"@).text("IndexToDirect"@)).with(
        NodeView::empty("Materials"@).ints(seq![0i32]),
    )
}

fn material_layer_node() -> (r: Node)
    ensures
        r@ == material_layer(),
{
    let mut zero: Vec<i32> = Vec::new();
    zero.push(0);
    assert(zero@ =~= seq![0i32]);
    Node::new("LayerElementMaterial").i32(0).child(Node::new("Version").i32(101)).child(
        Node::new("Name").str(""),
    ).child(Node::new("MappingInformationType").str("AllSame")).child(
        Node::new("ReferenceInformationType").str("IndexToDirect"),
    ).child(Node::new("Materials").arr_i32(&zero))
}

/// The geometry record of a mesh. No normal layer is written, on purpose: every
/// importer turns normals into custom split normals, which override whatever
/// the receiving application would compute. A paint job is laid out on its own
/// UV channel, not the panel's.
pub open spec fn geometry_of(m: MeshView, id: i64) -> NodeView {
    let bare = NodeView::empty("Geometry"@).id(id).object("Geometry"@, m.name).text("Mesh"@).with(
        NodeView::empty("GeometryVersion"@).number(124),
    ).with(NodeView::empty("Vertices"@).doubles(m.positions)).with(
        NodeView::empty("PolygonVertexIndex"@).ints(polygons(m.tris)),
    );
    let uv = maybe(
        bare,
        m.uvs.len() > 0,
        layer_element("LayerElementUV"@, 0, "UVMap"@, "UV"@, m.uvs, "UVIndex"@, m.tris),
    );
    let paint = maybe(
        uv,
        m.uvs2.len() > 0,
        layer_element("LayerElementUV"@, 1, PAINT_UV@, "UV"@, m.uvs2, "UVIndex"@, m.tris),
    );
    let colour = maybe(
        paint,
        m.colors.len() > 0,
        layer_element("LayerElementColor"@, 0, "Col"@, "Colors"@, m.colors, "ColorIndex"@, m.tris),
    ).with(material_layer());
    let second = maybe(
        colour,
        m.uvs2.len() > 0,
        NodeView::empty("Layer"@).number(1).with(NodeView::empty("Version"@).number(100)).with(
            layer_use("LayerElementUV"@, 1),
        ),
    );
    let layer = NodeView::empty("Layer"@).number(0).with(NodeView::empty("Version"@).number(100));
    second.with(
        maybe(
            maybe(layer, m.uvs.len() > 0, layer_use("LayerElementUV"@, 0)),
            m.colors.len() > 0,
            layer_use("LayerElementColor"@, 0),
        ).with(layer_use("LayerElementMaterial"@, 0)),
    )
}

fn add_if(n: Node, there: bool, c: Node) -> (r: Node)
    ensures
        r@ == maybe(n@, there, c@),
{
    if there {
        n.child(c)
    } else {
        n
    }
}

impl Mesh {
    pub fn geometry(&self, id: i64) -> (r: Node)
        ensures
            r@ == geometry_of(self@, id),
    {
        let bare = Node::new("Geometry").i64(id).objname("Geometry", self.name.as_str()).str(
            "Mesh",
        ).child(Node::new("GeometryVersion").i32(124)).child(
            Node::new("Vertices").arr_double(&self.positions),
        ).child(Node::new("PolygonVertexIndex").arr_i32(&corner_list(&self.tris, true)));
        let uv = add_if(
            bare,
            self.uvs.len() > 0,
            layer_node("LayerElementUV", 0, "UVMap", "UV", &self.uvs, "UVIndex", &self.tris),
        );
        let paint = add_if(
            uv,
            self.uvs2.len() > 0,
            layer_node("LayerElementUV", 1, PAINT_UV, "UV", &self.uvs2, "UVIndex", &self.tris),
        );
        let colour = add_if(
            paint,
            self.colors.len() > 0,
            layer_node(
                "LayerElementColor",
                0,
                "Col",
                "Colors",
                &self.colors,
                "ColorIndex",
                &self.tris,
            ),
        ).child(material_layer_node());
        let second = add_if(
            colour,
            self.uvs2.len() > 0,
            Node::new("Layer").i32(1).child(Node::new("Version").i32(100)).child(
                use_node("LayerElementUV", 1),
            ),
        );
        let layer = Node::new("Layer").i32(0).child(Node::new("Version").i32(100));
        let layer = add_if(layer, self.uvs.len() > 0, use_node("LayerElementUV", 0));
        let layer = add_if(layer, self.colors.len() > 0, use_node("LayerElementColor", 0));
        second.child(layer.child(use_node("LayerElementMaterial", 0)))
    }
}

// -------------------------------------------------------------- objects ---

pub open spec fn model_of(id: i64, name: Seq<char>) -> NodeView {
    NodeView::empty("Model"@).id(id).object("Model"@, name).text("Mesh"@).with(
        NodeView::empty("Version"@).number(232),
    ).with(
        NodeView::empty("Properties70"@).with(
            entry70("InheritType"@, "enum"@, ""@).number(1),
        ).with(
            entry70("ScalingMax"@, "Vector3D"@, "Vector"@).double(0).double(0).double(0),
        ).with(entry70("DefaultAttributeIndex"@, "int"@, "Integer"@).number(0)),
    ).with(NodeView::empty("Shading"@).flag(true)).with(
        NodeView::empty("Culling"@).text("CullingOff"@),
    )
}

pub fn model_node(id: i64, name: &str) -> (r: Node)
    ensures
        r@ == model_of(id, name@),
{
    Node::new("Model").i64(id).objname("Model", name).str("Mesh").child(
        Node::new("Version").i32(232),
    ).child(
        Node::new("Properties70").child(p70_i("InheritType", "enum", "", 1)).child(
            p70_c3("ScalingMax", "Vector3D", "Vector", (0, 0, 0)),
        ).child(p70_i("DefaultAttributeIndex", "int", "Integer", 0)),
    ).child(Node::new("Shading").bool(true)).child(Node::new("Culling").str("CullingOff"))
}

pub open spec fn material_of(id: i64, m: MaterialView) -> NodeView {
    NodeView::empty("Material"@).id(id).object("Material"@, m.name).text(""@).with(
        NodeView::empty("Version"@).number(102),
    ).with(NodeView::empty("ShadingModel"@).text("phong"@)).with(
        NodeView::empty("MultiLayer"@).number(0),
    ).with(
        NodeView::empty("Properties70"@).with(
            entry70("DiffuseColor"@, "Color"@, ""@).double(m.diffuse.0).double(m.diffuse.1).double(
                m.diffuse.2,
            ),
        ).with(entry70("DiffuseFactor"@, "Number"@, ""@).double(UNIT)).with(
            entry70("SpecularColor"@, "Color"@, ""@).double(TENTH).double(TENTH).double(TENTH),
        ).with(entry70("Shininess"@, "Number"@, ""@).double(TWENTY)).with(
            entry70("Opacity"@, "Number"@, ""@).double(UNIT),
        ),
    )
}

pub fn material_node(id: i64, m: &Material) -> (r: Node)
    ensures
        r@ == material_of(id, m@),
{
    Node::new("Material").i64(id).objname("Material", m.name.as_str()).str("").child(
        Node::new("Version").i32(102),
    ).child(Node::new("ShadingModel").str("phong")).child(Node::new("MultiLayer").i32(0)).child(
        Node::new("Properties70").child(p70_c3("DiffuseColor", "Color", "", m.diffuse)).child(
            p70_d("DiffuseFactor", "Number", "", UNIT),
        ).child(p70_c3("SpecularColor", "Color", "", (TENTH, TENTH, TENTH))).child(
            p70_d("Shininess", "Number", "", TWENTY),
        ).child(p70_d("Opacity", "Number", "", UNIT)),
    )
}

pub open spec fn video_of(id: i64, name: Seq<char>, rel: Seq<char>) -> NodeView {
    NodeView::empty("Video"@).id(id).object("Video"@, name).text("Clip"@).with(
        NodeView::empty("Type"@).text("Clip"@),
    ).with(
        NodeView::empty("Properties70"@).with(
            entry70("Path"@, "KString"@, "XRefUrl"@).text(rel),
        ),
    ).with(NodeView::empty("UseMipMap"@).number(0)).with(
        NodeView::empty("Filename"@).text(rel),
    ).with(NodeView::empty("RelativeFilename"@).text(rel))
}

pub open spec fn texture_of(id: i64, name: Seq<char>, rel: Seq<char>, uv_set: Seq<char>) -> NodeView {
    NodeView::empty("Texture"@).id(id).object("Texture"@, name).text(""@).with(
        NodeView::empty("Type"@).text("TextureVideoClip"@),
    ).with(NodeView::empty("Version"@).number(202)).with(
        NodeView::empty("TextureName"@).object("Texture"@, name),
    ).with(
        NodeView::empty("Properties70"@).with(
            entry70("UVSet"@, "KString"@, ""@).text(uv_set),
        ).with(entry70("UseMaterial"@, "bool"@, ""@).number(1)),
    ).with(NodeView::empty("Media"@).object("Video"@, name)).with(
        NodeView::empty("FileName"@).text(rel),
    ).with(NodeView::empty("RelativeFilename"@).text(rel)).with(
        NodeView::empty("ModelUVTranslation"@).double(0).double(0),
    ).with(NodeView::empty("ModelUVScaling"@).double(UNIT).double(UNIT)).with(
        NodeView::empty("Texture_Alpha_Source"@).text("None"@),
    ).with(NodeView::empty("Cropping"@).number(0).number(0).number(0).number(0))
}

pub fn texture_nodes(tex_id: i64, vid_id: i64, name: &str, rel: &str, uv_set: &str) -> (r: (
    Node,
    Node,
))
    ensures
        r.0@ == texture_of(tex_id, name@, rel@, uv_set@),
        r.1@ == video_of(vid_id, name@, rel@),
{
    let video = Node::new("Video").i64(vid_id).objname("Video", name).str("Clip").child(
        Node::new("Type").str("Clip"),
    ).child(Node::new("Properties70").child(p70_s("Path", "KString", "XRefUrl", rel))).child(
        Node::new("UseMipMap").i32(0),
    ).child(Node::new("Filename").str(rel)).child(Node::new("RelativeFilename").str(rel));
    let tex = Node::new("Texture").i64(tex_id).objname("Texture", name).str("").child(
        Node::new("Type").str("TextureVideoClip"),
    ).child(Node::new("Version").i32(202)).child(
        Node::new("TextureName").objname("Texture", name),
    ).child(
        Node::new("Properties70").child(p70_s("UVSet", "KString", "", uv_set)).child(
            p70_i("UseMaterial", "bool", "", 1),
        ),
    ).child(Node::new("Media").objname("Video", name)).child(Node::new("FileName").str(rel)).child(
        Node::new("RelativeFilename").str(rel),
    ).child(Node::new("ModelUVTranslation").double(0).double(0)).child(
        Node::new("ModelUVScaling").double(UNIT).double(UNIT),
    ).child(Node::new("Texture_Alpha_Source").str("None")).child(
        Node::new("Cropping").i32(0).i32(0).i32(0).i32(0),
    );
    (tex, video)
}

// ------------------------------------------------------------ the scene ---

/// A connection from one object to another.
pub open spec fn joins(a: i64, b: i64) -> NodeView {
    NodeView::empty("C"@).text("OO"@).id(a).id(b)
}

/// A connection from an object to a property of another.
pub open spec fn feeds(a: i64, b: i64, what: Seq<char>) -> NodeView {
    NodeView::empty("C"@).text("OP"@).id(a).id(b).text(what)
}

fn join_node(a: i64, b: i64) -> (r: Node)
    ensures
        r@ == joins(a, b),
{
    Node::new("C").str("OO").i64(a).i64(b)
}

fn feed_node(a: i64, b: i64, what: &str) -> (r: Node)
    ensures
        r@ == feeds(a, b, what@),
{
    Node::new("C").str("OP").i64(a).i64(b).str(what)
}

/// The objects and connections of a scene so far, and the last id handed out.
#[verifier::ext_equal]
pub struct Scene {
    pub objects: Seq<NodeView>,
    pub conns: Seq<NodeView>,
    pub last: int,
}

/// The id of the document.
pub open spec fn document_id() -> i64 {
    1_000_001
}

/// The id of material `i`: they come right after the document's.
pub open spec fn material_id(i: int) -> i64 {
    (1_000_002 + i) as i64
}

/// A texture with its image, tied to a property of a material.
pub open spec fn with_texture(
    s: Scene,
    material: i64,
    name: Seq<char>,
    rel: Seq<char>,
    uv_set: Seq<char>,
    what: Seq<char>,
) -> Scene {
    let t = (s.last + 1) as i64;
    let v = (s.last + 2) as i64;
    Scene {
        objects: s.objects.push(texture_of(t, name, rel, uv_set)).push(video_of(v, name, rel)),
        conns: s.conns.push(feeds(t, material, what)).push(joins(v, t)),
        last: s.last + 2,
    }
}

pub open spec fn with_material(s: Scene, i: int, m: MaterialView) -> Scene {
    let id = material_id(i);
    let bare = Scene { objects: s.objects.push(material_of(id, m)), ..s };
    let base = match m.texture {
        Some(rel) => with_texture(bare, id, m.name, rel, m.uv_set, "DiffuseColor"@),
        None => bare,
    };
    match m.normal_map {
        Some(rel) => with_texture(base, id, m.name + "_n"@, rel, "UVMap"@, "NormalMap"@),
        None => base,
    }
}

/// The scene with the first materials of a list whose length is `total`.
pub open spec fn with_materials(ms: Seq<MaterialView>, total: nat) -> Scene
    decreases ms.len(),
{
    if ms.len() == 0 {
        Scene { objects: Seq::empty(), conns: Seq::empty(), last: 1_000_001 + total as int }
    } else {
        with_material(with_materials(ms.drop_last(), total), ms.len() - 1, ms.last())
    }
}

/// A mesh: its geometry, its model under the root, and its material if there is
/// one.
pub open spec fn with_mesh(s: Scene, m: MeshView, total: nat) -> Scene {
    let g = (s.last + 1) as i64;
    let i = (s.last + 2) as i64;
    let tied = s.conns.push(joins(g, i)).push(joins(i, 0));
    Scene {
        objects: s.objects.push(geometry_of(m, g)).push(model_of(i, m.name)),
        conns: if m.material < total {
            tied.push(joins(material_id(m.material as int), i))
        } else {
            tied
        },
        last: s.last + 2,
    }
}

pub open spec fn with_meshes(s: Scene, v: Seq<MeshView>, total: nat) -> Scene
    decreases v.len(),
{
    if v.len() == 0 {
        s
    } else {
        with_mesh(with_meshes(s, v.drop_last(), total), v.last(), total)
    }
}

pub open spec fn scene_of(meshes: Seq<MeshView>, materials: Seq<MaterialView>) -> Scene {
    with_meshes(with_materials(materials, materials.len()), meshes, materials.len())
}

/// How many materials have a texture.
pub open spec fn textured(ms: Seq<MaterialView>) -> nat
    decreases ms.len(),
{
    if ms.len() == 0 {
        0
    } else {
        textured(ms.drop_last()) + (if ms.last().texture is Some {
            1nat
        } else {
            0
        })
    }
}

pub open spec fn header() -> NodeView {
    NodeView::empty("FBXHeaderExtension"@).with(
        NodeView::empty("FBXHeaderVersion"@).number(1003),
    ).with(NodeView::empty("FBXVersion"@).number(7400)).with(
        NodeView::empty("Creator"@).text("scs2fbx"@),
    )
}

fn header_node() -> (r: Node)
    ensures
        r@ == header(),
{
    Node::new("FBXHeaderExtension").child(Node::new("FBXHeaderVersion").i32(1003)).child(
        Node::new("FBXVersion").i32(7400),
    ).child(Node::new("Creator").str("scs2fbx"))
}

/// Y up, in centimetres.
pub open spec fn settings() -> NodeView {
    NodeView::empty("GlobalSettings"@).with(NodeView::empty("Version"@).number(1000)).with(
        NodeView::empty("Properties70"@).with(
            entry70("UpAxis"@, "int"@, "Integer"@).number(1),
        ).with(entry70("UpAxisSign"@, "int"@, "Integer"@).number(1)).with(
            entry70("FrontAxis"@, "int"@, "Integer"@).number(2),
        ).with(entry70("FrontAxisSign"@, "int"@, "Integer"@).number(1)).with(
            entry70("CoordAxis"@, "int"@, "Integer"@).number(0),
        ).with(entry70("CoordAxisSign"@, "int"@, "Integer"@).number(1)).with(
            entry70("UnitScaleFactor"@, "double"@, "Number"@).double(UNIT),
        ),
    )
}

fn settings_node() -> (r: Node)
    ensures
        r@ == settings(),
{
    Node::new("GlobalSettings").child(Node::new("Version").i32(1000)).child(
        Node::new("Properties70").child(p70_i("UpAxis", "int", "Integer", 1)).child(
            p70_i("UpAxisSign", "int", "Integer", 1),
        ).child(p70_i("FrontAxis", "int", "Integer", 2)).child(
            p70_i("FrontAxisSign", "int", "Integer", 1),
        ).child(p70_i("CoordAxis", "int", "Integer", 0)).child(
            p70_i("CoordAxisSign", "int", "Integer", 1),
        ).child(p70_d("UnitScaleFactor", "double", "Number", UNIT)),
    )
}

pub open spec fn documents(id: i64) -> NodeView {
    NodeView::empty("Documents"@).with(NodeView::empty("Count"@).number(1)).with(
        NodeView::empty("Document"@).id(id).text(""@).text("Scene"@).with(
            NodeView::empty("Properties70"@),
        ).with(NodeView::empty("RootNode"@).id(0)),
    )
}

fn documents_node(id: i64) -> (r: Node)
    ensures
        r@ == documents(id),
{
    Node::new("Documents").child(Node::new("Count").i32(1)).child(
        Node::new("Document").i64(id).str("").str("Scene").child(Node::new("Properties70")).child(
            Node::new("RootNode").i64(0),
        ),
    )
}

pub open spec fn object_type(name: Seq<char>, count: i32) -> NodeView {
    NodeView::empty("ObjectType"@).text(name).with(NodeView::empty("Count"@).number(count))
}

fn type_node(name: &str, count: i32) -> (r: Node)
    ensures
        r@ == object_type(name@, count),
{
    Node::new("ObjectType").str(name).child(Node::new("Count").i32(count))
}

pub open spec fn definitions(meshes: nat, materials: nat, textures: nat) -> NodeView {
    NodeView::empty("Definitions"@).with(NodeView::empty("Version"@).number(100)).with(
        NodeView::empty("Count"@).number(
            (meshes * 2 + materials + textures * 2 + 1) as i32,
        ),
    ).with(object_type("GlobalSettings"@, 1)).with(object_type("Model"@, meshes as i32)).with(
        object_type("Geometry"@, meshes as i32),
    ).with(object_type("Material"@, materials as i32)).with(
        object_type("Texture"@, textures as i32),
    ).with(object_type("Video"@, textures as i32))
}

fn definitions_node(meshes: usize, materials: usize, textures: usize) -> (r: Node)
    ensures
        r@ == definitions(meshes as nat, materials as nat, textures as nat),
{
    let count: u128 = meshes as u128 * 2 + materials as u128 + textures as u128 * 2 + 1;
    Node::new("Definitions").child(Node::new("Version").i32(100)).child(
        Node::new("Count").i32(count as i32),
    ).child(type_node("GlobalSettings", 1)).child(type_node("Model", meshes as i32)).child(
        type_node("Geometry", meshes as i32),
    ).child(type_node("Material", materials as i32)).child(
        type_node("Texture", textures as i32),
    ).child(type_node("Video", textures as i32))
}

/// The records of a file with these meshes and materials.
pub open spec fn scene_nodes(meshes: Seq<MeshView>, materials: Seq<MaterialView>) -> Seq<NodeView> {
    let s = scene_of(meshes, materials);
    seq![
        header(),
        settings(),
        documents(document_id()),
        NodeView::empty("References"@),
        definitions(meshes.len(), materials.len(), textured(materials)),
        NodeView::empty("Objects"@).with_all(s.objects),
        NodeView::empty("Connections"@).with_all(s.conns),
    ]
}

struct Stage {
    objects: Vec<Node>,
    conns: Vec<Node>,
    ids: Ids,
}

impl View for Stage {
    type V = Scene;

    closed spec fn view(&self) -> Scene {
        Scene {
            objects: all_seen(self.objects@),
            conns: all_seen(self.conns@),
            last: self.ids.0 as int,
        }
    }
}

proof fn lemma_seen_push(v: Seq<Node>, n: Node)
    ensures
        all_seen(v.push(n)) == all_seen(v).push(n@),
{
    assert(v.push(n).drop_last() =~= v);
}

impl Stage {
    fn object(&mut self, n: Node)
        ensures
            final(self)@ == (Scene { objects: old(self)@.objects.push(n@), ..old(self)@ }),
    {
        let ghost was = self@;
        proof {
            lemma_seen_push(self.objects@, n);
        }
        self.objects.push(n);
        assert(self@ =~= (Scene { objects: was.objects.push(n@), ..was }));
    }

    fn conn(&mut self, n: Node)
        ensures
            final(self)@ == (Scene { conns: old(self)@.conns.push(n@), ..old(self)@ }),
    {
        let ghost was = self@;
        proof {
            lemma_seen_push(self.conns@, n);
        }
        self.conns.push(n);
        assert(self@ =~= (Scene { conns: was.conns.push(n@), ..was }));
    }

    fn next(&mut self) -> (r: i64)
        requires
            old(self)@.last < i64::MAX,
        ensures
            r == old(self)@.last + 1,
            final(self)@ == (Scene { last: old(self)@.last + 1, ..old(self)@ }),
    {
        let ghost was = self@;
        let r = self.ids.next();
        assert(self@ =~= (Scene { last: was.last + 1, ..was }));
        r
    }

    fn texture(&mut self, material: i64, name: &str, rel: &str, uv_set: &str, what: &str)
        requires
            old(self)@.last + 2 <= i64::MAX,
        ensures
            final(self)@ == with_texture(old(self)@, material, name@, rel@, uv_set@, what@),
    {
        let ghost was = self@;
        let t: i64 = self.next();
        let v: i64 = self.next();
        let (tn, vn) = texture_nodes(t, v, name, rel, uv_set);
        self.object(tn);
        self.object(vn);
        self.conn(feed_node(t, material, what));
        self.conn(join_node(v, t));
        assert(self@ =~= with_texture(was, material, name@, rel@, uv_set@, what@));
    }

    fn material(&mut self, i: usize, m: &Material)
        requires
            old(self)@.last + 4 <= i64::MAX,
            1_000_002 + i <= i64::MAX,
        ensures
            final(self)@ == with_material(old(self)@, i as int, m@),
    {
        let id: i64 = 1_000_002 + i as i64;
        self.object(material_node(id, m));
        match &m.texture {
            Some(rel) => {
                self.texture(
                    id,
                    m.name.as_str(),
                    rel.as_str(),
                    m.uv_set.as_str(),
                    "DiffuseColor",
                );
            },
            None => {},
        }
        match &m.normal_map {
            Some(rel) => {
                let name = cat(m.name.as_str(), "_n");
                self.texture(id, name.as_str(), rel.as_str(), "UVMap", "NormalMap");
            },
            None => {},
        }
    }

    fn mesh(&mut self, m: &Mesh, total: usize)
        requires
            old(self)@.last + 2 <= i64::MAX,
            1_000_002 + total <= i64::MAX,
        ensures
            final(self)@ == with_mesh(old(self)@, m@, total as nat),
    {
        let ghost was = self@;
        let g: i64 = self.next();
        let i: i64 = self.next();
        self.object(m.geometry(g));
        self.object(model_node(i, m.name.as_str()));
        self.conn(join_node(g, i));
        self.conn(join_node(i, 0));
        if m.material < total {
            self.conn(join_node(1_000_002 + m.material as i64, i));
        }
        assert(self@ =~= with_mesh(was, m@, total as nat));
    }
}

proof fn lemma_last_grows(ms: Seq<MaterialView>, total: nat)
    ensures
        with_materials(ms, total).last <= 1_000_001 + total + 4 * ms.len(),
    decreases ms.len(),
{
    if ms.len() > 0 {
        lemma_last_grows(ms.drop_last(), total);
    }
}

proof fn lemma_meshes_last(s: Scene, v: Seq<MeshView>, total: nat)
    ensures
        with_meshes(s, v, total).last == s.last + 2 * v.len(),
    decreases v.len(),
{
    if v.len() > 0 {
        lemma_meshes_last(s, v.drop_last(), total);
    }
}

/// The bytes of the FBX file of a scene.
pub fn write_file(meshes: &Vec<Mesh>, materials: &Vec<Material>) -> (r: Vec<u8>)
    requires
        1_000_002 + 5 * materials@.len() + 2 * meshes@.len() <= i64::MAX,
    ensures
        r@ == file_bytes(scene_nodes(mesh_views(meshes@), material_views(materials@))),
{
    let ghost ms = material_views(materials@);
    let ghost vs = mesh_views(meshes@);
    let total: usize = materials.len();
    let mut ids = Ids::default();
    let doc: i64 = ids.next();
    // the materials' own ids come before those of their textures
    ids = Ids(ids.0 + total as i64);
    let mut s = Stage { objects: Vec::new(), conns: Vec::new(), ids };
    let mut textures: usize = 0;
    let mut i: usize = 0;
    assert(ms.take(0) =~= Seq::<MaterialView>::empty());
    assert(s@ =~= with_materials(ms.take(0), total as nat));
    while i < materials.len()
        invariant
            i <= materials@.len(),
            ms == material_views(materials@),
            total == materials@.len(),
            1_000_002 + 5 * total <= i64::MAX,
            s@ == with_materials(ms.take(i as int), total as nat),
            textures == textured(ms.take(i as int)),
            textures <= i,
        decreases materials@.len() - i,
    {
        proof {
            assert(ms.take(i + 1).drop_last() =~= ms.take(i as int));
            lemma_last_grows(ms.take(i as int), total as nat);
        }
        if materials[i].texture.is_some() {
            textures = textures + 1;
        }
        s.material(i, &materials[i]);
        i = i + 1;
    }
    assert(ms.take(i as int) =~= ms);
    let ghost base = with_materials(ms, total as nat);
    let mut i: usize = 0;
    assert(vs.take(0) =~= Seq::<MeshView>::empty());
    while i < meshes.len()
        invariant
            i <= meshes@.len(),
            vs == mesh_views(meshes@),
            total == ms.len(),
            base == with_materials(ms, total as nat),
            1_000_002 + 5 * total + 2 * meshes@.len() <= i64::MAX,
            s@ == with_meshes(base, vs.take(i as int), total as nat),
        decreases meshes@.len() - i,
    {
        proof {
            assert(vs.take(i + 1).drop_last() =~= vs.take(i as int));
            lemma_last_grows(ms, total as nat);
            lemma_meshes_last(base, vs.take(i as int), total as nat);
        }
        s.mesh(&meshes[i], total);
        i = i + 1;
    }
    assert(vs.take(i as int) =~= vs);
    let mut roots: Vec<Node> = Vec::new();
    let Stage { objects, conns, ids: _ } = s;
    assert(all_seen(objects@) == scene_of(vs, ms).objects);
    assert(all_seen(conns@) == scene_of(vs, ms).conns);
    let objects = Node::new("Objects").children(objects);
    let conns = Node::new("Connections").children(conns);
    let ghost want = scene_nodes(vs, ms);
    assert(all_seen(roots@) =~= want.take(0));
    push_root(&mut roots, header_node());
    push_root(&mut roots, settings_node());
    push_root(&mut roots, documents_node(doc));
    push_root(&mut roots, Node::new("References"));
    push_root(&mut roots, definitions_node(meshes.len(), total, textures));
    push_root(&mut roots, objects);
    push_root(&mut roots, conns);
    assert(all_seen(roots@) =~= want);
    fbx::write(&roots)
}

fn push_root(v: &mut Vec<Node>, n: Node)
    ensures
        all_seen(final(v)@) == all_seen(old(v)@).push(n@),
{
    proof {
        lemma_seen_push(v@, n);
    }
    v.push(n);
}

// ----------------------------------------------------------------- laws ---

/// The id of an object record.
pub open spec fn object_id(n: NodeView) -> Option<i64> {
    if n.props.len() > 0 {
        match n.props[0] {
            PropView::I64(v) => Some(v),
            _ => None,
        }
    } else {
        None
    }
}

/// The ids of the objects of a scene.
pub open spec fn object_ids(v: Seq<NodeView>) -> Seq<Option<i64>> {
    Seq::new(v.len(), |i: int| object_id(v[i]))
}

/// What a connection joins.
pub open spec fn ends_of(c: NodeView) -> Option<(i64, i64)> {
    if c.props.len() > 2 {
        match (c.props[1], c.props[2]) {
            (PropView::I64(a), PropView::I64(b)) => Some((a, b)),
            _ => None,
        }
    } else {
        None
    }
}

/// Whether the scene has an object with this id.
pub open spec fn has_object(s: Scene, id: i64) -> bool {
    object_ids(s.objects).contains(Some(id))
}

/// Whether a connection joins an object of the scene to another, or to the root.
pub open spec fn joined_well(s: Scene, c: NodeView) -> bool {
    ends_of(c) matches Some(e) && has_object(s, e.0) && (e.1 == 0 || has_object(s, e.1))
}

/// `n` materials of `total` are in the scene; every other id was handed out
/// later.
spec fn scene_inv(s: Scene, n: int, total: nat) -> bool {
    &&& 0 <= n <= total
    &&& 1_000_001 + total <= s.last
    &&& object_ids(s.objects).no_duplicates()
    &&& forall|k: int|
        0 <= k < s.objects.len() ==> handed_out(object_id(#[trigger] s.objects[k]), s.last, n, total)
    &&& forall|i: int| 0 <= i < n ==> has_object(s, #[trigger] material_id(i))
    &&& forall|k: int| 0 <= k < s.conns.len() ==> joined_well(s, #[trigger] s.conns[k])
}

spec fn handed_out(id: Option<i64>, last: int, n: int, total: nat) -> bool {
    id matches Some(v) && (1_000_002 <= v < 1_000_002 + n || 1_000_001 + total < v <= last)
}

proof fn lemma_more_objects(s: Scene, t: Scene, id: i64)
    requires
        s.objects.len() <= t.objects.len(),
        s.objects == t.objects.take(s.objects.len() as int),
        has_object(s, id),
    ensures
        has_object(t, id),
{
    let k = object_ids(s.objects).index_of(Some(id));
    assert(t.objects.take(s.objects.len() as int)[k] == t.objects[k]);
    assert(object_ids(t.objects)[k] == Some(id));
}

proof fn lemma_add_object(s: Scene, o: NodeView, id: i64, last: int, n: int, total: nat)
    requires
        scene_inv(s, n, total),
        object_id(o) == Some(id),
        s.last <= last,
        (n < total && id == material_id(n)) || s.last < id <= last,
        1_000_002 + total <= i64::MAX,
    ensures
        ({
            let t = Scene { objects: s.objects.push(o), conns: s.conns, last };
            let m = if s.last < id {
                n
            } else {
                n + 1
            };
            scene_inv(t, m, total) && has_object(t, id)
        }),
{
    let t = Scene { objects: s.objects.push(o), conns: s.conns, last };
    let m = if s.last < id {
        n
    } else {
        n + 1
    };
    let a = object_ids(s.objects);
    let b = object_ids(t.objects);
    assert(b =~= a.push(Some(id)));
    assert(t.objects.take(s.objects.len() as int) =~= s.objects);
    assert(!a.contains(Some(id))) by {
        if a.contains(Some(id)) {
            let k = a.index_of(Some(id));
            assert(handed_out(object_id(s.objects[k]), s.last, n, total));
        }
    }
    assert forall|i: int, j: int| 0 <= i < b.len() && 0 <= j < b.len() && i != j implies b[i]
        != b[j] by {
        if i == a.len() {
            assert(a.contains(a[j]));
        } else if j == a.len() {
            assert(a.contains(a[i]));
        }
    }
    assert forall|k: int| 0 <= k < t.objects.len() implies handed_out(
        object_id(#[trigger] t.objects[k]),
        t.last,
        m,
        total,
    ) by {
        if k < s.objects.len() {
            assert(handed_out(object_id(s.objects[k]), s.last, n, total));
        }
    }
    assert(b[a.len() as int] == Some(id));
    assert forall|i: int| 0 <= i < m implies has_object(t, #[trigger] material_id(i)) by {
        if i < n {
            assert(has_object(s, material_id(i)));
            lemma_more_objects(s, t, material_id(i));
        }
    }
    assert forall|k: int| 0 <= k < t.conns.len() implies joined_well(t, #[trigger] t.conns[k]) by {
        assert(joined_well(s, s.conns[k]));
        let e = ends_of(s.conns[k])->0;
        lemma_more_objects(s, t, e.0);
        if e.1 != 0 {
            lemma_more_objects(s, t, e.1);
        }
    }
}

proof fn lemma_add_conn(s: Scene, c: NodeView, n: int, total: nat)
    requires
        scene_inv(s, n, total),
        joined_well(s, c),
    ensures
        scene_inv(Scene { conns: s.conns.push(c), ..s }, n, total),
{
    let t = Scene { conns: s.conns.push(c), ..s };
    assert forall|k: int| 0 <= k < t.conns.len() implies joined_well(t, #[trigger] t.conns[k]) by {
        if k < s.conns.len() {
            assert(joined_well(s, s.conns[k]));
        }
    }
    assert forall|i: int| 0 <= i < n implies has_object(t, #[trigger] material_id(i)) by {
        assert(has_object(s, material_id(i)));
    }
    assert forall|k: int| 0 <= k < t.objects.len() implies handed_out(
        object_id(#[trigger] t.objects[k]),
        t.last,
        n,
        total,
    ) by {
        assert(handed_out(object_id(s.objects[k]), s.last, n, total));
    }
}

proof fn lemma_texture(
    s: Scene,
    material: i64,
    name: Seq<char>,
    rel: Seq<char>,
    uv_set: Seq<char>,
    what: Seq<char>,
    n: int,
    total: nat,
)
    requires
        scene_inv(s, n, total),
        has_object(s, material),
        s.last + 2 <= i64::MAX,
        1_000_002 + total <= i64::MAX,
    ensures
        scene_inv(with_texture(s, material, name, rel, uv_set, what), n, total),
        has_object(with_texture(s, material, name, rel, uv_set, what), material),
{
    let t = (s.last + 1) as i64;
    let v = (s.last + 2) as i64;
    let to = texture_of(t, name, rel, uv_set);
    let vo = video_of(v, name, rel);
    assert(object_id(to) == Some(t));
    assert(object_id(vo) == Some(v));
    lemma_add_object(s, to, t, s.last + 1, n, total);
    let a = Scene { objects: s.objects.push(to), conns: s.conns, last: s.last + 1 };
    assert(a.objects.take(s.objects.len() as int) =~= s.objects);
    lemma_more_objects(s, a, material);
    lemma_add_object(a, vo, v, s.last + 2, n, total);
    let b = Scene { objects: a.objects.push(vo), conns: a.conns, last: s.last + 2 };
    assert(b.objects.take(a.objects.len() as int) =~= a.objects);
    lemma_more_objects(a, b, material);
    lemma_more_objects(a, b, t);
    let f = feeds(t, material, what);
    let j = joins(v, t);
    assert(ends_of(f) == Some((t, material)));
    assert(ends_of(j) == Some((v, t)));
    lemma_add_conn(b, f, n, total);
    let c = Scene { conns: b.conns.push(f), ..b };
    assert(has_object(c, v) && has_object(c, t));
    lemma_add_conn(c, j, n, total);
    let d = Scene { conns: c.conns.push(j), ..c };
    assert(d =~= with_texture(s, material, name, rel, uv_set, what));
}

proof fn lemma_materials(ms: Seq<MaterialView>, total: nat)
    requires
        ms.len() <= total,
        1_000_002 + 5 * total <= i64::MAX,
    ensures
        scene_inv(with_materials(ms, total), ms.len() as int, total),
        with_materials(ms, total).last <= 1_000_001 + total + 4 * ms.len(),
    decreases ms.len(),
{
    if ms.len() > 0 {
        let f = ms.drop_last();
        let m = ms.last();
        let i = ms.len() - 1;
        lemma_materials(f, total);
        let s = with_materials(f, total);
        let id = material_id(i);
        let o = material_of(id, m);
        assert(object_id(o) == Some(id));
        lemma_add_object(s, o, id, s.last, i, total);
        let bare = Scene { objects: s.objects.push(o), ..s };
        assert(bare =~= (Scene { objects: s.objects.push(o), conns: s.conns, last: s.last }));
        let base = match m.texture {
            Some(rel) => with_texture(bare, id, m.name, rel, m.uv_set, "DiffuseColor"@),
            None => bare,
        };
        if let Some(rel) = m.texture {
            lemma_texture(bare, id, m.name, rel, m.uv_set, "DiffuseColor"@, i + 1, total);
        }
        if let Some(rel) = m.normal_map {
            lemma_texture(
                base,
                id,
                m.name + "_n"@,
                rel,
                "UVMap"@,
                "NormalMap"@,
                i + 1,
                total,
            );
        }
    }
}

proof fn lemma_meshes(s: Scene, v: Seq<MeshView>, total: nat)
    requires
        scene_inv(s, total as int, total),
        s.last + 2 * v.len() <= i64::MAX,
        1_000_002 + total <= i64::MAX,
    ensures
        scene_inv(with_meshes(s, v, total), total as int, total),
    decreases v.len(),
{
    if v.len() > 0 {
        lemma_meshes(s, v.drop_last(), total);
        lemma_meshes_last(s, v.drop_last(), total);
        let n = total as int;
        let m = v.last();
        let p = with_meshes(s, v.drop_last(), total);
        let g = (p.last + 1) as i64;
        let i = (p.last + 2) as i64;
        let go = geometry_of(m, g);
        let mo = model_of(i, m.name);
        assert(object_id(go) == Some(g));
        assert(object_id(mo) == Some(i));
        lemma_add_object(p, go, g, p.last + 1, n, total);
        let a = Scene { objects: p.objects.push(go), conns: p.conns, last: p.last + 1 };
        lemma_add_object(a, mo, i, p.last + 2, n, total);
        let b = Scene { objects: a.objects.push(mo), conns: a.conns, last: p.last + 2 };
        assert(b.objects.take(a.objects.len() as int) =~= a.objects);
        lemma_more_objects(a, b, g);
        assert(ends_of(joins(g, i)) == Some((g, i)));
        lemma_add_conn(b, joins(g, i), n, total);
        let c = Scene { conns: b.conns.push(joins(g, i)), ..b };
        assert(has_object(c, i));
        assert(ends_of(joins(i, 0)) == Some((i, 0i64)));
        lemma_add_conn(c, joins(i, 0), n, total);
        let d = Scene { conns: c.conns.push(joins(i, 0)), ..c };
        if m.material < total {
            let id = material_id(m.material as int);
            assert(ends_of(joins(id, i)) == Some((id, i)));
            assert(has_object(d, id));
            assert(has_object(d, i));
            lemma_add_conn(d, joins(id, i), n, total);
            assert((Scene { conns: d.conns.push(joins(id, i)), ..d }) =~= with_mesh(p, m, total));
        } else {
            assert(d =~= with_mesh(p, m, total));
        }
    }
}

/// No two objects of a scene have the same id, none has the root's or the
/// document's, and every connection joins an object that is there to another,
/// or to the root.
pub proof fn scenes_hold_together(meshes: Seq<MeshView>, materials: Seq<MaterialView>)
    requires
        1_000_002 + 5 * materials.len() + 2 * meshes.len() <= i64::MAX,
    ensures
        object_ids(scene_of(meshes, materials).objects).no_duplicates(),
        forall|k: int|
            0 <= k < scene_of(meshes, materials).objects.len() ==> (object_id(
                #[trigger] scene_of(meshes, materials).objects[k],
            ) matches Some(id) && id > document_id()),
        forall|k: int|
            0 <= k < scene_of(meshes, materials).conns.len() ==> joined_well(
                scene_of(meshes, materials),
                #[trigger] scene_of(meshes, materials).conns[k],
            ),
{
    let total = materials.len();
    lemma_materials(materials, total);
    lemma_meshes(with_materials(materials, total), meshes, total);
    let s = scene_of(meshes, materials);
    assert forall|k: int| 0 <= k < s.objects.len() implies (object_id(
        #[trigger] s.objects[k],
    ) matches Some(id) && id > document_id()) by {
        assert(handed_out(object_id(s.objects[k]), s.last, total as int, total));
    }
}

/// Whether a connection feeds nothing but the colour of a material, if it feeds
/// any property at all.
pub open spec fn feeds_colour_at_most(c: NodeView) -> bool {
    ||| exists|a: i64, b: i64| c == #[trigger] joins(a, b)
    ||| exists|a: i64, b: i64| c == #[trigger] feeds(a, b, "DiffuseColor"@)
}

spec fn coloured(v: Seq<NodeView>) -> bool {
    forall|k: int| 0 <= k < v.len() ==> feeds_colour_at_most(#[trigger] v[k])
}

proof fn lemma_coloured_push(v: Seq<NodeView>, c: NodeView)
    requires
        coloured(v),
        feeds_colour_at_most(c),
    ensures
        coloured(v.push(c)),
{
}

proof fn lemma_coloured_materials(ms: Seq<MaterialView>, total: nat)
    requires
        forall|i: int| 0 <= i < ms.len() ==> (#[trigger] ms[i]).normal_map is None,
    ensures
        coloured(with_materials(ms, total).conns),
    decreases ms.len(),
{
    if ms.len() > 0 {
        let s = with_materials(ms.drop_last(), total);
        assert forall|i: int| 0 <= i < ms.drop_last().len() implies (
        #[trigger] ms.drop_last()[i]).normal_map is None by {
            assert(ms[i].normal_map is None);
        }
        lemma_coloured_materials(ms.drop_last(), total);
        assert(ms[ms.len() - 1].normal_map is None);
        if ms.last().texture is Some {
            let id = material_id(ms.len() - 1);
            let t = (s.last + 1) as i64;
            let v = (s.last + 2) as i64;
            lemma_coloured_push(s.conns, feeds(t, id, "DiffuseColor"@));
            lemma_coloured_push(s.conns.push(feeds(t, id, "DiffuseColor"@)), joins(v, t));
        }
    }
}

proof fn lemma_coloured_meshes(s: Scene, v: Seq<MeshView>, total: nat)
    requires
        coloured(s.conns),
    ensures
        coloured(with_meshes(s, v, total).conns),
    decreases v.len(),
{
    if v.len() > 0 {
        lemma_coloured_meshes(s, v.drop_last(), total);
        let m = with_meshes(s, v.drop_last(), total);
        let g = (m.last + 1) as i64;
        let i = (m.last + 2) as i64;
        let tied = m.conns.push(joins(g, i)).push(joins(i, 0));
        lemma_coloured_push(m.conns, joins(g, i));
        lemma_coloured_push(m.conns.push(joins(g, i)), joins(i, 0));
        lemma_coloured_push(tied, joins(material_id(v.last().material as int), i));
    }
}

/// Textures are wired to the colour of their material and to nothing else, as long
/// as no material asks for a normal map.
pub proof fn textures_feed_colour_only(meshes: Seq<MeshView>, materials: Seq<MaterialView>, k: int)
    requires
        forall|i: int| 0 <= i < materials.len() ==> (#[trigger] materials[i]).normal_map is None,
        0 <= k < scene_of(meshes, materials).conns.len(),
    ensures
        feeds_colour_at_most(scene_of(meshes, materials).conns[k]),
{
    let n = materials.len();
    lemma_coloured_materials(materials, n);
    lemma_coloured_meshes(with_materials(materials, n), meshes, n);
}

/// Whether none of the records inside one has a name.
pub open spec fn none_named(n: NodeView, name: Seq<char>) -> bool {
    forall|k: int| 0 <= k < n.children.len() ==> (#[trigger] n.children[k]).name != name
}

proof fn lemma_none_named(n: NodeView, there: bool, c: NodeView, name: Seq<char>)
    requires
        none_named(n, name),
        c.name != name,
    ensures
        none_named(maybe(n, there, c), name),
        none_named(n.with(c), name),
{
}

/// No geometry has a layer of normals, so nothing overrides those that the
/// receiving application computes.
pub proof fn no_normals_are_written(m: MeshView, id: i64)
    ensures
        none_named(geometry_of(m, id), "LayerElementNormal"@),
{
    let no = "LayerElementNormal"@;
    reveal_strlit("LayerElementNormal");
    reveal_strlit("GeometryVersion");
    reveal_strlit("Vertices");
    reveal_strlit("PolygonVertexIndex");
    reveal_strlit("LayerElementUV");
    reveal_strlit("LayerElementColor");
    reveal_strlit("LayerElementMaterial");
    reveal_strlit("Layer");
    assert("PolygonVertexIndex"@[0] != no[0]);
    assert("LayerElementUV"@.len() < no.len());
    assert("LayerElementColor"@.len() < no.len());
    assert("LayerElementMaterial"@.len() > no.len());
    let start = NodeView::empty("Geometry"@).id(id).object("Geometry"@, m.name).text("Mesh"@);
    let version = NodeView::empty("GeometryVersion"@).number(124);
    let points = NodeView::empty("Vertices"@).doubles(m.positions);
    let faces = NodeView::empty("PolygonVertexIndex"@).ints(polygons(m.tris));
    lemma_none_named(start, true, version, no);
    lemma_none_named(start.with(version), true, points, no);
    lemma_none_named(start.with(version).with(points), true, faces, no);
    let bare = start.with(version).with(points).with(faces);
    let first = layer_element("LayerElementUV"@, 0, "UVMap"@, "UV"@, m.uvs, "UVIndex"@, m.tris);
    assert(first.name == "LayerElementUV"@);
    lemma_none_named(bare, m.uvs.len() > 0, first, no);
    let uv = maybe(bare, m.uvs.len() > 0, first);
    let other = layer_element("LayerElementUV"@, 1, PAINT_UV@, "UV"@, m.uvs2, "UVIndex"@, m.tris);
    assert(other.name == "LayerElementUV"@);
    lemma_none_named(uv, m.uvs2.len() > 0, other, no);
    let paint = maybe(uv, m.uvs2.len() > 0, other);
    let tint = layer_element(
        "LayerElementColor"@,
        0,
        "Col"@,
        "Colors"@,
        m.colors,
        "ColorIndex"@,
        m.tris,
    );
    lemma_none_named(paint, m.colors.len() > 0, tint, no);
    let tinted = maybe(paint, m.colors.len() > 0, tint);
    lemma_none_named(tinted, true, material_layer(), no);
    let all = tinted.with(material_layer());
    let layer = NodeView::empty("Layer"@).number(1).with(
        NodeView::empty("Version"@).number(100),
    ).with(layer_use("LayerElementUV"@, 1));
    lemma_none_named(all, m.uvs2.len() > 0, layer, no);
    let last = geometry_of(m, id).children.last();
    lemma_none_named(maybe(all, m.uvs2.len() > 0, layer), true, last, no);
}

} // verus!
