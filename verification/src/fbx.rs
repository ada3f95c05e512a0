//! A minimal binary FBX 7.4 writer.
//!
//! Only what a static, textured mesh scene needs: geometry, models, materials,
//! textures and the connections between them. No animation, no skinning, no
//! deformers.
//!
//! Version 7400 is deliberate. From 7500 on, record offsets become 64-bit, and
//! while that lifts the 2 GB ceiling it also loses a handful of older importers
//! for no benefit here. Doubles are carried as their IEEE-754 bits.

use crate::bytes::{
    le4, le8, lemma_le4_len, lemma_le4_reads_back, push4, push8, push_i32, push_i64, push_zeros, set4,
    zeros,
};
use crate::packing::{opt_bytes, zlib_deflate_fast, zlib_fast, zlib_inflated};
use vstd::prelude::*;
use vstd::utf8::encode_utf8;

verus! {

broadcast use lemma_le4_len;

// ----------------------------------------------------------------- tree ---

pub enum Prop {
    Bool(u8),
    I32(i32),
    /// the bits of a double
    F64(u64),
    I64(i64),
    Str(String),
    Raw(Vec<u8>),
    /// Already encoded: type code, element count, encoding flag and payload.
    Array { code: u8, count: u32, encoding: u32, payload: Vec<u8> },
}

pub struct Node {
    pub name: &'static str,
    pub props: Vec<Prop>,
    pub children: Vec<Node>,
}

pub enum PropView {
    Bool(u8),
    I32(i32),
    F64(u64),
    I64(i64),
    Str(Seq<char>),
    Raw(Seq<u8>),
    Array { code: u8, count: u32, encoding: u32, payload: Seq<u8> },
}

#[verifier::ext_equal]
pub struct NodeView {
    pub name: Seq<char>,
    pub props: Seq<PropView>,
    pub children: Seq<NodeView>,
}

impl View for Prop {
    type V = PropView;

    open spec fn view(&self) -> PropView {
        match self {
            Prop::Bool(v) => PropView::Bool(*v),
            Prop::I32(v) => PropView::I32(*v),
            Prop::F64(v) => PropView::F64(*v),
            Prop::I64(v) => PropView::I64(*v),
            Prop::Str(s) => PropView::Str(s@),
            Prop::Raw(b) => PropView::Raw(b@),
            Prop::Array { code, count, encoding, payload } => PropView::Array {
                code: *code,
                count: *count,
                encoding: *encoding,
                payload: payload@,
            },
        }
    }
}

pub open spec fn prop_views(v: Seq<Prop>) -> Seq<PropView> {
    Seq::new(v.len(), |i: int| v[i]@)
}

/// The record that a node is.
pub open spec fn seen(n: Node) -> NodeView
    decreases n,
{
    NodeView { name: n.name@, props: prop_views(n.props@), children: all_seen(n.children@) }
}

pub open spec fn all_seen(v: Seq<Node>) -> Seq<NodeView>
    decreases v,
{
    if v.len() == 0 {
        Seq::empty()
    } else {
        all_seen(v.drop_last()).push(seen(v.last()))
    }
}

impl View for Node {
    type V = NodeView;

    open spec fn view(&self) -> NodeView {
        seen(*self)
    }
}

proof fn lemma_all_seen(v: Seq<Node>)
    ensures
        all_seen(v).len() == v.len(),
        forall|i: int| 0 <= i < v.len() ==> #[trigger] all_seen(v)[i] == seen(v[i]),
    decreases v.len(),
{
    if v.len() > 0 {
        lemma_all_seen(v.drop_last());
        assert forall|i: int| 0 <= i < v.len() implies #[trigger] all_seen(v)[i] == seen(v[i]) by {
            if i < v.len() - 1 {
                assert(v.drop_last()[i] == v[i]);
            }
        }
    }
}

/// An array property: deflated where that is shorter.
pub open spec fn array_of(
    code: u8,
    count: nat,
    raw: Seq<u8>,
    deflated: Option<Seq<u8>>,
) -> PropView {
    match deflated {
        Some(z) => if z.len() < raw.len() {
            PropView::Array { code, count: count as u32, encoding: 1, payload: z }
        } else {
            PropView::Array { code, count: count as u32, encoding: 0, payload: raw }
        },
        None => PropView::Array { code, count: count as u32, encoding: 0, payload: raw },
    }
}

/// Whether an array property holds the bytes `raw`, as they are or deflated.
pub open spec fn reads_back(p: PropView, raw: Seq<u8>) -> bool {
    match p {
        PropView::Array { code, count, encoding, payload } => if encoding == 0 {
            payload == raw
        } else {
            encoding == 1 && zlib_inflated(payload) == Ok::<Seq<u8>, Seq<char>>(raw)
        },
        _ => false,
    }
}

/// The bytes of doubles, given by their bits.
pub open spec fn double_bytes(v: Seq<u64>) -> Seq<u8>
    decreases v.len(),
{
    if v.len() == 0 {
        Seq::empty()
    } else {
        double_bytes(v.drop_last()) + le8(v.last() as int)
    }
}

pub open spec fn int_bytes(v: Seq<i32>) -> Seq<u8>
    decreases v.len(),
{
    if v.len() == 0 {
        Seq::empty()
    } else {
        int_bytes(v.drop_last()) + le4(v.last() as int)
    }
}

impl NodeView {
    pub open spec fn empty(name: Seq<char>) -> NodeView {
        NodeView { name, props: Seq::empty(), children: Seq::empty() }
    }

    pub open spec fn prop(self, p: PropView) -> NodeView {
        NodeView { props: self.props.push(p), ..self }
    }

    pub open spec fn flag(self, v: bool) -> NodeView {
        self.prop(PropView::Bool(if v { 1 } else { 0 }))
    }

    pub open spec fn number(self, v: i32) -> NodeView {
        self.prop(PropView::I32(v))
    }

    pub open spec fn double(self, bits: u64) -> NodeView {
        self.prop(PropView::F64(bits))
    }

    pub open spec fn id(self, v: i64) -> NodeView {
        self.prop(PropView::I64(v))
    }

    pub open spec fn text(self, s: Seq<char>) -> NodeView {
        self.prop(PropView::Str(s))
    }

    pub open spec fn doubles(self, v: Seq<u64>) -> NodeView {
        self.prop(array_of(0x64, v.len(), double_bytes(v), zlib_fast(double_bytes(v))))
    }

    pub open spec fn ints(self, v: Seq<i32>) -> NodeView {
        self.prop(array_of(0x69, v.len(), int_bytes(v), zlib_fast(int_bytes(v))))
    }

    /// An object name: the name, a NUL, a 0x01 and the class.
    pub open spec fn object(self, class: Seq<char>, name: Seq<char>) -> NodeView {
        self.prop(PropView::Raw(encode_utf8(name) + seq![0u8, 1u8] + encode_utf8(class)))
    }

    pub open spec fn with(self, c: NodeView) -> NodeView {
        NodeView { children: self.children.push(c), ..self }
    }

    pub open spec fn with_all(self, c: Seq<NodeView>) -> NodeView {
        NodeView { children: self.children + c, ..self }
    }
}

/// Arrays go out deflated, unless that makes them longer. Takes what the
/// encoder made of the bytes.
pub fn pick_array(code: u8, count: usize, raw: Vec<u8>, deflated: Option<Vec<u8>>) -> (r: Prop)
    ensures
        r@ == array_of(code, count as nat, raw@, opt_bytes(deflated)),
{
    match deflated {
        Some(z) => if z.len() < raw.len() {
            Prop::Array { code, count: count as u32, encoding: 1, payload: z }
        } else {
            Prop::Array { code, count: count as u32, encoding: 0, payload: raw }
        },
        None => Prop::Array { code, count: count as u32, encoding: 0, payload: raw },
    }
}

pub fn encode_array(code: u8, count: usize, raw: Vec<u8>) -> (r: Prop)
    ensures
        r@ == array_of(code, count as nat, raw@, zlib_fast(raw@)),
        reads_back(r@, raw@),
{
    let z = zlib_deflate_fast(raw.as_slice());
    pick_array(code, count, raw, z)
}

impl Node {
    pub fn new(name: &'static str) -> (r: Node)
        ensures
            r@ == NodeView::empty(name@),
    {
        let r = Node { name, props: Vec::new(), children: Vec::new() };
        assert(r@ =~= NodeView::empty(name@));
        r
    }

    fn put(self, p: Prop) -> (r: Node)
        ensures
            r@ == self@.prop(p@),
    {
        let ghost before = self@;
        let mut n = self;
        let ghost v = p@;
        n.props.push(p);
        assert(prop_views(n.props@) =~= before.props.push(v));
        n
    }

    pub fn bool(self, v: bool) -> (r: Node)
        ensures
            r@ == self@.flag(v),
    {
        self.put(
            Prop::Bool(
                if v {
                    1
                } else {
                    0
                },
            ),
        )
    }

    pub fn i32(self, v: i32) -> (r: Node)
        ensures
            r@ == self@.number(v),
    {
        self.put(Prop::I32(v))
    }

    pub fn double(self, bits: u64) -> (r: Node)
        ensures
            r@ == self@.double(bits),
    {
        self.put(Prop::F64(bits))
    }

    pub fn i64(self, v: i64) -> (r: Node)
        ensures
            r@ == self@.id(v),
    {
        self.put(Prop::I64(v))
    }

    pub fn str(self, v: &str) -> (r: Node)
        ensures
            r@ == self@.text(v@),
    {
        self.put(Prop::Str(v.to_owned()))
    }

    pub fn raw(self, v: Vec<u8>) -> (r: Node)
        ensures
            r@ == self@.prop(PropView::Raw(v@)),
    {
        self.put(Prop::Raw(v))
    }

    pub fn arr_double(self, v: &Vec<u64>) -> (r: Node)
        ensures
            r@ == self@.doubles(v@),
            reads_back(r@.props.last(), double_bytes(v@)),
    {
        let mut raw: Vec<u8> = Vec::new();
        let mut i: usize = 0;
        assert(raw@ =~= double_bytes(v@.take(0)));
        while i < v.len()
            invariant
                i <= v@.len(),
                raw@ == double_bytes(v@.take(i as int)),
            decreases v@.len() - i,
        {
            assert(v@.take(i + 1).drop_last() =~= v@.take(i as int));
            push8(&mut raw, v[i]);
            i = i + 1;
        }
        assert(v@.take(i as int) =~= v@);
        self.put(encode_array(0x64, v.len(), raw))
    }

    pub fn arr_i32(self, v: &Vec<i32>) -> (r: Node)
        ensures
            r@ == self@.ints(v@),
            reads_back(r@.props.last(), int_bytes(v@)),
    {
        let mut raw: Vec<u8> = Vec::new();
        let mut i: usize = 0;
        assert(raw@ =~= int_bytes(v@.take(0)));
        while i < v.len()
            invariant
                i <= v@.len(),
                raw@ == int_bytes(v@.take(i as int)),
            decreases v@.len() - i,
        {
            assert(v@.take(i + 1).drop_last() =~= v@.take(i as int));
            push_i32(&mut raw, v[i]);
            i = i + 1;
        }
        assert(v@.take(i as int) =~= v@);
        self.put(encode_array(0x69, v.len(), raw))
    }

    pub fn child(self, c: Node) -> (r: Node)
        ensures
            r@ == self@.with(c@),
    {
        let ghost before = self.children@;
        let ghost was = self@;
        let mut n = self;
        n.children.push(c);
        assert(n.children@.drop_last() =~= before);
        assert(n@ =~= was.with(seen(c)));
        n
    }

    pub fn children(self, cs: Vec<Node>) -> (r: Node)
        ensures
            r@ == self@.with_all(all_seen(cs@)),
    {
        let ghost was = self@;
        let ghost before = self.children@;
        let ghost more = cs@;
        let mut n = self;
        let mut cs = cs;
        n.children.append(&mut cs);
        proof {
            lemma_all_seen(before);
            lemma_all_seen(more);
            lemma_all_seen(n.children@);
            assert(all_seen(n.children@) =~= all_seen(before) + all_seen(more));
        }
        assert(n@ =~= was.with_all(all_seen(more)));
        n
    }

    /// An object name is stored as `Class::Name` with a NUL and a 0x01 between
    /// the two halves, not with the literal colons that the ASCII form shows.
    pub fn objname(self, class: &str, name: &str) -> (r: Node)
        ensures
            r@ == self@.object(class@, name@),
    {
        let mut b: Vec<u8> = Vec::new();
        b.extend_from_slice(name.as_bytes());
        b.push(0x00);
        b.push(0x01);
        b.extend_from_slice(class.as_bytes());
        assert(b@ =~= encode_utf8(name@) + seq![0u8, 1u8] + encode_utf8(class@));
        self.raw(b)
    }
}

// -------------------------------------------------------------- writing ---

/// A property as it stands in a file.
pub open spec fn prop_bytes(p: PropView) -> Seq<u8> {
    match p {
        PropView::Bool(v) => seq![0x43u8, v],
        PropView::I32(v) => seq![0x49u8] + le4(v as int),
        PropView::F64(v) => seq![0x44u8] + le8(v as int),
        PropView::I64(v) => seq![0x4cu8] + le8(v as int),
        PropView::Str(s) => seq![0x53u8] + le4(encode_utf8(s).len() as int) + encode_utf8(s),
        PropView::Raw(b) => seq![0x53u8] + le4(b.len() as int) + b,
        PropView::Array { code, count, encoding, payload } => seq![code] + le4(count as int) + le4(
            encoding as int,
        ) + le4(payload.len() as int) + payload,
    }
}

pub open spec fn props_bytes(v: Seq<PropView>) -> Seq<u8>
    decreases v.len(),
{
    if v.len() == 0 {
        Seq::empty()
    } else {
        props_bytes(v.drop_last()) + prop_bytes(v.last())
    }
}

/// The size of a property.
pub open spec fn prop_size(p: PropView) -> nat {
    1 + match p {
        PropView::Bool(_) => 1nat,
        PropView::I32(_) => 4,
        PropView::F64(_) => 8,
        PropView::I64(_) => 8,
        PropView::Str(s) => 4 + encode_utf8(s).len(),
        PropView::Raw(b) => 4 + b.len(),
        PropView::Array { payload, .. } => 12 + payload.len(),
    }
}

pub open spec fn props_size(v: Seq<PropView>) -> nat
    decreases v.len(),
{
    if v.len() == 0 {
        0
    } else {
        props_size(v.drop_last()) + prop_size(v.last())
    }
}

/// The size of a record, its header and its children included.
pub open spec fn node_size(n: NodeView) -> nat
    decreases n,
{
    13 + encode_utf8(n.name).len() + props_size(n.props) + (if n.children.len() == 0 {
        0
    } else {
        nodes_size(n.children) + 13
    })
}

pub open spec fn nodes_size(v: Seq<NodeView>) -> nat
    decreases v,
{
    if v.len() == 0 {
        0
    } else {
        nodes_size(v.drop_last()) + node_size(v.last())
    }
}

/// A record as it stands at the offset `at` of a file: where it ends, how many
/// properties it has and how long they are, its name, the properties, and the
/// children with their end mark.
pub open spec fn node_bytes(n: NodeView, at: nat) -> Seq<u8>
    decreases n,
{
    let name = encode_utf8(n.name);
    let head = le4((at + node_size(n)) as int) + le4(n.props.len() as int) + le4(
        props_size(n.props) as int,
    ) + seq![(name.len() as int % 256) as u8] + name + props_bytes(n.props);
    if n.children.len() == 0 {
        head
    } else {
        head + nodes_bytes(n.children, (at + 13 + name.len() + props_size(n.props)) as nat) + zeros(
            13,
        )
    }
}

pub open spec fn nodes_bytes(v: Seq<NodeView>, at: nat) -> Seq<u8>
    decreases v,
{
    if v.len() == 0 {
        Seq::empty()
    } else {
        nodes_bytes(v.drop_last(), at) + node_bytes(v.last(), at + nodes_size(v.drop_last()))
    }
}

pub proof fn lemma_props_size(v: Seq<PropView>)
    ensures
        props_bytes(v).len() == props_size(v),
    decreases v.len(),
{
    if v.len() > 0 {
        lemma_props_size(v.drop_last());
    }
}

/// A record takes exactly the room that its size says, so that end offsets can
/// be known before anything is written.
pub proof fn records_are_as_long_as_computed(n: NodeView, at: nat)
    ensures
        node_bytes(n, at).len() == node_size(n),
    decreases n,
{
    lemma_props_size(n.props);
    if n.children.len() > 0 {
        lemma_nodes_size(
            n.children,
            (at + 13 + encode_utf8(n.name).len() + props_size(n.props)) as nat,
        );
    }
}

proof fn lemma_nodes_size(v: Seq<NodeView>, at: nat)
    ensures
        nodes_bytes(v, at).len() == nodes_size(v),
    decreases v,
{
    if v.len() > 0 {
        lemma_nodes_size(v.drop_last(), at);
        records_are_as_long_as_computed(v.last(), at + nodes_size(v.drop_last()));
    }
}

/// The offset at the head of a record, read back, is the place right behind it,
/// as long as the file stays below 4 GB.
pub proof fn end_offsets_point_behind_records(n: NodeView, at: nat)
    requires
        at + node_size(n) < 0x1_0000_0000,
    ensures
        node_bytes(n, at).len() >= 4,
        crate::bytes::le32(node_bytes(n, at), 0) == at + node_bytes(n, at).len(),
{
    records_are_as_long_as_computed(n, at);
    let x = (at + node_size(n)) as int;
    let b = node_bytes(n, at);
    assert(b.take(4) =~= le4(x));
    lemma_le4_reads_back(b, x);
}

fn write_prop(out: &mut Vec<u8>, p: &Prop)
    ensures
        final(out)@ == old(out)@ + prop_bytes(p@),
{
    let ghost was = out@;
    match p {
        Prop::Bool(v) => {
            out.push(0x43);
            out.push(*v);
        },
        Prop::I32(v) => {
            out.push(0x49);
            push_i32(out, *v);
        },
        Prop::F64(v) => {
            out.push(0x44);
            push8(out, *v);
        },
        Prop::I64(v) => {
            out.push(0x4c);
            push_i64(out, *v);
        },
        Prop::Str(s) => {
            out.push(0x53);
            let b = s.as_str().as_bytes();
            push4(out, b.len() as u64);
            out.extend_from_slice(b);
        },
        Prop::Raw(b) => {
            out.push(0x53);
            push4(out, b.len() as u64);
            out.extend_from_slice(b.as_slice());
        },
        Prop::Array { code, count, encoding, payload } => {
            out.push(*code);
            push4(out, *count as u64);
            push4(out, *encoding as u64);
            push4(out, payload.len() as u64);
            out.extend_from_slice(payload.as_slice());
        },
    }
    assert(out@ =~= was + prop_bytes(p@));
}

fn write_props(out: &mut Vec<u8>, v: &Vec<Prop>)
    ensures
        final(out)@ == old(out)@ + props_bytes(prop_views(v@)),
{
    let ghost was = out@;
    let ghost all = prop_views(v@);
    let mut i: usize = 0;
    assert(out@ =~= was + props_bytes(all.take(0)));
    while i < v.len()
        invariant
            i <= v@.len(),
            all == prop_views(v@),
            out@ == was + props_bytes(all.take(i as int)),
        decreases v@.len() - i,
    {
        assert(all.take(i + 1).drop_last() =~= all.take(i as int));
        write_prop(out, &v[i]);
        assert(out@ =~= was + props_bytes(all.take(i + 1)));
        i = i + 1;
    }
    assert(all.take(i as int) =~= all);
}

fn write_node(out: &mut Vec<u8>, n: &Node)
    ensures
        final(out)@ == old(out)@ + node_bytes(n@, old(out)@.len()),
    decreases *n,
{
    let ghost was = out@;
    let ghost v = n@;
    let at: usize = out.len();
    // the end and the length of the properties are known once they are written
    push_zeros(out, 4);
    push4(out, n.props.len() as u64);
    push_zeros(out, 4);
    let name = n.name.as_bytes();
    out.push((name.len() % 256) as u8);
    out.extend_from_slice(name);
    let from: usize = out.len();
    write_props(out, &n.props);
    proof {
        lemma_props_size(v.props);
    }
    let size: usize = out.len() - from;
    set4(out, at + 8, size as u64);
    let ghost headed = out@;
    assert(headed =~= was + (zeros(4) + le4(v.props.len() as int) + le4(props_size(v.props) as int)
        + seq![(encode_utf8(v.name).len() as int % 256) as u8] + encode_utf8(v.name) + props_bytes(
        v.props,
    )));
    proof {
        lemma_all_seen(n.children@);
    }
    if n.children.len() > 0 {
        let start: usize = out.len();
        let mut i: usize = 0;
        let ghost kids = v.children;
        assert(kids.take(0) =~= Seq::<NodeView>::empty());
        assert(out@ =~= headed + nodes_bytes(kids.take(0), start as nat));
        while i < n.children.len()
            invariant
                i <= n.children@.len(),
                v == n@,
                kids == v.children,
                kids == all_seen(n.children@),
                kids.len() == n.children@.len(),
                start == headed.len(),
                out@ == headed + nodes_bytes(kids.take(i as int), start as nat),
            decreases n.children@.len() - i,
        {
            proof {
                lemma_all_seen(n.children@);
                lemma_nodes_size(kids.take(i as int), start as nat);
                assert(kids.take(i + 1).drop_last() =~= kids.take(i as int));
                assert(kids.take(i + 1).last() == n.children@[i as int]@);
            }
            write_node(out, &n.children[i]);
            assert(out@ =~= headed + nodes_bytes(kids.take(i + 1), start as nat));
            i = i + 1;
        }
        assert(kids.take(i as int) =~= kids);
        push_zeros(out, 13);
        proof {
            lemma_nodes_size(kids, start as nat);
        }
    }
    let end: usize = out.len();
    set4(out, at, end as u64);
    proof {
        records_are_as_long_as_computed(v, at as nat);
        assert(end == at + node_size(v));
    }
    assert(out@ =~= was + node_bytes(v, at as nat));
}

/// The 27 bytes that a file begins with.
pub open spec fn file_head() -> Seq<u8> {
    seq![
        0x4bu8, 0x61u8, 0x79u8, 0x64u8, 0x61u8, 0x72u8, 0x61u8, 0x20u8, 0x46u8, 0x42u8, 0x58u8,
        0x20u8, 0x42u8, 0x69u8, 0x6eu8, 0x61u8, 0x72u8, 0x79u8, 0x20u8, 0x20u8, 0x00u8, 0x1au8,
        0x00u8,
    ] + le4(7400)
}

/// The 16 bytes that a file ends with.
pub open spec fn file_tail() -> Seq<u8> {
    seq![
        0xf8u8, 0x5au8, 0x8cu8, 0x6au8, 0xdeu8, 0xf5u8, 0xd9u8, 0x7eu8, 0xecu8, 0xe9u8, 0x0cu8,
        0xe3u8, 0x75u8, 0x8fu8, 0x29u8, 0x0bu8,
    ]
}

/// How many bytes are missing to a multiple of 16.
pub open spec fn padding(n: int) -> nat {
    ((16 - n % 16) % 16) as nat
}

/// A whole file.
pub open spec fn file_bytes(roots: Seq<NodeView>) -> Seq<u8> {
    let body = file_head() + nodes_bytes(roots, 27) + zeros(13) + zeros(16);
    body + zeros(padding(body.len() as int)) + le4(0) + le4(7400) + zeros(120) + file_tail()
}

/// Files are a multiple of 16 bytes long, as the format expects.
pub proof fn files_are_aligned(roots: Seq<NodeView>)
    ensures
        file_bytes(roots).len() % 16 == 0,
{
}

fn push_head(out: &mut Vec<u8>)
    ensures
        final(out)@ == old(out)@ + file_head(),
{
    out.push(0x4b);
    out.push(0x61);
    out.push(0x79);
    out.push(0x64);
    out.push(0x61);
    out.push(0x72);
    out.push(0x61);
    out.push(0x20);
    out.push(0x46);
    out.push(0x42);
    out.push(0x58);
    out.push(0x20);
    out.push(0x42);
    out.push(0x69);
    out.push(0x6e);
    out.push(0x61);
    out.push(0x72);
    out.push(0x79);
    out.push(0x20);
    out.push(0x20);
    out.push(0x00);
    out.push(0x1a);
    out.push(0x00);
    push4(out, 7400);
    assert(out@ =~= old(out)@ + file_head());
}

fn push_tail(out: &mut Vec<u8>)
    ensures
        final(out)@ == old(out)@ + file_tail(),
{
    out.push(0xf8);
    out.push(0x5a);
    out.push(0x8c);
    out.push(0x6a);
    out.push(0xde);
    out.push(0xf5);
    out.push(0xd9);
    out.push(0x7e);
    out.push(0xec);
    out.push(0xe9);
    out.push(0x0c);
    out.push(0xe3);
    out.push(0x75);
    out.push(0x8f);
    out.push(0x29);
    out.push(0x0b);
    assert(out@ =~= old(out)@ + file_tail());
}

pub fn write(roots: &Vec<Node>) -> (r: Vec<u8>)
    ensures
        r@ == file_bytes(all_seen(roots@)),
{
    let mut out: Vec<u8> = Vec::new();
    push_head(&mut out);
    assert(out@ =~= file_head());
    let ghost all = all_seen(roots@);
    let mut i: usize = 0;
    proof {
        lemma_all_seen(roots@);
    }
    assert(all.take(0) =~= Seq::<NodeView>::empty());
    assert(out@ =~= file_head() + nodes_bytes(all.take(0), 27));
    while i < roots.len()
        invariant
            i <= roots@.len(),
            all == all_seen(roots@),
            all.len() == roots@.len(),
            out@ == file_head() + nodes_bytes(all.take(i as int), 27),
        decreases roots@.len() - i,
    {
        proof {
            lemma_all_seen(roots@);
            lemma_nodes_size(all.take(i as int), 27);
            assert(all.take(i + 1).drop_last() =~= all.take(i as int));
            assert(all.take(i + 1).last() == roots@[i as int]@);
        }
        write_node(&mut out, &roots[i]);
        assert(out@ =~= file_head() + nodes_bytes(all.take(i + 1), 27));
        i = i + 1;
    }
    assert(all.take(i as int) =~= all);
    // end of the top-level list
    push_zeros(&mut out, 13);
    // Footer. The 16-byte id and the "extension" block are what importers look
    // for; the padding aligns the whole file to 16 bytes as the format expects.
    push_zeros(&mut out, 16);
    let here: usize = out.len();
    let pad: usize = (16 - here % 16) % 16;
    push_zeros(&mut out, pad);
    push4(&mut out, 0);
    push4(&mut out, 7400);
    push_zeros(&mut out, 120);
    push_tail(&mut out);
    out
}

// ------------------------------------------------------------------ ids ---

/// Objects are tied together by 64-bit id. Any distinct non-zero value works;
/// a counter keeps them stable between runs, which matters for diffing output.
pub struct Ids(pub i64);

impl Default for Ids {
    fn default() -> (r: Ids)
        ensures
            r.0 == 1_000_000,
    {
        Ids(1_000_000)
    }
}

impl Ids {
    pub fn next(&mut self) -> (r: i64)
        requires
            old(self).0 < i64::MAX,
        ensures
            r == old(self).0 + 1,
            final(self).0 == r,
    {
        self.0 = self.0 + 1;
        self.0
    }
}

// --------------------------------------------------------- named values ---

/// A `Properties70` entry: its name, its type and subtype, and no flags.
pub open spec fn entry70(name: Seq<char>, ty: Seq<char>, sub: Seq<char>) -> NodeView {
    NodeView::empty("P"@).text(name).text(ty).text(sub).text(""@)
}

fn p70(name: &str, ty: &str, sub: &str) -> (r: Node)
    ensures
        r@ == entry70(name@, ty@, sub@),
{
    Node::new("P").str(name).str(ty).str(sub).str("")
}

/// `Properties70` entries, the FBX way of carrying named values.
pub fn p70_d(name: &str, ty: &str, sub: &str, bits: u64) -> (r: Node)
    ensures
        r@ == entry70(name@, ty@, sub@).double(bits),
{
    p70(name, ty, sub).double(bits)
}

pub fn p70_i(name: &str, ty: &str, sub: &str, v: i32) -> (r: Node)
    ensures
        r@ == entry70(name@, ty@, sub@).number(v),
{
    p70(name, ty, sub).i32(v)
}

pub fn p70_c3(name: &str, ty: &str, sub: &str, v: (u64, u64, u64)) -> (r: Node)
    ensures
        r@ == entry70(name@, ty@, sub@).double(v.0).double(v.1).double(v.2),
{
    p70(name, ty, sub).double(v.0).double(v.1).double(v.2)
}

pub fn p70_s(name: &str, ty: &str, sub: &str, v: &str) -> (r: Node)
    ensures
        r@ == entry70(name@, ty@, sub@).text(v@),
{
    p70(name, ty, sub).str(v)
}

} // verus!
