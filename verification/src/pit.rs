//! Reader for the `.pit` trait format: the material table and the variant/part
//! visibility table that goes with a `.pim`.
//!
//! Materials are keyed by the same alias the `.pim` uses, so the two files join
//! on that string.

use crate::harvest::{adding, Names};
use crate::pim::{between, inside, meaning, quoted_text, read_quoted, Decimals, ONE};
use crate::text::{
    after_prefix, back_trimmed, begins, chars_of, equals, halves, carries, holds, lines, lower,
    lowered, number, parts, pieces, read_number, split, split_lines, split_once, split_words,
    same_str, strip_prefix, texts, trim, trim_back, trimmed, words, Class,
};
use vstd::hash_map::StringHashMap;
use vstd::prelude::*;

verus! {

// ------------------------------------------------------------ materials ---

pub struct Material {
    pub alias: String,
    pub effect: String,
    /// `texture[0]` first; the base colour is index 0 for every shader
    pub textures: Vec<String>,
    /// the bits of red, green and blue
    pub diffuse: (u32, u32, u32),
}

#[verifier::ext_equal]
pub struct MaterialView {
    pub alias: Seq<char>,
    pub effect: Seq<char>,
    pub textures: Seq<Seq<char>>,
    pub diffuse: (u32, u32, u32),
}

impl View for Material {
    type V = MaterialView;

    open spec fn view(&self) -> MaterialView {
        MaterialView {
            alias: self.alias@,
            effect: self.effect@,
            textures: texts(self.textures@),
            diffuse: self.diffuse,
        }
    }
}

/// Whether one of the words between dots is a mark of transparency.
pub open spec fn alpha_word(w: Seq<Seq<char>>) -> bool {
    exists|i: int|
        0 <= i < w.len() && (#[trigger] w[i] == "a"@ || w[i] == "atest"@ || w[i] == "alphatest"@)
}

/// Whether a shader treats the base texture's alpha as opacity. For the whole
/// `eut2.dif.spec*` family it is a specular or reflection mask; only the shaders
/// that say so in their name mean opacity.
pub open spec fn means_opacity(effect: Seq<char>) -> bool {
    let e = lowered(effect);
    carries(e, "glass"@) || carries(e, "alpha"@) || alpha_word(pieces(e, '.'))
}

pub open spec fn casts_only(effect: Seq<char>) -> bool {
    let e = lowered(effect);
    carries(e, "shadowonly"@) || carries(e, "fakeshadow"@)
}

impl Material {
    pub fn new() -> (r: Material)
        ensures
            r@ == MaterialView::blank(),
    {
        let r = Material {
            alias: String::new(),
            effect: String::new(),
            textures: Vec::new(),
            diffuse: (ONE, ONE, ONE),
        };
        assert(r@ =~= MaterialView::blank());
        r
    }

    /// Whether this shader treats the base texture's alpha as opacity.
    pub fn wants_alpha(&self) -> (r: bool)
        ensures
            r == means_opacity(self.effect@),
    {
        let c = chars_of(self.effect.as_str());
        let e = lower(c.as_slice());
        if holds(e.as_slice(), "glass") || holds(e.as_slice(), "alpha") {
            return true;
        }
        let w = split(e.as_slice(), '.');
        let ghost all = pieces(e@, '.');
        let mut i: usize = 0;
        while i < w.len()
            invariant
                i <= w@.len(),
                parts(w@) == all,
                all == pieces(lowered(self.effect@), '.'),
                forall|j: int|
                    0 <= j < i ==> !(#[trigger] all[j] == "a"@ || all[j] == "atest"@ || all[j]
                        == "alphatest"@),
            decreases w@.len() - i,
        {
            assert(parts(w@)[i as int] == w@[i as int]@);
            if equals(w[i], "a") || equals(w[i], "atest") || equals(w[i], "alphatest") {
                assert(alpha_word(all));
                return true;
            }
            i = i + 1;
        }
        false
    }

    pub fn is_shadow_only(&self) -> (r: bool)
        ensures
            r == casts_only(self.effect@),
    {
        let c = chars_of(self.effect.as_str());
        let e = lower(c.as_slice());
        holds(e.as_slice(), "shadowonly") || holds(e.as_slice(), "fakeshadow")
    }
}

impl MaterialView {
    pub open spec fn blank() -> MaterialView {
        MaterialView {
            alias: Seq::empty(),
            effect: Seq::empty(),
            textures: Seq::empty(),
            diffuse: (ONE, ONE, ONE),
        }
    }

    /// With room for texture `i`.
    pub open spec fn with_room(self, i: usize) -> MaterialView {
        if self.textures.len() <= i && i < usize::MAX {
            MaterialView {
                textures: Seq::new(
                    (i + 1) as nat,
                    |k: int|
                        if k < self.textures.len() {
                            self.textures[k]
                        } else {
                            Seq::empty()
                        },
                ),
                ..self
            }
        } else {
            self
        }
    }

    /// With texture `i` at `path`.
    pub open spec fn with_texture(self, i: usize, path: Seq<char>) -> MaterialView {
        let m = self.with_room(i);
        if i < m.textures.len() {
            MaterialView { textures: m.textures.update(i as int, path), ..m }
        } else {
            m
        }
    }
}

// ---------------------------------------------------------------- trait ---

pub struct Trait {
    pub materials: StringHashMap<Material>,
    /// variant name -> the parts it makes visible
    pub variants: Vec<(String, Names)>,
}

#[verifier::ext_equal]
pub struct TraitView {
    pub materials: Map<Seq<char>, MaterialView>,
    pub variants: Seq<(Seq<char>, Seq<Seq<char>>)>,
}

pub open spec fn material_map(m: Map<Seq<char>, Material>) -> Map<Seq<char>, MaterialView> {
    m.map_values(|v: Material| v@)
}

pub open spec fn variant_views(v: Seq<(String, Names)>) -> Seq<
    (Seq<char>, Seq<Seq<char>>),
> {
    Seq::new(v.len(), |i: int| (v[i].0@, v[i].1@))
}

impl View for Trait {
    type V = TraitView;

    open spec fn view(&self) -> TraitView {
        TraitView {
            materials: material_map(self.materials@),
            variants: variant_views(self.variants@),
        }
    }
}

/// The parts of the first variant with a name.
pub open spec fn variant_named(v: Seq<(Seq<char>, Seq<Seq<char>>)>, name: Seq<char>) -> Option<
    Seq<Seq<char>>,
>
    decreases v.len(),
{
    if v.len() == 0 {
        None
    } else if v[0].0 == name {
        Some(v[0].1)
    } else {
        variant_named(v.skip(1), name)
    }
}

impl Trait {
    pub open spec fn wf(self) -> bool {
        forall|i: int| 0 <= i < self.variants@.len() ==> (#[trigger] self.variants@[i]).1.wf()
    }

    pub fn new() -> (r: Trait)
        ensures
            r.wf(),
            r@ == (TraitView { materials: Map::empty(), variants: Seq::empty() }),
    {
        let r = Trait { materials: StringHashMap::new(), variants: Vec::new() };
        assert(r@ =~= (TraitView { materials: Map::empty(), variants: Seq::empty() }));
        r
    }

    pub fn variant(&self, name: &str) -> (r: Option<&Names>)
        requires
            self.wf(),
        ensures
            r matches Some(s) ==> s.wf(),
            match r {
                Some(s) => variant_named(self@.variants, name@) == Some(s@),
                None => variant_named(self@.variants, name@) is None,
            },
    {
        let mut i: usize = 0;
        let ghost all = self@.variants;
        assert(all.skip(0) =~= all);
        while i < self.variants.len()
            invariant
                i <= self.variants@.len(),
                self.wf(),
                all == variant_views(self.variants@),
                variant_named(all.skip(i as int), name@) == variant_named(all, name@),
            decreases self.variants@.len() - i,
        {
            assert(all.skip(i as int)[0] == all[i as int]);
            if same_str(self.variants[i].0.as_str(), name) {
                return Some(&self.variants[i].1);
            }
            assert(all.skip(i as int).skip(1) =~= all.skip(i + 1));
            i = i + 1;
        }
        None
    }
}

/// The words inside `( ... )` that are decimals, as numbers.
pub open spec fn decimals_in(t: Map<Seq<char>, u32>, w: Seq<Seq<char>>) -> Seq<u32>
    decreases w.len(),
{
    if w.len() == 0 {
        Seq::empty()
    } else {
        match meaning(t, w.last()) {
            Some(v) => decimals_in(t, w.drop_last()).push(v),
            None => decimals_in(t, w.drop_last()),
        }
    }
}

pub open spec fn values_on(t: Map<Seq<char>, u32>, line: Seq<char>) -> Seq<u32> {
    match inside(line) {
        Some(s) => decimals_in(t, words(s)),
        None => Seq::empty(),
    }
}

fn values(line: &[char], t: &Decimals) -> (r: Vec<u32>)
    ensures
        r@ == values_on(t@, line@),
{
    let mut r: Vec<u32> = Vec::new();
    match between(line) {
        None => {},
        Some(s) => {
            let w = split_words(s);
            let ghost all = words(s@);
            let mut i: usize = 0;
            assert(r@ =~= decimals_in(t@, all.take(0)));
            while i < w.len()
                invariant
                    i <= w@.len(),
                    parts(w@) == all,
                    r@ == decimals_in(t@, all.take(i as int)),
                decreases w@.len() - i,
            {
                assert(parts(w@)[i as int] == w@[i as int]@);
                assert(all.take(i + 1).drop_last() =~= all.take(i as int));
                match t.get(w[i]) {
                    Some(v) => {
                        r.push(v);
                    },
                    None => {},
                }
                i = i + 1;
            }
            assert(all.take(i as int) =~= all);
        },
    }
    r
}

/// The index in a tag such as `texture[0]:texture_base`.
pub open spec fn texture_index(tag: Seq<char>) -> Option<usize> {
    match after_prefix(tag, "texture["@) {
        None => None,
        Some(rest) => match halves(rest, ']') {
            None => None,
            Some(h) => match number(h.0, 10, usize::MAX as nat) {
                Some(v) => Some(v as usize),
                None => Some(0),
            },
        },
    }
}

fn read_index(tag: &str) -> (r: Option<usize>)
    ensures
        r == texture_index(tag@),
{
    let c = chars_of(tag);
    match strip_prefix(c.as_slice(), "texture[") {
        None => None,
        Some(rest) => match split_once(rest, ']') {
            None => None,
            Some((n, _)) => match read_number(n, 10, usize::MAX as u64) {
                Some(v) => Some(v as usize),
                None => Some(0),
            },
        },
    }
}

// -------------------------------------------------------------- reading ---

/// Which block a line sits in. `Material` and `Part` both contain nested
/// `Attribute`/`Texture` blocks, so a reader in which any `}` closes the current
/// thing would shut them at the first attribute.
#[derive(Clone, Copy, PartialEq, Eq, Structural)]
pub enum Block {
    Look,
    Material,
    Variant,
    Part,
    Other,
}

/// Where a reader stands after some lines.
#[verifier::ext_equal]
pub struct ReaderView {
    pub found: TraitView,
    pub stack: Seq<Block>,
    /// how many looks have begun; two stands for all further ones
    pub looks: u8,
    pub material: Option<MaterialView>,
    pub tag: Seq<char>,
    pub in_variant: bool,
    pub variant: Seq<char>,
    pub parts: Seq<Seq<char>>,
    pub part: Seq<char>,
    pub visible: bool,
}

impl MaterialView {
    /// A material after one line of its block, where `tag` is the last tag read.
    pub open spec fn after(
        self,
        line: Seq<char>,
        tag: Seq<char>,
        t: Map<Seq<char>, u32>,
    ) -> MaterialView {
        let v = values_on(t, line);
        if "Alias:"@.is_prefix_of(line) {
            MaterialView { alias: quoted_text(line), ..self }
        } else if "Effect:"@.is_prefix_of(line) {
            MaterialView { effect: quoted_text(line), ..self }
        } else if "Tag:"@.is_prefix_of(line) {
            match texture_index(quoted_text(line)) {
                Some(i) => self.with_room(i),
                None => self,
            }
        } else if "Value:"@.is_prefix_of(line) {
            if tag == "diffuse"@ {
                if v.len() >= 3 {
                    MaterialView { diffuse: (v[0], v[1], v[2]), ..self }
                } else {
                    self
                }
            } else {
                match texture_index(tag) {
                    Some(i) => self.with_texture(i, quoted_text(line)),
                    None => self,
                }
            }
        } else {
            self
        }
    }
}

impl ReaderView {
    pub open spec fn start() -> ReaderView {
        ReaderView {
            found: TraitView { materials: Map::empty(), variants: Seq::empty() },
            stack: Seq::empty(),
            looks: 0,
            material: None,
            tag: Seq::empty(),
            in_variant: false,
            variant: Seq::empty(),
            parts: Seq::empty(),
            part: Seq::empty(),
            visible: true,
        }
    }

    pub open spec fn inside_of(self, b: Block) -> bool {
        self.stack.len() > 0 && self.stack.last() == b
    }

    /// A line that opens a block. Only the first look is read: looks are
    /// alternative paint schemes for the same geometry.
    pub open spec fn opened(self, head: Seq<char>) -> ReaderView {
        if head == "Look"@ {
            ReaderView {
                looks: if self.looks < 2 {
                    (self.looks + 1) as u8
                } else {
                    self.looks
                },
                stack: self.stack.push(Block::Look),
                ..self
            }
        } else if head == "Variant"@ {
            ReaderView {
                in_variant: true,
                variant: Seq::empty(),
                parts: Seq::empty(),
                stack: self.stack.push(Block::Variant),
                ..self
            }
        } else if head == "Material"@ && self.looks <= 1 && self.inside_of(Block::Look) {
            ReaderView {
                material: Some(MaterialView::blank()),
                stack: self.stack.push(Block::Material),
                ..self
            }
        } else if head == "Part"@ && self.inside_of(Block::Variant) {
            ReaderView {
                part: Seq::empty(),
                visible: true,
                stack: self.stack.push(Block::Part),
                ..self
            }
        } else {
            ReaderView { stack: self.stack.push(Block::Other), ..self }
        }
    }

    /// A line that closes the innermost block.
    pub open spec fn closed(self) -> ReaderView {
        if self.stack.len() == 0 {
            self
        } else {
            let up = ReaderView { stack: self.stack.drop_last(), ..self };
            match self.stack.last() {
                Block::Material => ReaderView {
                    material: None,
                    found: match self.material {
                        Some(m) => if m.alias.len() > 0 && !self.found.materials.contains_key(
                            m.alias,
                        ) {
                            TraitView {
                                materials: self.found.materials.insert(m.alias, m),
                                ..self.found
                            }
                        } else {
                            self.found
                        },
                        None => self.found,
                    },
                    ..up
                },
                Block::Part => ReaderView {
                    parts: if self.visible && self.part.len() > 0 {
                        adding(self.parts, self.part)
                    } else {
                        self.parts
                    },
                    part: Seq::empty(),
                    ..up
                },
                Block::Variant => ReaderView {
                    found: TraitView {
                        variants: self.found.variants.push((self.variant, self.parts)),
                        ..self.found
                    },
                    variant: Seq::empty(),
                    parts: Seq::empty(),
                    in_variant: false,
                    ..up
                },
                _ => up,
            }
        }
    }

    /// A line inside a variant.
    pub open spec fn in_variant(self, line: Seq<char>, t: Map<Seq<char>, u32>) -> ReaderView {
        if "Name:"@.is_prefix_of(line) {
            if self.inside_of(Block::Part) {
                ReaderView { part: quoted_text(line), ..self }
            } else {
                ReaderView { variant: quoted_text(line), ..self }
            }
        } else if "Tag:"@.is_prefix_of(line) {
            ReaderView { tag: quoted_text(line), ..self }
        } else if "Value:"@.is_prefix_of(line) && self.tag == "visible"@ {
            // no number means visible; of the numbers only zero hides
            ReaderView {
                visible: values_on(t, line).len() == 0 || values_on(t, line)[0] % 0x8000_0000 != 0,
                ..self
            }
        } else {
            self
        }
    }

    /// The reader after one trimmed line.
    pub open spec fn after(self, line: Seq<char>, t: Map<Seq<char>, u32>) -> ReaderView {
        if line.len() == 0 {
            self
        } else if line.last() == '{' {
            self.opened(trimmed(back_trimmed(line, Class::Is('{'))))
        } else if line == "}"@ {
            self.closed()
        } else if self.in_variant {
            self.in_variant(line, t)
        } else {
            match self.material {
                None => self,
                Some(m) => ReaderView {
                    material: Some(m.after(line, self.tag, t)),
                    tag: if "Tag:"@.is_prefix_of(line) {
                        quoted_text(line)
                    } else {
                        self.tag
                    },
                    ..self
                },
            }
        }
    }
}

/// The reader after the lines `ls`.
pub open spec fn after_lines(ls: Seq<Seq<char>>, t: Map<Seq<char>, u32>) -> ReaderView
    decreases ls.len(),
{
    if ls.len() == 0 {
        ReaderView::start()
    } else {
        after_lines(ls.drop_last(), t).after(trimmed(ls.last()), t)
    }
}

/// The trait that a text describes.
pub open spec fn trait_in(text: Seq<char>, t: Map<Seq<char>, u32>) -> TraitView {
    after_lines(lines(text), t).found
}

struct Reader {
    found: Trait,
    stack: Vec<Block>,
    looks: u8,
    material: Option<Material>,
    tag: String,
    in_variant: bool,
    variant: String,
    parts: Names,
    part: String,
    visible: bool,
}

impl View for Reader {
    type V = ReaderView;

    closed spec fn view(&self) -> ReaderView {
        ReaderView {
            found: self.found@,
            stack: self.stack@,
            looks: self.looks,
            material: match self.material {
                Some(m) => Some(m@),
                None => None,
            },
            tag: self.tag@,
            in_variant: self.in_variant,
            variant: self.variant@,
            parts: self.parts@,
            part: self.part@,
            visible: self.visible,
        }
    }
}

impl Material {
    fn make_room(&mut self, i: usize)
        ensures
            final(self)@ == old(self)@.with_room(i),
    {
        let ghost was = self@;
        if self.textures.len() <= i && i < usize::MAX {
            while self.textures.len() < i + 1
                invariant
                    was.textures.len() <= self.textures@.len() <= i + 1,
                    i < usize::MAX,
                    self.alias@ == was.alias,
                    self.effect@ == was.effect,
                    self.diffuse == was.diffuse,
                    texts(self.textures@) =~= Seq::new(
                        self.textures@.len(),
                        |k: int|
                            if k < was.textures.len() {
                                was.textures[k]
                            } else {
                                Seq::empty()
                            },
                    ),
                decreases i + 1 - self.textures@.len(),
            {
                let ghost before = texts(self.textures@);
                self.textures.push(String::new());
                assert(texts(self.textures@) =~= before.push(Seq::<char>::empty()));
            }
        }
        assert(self@ =~= was.with_room(i));
    }

    fn set_texture(&mut self, i: usize, path: String)
        ensures
            final(self)@ == old(self)@.with_texture(i, path@),
    {
        let ghost was = self@;
        self.make_room(i);
        let ghost roomy = self@;
        if i < self.textures.len() {
            self.textures.set(i, path);
            assert(texts(self.textures@) =~= roomy.textures.update(i as int, path@));
        }
        assert(self@ =~= was.with_texture(i, path@));
    }

    fn read(&mut self, line: &[char], tag: &str, t: &Decimals)
        ensures
            final(self)@ == old(self)@.after(line@, tag@, t@),
    {
        let ghost was = self@;
        if begins(line, "Alias:") {
            self.alias = read_quoted(line);
        } else if begins(line, "Effect:") {
            self.effect = read_quoted(line);
        } else if begins(line, "Tag:") {
            match read_index(read_quoted(line).as_str()) {
                Some(i) => {
                    self.make_room(i);
                },
                None => {},
            }
        } else if begins(line, "Value:") {
            if same_str(tag, "diffuse") {
                let v = values(line, t);
                if v.len() >= 3 {
                    self.diffuse = (v[0], v[1], v[2]);
                }
            } else {
                match read_index(tag) {
                    Some(i) => {
                        self.set_texture(i, read_quoted(line));
                    },
                    None => {},
                }
            }
        }
        assert(self@ =~= was.after(line@, tag@, t@));
    }
}

impl Reader {
    closed spec fn wf(self) -> bool {
        self.found.wf() && self.parts.wf()
    }

    fn new() -> (r: Reader)
        ensures
            r.wf(),
            r@ == ReaderView::start(),
    {
        let r = Reader {
            found: Trait { materials: StringHashMap::new(), variants: Vec::new() },
            stack: Vec::new(),
            looks: 0,
            material: None,
            tag: String::new(),
            in_variant: false,
            variant: String::new(),
            parts: Names::new(),
            part: String::new(),
            visible: true,
        };
        assert(r@ =~~= ReaderView::start());
        r
    }

    fn is_inside(&self, b: Block) -> (r: bool)
        ensures
            r == self@.inside_of(b),
    {
        self.stack.len() > 0 && self.stack[self.stack.len() - 1] == b
    }

    fn open(&mut self, head: &[char])
        requires
            old(self).wf(),
        ensures
            final(self).wf(),
            final(self)@ == old(self)@.opened(head@),
    {
        let ghost was = self@;
        if equals(head, "Look") {
            if self.looks < 2 {
                self.looks = self.looks + 1;
            }
            self.stack.push(Block::Look);
        } else if equals(head, "Variant") {
            self.in_variant = true;
            self.variant = String::new();
            self.parts = Names::new();
            self.stack.push(Block::Variant);
        } else if equals(head, "Material") && self.looks <= 1 && self.is_inside(Block::Look) {
            self.material = Some(Material::new());
            self.stack.push(Block::Material);
        } else if equals(head, "Part") && self.is_inside(Block::Variant) {
            self.part = String::new();
            self.visible = true;
            self.stack.push(Block::Part);
        } else {
            self.stack.push(Block::Other);
        }
        assert(self@ =~~= was.opened(head@));
    }

    fn close(&mut self)
        requires
            old(self).wf(),
        ensures
            final(self).wf(),
            final(self)@ == old(self)@.closed(),
    {
        let ghost was = self@;
        if self.stack.len() == 0 {
            return;
        }
        match self.stack.pop() {
            Some(Block::Material) => {
                match self.material.take() {
                    Some(m) => {
                        let alias = m.alias.clone();
                        let c = chars_of(alias.as_str());
                        if c.len() > 0 && !self.found.materials.contains_key(alias.as_str()) {
                            let ghost before = self.found.materials@;
                            let ghost v = m@;
                            self.found.materials.insert(alias, m);
                            assert(material_map(self.found.materials@) =~= material_map(
                                before,
                            ).insert(v.alias, v));
                        }
                    },
                    None => {},
                }
            },
            Some(Block::Part) => {
                let c = chars_of(self.part.as_str());
                if self.visible && c.len() > 0 {
                    self.parts.add(self.part.as_str());
                }
                self.part = String::new();
            },
            Some(Block::Variant) => {
                let name = self.variant.clone();
                let mut shown = Names::new();
                std::mem::swap(&mut shown, &mut self.parts);
                let ghost entry = (name@, shown@);
                let ghost before = variant_views(self.found.variants@);
                self.found.variants.push((name, shown));
                assert(variant_views(self.found.variants@) =~= before.push(entry));
                self.variant = String::new();
                self.in_variant = false;
            },
            _ => {},
        }
        assert(self@ =~~= was.closed());
    }

    fn read_variant(&mut self, line: &[char], t: &Decimals)
        requires
            old(self).wf(),
        ensures
            final(self).wf(),
            final(self)@ == old(self)@.in_variant(line@, t@),
    {
        let ghost was = self@;
        if begins(line, "Name:") {
            if self.is_inside(Block::Part) {
                self.part = read_quoted(line);
            } else {
                self.variant = read_quoted(line);
            }
        } else if begins(line, "Tag:") {
            self.tag = read_quoted(line);
        } else if begins(line, "Value:") && same_str(self.tag.as_str(), "visible") {
            let v = values(line, t);
            self.visible = v.len() == 0 || v[0] % 0x8000_0000 != 0;
        }
        assert(self@ =~~= was.in_variant(line@, t@));
    }

    fn read(&mut self, line: &[char], t: &Decimals)
        requires
            old(self).wf(),
        ensures
            final(self).wf(),
            final(self)@ == old(self)@.after(line@, t@),
    {
        let ghost was = self@;
        if line.len() == 0 {
        } else if line[line.len() - 1] == '{' {
            self.open(trim(trim_back(line, Class::Is('{'))));
        } else if equals(line, "}") {
            self.close();
        } else if self.in_variant {
            self.read_variant(line, t);
        } else {
            match &mut self.material {
                None => {},
                Some(m) => {
                    m.read(line, self.tag.as_str(), t);
                    if begins(line, "Tag:") {
                        self.tag = read_quoted(line);
                    }
                },
            }
            assert(self@ =~~= was.after(line@, t@));
        }
    }
}

pub fn parse(text: &str, t: &Decimals) -> (r: Trait)
    ensures
        r.wf(),
        r@ == trait_in(text@, t@),
{
    let c = chars_of(text);
    let ls = split_lines(c.as_slice());
    let mut m = Reader::new();
    let mut i: usize = 0;
    let ghost all = lines(text@);
    assert(all.take(0) =~= Seq::<Seq<char>>::empty());
    while i < ls.len()
        invariant
            i <= ls@.len(),
            parts(ls@) == all,
            m.wf(),
            m@ == after_lines(all.take(i as int), t@),
        decreases ls@.len() - i,
    {
        assert(parts(ls@)[i as int] == ls@[i as int]@);
        assert(all.take(i + 1).drop_last() =~= all.take(i as int));
        m.read(trim(ls[i]), t);
        i = i + 1;
    }
    assert(all.take(i as int) =~= all);
    m.found
}

} // verus!
