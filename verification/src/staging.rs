//! Taking textures along: which image files a scene needs, what is done to each,
//! and under which name it comes to lie beside the scene.
//!
//! The images are left in whatever format they were shipped in.

use crate::dds::{
    alpha_in, blocks_stay_as_they_are, dds_force_opaque, dds_from_dx10, made_opaque,
    opaque_images_stay_opaque, under_old_header,
};
use crate::harvest::{adding, Names};
use crate::scene::{add_capped, capped, surface_views, Surface, SurfaceView};
use crate::text::{
    cat, cat3, chars_of, decimal, opt_text, pieces, replace, same_str, split, string_of,
    strings_of, texts, unroot, unrooted, with_for, write_usize,
};
use vstd::prelude::*;

verus! {

/// The name of a texture's file: its path with the folders run together.
pub open spec fn flat(tex: Seq<char>) -> Seq<char> {
    with_for(unrooted(tex), '/', '\\', '_')
}

pub fn flat_name(tex: &str) -> (r: String)
    ensures
        r@ == flat(tex@),
{
    let c = chars_of(tex);
    string_of(replace(unroot(c.as_slice()), '/', '\\', '_').as_slice())
}

// ------------------------------------------------------------ treatment ---

/// A texture after treatment: its bytes, whether the header was rewritten, and
/// whether the alpha was forced.
pub struct TreatedView {
    pub bytes: Seq<u8>,
    pub downgraded: bool,
    pub flattened: bool,
}

/// What is done to an image of a kind. Only DDS is touched: the header is made
/// one that older readers know, and the alpha forced opaque unless it is meant.
pub open spec fn treated(ext: Seq<char>, bytes: Seq<u8>, keep_alpha: bool) -> TreatedView {
    if ext != "dds"@ {
        TreatedView { bytes, downgraded: false, flattened: false }
    } else {
        let plain = match under_old_header(bytes) {
            Some(v) => v,
            None => bytes,
        };
        TreatedView {
            bytes: if keep_alpha {
                plain
            } else {
                made_opaque(plain)
            },
            downgraded: under_old_header(bytes) is Some,
            flattened: !keep_alpha && !(alpha_in(plain) is Nowhere),
        }
    }
}

pub struct Treated {
    pub bytes: Vec<u8>,
    pub downgraded: bool,
    pub flattened: bool,
}

impl View for Treated {
    type V = TreatedView;

    open spec fn view(&self) -> TreatedView {
        TreatedView {
            bytes: self.bytes@,
            downgraded: self.downgraded,
            flattened: self.flattened,
        }
    }
}

pub fn treat(ext: &str, bytes: Vec<u8>, keep_alpha: bool) -> (r: Treated)
    ensures
        r@ == treated(ext@, bytes@, keep_alpha),
{
    if !same_str(ext, "dds") {
        return Treated { bytes, downgraded: false, flattened: false };
    }
    let (mut plain, downgraded) = match dds_from_dx10(bytes.as_slice()) {
        Some(v) => (v, true),
        None => (bytes, false),
    };
    let flattened = if keep_alpha {
        false
    } else {
        dds_force_opaque(&mut plain)
    };
    Treated { bytes: plain, downgraded, flattened }
}

// ----------------------------------------------------------------- jobs ---

/// A texture to be taken along, and whether its alpha means opacity somewhere.
#[verifier::ext_equal]
pub struct ImageView {
    pub texture: Seq<char>,
    pub keep_alpha: bool,
}

/// The textures that surfaces show, each once, as they first come.
pub open spec fn textures_of(v: Seq<SurfaceView>) -> Seq<Seq<char>>
    decreases v.len(),
{
    if v.len() == 0 {
        Seq::empty()
    } else {
        let r = textures_of(v.drop_last());
        match v.last().texture {
            Some(t) => adding(r, t),
            None => r,
        }
    }
}

/// Whether a surface that means its alpha shows a texture. A texture shared
/// between bodywork and a window has to keep it, so this is decided by the image
/// and not by the surface.
pub open spec fn alpha_is_meant(v: Seq<SurfaceView>, t: Seq<char>) -> bool {
    exists|i: int|
        0 <= i < v.len() && (#[trigger] v[i]).texture == Some(t) && v[i].wants_alpha
}

pub open spec fn images_of(v: Seq<SurfaceView>) -> Seq<ImageView> {
    let t = textures_of(v);
    Seq::new(
        t.len(),
        |i: int| ImageView { texture: t[i], keep_alpha: alpha_is_meant(v, t[i]) },
    )
}

pub struct Image {
    pub texture: String,
    pub keep_alpha: bool,
}

impl View for Image {
    type V = ImageView;

    open spec fn view(&self) -> ImageView {
        ImageView { texture: self.texture@, keep_alpha: self.keep_alpha }
    }
}

pub open spec fn image_views(v: Seq<Image>) -> Seq<ImageView> {
    Seq::new(v.len(), |i: int| v[i]@)
}

fn list_textures(v: &Vec<Surface>) -> (r: Names)
    ensures
        r.wf(),
        r@ == textures_of(surface_views(v@)),
{
    let ghost all = surface_views(v@);
    let mut r = Names::new();
    let mut i: usize = 0;
    assert(all.take(0) =~= Seq::<SurfaceView>::empty());
    while i < v.len()
        invariant
            i <= v@.len(),
            all == surface_views(v@),
            r.wf(),
            r@ == textures_of(all.take(i as int)),
        decreases v@.len() - i,
    {
        assert(all.take(i + 1).drop_last() =~= all.take(i as int));
        assert(all.take(i + 1).last() == v@[i as int]@);
        match &v[i].texture {
            Some(t) => {
                r.add(t.as_str());
            },
            None => {},
        }
        i = i + 1;
    }
    assert(all.take(i as int) =~= all);
    r
}

fn means_alpha(v: &Vec<Surface>, t: &str) -> (r: bool)
    ensures
        r == alpha_is_meant(surface_views(v@), t@),
{
    let ghost all = surface_views(v@);
    let mut i: usize = 0;
    while i < v.len()
        invariant
            i <= v@.len(),
            all == surface_views(v@),
            forall|k: int|
                0 <= k < i ==> !((#[trigger] all[k]).texture == Some(t@) && all[k].wants_alpha),
        decreases v@.len() - i,
    {
        assert(all[i as int] == v@[i as int]@);
        match &v[i].texture {
            Some(x) => {
                if v[i].wants_alpha && same_str(x.as_str(), t) {
                    return true;
                }
            },
            None => {},
        }
        i = i + 1;
    }
    false
}

fn list_images(v: &Vec<Surface>) -> (r: Vec<Image>)
    ensures
        image_views(r@) == images_of(surface_views(v@)),
{
    let names = list_textures(v);
    let mut r: Vec<Image> = Vec::new();
    let mut i: usize = 0;
    let ghost want = images_of(surface_views(v@));
    while i < names.list.len()
        invariant
            i <= names.list@.len(),
            names@ == textures_of(surface_views(v@)),
            want == images_of(surface_views(v@)),
            image_views(r@) =~= want.take(i as int),
        decreases names.list@.len() - i,
    {
        let ghost before = image_views(r@);
        assert(names@[i as int] == names.list@[i as int]@);
        let t = names.list[i].as_str();
        let x = Image { texture: t.to_owned(), keep_alpha: means_alpha(v, t) };
        let ghost xv = x@;
        r.push(x);
        assert(xv == want[i as int]);
        assert(image_views(r@) =~= before.push(xv));
        i = i + 1;
    }
    assert(want.take(i as int) =~= want);
    r
}

// -------------------------------------------------------------- staging ---

/// What came of looking for an image file.
pub enum Tried {
    /// there is no such file
    NotThere,
    /// it was taken along before
    AlreadyOut,
    /// it cannot be read
    Unreadable,
    /// it was read and treated, and then written or not
    Handled { downgraded: bool, flattened: bool, written: bool },
}

pub open spec fn extension(step: nat) -> Seq<char> {
    if step % 4 == 0 {
        "dds"@
    } else if step % 4 == 1 {
        "tga"@
    } else if step % 4 == 2 {
        "png"@
    } else {
        "jpg"@
    }
}

/// The name of an image beside the scene.
pub open spec fn out_name(texture: Seq<char>, step: nat) -> Seq<char> {
    flat(texture) + "."@ + extension(step)
}

/// Where the search for images has got to. `resolved` says of each image so far
/// under which path it lies, if it was found; `step` counts the places tried for
/// the next: four extensions in the one folder, then four in the other.
#[verifier::ext_equal]
pub struct StagingView {
    pub images: Seq<ImageView>,
    pub step: nat,
    pub resolved: Seq<Option<Seq<char>>>,
    pub written: usize,
    pub missing: usize,
    pub flattened: usize,
    pub downgraded: usize,
}

impl StagingView {
    pub open spec fn start(v: Seq<SurfaceView>) -> StagingView {
        StagingView {
            images: images_of(v),
            step: 0,
            resolved: Seq::empty(),
            written: 0,
            missing: 0,
            flattened: 0,
            downgraded: 0,
        }
    }

    pub open spec fn done(self) -> bool {
        self.resolved.len() >= self.images.len()
    }

    pub open spec fn image(self) -> ImageView {
        self.images[self.resolved.len() as int]
    }

    /// On to the next place; behind the last the image counts as missing.
    pub open spec fn failing(self) -> StagingView {
        if self.step + 1 < 8 {
            StagingView { step: self.step + 1, ..self }
        } else {
            StagingView {
                step: 0,
                resolved: self.resolved.push(None),
                missing: capped(self.missing + 1),
                ..self
            }
        }
    }

    pub open spec fn finding(self) -> StagingView {
        StagingView {
            step: 0,
            resolved: self.resolved.push(
                Some("textures/"@ + out_name(self.image().texture, self.step)),
            ),
            written: capped(self.written + 1),
            ..self
        }
    }

    pub open spec fn counting(self, downgraded: bool, flattened: bool) -> StagingView {
        StagingView {
            downgraded: if downgraded {
                capped(self.downgraded + 1)
            } else {
                self.downgraded
            },
            flattened: if flattened {
                capped(self.flattened + 1)
            } else {
                self.flattened
            },
            ..self
        }
    }

    pub open spec fn after(self, t: Tried) -> StagingView {
        match t {
            Tried::NotThere => self.failing(),
            Tried::Unreadable => self.failing(),
            Tried::AlreadyOut => self.finding(),
            Tried::Handled { downgraded, flattened, written } => if written {
                self.counting(downgraded, flattened).finding()
            } else {
                self.counting(downgraded, flattened).failing()
            },
        }
    }
}

/// A place to look for an image: in which folder, along which names, with which
/// extension; the name it gets beside the scene; whether its alpha is kept.
pub struct Attempt {
    /// whether it is the second folder
    pub second: bool,
    pub path: Vec<String>,
    pub ext: &'static str,
    pub out: String,
    pub keep_alpha: bool,
}

pub struct AttemptView {
    pub second: bool,
    pub path: Seq<Seq<char>>,
    pub ext: Seq<char>,
    pub out: Seq<char>,
    pub keep_alpha: bool,
}

impl View for Attempt {
    type V = AttemptView;

    open spec fn view(&self) -> AttemptView {
        AttemptView {
            second: self.second,
            path: texts(self.path@),
            ext: self.ext@,
            out: self.out@,
            keep_alpha: self.keep_alpha,
        }
    }
}

pub open spec fn attempt_of(s: StagingView) -> AttemptView {
    let i = s.image();
    AttemptView {
        second: s.step >= 4,
        path: pieces(unrooted(i.texture), '/'),
        ext: extension(s.step),
        out: out_name(i.texture, s.step),
        keep_alpha: i.keep_alpha,
    }
}

pub struct Staging {
    images: Vec<Image>,
    step: usize,
    resolved: Vec<Option<String>>,
    pub written: usize,
    pub missing: usize,
    pub flattened: usize,
    pub downgraded: usize,
}

pub open spec fn opt_texts(v: Seq<Option<String>>) -> Seq<Option<Seq<char>>> {
    Seq::new(v.len(), |i: int| opt_text(v[i]))
}

impl View for Staging {
    type V = StagingView;

    closed spec fn view(&self) -> StagingView {
        StagingView {
            images: image_views(self.images@),
            step: self.step as nat,
            resolved: opt_texts(self.resolved@),
            written: self.written,
            missing: self.missing,
            flattened: self.flattened,
            downgraded: self.downgraded,
        }
    }
}

fn extension_at(step: usize) -> (r: &'static str)
    ensures
        r@ == extension(step as nat),
{
    if step % 4 == 0 {
        "dds"
    } else if step % 4 == 1 {
        "tga"
    } else if step % 4 == 2 {
        "png"
    } else {
        "jpg"
    }
}

fn name_out(texture: &str, step: usize) -> (r: String)
    ensures
        r@ == out_name(texture@, step as nat),
{
    cat3(flat_name(texture).as_str(), ".", extension_at(step))
}

impl Staging {
    /// The images that some surfaces need, none of them looked for yet.
    pub fn new(surfaces: &Vec<Surface>) -> (r: Staging)
        ensures
            r@ == StagingView::start(surface_views(surfaces@)),
    {
        let r = Staging {
            images: list_images(surfaces),
            step: 0,
            resolved: Vec::new(),
            written: 0,
            missing: 0,
            flattened: 0,
            downgraded: 0,
        };
        assert(r@ =~= StagingView::start(surface_views(surfaces@)));
        r
    }

    /// The next place to look in, if an image is left to look for.
    pub fn next(&self) -> (r: Option<Attempt>)
        ensures
            match r {
                Some(a) => !self@.done() && a@ == attempt_of(self@),
                None => self@.done(),
            },
    {
        let k: usize = self.resolved.len();
        if k >= self.images.len() {
            return None;
        }
        let i = &self.images[k];
        assert(self@.image() == i@);
        let c = chars_of(i.texture.as_str());
        let p = split(unroot(c.as_slice()), '/');
        Some(
            Attempt {
                second: self.step >= 4,
                path: strings_of(&p),
                ext: extension_at(self.step),
                out: name_out(i.texture.as_str(), self.step),
                keep_alpha: i.keep_alpha,
            },
        )
    }

    fn fail(&mut self)
        requires
            !old(self)@.done(),
        ensures
            final(self)@ == old(self)@.failing(),
    {
        let ghost was = self@;
        if self.step < 7 {
            self.step = self.step + 1;
            assert(self@ =~= was.failing());
        } else {
            self.step = 0;
            self.resolved.push(None);
            self.missing = add_capped(self.missing, 1);
            assert(opt_texts(self.resolved@) =~= was.resolved.push(None));
            assert(self@ =~= was.failing());
        }
    }

    fn succeed(&mut self)
        requires
            !old(self)@.done(),
        ensures
            final(self)@ == old(self)@.finding(),
    {
        let ghost was = self@;
        let k: usize = self.resolved.len();
        assert(self@.image() == self.images@[k as int]@);
        let name = cat("textures/", name_out(self.images[k].texture.as_str(), self.step).as_str());
        let ghost path = name@;
        self.step = 0;
        self.resolved.push(Some(name));
        self.written = add_capped(self.written, 1);
        assert(opt_texts(self.resolved@) =~= was.resolved.push(Some(path)));
        assert(self@ =~= was.finding());
    }

    /// Takes note of what came of the last attempt.
    pub fn tell(&mut self, t: Tried)
        requires
            !old(self)@.done(),
        ensures
            final(self)@ == old(self)@.after(t),
    {
        let ghost was = self@;
        match t {
            Tried::NotThere => self.fail(),
            Tried::Unreadable => self.fail(),
            Tried::AlreadyOut => self.succeed(),
            Tried::Handled { downgraded, flattened, written } => {
                if downgraded {
                    self.downgraded = add_capped(self.downgraded, 1);
                }
                if flattened {
                    self.flattened = add_capped(self.flattened, 1);
                }
                assert(self@ =~= was.counting(downgraded, flattened));
                if written {
                    self.succeed();
                } else {
                    self.fail();
                }
            },
        }
    }

    /// The path that a texture lies under now.
    pub fn path_of(&self, texture: &Option<String>) -> (r: Option<String>)
        ensures
            opt_text(r) == repointed(self@, opt_text(*texture)),
    {
        match texture {
            None => None,
            Some(t) => {
                let mut i: usize = 0;
                while i < self.images.len()
                    invariant
                        i <= self.images@.len(),
                        opt_text(*texture) == Some(t@),
                        forall|k: int| 0 <= k < i ==> (#[trigger] self@.images[k]).texture != t@,
                    decreases self.images@.len() - i,
                {
                    assert(self@.images[i as int] == self.images@[i as int]@);
                    if same_str(self.images[i].texture.as_str(), t.as_str()) {
                        proof {
                            lemma_image_at(self@.images, t@, i as int);
                        }
                        if i < self.resolved.len() {
                            assert(self@.resolved[i as int] == opt_text(self.resolved@[i as int]));
                            return crate::livery::copied(&self.resolved[i]);
                        }
                        return None;
                    }
                    i = i + 1;
                }
                proof {
                    lemma_no_image(self@.images, t@);
                }
                None
            },
        }
    }

    /// What is said at the end.
    pub fn warnings(&self) -> (r: Vec<String>)
        ensures
            texts(r@) == staging_warnings(self@),
    {
        let mut r: Vec<String> = Vec::new();
        if self.missing > 0 {
            r.push(
                cat(
                    write_usize(self.missing).as_str(),
                    " texture(s) referenced by materials are not in this archive",
                ),
            );
        }
        if self.flattened > 0 {
            r.push(
                cat(
                    write_usize(self.flattened).as_str(),
                    " texture(s) had their alpha channel forced opaque (it is a specular mask, not transparency)",
                ),
            );
        }
        if self.downgraded > 0 {
            r.push(
                cat(
                    write_usize(self.downgraded).as_str(),
                    " DDS texture(s) rewritten from a DX10 header to legacy FourCC (Blender cannot read DX10)",
                ),
            );
        }
        assert(texts(r@) =~= staging_warnings(self@));
        r
    }
}

/// The number of an image among images; the first if there were two.
pub open spec fn image_index(v: Seq<ImageView>, t: Seq<char>) -> Option<int>
    decreases v.len(),
{
    if v.len() == 0 {
        None
    } else {
        match image_index(v.drop_last(), t) {
            Some(i) => Some(i),
            None => if v.last().texture == t {
                Some(v.len() - 1)
            } else {
                None
            },
        }
    }
}

proof fn lemma_no_image(v: Seq<ImageView>, t: Seq<char>)
    requires
        forall|k: int| 0 <= k < v.len() ==> (#[trigger] v[k]).texture != t,
    ensures
        image_index(v, t) is None,
    decreases v.len(),
{
    if v.len() > 0 {
        let f = v.drop_last();
        assert forall|k: int| 0 <= k < f.len() implies (#[trigger] f[k]).texture != t by {
            assert(f[k] == v[k]);
        }
        lemma_no_image(f, t);
        assert(v[v.len() - 1].texture != t);
    }
}

proof fn lemma_image_at(v: Seq<ImageView>, t: Seq<char>, i: int)
    requires
        0 <= i < v.len(),
        v[i].texture == t,
        forall|k: int| 0 <= k < i ==> (#[trigger] v[k]).texture != t,
    ensures
        image_index(v, t) == Some(i),
    decreases v.len(),
{
    let f = v.drop_last();
    if i == v.len() - 1 {
        assert forall|k: int| 0 <= k < f.len() implies (#[trigger] f[k]).texture != t by {
            assert(f[k] == v[k]);
        }
        lemma_no_image(f, t);
    } else {
        assert forall|k: int| 0 <= k < i implies (#[trigger] f[k]).texture != t by {
            assert(f[k] == v[k]);
        }
        assert(f[i] == v[i]);
        lemma_image_at(f, t, i);
    }
}

/// What a surface points at once its texture has been looked for.
pub open spec fn repointed(s: StagingView, t: Option<Seq<char>>) -> Option<Seq<char>> {
    match t {
        None => None,
        Some(x) => match image_index(s.images, x) {
            Some(i) => if i < s.resolved.len() {
                s.resolved[i]
            } else {
                None
            },
            None => None,
        },
    }
}

pub open spec fn staging_warnings(s: StagingView) -> Seq<Seq<char>> {
    let a = if s.missing > 0 {
        seq![
            decimal(s.missing as nat)
                + " texture(s) referenced by materials are not in this archive"@,
        ]
    } else {
        Seq::empty()
    };
    let b = if s.flattened > 0 {
        a.push(
            decimal(s.flattened as nat)
                + " texture(s) had their alpha channel forced opaque (it is a specular mask, not transparency)"@,
        )
    } else {
        a
    };
    if s.downgraded > 0 {
        b.push(
            decimal(s.downgraded as nat)
                + " DDS texture(s) rewritten from a DX10 header to legacy FourCC (Blender cannot read DX10)"@,
        )
    } else {
        b
    }
}

/// An image is looked for in eight places at most: whatever is told, the search
/// comes closer to its end.
pub proof fn the_search_comes_to_an_end(s: StagingView, t: Tried)
    requires
        !s.done(),
        s.step < 8,
    ensures
        ({
            let n = s.after(t);
            &&& n.step < 8
            &&& n.images == s.images
            &&& 8 * (n.images.len() - n.resolved.len()) - n.step < 8 * (s.images.len()
                - s.resolved.len()) - s.step
        }),
{
}

/// Whether an attempt brought an image in.
pub open spec fn succeeds(t: Tried) -> bool {
    match t {
        Tried::AlreadyOut => true,
        Tried::Handled { downgraded, flattened, written } => written,
        _ => false,
    }
}

/// Where a search has got to after some attempts. Once it is done nothing counts.
pub open spec fn searched(s: StagingView, ts: Seq<Tried>) -> StagingView
    decreases ts.len(),
{
    if ts.len() == 0 {
        s
    } else {
        let n = searched(s, ts.drop_last());
        if n.done() {
            n
        } else {
            n.after(ts.last())
        }
    }
}

/// The first of the eight attempts from `at` on that succeeds, from the `j`-th on.
pub open spec fn success_from(ts: Seq<Tried>, at: nat, j: nat) -> Option<nat>
    decreases 8 - j,
{
    if j >= 8 || at + j >= ts.len() {
        None
    } else if succeeds(ts[(at + j) as int]) {
        Some(j)
    } else {
        success_from(ts, at, j + 1)
    }
}

/// The attempt with which the search for image `k` begins: behind the first success
/// for the image before it, or behind its eight failures.
pub open spec fn turn_of(ts: Seq<Tried>, k: nat) -> nat
    decreases k,
{
    if k == 0 {
        0
    } else {
        let at = turn_of(ts, (k - 1) as nat);
        match success_from(ts, at, 0) {
            Some(j) => at + j + 1,
            None => at + 8,
        }
    }
}

/// Where an image comes to lie, if any of the attempts for it succeeds.
pub open spec fn found_as(images: Seq<ImageView>, ts: Seq<Tried>, k: int) -> Option<Seq<char>> {
    match success_from(ts, turn_of(ts, k as nat), 0) {
        Some(j) => Some("textures/"@ + out_name(images[k].texture, j)),
        None => None,
    }
}

/// How many images were found.
pub open spec fn found_count(v: Seq<Option<Seq<char>>>) -> nat
    decreases v.len(),
{
    if v.len() == 0 {
        0
    } else {
        found_count(v.drop_last()) + (if v.last() is Some {
            1nat
        } else {
            0
        })
    }
}

proof fn lemma_failures(ts: Seq<Tried>, at: nat, j: nat)
    requires
        j <= 8,
        at + j <= ts.len(),
        forall|i: int| at <= i < at + j ==> !succeeds(#[trigger] ts[i]),
    ensures
        success_from(ts, at, 0) == success_from(ts, at, j),
    decreases j,
{
    if j > 0 {
        lemma_failures(ts, at, (j - 1) as nat);
        assert(!succeeds(ts[at + j - 1]));
    }
}

/// What holds after the first `n` of the attempts.
spec fn on_course(s: StagingView, images: Seq<ImageView>, ts: Seq<Tried>, n: int) -> bool {
    let m = s.resolved.len();
    &&& s.images == images
    &&& s.step < 8
    &&& m <= images.len()
    &&& !s.done() ==> turn_of(ts, m) + s.step == n
    &&& !s.done() ==> forall|i: int| turn_of(ts, m) <= i < n ==> !succeeds(#[trigger] ts[i])
    &&& forall|k: int| 0 <= k < m ==> #[trigger] s.resolved[k] == found_as(images, ts, k)
    &&& s.written == found_count(s.resolved)
    &&& s.written + s.missing == m
}

proof fn lemma_on_course(v: Seq<SurfaceView>, ts: Seq<Tried>, n: int)
    requires
        0 <= n <= ts.len(),
        images_of(v).len() <= usize::MAX,
    ensures
        on_course(searched(StagingView::start(v), ts.take(n)), images_of(v), ts, n),
    decreases n,
{
    let images = images_of(v);
    if n > 0 {
        lemma_on_course(v, ts, n - 1);
        assert(ts.take(n).drop_last() =~= ts.take(n - 1));
        let s = searched(StagingView::start(v), ts.take(n - 1));
        if !s.done() {
            let t = ts[n - 1];
            let r = s.after(t);
            let m = s.resolved.len();
            let at = turn_of(ts, m);
            assert(ts.take(n).last() == t);
            lemma_failures(ts, at, s.step);
            if !succeeds(t) {
                assert forall|i: int| at <= i < n implies !succeeds(#[trigger] ts[i]) by {}
                lemma_failures(ts, at, s.step + 1);
            }
            if r.resolved.len() > m {
                assert(r.resolved.drop_last() =~= s.resolved);
                assert(r.resolved[m as int] == found_as(images, ts, m as int));
                assert(turn_of(ts, m + 1) == n);
            }
            assert forall|k: int| 0 <= k < r.resolved.len() implies #[trigger] r.resolved[k]
                == found_as(images, ts, k) by {
                if k < m {
                    assert(r.resolved[k] == s.resolved[k]);
                }
            }
        }
    } else {
        assert(ts.take(0) =~= Seq::<Tried>::empty());
    }
}

/// A whole search: each image comes to lie where the first attempt for it that
/// succeeded put it, or nowhere if none of its eight did; and each counts once, as
/// written or as missing.
pub proof fn each_image_is_found_where_it_first_is(v: Seq<SurfaceView>, ts: Seq<Tried>)
    requires
        images_of(v).len() <= usize::MAX,
        searched(StagingView::start(v), ts).done(),
    ensures
        ({
            let s = searched(StagingView::start(v), ts);
            &&& s.images == images_of(v)
            &&& s.resolved.len() == images_of(v).len()
            &&& forall|k: int|
                0 <= k < s.resolved.len() ==> #[trigger] s.resolved[k] == found_as(
                    images_of(v),
                    ts,
                    k,
                )
            &&& s.written == found_count(s.resolved)
            &&& s.written + s.missing == images_of(v).len()
        }),
{
    lemma_on_course(v, ts, ts.len() as int);
    assert(ts.take(ts.len() as int) =~= ts);
}

/// An image that no glass shows comes out with all its alpha forced: forcing it
/// again changes nothing.
pub proof fn solid_images_come_out_opaque(bytes: Seq<u8>)
    ensures
        made_opaque(treated("dds"@, bytes, false).bytes) == treated("dds"@, bytes, false).bytes,
{
    opaque_images_stay_opaque(
        match under_old_header(bytes) {
            Some(v) => v,
            None => bytes,
        },
    );
}

/// An image that glass shows keeps its alpha with all its pixels, whatever becomes
/// of the header.
pub proof fn glass_keeps_its_alpha(ext: Seq<char>, bytes: Seq<u8>)
    ensures
        treated(ext, bytes, true).bytes == bytes || (treated(ext, bytes, true).downgraded
            && treated(ext, bytes, true).bytes.skip(128) == bytes.skip(148)),
        !treated(ext, bytes, true).flattened,
{
    blocks_stay_as_they_are(bytes);
}

/// An image keeps its alpha exactly where some surface that means it shows the
/// image, whatever else shows it too.
pub proof fn shared_images_keep_their_alpha(v: Seq<SurfaceView>, i: int, k: int)
    requires
        0 <= i < v.len(),
        v[i].texture is Some,
        0 <= k < images_of(v).len(),
        images_of(v)[k].texture == v[i].texture->0,
    ensures
        v[i].wants_alpha ==> images_of(v)[k].keep_alpha,
        images_of(v)[k].keep_alpha ==> exists|j: int|
            0 <= j < v.len() && (#[trigger] v[j]).texture == v[i].texture && v[j].wants_alpha,
{
}

} // verus!
